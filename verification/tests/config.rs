//! Configuration.

use pulse_ingestor::config::{
    number_complaint, optional, parse_non_zero, parse_number, parse_or, required, Config,
    ConfigError, EnvValue, Topics,
};

fn vars(pairs: &[(&str, &str)]) -> Vec<(String, EnvValue)> {
    pairs
        .iter()
        .map(|(k, v)| ((*k).to_owned(), EnvValue::Text((*v).to_owned())))
        .collect()
}

fn not_text(key: &str) -> (String, EnvValue) {
    (key.to_owned(), EnvValue::NotText)
}

fn complete() -> Vec<(String, EnvValue)> {
    vars(&[
        ("KAFKA_BOOTSTRAP_SERVERS", "localhost:19092"),
        ("KAFKA_TOPIC_EVENTS", "ingestion-events"),
        ("KAFKA_TOPIC_SIGNALS", "ingestion-signals"),
        ("KAFKA_TOPIC_LOGS", "ingestion-logs"),
        ("KAFKA_CONSUMER_GROUP", "pulse-ingestor"),
        ("GCS_BUCKET", "pulse-staging-local"),
    ])
}

#[test]
fn missing_required_key_is_reported_by_name() {
    let mut problems = Vec::new();
    let got = required("PULSE_TEST_DEFINITELY_UNSET_KEY", &[], &mut problems);
    assert!(got.is_none());
    assert_eq!(problems.len(), 1);
    assert!(problems[0].contains("PULSE_TEST_DEFINITELY_UNSET_KEY"));
    assert!(problems[0].contains("required"));
}

#[test]
fn unparsable_number_is_reported_and_falls_back() {
    let mut problems = Vec::new();
    let env = vars(&[("PULSE_TEST_BAD_NUMBER", "not-a-number")]);
    let got: u64 = parse_or("PULSE_TEST_BAD_NUMBER", 42, &env, &mut problems);

    assert_eq!(
        got, 42,
        "falls back so the error list stays the failure path"
    );
    assert_eq!(problems.len(), 1);
    assert!(problems[0].contains("not a valid number"));
}

#[test]
fn absent_optional_number_uses_its_default_silently() {
    let mut problems = Vec::new();
    let got: u64 = parse_or("PULSE_TEST_ANOTHER_UNSET_KEY", 7, &[], &mut problems);
    assert_eq!(got, 7);
    assert!(problems.is_empty(), "a default is not a problem");
}

#[test]
fn zero_offset_range_is_rejected() {
    let mut problems = Vec::new();
    let env = vars(&[("PULSE_TEST_ZERO_RANGE", "0")]);
    let got = parse_non_zero("PULSE_TEST_ZERO_RANGE", 10_000, &env, &mut problems);

    assert_eq!(got.get(), 10_000);
    assert_eq!(problems.len(), 1);
    assert!(
        problems[0].contains("greater than 0"),
        "a zero range would divide by zero and name every object identically"
    );
}

#[test]
fn all_problems_are_collected_not_just_the_first() {
    let mut problems = Vec::new();
    let _ = required("PULSE_TEST_UNSET_ONE", &[], &mut problems);
    let _ = required("PULSE_TEST_UNSET_TWO", &[], &mut problems);
    let _ = required("PULSE_TEST_UNSET_THREE", &[], &mut problems);
    assert_eq!(
        problems.len(),
        3,
        "one restart per missing var is not a workflow"
    );
}

#[test]
fn error_display_lists_every_problem() {
    let err = ConfigError {
        problems: vec!["A is required".into(), "B is required".into()],
    };
    let text = err.to_string();
    assert!(text.contains("2 problem(s)"));
    assert!(text.contains("A is required"));
    assert!(text.contains("B is required"));
    assert_eq!(
        text,
        "invalid configuration (2 problem(s)):\n  - A is required\n  - B is required\n\
         see .env.example for the full set"
    );
}

#[test]
fn topics_subscribe_in_contract_order() {
    let t = Topics {
        events: "ingestion-events".into(),
        signals: "ingestion-signals".into(),
        logs: "ingestion-logs".into(),
    };
    assert_eq!(
        t.all(),
        ["ingestion-events", "ingestion-signals", "ingestion-logs"]
    );
}

#[test]
fn a_complete_environment_loads_with_defaults_for_the_tunables() {
    let c = Config::from_env(&complete()).expect("nothing is missing");
    assert_eq!(c.bootstrap_servers, "localhost:19092");
    assert_eq!(
        c.topics.all(),
        ["ingestion-events", "ingestion-signals", "ingestion-logs"]
    );
    assert_eq!(c.consumer_group, "pulse-ingestor");
    assert_eq!(c.gcs_bucket, "pulse-staging-local");
    assert_eq!(c.batch_offset_range.get(), 10_000);
    assert_eq!(c.batch_max_idle_ms, 30_000);
    assert_eq!(c.storage_emulator_host, None);
    assert_eq!(c.idle_check_ms(), 7_500);
}

#[test]
fn tunables_and_the_emulator_can_be_set() {
    let mut env = complete();
    env.extend(vars(&[
        ("BATCH_OFFSET_RANGE", " 256 "),
        ("BATCH_MAX_IDLE_MS", "+100"),
        ("STORAGE_EMULATOR_HOST", "localhost:4443"),
    ]));
    let c = Config::from_env(&env).unwrap();
    assert_eq!(c.batch_offset_range.get(), 256);
    assert_eq!(c.batch_max_idle_ms, 100);
    assert_eq!(c.storage_emulator_host.as_deref(), Some("localhost:4443"));
    assert_eq!(c.idle_check_ms(), 250, "never more often than that");
}

#[test]
fn a_blank_emulator_host_means_none() {
    let mut env = complete();
    env.extend(vars(&[("STORAGE_EMULATOR_HOST", " \t ")]));
    assert_eq!(Config::from_env(&env).unwrap().storage_emulator_host, None);
}

#[test]
fn everything_wrong_is_reported_at_once_in_order() {
    let env = vars(&[
        ("KAFKA_TOPIC_EVENTS", "  "),
        ("KAFKA_TOPIC_LOGS", "ingestion-logs"),
        ("GCS_BUCKET", "b"),
        ("BATCH_OFFSET_RANGE", "0"),
        ("BATCH_MAX_IDLE_MS", "so\"on"),
    ]);
    let err = Config::from_env(&env).unwrap_err();
    assert_eq!(
        err.problems,
        vec![
            "KAFKA_BOOTSTRAP_SERVERS is required and not set",
            "KAFKA_TOPIC_EVENTS is set but empty",
            "KAFKA_TOPIC_SIGNALS is required and not set",
            "KAFKA_CONSUMER_GROUP is required and not set",
            "BATCH_OFFSET_RANGE must be greater than 0 (offset ranges cannot be empty)",
            "BATCH_MAX_IDLE_MS=\"so\\\"on\" is not a valid number",
        ]
    );
}

#[test]
fn a_value_that_is_no_number_is_shown_in_quotes() {
    let mut problems = Vec::new();
    let env = vars(&[("RANGE", " 1\t2 ")]);
    let got = parse_non_zero("RANGE", 5, &env, &mut problems);
    assert_eq!(got.get(), 5);
    assert_eq!(problems, vec![r#"RANGE=" 1\t2 " is not a valid number"#]);
    assert_eq!(
        number_complaint("K", "\"x\""),
        "K=\"x\" is not a valid number"
    );
}

#[test]
fn numbers_are_read_as_rust_reads_them() {
    for text in [
        "", "0", "7", "+7", "007", "+", "-", "-1", "-0", "++1", "1+", " 1", "1 ", "1_000", "0x10",
        "18446744073709551615", "18446744073709551616", "99999999999999999999999", "१२", "1.0",
    ] {
        assert_eq!(parse_number(text), text.parse::<u64>().ok(), "{text:?}");
    }
}

#[test]
fn the_first_of_two_values_counts() {
    let mut problems = Vec::new();
    let env = vars(&[("N", "1"), ("N", "2")]);
    assert_eq!(parse_or("N", 0, &env, &mut problems), 1);
    assert_eq!(required("N", &env, &mut problems).as_deref(), Some("1"));
}

#[test]
fn a_number_that_is_not_text_is_reported_by_name() {
    let env = [not_text("N")];
    let mut problems = vec!["before".to_owned()];
    assert_eq!(parse_or("N", 42, &env, &mut problems), 42);
    assert_eq!(problems, vec!["before", "N is set but is not valid UTF-8"]);
    assert_eq!(parse_non_zero("N", 7, &env, &mut problems).get(), 7);
    assert_eq!(problems.len(), 3);
    assert_eq!(problems[2], "N is set but is not valid UTF-8");
}

#[test]
fn a_required_value_that_is_not_text_is_reported_by_name() {
    let env = [not_text("KEY")];
    let mut problems = Vec::new();
    assert_eq!(required("KEY", &env, &mut problems), None);
    assert_eq!(problems, vec!["KEY is required and not set"]);
}

#[test]
fn an_optional_value_that_is_not_text_is_reported_by_name() {
    let mut problems = Vec::new();
    assert_eq!(optional("HOST", &[], &mut problems), None);
    assert_eq!(optional("HOST", &vars(&[("HOST", " ")]), &mut problems), None);
    assert!(problems.is_empty());
    assert_eq!(
        optional("HOST", &vars(&[("HOST", "h:1")]), &mut problems).as_deref(),
        Some("h:1")
    );
    assert_eq!(optional("HOST", &[not_text("HOST")], &mut problems), None);
    assert_eq!(problems, vec!["HOST is set but is not valid UTF-8"]);
}

#[test]
fn no_value_that_is_not_text_passes_for_a_default() {
    let mut env = complete();
    env.push(not_text("BATCH_OFFSET_RANGE"));
    env.push(not_text("BATCH_MAX_IDLE_MS"));
    env.push(not_text("STORAGE_EMULATOR_HOST"));
    assert_eq!(
        Config::from_env(&env).unwrap_err().problems,
        vec![
            "BATCH_OFFSET_RANGE is set but is not valid UTF-8",
            "BATCH_MAX_IDLE_MS is set but is not valid UTF-8",
            "STORAGE_EMULATOR_HOST is set but is not valid UTF-8",
        ]
    );
}
