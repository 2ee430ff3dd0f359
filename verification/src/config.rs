//! Configuration, read from environment variables.
//!
//! Mirrors `.env.example`: **no silent defaults for anything that is part of
//! the cross-repo contract**, and every missing or malformed variable is
//! collected, so that startup reports all of them at once instead of one per
//! restart.
//!
//! Tunables that are nobody else's business (batch sizing) do have defaults.
//! Topic names, bucket and broker list do not: a wrong *default* there looks
//! like it worked.

use vstd::prelude::*;

use crate::text::{chars_of, is_blank, push_decimal, trim};
use crate::units::NonZeroU64;

verus! {

use crate::text::{
    a_blank_text_is_white_space, a_decimal_number_reads_back, all_white, decimal, is_numeral,
    lemma_place_value_push, place_value, trimmed,
};

/// The offset-range width where none is configured.
pub const DEFAULT_OFFSET_RANGE: u64 = 10_000;

/// How long a partition may be quiet before it is flushed, where nothing is
/// configured, in milliseconds.
pub const DEFAULT_MAX_IDLE_MS: u64 = 30_000;

/// The idle timer is not checked more often than this, in milliseconds.
pub const MIN_IDLE_CHECK_MS: u64 = 250;

/// Everything the ingestor needs to run.
#[derive(Debug, Clone)]
pub struct Config {
    /// Kafka bootstrap servers, comma-separated.
    pub bootstrap_servers: String,
    /// Topics to consume, in contract order: events, signals, logs.
    pub topics: Topics,
    /// Consumer group. This service owns group creation; the stack creates none.
    pub consumer_group: String,
    /// Fixed offset-range width. See [`crate::batching`] for why it is fixed.
    pub batch_offset_range: NonZeroU64,
    /// How long to wait before flushing a partial trailing batch.
    pub batch_max_idle_ms: u64,
    /// GCS staging bucket.
    pub gcs_bucket: String,
    /// `host:port` of a GCS emulator, when running against the local stack.
    /// `None` means talk to real GCS.
    pub storage_emulator_host: Option<String>,
}

/// The three ingestion topics.
#[derive(Debug, Clone)]
pub struct Topics {
    pub events: String,
    pub signals: String,
    pub logs: String,
}

impl Topics {
    /// All three, for subscribing in one call.
    #[must_use]
    pub fn all(&self) -> (r: [&str; 3])
        ensures
            r[0]@ == self.events@,
            r[1]@ == self.signals@,
            r[2]@ == self.logs@,
    {
        [self.events.as_str(), self.signals.as_str(), self.logs.as_str()]
    }
}

// ─── Errors ─────────────────────────────────────────────────────────────────

/// Every problem found while loading configuration.
///
/// Deliberately a list: reporting one missing variable per startup attempt
/// wastes an afternoon on a service with a dozen required settings.
#[derive(Debug, Clone, PartialEq, Eq)]
pub struct ConfigError {
    pub problems: Vec<String>,
}

/// The texts of a list of strings.
pub open spec fn texts(strings: Seq<String>) -> Seq<Seq<char>> {
    strings.map_values(|s: String| s@)
}

/// The problems, one line each.
pub open spec fn problem_lines(problems: Seq<Seq<char>>) -> Seq<char>
    decreases problems.len(),
{
    if problems.len() == 0 {
        Seq::empty()
    } else {
        problem_lines(problems.drop_last()) + "  - "@ + problems.last() + "\n"@
    }
}

/// The text of a configuration error: how many problems there are, then each of
/// them.
pub open spec fn config_error_text(problems: Seq<Seq<char>>) -> Seq<char> {
    "invalid configuration ("@ + decimal(problems.len()) + " problem(s)):\n"@ + problem_lines(
        problems,
    ) + "see .env.example for the full set"@
}

impl ConfigError {
    /// The error as text.
    pub fn to_string(&self) -> (r: String)
        ensures
            r@ == config_error_text(texts(self.problems@)),
    {
        let mut out: String = String::new();
        out.push_str("invalid configuration (");
        push_decimal(&mut out, self.problems.len() as u64);
        out.push_str(" problem(s)):\n");
        let ghost head = out@;
        let ghost all = texts(self.problems@);
        let mut i: usize = 0;
        assert(all.take(0) == Seq::<Seq<char>>::empty());
        assert(head + problem_lines(all.take(0)) == head);
        while i < self.problems.len()
            invariant
                i <= self.problems.len(),
                all == texts(self.problems@),
                out@ == head + problem_lines(all.take(i as int)),
            decreases self.problems.len() - i,
        {
            out.push_str("  - ");
            out.push_str(self.problems[i].as_str());
            out.push_str("\n");
            proof {
                assert(all.take(i + 1).drop_last() == all.take(i as int));
                assert(all.take(i + 1).last() == self.problems@[i as int]@);
                assert(out@ =~= head + problem_lines(all.take(i + 1)));
            }
            i = i + 1;
        }
        out.push_str("see .env.example for the full set");
        proof {
            assert(all.take(i as int) == all);
            assert(out@ =~= config_error_text(all));
        }
        out
    }
}

// ─── Variables ──────────────────────────────────────────────────────────────

/// The value of a variable that is set.
#[derive(Debug, Clone, PartialEq, Eq)]
pub enum EnvValue {
    /// This text.
    Text(String),
    /// Something that is not text: its bytes are not UTF-8.
    NotText,
}

/// What a variable is set to.
pub enum Reading {
    Unset,
    NotText,
    Text(Seq<char>),
}

/// What a value is.
pub open spec fn reading_of(value: EnvValue) -> Reading {
    match value {
        EnvValue::Text(text) => Reading::Text(text@),
        EnvValue::NotText => Reading::NotText,
    }
}

/// What a variable is set to: the first of its values counts.
pub open spec fn lookup(vars: Seq<(String, EnvValue)>, key: Seq<char>) -> Reading
    decreases vars.len(),
{
    if vars.len() == 0 {
        Reading::Unset
    } else if vars[0].0@ == key {
        reading_of(vars[0].1)
    } else {
        lookup(vars.skip(1), key)
    }
}

/// The view of an optional text.
pub open spec fn text_of(value: Option<String>) -> Option<Seq<char>> {
    match value {
        Some(s) => Some(s@),
        None => None,
    }
}

/// The value of a variable, where it is set.
pub fn variable(vars: &[(String, EnvValue)], key: &str) -> (r: Option<EnvValue>)
    ensures
        lookup(vars@, key@) == match r {
            Some(value) => reading_of(value),
            None => Reading::Unset,
        },
{
    let wanted: String = key.to_owned();
    let mut i: usize = 0;
    assert(vars@.skip(0) == vars@);
    while i < vars.len()
        invariant
            i <= vars.len(),
            wanted@ == key@,
            lookup(vars@.skip(i as int), key@) == lookup(vars@, key@),
        decreases vars.len() - i,
    {
        assert(vars@.skip(i as int)[0] == vars@[i as int]);
        assert(vars@.skip(i as int).skip(1) == vars@.skip(i + 1));
        if vars[i].0 == wanted {
            return match &vars[i].1 {
                EnvValue::Text(text) => Some(EnvValue::Text(text.clone())),
                EnvValue::NotText => Some(EnvValue::NotText),
            };
        }
        i = i + 1;
    }
    None
}

/// A required variable: its value, where it is set and not blank.
pub open spec fn required_value(vars: Seq<(String, EnvValue)>, key: Seq<char>) -> Option<Seq<char>> {
    match lookup(vars, key) {
        Reading::Text(value) => if trimmed(value).len() > 0 {
            Some(value)
        } else {
            None
        },
        _ => None,
    }
}

/// What is wrong with a required variable, if anything.
pub open spec fn required_problems(vars: Seq<(String, EnvValue)>, key: Seq<char>) -> Seq<Seq<char>> {
    match lookup(vars, key) {
        Reading::Text(value) => if trimmed(value).len() > 0 {
            Seq::empty()
        } else {
            seq![key + " is set but empty"@]
        },
        _ => seq![key + " is required and not set"@],
    }
}

/// The value of a required variable; a problem is noted where it has none.
pub fn required(key: &str, vars: &[(String, EnvValue)], problems: &mut Vec<String>) -> (r: Option<
    String,
>)
    ensures
        text_of(r) == required_value(vars@, key@),
        texts(final(problems)@) == texts(old(problems)@) + required_problems(vars@, key@),
{
    let ghost before = texts(problems@);
    match variable(vars, key) {
        Some(EnvValue::Text(value)) => {
            if !is_blank(value.as_str()) {
                assert(before + required_problems(vars@, key@) =~= before);
                Some(value)
            } else {
                note(problems, key, " is set but empty");
                assert(texts(problems@) =~= before + required_problems(vars@, key@));
                None
            }
        },
        _ => {
            note(problems, key, " is required and not set");
            assert(texts(problems@) =~= before + required_problems(vars@, key@));
            None
        },
    }
}

/// Note a problem with a variable.
fn note(problems: &mut Vec<String>, key: &str, complaint: &str)
    ensures
        texts(final(problems)@) == texts(old(problems)@).push(key@ + complaint@),
{
    let ghost before = problems@;
    let mut text: String = String::new();
    text.push_str(key);
    text.push_str(complaint);
    let ghost added = text@;
    problems.push(text);
    assert(added =~= key@ + complaint@);
    assert(texts(problems@) =~= texts(before).push(added));
}

// ─── Numbers ────────────────────────────────────────────────────────────────

/// Whether a character is a decimal digit.
pub open spec fn is_digit(c: char) -> bool {
    '0' <= c <= '9'
}

/// The number that decimal digits denote.
pub open spec fn digits_value(digits: Seq<char>) -> nat
    decreases digits.len(),
{
    if digits.len() == 0 {
        0
    } else {
        digits_value(digits.drop_last()) * 10 + (digits.last() as int - '0' as int) as nat
    }
}

/// The number that a text denotes where it is made of decimal digits, one at
/// least, and 64 bits can hold it.
pub open spec fn digits_number(digits: Seq<char>) -> Option<u64> {
    if digits.len() > 0 && all_digits(digits) && digits_value(digits) <= u64::MAX {
        Some(digits_value(digits) as u64)
    } else {
        None
    }
}

/// Whether a text is made of decimal digits.
pub open spec fn all_digits(text: Seq<char>) -> bool {
    forall|i: int| 0 <= i < text.len() ==> is_digit(#[trigger] text[i])
}

/// The number that a text denotes: decimal digits, with a plus sign before them
/// or none.
pub open spec fn number(text: Seq<char>) -> Option<u64> {
    if text.len() > 0 && text[0] == '+' {
        digits_number(text.skip(1))
    } else {
        digits_number(text)
    }
}

/// More digits make no smaller number.
proof fn lemma_digits_grow(digits: Seq<char>, n: int)
    requires
        0 <= n <= digits.len(),
        all_digits(digits),
    ensures
        digits_value(digits.take(n)) <= digits_value(digits),
    decreases digits.len() - n,
{
    if n < digits.len() {
        lemma_digits_grow(digits, n + 1);
        assert(digits.take(n + 1).drop_last() == digits.take(n));
        assert(is_digit(digits.take(n + 1).last()));
    } else {
        assert(digits.take(n) == digits);
    }
}

/// A number as text, where it is one.
pub fn parse_number(text: &str) -> (r: Option<u64>)
    ensures
        r == number(text@),
{
    let chars: Vec<char> = chars_of(text);
    let n: usize = chars.len();
    let start: usize = if n > 0 && chars[0] == '+' {
        1
    } else {
        0
    };
    let ghost digits = if start == 1 {
        text@.skip(1)
    } else {
        text@
    };
    if start == n {
        return None;
    }
    let mut value: u64 = 0;
    let mut i: usize = start;
    assert(digits.take(0) == Seq::<char>::empty());
    while i < n
        invariant
            start <= i <= n,
            start <= 1,
            n == chars.len(),
            chars@ == text@,
            digits.len() == n - start,
            forall|j: int| 0 <= j < digits.len() ==> digits[j] == chars@[j + start],
            number(text@) == digits_number(digits),
            value == digits_value(digits.take(i - start)),
            forall|j: int| 0 <= j < i - start ==> is_digit(#[trigger] digits[j]),
        decreases n - i,
    {
        let c: char = chars[i];
        assert(digits[i - start] == c);
        if c < '0' || c > '9' {
            assert(!is_digit(digits[i - start]));
            return None;
        }
        let d: u64 = (c as u32 - '0' as u32) as u64;
        proof {
            assert(digits.take(i - start + 1).drop_last() == digits.take(i - start));
            assert(digits.take(i - start + 1).last() == c);
            assert(digits_value(digits.take(i - start + 1)) == value * 10 + d);
        }
        if value > (u64::MAX - d) / 10 {
            proof {
                if all_digits(digits) {
                    lemma_digits_grow(digits, i - start + 1);
                }
            }
            return None;
        }
        value = value * 10 + d;
        i = i + 1;
    }
    assert(digits.take(i - start) == digits);
    Some(value)
}

/// How `Debug` writes a string: in quotes, with escapes.
pub uninterp spec fn quoted(text: Seq<char>) -> Seq<char>;

/// `format!` with `{:?}` on a `str`: the text in quotes, with escapes, as its
/// `Debug` impl writes it. Which characters are escaped is not stated.
#[verifier::external_body]
fn quote(text: &str) -> (r: String)
    ensures
        r@ == quoted(text@),
{
    format!("{text:?}")
}

/// What is said of a variable that is not a number.
pub open spec fn not_a_number(key: Seq<char>, raw_quoted: Seq<char>) -> Seq<char> {
    key + "="@ + raw_quoted + " is not a valid number"@
}

/// What is said of a variable that is not text.
pub open spec fn not_text(key: Seq<char>) -> Seq<char> {
    key + " is set but is not valid UTF-8"@
}

/// What is said of an offset range of zero.
pub open spec fn zero_range(key: Seq<char>) -> Seq<char> {
    key + " must be greater than 0 (offset ranges cannot be empty)"@
}

/// A number with a default: the value, and what is wrong with it.
pub open spec fn number_or(
    vars: Seq<(String, EnvValue)>,
    key: Seq<char>,
    default: u64,
) -> (u64, Seq<Seq<char>>) {
    match lookup(vars, key) {
        Reading::Unset => (default, Seq::empty()),
        Reading::NotText => (default, seq![not_text(key)]),
        Reading::Text(raw) => match number(trimmed(raw)) {
            Some(value) => (value, Seq::empty()),
            None => (default, seq![not_a_number(key, quoted(raw))]),
        },
    }
}

/// A number that must not be zero, with a default: the value, and what is wrong
/// with it.
pub open spec fn positive_or(
    vars: Seq<(String, EnvValue)>,
    key: Seq<char>,
    default: u64,
) -> (u64, Seq<Seq<char>>) {
    match lookup(vars, key) {
        Reading::Unset => (default, Seq::empty()),
        Reading::NotText => (default, seq![not_text(key)]),
        Reading::Text(raw) => match number(trimmed(raw)) {
            Some(value) => if value == 0 {
                (default, seq![zero_range(key)])
            } else {
                (value, Seq::empty())
            },
            None => (default, seq![not_a_number(key, quoted(raw))]),
        },
    }
}

/// What is said of a variable that is not a number, given its value in quotes.
pub fn number_complaint(key: &str, raw_quoted: &str) -> (r: String)
    ensures
        r@ == not_a_number(key@, raw_quoted@),
{
    let mut text: String = String::new();
    text.push_str(key);
    text.push_str("=");
    text.push_str(raw_quoted);
    text.push_str(" is not a valid number");
    assert(text@ =~= not_a_number(key@, raw_quoted@));
    text
}

/// Note that a variable is not a number.
fn note_not_a_number(problems: &mut Vec<String>, key: &str, raw: &str)
    ensures
        texts(final(problems)@) == texts(old(problems)@).push(not_a_number(key@, quoted(raw@))),
{
    let ghost before = problems@;
    let text: String = number_complaint(key, quote(raw).as_str());
    let ghost added = text@;
    problems.push(text);
    assert(texts(problems@) =~= texts(before).push(added));
}

/// The value of a variable that is a number, or a default where it is not set.
/// A value that is no number, or not text at all, is noted as a problem.
pub fn parse_or(
    key: &str,
    default: u64,
    vars: &[(String, EnvValue)],
    problems: &mut Vec<String>,
) -> (r: u64)
    ensures
        r == number_or(vars@, key@, default).0,
        texts(final(problems)@) == texts(old(problems)@) + number_or(vars@, key@, default).1,
{
    let ghost before = texts(problems@);
    match variable(vars, key) {
        None => {
            assert(before + number_or(vars@, key@, default).1 =~= before);
            default
        },
        Some(EnvValue::NotText) => {
            note(problems, key, " is set but is not valid UTF-8");
            assert(texts(problems@) =~= before + number_or(vars@, key@, default).1);
            default
        },
        Some(EnvValue::Text(raw)) => match parse_number(trim(raw.as_str())) {
            Some(value) => {
                assert(before + number_or(vars@, key@, default).1 =~= before);
                value
            },
            None => {
                note_not_a_number(problems, key, raw.as_str());
                assert(texts(problems@) =~= before + number_or(vars@, key@, default).1);
                default
            },
        },
    }
}

/// The value of a variable that is a number greater than zero, or a default
/// where it is not set. Any other value is noted as a problem.
pub fn parse_non_zero(
    key: &str,
    default: u64,
    vars: &[(String, EnvValue)],
    problems: &mut Vec<String>,
) -> (r: NonZeroU64)
    requires
        default > 0,
    ensures
        r@ == positive_or(vars@, key@, default).0,
        texts(final(problems)@) == texts(old(problems)@) + positive_or(vars@, key@, default).1,
{
    let ghost before = texts(problems@);
    let fallback: NonZeroU64 = NonZeroU64::new(default).unwrap();
    match variable(vars, key) {
        None => {
            assert(before + positive_or(vars@, key@, default).1 =~= before);
            fallback
        },
        Some(EnvValue::NotText) => {
            note(problems, key, " is set but is not valid UTF-8");
            assert(texts(problems@) =~= before + positive_or(vars@, key@, default).1);
            fallback
        },
        Some(EnvValue::Text(raw)) => match parse_number(trim(raw.as_str())) {
            Some(value) => match NonZeroU64::new(value) {
                Some(width) => {
                    assert(before + positive_or(vars@, key@, default).1 =~= before);
                    width
                },
                None => {
                    note(
                        problems,
                        key,
                        " must be greater than 0 (offset ranges cannot be empty)",
                    );
                    assert(texts(problems@) =~= before + positive_or(vars@, key@, default).1);
                    fallback
                },
            },
            None => {
                note_not_a_number(problems, key, raw.as_str());
                assert(texts(problems@) =~= before + positive_or(vars@, key@, default).1);
                fallback
            },
        },
    }
}

// ─── Optional settings ──────────────────────────────────────────────────────

/// What is wrong with an optional variable, if anything.
pub open spec fn optional_problems(vars: Seq<(String, EnvValue)>, key: Seq<char>) -> Seq<Seq<char>> {
    match lookup(vars, key) {
        Reading::NotText => seq![not_text(key)],
        _ => Seq::empty(),
    }
}

/// The value of an optional variable, where it is set and not blank. A value
/// that is not text is noted as a problem.
pub fn optional(key: &str, vars: &[(String, EnvValue)], problems: &mut Vec<String>) -> (r: Option<
    String,
>)
    ensures
        text_of(r) == required_value(vars@, key@),
        texts(final(problems)@) == texts(old(problems)@) + optional_problems(vars@, key@),
{
    let ghost before = texts(problems@);
    match variable(vars, key) {
        Some(EnvValue::Text(value)) => {
            assert(before + optional_problems(vars@, key@) =~= before);
            if is_blank(value.as_str()) {
                None
            } else {
                Some(value)
            }
        },
        Some(EnvValue::NotText) => {
            note(problems, key, " is set but is not valid UTF-8");
            assert(texts(problems@) =~= before + optional_problems(vars@, key@));
            None
        },
        None => {
            assert(before + optional_problems(vars@, key@) =~= before);
            None
        },
    }
}

// ─── Loading ────────────────────────────────────────────────────────────────

/// Everything that is wrong with the variables, in the order of the settings.
pub open spec fn all_problems(vars: Seq<(String, EnvValue)>) -> Seq<Seq<char>> {
    required_problems(vars, "KAFKA_BOOTSTRAP_SERVERS"@) + required_problems(
        vars,
        "KAFKA_TOPIC_EVENTS"@,
    ) + required_problems(vars, "KAFKA_TOPIC_SIGNALS"@) + required_problems(
        vars,
        "KAFKA_TOPIC_LOGS"@,
    ) + required_problems(vars, "KAFKA_CONSUMER_GROUP"@) + required_problems(vars, "GCS_BUCKET"@)
        + positive_or(vars, "BATCH_OFFSET_RANGE"@, DEFAULT_OFFSET_RANGE).1 + number_or(
        vars,
        "BATCH_MAX_IDLE_MS"@,
        DEFAULT_MAX_IDLE_MS,
    ).1 + optional_problems(vars, "STORAGE_EMULATOR_HOST"@)
}

/// Whether the settings are those that the variables give.
pub open spec fn config_matches(config: Config, vars: Seq<(String, EnvValue)>) -> bool {
    &&& lookup(vars, "KAFKA_BOOTSTRAP_SERVERS"@) == Reading::Text(config.bootstrap_servers@)
    &&& lookup(vars, "KAFKA_TOPIC_EVENTS"@) == Reading::Text(config.topics.events@)
    &&& lookup(vars, "KAFKA_TOPIC_SIGNALS"@) == Reading::Text(config.topics.signals@)
    &&& lookup(vars, "KAFKA_TOPIC_LOGS"@) == Reading::Text(config.topics.logs@)
    &&& lookup(vars, "KAFKA_CONSUMER_GROUP"@) == Reading::Text(config.consumer_group@)
    &&& lookup(vars, "GCS_BUCKET"@) == Reading::Text(config.gcs_bucket@)
    &&& config.batch_offset_range@ == positive_or(
        vars,
        "BATCH_OFFSET_RANGE"@,
        DEFAULT_OFFSET_RANGE,
    ).0
    &&& config.batch_max_idle_ms == number_or(
        vars,
        "BATCH_MAX_IDLE_MS"@,
        DEFAULT_MAX_IDLE_MS,
    ).0
    &&& text_of(config.storage_emulator_host) == required_value(vars, "STORAGE_EMULATOR_HOST"@)
}

/// A value that is there where no problem was noted.
fn settled(value: Option<String>) -> (r: String)
    requires
        value is Some,
    ensures
        Some(r@) == text_of(value),
{
    value.unwrap()
}

impl Config {
    /// Load from environment variables.
    ///
    /// Fails where anything is wrong, and then reports all of it.
    pub fn from_env(vars: &[(String, EnvValue)]) -> (r: Result<Config, ConfigError>)
        ensures
            match r {
                Ok(config) => all_problems(vars@).len() == 0 && config_matches(config, vars@),
                Err(e) => all_problems(vars@).len() > 0 && texts(e.problems@) == all_problems(
                    vars@,
                ),
            },
    {
        let mut problems: Vec<String> = Vec::new();
        assert(texts(problems@) =~= Seq::<Seq<char>>::empty());

        let bootstrap_servers = required("KAFKA_BOOTSTRAP_SERVERS", vars, &mut problems);
        let events = required("KAFKA_TOPIC_EVENTS", vars, &mut problems);
        let signals = required("KAFKA_TOPIC_SIGNALS", vars, &mut problems);
        let logs = required("KAFKA_TOPIC_LOGS", vars, &mut problems);
        let consumer_group = required("KAFKA_CONSUMER_GROUP", vars, &mut problems);
        let gcs_bucket = required("GCS_BUCKET", vars, &mut problems);

        let batch_offset_range: NonZeroU64 = parse_non_zero(
            "BATCH_OFFSET_RANGE",
            DEFAULT_OFFSET_RANGE,
            vars,
            &mut problems,
        );
        let batch_max_idle_ms: u64 = parse_or(
            "BATCH_MAX_IDLE_MS",
            DEFAULT_MAX_IDLE_MS,
            vars,
            &mut problems,
        );

        let storage_emulator_host: Option<String> = optional(
            "STORAGE_EMULATOR_HOST",
            vars,
            &mut problems,
        );

        assert(texts(problems@) =~= all_problems(vars@));
        assert(texts(problems@).len() == problems@.len());
        if problems.len() > 0 {
            return Err(ConfigError { problems });
        }
        proof {
            lemma_no_problem(vars@);
        }
        Ok(
            Config {
                bootstrap_servers: settled(bootstrap_servers),
                topics: Topics {
                    events: settled(events),
                    signals: settled(signals),
                    logs: settled(logs),
                },
                consumer_group: settled(consumer_group),
                batch_offset_range,
                batch_max_idle_ms,
                gcs_bucket: settled(gcs_bucket),
                storage_emulator_host,
            },
        )
    }

    /// How often to look for idle partitions, in milliseconds: more often than
    /// the idle timer fires, so that a partition that goes quiet is noticed
    /// promptly without spinning.
    pub fn idle_check_ms(&self) -> (r: u64)
        ensures
            r == if self.batch_max_idle_ms / 4 >= MIN_IDLE_CHECK_MS {
                self.batch_max_idle_ms / 4
            } else {
                MIN_IDLE_CHECK_MS
            },
            // A quarter of the idle time, but never less than 250 ms.
            self.batch_max_idle_ms >= 1_000 ==> 4 * r <= self.batch_max_idle_ms < 4 * r + 4,
            self.batch_max_idle_ms < 1_000 ==> r == 250,
    {
        let quarter: u64 = self.batch_max_idle_ms / 4;
        if quarter >= MIN_IDLE_CHECK_MS {
            quarter
        } else {
            MIN_IDLE_CHECK_MS
        }
    }
}

/// Without a problem, every required variable has a value.
proof fn lemma_no_problem(vars: Seq<(String, EnvValue)>)
    requires
        all_problems(vars).len() == 0,
    ensures
        required_problems(vars, "KAFKA_BOOTSTRAP_SERVERS"@).len() == 0,
        required_problems(vars, "KAFKA_TOPIC_EVENTS"@).len() == 0,
        required_problems(vars, "KAFKA_TOPIC_SIGNALS"@).len() == 0,
        required_problems(vars, "KAFKA_TOPIC_LOGS"@).len() == 0,
        required_problems(vars, "KAFKA_CONSUMER_GROUP"@).len() == 0,
        required_problems(vars, "GCS_BUCKET"@).len() == 0,
{
}

// ─── Laws ───────────────────────────────────────────────────────────────────

/// The names of the variables that must be set.
pub open spec fn is_required(key: Seq<char>) -> bool {
    ||| key == "KAFKA_BOOTSTRAP_SERVERS"@
    ||| key == "KAFKA_TOPIC_EVENTS"@
    ||| key == "KAFKA_TOPIC_SIGNALS"@
    ||| key == "KAFKA_TOPIC_LOGS"@
    ||| key == "KAFKA_CONSUMER_GROUP"@
    ||| key == "GCS_BUCKET"@
}

/// What is wrong with any one variable is among all that is wrong.
proof fn lemma_nothing_is_passed_over(vars: Seq<(String, EnvValue)>, problem: Seq<char>)
    requires
        ({
            ||| exists|key: Seq<char>|
                is_required(key) && #[trigger] required_problems(vars, key).contains(problem)
            ||| positive_or(vars, "BATCH_OFFSET_RANGE"@, DEFAULT_OFFSET_RANGE).1.contains(problem)
            ||| number_or(vars, "BATCH_MAX_IDLE_MS"@, DEFAULT_MAX_IDLE_MS).1.contains(problem)
            ||| optional_problems(vars, "STORAGE_EMULATOR_HOST"@).contains(problem)
        }),
    ensures
        all_problems(vars).contains(problem),
{
    broadcast use vstd::seq_lib::group_seq_properties;

}

/// Nothing that is part of the contract has a silent default: a required
/// variable that is missing or blank is always among the problems reported,
/// whatever else is wrong.
pub proof fn a_missing_setting_is_always_reported(vars: Seq<(String, EnvValue)>, key: Seq<char>)
    requires
        is_required(key),
        required_value(vars, key) is None,
    ensures
        required_problems(vars, key).len() == 1,
        all_problems(vars).contains(required_problems(vars, key)[0]),
{
    assert(required_problems(vars, key).contains(required_problems(vars, key)[0]));
    lemma_nothing_is_passed_over(vars, required_problems(vars, key)[0]);
}

/// A tunable that is not set takes its default, and that is not a problem.
pub proof fn a_default_is_not_a_problem(
    vars: Seq<(String, EnvValue)>,
    key: Seq<char>,
    default: u64,
)
    requires
        lookup(vars, key) is Unset,
    ensures
        number_or(vars, key, default) == (default, Seq::<Seq<char>>::empty()),
        positive_or(vars, key, default) == (default, Seq::<Seq<char>>::empty()),
{
}

/// The names of the variables that may be left out.
pub open spec fn is_optional(key: Seq<char>) -> bool {
    ||| key == "BATCH_OFFSET_RANGE"@
    ||| key == "BATCH_MAX_IDLE_MS"@
    ||| key == "STORAGE_EMULATOR_HOST"@
}

/// An optional variable that is set to what is not text is always reported as such, by
/// name: it does not pass for one that is not set. (A required variable of that
/// kind is reported too, like one that is missing.)
pub proof fn an_optional_value_that_is_not_text_is_always_reported(
    vars: Seq<(String, EnvValue)>,
    key: Seq<char>,
)
    requires
        is_optional(key),
        lookup(vars, key) is NotText,
    ensures
        all_problems(vars).contains(not_text(key)),
{
    let problems = seq![not_text(key)];
    assert(problems.contains(problems[0]));
    lemma_nothing_is_passed_over(vars, not_text(key));
}

/// Problems and values are seen as they are, in their order.
pub proof fn problems_are_seen_as_they_are(problems: Seq<String>, value: Option<String>, i: int)
    requires
        0 <= i < problems.len(),
    ensures
        texts(problems).len() == problems.len(),
        texts(problems)[i] == problems[i]@,
        value matches Some(text) ==> text_of(value) == Some(text@),
        value is None ==> text_of(value) is None,
{
}

/// Whether a text denotes a number: its decimal digits, with a plus sign ahead or
/// none, add up to it by their places.
pub open spec fn denotes(text: Seq<char>, n: int) -> bool {
    ||| is_numeral(text) && place_value(text) == n
    ||| text.len() > 0 && text[0] == '+' && is_numeral(text.skip(1)) && place_value(text.skip(1))
        == n
}

proof fn lemma_digits_value(digits: Seq<char>)
    requires
        all_digits(digits),
    ensures
        digits_value(digits) == place_value(digits),
    decreases digits.len(),
{
    if digits.len() > 0 {
        lemma_digits_value(digits.drop_last());
        lemma_place_value_push(digits.drop_last(), digits.last());
        assert(digits == digits.drop_last().push(digits.last()));
        assert(is_digit(digits.last()));
    }
}

/// A number is read exactly where a text denotes one that 64 bits can hold, and
/// it is the number denoted.
pub proof fn a_number_is_read_where_one_is_denoted(text: Seq<char>, n: int)
    ensures
        denotes(text, n) && 0 <= n <= u64::MAX ==> number(text) == Some(n as u64),
        denotes(text, n) && n > u64::MAX ==> number(text) is None,
        number(text) matches Some(read) ==> denotes(text, read as int),
{
    if text.len() > 0 && text[0] == '+' {
        let digits = text.skip(1);
        if digits.len() > 0 && all_digits(digits) {
            lemma_digits_value(digits);
            assert(is_numeral(digits));
        }
        if is_numeral(digits) {
            assert(all_digits(digits));
        }
        assert(!is_numeral(text));
    } else if text.len() > 0 {
        if all_digits(text) {
            lemma_digits_value(text);
            assert(is_numeral(text));
        }
        if is_numeral(text) {
            assert(all_digits(text));
        }
    }
}

/// A text denotes one number at most.
proof fn lemma_denotes_one(text: Seq<char>, m: int, n: int)
    requires
        denotes(text, m),
        denotes(text, n),
    ensures
        m == n,
{
    if text[0] == '+' {
        assert(!is_numeral(text));
    }
}

/// A tunable that is set counts, whatever its default: where its text, without
/// the white space around it, denotes a number that 64 bits can hold, that is
/// its value, and there is no problem with it. For the width of a range that
/// goes for every number but zero.
pub proof fn a_tunable_that_is_set_counts(
    vars: Seq<(String, EnvValue)>,
    key: Seq<char>,
    default: u64,
    raw: Seq<char>,
    n: int,
)
    requires
        lookup(vars, key) == Reading::Text(raw),
        denotes(trimmed(raw), n),
        0 <= n <= u64::MAX,
    ensures
        number_or(vars, key, default) == (n as u64, Seq::<Seq<char>>::empty()),
        n > 0 ==> positive_or(vars, key, default) == (n as u64, Seq::<Seq<char>>::empty()),
        n == 0 ==> positive_or(vars, key, default) == (
            default,
            seq![key + " must be greater than 0 (offset ranges cannot be empty)"@],
        ),
{
    a_number_is_read_where_one_is_denoted(trimmed(raw), n);
}

/// A tunable that is set to anything else falls back to its default, and is
/// reported with its name and its value.
pub proof fn a_tunable_that_is_no_number_is_reported(
    vars: Seq<(String, EnvValue)>,
    key: Seq<char>,
    default: u64,
    raw: Seq<char>,
)
    requires
        lookup(vars, key) == Reading::Text(raw),
        forall|n: int| 0 <= n <= u64::MAX ==> !denotes(trimmed(raw), n),
    ensures
        number_or(vars, key, default) == (
            default,
            seq![key + "="@ + quoted(raw) + " is not a valid number"@],
        ),
        positive_or(vars, key, default) == (
            default,
            seq![key + "="@ + quoted(raw) + " is not a valid number"@],
        ),
{
    a_number_is_read_where_one_is_denoted(trimmed(raw), 0);
    if number(trimmed(raw)) is Some {
        assert(denotes(trimmed(raw), number(trimmed(raw))->0 as int));
    }
}

/// A tunable that is set to what is not text falls back to its default, and is
/// reported with its name.
pub proof fn a_tunable_that_is_not_text_is_reported(
    vars: Seq<(String, EnvValue)>,
    key: Seq<char>,
    default: u64,
)
    requires
        lookup(vars, key) is NotText,
    ensures
        number_or(vars, key, default) == (default, seq![key + " is set but is not valid UTF-8"@]),
        positive_or(vars, key, default) == (default, seq![key + " is set but is not valid UTF-8"@]),
{
}

/// The first value of a variable is the one that counts, and a variable without
/// a value is not set.
pub proof fn the_first_value_counts(vars: Seq<(String, EnvValue)>, key: Seq<char>, i: int)
    ensures
        (forall|j: int| 0 <= j < vars.len() ==> (#[trigger] vars[j]).0@ != key) ==> lookup(vars, key)
            is Unset,
        0 <= i < vars.len() && vars[i].0@ == key && (forall|j: int|
            0 <= j < i ==> (#[trigger] vars[j]).0@ != key) ==> {
            &&& vars[i].1 matches EnvValue::Text(text) ==> lookup(vars, key) == Reading::Text(text@)
            &&& vars[i].1 is NotText ==> lookup(vars, key) is NotText
        },
    decreases vars.len(),
{
    if vars.len() > 0 && vars[0].0@ != key {
        let rest = vars.skip(1);
        the_first_value_counts(rest, key, i - 1);
        assert forall|j: int| 0 <= j < rest.len() implies #[trigger] rest[j] == vars[j + 1] by {}
    }
}

/// A required variable with anything but white space in it has its value, as it
/// is written, and is no problem. Otherwise it has no value, and the one problem
/// reported names it.
pub proof fn a_required_variable_has_its_value(vars: Seq<(String, EnvValue)>, key: Seq<char>)
    ensures
        lookup(vars, key) matches Reading::Text(value) ==> {
            &&& !all_white(value) ==> required_value(vars, key) == Some(value)
                && required_problems(vars, key) == Seq::<Seq<char>>::empty()
            &&& all_white(value) ==> required_value(vars, key) is None && required_problems(
                vars,
                key,
            ) == seq![key + " is set but empty"@]
        },
        !(lookup(vars, key) is Text) ==> required_value(vars, key) is None && required_problems(
            vars,
            key,
        ) == seq![key + " is required and not set"@],
{
    match lookup(vars, key) {
        Reading::Text(value) => {
            a_blank_text_is_white_space(value);
        },
        _ => {},
    }
}

/// An optional variable is a problem only where it is not text.
pub proof fn an_optional_variable_may_be_missing(vars: Seq<(String, EnvValue)>, key: Seq<char>)
    ensures
        lookup(vars, key) is NotText ==> optional_problems(vars, key) == seq![
            key + " is set but is not valid UTF-8"@,
        ],
        !(lookup(vars, key) is NotText) ==> optional_problems(vars, key) == Seq::<
            Seq<char>,
        >::empty(),
{
}

/// Whether a variable is set to more than white space.
pub open spec fn is_filled(vars: Seq<(String, EnvValue)>, key: Seq<char>) -> bool {
    lookup(vars, key) matches Reading::Text(value) && !all_white(value)
}

/// Whether a variable is not set, or denotes a number from `least` on that 64
/// bits can hold.
pub open spec fn is_count_or_unset(
    vars: Seq<(String, EnvValue)>,
    key: Seq<char>,
    least: int,
) -> bool {
    ||| lookup(vars, key) is Unset
    ||| exists|n: int|
        least <= n <= u64::MAX && #[trigger] denotes(trimmed(lookup(vars, key)->Text_0), n)
            && lookup(vars, key) is Text
}

proof fn lemma_tunable_problems(vars: Seq<(String, EnvValue)>, key: Seq<char>, default: u64)
    ensures
        number_or(vars, key, default).1.len() == 0 <==> is_count_or_unset(vars, key, 0),
        positive_or(vars, key, default).1.len() == 0 <==> is_count_or_unset(vars, key, 1),
{
    if lookup(vars, key) is Text {
        let text = trimmed(lookup(vars, key)->Text_0);
        a_number_is_read_where_one_is_denoted(text, 0);
        match number(text) {
            Some(read) => {
                assert(denotes(text, read as int));
                if read == 0 && is_count_or_unset(vars, key, 1) {
                    let n = choose|n: int| 1 <= n <= u64::MAX && #[trigger] denotes(text, n);
                    lemma_denotes_one(text, n, 0);
                }
            },
            None => {
                assert forall|n: int| 0 <= n <= u64::MAX implies !#[trigger] denotes(text, n) by {
                    a_number_is_read_where_one_is_denoted(text, n);
                }
            },
        }
    }
}

/// When a configuration loads: exactly where all six required variables are
/// filled, and each of the others is missing or right.
pub proof fn a_configuration_loads_where_nothing_is_wrong(vars: Seq<(String, EnvValue)>)
    ensures
        all_problems(vars).len() == 0 <==> {
            &&& is_filled(vars, "KAFKA_BOOTSTRAP_SERVERS"@)
            &&& is_filled(vars, "KAFKA_TOPIC_EVENTS"@)
            &&& is_filled(vars, "KAFKA_TOPIC_SIGNALS"@)
            &&& is_filled(vars, "KAFKA_TOPIC_LOGS"@)
            &&& is_filled(vars, "KAFKA_CONSUMER_GROUP"@)
            &&& is_filled(vars, "GCS_BUCKET"@)
            &&& is_count_or_unset(vars, "BATCH_OFFSET_RANGE"@, 1)
            &&& is_count_or_unset(vars, "BATCH_MAX_IDLE_MS"@, 0)
            &&& !(lookup(vars, "STORAGE_EMULATOR_HOST"@) is NotText)
        },
{
    a_required_variable_has_its_value(vars, "KAFKA_BOOTSTRAP_SERVERS"@);
    a_required_variable_has_its_value(vars, "KAFKA_TOPIC_EVENTS"@);
    a_required_variable_has_its_value(vars, "KAFKA_TOPIC_SIGNALS"@);
    a_required_variable_has_its_value(vars, "KAFKA_TOPIC_LOGS"@);
    a_required_variable_has_its_value(vars, "KAFKA_CONSUMER_GROUP"@);
    a_required_variable_has_its_value(vars, "GCS_BUCKET"@);
    lemma_tunable_problems(vars, "BATCH_OFFSET_RANGE"@, DEFAULT_OFFSET_RANGE);
    lemma_tunable_problems(vars, "BATCH_MAX_IDLE_MS"@, DEFAULT_MAX_IDLE_MS);
}

/// Each variable is reported for itself and once at most, in the order of the
/// settings, and nothing else is reported.
pub proof fn each_problem_is_reported_once_and_in_order(vars: Seq<(String, EnvValue)>)
    ensures
        ({
            let required = required_problems(vars, "KAFKA_BOOTSTRAP_SERVERS"@)
                + required_problems(vars, "KAFKA_TOPIC_EVENTS"@) + required_problems(
                vars,
                "KAFKA_TOPIC_SIGNALS"@,
            ) + required_problems(vars, "KAFKA_TOPIC_LOGS"@) + required_problems(
                vars,
                "KAFKA_CONSUMER_GROUP"@,
            ) + required_problems(vars, "GCS_BUCKET"@);
            let others = positive_or(vars, "BATCH_OFFSET_RANGE"@, 10_000).1 + number_or(
                vars,
                "BATCH_MAX_IDLE_MS"@,
                30_000,
            ).1 + optional_problems(vars, "STORAGE_EMULATOR_HOST"@);
            &&& all_problems(vars) == required + others
            &&& required.len() <= 6
            &&& others.len() <= 3
        }),
{
    let required = required_problems(vars, "KAFKA_BOOTSTRAP_SERVERS"@) + required_problems(
        vars,
        "KAFKA_TOPIC_EVENTS"@,
    ) + required_problems(vars, "KAFKA_TOPIC_SIGNALS"@) + required_problems(
        vars,
        "KAFKA_TOPIC_LOGS"@,
    ) + required_problems(vars, "KAFKA_CONSUMER_GROUP"@) + required_problems(vars, "GCS_BUCKET"@);
    let others = positive_or(vars, "BATCH_OFFSET_RANGE"@, 10_000).1 + number_or(
        vars,
        "BATCH_MAX_IDLE_MS"@,
        30_000,
    ).1 + optional_problems(vars, "STORAGE_EMULATOR_HOST"@);
    assert(all_problems(vars) =~= required + others);
}

/// Each setting comes from its own variable, as it is written there; a tunable
/// that is not set is 10000 offsets wide or 30 seconds long, and a blank
/// emulator host is none.
pub proof fn each_setting_comes_from_its_variable(config: Config, vars: Seq<(String, EnvValue)>, n: int)
    requires
        config_matches(config, vars),
    ensures
        lookup(vars, "KAFKA_BOOTSTRAP_SERVERS"@) == Reading::Text(config.bootstrap_servers@),
        lookup(vars, "KAFKA_TOPIC_EVENTS"@) == Reading::Text(config.topics.events@),
        lookup(vars, "KAFKA_TOPIC_SIGNALS"@) == Reading::Text(config.topics.signals@),
        lookup(vars, "KAFKA_TOPIC_LOGS"@) == Reading::Text(config.topics.logs@),
        lookup(vars, "KAFKA_CONSUMER_GROUP"@) == Reading::Text(config.consumer_group@),
        lookup(vars, "GCS_BUCKET"@) == Reading::Text(config.gcs_bucket@),
        lookup(vars, "BATCH_OFFSET_RANGE"@) is Unset ==> config.batch_offset_range@ == 10_000,
        lookup(vars, "BATCH_OFFSET_RANGE"@) matches Reading::Text(raw) ==> (denotes(
            trimmed(raw),
            n,
        ) && 0 < n <= u64::MAX ==> config.batch_offset_range@ == n),
        lookup(vars, "BATCH_MAX_IDLE_MS"@) is Unset ==> config.batch_max_idle_ms == 30_000,
        lookup(vars, "BATCH_MAX_IDLE_MS"@) matches Reading::Text(raw) ==> (denotes(trimmed(raw), n)
            && 0 <= n <= u64::MAX ==> config.batch_max_idle_ms == n),
        match config.storage_emulator_host {
            Some(host) => lookup(vars, "STORAGE_EMULATOR_HOST"@) == Reading::Text(host@)
                && !all_white(host@),
            None => !is_filled(vars, "STORAGE_EMULATOR_HOST"@),
        },
{
    a_required_variable_has_its_value(vars, "STORAGE_EMULATOR_HOST"@);
    match lookup(vars, "BATCH_OFFSET_RANGE"@) {
        Reading::Text(raw) => {
            a_number_is_read_where_one_is_denoted(trimmed(raw), n);
        },
        _ => {},
    }
    match lookup(vars, "BATCH_MAX_IDLE_MS"@) {
        Reading::Text(raw) => {
            a_number_is_read_where_one_is_denoted(trimmed(raw), n);
        },
        _ => {},
    }
}

/// An error says how many problems there are, lists each on a line of its own in
/// order, and says where to look.
pub proof fn an_error_lists_every_problem(problems: Seq<Seq<char>>, last: Seq<char>) -> (count: Seq<
    char,
>)
    ensures
        config_error_text(problems) == "invalid configuration ("@ + count + " problem(s)):\n"@
            + problem_lines(problems) + "see .env.example for the full set"@,
        is_numeral(count) && place_value(count) == problems.len(),
        problem_lines(Seq::empty()) == Seq::<char>::empty(),
        problem_lines(problems.push(last)) == problem_lines(problems) + "  - "@ + last + "\n"@,
{
    a_decimal_number_reads_back(problems.len());
    assert(problems.push(last).drop_last() == problems);
    decimal(problems.len())
}

} // verus!
