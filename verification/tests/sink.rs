//! Uploads: what is requested, and what replies mean.

use pulse_ingestor::batching::{BatchRange, ObjectName};
use pulse_ingestor::sink::{
    classify_status, first_line, normalise_emulator, percent_encode, put_outcome,
    ApplicationDefaultCredentials, GcsSink, NoAuth, Reply, TokenSource, UploadError,
    REAL_GCS_ENDPOINT,
};
use pulse_ingestor::units::NonZeroU64;

fn name() -> ObjectName {
    let r = BatchRange::containing(0, NonZeroU64::new(10_000).unwrap());
    ObjectName::for_range("ingestion-events", 0, "2026-09-14", r)
}

#[test]
fn auth_failures_are_never_retryable() {
    // The single most important line in this file: retrying a 401 is the bug
    // that the local stack cannot catch.
    for status in [401, 403] {
        let e = classify_status(status, "denied").expect("should be an error");
        assert!(!e.is_retryable(), "HTTP {status} must not retry");
        assert!(matches!(e, UploadError::Auth(_)));
    }
}

#[test]
fn throttling_and_server_errors_retry() {
    for status in [408, 429, 500, 502, 503, 504] {
        let e = classify_status(status, "slow down").expect("should be an error");
        assert!(e.is_retryable(), "HTTP {status} should retry");
    }
}

#[test]
fn client_errors_are_permanent() {
    for status in [400, 404, 409, 412] {
        let e = classify_status(status, "nope").expect("should be an error");
        assert!(!e.is_retryable());
        assert!(matches!(e, UploadError::Permanent(_)));
    }
}

#[test]
fn success_is_not_an_error() {
    assert!(classify_status(200, "").is_none());
    assert!(classify_status(204, "").is_none());
}

#[test]
fn the_edges_of_each_class_of_status() {
    assert!(classify_status(299, "").is_none());
    for status in [0, 199, 300, 402, 404, 407, 499, 600, u16::MAX] {
        assert!(
            matches!(classify_status(status, ""), Some(UploadError::Permanent(_))),
            "HTTP {status}"
        );
    }
    assert!(classify_status(599, "").unwrap().is_retryable());
}

#[test]
fn an_error_quotes_the_first_line_of_the_reply() {
    let text = |status: u16, body: &str| match classify_status(status, body) {
        Some(e) => e.to_string(),
        None => panic!("should be an error"),
    };
    assert_eq!(
        text(503, "  try later \r\nreally"),
        "retryable upload failure: HTTP 503: try later"
    );
    assert_eq!(
        text(401, "denied"),
        "authentication/authorisation failure (not retried): HTTP 401: denied"
    );
    assert_eq!(text(404, ""), "permanent upload failure: HTTP 404: ");
}

#[test]
fn a_first_line_is_cut_at_a_character_boundary() {
    assert_eq!(first_line("abc", 3), "abc");
    assert_eq!(first_line("abcd", 3), "abc…");
    assert_eq!(first_line("a€b", 3), "a…");
    assert_eq!(first_line("\nabc", 3), "");
    assert_eq!(first_line("é", 0), "…");
}

#[test]
fn object_name_is_percent_encoded_into_the_query() {
    let sink = GcsSink::new("pulse-staging-local", Some("localhost:4443"));
    let url = sink.upload_url(&name());
    // Slashes and the `dt=` separator must not leak into URL syntax.
    assert!(url.contains("name=ingestion-events%2Fdt%3D2026-09-14%2F0-0-9999.parquet"));
    assert!(url.starts_with("http://localhost:4443/upload/storage/v1/b/"));
    assert_eq!(
        url,
        "http://localhost:4443/upload/storage/v1/b/pulse-staging-local/o?uploadType=media\
         &name=ingestion-events%2Fdt%3D2026-09-14%2F0-0-9999.parquet"
    );
}

#[test]
fn every_byte_that_is_not_unreserved_is_escaped() {
    assert_eq!(percent_encode("AZaz09-_.~"), "AZaz09-_.~");
    assert_eq!(percent_encode(" /=&?#%+"), "%20%2F%3D%26%3F%23%25%2B");
    assert_eq!(percent_encode("é\u{7f}\n"), "%C3%A9%7F%0A");
    assert_eq!(percent_encode(""), "");
}

#[test]
fn emulator_host_gets_a_scheme_but_a_url_is_left_alone() {
    assert_eq!(normalise_emulator("fake-gcs:4443"), "http://fake-gcs:4443");
    assert_eq!(
        normalise_emulator("http://localhost:4443/"),
        "http://localhost:4443"
    );
}

#[test]
fn an_emulator_host_is_tidied() {
    assert_eq!(normalise_emulator("  https://gcs// "), "https://gcs");
    assert_eq!(normalise_emulator("HTTP://gcs"), "http://HTTP://gcs");
    assert_eq!(normalise_emulator(" / "), "http://");
}

#[test]
fn no_emulator_means_real_gcs_and_real_credentials() {
    let sink = GcsSink::new("b", None);
    assert_eq!(sink.endpoint(), REAL_GCS_ENDPOINT);
    assert_eq!(sink.describe(), "https://storage.googleapis.com/b");
    assert!(matches!(sink.request(&name()), Err(UploadError::Auth(_))));
}

#[test]
fn a_request_to_the_emulator_carries_no_token() {
    let sink = GcsSink::new("b", Some("gcs:1"));
    let request = sink.request(&name()).unwrap();
    assert_eq!(request.url, sink.upload_url(&name()));
    assert_eq!(request.content_type, "application/octet-stream");
    assert!(request.token.is_none());
}

#[test]
fn adc_fails_loudly_rather_than_pretending() {
    // Better a clear error than an upload that silently 401s in a retry
    // loop at 3am in the dev environment.
    let err = ApplicationDefaultCredentials.token().unwrap_err();
    assert!(matches!(err, UploadError::Auth(_)));
    assert!(!err.is_retryable());
}

#[test]
fn emulator_needs_no_token() {
    assert!(NoAuth.token().unwrap().is_none());
}

#[test]
fn a_reply_decides_what_becomes_of_an_upload() {
    let answered = |status: u16| {
        put_outcome(Reply::Answered {
            status,
            body: "b".to_owned(),
        })
    };
    assert!(answered(200).is_ok());
    assert!(matches!(answered(403), Err(UploadError::Auth(_))));
    assert!(matches!(answered(429), Err(UploadError::Retryable(_))));
    assert!(matches!(answered(400), Err(UploadError::Permanent(_))));
    match put_outcome(Reply::Transport("connection refused".to_owned())) {
        Err(UploadError::Retryable(m)) => assert_eq!(m, "connection refused"),
        other => panic!("a transport error is retryable, not {other:?}"),
    }
}
