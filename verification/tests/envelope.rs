//! What a consumed record becomes in memory.

use std::fmt;

use pulse_ingestor::envelope::{Envelope, ParsedRecord, RecordBody, RecordMeta};
use serde::de::{Deserialize, Deserializer, Error, IgnoredAny, MapAccess, Visitor};
use serde_json::value::RawValue;
use serde_json::Value;

/// The envelope on the wire, decoded field by field.
struct Wire(Envelope);

struct WireVisitor;

impl<'de> Visitor<'de> for WireVisitor {
    type Value = Wire;

    fn expecting(&self, f: &mut fmt::Formatter<'_>) -> fmt::Result {
        f.write_str("struct Envelope")
    }

    fn visit_map<A: MapAccess<'de>>(self, mut map: A) -> Result<Wire, A::Error> {
        let mut event_id: Option<String> = None;
        let mut gateway_id: Option<String> = None;
        let mut received_at: Option<String> = None;
        let mut retry_count: i32 = 0;
        let mut stream_name: Option<String> = None;
        let mut event_header: Option<Box<RawValue>> = None;
        let mut payload: Option<Box<RawValue>> = None;
        while let Some(key) = map.next_key::<String>()? {
            match key.as_str() {
                "event_id" => event_id = Some(map.next_value()?),
                "gateway_id" => gateway_id = Some(map.next_value()?),
                "received_at" => received_at = Some(map.next_value()?),
                "retry_count" => retry_count = map.next_value()?,
                "stream_name" => stream_name = map.next_value()?,
                "event_header" => event_header = map.next_value()?,
                "payload" => payload = Some(map.next_value()?),
                _ => {
                    map.next_value::<IgnoredAny>()?;
                }
            }
        }
        Ok(Wire(Envelope {
            event_id: event_id.ok_or_else(|| A::Error::missing_field("event_id"))?,
            gateway_id: gateway_id.ok_or_else(|| A::Error::missing_field("gateway_id"))?,
            received_at: received_at.ok_or_else(|| A::Error::missing_field("received_at"))?,
            retry_count,
            stream_name,
            event_header: event_header.map(|v| v.get().to_owned()),
            payload: payload
                .ok_or_else(|| A::Error::missing_field("payload"))?
                .get()
                .to_owned(),
        }))
    }
}

impl<'de> Deserialize<'de> for Wire {
    fn deserialize<D: Deserializer<'de>>(d: D) -> Result<Wire, D::Error> {
        d.deserialize_map(WireVisitor)
    }
}

fn parse(payload: Option<&[u8]>) -> ParsedRecord {
    let decoded = payload.map(|bytes| {
        serde_json::from_slice::<Wire>(bytes)
            .map(|w| w.0)
            .map_err(|e| e.to_string())
    });
    ParsedRecord::parse(meta(), decoded)
}

fn meta() -> RecordMeta {
    RecordMeta {
        topic: "ingestion-events".to_owned(),
        partition: 0,
        offset: 7,
        timestamp_ms: Some(1_760_000_000_000),
    }
}

const JWT_ENVELOPE: &str = r#"{
        "event_id": "evt-1",
        "gateway_id": "gw-1",
        "received_at": "2026-09-14T10:00:00Z",
        "retry_count": 0,
        "stream_name": "ingestion-events",
        "event_header": {"sub": "user-1"},
        "payload": {"kind": "click", "n": 3}
    }"#;

// An API-key request produces no event_header at all — not null, absent.
const API_KEY_ENVELOPE: &str = r#"{
        "event_id": "evt-2",
        "gateway_id": "gw-1",
        "received_at": "2026-09-14T10:00:01Z",
        "retry_count": 0,
        "payload": {"kind": "view"}
    }"#;

#[test]
fn parses_a_jwt_envelope_with_its_header() {
    let r = parse(Some(JWT_ENVELOPE.as_bytes()));
    let e = r.envelope().expect("should parse");
    assert_eq!(e.event_id, "evt-1");
    assert!(e.event_header.is_some());
    assert_eq!(e.stream_name.as_deref(), Some("ingestion-events"));
}

#[test]
fn absent_event_header_is_not_an_error() {
    // The API-key path is the majority case; rejecting it would drop most
    // of the traffic on the floor.
    let r = parse(Some(API_KEY_ENVELOPE.as_bytes()));
    let e = r.envelope().expect("should parse");
    assert!(e.event_header.is_none());
    assert!(e.stream_name.is_none());
    assert_eq!(e.retry_count, 0);
}

#[test]
fn payload_is_preserved_verbatim_not_interpreted() {
    let r = parse(Some(JWT_ENVELOPE.as_bytes()));
    let e = r.envelope().unwrap();
    let payload: Value = serde_json::from_str(&e.payload).unwrap();
    assert_eq!(payload["kind"], "click");
    assert_eq!(payload["n"], 3);
    assert_eq!(e.payload, r#"{"kind": "click", "n": 3}"#);
    assert_eq!(e.event_header.as_deref(), Some(r#"{"sub": "user-1"}"#));
}

#[test]
fn the_text_of_a_payload_is_carried_on_as_it_came() {
    // Order, spacing, escapes and the digits of a number are the sender's.
    let text = r#"{ "z":1.50 , "a":[ 1,2 ],"u":"é", "big":123456789012345678901234567890 }"#;
    let record = format!(
        r#"{{"event_id":"e","gateway_id":"g","received_at":"","event_header":null,"payload":{text}}}"#
    );
    let r = parse(Some(record.as_bytes()));
    let e = r.envelope().expect("should parse");
    assert_eq!(e.payload, text);
    assert_eq!(e.event_header, None);
}

#[test]
fn garbage_becomes_malformed_rather_than_an_error() {
    let r = parse(Some(b"{not json"));
    assert!(r.is_malformed());
    assert!(r.envelope().is_none());
    // The offset survives, so the batch can still advance past it.
    assert_eq!(r.meta.offset, 7);
}

#[test]
fn a_valid_json_document_that_is_not_an_envelope_is_malformed() {
    let r = parse(Some(br#"{"hello":"world"}"#));
    assert!(r.is_malformed());
}

#[test]
fn a_tombstone_is_malformed_not_a_panic() {
    let r = parse(None);
    assert!(r.is_malformed());
    assert_eq!(
        r.body,
        RecordBody::Malformed {
            reason: "record has no payload (tombstone?)".to_owned()
        }
    );
}

#[test]
fn malformed_reason_is_truncated_so_logs_stay_readable() {
    let huge = format!(r#"{{"payload": "{}"#, "x".repeat(10_000));
    let r = parse(Some(huge.as_bytes()));
    match r.body {
        RecordBody::Malformed { reason } => assert!(reason.chars().count() <= 201),
        RecordBody::Parsed(_) => panic!("should not parse"),
    }
}

fn reason_for(complaint: String) -> String {
    match ParsedRecord::parse(meta(), Some(Err(complaint))).body {
        RecordBody::Malformed { reason } => reason,
        RecordBody::Parsed(_) => panic!("a complaint is not an envelope"),
    }
}

#[test]
fn a_complaint_is_cut_at_a_character_boundary() {
    assert_eq!(reason_for("x".repeat(200)), "x".repeat(200));
    assert_eq!(reason_for("x".repeat(201)), "x".repeat(200) + "…");
    // A three-byte character that straddles byte 200 goes altogether.
    assert_eq!(
        reason_for("x".repeat(199) + "€uro"),
        "x".repeat(199) + "…"
    );
    assert_eq!(reason_for("€".repeat(67)), "€".repeat(66) + "…");
}
