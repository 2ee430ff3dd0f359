//! The wire envelope, and what a consumed Kafka record becomes in memory.
//!
//! # Two fields are optional for reasons that are easy to get wrong
//!
//! - **`event_header` is present only for JWT-authenticated gateway requests.**
//!   API-key requests produce an envelope with no header at all.
//! - `stream_name` carries the gateway's Redis destination. It is meaningless
//!   on the Kafka path but travels with the envelope, so it is preserved.
//!
//! # Payloads stay opaque
//!
//! `payload` and `event_header` are held as JSON text and written to Parquet as
//! strings. The payload has no fixed schema: shaping it is the silver worker's
//! job, and staging is a landing pad, not a model.
//!
//! # Malformed records do not stop the world
//!
//! A record that is not a valid envelope cannot be fixed by retrying.
//! [`ParsedRecord`] therefore models "this offset was unreadable" as a value
//! rather than an error: the offset still counts toward the batch range.

use vstd::prelude::*;

use crate::text::{truncate, truncated};

verus! {

use crate::text::a_cut_keeps_as_much_as_fits;
use vstd::utf8::encode_utf8;

/// The longest complaint of the JSON decoder that is kept, in bytes.
pub const MAX_REASON_BYTES: usize = 200;

/// The envelope as the gateway writes it.
#[derive(Debug, Clone, PartialEq, Eq)]
pub struct Envelope {
    pub event_id: String,
    pub gateway_id: String,
    /// UTC RFC3339, as a string. Parsed when the batch is written.
    pub received_at: String,
    pub retry_count: i32,
    pub stream_name: Option<String>,
    /// JWT-authenticated requests only. JSON text.
    pub event_header: Option<String>,
    /// Arbitrary product payload. JSON text.
    pub payload: String,
}

/// Where a record came from in Kafka.
///
/// Carried into Parquet so a row in staging can always be traced back to the
/// exact offset that produced it.
#[derive(Debug, Clone, PartialEq, Eq)]
pub struct RecordMeta {
    pub topic: String,
    pub partition: i32,
    pub offset: u64,
    /// Broker timestamp in milliseconds, when the broker supplied one.
    pub timestamp_ms: Option<i64>,
}

/// A consumed record: either an envelope, or a note that this offset could not
/// be read.
///
/// Both carry [`RecordMeta`], because both occupy an offset and an unreadable
/// offset must still advance the batch.
#[derive(Debug, Clone, PartialEq, Eq)]
pub struct ParsedRecord {
    pub meta: RecordMeta,
    pub body: RecordBody,
}

/// What was found at an offset.
#[derive(Debug, Clone, PartialEq, Eq)]
pub enum RecordBody {
    Parsed(Box<Envelope>),
    /// The raw bytes were not a valid envelope. Holds the decoder's complaint,
    /// truncated: a 4MB unreadable blob should not become a 4MB log line.
    Malformed { reason: String },
}

/// Why a record without a payload is malformed.
pub open spec fn tombstone_reason() -> Seq<char> {
    "record has no payload (tombstone?)"@
}

/// Whether `body` is what `payload` decodes to: the envelope, or the decoder's
/// complaint cut short, or the note that there was nothing to decode.
pub open spec fn body_matches(
    body: RecordBody,
    payload: Option<Result<Envelope, String>>,
) -> bool {
    match payload {
        None => body matches RecordBody::Malformed { reason } && reason@ == tombstone_reason(),
        Some(Ok(envelope)) => body == RecordBody::Parsed(Box::new(envelope)),
        Some(Err(complaint)) => body matches RecordBody::Malformed { reason } && reason@
            == truncated(complaint@, MAX_REASON_BYTES as nat),
    }
}

impl ParsedRecord {
    /// Turn a raw Kafka payload, as decoded, into a record: `None` is a record
    /// with no payload at all, an error is the JSON decoder's complaint.
    ///
    /// Never fails: what cannot be decoded becomes [`RecordBody::Malformed`].
    pub fn parse(meta: RecordMeta, payload: Option<Result<Envelope, String>>) -> (r: ParsedRecord)
        ensures
            r.meta == meta,
            body_matches(r.body, payload),
    {
        let body: RecordBody = match payload {
            None => RecordBody::Malformed {
                reason: "record has no payload (tombstone?)".to_owned(),
            },
            Some(Ok(envelope)) => RecordBody::Parsed(Box::new(envelope)),
            Some(Err(complaint)) => RecordBody::Malformed {
                reason: truncate(complaint.as_str(), MAX_REASON_BYTES),
            },
        };
        ParsedRecord { meta, body }
    }

    /// Whether this offset could not be read.
    pub fn is_malformed(&self) -> (r: bool)
        ensures
            r == (self.body is Malformed),
    {
        match &self.body {
            RecordBody::Parsed(_) => false,
            RecordBody::Malformed { .. } => true,
        }
    }

    /// The envelope, where there is one.
    pub fn envelope(&self) -> (r: Option<&Envelope>)
        ensures
            r == match self.body {
                RecordBody::Parsed(e) => Some(&*e),
                RecordBody::Malformed { .. } => None,
            },
    {
        match &self.body {
            RecordBody::Parsed(e) => Some(e),
            RecordBody::Malformed { .. } => None,
        }
    }
}

/// However long the decoder's complaint, the reason kept with a malformed
/// record stays short.
pub proof fn a_malformed_reason_is_short(
    reason: Seq<char>,
    body: RecordBody,
    payload: Option<Result<Envelope, String>>,
)
    requires
        body_matches(body, payload),
        body matches RecordBody::Malformed { reason: kept } && kept@ == reason,
    ensures
        reason.len() <= MAX_REASON_BYTES + 1,
{
    match payload {
        None => {
            reveal_strlit("record has no payload (tombstone?)");
        },
        Some(Ok(_)) => {},
        Some(Err(complaint)) => {
            crate::text::truncated_text_is_short(complaint@, MAX_REASON_BYTES as nat);
        },
    }
}

/// An envelope is kept whole, with every field as it was decoded, and is never
/// flagged.
pub proof fn an_envelope_is_kept_as_it_was_decoded(body: RecordBody, envelope: Envelope)
    requires
        body_matches(body, Some(Ok(envelope))),
    ensures
        body matches RecordBody::Parsed(kept) && *kept == envelope,
{
}

/// What cannot be read is flagged, with the reason: the decoder's complaint, all
/// of it where it takes at most 200 bytes, and otherwise as many of its
/// characters as fit into them, with an ellipsis after them.
pub proof fn a_complaint_is_kept_up_to_its_limit(body: RecordBody, complaint: String) -> (k: int)
    requires
        body_matches(body, Some(Err(complaint))),
    ensures
        0 <= k <= complaint@.len(),
        body matches RecordBody::Malformed { reason } && {
            &&& encode_utf8(complaint@).len() <= 200 ==> reason@ == complaint@
            &&& encode_utf8(complaint@).len() > 200 ==> {
                &&& k < complaint@.len()
                &&& reason@ == complaint@.take(k) + seq!['…']
                &&& encode_utf8(complaint@.take(k)).len() <= 200
                &&& encode_utf8(complaint@.take(k + 1)).len() > 200
            }
        },
{
    a_cut_keeps_as_much_as_fits(complaint@, 200)
}

/// A record without a payload is flagged, and says so.
pub proof fn a_tombstone_is_flagged(body: RecordBody)
    requires
        body_matches(body, None),
    ensures
        body matches RecordBody::Malformed { reason } && reason@
            == "record has no payload (tombstone?)"@,
{
}

} // verus!
