//! Where batches go: the GCS staging bucket, or an emulator of it.
//!
//! # Error classification is the part that matters locally
//!
//! The failure to avoid is retry logic that treats an auth failure as retryable
//! and hammers the API. The emulator never produces a 401, so that path cannot
//! be tested against it, but it can be stated and proved directly, and it is.
//!
//! The rule: **401/403 never retry.** A token that is wrong now is wrong in
//! 200ms, and retrying turns one misconfiguration into a rate-limit incident.
//! 429 and 5xx retry with backoff; other 4xx are permanent.
//!
//! This module decides what is requested and what a reply means. Sending the
//! request is the application's part.

use vstd::prelude::*;

use crate::batching::ObjectName;
use crate::text::{head_line, push_decimal, starts_with, trim, trim_trailing, truncate};

verus! {

use crate::text::{
    a_cut_keeps_as_much_as_fits, a_decimal_number_reads_back, all_white, decimal, first_line_of,
    is_numeral, is_whitespace, place_value, trailing_characters_are_taken_off, trimmed,
    trimming_takes_off_white_space_only, truncated, without_trailing,
};
use vstd::utf8::{encode_scalar, encode_utf8};

/// Real GCS. Used when no emulator host is configured.
pub const REAL_GCS_ENDPOINT: &'static str = "https://storage.googleapis.com";

/// How much of a reply's first line goes into an error, in bytes.
pub const MAX_DETAIL_BYTES: usize = 200;

// ─── Errors ─────────────────────────────────────────────────────────────────

/// What went wrong with an upload, classified by what a caller should *do*.
#[derive(Debug)]
pub enum UploadError {
    /// Transport-level failure, 429, or 5xx. Safe to retry: the object name is
    /// deterministic, so a duplicate attempt overwrites rather than doubles.
    Retryable(String),
    /// 401 or 403. Never retried.
    Auth(String),
    /// Anything else: a bad request, a missing bucket, a name that cannot be
    /// encoded.
    Permanent(String),
}

/// The text of an upload error.
pub open spec fn upload_error_text(e: UploadError) -> Seq<char> {
    match e {
        UploadError::Retryable(m) => "retryable upload failure: "@ + m@,
        UploadError::Auth(m) => "authentication/authorisation failure (not retried): "@ + m@,
        UploadError::Permanent(m) => "permanent upload failure: "@ + m@,
    }
}

impl UploadError {
    /// Whether another attempt could succeed.
    #[must_use]
    pub fn is_retryable(&self) -> (r: bool)
        ensures
            r == (self is Retryable),
    {
        match self {
            UploadError::Retryable(_) => true,
            _ => false,
        }
    }

    /// The error as text.
    pub fn to_string(&self) -> (r: String)
        ensures
            r@ == upload_error_text(*self),
    {
        let mut out: String = String::new();
        match self {
            UploadError::Retryable(m) => {
                out.push_str("retryable upload failure: ");
                out.push_str(m.as_str());
            },
            UploadError::Auth(m) => {
                out.push_str("authentication/authorisation failure (not retried): ");
                out.push_str(m.as_str());
            },
            UploadError::Permanent(m) => {
                out.push_str("permanent upload failure: ");
                out.push_str(m.as_str());
            },
        }
        assert(out@ =~= upload_error_text(*self));
        out
    }
}

/// The first line of a reply, without the white space around it, cut short.
pub open spec fn detail_line(body: Seq<char>, max: nat) -> Seq<char> {
    truncated(trimmed(first_line_of(body)), max)
}

/// The first line of `s`, without the white space around it, cut to `max` bytes.
pub fn first_line(s: &str, max: usize) -> (r: String)
    ensures
        r@ == detail_line(s@, max as nat),
{
    let first: String = head_line(s);
    truncate(trim(first.as_str()), max)
}

/// What an error says of an HTTP reply.
pub open spec fn status_detail(status: u16, body: Seq<char>) -> Seq<char> {
    "HTTP "@ + decimal(status as nat) + ": "@ + detail_line(body, MAX_DETAIL_BYTES as nat)
}

/// Whether an HTTP status reports success.
pub open spec fn is_success(status: u16) -> bool {
    200 <= status <= 299
}

/// Whether an HTTP status reports that the caller is not who it has to be.
pub open spec fn is_auth_failure(status: u16) -> bool {
    status == 401 || status == 403
}

/// Whether an HTTP status reports something that may pass by itself.
pub open spec fn is_transient(status: u16) -> bool {
    status == 408 || status == 429 || 500 <= status <= 599
}

/// Classify an HTTP status into the action a caller should take.
#[must_use]
pub fn classify_status(status: u16, body: &str) -> (r: Option<UploadError>)
    ensures
        match r {
            None => is_success(status),
            Some(UploadError::Auth(m)) => is_auth_failure(status) && m@ == status_detail(
                status,
                body@,
            ),
            Some(UploadError::Retryable(m)) => is_transient(status) && m@ == status_detail(
                status,
                body@,
            ),
            Some(UploadError::Permanent(m)) => !is_success(status) && !is_auth_failure(status)
                && !is_transient(status) && m@ == status_detail(status, body@),
        },
{
    let mut detail: String = String::new();
    detail.push_str("HTTP ");
    push_decimal(&mut detail, status as u64);
    detail.push_str(": ");
    detail.push_str(first_line(body, MAX_DETAIL_BYTES).as_str());
    assert(detail@ =~= status_detail(status, body@));
    if status >= 200 && status <= 299 {
        None
    } else if status == 401 || status == 403 {
        Some(UploadError::Auth(detail))
    } else if status == 408 || status == 429 {
        Some(UploadError::Retryable(detail))
    } else if status >= 500 && status <= 599 {
        Some(UploadError::Retryable(detail))
    } else {
        Some(UploadError::Permanent(detail))
    }
}

// ─── Credentials ────────────────────────────────────────────────────────────

/// Supplies the bearer token for real GCS.
///
/// Locally there is none: the emulator is unauthenticated.
pub trait TokenSource {
    /// The token to send along, if any.
    fn token(&self) -> Result<Option<String>, UploadError>;
}

/// No credentials at all: the emulator.
#[derive(Debug, Clone, Copy, Default)]
pub struct NoAuth;

impl TokenSource for NoAuth {
    fn token(&self) -> (r: Result<Option<String>, UploadError>)
        ensures
            r == Ok::<Option<String>, UploadError>(None),
    {
        Ok(None)
    }
}

/// What the missing credentials say of themselves.
pub open spec fn adc_message() -> Seq<char> {
    "ADC is not implemented yet — real GCS auth is scheduled for the dev deployment. Set STORAGE_EMULATOR_HOST to use the local emulator."@
}

/// Application Default Credentials, for the dev deployment.
///
/// There are none yet, and asking for them is an error that says so: better a
/// clear refusal than an upload that is turned away in a retry loop.
#[derive(Debug, Clone, Copy, Default)]
pub struct ApplicationDefaultCredentials;

impl TokenSource for ApplicationDefaultCredentials {
    fn token(&self) -> (r: Result<Option<String>, UploadError>)
        ensures
            r matches Err(UploadError::Auth(m)) && m@ == adc_message(),
    {
        Err(
            UploadError::Auth(
                "ADC is not implemented yet — real GCS auth is scheduled for the dev deployment. Set STORAGE_EMULATOR_HOST to use the local emulator.".to_owned(),
            ),
        )
    }
}

// ─── Percent encoding ───────────────────────────────────────────────────────

/// Whether a byte stands for itself in a URL.
pub open spec fn is_unreserved(b: u8) -> bool {
    ||| 65 <= b <= 90
    ||| 97 <= b <= 122
    ||| 48 <= b <= 57
    ||| b == 45
    ||| b == 95
    ||| b == 46
    ||| b == 126
}

/// The upper-case hexadecimal digit of `n`.
pub open spec fn hex_digit(n: int) -> char {
    if n < 10 {
        (48 + n) as char
    } else {
        (55 + n) as char
    }
}

/// How one byte is written in a URL.
pub open spec fn encoded_byte(b: u8) -> Seq<char> {
    if is_unreserved(b) {
        seq![b as char]
    } else {
        seq!['%', hex_digit(b as int / 16), hex_digit(b as int % 16)]
    }
}

/// How bytes are written in a URL.
pub open spec fn encoded_bytes(bytes: Seq<u8>) -> Seq<char>
    decreases bytes.len(),
{
    if bytes.len() == 0 {
        Seq::empty()
    } else {
        encoded_byte(bytes[0]) + encoded_bytes(bytes.skip(1))
    }
}

/// How a text is written in a URL: by the bytes of its UTF-8 encoding.
pub open spec fn percent_encoded(s: Seq<char>) -> Seq<char> {
    encoded_bytes(encode_utf8(s))
}

/// The encodings of two parts stand one after the other.
proof fn lemma_encoded_concat(a: Seq<u8>, b: Seq<u8>)
    ensures
        encoded_bytes(a + b) == encoded_bytes(a) + encoded_bytes(b),
    decreases a.len(),
{
    if a.len() == 0 {
        assert(a + b == b);
        assert(encoded_bytes(a) + encoded_bytes(b) == encoded_bytes(b));
    } else {
        lemma_encoded_concat(a.skip(1), b);
        assert((a + b).skip(1) == a.skip(1) + b);
        assert(encoded_bytes(a + b) == encoded_bytes(a) + encoded_bytes(b));
    }
}

/// The hexadecimal digit of `n`.
fn hex(n: u8) -> (r: char)
    requires
        n < 16,
    ensures
        r == hex_digit(n as int),
{
    if n < 10 {
        (48 + n) as char
    } else {
        (55 + n) as char
    }
}

/// Percent-encode a GCS object name for use in a query parameter.
///
/// Object names contain `/` and `=` (`dt=2026-09-14`), both of which must be
/// escaped here or the API reads them as path and parameter syntax.
pub fn percent_encode(s: &str) -> (r: String)
    ensures
        r@ == percent_encoded(s@),
{
    let bytes: &[u8] = s.as_bytes();
    let mut out: String = String::new();
    let mut i: usize = 0;
    assert(bytes@.take(0) == Seq::<u8>::empty());
    while i < bytes.len()
        invariant
            i <= bytes.len(),
            bytes@ == encode_utf8(s@),
            out@ == encoded_bytes(bytes@.take(i as int)),
        decreases bytes.len() - i,
    {
        let b: u8 = bytes[i];
        let ghost before = out@;
        if (b >= 65 && b <= 90) || (b >= 97 && b <= 122) || (b >= 48 && b <= 57) || b == 45 || b
            == 95 || b == 46 || b == 126 {
            out.push(b as char);
        } else {
            out.push('%');
            out.push(hex(b / 16));
            out.push(hex(b % 16));
        }
        proof {
            assert(out@ =~= before + encoded_byte(b));
            lemma_encoded_concat(bytes@.take(i as int), seq![b]);
            assert(bytes@.take(i + 1) == bytes@.take(i as int) + seq![b]);
            assert(encoded_bytes(seq![b]) == encoded_byte(b)) by {
                assert(seq![b].skip(1) == Seq::<u8>::empty());
                assert(encoded_bytes(seq![b].skip(1)) == Seq::<char>::empty());
                assert(encoded_byte(b) + Seq::<char>::empty() == encoded_byte(b));
            }
        }
        i = i + 1;
    }
    assert(bytes@.take(i as int) == bytes@);
    out
}

// ─── The sink ───────────────────────────────────────────────────────────────

/// An emulator's address as a URL: its white space and trailing slashes taken
/// off, and plain HTTP where it names no scheme.
pub open spec fn emulator_url(host: Seq<char>) -> Seq<char> {
    let h = without_trailing(trimmed(host), '/');
    if "http://"@.is_prefix_of(h) || "https://"@.is_prefix_of(h) {
        h
    } else {
        "http://"@ + h
    }
}

/// An emulator's address as a URL.
pub fn normalise_emulator(host: &str) -> (r: String)
    ensures
        r@ == emulator_url(host@),
{
    let h: String = trim_trailing(trim(host), '/');
    if starts_with(h.as_str(), "http://") || starts_with(h.as_str(), "https://") {
        h
    } else {
        let mut url: String = String::new();
        url.push_str("http://");
        url.push_str(h.as_str());
        assert(url@ =~= emulator_url(host@));
        url
    }
}

/// An upload, ready to be sent with the object's bytes as its body.
#[derive(Debug)]
pub struct UploadRequest {
    pub url: String,
    pub content_type: String,
    /// The bearer token, where the endpoint wants one.
    pub token: Option<String>,
}

/// What became of an upload once it was sent.
#[derive(Debug)]
pub enum Reply {
    /// The connection failed: refused, or timed out.
    Transport(String),
    /// The endpoint answered.
    Answered { status: u16, body: String },
}

/// Uploads to GCS (or an emulator) over the JSON API.
#[derive(Debug)]
pub struct GcsSink {
    endpoint: String,
    bucket: String,
    emulated: bool,
}

/// What a [`GcsSink`] talks to.
pub struct SinkView {
    pub endpoint: Seq<char>,
    pub bucket: Seq<char>,
    /// Whether the endpoint is an emulator, which wants no credentials.
    pub emulated: bool,
}

impl View for GcsSink {
    type V = SinkView;

    closed spec fn view(&self) -> SinkView {
        SinkView { endpoint: self.endpoint@, bucket: self.bucket@, emulated: self.emulated }
    }
}

/// Where an object is uploaded to.
pub open spec fn upload_url_of(sink: SinkView, name: Seq<char>) -> Seq<char> {
    sink.endpoint + "/upload/storage/v1/b/"@ + percent_encoded(sink.bucket)
        + "/o?uploadType=media&name="@ + percent_encoded(name)
}

impl GcsSink {
    /// Build a sink.
    ///
    /// `emulator_host` is `host:port` when running against the local stack;
    /// `None` means real GCS, which also means real credentials.
    pub fn new(bucket: &str, emulator_host: Option<&str>) -> (r: GcsSink)
        ensures
            r@.bucket == bucket@,
            match emulator_host {
                Some(host) => r@.emulated && r@.endpoint == emulator_url(host@),
                None => !r@.emulated && r@.endpoint == REAL_GCS_ENDPOINT@,
            },
    {
        match emulator_host {
            // The emulator serves plain HTTP. The scheme is added here rather
            // than asked of the operator so that the setting keeps the
            // host:port shape the rest of the platform uses.
            Some(host) => GcsSink {
                endpoint: normalise_emulator(host),
                bucket: bucket.to_owned(),
                emulated: true,
            },
            None => GcsSink {
                endpoint: REAL_GCS_ENDPOINT.to_owned(),
                bucket: bucket.to_owned(),
                emulated: false,
            },
        }
    }

    /// The base URL of every request.
    #[must_use]
    pub fn endpoint(&self) -> (r: &str)
        ensures
            r@ == self@.endpoint,
    {
        self.endpoint.as_str()
    }

    /// Where the object `name` is uploaded to.
    pub fn upload_url(&self, name: &ObjectName) -> (r: String)
        ensures
            r@ == upload_url_of(self@, name@),
    {
        let mut url: String = String::new();
        url.push_str(self.endpoint.as_str());
        url.push_str("/upload/storage/v1/b/");
        url.push_str(percent_encode(self.bucket.as_str()).as_str());
        url.push_str("/o?uploadType=media&name=");
        url.push_str(percent_encode(name.as_str()).as_str());
        assert(url@ =~= upload_url_of(self@, name@));
        url
    }

    /// The bearer token to send along: none to an emulator, and to real GCS the
    /// application default credentials.
    fn token(&self) -> (r: Result<Option<String>, UploadError>)
        ensures
            self@.emulated ==> r == Ok::<Option<String>, UploadError>(None),
            !self@.emulated ==> (r matches Err(UploadError::Auth(m)) && m@ == adc_message()),
    {
        if self.emulated {
            NoAuth.token()
        } else {
            ApplicationDefaultCredentials.token()
        }
    }

    /// The request that uploads the object `name`, overwriting whatever is
    /// there. Overwriting is required: a retried batch reproduces the same name
    /// on purpose.
    ///
    /// Fails where no token can be had, before anything is sent.
    pub fn request(&self, name: &ObjectName) -> (r: Result<UploadRequest, UploadError>)
        ensures
            match r {
                Ok(request) => self@.emulated && request.url@ == upload_url_of(self@, name@)
                    && request.content_type@ == "application/octet-stream"@ && request.token is None,
                Err(e) => !self@.emulated && (e matches UploadError::Auth(m) && m@
                    == adc_message()),
            },
    {
        let url: String = self.upload_url(name);
        match self.token() {
            Ok(token) => Ok(
                UploadRequest { url, content_type: "application/octet-stream".to_owned(), token },
            ),
            Err(e) => Err(e),
        }
    }

    /// Human-readable destination, for logs.
    pub fn describe(&self) -> (r: String)
        ensures
            r@ == self@.endpoint + "/"@ + self@.bucket,
    {
        let mut out: String = String::new();
        out.push_str(self.endpoint.as_str());
        out.push_str("/");
        out.push_str(self.bucket.as_str());
        out
    }
}

/// What the reply to an upload means.
///
/// A transport error is retryable: nothing was necessarily written, and if it
/// was, the name makes the retry an overwrite.
pub fn put_outcome(reply: Reply) -> (r: Result<(), UploadError>)
    ensures
        match reply {
            Reply::Transport(complaint) => r == Err::<(), UploadError>(
                UploadError::Retryable(complaint),
            ),
            Reply::Answered { status, body } => match r {
                Ok(()) => is_success(status),
                Err(UploadError::Auth(m)) => is_auth_failure(status) && m@ == status_detail(
                    status,
                    body@,
                ),
                Err(UploadError::Retryable(m)) => is_transient(status) && m@ == status_detail(
                    status,
                    body@,
                ),
                Err(UploadError::Permanent(m)) => !is_success(status) && !is_auth_failure(status)
                    && !is_transient(status) && m@ == status_detail(status, body@),
            },
        },
{
    match reply {
        Reply::Transport(complaint) => Err(UploadError::Retryable(complaint)),
        Reply::Answered { status, body } => match classify_status(status, body.as_str()) {
            None => Ok(()),
            Some(e) => Err(e),
        },
    }
}

// ─── Laws ───────────────────────────────────────────────────────────────────

/// What a status reports is one thing only: an authentication failure is never
/// also something to retry, and neither is ever success.
pub proof fn an_auth_failure_is_never_transient(status: u16)
    ensures
        !(is_auth_failure(status) && is_transient(status)),
        !(is_success(status) && is_auth_failure(status)),
        !(is_success(status) && is_transient(status)),
{
}

/// Whether a character may stand in a percent-encoded text.
pub open spec fn is_url_safe(c: char) -> bool {
    c == '%' || ((c as u32) < 128 && is_unreserved(c as u8))
}

/// A percent-encoded text holds nothing that URL syntax could mistake for its
/// own, whatever the text was.
pub proof fn an_encoded_text_is_url_safe(s: Seq<char>, i: int)
    requires
        0 <= i < percent_encoded(s).len(),
    ensures
        is_url_safe(percent_encoded(s)[i]),
        percent_encoded(s)[i] != '/',
        percent_encoded(s)[i] != '=',
        percent_encoded(s)[i] != '&',
        percent_encoded(s)[i] != '?',
        percent_encoded(s)[i] != '#',
{
    lemma_encoded_bytes_are_safe(encode_utf8(s), i);
}

proof fn lemma_encoded_bytes_are_safe(bytes: Seq<u8>, i: int)
    requires
        0 <= i < encoded_bytes(bytes).len(),
    ensures
        is_url_safe(encoded_bytes(bytes)[i]),
    decreases bytes.len(),
{
    let head = encoded_byte(bytes[0]);
    if i < head.len() {
        assert(encoded_bytes(bytes)[i] == head[i]);
    } else {
        lemma_encoded_bytes_are_safe(bytes.skip(1), i - head.len());
        assert(encoded_bytes(bytes)[i] == encoded_bytes(bytes.skip(1))[i - head.len()]);
    }
}

/// Percent-encoding loses nothing: two texts with one encoding are the same
/// text, so two object names never share a URL.
pub proof fn distinct_texts_have_distinct_encodings(a: Seq<char>, b: Seq<char>)
    requires
        percent_encoded(a) == percent_encoded(b),
    ensures
        a == b,
{
    lemma_encoded_bytes_injective(encode_utf8(a), encode_utf8(b));
    vstd::utf8::encode_utf8_decode_utf8(a);
    vstd::utf8::encode_utf8_decode_utf8(b);
}

proof fn lemma_encoded_bytes_injective(a: Seq<u8>, b: Seq<u8>)
    requires
        encoded_bytes(a) == encoded_bytes(b),
    ensures
        a == b,
    decreases a.len(),
{
    if a.len() == 0 {
        if b.len() > 0 {
            assert(encoded_bytes(b).len() > 0);
        }
        assert(a =~= b);
    } else if b.len() == 0 {
        assert(encoded_bytes(a).len() > 0);
    } else {
        let (x, y) = (encoded_byte(a[0]), encoded_byte(b[0]));
        let (s, t) = (encoded_bytes(a), encoded_bytes(b));
        assert(s[0] == x[0] && t[0] == y[0]);
        assert(x.len() == y.len());
        assert(forall|i: int| 0 <= i < x.len() ==> s[i] == x[i] && t[i] == y[i]);
        assert(a[0] == b[0]) by {
            if !is_unreserved(a[0]) {
                assert(s[1] == x[1] && s[2] == x[2] && t[1] == y[1] && t[2] == y[2]);
            }
        }
        assert(encoded_bytes(a.skip(1)) == s.skip(x.len() as int));
        assert(encoded_bytes(b.skip(1)) == t.skip(y.len() as int));
        lemma_encoded_bytes_injective(a.skip(1), b.skip(1));
        assert(a == seq![a[0]] + a.skip(1));
        assert(b == seq![b[0]] + b.skip(1));
    }
}

/// The number that an upper-case hexadecimal digit stands for.
pub open spec fn hex_value(c: char) -> int {
    if '0' <= c <= '9' {
        c as int - '0' as int
    } else {
        c as int - 'A' as int + 10
    }
}

/// The bytes that a percent-encoded text stands for: a percent sign and two
/// hexadecimal digits for the byte of that number, and any other character for
/// itself.
pub open spec fn percent_decoded(text: Seq<char>) -> Seq<u8>
    decreases text.len(),
{
    if text.len() == 0 {
        Seq::empty()
    } else if text[0] == '%' && text.len() >= 3 {
        seq![(hex_value(text[1]) * 16 + hex_value(text[2])) as u8] + percent_decoded(text.skip(3))
    } else {
        seq![text[0] as u8] + percent_decoded(text.skip(1))
    }
}

/// Decoding undoes encoding: what was encoded is the text, by its UTF-8 bytes.
pub proof fn decoding_undoes_percent_encoding(s: Seq<char>)
    ensures
        percent_decoded(percent_encoded(s)) == encode_utf8(s),
{
    lemma_decode_encoded(encode_utf8(s));
}

proof fn lemma_decode_encoded(bytes: Seq<u8>)
    ensures
        percent_decoded(encoded_bytes(bytes)) == bytes,
    decreases bytes.len(),
{
    let text = encoded_bytes(bytes);
    if bytes.len() > 0 {
        let b = bytes[0];
        let head = encoded_byte(b);
        let rest = encoded_bytes(bytes.skip(1));
        lemma_decode_encoded(bytes.skip(1));
        assert(text == head + rest);
        assert(text.skip(head.len() as int) =~= rest);
        assert(forall|k: int| 0 <= k < head.len() ==> text[k] == head[k]);
        if !is_unreserved(b) {
            assert(text[0] == '%' && text[1] == head[1] && text[2] == head[2]);
            assert(hex_value(text[1]) == b as int / 16);
            assert(hex_value(text[2]) == b as int % 16);
        } else {
            assert(text[0] == b as char);
        }
        assert(bytes =~= seq![b] + bytes.skip(1));
    }
}

proof fn lemma_encoded_chars(bytes: Seq<u8>, i: int)
    requires
        0 <= i < encoded_bytes(bytes).len(),
    ensures
        ({
            let c = encoded_bytes(bytes)[i];
            ||| 'a' <= c <= 'z'
            ||| 'A' <= c <= 'Z'
            ||| '0' <= c <= '9'
            ||| c == '-' || c == '_' || c == '.' || c == '~' || c == '%'
        }),
    decreases bytes.len(),
{
    let head = encoded_byte(bytes[0]);
    if i < head.len() {
        assert(encoded_bytes(bytes)[i] == head[i]);
    } else {
        lemma_encoded_chars(bytes.skip(1), i - head.len());
        assert(encoded_bytes(bytes)[i] == encoded_bytes(bytes.skip(1))[i - head.len()]);
    }
}

/// Letters, digits and `-_.~` of ASCII are written as themselves, and nothing
/// else is: an encoded text holds these, percent signs, and no other character.
pub proof fn unreserved_characters_are_written_as_themselves(s: Seq<char>)
    ensures
        (forall|i: int|
            0 <= i < s.len() ==> ({
                ||| 'a' <= #[trigger] s[i] <= 'z'
                ||| 'A' <= s[i] <= 'Z'
                ||| '0' <= s[i] <= '9'
                ||| s[i] == '-' || s[i] == '_' || s[i] == '.' || s[i] == '~'
            })) ==> percent_encoded(s) == s,
        forall|i: int|
            0 <= i < percent_encoded(s).len() ==> ({
                ||| 'a' <= #[trigger] percent_encoded(s)[i] <= 'z'
                ||| 'A' <= percent_encoded(s)[i] <= 'Z'
                ||| '0' <= percent_encoded(s)[i] <= '9'
                ||| percent_encoded(s)[i] == '-' || percent_encoded(s)[i] == '_'
                ||| percent_encoded(s)[i] == '.' || percent_encoded(s)[i] == '~'
                ||| percent_encoded(s)[i] == '%'
            }),
    decreases s.len(),
{
    assert forall|i: int| 0 <= i < percent_encoded(s).len() implies ({
        ||| 'a' <= #[trigger] percent_encoded(s)[i] <= 'z'
        ||| 'A' <= percent_encoded(s)[i] <= 'Z'
        ||| '0' <= percent_encoded(s)[i] <= '9'
        ||| percent_encoded(s)[i] == '-' || percent_encoded(s)[i] == '_'
        ||| percent_encoded(s)[i] == '.' || percent_encoded(s)[i] == '~'
        ||| percent_encoded(s)[i] == '%'
    }) by {
        lemma_encoded_chars(encode_utf8(s), i);
    }
    if s.len() > 0 {
        let rest = s.drop_first();
        unreserved_characters_are_written_as_themselves(rest);
        if forall|i: int|
            0 <= i < s.len() ==> ({
                ||| 'a' <= #[trigger] s[i] <= 'z'
                ||| 'A' <= s[i] <= 'Z'
                ||| '0' <= s[i] <= '9'
                ||| s[i] == '-' || s[i] == '_' || s[i] == '.' || s[i] == '~'
            }) {
            assert forall|i: int| 0 <= i < rest.len() implies ({
                ||| 'a' <= #[trigger] rest[i] <= 'z'
                ||| 'A' <= rest[i] <= 'Z'
                ||| '0' <= rest[i] <= '9'
                ||| rest[i] == '-' || rest[i] == '_' || rest[i] == '.' || rest[i] == '~'
            }) by {
                assert(rest[i] == s[i + 1]);
            }
            let c = s[0];
            let one = encode_scalar(c as u32);
            let v = c as u32;
            assert(v <= 0x7f);
            assert(v <= 0x7f ==> v & 0x7f == v) by (bit_vector);
            assert(one =~= seq![v as u8]);
            assert((v as u8) as char == c);
            assert(encode_utf8(s) == one + encode_utf8(rest));
            lemma_encoded_concat(one, encode_utf8(rest));
            assert(one.skip(1) == Seq::<u8>::empty());
            assert(encoded_bytes(one.skip(1)) == Seq::<char>::empty());
            assert(encoded_bytes(one) =~= seq![c]);
            assert(percent_encoded(s) =~= seq![c] + rest);
            assert(s =~= seq![c] + rest);
        }
    } else {
        assert(percent_encoded(s) =~= s);
    }
}

/// Where an object goes can be read off its URL: below the endpoint, the path
/// names the bucket and the query the object, both percent-encoded.
pub proof fn an_upload_url_names_bucket_and_object(sink: SinkView, name: Seq<char>) -> (parts: (
    Seq<char>,
    Seq<char>,
))
    ensures
        upload_url_of(sink, name) == sink.endpoint + "/upload/storage/v1/b/"@ + parts.0
            + "/o?uploadType=media&name="@ + parts.1,
        percent_decoded(parts.0) == encode_utf8(sink.bucket),
        percent_decoded(parts.1) == encode_utf8(name),
{
    decoding_undoes_percent_encoding(sink.bucket);
    decoding_undoes_percent_encoding(name);
    (percent_encoded(sink.bucket), percent_encoded(name))
}

/// What an emulator's address becomes: the address between the white space
/// around it and the slashes at its end, with plain HTTP ahead where it names
/// neither HTTP nor HTTPS.
pub proof fn an_emulator_is_spoken_to_over_http(host: Seq<char>) -> (parts: (
    Seq<char>,
    Seq<char>,
    nat,
    Seq<char>,
))
    ensures
        host == parts.0 + (parts.1 + Seq::new(parts.2, |i: int| '/')) + parts.3,
        all_white(parts.0),
        all_white(parts.3),
        parts.1.len() > 0 ==> !is_whitespace(parts.1[0]) && parts.1.last() != '/',
        parts.1.len() > 0 && parts.2 == 0 ==> !is_whitespace(parts.1.last()),
        "http://"@.is_prefix_of(parts.1) || "https://"@.is_prefix_of(parts.1) ==> emulator_url(host)
            == parts.1,
        !"http://"@.is_prefix_of(parts.1) && !"https://"@.is_prefix_of(parts.1) ==> emulator_url(
            host,
        ) == "http://"@ + parts.1,
{
    let cut = trimming_takes_off_white_space_only(host);
    let n = trailing_characters_are_taken_off(trimmed(host), '/');
    let h = without_trailing(trimmed(host), '/');
    if h.len() > 0 {
        assert(h[0] == trimmed(host)[0]);
        if n == 0 {
            assert(h =~= trimmed(host));
        }
    }
    (cut.0, h, n, cut.1)
}

/// What an HTTP status means goes by its number: the two hundreds are success,
/// 401 and 403 a matter of who asks, and 408, 429 and the five hundreds may pass
/// by themselves.
pub proof fn a_status_is_classified_by_its_number(status: u16)
    ensures
        is_success(status) <==> status as int / 100 == 2,
        is_auth_failure(status) <==> status as int == 401 || status as int == 403,
        is_transient(status) <==> status as int == 408 || status as int == 429 || status as int
            / 100 == 5,
{
}

/// What an error says of a reply: its status in decimal, and of its first line,
/// without the white space around it, as much as fits into 200 bytes.
pub proof fn an_error_tells_the_status_and_the_first_line(status: u16, body: Seq<char>) -> (parts: (
    Seq<char>,
    Seq<char>,
    int,
))
    ensures
        status_detail(status, body) == "HTTP "@ + parts.0 + ": "@ + parts.1,
        is_numeral(parts.0) && place_value(parts.0) == status,
        parts.0.len() > 1 ==> parts.0[0] != '0',
        ({
            let line = trimmed(first_line_of(body));
            &&& encode_utf8(line).len() <= 200 ==> parts.1 == line
            &&& encode_utf8(line).len() > 200 ==> {
                &&& 0 <= parts.2 < line.len()
                &&& parts.1 == line.take(parts.2) + seq!['…']
                &&& encode_utf8(line.take(parts.2)).len() <= 200
                &&& encode_utf8(line.take(parts.2 + 1)).len() > 200
            }
        }),
{
    a_decimal_number_reads_back(status as nat);
    let k = a_cut_keeps_as_much_as_fits(trimmed(first_line_of(body)), 200);
    (decimal(status as nat), detail_line(body, 200), k)
}

/// An error as text says what kind it is, and then its message in full.
pub proof fn an_error_text_ends_with_the_message(e: UploadError)
    ensures
        e matches UploadError::Retryable(m) ==> upload_error_text(e)
            == "retryable upload failure: "@ + m@,
        e matches UploadError::Auth(m) ==> upload_error_text(e)
            == "authentication/authorisation failure (not retried): "@ + m@,
        e matches UploadError::Permanent(m) ==> upload_error_text(e)
            == "permanent upload failure: "@ + m@,
{
}

/// Without an emulator the endpoint is that of real GCS, and the refusal of its
/// credentials says what to set.
pub proof fn real_gcs_is_refused_with_a_way_out()
    ensures
        REAL_GCS_ENDPOINT@ == "https://storage.googleapis.com"@,
        adc_message()
            == "ADC is not implemented yet — real GCS auth is scheduled for the dev deployment. Set STORAGE_EMULATOR_HOST to use the local emulator."@,
{
}

} // verus!
