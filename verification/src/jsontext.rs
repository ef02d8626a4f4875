//! Payload-shape validation: only JSON-object text may be stored.
//!
//! Whether a byte string is the text of a JSON object is decided by the
//! `json` crate's parser; the full JSON grammar is not restated here. The
//! verdict is named by the uninterpreted predicate `json_object`, and every
//! contract that speaks of payload validation speaks through that name.
//!
//! Payloads are capped at `MAX_JSON_LEN` bytes before they reach the
//! parser. The cap exists because `json::parse`'s number reader decrements
//! an `i16` decimal exponent once per fraction digit while a zero mantissa
//! never grows, so a number with more than 32768 fraction digits overflows
//! the exponent — a panic in builds with overflow checks. A payload of at
//! most 32768 bytes cannot hold such a digit run, so the parser cannot
//! reach that state. Both adapters reject longer payloads over their own
//! error channel before constructing a command, so the cap is visible to
//! clients only as an ordinary per-request error.

use vstd::prelude::*;

verus! {

/// Longest payload, in bytes, handed to the JSON parser. Larger payloads
/// are rejected by the adapters before parsing; see the module note.
pub const MAX_JSON_LEN: usize = 32768;

/// Whether `b` is UTF-8 text that parses as JSON with an object at the top.
/// Uninterpreted: its meaning is fixed by `is_object_text` below, which
/// decides it by running the `json` crate's parser.
pub uninterp spec fn json_object(b: Seq<u8>) -> bool;

/// Relies on `json::parse` (a pure function of the text): returns whether
/// `b` is UTF-8 text whose JSON parse succeeds with a top-level object.
/// Non-UTF-8 input and non-object JSON (scalars, arrays, null) give `false`.
/// The length bound keeps the parser's fraction-exponent counter in range
/// (see the module note), so the call cannot panic on an admitted input.
#[verifier::external_body]
pub(crate) fn is_object_text(b: &[u8]) -> (r: bool)
    requires
        b@.len() <= MAX_JSON_LEN,
    ensures
        r == json_object(b@),
{
    match core::str::from_utf8(b) {
        Ok(s) => matches!(json::parse(s), Ok(json::JsonValue::Object(_))),
        Err(_) => false,
    }
}

} // verus!
