//! Wrappers around the outside crates the engine relies on.
//!
//! Binary photo payloads cross the wire base64-encoded; the row store decodes
//! them on write and re-encodes them on read. Arrival stamps come from the
//! system clock.

use vstd::prelude::*;

verus! {

/// The base64 text that the standard alphabet, with padding, assigns to a
/// byte sequence.
pub uninterp spec fn b64_of(bytes: Seq<u8>) -> Seq<char>;

/// The byte sequence a base64 text stands for, if it is valid.
pub uninterp spec fn b64_parse(text: Seq<char>) -> Option<Seq<u8>>;

/// Relies on base64's `Engine::encode` with the `STANDARD` engine: the text
/// is a function of the bytes alone, and `Engine::decode` inverts it. `None`
/// is returned instead of calling it on input so large that computing the
/// output size could overflow, where `encode` panics.
#[verifier::external_body]
pub(crate) fn b64_encode(bytes: &Vec<u8>) -> (r: Option<String>)
    ensures
        match r {
            Some(s) => {
                &&& s@ == b64_of(bytes@)
                &&& b64_parse(b64_of(bytes@)) == Some(bytes@)
                &&& bytes@.len() <= 0x1000_0000_0000
            },
            None => bytes@.len() > 0x1000_0000_0000,
        },
{
    if bytes.len() > 0x1000_0000_0000 {
        None
    } else {
        Some(base64::Engine::encode(&base64::engine::general_purpose::STANDARD, bytes))
    }
}

/// Relies on base64's `Engine::decode` with the `STANDARD` engine: the bytes
/// are a function of the text alone, and invalid text is rejected.
#[verifier::external_body]
pub(crate) fn b64_decode(text: &str) -> (r: Option<Vec<u8>>)
    ensures
        match r {
            Some(v) => b64_parse(text@) == Some(v@),
            None => b64_parse(text@) is None,
        },
{
    match base64::Engine::decode(&base64::engine::general_purpose::STANDARD, text.as_bytes()) {
        Ok(v) => Some(v),
        Err(_) => None,
    }
}

/// Relies on chrono's `Utc::now`: the current wall clock, in milliseconds
/// since the epoch. Nothing is promised of the value.
#[verifier::external_body]
pub(crate) fn now_millis() -> i64 {
    chrono::Utc::now().timestamp_millis()
}

} // verus!
