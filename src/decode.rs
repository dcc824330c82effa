//! Decoding of one frame: UTF-8 text first, then the grammar.

use vstd::prelude::*;
use vstd::utf8::valid_utf8;

use crate::parser::message_values;
use crate::parser::parse;
use crate::parser::parsed_at;
use crate::parser::DecodeError;
use crate::parser::ParsedData;

verus! {

/// What decoding a frame gives: its text must be UTF-8 and match the grammar.
pub open spec fn decoded(frame: Seq<u8>) -> Result<Seq<Seq<u8>>, DecodeError> {
    if !valid_utf8(frame) {
        Err(DecodeError::InvalidEncoding)
    } else {
        message_values(frame)
    }
}

/// Relies on std::str::from_utf8: it accepts a byte slice exactly when the
/// slice is well-formed UTF-8.
#[verifier::external_body]
fn is_utf8(bytes: &[u8]) -> (r: bool)
    ensures
        r == valid_utf8(bytes@),
{
    std::str::from_utf8(bytes).is_ok()
}

/// Decodes one frame: its bytes must be UTF-8 text that matches the grammar.
pub fn parse_reading(frame: &[u8]) -> (r: Result<ParsedData, DecodeError>)
    ensures
        parsed_at(r) == decoded(frame@),
{
    if !is_utf8(frame) {
        Err(DecodeError::InvalidEncoding)
    } else {
        parse(frame)
    }
}

/// Decoding depends on the frame's bytes alone: two copies of one frame,
/// taken from different buffers, decode to identical results.
pub proof fn lemma_decode_idempotent(first: Seq<u8>, second: Seq<u8>)
    requires
        first == second,
    ensures
        decoded(first) == decoded(second),
{
}

} // verus!
