//! A verified tree-construction sink for an HTML parser.
//!
//! The crate materializes a stream of tree-building instructions into an
//! addressable document tree: an append-only arena of nodes named by stable
//! integer handles, per-node child lists backed by a shared pool, the sink
//! operations that answer construction events, and two materializers that
//! turn the finished arena into a flat id-indexed form and a nested
//! recursive form.

use vstd::prelude::*;

pub mod common;
pub mod flat_dom;
pub mod laws;
pub mod materialize;
pub mod pool;

verus! {

/// The fatal error kinds a parse call can surface to its caller.
///
/// None of these is a recoverable condition: each aborts the whole call
/// with no partial output.
#[derive(Clone, Copy, Debug, PartialEq, Eq, Structural)]
pub enum Html5everExError {
    /// The input bytes are not valid text; reported before any tree
    /// construction begins.
    InvalidEncoding,
    /// A capability that the host declares unused (script-start marking)
    /// was invoked.
    UnsupportedOperation,
    /// A value could not be placed into the chosen output representation.
    OutputEncodingFailure,
}

/// Relies on std's `str::from_utf8`: it returns `Ok` exactly when the bytes
/// are valid UTF-8, and the resulting string is their decoding.
#[verifier::external_body]
fn bytes_to_string(bytes: &[u8]) -> (r: Option<String>)
    ensures
        r is Some <==> vstd::utf8::valid_utf8(bytes@),
        r matches Some(s) ==> s@ == vstd::utf8::decode_utf8(bytes@),
{
    match std::str::from_utf8(bytes) {
        Ok(s) => Some(s.to_owned()),
        Err(_) => None,
    }
}

/// Validates the raw input of a parse call.
///
/// Returns the decoded text when the bytes are valid UTF-8, and
/// `InvalidEncoding` otherwise; the failure is reported before any tree
/// construction begins, so a rejected input leaves no partial output.
pub fn validate_utf8(bytes: &[u8]) -> (r: Result<String, Html5everExError>)
    ensures
        r is Ok <==> vstd::utf8::valid_utf8(bytes@),
        r matches Ok(s) ==> s@ == vstd::utf8::decode_utf8(bytes@),
        r matches Err(e) ==> e == Html5everExError::InvalidEncoding,
{
    match bytes_to_string(bytes) {
        Some(s) => Ok(s),
        None => Err(Html5everExError::InvalidEncoding),
    }
}

} // verus!
