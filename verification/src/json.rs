//! Structured encoding of values as JSON text, by `serde_json`.

use serde::Serialize;
use vstd::prelude::*;

verus! {

/// The error type of `serde_json`. Nothing is known of its content.
#[verifier::external_type_specification]
#[verifier::external_body]
pub struct ExJsonError(serde_json::Error);

/// A value could not be encoded.
#[derive(Debug, Clone, Copy)]
pub struct EncodeError;

/// Trusted: calls `serde_json::to_string` on `value`. The result depends on
/// how `T` implements `Serialize`, so nothing is claimed of it: it may be any
/// text, or any failure.
#[verifier::external_body]
fn to_json_string<T: Serialize>(value: &T) -> (r: Result<String, serde_json::Error>) {
    serde_json::to_string(value)
}

/// Encodes `value` as JSON text.
///
/// Whether this succeeds, and with what text, is decided by `serde_json` and by
/// the `Serialize` impl of `T`. A failure is reported as [`EncodeError`].
pub fn encode_json<T: Serialize>(value: &T) -> (r: Result<String, EncodeError>) {
    match to_json_string(value) {
        Ok(text) => Ok(text),
        Err(_) => Err(EncodeError),
    }
}

} // verus!
