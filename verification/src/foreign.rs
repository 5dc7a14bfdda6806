//! Types of std and of outside crates that the library's error types carry.
use vstd::prelude::*;

verus! {

/// An I/O error, carried unchanged inside the library's error types.
#[verifier::external_type_specification]
#[verifier::external_body]
pub struct ExIoError(std::io::Error);

/// A JSON error of `serde_json`, carried unchanged inside catalog errors.
#[verifier::external_type_specification]
#[verifier::external_body]
pub struct ExJsonError(serde_json::Error);

} // verus!
