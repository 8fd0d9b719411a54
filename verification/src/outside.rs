//! Declarations of the types from outside this crate that its functions
//! carry. Nothing is known of what such a value holds.

use vstd::prelude::*;

verus! {

/// The error type of `std::io`, carried through as an opaque value.
#[verifier::external_type_specification]
#[verifier::external_body]
pub struct ExIoError(std::io::Error);

/// The severity scale of `err_rs`: `Info`, `Warning`, `Critical`.
#[verifier::external_type_specification]
pub struct ExErrorLevel(err_rs::ErrorLevel);

} // verus!
