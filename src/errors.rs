//! The error the command line reports for an input it cannot take.
use vstd::prelude::*;

verus! {

#[verifier::external_type_specification]
#[verifier::external_body]
pub struct ExIoError(std::io::Error);

/// Relies on `std::io::Error::new` to build an error of kind `InvalidInput` carrying the
/// message. Nothing is stated of the result: each call boxes its payload anew.
#[verifier::external_body]
fn new_invalid_input(msg: String) -> (e: std::io::Error) {
    std::io::Error::new(std::io::ErrorKind::InvalidInput, msg)
}

/// An `InvalidInput` I/O error carrying `msg`.
pub fn io_err(msg: &str) -> (e: std::io::Error) {
    new_invalid_input(msg.to_owned())
}

} // verus!
