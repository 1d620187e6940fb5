//! Error taxonomy shared by the whole library.

use vstd::prelude::*;

verus! {

/// `std::io::Error` is declared here so that the `Io` variant below can carry
/// the error that caused an input/output failure.
#[verifier::external_type_specification]
#[verifier::external_body]
pub struct ExIoError(std::io::Error);

/// Contains all errors the library's functions can return.
#[derive(Debug)]
pub enum Error {
    /// Returned when the shape of a given vector was not the expected one.
    LengthError,
    /// Returned when a sequence expected to be a permutation is not one.
    NotPermutation,
    /// Returned when an incorrect `Distribution` variant is given.
    IncorrectDistrType,
    /// Returned when a parse operation fails.
    ParseError,
    /// An input/output error, wrapping the `std::io::Error` that caused it.
    Io(std::io::Error),
    /// Returned when an incorrect problem instance is given.
    IncorrectProblemInstance,
}

} // verus!
