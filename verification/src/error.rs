//! The errors that reading and parsing a file can end in.

use vstd::prelude::*;

verus! {

/// `std::io::Error`, the error of a failed read. Nothing is stated of what a value
/// of it holds: the library only carries it.
#[verifier::external_type_specification]
#[verifier::external_body]
pub struct ExIoError(std::io::Error);

/// Why a file could not be read or parsed.
#[derive(Debug)]
pub enum AppError {
    /// The file could not be read.
    Io(std::io::Error),
    /// The text is malformed at line `line`, counted from 1.
    ParseError { line: usize, msg: String },
}

} // verus!
