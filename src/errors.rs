use vstd::prelude::*;

verus! {

/// `std::io::Error`, carried unopened in `ParseError::Io`.
#[verifier::external_type_specification]
#[verifier::external_body]
pub struct ExIoError(std::io::Error);

/// Why a transcript or one of its lines could not be read as messages.
#[derive(Debug)]
pub enum ParseError {
    /// The transcript could not be read.
    Io(std::io::Error),
    /// The line does not have the shape `[date, hour] owner: text`.
    NoSplitter,
}

} // verus!
