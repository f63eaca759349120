use vstd::prelude::*;

verus! {

#[verifier::external_type_specification]
#[verifier::external_body]
pub struct ExIoError(std::io::Error);

/// The errors possibly returned when reading a LEB128-encoded integer.
#[derive(Debug)]
pub enum Error {
    /// The byte source failed; for an in-memory source, it ended in the
    /// middle of an integer.
    IoError(std::io::Error),
    /// The LEB128-encoded integer is too large to fit in the requested type.
    Overflow,
}

/// Relies on `std::io::Error::from(ErrorKind::UnexpectedEof)`: the error that
/// `Read::read_exact` reports when a source runs out of bytes.
#[verifier::external_body]
pub(crate) fn end_of_input() -> std::io::Error {
    std::io::Error::from(std::io::ErrorKind::UnexpectedEof)
}

} // verus!
