//! Errors of decoding.

use vstd::prelude::*;

verus! {

/// `std::io::Error`, carried as an opaque value.
#[verifier::external_type_specification]
#[verifier::external_body]
pub struct ExIoError(std::io::Error);

/// `hex::FromHexError`, carried as an opaque value.
#[verifier::external_type_specification]
#[verifier::external_body]
pub struct ExFromHexError(hex::FromHexError);

/// Why reading a value from bytes failed.
#[derive(Debug)]
pub enum Error {
    /// The bytes ended before the value did.
    Io(std::io::Error),
}

/// Why turning hexadecimal text into a transaction failed.
#[derive(Debug)]
pub enum DecodeError {
    /// The text is not hexadecimal text.
    Hex(hex::FromHexError),
    /// The bytes are not a transaction.
    Transaction(Error),
}

/// Builds the error that a reader reports when its data ends too soon.
/// Calls `std::io::Error::new` with kind `UnexpectedEof`; nothing is stated
/// of the value it returns.
#[verifier::external_body]
pub(crate) fn unexpected_eof() -> std::io::Error {
    std::io::Error::new(std::io::ErrorKind::UnexpectedEof, "failed to fill whole buffer")
}

} // verus!
