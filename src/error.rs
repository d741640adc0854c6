use vstd::prelude::*;

verus! {

/// Relies on std::io::Error only as an opaque carrier of a transport failure.
#[verifier::external_type_specification]
#[verifier::external_body]
pub struct ExIoError(std::io::Error);

/// Error returned by every operation of the codec.
#[derive(Debug)]
pub enum MemcacheError {
    /// The underlying stream failed to read, write or flush.
    IOError(std::io::Error),
    /// A key contains a byte outside the printable ASCII range `33..=126`.
    BadKey,
    /// The server sent something the codec cannot make sense of.
    BadServerResponse,
    /// The server rejected the request as invalid.
    BadQuery,
}

} // verus!
