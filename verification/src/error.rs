use vstd::prelude::*;

verus! {

/// The ways a query or a decode can fail.  Every failure is reported
/// synchronously; nothing is retried and no partial result is returned.
#[derive(Clone, Copy, Debug, PartialEq, Eq, Structural)]
pub enum Ip2RegionError {
    /// The buffer is too short to hold the fixed-size file header.
    MalformedHeader,
    /// The queried address is not a valid dotted-decimal IPv4 string.
    AddressParseFailure,
    /// A computed offset falls outside the buffer: the database is
    /// corrupt or truncated.
    OutOfBoundsIndex,
    /// The located text record is not valid UTF-8.
    InvalidUtf8,
    /// No segment-index record covers the queried address.
    NotFound,
}

} // verus!
