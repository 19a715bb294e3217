use vstd::prelude::*;

verus! {

/// Error from coding or decoding a packet.
#[derive(Clone, Copy, Debug, PartialEq, Eq, Structural)]
pub enum Error {
    /// The supplied IL2P frame fields are invalid.
    Frame,
    /// The IL2P payload exceeds 1023 bytes.
    TooLong,
    /// The input ends before the declared packet length.
    Truncated,
    /// The sync word is missing or invalid.
    Sync,
    /// The protected header can't be recovered or is invalid.
    Header,
    /// A payload RS block can't be recovered.
    Payload,
    /// The optional trailing CRC is missing, malformed, or doesn't match.
    Crc,
}

impl Error {
    /// Human-readable description of the error.
    pub fn message(&self) -> (r: &'static str)
        ensures
            r@ == match *self {
                Error::Frame => "invalid IL2P frame"@,
                Error::TooLong => "IL2P payload exceeds 1023 bytes"@,
                Error::Truncated => "truncated IL2P packet"@,
                Error::Sync => "IL2P sync word not found"@,
                Error::Header => "invalid IL2P header"@,
                Error::Payload => "unrecoverable IL2P payload"@,
                Error::Crc => "IL2P trailing CRC failed"@,
            },
    {
        match self {
            Error::Frame => "invalid IL2P frame",
            Error::TooLong => "IL2P payload exceeds 1023 bytes",
            Error::Truncated => "truncated IL2P packet",
            Error::Sync => "IL2P sync word not found",
            Error::Header => "invalid IL2P header",
            Error::Payload => "unrecoverable IL2P payload",
            Error::Crc => "IL2P trailing CRC failed",
        }
    }
}

} // verus!
