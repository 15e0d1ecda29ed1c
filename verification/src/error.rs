//! The error kinds the reader reports.

use vstd::prelude::*;

verus! {

/// The distinct failure categories of opening and querying a dictionary.
#[derive(Debug, Clone)]
pub enum MdictError {
    /// A read outside the file's bytes, or any other I/O failure.
    Io(String),
    /// Signatures or lengths out of range; unrecoverable framing.
    InvalidFormat(String),
    /// A version outside the handled set.
    UnsupportedVersion(u64),
    /// An LZO or zlib stream was rejected.
    DecompressionError(String),
    /// Key-info encryption indicated but the derivation failed.
    DecryptionError(String),
    /// Text failed to decode under the nominated charset.
    EncodingError(String),
    /// Attribute extraction from the header text failed.
    HeaderParseError(String),
    /// A lookup miss, where an error (not an absent value) is wanted.
    KeyNotFound(String),
    /// The first four bytes of a block name no recognized compression.
    InvalidCompressionType(u32),
    /// The file declares record-block encryption but no passcode is set.
    EncryptedFileRequiresPasscode,
}

} // verus!
