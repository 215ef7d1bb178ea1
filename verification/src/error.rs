//! The error type shared by every fallible operation of the library.

use vstd::prelude::*;

verus! {

/// What went wrong. An unknown compression, topic or encoding carries the
/// name that was asked for; the other variants that carry a `String` hold
/// a human-readable message. The names and the numbers are part of the
/// contracts, the messages are not.
#[derive(Debug)]
#[allow(inconsistent_fields)]
pub enum PybagError {
    /// An underlying read, write or mapping failed.
    Io(String),
    /// The container violates its structure.
    InvalidMcap(String),
    /// The 8-byte magic is missing or wrong.
    InvalidMagicBytes,
    /// A record of one kind was required and another was found.
    UnexpectedRecordType { expected: u8, got: u8 },
    /// The checksum of a chunk does not match the one recorded for it.
    CrcMismatch { expected: u32, computed: u32 },
    /// The compression name is not one the library knows.
    UnknownCompression(String),
    /// The codec could not decompress.
    DecompressionError(String),
    /// The codec could not compress.
    CompressionError(String),
    /// No channel carries the topic.
    UnknownTopic(String),
    /// No channel has the id.
    UnknownChannel(u16),
    /// No schema has the id.
    UnknownSchema(u16),
    /// The message encoding is not supported.
    UnknownEncoding(String),
    /// The message-definition text is malformed.
    SchemaParseError(String),
    /// The payload does not follow the encoding rules.
    CdrDecodeError(String),
    /// A value cannot be encoded.
    CdrEncodeError(String),
    /// More bytes were asked for than the buffer holds from the cursor on.
    BufferTooSmall { needed: usize, available: usize },
    /// A record body ended before all of its fields were read.
    UnexpectedEof,
    /// An error raised by an embedding interpreter.
    PythonError(String),
}

/// An error without its message: what contracts say of an error. The
/// names that were asked for stay.
#[allow(inconsistent_fields)]
pub enum ErrorKind {
    Io,
    InvalidMcap,
    InvalidMagicBytes,
    UnexpectedRecordType { expected: u8, got: u8 },
    CrcMismatch { expected: u32, computed: u32 },
    UnknownCompression(Seq<char>),
    DecompressionError,
    CompressionError,
    UnknownTopic(Seq<char>),
    UnknownChannel(u16),
    UnknownSchema(u16),
    UnknownEncoding(Seq<char>),
    SchemaParseError,
    CdrDecodeError,
    CdrEncodeError,
    BufferTooSmall { needed: usize, available: usize },
    UnexpectedEof,
    PythonError,
}

impl View for PybagError {
    type V = ErrorKind;

    open spec fn view(&self) -> ErrorKind {
        match *self {
            PybagError::Io(_) => ErrorKind::Io,
            PybagError::InvalidMcap(_) => ErrorKind::InvalidMcap,
            PybagError::InvalidMagicBytes => ErrorKind::InvalidMagicBytes,
            PybagError::UnexpectedRecordType { expected, got } => ErrorKind::UnexpectedRecordType {
                expected,
                got,
            },
            PybagError::CrcMismatch { expected, computed } => ErrorKind::CrcMismatch {
                expected,
                computed,
            },
            PybagError::UnknownCompression(name) => ErrorKind::UnknownCompression(name@),
            PybagError::DecompressionError(_) => ErrorKind::DecompressionError,
            PybagError::CompressionError(_) => ErrorKind::CompressionError,
            PybagError::UnknownTopic(name) => ErrorKind::UnknownTopic(name@),
            PybagError::UnknownChannel(id) => ErrorKind::UnknownChannel(id),
            PybagError::UnknownSchema(id) => ErrorKind::UnknownSchema(id),
            PybagError::UnknownEncoding(name) => ErrorKind::UnknownEncoding(name@),
            PybagError::SchemaParseError(_) => ErrorKind::SchemaParseError,
            PybagError::CdrDecodeError(_) => ErrorKind::CdrDecodeError,
            PybagError::CdrEncodeError(_) => ErrorKind::CdrEncodeError,
            PybagError::BufferTooSmall { needed, available } => ErrorKind::BufferTooSmall {
                needed,
                available,
            },
            PybagError::UnexpectedEof => ErrorKind::UnexpectedEof,
            PybagError::PythonError(_) => ErrorKind::PythonError,
        }
    }
}

} // verus!
