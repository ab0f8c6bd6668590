//! Error type shared by every fallible operation of the crate.
use vstd::prelude::*;

verus! {

/// Declares `std::io::Error` so that it may be carried by [`Error::IOError`].
#[verifier::external_type_specification]
#[verifier::external_body]
pub struct ExIoError(std::io::Error);

/// Errors that can occur during MDF file operations.
#[allow(inconsistent_fields)]
#[derive(Debug)]
pub enum Error {
    /// Buffer provided for parsing was too small.
    TooShortBuffer {
        /// Actual number of bytes available
        actual: usize,
        /// Minimum number of bytes required
        expected: usize,
        /// Source file where the error was detected
        file: &'static str,
        /// Line number where the error was detected
        line: u32,
    },
    /// The file identifier is not "MDF     ".
    FileIdentifierError(String),
    /// The MDF version is not supported (requires 4.1 or later).
    FileVersioningError(String),
    /// A block identifier did not match the expected value.
    BlockIDError {
        /// The identifier that was found
        actual: String,
        /// The identifier that was expected
        expected: String,
    },
    /// An I/O error occurred while reading or writing the file.
    IOError(std::io::Error),
    /// The version string in the identification block could not be parsed.
    InvalidVersionString(String),
    /// Failed to link blocks together during file writing.
    BlockLinkError(String),
    /// Failed to serialize a block to bytes.
    BlockSerializationError(String),
    /// A conversion chain exceeded the maximum allowed depth.
    ConversionChainTooDeep {
        /// The maximum depth that was exceeded
        max_depth: usize,
    },
    /// A cycle was detected in a conversion chain.
    ConversionChainCycle {
        /// The address where the cycle was detected
        address: u64,
    },
}

/// A specialized Result type for MDF operations.
pub type Result<T> = core::result::Result<T, Error>;

} // verus!
