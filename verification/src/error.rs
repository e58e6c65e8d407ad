//! Error types shared by every part of the crate.

use vstd::prelude::*;

verus! {

/// The standard I/O error, carried through by [`DataError::Io`].
#[verifier::external_type_specification]
#[verifier::external_body]
pub struct ExIoError(std::io::Error);

/// Result type used throughout the crate.
pub type Result<T> = std::result::Result<T, DataError>;

/// Everything that can go wrong while opening or reading a dataset.
#[derive(Debug)]
pub enum DataError {
    /// An I/O operation failed.
    Io(std::io::Error),
    /// Mapping a file into memory failed.
    Mmap(String),
    /// The data did not have the expected layout (for instance an index
    /// past the end of a dataset).
    Format(String),
    /// A configuration value was rejected.
    Config(String),
    /// A buffer ran out of capacity.
    Capacity(String),
}

impl From<std::io::Error> for DataError {
    /// Wraps an I/O error.
    fn from(error: std::io::Error) -> (r: Self) {
        DataError::Io(error)
    }
}

impl vstd::std_specs::convert::FromSpecImpl<std::io::Error> for DataError {
    open spec fn obeys_from_spec() -> bool {
        true
    }

    open spec fn from_spec(error: std::io::Error) -> Self {
        DataError::Io(error)
    }
}

} // verus!
