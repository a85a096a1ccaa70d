use vstd::prelude::*;

verus! {

/// Relies on std::io::Error as an opaque value carried through.
#[verifier::external_type_specification]
#[verifier::external_body]
pub struct ExIoError(std::io::Error);

/// Relies on serde_json::Error as an opaque value carried through.
#[verifier::external_type_specification]
#[verifier::external_body]
pub struct ExJsonError(serde_json::Error);

/// The result of store operations.
pub type Result<T> = std::result::Result<T, KvsError>;

/// The failures of store operations.
#[derive(Debug)]
pub enum KvsError {
    /// A file operation failed.
    Io(std::io::Error),
    /// A record could not be encoded or decoded.
    Serde(serde_json::Error),
    /// The index refers to a generation with no open reader.
    MissingLogfile(usize),
    /// An indexed record was of another kind than expected.
    UnexpectedCommand { expected: &'static str, got: &'static str },
}

} // verus!
