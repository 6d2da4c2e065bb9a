use vstd::prelude::*;
use crate::codec::CodecError;

verus! {

#[verifier::external_type_specification]
#[verifier::external_body]
pub struct ExIoError(std::io::Error);

/// What can go wrong in a store operation.
#[derive(Debug)]
pub enum KvError {
    /// A file operation failed.
    IO(std::io::Error),
    /// The key is not in the store.
    KeyNotFound,
    /// An index entry led to a record that is not an assignment.
    UnKnownCommand,
    /// Bytes on disk could not be read as a record.
    Serde(CodecError),
}

impl KvError {
    /// A short description of the error.
    pub fn describe(&self) -> (r: String)
        ensures
            r@ == (match self {
                KvError::IO(_) => "io error occur"@,
                KvError::KeyNotFound => "key not found"@,
                KvError::UnKnownCommand => "unknown command"@,
                KvError::Serde(_) => "serde err"@,
            }),
    {
        match self {
            KvError::IO(_) => "io error occur".to_owned(),
            KvError::KeyNotFound => "key not found".to_owned(),
            KvError::UnKnownCommand => "unknown command".to_owned(),
            KvError::Serde(_) => "serde err".to_owned(),
        }
    }
}

pub type Result<T> = std::result::Result<T, KvError>;

} // verus!
