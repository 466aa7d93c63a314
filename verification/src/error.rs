//! The error taxonomy of the store.

use vstd::prelude::*;
use vstd::string::StringExecFns;

verus! {

/// Every failure the store distinguishes.
///
/// Errors that originate outside the library (the file system, the
/// network, the alternative embedded engine) are carried as plain
/// messages; the variants the core logic decides on carry no payload.
#[derive(Debug)]
pub enum KvsError {
    /// A filesystem or socket failure, reported by the caller that
    /// performed the operation.
    IoError(String),
    /// Removing a key that is not present.
    KeyNotFound,
    /// An index entry resolved to a record that is not a Set, or a
    /// record whose command field is empty.
    UnexpectedCommandType,
    /// Record bytes that fail structural decoding.
    Deserialize(String),
    /// A checksum mismatch on decode.
    CorruptedData,
    /// An opaque server-reported error carried across the wire.
    StringError(String),
    /// A value that cannot be encoded within the record framing.
    Serialization(String),
    /// A failure inside the embedded alternative engine.
    SledError(String),
}

impl KvsError {
    /// The message a caller sees for this error.
    pub open spec fn spec_message(self) -> Seq<char> {
        match self {
            KvsError::IoError(m) => "I/O error: "@ + m@,
            KvsError::KeyNotFound => "Key not found"@,
            KvsError::UnexpectedCommandType => "Unexpected command type"@,
            KvsError::Deserialize(m) => "Deserialize error: "@ + m@,
            KvsError::CorruptedData => "Corrupted data"@,
            KvsError::StringError(m) => m@,
            KvsError::Serialization(m) => "Serialization error: "@ + m@,
            KvsError::SledError(m) => "Sled error: "@ + m@,
        }
    }

    /// Renders the error as a plain string, for logs and for the wire
    /// protocol's stringified `Err` arm.
    pub fn to_message(&self) -> (r: String)
        ensures
            r@ == self.spec_message(),
    {
        match self {
            KvsError::IoError(m) => {
                let mut s = String::from_str("I/O error: ");
                s.append(m.as_str());
                s
            },
            KvsError::KeyNotFound => String::from_str("Key not found"),
            KvsError::UnexpectedCommandType => String::from_str("Unexpected command type"),
            KvsError::Deserialize(m) => {
                let mut s = String::from_str("Deserialize error: ");
                s.append(m.as_str());
                s
            },
            KvsError::CorruptedData => String::from_str("Corrupted data"),
            KvsError::StringError(m) => m.clone(),
            KvsError::Serialization(m) => {
                let mut s = String::from_str("Serialization error: ");
                s.append(m.as_str());
                s
            },
            KvsError::SledError(m) => {
                let mut s = String::from_str("Sled error: ");
                s.append(m.as_str());
                s
            },
        }
    }
}

} // verus!
