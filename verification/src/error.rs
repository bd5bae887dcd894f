//! The failures an operation of the store can end in.

use vstd::prelude::*;

verus! {

/// Why an operation failed. Every failure ends the operation as a whole.
#[derive(Clone, Copy, Debug, PartialEq, Eq, Structural)]
pub enum Error {
    /// A parameter is not acceptable: a chunk size of zero, a chunk name or a
    /// nonce that the key store already holds.
    ConfigError,
    /// A local file could not be opened, read or written, or the output exists.
    IOError,
    /// The cipher refused its input, or a ciphertext did not authenticate.
    CryptoError,
    /// A key store document is malformed or incomplete.
    SerializationError,
    /// The storage backend failed to put, get, delete or list.
    StorageError,
}

impl Error {
    /// The name of the failure, as it is reported to the user.
    pub fn describe(&self) -> (text: &'static str)
        ensures
            text@ == self.label(),
    {
        match self {
            Error::ConfigError => "ConfigError",
            Error::IOError => "IOError",
            Error::CryptoError => "CryptoError",
            Error::SerializationError => "SerializationError",
            Error::StorageError => "StorageError",
        }
    }

    /// The text that [`Error::describe`] returns.
    pub open spec fn label(&self) -> Seq<char> {
        match self {
            Error::ConfigError => "ConfigError"@,
            Error::IOError => "IOError"@,
            Error::CryptoError => "CryptoError"@,
            Error::SerializationError => "SerializationError"@,
            Error::StorageError => "StorageError"@,
        }
    }
}

} // verus!
