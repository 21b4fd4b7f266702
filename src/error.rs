use vstd::prelude::*;

verus! {

/// The errors of the store.
#[derive(Debug, Clone, PartialEq, Eq)]
pub enum KvsError {
    /// A filesystem or network failure, with its message.
    IOError(String),
    /// A wire message that could not be decoded, with its message.
    SerdeError(String),
    /// `remove` of a key that is not present.
    NonExistentKey(String),
    /// A segment line that does not decode, or a read that does not lead to a `set` record.
    DeserializeError,
    /// An `Err` response from the server, as seen by a client.
    ResponseError(String),
    /// The data directory holds data of another engine.
    EngineMismatch,
}

} // verus!
