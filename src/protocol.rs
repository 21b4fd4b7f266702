//! The messages between client and server, and the response that each engine outcome gets.
use vstd::prelude::*;
use vstd::string::*;
use crate::error::KvsError;

verus! {

/// A client's request.
#[derive(Debug, Clone, PartialEq, Eq)]
pub enum Request {
    /// Set `key` to `value`.
    Put { key: String, value: String },
    /// Get the value of `key`.
    Get { key: String },
    /// Remove `key`.
    Remove { key: String },
}

/// The server's response to one request.
#[derive(Debug, Clone, PartialEq, Eq)]
pub enum Response {
    /// The operation succeeded.
    Done,
    /// The value that was read; `None` when the key is absent.
    Value(Option<String>),
    /// The operation failed, with the error's message.
    Failed(String),
}

/// The text that a client shows for an error.
pub open spec fn message_of(e: KvsError) -> Seq<char> {
    match e {
        KvsError::IOError(s) => "io error "@ + s@,
        KvsError::SerdeError(s) => "serde error "@ + s@,
        KvsError::NonExistentKey(_) => "Key not found"@,
        KvsError::DeserializeError => "error when deserialize from files"@,
        KvsError::ResponseError(s) => "response error: "@ + s@,
        KvsError::EngineMismatch => "data of another engine found"@,
    }
}

impl KvsError {
    /// The error's message.
    pub fn message(&self) -> (r: String)
        ensures
            r@ == message_of(*self),
    {
        match self {
            KvsError::IOError(s) => {
                let mut m = String::from_str("io error ");
                m.append(s.as_str());
                m
            },
            KvsError::SerdeError(s) => {
                let mut m = String::from_str("serde error ");
                m.append(s.as_str());
                m
            },
            KvsError::NonExistentKey(_) => String::from_str("Key not found"),
            KvsError::DeserializeError => String::from_str("error when deserialize from files"),
            KvsError::ResponseError(s) => {
                let mut m = String::from_str("response error: ");
                m.append(s.as_str());
                m
            },
            KvsError::EngineMismatch => String::from_str("data of another engine found"),
        }
    }
}

impl Response {
    /// The response to a `set` or `remove` whose outcome is `r`.
    pub fn of_unit(r: Result<(), KvsError>) -> (resp: Response)
        ensures
            match r {
                Ok(_) => resp == Response::Done,
                Err(e) => resp matches Response::Failed(m) && m@ == message_of(e),
            },
    {
        match r {
            Ok(_) => Response::Done,
            Err(e) => Response::Failed(e.message()),
        }
    }

    /// The response to a `get` whose outcome is `r`.
    pub fn of_value(r: Result<Option<String>, KvsError>) -> (resp: Response)
        ensures
            match r {
                Ok(v) => resp == Response::Value(v),
                Err(e) => resp matches Response::Failed(m) && m@ == message_of(e),
            },
    {
        match r {
            Ok(v) => Response::Value(v),
            Err(e) => Response::Failed(e.message()),
        }
    }
}

} // verus!
