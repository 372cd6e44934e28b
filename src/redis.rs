//! How a client reads the server's replies.
//!
//! A client sends the server an array of bulk strings (see
//! [`crate::resp::encode`]); the server replies with any value, and an error
//! value reports that the command failed.
use vstd::prelude::*;
use crate::data_type::DataType;

verus! {

/// A decoded reply, labelled as a failure or a success.
#[derive(Debug, PartialEq)]
pub enum Reply {
    Failure(String),
    Success(DataType),
}

/// Labels a decoded reply: an error value is a failure carrying its
/// message, any other value a success.
pub fn classify(value: DataType) -> (r: Reply)
    ensures
        value is Error ==> r == Reply::Failure(value->Error_0),
        !(value is Error) ==> r == Reply::Success(value),
{
    match value {
        DataType::Error(message) => Reply::Failure(message),
        other => Reply::Success(other),
    }
}

} // verus!
