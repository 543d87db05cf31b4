//! The rules of the edges between operators: what a write sends, and how it ends.

use crate::event::{KeyedDataEvent, LocalEvent};
use crate::rpc::{RpcCode, RpcStatus};
use vstd::prelude::*;
use vstd::string::StringExecFns;

verus! {

/// Number of items a local channel holds before a sender has to wait.
pub const DEFAULT_CHANNEL_SIZE: usize = 1000;

/// Why a value did not leave on an edge.
#[derive(Debug, PartialEq, Eq)]
pub enum OutEdgeError {
    /// The channel to the operator on this worker is closed.
    SendToLocalFailed(String),
    /// The call to the worker of the operator failed.
    SendToRemoteFailed(RpcStatus),
    /// The value could not be encoded.
    EncodeError(String),
}

/// The name of a status code, as it stands in messages.
pub open spec fn code_name(code: RpcCode) -> Seq<char> {
    match code {
        RpcCode::Success => "Ok"@,
        RpcCode::Unknown => "Unknown"@,
        RpcCode::InvalidArgument => "InvalidArgument"@,
        RpcCode::DeadlineExceeded => "DeadlineExceeded"@,
        RpcCode::NotFound => "NotFound"@,
        RpcCode::Internal => "Internal"@,
        RpcCode::Unavailable => "Unavailable"@,
    }
}

/// The text of an error: its kind, a colon, and its cause. The cause of a failed call is
/// the name of its status code, a colon, and its message.
pub open spec fn error_text(error: OutEdgeError) -> Seq<char> {
    match error {
        OutEdgeError::SendToLocalFailed(message) => "SendToLocalFailed: "@ + message@,
        OutEdgeError::SendToRemoteFailed(status) => "SendToRemoteFailed: "@ + code_name(
            status.code,
        ) + ": "@ + status.message@,
        OutEdgeError::EncodeError(message) => "RmpEncodeError: "@ + message@,
    }
}

impl OutEdgeError {
    /// The error for a value that the encoder refused with `message`.
    pub fn from(message: String) -> (error: OutEdgeError)
        ensures
            error == OutEdgeError::EncodeError(message),
    {
        OutEdgeError::EncodeError(message)
    }

    /// The text of this error.
    pub fn to_string(&self) -> (text: String)
        ensures
            text@ == error_text(*self),
    {
        match self {
            OutEdgeError::SendToLocalFailed(message) => {
                let mut text = "SendToLocalFailed: ".to_owned();
                text.append(message.as_str());
                text
            },
            OutEdgeError::SendToRemoteFailed(status) => {
                let mut text = "SendToRemoteFailed: ".to_owned();
                text.append(
                    match status.code {
                        RpcCode::Success => "Ok",
                        RpcCode::Unknown => "Unknown",
                        RpcCode::InvalidArgument => "InvalidArgument",
                        RpcCode::DeadlineExceeded => "DeadlineExceeded",
                        RpcCode::NotFound => "NotFound",
                        RpcCode::Internal => "Internal",
                        RpcCode::Unavailable => "Unavailable",
                    },
                );
                text.append(": ");
                text.append(status.message.as_str());
                text
            },
            OutEdgeError::EncodeError(message) => {
                let mut text = "RmpEncodeError: ".to_owned();
                text.append(message.as_str());
                text
            },
        }
    }
}

/// The capacity of a local channel for which `requested` slots were asked: zero asks
/// for the default.
pub fn channel_capacity(requested: usize) -> (capacity: usize)
    ensures
        capacity == if requested == 0 {
            DEFAULT_CHANNEL_SIZE
        } else {
            requested
        },
{
    if requested == 0 {
        DEFAULT_CHANNEL_SIZE
    } else {
        requested
    }
}

/// How a write on a local edge ends, given what the encoder made of the value and,
/// where it made bytes of it, what the channel made of the bytes (`None` where nothing
/// was handed to the channel). A value that cannot be encoded is an encoding error
/// and is not sent; bytes that the channel refuses are a failed send.
pub fn local_write(encoded: Result<(), String>, sent: Option<Result<(), String>>) -> (done: Result<
    (),
    OutEdgeError,
>)
    ensures
        done == match encoded {
            Err(message) => Err::<(), OutEdgeError>(OutEdgeError::EncodeError(message)),
            Ok(_) => match sent {
                Some(Err(cause)) => Err::<(), OutEdgeError>(OutEdgeError::SendToLocalFailed(cause)),
                _ => Ok::<(), OutEdgeError>(()),
            },
        },
{
    match encoded {
        Err(message) => Err(OutEdgeError::from(message)),
        Ok(_) => match sent {
            Some(Err(cause)) => Err(OutEdgeError::SendToLocalFailed(cause)),
            _ => Ok(()),
        },
    }
}

/// What a remote edge sends for an event: the batch of a data event, and nothing for
/// the signal that the job ends, which goes to the workers another way.
pub fn remote_payload(event: LocalEvent) -> (payload: Option<KeyedDataEvent>)
    ensures
        payload == match event {
            LocalEvent::Terminate { .. } => None::<KeyedDataEvent>,
            LocalEvent::KeyedDataStreamEvent(batch) => Some(batch),
        },
{
    match event {
        LocalEvent::Terminate { .. } => None,
        LocalEvent::KeyedDataStreamEvent(batch) => Some(batch),
    }
}

/// How a write on a remote edge ends, given how the call to the worker ended (`None`
/// where nothing was to be sent).
pub fn remote_write(called: Option<Result<(), RpcStatus>>) -> (done: Result<(), OutEdgeError>)
    ensures
        done == match called {
            Some(Err(status)) => Err::<(), OutEdgeError>(OutEdgeError::SendToRemoteFailed(status)),
            _ => Ok::<(), OutEdgeError>(()),
        },
{
    match called {
        Some(Err(status)) => Err(OutEdgeError::SendToRemoteFailed(status)),
        _ => Ok(()),
    }
}

/// How a batch of writes ends, given how each write ended, in order: with the first
/// failure, or well where none failed. The writes after a failure are not made.
pub open spec fn first_failure(writes: Seq<Result<(), OutEdgeError>>) -> Result<(), OutEdgeError>
    decreases writes.len(),
{
    if writes.len() == 0 {
        Ok(())
    } else if writes[0] is Err {
        writes[0]
    } else {
        first_failure(writes.drop_first())
    }
}

/// How a batch of writes ends: see [`first_failure`].
pub fn batch_write(writes: Vec<Result<(), OutEdgeError>>) -> (done: Result<(), OutEdgeError>)
    ensures
        done == first_failure(writes@),
{
    let mut writes = writes;
    let ghost all = writes@;
    // take the writes from the end, so that the first is looked at last
    let mut done: Result<(), OutEdgeError> = Ok(());
    assert(all.skip(all.len() as int) =~= Seq::<Result<(), OutEdgeError>>::empty());
    while writes.len() > 0
        invariant
            writes@.len() <= all.len(),
            writes@ == all.take(writes@.len() as int),
            done == first_failure(all.skip(writes@.len() as int)),
        decreases writes.len(),
    {
        let ghost n = writes@.len() as int;
        let last = writes.pop().unwrap();
        proof {
            assert(writes@ =~= all.take(n - 1));
            assert(all.skip(n - 1).drop_first() =~= all.skip(n));
            assert(last == all[n - 1]);
        }
        match last {
            Err(error) => {
                done = Err(error);
            },
            Ok(_) => {},
        }
    }
    assert(all.skip(0) =~= all);
    done
}

} // verus!
