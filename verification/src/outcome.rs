//! How a call of `accept` ends once the job is on its way.

use vstd::prelude::*;
use vstd::string::StringExecFns;
use crate::envelope::InferenceResult;

verus! {

/// The failures of the machinery that `accept` reports as errors. A
/// failing engine is not among them: it is answered with text.
#[derive(Debug, Clone, Copy, PartialEq, Eq)]
pub enum AcceptError {
    /// The queue of the chosen worker is closed: its thread has left.
    Dispatch,
    /// The job was taken, but the reply handle was dropped without a
    /// reply.
    ResultUnavailable,
}

/// What the runtime saw after it tried to deliver a job.
#[derive(Debug)]
pub enum Delivery {
    /// The job could not be queued: the queue is closed.
    QueueClosed,
    /// The job was queued, and the reply handle was dropped unanswered.
    ReplyDropped,
    /// The worker replied.
    Replied(InferenceResult),
}

/// The end of `accept`: the reply if there is one, else the error that
/// names what went wrong.
pub fn conclude(delivery: Delivery) -> (result: Result<InferenceResult, AcceptError>)
    ensures
        result == match delivery {
            Delivery::Replied(reply) => Ok::<InferenceResult, AcceptError>(reply),
            Delivery::QueueClosed => Err(AcceptError::Dispatch),
            Delivery::ReplyDropped => Err(AcceptError::ResultUnavailable),
        },
{
    match delivery {
        Delivery::Replied(reply) => Ok(reply),
        Delivery::QueueClosed => Err(AcceptError::Dispatch),
        Delivery::ReplyDropped => Err(AcceptError::ResultUnavailable),
    }
}

impl AcceptError {
    /// The error in words.
    pub fn message(&self) -> (text: String)
        ensures
            text@ == match *self {
                AcceptError::Dispatch => "dispatch failed: worker queue closed"@,
                AcceptError::ResultUnavailable => "result unavailable: worker dropped the reply"@,
            },
    {
        match self {
            AcceptError::Dispatch => String::from_str("dispatch failed: worker queue closed"),
            AcceptError::ResultUnavailable => String::from_str(
                "result unavailable: worker dropped the reply",
            ),
        }
    }
}

} // verus!
