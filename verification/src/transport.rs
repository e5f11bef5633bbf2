//! From the protocol's results to the replies that a worker gets.
//!
//! A reply is a status code and, for everything but a claimed task, a text.
//! Every failure is a client error with the failure's own message, so a
//! worker can tell the three failures apart.

use crate::error::StoreError;
use crate::models::{Data, GetResponse, RowId};
use vstd::prelude::*;

verus! {

/// The status of a request that went through.
pub const STATUS_OK: u16 = 200;

/// The status of a request that failed.
pub const STATUS_BAD_REQUEST: u16 = 400;

/// The text that acknowledges a completion.
pub open spec fn submitted_text() -> Seq<char> {
    "Submitted!"@
}

/// The reply to a worker that asked for a task, from the result of the
/// claim: the task with its identifier, or a client error with the failure's
/// message.
pub fn get_task(response: Result<(Data, RowId), StoreError>) -> (reply: Result<
    GetResponse,
    (u16, String),
>)
    ensures
        match response {
            Ok(task) => reply == Ok::<GetResponse, (u16, String)>(
                GetResponse { id: task.1, data: task.0 },
            ),
            Err(e) => {
                &&& reply is Err
                &&& reply->Err_0.0 == STATUS_BAD_REQUEST
                &&& reply->Err_0.1@ == e.message_text()
            },
        },
{
    match response {
        Ok((data, id)) => Ok(GetResponse { id, data }),
        Err(err) => Err((STATUS_BAD_REQUEST, err.message())),
    }
}

/// The reply to a worker that sent results, from the result of the
/// completion: an acknowledgement, or a client error with the failure's
/// message.
pub fn submit_task(response: Result<(), StoreError>) -> (reply: (u16, String))
    ensures
        match response {
            Ok(_) => reply.0 == STATUS_OK && reply.1@ == submitted_text(),
            Err(e) => reply.0 == STATUS_BAD_REQUEST && reply.1@ == e.message_text(),
        },
{
    match response {
        Ok(_) => (STATUS_OK, "Submitted!".to_owned()),
        Err(err) => (STATUS_BAD_REQUEST, err.message()),
    }
}

} // verus!
