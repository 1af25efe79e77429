use vstd::prelude::*;

verus! {

use crate::codec::Reply;
use crate::codec::ReplyView;
use crate::codec::RespView;
use crate::codec::Request;
use crate::codec::Response;
use crate::codec::decode_reply;
use crate::codec::encode_request;
use crate::codec::spec_decode_reply;
use crate::codec::spec_encode_request;
use crate::model::Workspace;
use crate::model::wviews;

// The command path: each imperative action opens its own short-lived
// connection, writes one encoded request line, reads one reply line, and
// discards or interprets it. The socket I/O around these functions is
// unverified glue; everything the protocol decides is here.

/// The line that asks the compositor to focus workspace `id`.
pub fn focus_workspace_request(id: u64) -> (r: Vec<u8>)
    ensures
        r@ == spec_encode_request(Request::FocusWorkspace { id }),
{
    encode_request(Request::FocusWorkspace { id })
}

/// The line that asks for a relative focus move upward.
pub fn focus_workspace_up_request() -> (r: Vec<u8>)
    ensures
        r@ == spec_encode_request(Request::FocusWorkspaceUp),
{
    encode_request(Request::FocusWorkspaceUp)
}

/// The line that asks for a relative focus move downward.
pub fn focus_workspace_down_request() -> (r: Vec<u8>)
    ensures
        r@ == spec_encode_request(Request::FocusWorkspaceDown),
{
    encode_request(Request::FocusWorkspaceDown)
}

/// The line that asks for the current workspace list.
pub fn get_workspaces_request() -> (r: Vec<u8>)
    ensures
        r@ == spec_encode_request(Request::Workspaces),
{
    encode_request(Request::Workspaces)
}

/// The line that subscribes to the event stream.
pub fn subscribe_request() -> (r: Vec<u8>)
    ensures
        r@ == spec_encode_request(Request::EventStream),
{
    encode_request(Request::EventStream)
}

/// Whether a reply line on the command path reports an error: the caller
/// only logs it and carries on, it never fails.
pub fn reply_is_failure(line: &[u8]) -> (r: bool)
    ensures
        r == (match spec_decode_reply(line@) {
            Some(rep) => rep is Failure,
            None => true,
        }),
{
    match decode_reply(line) {
        Ok(rep) => match rep {
            Reply::Failure(_) => true,
            Reply::Success(_) => false,
        },
        Err(_) => true,
    }
}

/// The workspace list a `Workspaces` reply carries. Any other reply, or a
/// line that does not decode, degrades to the empty list: the command path
/// is best-effort and never blocks its caller on a bad reply.
pub fn workspaces_from_reply(line: &[u8]) -> (r: Vec<Workspace>)
    ensures
        (match spec_decode_reply(line@) {
            Some(ReplyView::Success(RespView::Workspaces(ws))) => wviews(r@) == ws,
            _ => r@.len() == 0,
        }),
{
    match decode_reply(line) {
        Ok(rep) => match rep {
            Reply::Success(p) => match p {
                Response::Workspaces(v) => v,
                Response::Handled => Vec::new(),
                Response::Other => Vec::new(),
            },
            Reply::Failure(_) => Vec::new(),
        },
        Err(_) => Vec::new(),
    }
}

/// Whether a reply line acknowledges the subscription: exactly an
/// `Ok`/`Handled` reply, the only shape that lets a session start streaming.
pub fn subscribe_acknowledged(line: &[u8]) -> (r: bool)
    ensures
        r == (spec_decode_reply(line@) == Some(ReplyView::Success(RespView::Handled))),
{
    match decode_reply(line) {
        Ok(rep) => match rep {
            Reply::Success(p) => match p {
                Response::Handled => true,
                Response::Workspaces(_) => false,
                Response::Other => false,
            },
            Reply::Failure(_) => false,
        },
        Err(_) => false,
    }
}

} // verus!
