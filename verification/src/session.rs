use vstd::prelude::*;

verus! {

use crate::client::subscribe_acknowledged;
use crate::codec::Request;
use crate::codec::RespView;
use crate::codec::ReplyView;
use crate::codec::decode_event;
use crate::codec::spec_decode_event;
use crate::codec::spec_decode_reply;
use crate::codec::spec_encode_request;
use crate::model::EventView;
use crate::model::ModelView;
use crate::model::WorkspaceModel;
use crate::model::WorkspaceUpdate;
use crate::model::apply_event_model;
use crate::model::event_update;

/// Where one event-stream session stands. `Terminated` is absorbing: a
/// fresh session, not this one, is how streaming ever resumes.
#[derive(Clone, Copy, PartialEq, Eq, Structural, Debug)]
pub enum SessionState {
    Disconnected,
    Connecting,
    AwaitingSubscribeAck,
    Streaming,
    Terminated,
}

/// What the outside world reports into the session: its start, the outcome
/// of the connect attempt, one line read from the socket, or end-of-stream.
#[derive(Debug)]
pub enum SessionInput {
    Start,
    ConnectSucceeded,
    ConnectFailed,
    LineRead(Vec<u8>),
    ReadClosed,
}

/// What the session asks the outside world to do next: open the connection,
/// write one line, hand one update to the consumer, or nothing.
#[derive(Debug, PartialEq, Eq)]
pub enum SessionAction {
    Connect,
    SendLine(Vec<u8>),
    Deliver(WorkspaceUpdate),
    Idle,
}

/// The state the next input moves the session to.
pub open spec fn step_state(st: SessionState, input: SessionInput) -> SessionState {
    match (st, input) {
        (SessionState::Disconnected, SessionInput::Start) => SessionState::Connecting,
        (SessionState::Connecting, SessionInput::ConnectSucceeded) => SessionState::AwaitingSubscribeAck,
        (SessionState::Connecting, SessionInput::ConnectFailed) => SessionState::Terminated,
        (SessionState::AwaitingSubscribeAck, SessionInput::LineRead(l)) => if spec_decode_reply(l@)
            == Some(ReplyView::Success(RespView::Handled)) {
            SessionState::Streaming
        } else {
            SessionState::Terminated
        },
        (SessionState::AwaitingSubscribeAck, SessionInput::ReadClosed) => SessionState::Terminated,
        (SessionState::Streaming, SessionInput::LineRead(l)) => if spec_decode_event(l@) is Some {
            SessionState::Streaming
        } else {
            SessionState::Terminated
        },
        (SessionState::Streaming, SessionInput::ReadClosed) => SessionState::Terminated,
        _ => st,
    }
}

/// The reconciled model after the next input: only a decoded event while
/// streaming ever touches it.
pub open spec fn step_model(m: ModelView, st: SessionState, input: SessionInput) -> ModelView {
    match (st, input) {
        (SessionState::Streaming, SessionInput::LineRead(l)) => match spec_decode_event(l@) {
            Some(e) => apply_event_model(m, e),
            None => m,
        },
        _ => m,
    }
}

/// The action the next input provokes.
pub open spec fn step_action_ok(
    st: SessionState,
    input: SessionInput,
    a: SessionAction,
) -> bool {
    match (st, input) {
        (SessionState::Disconnected, SessionInput::Start) => a is Connect,
        (SessionState::Connecting, SessionInput::ConnectSucceeded) => (match a {
            SessionAction::SendLine(l) => l@ == spec_encode_request(Request::EventStream),
            _ => false,
        }),
        (SessionState::Streaming, SessionInput::LineRead(l)) => (match spec_decode_event(l@) {
            Some(e) => (match event_update(e) {
                Some(uv) => (match a {
                    SessionAction::Deliver(u) => u@ == uv,
                    _ => false,
                }),
                None => a is Idle,
            }),
            None => a is Idle,
        }),
        _ => a is Idle,
    }
}

/// One event-stream session: its lifecycle state and the reconciler's model
/// of the workspaces, fed by the events the session decodes.
pub struct Session {
    pub state: SessionState,
    pub model: WorkspaceModel,
}

impl Session {
    /// A session that has not started: no connection, empty model.
    pub fn new() -> (s: Session)
        ensures
            s.state == SessionState::Disconnected,
            s.model@.workspaces.len() == 0,
            s.model@.focused == 0,
    {
        Session { state: SessionState::Disconnected, model: WorkspaceModel::new() }
    }

    /// Drives the session by one input: connect outcomes move it toward
    /// `Streaming`, decoded events update the model and may yield an update
    /// to deliver, and a read failure or undecodable line ends it for good.
    pub fn step(&mut self, input: SessionInput) -> (a: SessionAction)
        ensures
            final(self).state == step_state(old(self).state, input),
            final(self).model@ == step_model(old(self).model@, old(self).state, input),
            step_action_ok(old(self).state, input, a),
    {
        let st = self.state;
        match (st, input) {
            (SessionState::Disconnected, SessionInput::Start) => {
                self.state = SessionState::Connecting;
                SessionAction::Connect
            },
            (SessionState::Connecting, SessionInput::ConnectSucceeded) => {
                self.state = SessionState::AwaitingSubscribeAck;
                SessionAction::SendLine(crate::client::subscribe_request())
            },
            (SessionState::Connecting, SessionInput::ConnectFailed) => {
                self.state = SessionState::Terminated;
                SessionAction::Idle
            },
            (SessionState::AwaitingSubscribeAck, SessionInput::LineRead(l)) => {
                if subscribe_acknowledged(l.as_slice()) {
                    self.state = SessionState::Streaming;
                } else {
                    self.state = SessionState::Terminated;
                }
                SessionAction::Idle
            },
            (SessionState::AwaitingSubscribeAck, SessionInput::ReadClosed) => {
                self.state = SessionState::Terminated;
                SessionAction::Idle
            },
            (SessionState::Streaming, SessionInput::LineRead(l)) => {
                match decode_event(l.as_slice()) {
                    Ok(e) => {
                        match self.model.apply_event(e) {
                            Some(u) => SessionAction::Deliver(u),
                            None => SessionAction::Idle,
                        }
                    },
                    Err(_) => {
                        self.state = SessionState::Terminated;
                        SessionAction::Idle
                    },
                }
            },
            (SessionState::Streaming, SessionInput::ReadClosed) => {
                self.state = SessionState::Terminated;
                SessionAction::Idle
            },
            _ => SessionAction::Idle,
        }
    }
}

/// Law: once a session is `Terminated` no input moves it again and no input
/// makes it act or touch the model; and end-of-stream while streaming
/// terminates it at once.
pub proof fn lemma_terminated_absorbing(st: SessionState, input: SessionInput, m: ModelView)
    ensures
        st is Terminated ==> step_state(st, input) is Terminated,
        st is Terminated ==> step_model(m, st, input) == m,
        step_state(SessionState::Streaming, SessionInput::ReadClosed) is Terminated,
        step_model(m, SessionState::Streaming, SessionInput::ReadClosed) == m,
{
}

} // verus!
