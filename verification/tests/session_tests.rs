use niri_bridge::model::{Workspace, WorkspaceUpdate};
use niri_bridge::session::{Session, SessionAction, SessionInput, SessionState};

fn ws(id: u64, index: u32, name: Option<&str>, is_focused: bool) -> Workspace {
    Workspace { id, index, name: name.map(|n| n.as_bytes().to_vec()), is_focused }
}

fn streaming_session() -> Session {
    let mut s = Session::new();
    assert_eq!(s.state, SessionState::Disconnected);
    assert_eq!(s.step(SessionInput::Start), SessionAction::Connect);
    assert_eq!(s.state, SessionState::Connecting);
    match s.step(SessionInput::ConnectSucceeded) {
        SessionAction::SendLine(line) => assert_eq!(line, b"\"EventStream\"".to_vec()),
        other => panic!("expected the subscribe line, got {:?}", other),
    }
    assert_eq!(s.state, SessionState::AwaitingSubscribeAck);
    assert_eq!(
        s.step(SessionInput::LineRead(b"{\"Ok\":\"Handled\"}\n".to_vec())),
        SessionAction::Idle
    );
    assert_eq!(s.state, SessionState::Streaming);
    s
}

#[test]
fn scenario_stream_delivers_updates_in_order() {
    let mut s = streaming_session();

    let line = b"{\"WorkspacesChanged\":{\"workspaces\":[{\"id\":1,\"index\":0,\"name\":null,\"is_focused\":true},{\"id\":2,\"index\":1,\"name\":null,\"is_focused\":false}]}}\n";
    let a = s.step(SessionInput::LineRead(line.to_vec()));
    assert_eq!(
        a,
        SessionAction::Deliver(WorkspaceUpdate::WorkspaceChanged(vec![
            ws(1, 0, None, true),
            ws(2, 1, None, false),
        ]))
    );

    let a = s.step(SessionInput::LineRead(
        b"{\"WorkspaceActivated\":{\"id\":2,\"focused\":true}}\n".to_vec(),
    ));
    assert_eq!(a, SessionAction::Deliver(WorkspaceUpdate::FocusChanged(2)));

    assert_eq!(s.state, SessionState::Streaming);
    assert_eq!(s.model.workspaces, vec![ws(1, 0, None, false), ws(2, 1, None, true)]);
    assert_eq!(s.model.focused, 2);
}

#[test]
fn scenario_end_of_stream_terminates() {
    let mut s = streaming_session();
    assert_eq!(s.step(SessionInput::ReadClosed), SessionAction::Idle);
    assert_eq!(s.state, SessionState::Terminated);

    // terminated is absorbing: no further input delivers anything
    let a = s.step(SessionInput::LineRead(
        b"{\"WorkspaceActivated\":{\"id\":1,\"focused\":true}}".to_vec(),
    ));
    assert_eq!(a, SessionAction::Idle);
    assert_eq!(s.state, SessionState::Terminated);
}

#[test]
fn undecodable_line_terminates_stream() {
    let mut s = streaming_session();
    assert_eq!(s.step(SessionInput::LineRead(b"{corrupt".to_vec())), SessionAction::Idle);
    assert_eq!(s.state, SessionState::Terminated);
}

#[test]
fn unknown_event_keeps_streaming_silently() {
    let mut s = streaming_session();
    assert_eq!(
        s.step(SessionInput::LineRead(b"{\"WindowOpened\":{\"id\":7}}".to_vec())),
        SessionAction::Idle
    );
    assert_eq!(s.state, SessionState::Streaming);
}

#[test]
fn connect_failure_terminates() {
    let mut s = Session::new();
    s.step(SessionInput::Start);
    assert_eq!(s.step(SessionInput::ConnectFailed), SessionAction::Idle);
    assert_eq!(s.state, SessionState::Terminated);
}

#[test]
fn bad_subscribe_ack_terminates() {
    let mut s = Session::new();
    s.step(SessionInput::Start);
    s.step(SessionInput::ConnectSucceeded);
    assert_eq!(
        s.step(SessionInput::LineRead(b"{\"Err\":\"denied\"}".to_vec())),
        SessionAction::Idle
    );
    assert_eq!(s.state, SessionState::Terminated);
}
