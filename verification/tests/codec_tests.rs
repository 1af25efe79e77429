use niri_bridge::codec::{decode_event, decode_reply, decode_request, encode_request, Reply, Request, Response};
use niri_bridge::client::{
    focus_workspace_down_request, focus_workspace_request, focus_workspace_up_request,
    get_workspaces_request, reply_is_failure, subscribe_acknowledged, subscribe_request,
    workspaces_from_reply,
};
use niri_bridge::model::Event;

fn ws(id: u64, index: u32, name: Option<&str>, is_focused: bool) -> niri_bridge::model::Workspace {
    niri_bridge::model::Workspace { id, index, name: name.map(|n| n.as_bytes().to_vec()), is_focused }
}

#[test]
fn encode_fixed_requests() {
    assert_eq!(encode_request(Request::EventStream), b"\"EventStream\"".to_vec());
    assert_eq!(encode_request(Request::Workspaces), b"\"Workspaces\"".to_vec());
    assert_eq!(
        encode_request(Request::FocusWorkspaceUp),
        b"{\"Action\":{\"FocusWorkspaceUp\":{}}}".to_vec()
    );
    assert_eq!(
        encode_request(Request::FocusWorkspaceDown),
        b"{\"Action\":{\"FocusWorkspaceDown\":{}}}".to_vec()
    );
}

#[test]
fn encode_focus_request() {
    assert_eq!(
        focus_workspace_request(2),
        b"{\"Action\":{\"FocusWorkspace\":{\"id\":2}}}".to_vec()
    );
    assert_eq!(
        focus_workspace_request(18446744073709551615),
        b"{\"Action\":{\"FocusWorkspace\":{\"id\":18446744073709551615}}}".to_vec()
    );
    assert_eq!(subscribe_request(), b"\"EventStream\"".to_vec());
    assert_eq!(get_workspaces_request(), b"\"Workspaces\"".to_vec());
    assert_eq!(focus_workspace_up_request(), b"{\"Action\":{\"FocusWorkspaceUp\":{}}}".to_vec());
    assert_eq!(
        focus_workspace_down_request(),
        b"{\"Action\":{\"FocusWorkspaceDown\":{}}}".to_vec()
    );
}

#[test]
fn request_round_trip() {
    let all = [
        Request::EventStream,
        Request::Workspaces,
        Request::FocusWorkspace { id: 0 },
        Request::FocusWorkspace { id: 7 },
        Request::FocusWorkspace { id: 123456789 },
        Request::FocusWorkspace { id: u64::MAX },
        Request::FocusWorkspaceUp,
        Request::FocusWorkspaceDown,
    ];
    for q in all {
        let line = encode_request(q);
        assert_eq!(decode_request(line.as_slice()).unwrap(), q);
    }
}

#[test]
fn decode_request_rejects_noise() {
    assert!(decode_request(b"").is_err());
    assert!(decode_request(b"\"EventStreamX\"").is_err());
    assert!(decode_request(b"{\"Action\":{\"FocusWorkspace\":{\"id\":01}}}").is_err());
    assert!(decode_request(b"{\"Action\":{\"FocusWorkspace\":{\"id\":18446744073709551616}}}").is_err());
    assert!(decode_request(b"{\"Action\":{\"FocusWorkspace\":{\"id\":}}}").is_err());
}

#[test]
fn decode_event_workspaces_changed() {
    let line = b"{\"WorkspacesChanged\":{\"workspaces\":[{\"id\":1,\"index\":0,\"name\":\"web\",\"is_focused\":true},{\"id\":2,\"index\":1,\"name\":null,\"is_focused\":false}]}}\n";
    match decode_event(line).unwrap() {
        Event::WorkspacesChanged { workspaces } => {
            assert_eq!(workspaces.len(), 2);
            assert_eq!(workspaces[0], ws(1, 0, Some("web"), true));
            assert_eq!(workspaces[1], ws(2, 1, None, false));
        }
        other => panic!("wrong event: {:?}", other),
    }
}

#[test]
fn decode_event_empty_list() {
    let line = b"{\"WorkspacesChanged\":{\"workspaces\":[]}}";
    match decode_event(line).unwrap() {
        Event::WorkspacesChanged { workspaces } => assert!(workspaces.is_empty()),
        other => panic!("wrong event: {:?}", other),
    }
}

#[test]
fn decode_event_activated() {
    let line = b" {\"WorkspaceActivated\":{\"id\":2,\"focused\":true}} \r\n";
    assert_eq!(
        decode_event(line).unwrap(),
        Event::WorkspaceActivated { id: 2, focused: true }
    );
    let line = b"{\"WorkspaceActivated\":{\"id\":9,\"focused\":false}}";
    assert_eq!(
        decode_event(line).unwrap(),
        Event::WorkspaceActivated { id: 9, focused: false }
    );
}

#[test]
fn decode_event_unknown_kind_is_other() {
    assert_eq!(
        decode_event(b"{\"WindowOpened\":{\"id\":4,\"title\":\"x\"}}").unwrap(),
        Event::Other
    );
    assert_eq!(decode_event(b"{\"KeyboardLayoutsChanged\":[\"us\",\"de\"]}").unwrap(), Event::Other);
    assert_eq!(decode_event(b"{\"OverviewOpened\":null}").unwrap(), Event::Other);
    assert_eq!(decode_event(b"\"ScreenBlanked\"").unwrap(), Event::Other);
}

#[test]
fn decode_event_rejects_bad_lines() {
    assert!(decode_event(b"").is_err());
    assert!(decode_event(b"{oops").is_err());
    assert!(decode_event(b"42").is_err());
    assert!(decode_event(b"[1,2]").is_err());
    assert!(decode_event(b"{\"WorkspaceActivated\":{\"id\":true,\"focused\":true}}").is_err());
    assert!(decode_event(b"{\"WorkspacesChanged\":{\"workspaces\":[{\"id\":1}]}}").is_err());
    assert!(decode_event(b"{\"WindowOpened\":{\"id\":4}}trailing").is_err());
    let e = decode_event(b"{bad line").unwrap_err();
    assert_eq!(e.line, b"{bad line".to_vec());
}

#[test]
fn decode_event_unescapes_names() {
    let line = b"{\"WorkspacesChanged\":{\"workspaces\":[{\"id\":3,\"index\":2,\"name\":\"a\\\"b\\\\c\",\"is_focused\":false}]}}";
    match decode_event(line).unwrap() {
        Event::WorkspacesChanged { workspaces } => {
            assert_eq!(workspaces[0].name.as_deref(), Some(b"a\"b\\c".as_slice()));
        }
        other => panic!("wrong event: {:?}", other),
    }
}

#[test]
fn decode_event_large_and_bad_ids() {
    let line = b"{\"WorkspaceActivated\":{\"id\":18446744073709551615,\"focused\":true}}";
    assert_eq!(
        decode_event(line).unwrap(),
        Event::WorkspaceActivated { id: u64::MAX, focused: true }
    );
    assert!(decode_event(b"{\"WorkspaceActivated\":{\"id\":18446744073709551616,\"focused\":true}}")
        .is_err());
    assert!(decode_event(b"{\"WorkspaceActivated\":{\"id\":01,\"focused\":true}}").is_err());
}

#[test]
fn decode_reply_handled() {
    assert_eq!(
        decode_reply(b"{\"Ok\":\"Handled\"}\n").unwrap(),
        Reply::Success(Response::Handled)
    );
    assert!(subscribe_acknowledged(b"{\"Ok\":\"Handled\"}\n"));
    assert!(!subscribe_acknowledged(b"{\"Ok\":\"Ignored\"}"));
    assert!(!subscribe_acknowledged(b"{\"Err\":\"nope\"}"));
    assert!(!subscribe_acknowledged(b"not json"));
}

#[test]
fn decode_reply_workspaces() {
    let line = b"{\"Ok\":{\"Workspaces\":[{\"id\":5,\"index\":1,\"name\":null,\"is_focused\":true}]}}";
    match decode_reply(line).unwrap() {
        Reply::Success(Response::Workspaces(l)) => {
            assert_eq!(l, vec![ws(5, 1, None, true)]);
        }
        other => panic!("wrong reply: {:?}", other),
    }
    let got = workspaces_from_reply(line);
    assert_eq!(got, vec![ws(5, 1, None, true)]);
}

#[test]
fn decode_reply_other_payloads() {
    assert_eq!(decode_reply(b"{\"Ok\":123}").unwrap(), Reply::Success(Response::Other));
    assert_eq!(decode_reply(b"{\"Ok\":null}").unwrap(), Reply::Success(Response::Other));
    assert_eq!(
        decode_reply(b"{\"Ok\":{\"Outputs\":[1,2]}}").unwrap(),
        Reply::Success(Response::Other)
    );
    assert_eq!(
        decode_reply(b"{\"Ok\":\"SomethingElse\"}").unwrap(),
        Reply::Success(Response::Other)
    );
}

#[test]
fn decode_reply_failure() {
    match decode_reply(b"{\"Err\":\"no such workspace\"}").unwrap() {
        Reply::Failure(msg) => assert_eq!(msg, b"no such workspace".to_vec()),
        other => panic!("wrong reply: {:?}", other),
    }
    assert!(reply_is_failure(b"{\"Err\":\"no such workspace\"}"));
    assert!(!reply_is_failure(b"{\"Ok\":\"Handled\"}"));
    assert!(reply_is_failure(b"garbage"));
}

#[test]
fn decode_reply_rejects_bad_lines() {
    assert!(decode_reply(b"").is_err());
    assert!(decode_reply(b"\"Handled\"").is_err());
    assert!(decode_reply(b"{\"Maybe\":1}").is_err());
    assert!(decode_reply(b"{\"Err\":5}").is_err());
    assert!(decode_reply(b"{\"Ok\":\"Handled\"}x").is_err());
}

#[test]
fn degrade_to_empty_on_bad_reply() {
    assert!(workspaces_from_reply(b"{\"Err\":\"boom\"}").is_empty());
    assert!(workspaces_from_reply(b"{\"Ok\":\"Handled\"}").is_empty());
    assert!(workspaces_from_reply(b"not json at all").is_empty());
}
