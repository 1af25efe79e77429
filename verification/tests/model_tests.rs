use niri_bridge::model::{
    sort_workspaces, workspace_label, Event, Workspace, WorkspaceModel, WorkspaceUpdate,
};

fn ws(id: u64, index: u32, name: Option<&str>, is_focused: bool) -> Workspace {
    Workspace { id, index, name: name.map(|n| n.as_bytes().to_vec()), is_focused }
}

#[test]
fn sort_orders_by_index() {
    let sorted = sort_workspaces(vec![ws(3, 2, None, false), ws(1, 0, None, true), ws(2, 1, None, false)]);
    assert_eq!(sorted, vec![ws(1, 0, None, true), ws(2, 1, None, false), ws(3, 2, None, false)]);
}

#[test]
fn sort_is_stable_on_equal_indexes() {
    let sorted = sort_workspaces(vec![ws(9, 1, Some("a"), false), ws(8, 1, Some("b"), false), ws(7, 0, None, false)]);
    assert_eq!(sorted, vec![ws(7, 0, None, false), ws(9, 1, Some("a"), false), ws(8, 1, Some("b"), false)]);
}

#[test]
fn workspaces_changed_replaces_snapshot() {
    let mut m = WorkspaceModel::new();
    let u = m.apply_event(Event::WorkspacesChanged {
        workspaces: vec![ws(2, 1, None, false), ws(1, 0, None, true)],
    });
    assert_eq!(
        u,
        Some(WorkspaceUpdate::WorkspaceChanged(vec![ws(1, 0, None, true), ws(2, 1, None, false)]))
    );
    assert_eq!(m.workspaces, vec![ws(1, 0, None, true), ws(2, 1, None, false)]);

    // the latest event wins wholesale, and repeating it changes nothing
    m.apply_event(Event::WorkspacesChanged { workspaces: vec![ws(5, 0, None, false)] });
    assert_eq!(m.workspaces, vec![ws(5, 0, None, false)]);
    m.apply_event(Event::WorkspacesChanged { workspaces: vec![ws(5, 0, None, false)] });
    assert_eq!(m.workspaces, vec![ws(5, 0, None, false)]);
}

#[test]
fn activation_moves_focus_to_present_id() {
    let mut m = WorkspaceModel::new();
    m.apply_event(Event::WorkspacesChanged {
        workspaces: vec![ws(1, 0, None, true), ws(2, 1, None, false), ws(3, 2, None, false)],
    });
    let u = m.apply_event(Event::WorkspaceActivated { id: 2, focused: true });
    assert_eq!(u, Some(WorkspaceUpdate::FocusChanged(2)));
    assert_eq!(m.focused, 2);
    let focused: Vec<u64> = m.workspaces.iter().filter(|w| w.is_focused).map(|w| w.id).collect();
    assert_eq!(focused, vec![2]);
}

#[test]
fn activation_of_absent_id_unfocuses_all() {
    let mut m = WorkspaceModel::new();
    m.apply_event(Event::WorkspacesChanged {
        workspaces: vec![ws(1, 0, None, true), ws(2, 1, None, false)],
    });
    let u = m.apply_event(Event::WorkspaceActivated { id: 42, focused: true });
    assert_eq!(u, Some(WorkspaceUpdate::FocusChanged(42)));
    assert!(m.workspaces.iter().all(|w| !w.is_focused));
}

#[test]
fn focus_loss_events_are_dropped() {
    let mut m = WorkspaceModel::new();
    m.apply_event(Event::WorkspacesChanged { workspaces: vec![ws(1, 0, None, true)] });
    let u = m.apply_event(Event::WorkspaceActivated { id: 1, focused: false });
    assert_eq!(u, None);
    assert!(m.workspaces[0].is_focused);
}

#[test]
fn unknown_events_change_nothing() {
    let mut m = WorkspaceModel::new();
    m.apply_event(Event::WorkspacesChanged { workspaces: vec![ws(1, 0, None, true)] });
    let u = m.apply_event(Event::Other);
    assert_eq!(u, None);
    assert_eq!(m.workspaces, vec![ws(1, 0, None, true)]);
}

#[test]
fn updates_apply_like_events() {
    let mut m = WorkspaceModel::new();
    m.apply_update(WorkspaceUpdate::WorkspaceChanged(vec![ws(2, 1, None, false), ws(1, 0, None, false)]));
    assert_eq!(m.workspaces, vec![ws(1, 0, None, false), ws(2, 1, None, false)]);
    m.apply_update(WorkspaceUpdate::FocusChanged(2));
    assert_eq!(m.focused, 2);
    assert_eq!(m.workspaces, vec![ws(1, 0, None, false), ws(2, 1, None, true)]);
}

#[test]
fn label_prefers_name_then_index() {
    assert_eq!(workspace_label(&ws(1, 4, Some("mail"), false)), b"mail".to_vec());
    assert_eq!(workspace_label(&ws(1, 4, None, false)), b"4".to_vec());
    assert_eq!(workspace_label(&ws(1, 0, None, false)), b"0".to_vec());
}
