use pinenote_service::bridge::sway::{
    find_known, on_event, plan_sync, EventKind, NodeInfo, Reaction, SwayWindow, WindowChange,
};
use pinenote_service::types::rect::Rect;

fn win(id: i64, pid: i32, title: &str) -> SwayWindow {
    SwayWindow::try_from_node(&NodeInfo {
        id,
        has_shell: true,
        visible: Some(true),
        pid: Some(pid),
        x: 0,
        y: 0,
        width: 10,
        height: 10,
        deco_height: 0,
        floating: false,
        border_normal: false,
        name: Some(title.to_string()),
        marks: vec![],
        fullscreen_mode: None,
    })
    .unwrap()
}

#[test]
fn events_and_reactions() {
    assert_eq!(Reaction::Stop, on_event(EventKind::Shutdown));
    assert_eq!(Reaction::Reprocess, on_event(EventKind::Window));
    assert_eq!(Reaction::Reprocess, on_event(EventKind::Workspace));
    assert_eq!(Reaction::Reprocess, on_event(EventKind::Timeout));
    assert_eq!(Reaction::RefreshOutput, on_event(EventKind::Output));
    assert_eq!(Reaction::Wait, on_event(EventKind::Other));
}

#[test]
fn first_sight_adds_everything() {
    let plan = plan_sync(&vec![], &vec![], vec![win(1, 10, "a"), win(2, 10, "b"), win(3, 11, "c")]);
    assert!(plan.stale_pids.is_empty());
    assert!(plan.stale_windows.is_empty());
    assert_eq!(vec![10, 11], plan.new_pids);
    let ids: Vec<i64> = plan
        .changes
        .iter()
        .map(|c| match c {
            WindowChange::Add(w) => w.id,
            WindowChange::Update(_) => panic!("nothing was known"),
        })
        .collect();
    assert_eq!(vec![1, 2, 3], ids);
}

#[test]
fn nothing_changed_means_nothing_to_do() {
    let known = vec![win(1, 10, "a"), win(2, 11, "b")];
    let plan = plan_sync(&vec![10, 11], &known, vec![win(2, 11, "b"), win(1, 10, "a")]);
    assert!(plan.stale_pids.is_empty());
    assert!(plan.new_pids.is_empty());
    assert!(plan.changes.is_empty());
    assert!(plan.stale_windows.is_empty());
}

#[test]
fn changes_and_departures() {
    let known = vec![win(1, 10, "a"), win(2, 11, "b"), win(3, 12, "c")];
    let mut moved = win(2, 11, "b");
    moved.area = Rect::new(5, 5, 50, 50);
    let plan = plan_sync(&vec![10, 11, 12], &known, vec![moved, win(4, 13, "d"), win(5, 13, "e")]);
    assert_eq!(vec![10, 12], plan.stale_pids);
    assert_eq!(vec![13], plan.new_pids);
    assert_eq!(vec![1, 3], plan.stale_windows);
    assert_eq!(3, plan.changes.len());
    match &plan.changes[0] {
        WindowChange::Update(w) => {
            assert_eq!(2, w.id);
            let update = known[find_known(&known, 2).unwrap()].diff(w).unwrap();
            assert_eq!(Some(Rect::new(5, 5, 50, 50)), update.area);
            assert_eq!(None, update.title);
        }
        other => panic!("not an update: {:?}", other),
    }
    assert!(matches!(&plan.changes[1], WindowChange::Add(w) if w.id == 4));
    assert!(matches!(&plan.changes[2], WindowChange::Add(w) if w.id == 5));
}

#[test]
fn known_window_is_found_by_its_identifier() {
    let known = vec![win(1, 10, "a"), win(2, 11, "b"), win(2, 12, "again")];
    assert_eq!(Some(0), find_known(&known, 1));
    assert_eq!(Some(1), find_known(&known, 2));
    assert_eq!(None, find_known(&known, 3));
    assert_eq!(None, find_known(&vec![], 1));
}
