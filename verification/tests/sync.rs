use engine_editor::fs::{DirEntry, FsError};
use engine_editor::session::{Action, EditorSession, Event, SaveState};

fn entry(path: &str, is_dir: bool, name: &str) -> DirEntry {
    DirEntry { path: path.to_string(), is_dir, name: name.to_string() }
}

fn nav(path: &str) -> Event {
    Event::Navigate { path: path.to_string() }
}

fn ctrl_s() -> Event {
    Event::KeyPressed { key: 's', ctrl_or_cmd: true }
}

#[test]
fn navigation_requests_listing() {
    let mut s = EditorSession::new();
    let a = s.step(nav("/proj"));
    match a {
        Action::RequestListing { request, path } => {
            assert_eq!(request, 0);
            assert_eq!(path, "/proj");
        },
        _ => panic!("navigation must request a listing"),
    }
    assert_eq!(s.current_path(), "/proj");
}

#[test]
fn empty_path_makes_no_call() {
    let mut s = EditorSession::new();
    let a = s.step(nav(""));
    assert!(matches!(a, Action::Nothing));
    assert_eq!(s.entry_count(), 0);
}

#[test]
fn listing_applied_when_current() {
    let mut s = EditorSession::new();
    s.step(nav("/proj"));
    let listing = vec![entry("/proj/a.txt", false, "a.txt"), entry("/proj/sub", true, "sub")];
    let a = s.step(Event::ListingArrived { request: 0, listing: Ok(listing.clone()) });
    assert!(matches!(a, Action::Nothing));
    assert_eq!(s.entry_count(), 2);
    assert_eq!(*s.entry_at(0), listing[0]);
    assert_eq!(*s.entry_at(1), listing[1]);
}

#[test]
fn listing_error_changes_nothing() {
    let mut s = EditorSession::new();
    s.step(nav("/proj"));
    let a = s.step(Event::ListingArrived { request: 0, listing: Err(FsError::IoFailure) });
    assert!(matches!(a, Action::Nothing));
    assert_eq!(s.entry_count(), 0);
}

#[test]
fn stale_listing_never_overwrites_fresh_one() {
    // Navigations to A then B: whichever order the two answers arrive
    // in, the listing finally displayed is B's.
    let a_listing = vec![entry("/a/old.txt", false, "old.txt")];
    let b_listing = vec![entry("/b/new.txt", false, "new.txt")];

    let mut s = EditorSession::new();
    s.step(nav("/a"));
    s.step(nav("/b"));
    s.step(Event::ListingArrived { request: 1, listing: Ok(b_listing.clone()) });
    s.step(Event::ListingArrived { request: 0, listing: Ok(a_listing.clone()) });
    assert_eq!(s.entry_count(), 1);
    assert_eq!(*s.entry_at(0), b_listing[0]);

    let mut s = EditorSession::new();
    s.step(nav("/a"));
    s.step(nav("/b"));
    s.step(Event::ListingArrived { request: 0, listing: Ok(a_listing) });
    s.step(Event::ListingArrived { request: 1, listing: Ok(b_listing.clone()) });
    assert_eq!(s.entry_count(), 1);
    assert_eq!(*s.entry_at(0), b_listing[0]);
}

#[test]
fn directory_click_is_no_op() {
    let mut s = EditorSession::new();
    s.step(nav("/proj"));
    let a = s.step(Event::EntryClicked { entry: entry("/proj/sub", true, "sub") });
    assert!(matches!(a, Action::Nothing));
    assert!(s.selected_file().is_none());
    assert_eq!(s.buffer(), "");
}

#[test]
fn file_click_requests_read() {
    let mut s = EditorSession::new();
    let a = s.step(Event::EntryClicked { entry: entry("/proj/a.txt", false, "a.txt") });
    match a {
        Action::RequestRead { path } => assert_eq!(path, "/proj/a.txt"),
        _ => panic!("a file click must request a read"),
    }
    // Selection and buffer only change once the read comes back.
    assert!(s.selected_file().is_none());
}

#[test]
fn read_success_updates_selection_and_buffer_together() {
    let mut s = EditorSession::new();
    let a = s.step(Event::ReadArrived {
        path: "/proj/a.txt".to_string(),
        content: Ok("hello".to_string()),
    });
    assert!(matches!(a, Action::Nothing));
    assert_eq!(s.selected_file().as_deref(), Some("/proj/a.txt"));
    assert_eq!(s.buffer(), "hello");
}

#[test]
fn read_failure_changes_neither_field() {
    let mut s = EditorSession::new();
    let a = s.step(Event::ReadArrived {
        path: "/proj/a.txt".to_string(),
        content: Err(FsError::NotUtf8),
    });
    assert!(matches!(a, Action::Nothing));
    assert!(s.selected_file().is_none());
    assert_eq!(s.buffer(), "");
}

#[test]
fn edit_replaces_buffer_wholesale() {
    let mut s = EditorSession::new();
    s.step(Event::Edited { text: "draft one".to_string() });
    s.step(Event::Edited { text: "two".to_string() });
    assert_eq!(s.buffer(), "two");
}

#[test]
fn save_without_selection_writes_nothing() {
    let mut s = EditorSession::new();
    s.step(Event::Edited { text: "unsaved".to_string() });
    let a = s.step(ctrl_s());
    assert!(matches!(a, Action::SuppressKey));
    assert_eq!(s.save_state(), SaveState::Idle);
}

#[test]
fn save_with_selection_writes_buffer() {
    let mut s = EditorSession::new();
    s.step(Event::ReadArrived {
        path: "/proj/a.txt".to_string(),
        content: Ok("old".to_string()),
    });
    s.step(Event::Edited { text: "new text".to_string() });
    let a = s.step(ctrl_s());
    match a {
        Action::RequestWrite { path, content } => {
            assert_eq!(path, "/proj/a.txt");
            assert_eq!(content, "new text");
        },
        _ => panic!("saving with a selection must request a write"),
    }
    assert_eq!(s.save_state(), SaveState::Pending);
}

#[test]
fn other_keys_do_nothing() {
    let mut s = EditorSession::new();
    s.step(Event::ReadArrived {
        path: "/proj/a.txt".to_string(),
        content: Ok("text".to_string()),
    });
    assert!(matches!(s.step(Event::KeyPressed { key: 's', ctrl_or_cmd: false }), Action::Nothing));
    assert!(matches!(s.step(Event::KeyPressed { key: 'x', ctrl_or_cmd: true }), Action::Nothing));
}

#[test]
fn write_result_drives_save_indicator() {
    let mut s = EditorSession::new();
    s.step(Event::ReadArrived {
        path: "/proj/a.txt".to_string(),
        content: Ok("text".to_string()),
    });
    s.step(ctrl_s());
    assert_eq!(s.save_state(), SaveState::Pending);
    s.step(Event::WriteArrived { result: Ok(()) });
    assert_eq!(s.save_state(), SaveState::Saved);
    s.step(ctrl_s());
    s.step(Event::WriteArrived { result: Err(FsError::IoFailure) });
    assert_eq!(s.save_state(), SaveState::Failed);
}
