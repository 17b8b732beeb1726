use tab_hoarder::storage::StorageData;
use tab_hoarder::tab_data::{CollapsedSession, SavedTab};

fn create_test_session(id: &str, name: &str) -> CollapsedSession {
    CollapsedSession {
        id: id.to_string(),
        name: name.to_string(),
        timestamp: 1698508200000,
        tabs: vec![SavedTab {
            url: "https://google.com".to_string(),
            title: "Google".to_string(),
            domain: "google.com".to_string(),
            pinned: false,
        }],
    }
}

fn saved(url: &str) -> SavedTab {
    SavedTab {
        url: url.to_string(),
        title: "title".to_string(),
        domain: "example.com".to_string(),
        pinned: true,
    }
}

#[test]
fn test_storage_data_new() {
    let storage = StorageData::new();
    assert_eq!(storage.sessions.len(), 0);
}

#[test]
fn test_add_session() {
    let mut storage = StorageData::new();
    let session = create_test_session("session-1", "Test Session");

    storage.add_session(session);

    assert_eq!(storage.sessions.len(), 1);
    assert_eq!(storage.sessions[0].id, "session-1");
}

#[test]
fn test_remove_session() {
    let mut storage = StorageData::new();
    storage.add_session(create_test_session("session-1", "Session 1"));
    storage.add_session(create_test_session("session-2", "Session 2"));

    let removed = storage.remove_session("session-1");

    assert!(removed);
    assert_eq!(storage.sessions.len(), 1);
    assert_eq!(storage.sessions[0].id, "session-2");
}

#[test]
fn test_remove_nonexistent_session() {
    let mut storage = StorageData::new();
    storage.add_session(create_test_session("session-1", "Session 1"));

    let removed = storage.remove_session("nonexistent");

    assert!(!removed);
    assert_eq!(storage.sessions.len(), 1);
}

#[test]
fn test_get_session() {
    let mut storage = StorageData::new();
    storage.add_session(create_test_session("session-1", "Test Session"));

    let session = storage.get_session("session-1");

    assert!(session.is_some());
    assert_eq!(session.unwrap().name, "Test Session");
}

#[test]
fn test_update_session_name() {
    let mut storage = StorageData::new();
    storage.add_session(create_test_session("session-1", "Old Name"));

    let updated = storage.update_session_name("session-1", "New Name".to_string());

    assert!(updated);
    assert_eq!(storage.sessions[0].name, "New Name");
}

#[test]
fn unknown_identifier_changes_nothing() {
    let mut storage = StorageData::default();
    storage.add_session(create_test_session("session-1", "Session 1"));
    storage.add_session(create_test_session("session-2", "Session 2"));
    let before = storage.sessions.clone();

    assert!(!storage.remove_session("missing"));
    assert!(!storage.update_session_name("missing", "Renamed".to_string()));
    assert!(!storage.remove_tab("missing", "https://google.com"));
    assert!(storage.get_session("missing").is_none());

    assert_eq!(storage.sessions, before);
}

#[test]
fn update_takes_the_empty_name_and_keeps_the_rest() {
    let mut storage = StorageData::new();
    storage.add_session(create_test_session("session-1", "Session 1"));
    storage.add_session(create_test_session("session-2", "Session 2"));

    assert!(storage.update_session_name("session-2", String::new()));

    assert_eq!(storage.sessions.len(), 2);
    assert_eq!(storage.sessions[0], create_test_session("session-1", "Session 1"));
    assert_eq!(storage.sessions[1], create_test_session("session-2", ""));
}

#[test]
fn duplicate_identifier_is_kept_and_the_first_is_found() {
    let mut storage = StorageData::new();
    storage.add_session(create_test_session("same", "first"));
    storage.add_session(create_test_session("other", "middle"));
    storage.add_session(create_test_session("same", "second"));
    assert_eq!(storage.sessions.len(), 3);

    assert_eq!(storage.get_session("same").unwrap().name, "first");
    assert!(storage.update_session_name("same", "renamed".to_string()));
    assert_eq!(storage.sessions[0].name, "renamed");
    assert_eq!(storage.sessions[2].name, "second");

    assert!(storage.remove_session("same"));
    assert_eq!(storage.sessions.len(), 2);
    assert_eq!(storage.sessions[0].name, "middle");
    assert_eq!(storage.sessions[1].name, "second");
}

#[test]
fn removing_a_tab_keeps_the_session_while_tabs_are_left() {
    let mut storage = StorageData::new();
    let mut session = create_test_session("session-1", "Session 1");
    session.tabs = vec![saved("https://a"), saved("https://b"), saved("https://a"), saved("https://c")];
    storage.add_session(session);
    storage.add_session(create_test_session("session-2", "Session 2"));

    assert!(storage.remove_tab("session-1", "https://a"));

    assert_eq!(storage.sessions.len(), 2);
    assert_eq!(storage.sessions[0].id, "session-1");
    assert_eq!(storage.sessions[0].tabs, vec![saved("https://b"), saved("https://c")]);

    assert!(storage.remove_tab("session-1", "https://missing"));
    assert_eq!(storage.sessions[0].tabs.len(), 2);
}

#[test]
fn removing_the_last_tab_removes_the_session() {
    let mut storage = StorageData::new();
    storage.add_session(create_test_session("session-1", "Session 1"));
    storage.add_session(create_test_session("session-2", "Session 2"));

    assert!(storage.remove_tab("session-1", "https://google.com"));

    assert_eq!(storage.sessions.len(), 1);
    assert_eq!(storage.sessions[0].id, "session-2");
}

#[test]
fn store_clone_holds_the_same_sessions() {
    let mut storage = StorageData::new();
    storage.add_session(create_test_session("session-1", "Session 1"));
    let mut empty = create_test_session("session-2", "No tabs");
    empty.tabs.clear();
    storage.add_session(empty);

    let copy = storage.clone();

    assert_eq!(copy.sessions, storage.sessions);
    assert_eq!(copy.sessions[1].tabs.len(), 0);
}

#[test]
fn total_tabs_adds_up_the_sessions() {
    let mut storage = StorageData::new();
    assert_eq!(storage.total_tabs(), 0);
    storage.add_session(create_test_session("session-1", "Session 1"));
    let mut three = create_test_session("session-2", "Session 2");
    three.tabs = vec![saved("https://a"), saved("https://b"), saved("https://c")];
    storage.add_session(three);
    let mut none = create_test_session("session-3", "Session 3");
    none.tabs.clear();
    storage.add_session(none);
    assert_eq!(storage.total_tabs(), 4);
}
