use tab_hoarder::tab_data::{CollapsedSession, SavedTab, TabInfo};

#[test]
fn test_tab_info_creation() {
    let tab = TabInfo::new(1, "https://google.com".to_string(), "Google".to_string(), false, 0);

    assert_eq!(tab.id, 1);
    assert_eq!(tab.url, "https://google.com");
    assert_eq!(tab.title, "Google");
    assert_eq!(tab.pinned, false);
    assert_eq!(tab.index, 0);
}

#[test]
fn clones_hold_the_same_values() {
    let tab = TabInfo::new(7, "https://a.b/c".to_string(), "T".to_string(), true, 3);
    let copy = tab.clone();
    assert_eq!(copy.id, 7);
    assert_eq!(copy.url, "https://a.b/c");
    assert_eq!(copy.title, "T");
    assert!(copy.pinned);
    assert_eq!(copy.index, 3);

    let session = CollapsedSession {
        id: "test-123".to_string(),
        name: "Test Session 2024-10-28T10:30:00".to_string(),
        timestamp: 1698508200000,
        tabs: vec![SavedTab {
            url: "https://google.com".to_string(),
            title: "Google".to_string(),
            domain: "google.com".to_string(),
            pinned: false,
        }],
    };
    assert_eq!(session.clone(), session);
    assert_eq!(session.tabs[0].clone(), session.tabs[0]);
}
