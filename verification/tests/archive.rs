use tab_hoarder::archive::{collapse_tabs, collapse_tabs_as, save_tabs};
use tab_hoarder::storage::StorageData;
use tab_hoarder::tab_data::{SavedTab, TabInfo};

fn tab(id: i32, url: &str, title: &str, pinned: bool) -> TabInfo {
    TabInfo::new(id, url.to_string(), title.to_string(), pinned, id)
}

fn open_tabs() -> Vec<TabInfo> {
    vec![
        tab(1, "https://www.google.com/maps", "Maps", false),
        tab(2, "https://github.com/rust", "Rust", true),
        tab(3, "", "Blank", false),
        tab(4, "https://www.google.com/maps", "Maps again", false),
        tab(5, "https://news.bbc.co.uk/world", "World", false),
        tab(6, "https://mail.google.com", "Mail", false),
    ]
}

#[test]
fn saved_tabs_carry_their_domain() {
    let saved = save_tabs(&open_tabs());
    assert_eq!(saved.len(), 5);
    assert_eq!(
        saved[0],
        SavedTab {
            url: "https://www.google.com/maps".to_string(),
            title: "Maps".to_string(),
            domain: "google.com".to_string(),
            pinned: false,
        }
    );
    assert_eq!(saved[1].domain, "github.com");
    assert!(saved[1].pinned);
    assert_eq!(saved[3].domain, "bbc.co.uk");
    assert!(save_tabs(&[]).is_empty());
}

#[test]
fn collapse_sorts_dedups_and_lists_what_to_close() {
    let (session, to_close) = collapse_tabs_as(
        &open_tabs(),
        "test-123".to_string(),
        "Test Session 2024-10-28T10:30:00".to_string(),
        1698508200000,
    );

    assert_eq!(session.id, "test-123");
    assert_eq!(session.name, "Test Session 2024-10-28T10:30:00");
    assert_eq!(session.timestamp, 1698508200000);
    let urls: Vec<&str> = session.tabs.iter().map(|t| t.url.as_str()).collect();
    assert_eq!(
        urls,
        vec![
            "https://news.bbc.co.uk/world",
            "https://github.com/rust",
            "https://mail.google.com",
            "https://www.google.com/maps",
        ]
    );
    let domains: Vec<&str> = session.tabs.iter().map(|t| t.domain.as_str()).collect();
    assert_eq!(domains, vec!["bbc.co.uk", "github.com", "google.com", "google.com"]);
    assert_eq!(session.tabs[3].title, "Maps");
    assert_eq!(to_close, vec![5, 2, 6, 1]);
}

#[test]
fn collapse_of_nothing_is_an_empty_session() {
    let (session, to_close) = collapse_tabs_as(&[], "id".to_string(), String::new(), -1);
    assert!(session.tabs.is_empty());
    assert!(to_close.is_empty());
    assert_eq!(session.timestamp, -1);
}

#[test]
fn fresh_identifiers_have_the_hyphenated_form_and_differ() {
    let (first, _) = collapse_tabs(&open_tabs(), "a".to_string(), 1);
    let (second, _) = collapse_tabs(&open_tabs(), "b".to_string(), 2);

    for id in [&first.id, &second.id] {
        assert_eq!(id.chars().count(), 36);
        for (i, c) in id.chars().enumerate() {
            if i == 8 || i == 13 || i == 18 || i == 23 {
                assert_eq!(c, '-');
            } else {
                assert!(c.is_ascii_digit() || ('a'..='f').contains(&c));
            }
        }
        assert_eq!(id.chars().nth(14), Some('4'));
    }
    assert_ne!(first.id, second.id);
    assert_eq!(first.name, "a");
    assert_eq!(first.tabs, second.tabs);

    let mut storage = StorageData::new();
    storage.add_session(first.clone());
    storage.add_session(second);
    assert_eq!(storage.get_session(&first.id).unwrap().name, "a");
}
