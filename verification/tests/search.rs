use tab_hoarder::search::{filter_sessions, filter_tabs_by_text, search_tabs};
use tab_hoarder::tab_data::{CollapsedSession, SavedTab, TabInfo};

fn tab(id: i32, title: &str) -> TabInfo {
    TabInfo::new(id, format!("https://example.com/{}", id), title.to_string(), false, id)
}

fn tabs() -> Vec<TabInfo> {
    vec![
        tab(1, "Rust Programming Language"),
        tab(2, "GitHub - rust-lang/rust"),
        tab(3, "Gmail"),
        tab(4, "Crates.io: Rust Package Registry"),
        tab(5, ""),
    ]
}

fn ids(tabs: &[TabInfo]) -> Vec<i32> {
    tabs.iter().map(|tab| tab.id).collect()
}

fn session(id: &str, name: &str, tabs: Vec<SavedTab>) -> CollapsedSession {
    CollapsedSession { id: id.to_string(), name: name.to_string(), timestamp: 0, tabs }
}

fn saved(url: &str, title: &str, domain: &str) -> SavedTab {
    SavedTab {
        url: url.to_string(),
        title: title.to_string(),
        domain: domain.to_string(),
        pinned: false,
    }
}

#[test]
fn empty_query_shows_all_tabs() {
    assert_eq!(ids(&search_tabs(&tabs(), "", false)), vec![1, 2, 3, 4, 5]);
    assert_eq!(ids(&search_tabs(&tabs(), "", true)), vec![1, 2, 3, 4, 5]);
}

#[test]
fn text_search_sets_case_aside() {
    assert_eq!(ids(&search_tabs(&tabs(), "RUST", false)), vec![1, 2, 4]);
    assert_eq!(ids(&search_tabs(&tabs(), "rust p", false)), vec![1, 4]);
    assert_eq!(ids(&filter_tabs_by_text(&tabs(), "gmail")), vec![3]);
    assert_eq!(ids(&search_tabs(&tabs(), "nothing", false)), Vec::<i32>::new());
    // As text, a pattern is looked for letter by letter.
    assert_eq!(ids(&search_tabs(&tabs(), "^G", false)), Vec::<i32>::new());
}

#[test]
fn pattern_search_matches_titles() {
    assert_eq!(ids(&search_tabs(&tabs(), "^G", true)), vec![2, 3]);
    assert_eq!(ids(&search_tabs(&tabs(), "rust$", true)), vec![2]);
    assert_eq!(ids(&search_tabs(&tabs(), "Rust", true)), vec![1, 4]);
    assert_eq!(ids(&search_tabs(&tabs(), "(?i)rust", true)), vec![1, 2, 4]);
    assert_eq!(ids(&search_tabs(&tabs(), "^$", true)), vec![5]);
}

#[test]
fn pattern_that_does_not_compile_shows_all_tabs() {
    assert_eq!(ids(&search_tabs(&tabs(), "foo(bar", true)), vec![1, 2, 3, 4, 5]);
    assert_eq!(ids(&search_tabs(&tabs(), "[", true)), vec![1, 2, 3, 4, 5]);
}

#[test]
fn sessions_are_found_by_name_and_by_tab() {
    let sessions = vec![
        session("1", "Work Monday", vec![saved("https://github.com/a", "Repo", "github.com")]),
        session("2", "Reading", vec![saved("https://news.bbc.co.uk", "World News", "bbc.co.uk")]),
        session("3", "Empty", vec![]),
        session(
            "4",
            "Mixed",
            vec![
                saved("https://a.example", "Nothing", "a.example"),
                saved("https://b.example/WORK", "Other", "b.example"),
            ],
        ),
    ];
    let found = |query: &str| -> Vec<String> {
        filter_sessions(&sessions, query).iter().map(|s| s.id.clone()).collect()
    };

    assert_eq!(found(""), vec!["1", "2", "3", "4"]);
    assert_eq!(found("work"), vec!["1", "4"]);
    assert_eq!(found("BBC"), vec!["2"]);
    assert_eq!(found("world news"), vec!["2"]);
    assert_eq!(found("github.com"), vec!["1"]);
    assert_eq!(found("empty"), vec!["3"]);
    assert_eq!(found("zzz"), Vec::<String>::new());
    assert_eq!(filter_sessions(&sessions, "mixed")[0], sessions[3]);
}
