use tab_hoarder::domain::extract_domain;
use tab_hoarder::operations::{
    make_tabs_unique, sort_tabs_by_domain, sort_tabs_by_index, without_tab,
};
use tab_hoarder::tab_data::TabInfo;

fn create_test_tab(id: i32, url: &str, title: &str) -> TabInfo {
    TabInfo {
        id,
        url: url.to_string(),
        title: title.to_string(),
        pinned: false,
        index: id,
    }
}

fn ids(tabs: &[TabInfo]) -> Vec<i32> {
    tabs.iter().map(|tab| tab.id).collect()
}

#[test]
fn test_sort_tabs_by_domain() {
    let tabs = vec![
        create_test_tab(1, "https://github.com/rust", "GitHub Rust"),
        create_test_tab(2, "https://www.google.com", "Google"),
        create_test_tab(3, "https://docs.microsoft.com", "Microsoft Docs"),
        create_test_tab(4, "https://mail.google.com", "Gmail"),
    ];

    let sorted = sort_tabs_by_domain(&tabs);

    assert_eq!(extract_domain(&sorted[0].url), Some("github.com".to_string()));
    assert_eq!(extract_domain(&sorted[1].url), Some("google.com".to_string()));
    assert_eq!(extract_domain(&sorted[2].url), Some("google.com".to_string()));
    assert_eq!(extract_domain(&sorted[3].url), Some("microsoft.com".to_string()));
}

#[test]
fn test_make_tabs_unique() {
    let tabs = vec![
        create_test_tab(1, "https://google.com", "Google 1"),
        create_test_tab(2, "https://github.com", "GitHub"),
        create_test_tab(3, "https://google.com", "Google 2"),
        create_test_tab(4, "https://microsoft.com", "Microsoft"),
        create_test_tab(5, "https://github.com", "GitHub 2"),
    ];

    let (keep, remove) = make_tabs_unique(&tabs);

    assert_eq!(keep.len(), 3);
    assert_eq!(remove.len(), 2);
    assert!(remove.contains(&3));
    assert!(remove.contains(&5));
}

#[test]
fn test_make_tabs_unique_no_duplicates() {
    let tabs = vec![
        create_test_tab(1, "https://google.com", "Google"),
        create_test_tab(2, "https://github.com", "GitHub"),
        create_test_tab(3, "https://microsoft.com", "Microsoft"),
    ];

    let (keep, remove) = make_tabs_unique(&tabs);

    assert_eq!(keep.len(), 3);
    assert_eq!(remove.len(), 0);
}

#[test]
fn sort_orders_by_domain_then_url_and_drops_tabs_without_domain() {
    let tabs = vec![
        create_test_tab(1, "https://www.google.com/b", "b"),
        create_test_tab(2, "", "empty"),
        create_test_tab(3, "https://docs.microsoft.com", "docs"),
        create_test_tab(4, "https://mail.google.com", "mail"),
        create_test_tab(5, "https://", "scheme only"),
        create_test_tab(6, "https://www.google.com/a", "a"),
        create_test_tab(7, "https://github.com/rust", "rust"),
    ];

    let sorted = sort_tabs_by_domain(&tabs);

    assert_eq!(ids(&sorted), vec![7, 4, 6, 1, 3]);
    assert_eq!(sorted[1].title, "mail");
    assert!(sort_tabs_by_domain(&[]).is_empty());
}

#[test]
fn sort_keeps_every_tab_with_a_domain_duplicates_too() {
    let tabs = vec![
        create_test_tab(1, "https://b.example.com", "one"),
        create_test_tab(2, "https://b.example.com", "two"),
        create_test_tab(3, "https://a.example.com", "three"),
    ];

    let sorted = sort_tabs_by_domain(&tabs);

    assert_eq!(ids(&sorted), vec![3, 1, 2]);
}

#[test]
fn unique_keeps_first_of_each_url_in_order() {
    let tabs = vec![
        create_test_tab(1, "https://google.com", "Google 1"),
        create_test_tab(2, "https://github.com", "GitHub"),
        create_test_tab(3, "https://google.com", "Google 2"),
        create_test_tab(4, "https://microsoft.com", "Microsoft"),
        create_test_tab(5, "https://github.com", "GitHub 2"),
        create_test_tab(6, "https://google.com", "Google 3"),
    ];

    let (keep, remove) = make_tabs_unique(&tabs);

    assert_eq!(ids(&keep), vec![1, 2, 4]);
    assert_eq!(keep[0].title, "Google 1");
    assert_eq!(remove, vec![3, 5, 6]);
}

#[test]
fn unique_compares_urls_as_written() {
    let tabs = vec![
        create_test_tab(1, "https://Example.com", "upper"),
        create_test_tab(2, "https://example.com", "lower"),
        create_test_tab(3, "https://example.com/", "slash"),
        create_test_tab(4, "", "empty"),
        create_test_tab(5, "", "empty again"),
    ];

    let (keep, remove) = make_tabs_unique(&tabs);

    assert_eq!(ids(&keep), vec![1, 2, 3, 4]);
    assert_eq!(remove, vec![5]);
    let (keep, remove) = make_tabs_unique(&[]);
    assert!(keep.is_empty() && remove.is_empty());
}

#[test]
fn index_order_is_stable() {
    let mut tabs = vec![
        create_test_tab(10, "https://c", "c"),
        create_test_tab(11, "https://a", "a"),
        create_test_tab(12, "https://b", "b"),
        create_test_tab(13, "https://d", "d"),
        create_test_tab(14, "https://e", "e"),
    ];
    let positions = [3, 1, 3, -2, 1];
    for (tab, position) in tabs.iter_mut().zip(positions) {
        tab.index = position;
    }

    let sorted = sort_tabs_by_index(&tabs);

    assert_eq!(ids(&sorted), vec![13, 11, 14, 10, 12]);
    assert_eq!(sorted[1].url, "https://a");
    assert!(sort_tabs_by_index(&[]).is_empty());
}

#[test]
fn closing_a_tab_takes_it_off_the_list() {
    let tabs = vec![
        create_test_tab(1, "https://a", "a"),
        create_test_tab(2, "https://b", "b"),
        create_test_tab(1, "https://c", "c"),
        create_test_tab(3, "https://d", "d"),
    ];

    assert_eq!(ids(&without_tab(&tabs, 1)), vec![2, 3]);
    assert_eq!(ids(&without_tab(&tabs, 2)), vec![1, 1, 3]);
    assert_eq!(ids(&without_tab(&tabs, 9)), vec![1, 2, 1, 3]);
}
