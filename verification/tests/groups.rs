use tab_hoarder::groups::{group_tabs_by_domain, DomainGroup};
use tab_hoarder::tab_data::SavedTab;

fn saved(url: &str, domain: &str) -> SavedTab {
    SavedTab {
        url: url.to_string(),
        title: url.to_uppercase(),
        domain: domain.to_string(),
        pinned: false,
    }
}

#[test]
fn groups_stand_in_dictionary_order_with_tabs_in_their_order() {
    let tabs = vec![
        saved("https://www.google.com/b", "google.com"),
        saved("https://github.com/x", "github.com"),
        saved("https://mail.google.com", "google.com"),
        saved("https://bbc.co.uk", "bbc.co.uk"),
        saved("https://www.google.com/a", "google.com"),
        saved("https://github.com/a", "github.com"),
    ];

    let groups = group_tabs_by_domain(&tabs);

    assert_eq!(
        groups,
        vec![
            DomainGroup { domain: "bbc.co.uk".to_string(), tabs: vec![tabs[3].clone()] },
            DomainGroup {
                domain: "github.com".to_string(),
                tabs: vec![tabs[1].clone(), tabs[5].clone()],
            },
            DomainGroup {
                domain: "google.com".to_string(),
                tabs: vec![tabs[0].clone(), tabs[2].clone(), tabs[4].clone()],
            },
        ]
    );
}

#[test]
fn groups_go_by_the_archived_domain_as_written() {
    let tabs = vec![
        saved("https://a.example", "Example.com"),
        saved("https://b.example", "example.com"),
        saved("https://c.example", ""),
        saved("https://d.example", "example.co"),
    ];

    let groups = group_tabs_by_domain(&tabs);

    let domains: Vec<&str> = groups.iter().map(|g| g.domain.as_str()).collect();
    assert_eq!(domains, vec!["", "Example.com", "example.co", "example.com"]);
    assert!(groups.iter().all(|g| g.tabs.len() == 1));
    assert!(group_tabs_by_domain(&[]).is_empty());
}
