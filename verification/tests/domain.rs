use tab_hoarder::counts::DomainCounts;
use tab_hoarder::domain::{
    count_domains, domain_of_hostname, extract_domain, extract_hostname, get_top_domains,
    is_ip_address,
};

#[test]
fn test_extract_domain_basic() {
    assert_eq!(extract_domain("https://www.google.com"), Some("google.com".to_string()));
    assert_eq!(extract_domain("https://google.com"), Some("google.com".to_string()));
    assert_eq!(extract_domain("http://google.com"), Some("google.com".to_string()));
}

#[test]
fn test_extract_domain_subdomains() {
    assert_eq!(extract_domain("https://ai.microsoft.com"), Some("microsoft.com".to_string()));
    assert_eq!(extract_domain("https://app.microsoft.com"), Some("microsoft.com".to_string()));
    assert_eq!(extract_domain("https://docs.microsoft.com"), Some("microsoft.com".to_string()));
    assert_eq!(extract_domain("https://www.microsoft.com"), Some("microsoft.com".to_string()));
}

#[test]
fn test_extract_domain_with_path() {
    assert_eq!(
        extract_domain("https://www.google.com/search?q=rust"),
        Some("google.com".to_string())
    );
    assert_eq!(
        extract_domain("https://github.com/rust-lang/rust"),
        Some("github.com".to_string())
    );
}

#[test]
fn test_extract_domain_country_tlds() {
    assert_eq!(extract_domain("https://news.bbc.co.uk"), Some("bbc.co.uk".to_string()));
    assert_eq!(extract_domain("https://www.bbc.co.uk/news"), Some("bbc.co.uk".to_string()));
    assert_eq!(
        extract_domain("https://shop.example.com.au"),
        Some("example.com.au".to_string())
    );
    assert_eq!(
        extract_domain("https://store.amazon.com.au"),
        Some("amazon.com.au".to_string())
    );
}

#[test]
fn test_extract_domain_special_cases() {
    assert_eq!(extract_domain("https://localhost:3000"), Some("localhost".to_string()));
    assert_eq!(extract_domain("http://127.0.0.1:8080"), Some("127.0.0.1".to_string()));
    assert_eq!(extract_domain("https://192.168.1.1"), Some("192.168.1.1".to_string()));
}

#[test]
fn test_extract_domain_edge_cases() {
    assert_eq!(extract_domain(""), None);
    assert_eq!(extract_domain("not-a-url"), Some("not-a-url".to_string()));
    assert_eq!(extract_domain("https://"), None);
}

#[test]
fn test_extract_domain_io_domains() {
    assert_eq!(extract_domain("https://zinfandel.io"), Some("zinfandel.io".to_string()));
    assert_eq!(extract_domain("https://api.zinfandel.io"), Some("zinfandel.io".to_string()));
}

#[test]
fn test_count_domains() {
    let urls = vec![
        "https://www.google.com/search".to_string(),
        "https://mail.google.com".to_string(),
        "https://github.com/rust".to_string(),
        "https://www.google.com/maps".to_string(),
        "https://github.com/yewstack".to_string(),
    ];

    let counts = count_domains(&urls);

    assert_eq!(counts.get("google.com"), Some(3));
    assert_eq!(counts.get("github.com"), Some(2));
}

#[test]
fn test_get_top_domains() {
    let mut counts = DomainCounts::new();
    counts.insert("google.com".to_string(), 10);
    counts.insert("github.com".to_string(), 5);
    counts.insert("microsoft.com".to_string(), 8);
    counts.insert("reddit.com".to_string(), 3);

    let top3 = get_top_domains(&counts, 3);

    assert_eq!(top3.len(), 3);
    assert_eq!(top3[0], ("google.com".to_string(), 10));
    assert_eq!(top3[1], ("microsoft.com".to_string(), 8));
    assert_eq!(top3[2], ("github.com".to_string(), 5));
}

#[test]
fn test_get_top_domains_with_ties() {
    let mut counts = DomainCounts::new();
    counts.insert("github.com".to_string(), 5);
    counts.insert("google.com".to_string(), 5);
    counts.insert("microsoft.com".to_string(), 5);

    let top2 = get_top_domains(&counts, 2);

    assert_eq!(top2.len(), 2);
    assert_eq!(top2[0].0, "github.com");
    assert_eq!(top2[1].0, "google.com");
}

#[test]
fn scheme_tokens_are_removed_wherever_they_stand() {
    assert_eq!(
        extract_domain("www.exahttp://mple.com/page"),
        Some("example.com".to_string())
    );
    assert_eq!(extract_domain("ftp://files.example.org/pub"), Some("example.org".to_string()));
    // Taking out `https://` first leaves `http://`, which goes next.
    assert_eq!(extract_hostname("hthttps://tp://a.b"), Some("a.b".to_string()));
    // The token is matched as written: an upper-case scheme stays, and the
    // host ends at its colon.
    assert_eq!(extract_hostname("HTTPS://Example.COM"), Some("https".to_string()));
}

#[test]
fn hostname_is_lower_cased() {
    assert_eq!(extract_hostname("https://WWW.Google.COM/Path"), Some("www.google.com".to_string()));
    assert_eq!(extract_domain("https://WWW.Google.COM/Path"), Some("google.com".to_string()));
    assert_eq!(extract_domain("https://shop.ÉCOLE.fr"), Some("école.fr".to_string()));
}

#[test]
fn hostname_ends_at_slash_then_at_colon() {
    assert_eq!(extract_hostname("https://example.com:8080/a:b"), Some("example.com".to_string()));
    assert_eq!(extract_hostname("example.com/a/https://x"), Some("example.com".to_string()));
    assert_eq!(extract_hostname("https://:8080"), None);
    assert_eq!(extract_hostname("/path/only"), None);
    assert_eq!(extract_hostname(""), None);
}

#[test]
fn two_labels_stay_as_they_are() {
    assert_eq!(domain_of_hostname("foo.io"), "foo.io");
    assert_eq!(domain_of_hostname("co.uk"), "co.uk");
    assert_eq!(domain_of_hostname("a."), "a.");
    assert_eq!(domain_of_hostname(".b"), ".b");
}

#[test]
fn compound_suffix_keeps_three_labels() {
    assert_eq!(domain_of_hostname("x.y.co.uk"), "y.co.uk");
    assert_eq!(domain_of_hostname("x.y.com.au"), "y.com.au");
    assert_eq!(domain_of_hostname("y.co.uk"), "y.co.uk");
}

#[test]
fn other_hosts_keep_two_labels() {
    // Only `co` and `com` make a compound suffix, and only before a label
    // of two characters.
    assert_eq!(domain_of_hostname("www.example.co.jpn"), "co.jpn");
    assert_eq!(domain_of_hostname("www.example.org.uk"), "org.uk");
    assert_eq!(domain_of_hostname("www.example.ne.jp"), "ne.jp");
    assert_eq!(domain_of_hostname("a.b.c.d.e"), "d.e");
    // The last label is measured in characters.
    assert_eq!(domain_of_hostname("x.co.é"), "co.é");
    assert_eq!(domain_of_hostname("x.co.éé"), "x.co.éé");
}

#[test]
fn localhost_and_address_literals_pass_through() {
    assert_eq!(domain_of_hostname("localhost"), "localhost");
    assert_eq!(domain_of_hostname("10.0.0.1"), "10.0.0.1");
    assert_eq!(domain_of_hostname("1.2.3."), "1.2.3.");
    assert_eq!(domain_of_hostname("999.999"), "999.999");
    // A leading dot is no digit, so the label rule applies.
    assert_eq!(domain_of_hostname(".1.2.3"), "2.3");
    assert_eq!(domain_of_hostname("single"), "single");
}

#[test]
fn ip_test_is_crude() {
    assert!(is_ip_address("127.0.0.1"));
    assert!(is_ip_address("1.2.3."));
    assert!(is_ip_address("999.999"));
    assert!(is_ip_address("7"));
    assert!(!is_ip_address(""));
    assert!(!is_ip_address(".1"));
    assert!(!is_ip_address("1.2.3.a"));
    assert!(!is_ip_address("::1"));
    assert!(!is_ip_address("١٢٣"));
}

#[test]
fn urls_without_a_domain_are_not_counted() {
    let urls = vec![
        "".to_string(),
        "https://".to_string(),
        "https://a.example.com".to_string(),
        "/relative".to_string(),
    ];
    let counts = count_domains(&urls);
    assert_eq!(counts.len(), 1);
    assert_eq!(counts.get("example.com"), Some(1));
    assert_eq!(counts.get(""), None);
    assert_eq!(count_domains(&[]).len(), 0);
}

#[test]
fn counts_table_sets_and_reads() {
    let mut counts = DomainCounts::new();
    assert_eq!(counts.len(), 0);
    assert_eq!(counts.get("a.com"), None);
    assert_eq!(counts.insert("a.com".to_string(), 1), None);
    assert_eq!(counts.insert("b.com".to_string(), 2), None);
    assert_eq!(counts.insert("a.com".to_string(), 7), Some(1));
    assert_eq!(counts.len(), 2);
    assert_eq!(counts.get("a.com"), Some(7));
    assert_eq!(counts.get("b.com"), Some(2));
    assert_eq!(counts.rows().len(), 2);
}

#[test]
fn ranking_does_not_depend_on_insertion_order() {
    let rows = [("b.com", 2usize), ("a.com", 2), ("c.com", 9), ("aa.com", 2), ("a.co", 2)];
    let mut forward = DomainCounts::new();
    for (domain, count) in rows.iter() {
        forward.insert(domain.to_string(), *count);
    }
    let mut backward = DomainCounts::new();
    for (domain, count) in rows.iter().rev() {
        backward.insert(domain.to_string(), *count);
    }
    let expected = vec![
        ("c.com".to_string(), 9),
        ("a.co".to_string(), 2),
        ("a.com".to_string(), 2),
        ("aa.com".to_string(), 2),
        ("b.com".to_string(), 2),
    ];
    assert_eq!(get_top_domains(&forward, 10), expected);
    assert_eq!(get_top_domains(&backward, 10), expected);
    assert_eq!(get_top_domains(&forward, 5), expected);
    assert_eq!(get_top_domains(&forward, 2), expected[..2].to_vec());
    assert_eq!(get_top_domains(&forward, 0), vec![]);
    assert_eq!(get_top_domains(&DomainCounts::new(), 3), vec![]);
}

#[test]
fn white_space_is_part_of_the_host() {
    assert_eq!(extract_hostname(" https://a.b"), Some(" a.b".to_string()));
    assert_eq!(extract_domain("a.b.c "), Some("b.c ".to_string()));
    assert_eq!(extract_domain(" "), Some(" ".to_string()));
}
