//! From a URL to its registrable domain, by a small fixed rule set.
//!
//! The host is what is left of the URL once the scheme tokens are taken out
//! and everything from the first `/`, then from the first `:`, is cut off.
//! Its lower-case form is the hostname. `localhost` and strings of digits and
//! dots stand for themselves; any other hostname is cut down to its last two
//! labels, or to its last three where it ends in `co` or `com` and a
//! two-character label.

use crate::counts::{lemma_ranks_before_order, ranks_before, DomainCounts};
use crate::text::{
    chars_eq, chars_lt, chars_of, join_chars, join_with, lemma_find_char, lemma_find_char_is,
    lemma_join_split, lemma_split_pieces, lowercase, position_of, remove_all, split_chars,
    split_on, string_of, strip_all, take_until, text_of, to_lowercase, views,
};
use vstd::prelude::*;
use vstd::slice::slice_subrange;

verus! {

/// The URL with every `https://`, then every `http://`, then every `ftp://`
/// taken out, wherever in the URL they stand.
pub open spec fn strip_schemes(url: Seq<char>) -> Seq<char> {
    remove_all(remove_all(remove_all(url, "https://"@), "http://"@), "ftp://"@)
}

/// The scheme-stripped URL up to its first `/`, and of that the part up to
/// its first `:`.
pub open spec fn host_part(url: Seq<char>) -> Seq<char> {
    take_until(take_until(strip_schemes(url), '/'), ':')
}

/// The hostname of a URL: its host in lower case. There is none where the
/// host, or its lower-case form, is empty.
pub open spec fn hostname_of(url: Seq<char>) -> Option<Seq<char>> {
    let host = host_part(url);
    if host.len() == 0 || lowercase(host).len() == 0 {
        None
    } else {
        Some(lowercase(host))
    }
}

/// An ASCII digit.
pub open spec fn is_digit(c: char) -> bool {
    '0' <= c <= '9'
}

/// The crude test for an address literal: the first character is a digit and
/// every character is a digit or a dot.
pub open spec fn is_ip_like(s: Seq<char>) -> bool {
    &&& s.len() > 0
    &&& is_digit(s[0])
    &&& forall|i: int| 0 <= i < s.len() ==> is_digit(#[trigger] s[i]) || s[i] == '.'
}

/// Whether the labels end in `co` or `com` followed by a label of two
/// characters, with at least one label in front.
pub open spec fn has_compound_suffix(labels: Seq<Seq<char>>) -> bool {
    &&& labels.len() >= 3
    &&& labels.last().len() == 2
    &&& (labels[labels.len() - 2] == "co"@ || labels[labels.len() - 2] == "com"@)
}

/// How many trailing labels make up the domain.
pub open spec fn kept_labels(labels: Seq<Seq<char>>) -> int {
    if has_compound_suffix(labels) {
        3
    } else {
        2
    }
}

/// The last `n` of the labels, joined by dots.
pub open spec fn last_labels(labels: Seq<Seq<char>>, n: int) -> Seq<char> {
    join_with(labels.skip(labels.len() - n), '.')
}

/// The registrable domain of a hostname.
pub open spec fn registrable(host: Seq<char>) -> Seq<char> {
    let labels = split_on(host, '.');
    if host == "localhost"@ || is_ip_like(host) || labels.len() < 2 {
        host
    } else {
        last_labels(labels, kept_labels(labels))
    }
}

/// The domain of a URL: the registrable domain of its hostname, and none
/// where it has no hostname.
pub open spec fn domain_of(url: Seq<char>) -> Option<Seq<char>> {
    match hostname_of(url) {
        Some(host) => Some(registrable(host)),
        None => None,
    }
}

/// The empty URL has no hostname.
pub proof fn lemma_empty_url(url: Seq<char>)
    requires
        url.len() == 0,
    ensures
        host_part(url).len() == 0,
        hostname_of(url) is None,
        domain_of(url) is None,
{
    assert(strip_schemes(url) == url);
}

fn ip_like(s: &[char]) -> (b: bool)
    ensures
        b == is_ip_like(s@),
{
    if s.len() == 0 || !(s[0] >= '0' && s[0] <= '9') {
        return false;
    }
    let mut i: usize = 0;
    while i < s.len()
        invariant
            i <= s.len(),
            forall|j: int| 0 <= j < i ==> is_digit(#[trigger] s@[j]) || s@[j] == '.',
        decreases s.len() - i,
    {
        let c = s[i];
        if !((c >= '0' && c <= '9') || c == '.') {
            return false;
        }
        i += 1;
    }
    true
}

/// Whether `s` looks like an address literal. Any string of digits and dots
/// that starts with a digit passes, well-formed or not.
pub fn is_ip_address(s: &str) -> (b: bool)
    ensures
        b == is_ip_like(s@),
{
    let chars = chars_of(s);
    ip_like(chars.as_slice())
}

fn registrable_chars(host: Vec<char>) -> (domain: Vec<char>)
    ensures
        domain@ == registrable(host@),
{
    let localhost = chars_of("localhost");
    if chars_eq(host.as_slice(), localhost.as_slice()) || ip_like(host.as_slice()) {
        return host;
    }
    let labels = split_chars(host.as_slice(), '.');
    let n = labels.len();
    if n < 2 {
        return host;
    }
    let co = chars_of("co");
    let com = chars_of("com");
    let second = labels[n - 2].as_slice();
    let compound = n >= 3 && labels[n - 1].len() == 2 && (chars_eq(second, co.as_slice())
        || chars_eq(second, com.as_slice()));
    let keep: usize = if compound {
        3
    } else {
        2
    };
    let tail = slice_subrange(labels.as_slice(), n - keep, n);
    proof {
        assert(views(tail@) =~= views(labels@).skip(n - keep));
    }
    join_chars(tail, '.')
}

/// The registrable domain of a hostname that is already in lower case.
pub fn domain_of_hostname(hostname: &str) -> (domain: String)
    ensures
        domain@ == registrable(hostname@),
{
    let domain = registrable_chars(chars_of(hostname));
    string_of(domain.as_slice())
}

/// The hostname of a URL, or `None` where the URL has none.
pub fn extract_hostname(url: &str) -> (hostname: Option<String>)
    ensures
        text_of(hostname) == hostname_of(url@),
{
    let chars = chars_of(url);
    let https = chars_of("https://");
    let http = chars_of("http://");
    let ftp = chars_of("ftp://");
    let no_https = strip_all(chars.as_slice(), https.as_slice());
    let no_http = strip_all(no_https.as_slice(), http.as_slice());
    let stripped = strip_all(no_http.as_slice(), ftp.as_slice());
    let slash = position_of(stripped.as_slice(), '/');
    proof {
        lemma_find_char(stripped@, '/');
    }
    let with_port = slice_subrange(stripped.as_slice(), 0, slash);
    let colon = position_of(with_port, ':');
    proof {
        lemma_find_char(with_port@, ':');
    }
    let host = slice_subrange(with_port, 0, colon);
    if host.len() == 0 {
        return None;
    }
    let lower = to_lowercase(string_of(host).as_str());
    if lower.as_str().is_empty() {
        None
    } else {
        Some(lower)
    }
}

/// The registrable domain of a URL, or `None` where the URL is empty or has
/// no hostname.
pub fn extract_domain(url: &str) -> (domain: Option<String>)
    ensures
        text_of(domain) == domain_of(url@),
        url@.len() == 0 ==> domain is None,
{
    if url.is_empty() {
        proof {
            lemma_empty_url(url@);
        }
        return None;
    }
    match extract_hostname(url) {
        Some(hostname) => Some(domain_of_hostname(hostname.as_str())),
        None => None,
    }
}

/// `localhost` is a single label.
pub proof fn lemma_localhost_one_label()
    ensures
        split_on("localhost"@, '.').len() == 1,
{
    reveal_strlit("localhost");
    lemma_find_char_is("localhost"@, '.', 9);
    lemma_split_pieces("localhost"@, '.');
}

/// A hostname with `co` or `com` among its labels is no address literal.
proof fn lemma_compound_not_ip(host: Seq<char>)
    requires
        has_compound_suffix(split_on(host, '.')),
    ensures
        !is_ip_like(host),
        host != "localhost"@,
{
    reveal_strlit("co");
    reveal_strlit("com");
    let labels = split_on(host, '.');
    lemma_split_pieces(host, '.');
    lemma_localhost_one_label();
    let second = labels[labels.len() - 2];
    assert(second[0] == 'c');
    assert(host.contains(second[0]));
}

/// A hostname of exactly two labels is its own domain: `a.b` stays `a.b`.
pub proof fn lemma_two_labels_unchanged(url: Seq<char>)
    requires
        hostname_of(url) is Some,
        split_on(hostname_of(url)->0, '.').len() == 2,
    ensures
        domain_of(url) == hostname_of(url),
{
    let host = hostname_of(url)->0;
    let labels = split_on(host, '.');
    lemma_join_split(host, '.');
    assert(labels.skip(0) =~= labels);
}

/// A hostname of three or more labels that ends in `co` and a label of two
/// characters keeps exactly its last three labels: `x.y.co.uk` gives
/// `y.co.uk`.
pub proof fn lemma_co_suffix_keeps_three(url: Seq<char>)
    requires
        hostname_of(url) is Some,
        split_on(hostname_of(url)->0, '.').len() >= 3,
        split_on(hostname_of(url)->0, '.').last().len() == 2,
        ({
            let labels = split_on(hostname_of(url)->0, '.');
            labels[labels.len() - 2] == "co"@
        }),
    ensures
        domain_of(url) == Some(last_labels(split_on(hostname_of(url)->0, '.'), 3)),
{
    lemma_compound_not_ip(hostname_of(url)->0);
}

/// The same with `com` in place of `co`: `x.y.com.au` gives `y.com.au`.
pub proof fn lemma_com_suffix_keeps_three(url: Seq<char>)
    requires
        hostname_of(url) is Some,
        split_on(hostname_of(url)->0, '.').len() >= 3,
        split_on(hostname_of(url)->0, '.').last().len() == 2,
        ({
            let labels = split_on(hostname_of(url)->0, '.');
            labels[labels.len() - 2] == "com"@
        }),
    ensures
        domain_of(url) == Some(last_labels(split_on(hostname_of(url)->0, '.'), 3)),
{
    lemma_compound_not_ip(hostname_of(url)->0);
}

/// Any other hostname of two or more labels that is no address literal keeps
/// exactly its last two labels.
pub proof fn lemma_other_hosts_keep_two(url: Seq<char>)
    requires
        hostname_of(url) is Some,
        split_on(hostname_of(url)->0, '.').len() >= 2,
        !has_compound_suffix(split_on(hostname_of(url)->0, '.')),
        !is_ip_like(hostname_of(url)->0),
    ensures
        domain_of(url) == Some(last_labels(split_on(hostname_of(url)->0, '.'), 2)),
{
    lemma_localhost_one_label();
}

/// `localhost` and every string of digits and dots that starts with a digit
/// is its own domain, whatever its labels are.
pub proof fn lemma_localhost_and_ip_unchanged(url: Seq<char>)
    requires
        hostname_of(url) is Some,
        hostname_of(url)->0 == "localhost"@ || is_ip_like(hostname_of(url)->0),
    ensures
        domain_of(url) == hostname_of(url),
{
}

/// A hostname without a dot is its own domain.
pub proof fn lemma_single_label_unchanged(url: Seq<char>)
    requires
        hostname_of(url) is Some,
        split_on(hostname_of(url)->0, '.').len() < 2,
    ensures
        domain_of(url) == hostname_of(url),
{
}

/// How many of the URLs have `domain` as their domain.
pub open spec fn occurrences(urls: Seq<Seq<char>>, domain: Seq<char>) -> nat
    decreases urls.len(),
{
    if urls.len() == 0 {
        0
    } else {
        occurrences(urls.drop_last(), domain) + if domain_of(urls.last()) == Some(domain) {
            1nat
        } else {
            0nat
        }
    }
}

/// The table that has a row for each domain that occurs among the URLs, with
/// the number of URLs that have it. URLs without a domain count nowhere.
pub open spec fn tally(urls: Seq<Seq<char>>) -> Map<Seq<char>, nat> {
    Map::new(
        |domain: Seq<char>| occurrences(urls, domain) > 0,
        |domain: Seq<char>| occurrences(urls, domain),
    )
}

/// No domain occurs more often than there are URLs.
pub proof fn lemma_occurrences_bound(urls: Seq<Seq<char>>, domain: Seq<char>)
    ensures
        occurrences(urls, domain) <= urls.len(),
    decreases urls.len(),
{
    if urls.len() > 0 {
        lemma_occurrences_bound(urls.drop_last(), domain);
    }
}

/// Counts how often each domain occurs among the URLs. A URL without a
/// domain is passed over.
pub fn count_domains(urls: &[String]) -> (counts: DomainCounts)
    ensures
        counts@ == tally(views(urls@)),
{
    let mut counts = DomainCounts::new();
    let mut i: usize = 0;
    assert(counts@ =~= tally(views(urls@).take(0)));
    while i < urls.len()
        invariant
            i <= urls.len(),
            counts@ == tally(views(urls@).take(i as int)),
        decreases urls.len() - i,
    {
        let ghost seen = views(urls@).take(i as int);
        let ghost next = views(urls@).take(i + 1);
        proof {
            assert(next.drop_last() =~= seen);
            assert(next.last() == urls@[i as int]@);
        }
        match extract_domain(urls[i].as_str()) {
            Some(domain) => {
                proof {
                    lemma_occurrences_bound(seen, domain@);
                }
                let count = match counts.get(domain.as_str()) {
                    Some(count) => count + 1,
                    None => 1,
                };
                counts.insert(domain, count);
                assert(counts@ =~= tally(next));
            },
            None => {
                assert(counts@ =~= tally(next));
            },
        }
        i += 1;
    }
    assert(views(urls@).take(urls.len() as int) =~= views(urls@));
    counts
}

/// Whether the rows stand in ranking order, each strictly before the next.
pub open spec fn ranked(rows: Seq<(Seq<char>, usize)>) -> bool {
    forall|i: int, j: int| 0 <= i < j < rows.len() ==> ranks_before(#[trigger] rows[i], #[trigger] rows[j])
}

/// Whether `rows` are the first `n` rows of the ranking of `counts`, or all
/// of them where it has no more than `n`: rows of the table, in ranking
/// order, and before every row of the table that is left out.
pub open spec fn is_top(
    counts: Map<Seq<char>, nat>,
    n: nat,
    rows: Seq<(Seq<char>, usize)>,
) -> bool {
    &&& rows.len() == if n <= counts.dom().len() {
        n
    } else {
        counts.dom().len()
    }
    &&& ranked(rows)
    &&& forall|i: int|
        0 <= i < rows.len() ==> counts.contains_key((#[trigger] rows[i]).0) && counts[rows[i].0]
            == rows[i].1
    &&& forall|domain: Seq<char>| #[trigger]
        counts.contains_key(domain) ==> (exists|i: int|
            0 <= i < rows.len() && (#[trigger] rows[i]).0 == domain) || (forall|i: int|
            0 <= i < rows.len() ==> ranks_before(#[trigger] rows[i], (domain, counts[domain] as usize)))
}

/// Putting a row into a ranking at the place where it belongs keeps the
/// ranking in order.
proof fn lemma_insert_ranked(rows: Seq<(Seq<char>, usize)>, at: int, row: (Seq<char>, usize))
    requires
        ranked(rows),
        0 <= at <= rows.len(),
        forall|i: int| 0 <= i < rows.len() ==> (#[trigger] rows[i]).0 != row.0,
        forall|i: int| 0 <= i < at ==> ranks_before(#[trigger] rows[i], row),
        at < rows.len() ==> !ranks_before(rows[at], row),
    ensures
        ranked(rows.insert(at, row)),
{
    let after = rows.insert(at, row);
    assert forall|i: int, j: int| 0 <= i < j < after.len() implies ranks_before(
        #[trigger] after[i],
        #[trigger] after[j],
    ) by {
        if j < at {
            assert(ranks_before(rows[i], rows[j]));
        } else if j == at {
            assert(ranks_before(rows[i], row));
        } else if i == at {
            lemma_ranks_before_order(rows[at], row, rows[j - 1]);
            lemma_ranks_before_order(row, rows[at], rows[j - 1]);
            if j - 1 > at {
                assert(ranks_before(rows[at], rows[j - 1]));
            }
        } else if i < at {
            assert(ranks_before(rows[i], rows[j - 1]));
        } else {
            assert(ranks_before(rows[i - 1], rows[j - 1]));
        }
    }
}

/// Where a row with this domain and count belongs in a ranking.
fn rank_position(rows: &Vec<(Vec<char>, usize)>, domain: &[char], count: usize) -> (at: usize)
    ensures
        at <= rows.len(),
        forall|i: int| 0 <= i < at ==> ranks_before(#[trigger] views(rows@)[i], (domain@, count)),
        at < rows.len() ==> !ranks_before(views(rows@)[at as int], (domain@, count)),
{
    let mut at: usize = 0;
    while at < rows.len()
        invariant
            at <= rows.len(),
            forall|i: int| 0 <= i < at ==> ranks_before(#[trigger] views(rows@)[i], (domain@, count)),
        decreases rows.len() - at,
    {
        let row = &rows[at];
        let before = row.1 > count || (row.1 == count && chars_lt(row.0.as_slice(), domain));
        if !before {
            return at;
        }
        at += 1;
    }
    at
}

/// Whether every row of `a` is a row of `b` and every row of `b` one of `a`.
spec fn same_rows(a: Seq<(Seq<char>, usize)>, b: Seq<(Seq<char>, usize)>) -> bool {
    &&& forall|x: int| 0 <= x < a.len() ==> b.contains(#[trigger] a[x])
    &&& forall|k: int| 0 <= k < b.len() ==> a.contains(#[trigger] b[k])
}

/// A row put into one sequence and appended to another keeps the two alike.
proof fn lemma_insert_same_rows(
    a: Seq<(Seq<char>, usize)>,
    at: int,
    b: Seq<(Seq<char>, usize)>,
    row: (Seq<char>, usize),
)
    requires
        same_rows(a, b),
        0 <= at <= a.len(),
    ensures
        same_rows(a.insert(at, row), b.push(row)),
{
    let a2 = a.insert(at, row);
    let b2 = b.push(row);
    assert forall|x: int| 0 <= x < a2.len() implies b2.contains(#[trigger] a2[x]) by {
        if x == at {
            assert(b2[b.len() as int] == row);
        } else {
            let old = if x < at {
                a[x]
            } else {
                a[x - 1]
            };
            assert(a2[x] == old);
            assert(b.contains(old));
            let k = choose|k: int| 0 <= k < b.len() && b[k] == old;
            assert(b2[k] == old);
        }
    }
    assert forall|k: int| 0 <= k < b2.len() implies a2.contains(#[trigger] b2[k]) by {
        if k == b.len() {
            assert(a2[at] == row);
        } else {
            assert(a.contains(b[k]));
            let x = choose|x: int| 0 <= x < a.len() && a[x] == b[k];
            if x < at {
                assert(a2[x] == b[k]);
            } else {
                assert(a2[x + 1] == b[k]);
            }
        }
    }
}

/// The first rows of a ranking of all rows of a table are its top rows.
proof fn lemma_prefix_is_top(
    counts: Map<Seq<char>, nat>,
    n: nat,
    all: Seq<(Seq<char>, usize)>,
    full: Seq<(Seq<char>, usize)>,
    out: Seq<(Seq<char>, usize)>,
)
    requires
        counts.dom().finite(),
        all.len() == counts.dom().len(),
        forall|i: int|
            0 <= i < all.len() ==> counts.contains_key((#[trigger] all[i]).0) && counts[all[i].0]
                == all[i].1,
        forall|domain: Seq<char>| #[trigger]
            counts.contains_key(domain) ==> exists|i: int|
                0 <= i < all.len() && (#[trigger] all[i]).0 == domain,
        same_rows(full, all),
        full.len() == all.len(),
        ranked(full),
        out.len() == if n <= full.len() {
            n
        } else {
            full.len()
        },
        out == full.take(out.len() as int),
    ensures
        is_top(counts, n, out),
{
    assert forall|i: int| 0 <= i < out.len() implies counts.contains_key((#[trigger] out[i]).0)
        && counts[out[i].0] == out[i].1 by {
        assert(all.contains(full[i]));
        let k = choose|k: int| 0 <= k < all.len() && all[k] == full[i];
        assert(counts.contains_key(all[k].0));
    }
    assert forall|domain: Seq<char>| #[trigger] counts.contains_key(domain) implies (exists|
        i: int,
    | 0 <= i < out.len() && (#[trigger] out[i]).0 == domain) || (forall|i: int|
        0 <= i < out.len() ==> ranks_before(#[trigger] out[i], (domain, counts[domain] as usize))) by {
        let k = choose|k: int| 0 <= k < all.len() && (#[trigger] all[k]).0 == domain;
        assert(counts.contains_key(all[k].0) && counts[all[k].0] == all[k].1);
        assert(full.contains(all[k]));
        let x = choose|x: int| 0 <= x < full.len() && full[x] == all[k];
        assert(full[x] == (domain, counts[domain] as usize));
        if x < out.len() {
            assert(out[x].0 == domain);
        } else {
            assert forall|i: int| 0 <= i < out.len() implies ranks_before(
                #[trigger] out[i],
                (domain, counts[domain] as usize),
            ) by {
                assert(ranks_before(full[i], full[x]));
            }
        }
    }
    assert(ranked(out)) by {
        assert forall|i: int, j: int| 0 <= i < j < out.len() implies ranks_before(
            #[trigger] out[i],
            #[trigger] out[j],
        ) by {
            assert(ranks_before(full[i], full[j]));
        }
    }
}

/// The `n` domains that occur most often, from the highest count down;
/// domains with the same count stand in dictionary order.
pub fn get_top_domains(counts: &DomainCounts, n: usize) -> (top: Vec<(String, usize)>)
    ensures
        is_top(counts@, n as nat, views(top@)),
{
    let rows = counts.rows();
    let mut order: Vec<(Vec<char>, usize)> = Vec::new();
    let mut i: usize = 0;
    while i < rows.len()
        invariant
            i <= rows.len(),
            order.len() == i,
            ranked(views(order@)),
            forall|i: int, j: int|
                0 <= i < j < rows@.len() ==> (#[trigger] rows@[i]).0@ != (#[trigger] rows@[j]).0@,
            same_rows(views(order@), views(rows@).take(i as int)),
        decreases rows.len() - i,
    {
        let domain = chars_of(rows[i].0.as_str());
        let count = rows[i].1;
        let at = rank_position(&order, domain.as_slice(), count);
        let ghost before = views(order@);
        let ghost seen = views(rows@).take(i as int);
        let ghost row = (domain@, count);
        proof {
            assert(row == views(rows@)[i as int]);
            assert forall|x: int| 0 <= x < before.len() implies (#[trigger] before[x]).0
                != row.0 by {
                assert(seen.contains(before[x]));
                let k = choose|k: int| 0 <= k < seen.len() && seen[k] == before[x];
                assert(rows@[k].0@ != rows@[i as int].0@);
            }
            lemma_insert_ranked(before, at as int, row);
            lemma_insert_same_rows(before, at as int, seen, row);
            assert(views(rows@).take(i + 1) =~= seen.push(row));
        }
        order.insert(at, (domain, count));
        proof {
            assert(views(order@) =~= before.insert(at as int, row));
        }
        i += 1;
    }
    let ghost full = views(order@);
    proof {
        assert(views(rows@).take(rows@.len() as int) =~= views(rows@));
    }
    order.truncate(n);
    let mut top: Vec<(String, usize)> = Vec::new();
    let mut j: usize = 0;
    while j < order.len()
        invariant
            j <= order.len(),
            views(top@) == views(order@).take(j as int),
        decreases order.len() - j,
    {
        let ghost done = views(top@);
        let name = string_of(order[j].0.as_slice());
        let count = order[j].1;
        top.push((name, count));
        proof {
            assert(views(top@) =~= done.push((order@[j as int].0@, count)));
            assert(views(order@).take(j + 1) =~= views(order@).take(j as int).push(
                views(order@)[j as int],
            ));
        }
        j += 1;
    }
    proof {
        let out = views(top@);
        assert(views(order@).take(order@.len() as int) =~= views(order@));
        assert(out =~= full.take(out.len() as int));
        let all = views(rows@);
        assert forall|domain: Seq<char>| #[trigger] counts@.contains_key(domain) implies exists|
            i: int,
        | 0 <= i < all.len() && (#[trigger] all[i]).0 == domain by {
            let k = choose|k: int| 0 <= k < rows@.len() && (#[trigger] rows@[k]).0@ == domain;
            assert(all[k].0 == domain);
        }
        assert forall|i: int| 0 <= i < all.len() implies counts@.contains_key(
            (#[trigger] all[i]).0,
        ) && counts@[all[i].0] == all[i].1 by {
            assert(counts@.contains_key(rows@[i].0@));
        }
        lemma_prefix_is_top(counts@, n as nat, all, full, out);
    }
    top
}

/// Two top rankings of one table agree up to index `upto`.
proof fn lemma_top_agree_upto(
    counts: Map<Seq<char>, nat>,
    n: nat,
    a: Seq<(Seq<char>, usize)>,
    b: Seq<(Seq<char>, usize)>,
    upto: int,
)
    requires
        is_top(counts, n, a),
        is_top(counts, n, b),
        0 <= upto <= a.len(),
    ensures
        forall|k: int| 0 <= k < upto ==> a[k] == b[k],
    decreases upto,
{
    if upto > 0 {
        let i = upto - 1;
        lemma_top_agree_upto(counts, n, a, b, i);
        lemma_ranks_before_order(a[i], b[i], a[i]);
        if a[i].0 != b[i].0 {
            if ranks_before(a[i], b[i]) {
                lemma_top_row_missing(counts, a, b, i);
            } else {
                lemma_top_row_missing(counts, b, a, i);
            }
        }
    }
}

/// Where two rankings agree in front of index `i`, the row of the one at `i`
/// does not stand before the row of the other.
proof fn lemma_top_row_missing(
    counts: Map<Seq<char>, nat>,
    a: Seq<(Seq<char>, usize)>,
    b: Seq<(Seq<char>, usize)>,
    i: int,
)
    requires
        0 <= i < a.len(),
        a.len() == b.len(),
        ranked(a),
        ranked(b),
        forall|k: int| 0 <= k < i ==> a[k] == b[k],
        counts.contains_key(a[i].0) && counts[a[i].0] == a[i].1,
        forall|k: int| 0 <= k < b.len() ==> counts[(#[trigger] b[k]).0] == b[k].1,
        (exists|j: int| 0 <= j < b.len() && (#[trigger] b[j]).0 == a[i].0) || (forall|j: int|
            0 <= j < b.len() ==> ranks_before(#[trigger] b[j], (a[i].0, counts[a[i].0] as usize))),
    ensures
        !ranks_before(a[i], b[i]),
{
    let row = (a[i].0, counts[a[i].0] as usize);
    assert(row == a[i]);
    lemma_ranks_before_order(a[i], b[i], a[i]);
    if !ranks_before(a[i], b[i]) {
    } else if exists|j: int| 0 <= j < b.len() && (#[trigger] b[j]).0 == a[i].0 {
        let j = choose|j: int| 0 <= j < b.len() && (#[trigger] b[j]).0 == a[i].0;
        assert(b[j] == a[i]);
        if j < i {
            assert(a[j] == b[j]);
            assert(ranks_before(a[j], a[i]));
        } else if j > i {
            assert(ranks_before(b[i], b[j]));
        }
    } else {
        assert(ranks_before(b[i], row));
    }
}

/// A table has one top ranking for each `n`: the order is total, so the
/// rows and their order do not depend on how the table was filled.
pub proof fn lemma_top_is_unique(
    counts: Map<Seq<char>, nat>,
    n: nat,
    a: Seq<(Seq<char>, usize)>,
    b: Seq<(Seq<char>, usize)>,
)
    requires
        is_top(counts, n, a),
        is_top(counts, n, b),
    ensures
        a == b,
{
    lemma_top_agree_upto(counts, n, a, b, a.len() as int);
    assert(a =~= b);
}

} // verus!
