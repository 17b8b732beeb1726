//! Plans for a collection of tabs: the order that groups them by domain, and
//! the tabs to drop so that every URL is open once. Nothing here touches a
//! browser; the caller carries a plan out.

use crate::domain::{domain_of, extract_domain};
use crate::tab_data::{TabInfo, TabModel};
use crate::text::{
    chars_lt, chars_of, lemma_lex_lt_irreflexive, lemma_lex_lt_total, lemma_lex_lt_transitive,
    lex_le, lex_lt, views,
};
use vstd::prelude::*;
use vstd::seq_lib::{to_multiset_build, to_multiset_insert};

verus! {

/// Whether the URL of the tab has a domain.
pub open spec fn has_domain(tab: TabModel) -> bool {
    domain_of(tab.url) is Some
}

/// The tabs whose URL has a domain, in their order.
pub open spec fn with_domain(tabs: Seq<TabModel>) -> Seq<TabModel> {
    tabs.filter(|tab: TabModel| has_domain(tab))
}

/// Whether key `a` comes strictly before key `b`: by the first component,
/// and by the second where the first are the same.
pub open spec fn key_lt(a: (Seq<char>, Seq<char>), b: (Seq<char>, Seq<char>)) -> bool {
    lex_lt(a.0, b.0) || (a.0 == b.0 && lex_lt(a.1, b.1))
}

/// The key by which tabs are ordered: the domain, then the URL.
pub open spec fn sort_key(tab: TabModel) -> (Seq<char>, Seq<char>) {
    (domain_of(tab.url)->0, tab.url)
}

/// Whether tab `a` may stand before tab `b`: its domain comes first, or the
/// domains are the same and its URL does not come later.
pub open spec fn tab_le(a: TabModel, b: TabModel) -> bool {
    lex_lt(sort_key(a).0, sort_key(b).0) || (sort_key(a).0 == sort_key(b).0 && lex_le(
        a.url,
        b.url,
    ))
}

/// Whether the tabs stand in order of domain, and of URL within a domain.
pub open spec fn in_domain_order(tabs: Seq<TabModel>) -> bool {
    forall|i: int, j: int| 0 <= i < j < tabs.len() ==> tab_le(#[trigger] tabs[i], #[trigger] tabs[j])
}

/// `tab_le` is a total preorder, and it is what `key_lt` leaves.
pub proof fn lemma_tab_order(a: TabModel, b: TabModel, c: TabModel)
    ensures
        tab_le(a, a),
        tab_le(a, b) || tab_le(b, a),
        tab_le(a, b) && tab_le(b, c) ==> tab_le(a, c),
        tab_le(a, b) <==> !key_lt(sort_key(b), sort_key(a)),
{
    let (ka, kb, kc) = (sort_key(a), sort_key(b), sort_key(c));
    lemma_lex_lt_irreflexive(ka.0);
    lemma_lex_lt_total(ka.0, kb.0);
    lemma_lex_lt_total(ka.1, kb.1);
    lemma_lex_lt_total(kb.0, kc.0);
    lemma_lex_lt_total(ka.0, kc.0);
    lemma_lex_lt_total(ka.1, kc.1);
    if lex_lt(ka.0, kb.0) && lex_lt(kb.0, kc.0) {
        lemma_lex_lt_transitive(ka.0, kb.0, kc.0);
    }
    if lex_lt(ka.1, kb.1) && lex_lt(kb.1, kc.1) {
        lemma_lex_lt_transitive(ka.1, kb.1, kc.1);
    }
}

/// A tab put behind every tab that may stand before it, and in front of the
/// first that must stand behind it, leaves the order intact.
proof fn lemma_insert_in_order(tabs: Seq<TabModel>, at: int, tab: TabModel)
    requires
        in_domain_order(tabs),
        0 <= at <= tabs.len(),
        forall|i: int| 0 <= i < at ==> tab_le(#[trigger] tabs[i], tab),
        at < tabs.len() ==> tab_le(tab, tabs[at]),
    ensures
        in_domain_order(tabs.insert(at, tab)),
{
    let after = tabs.insert(at, tab);
    assert forall|i: int, j: int| 0 <= i < j < after.len() implies tab_le(
        #[trigger] after[i],
        #[trigger] after[j],
    ) by {
        if j < at {
            assert(tab_le(tabs[i], tabs[j]));
        } else if j == at {
            assert(tab_le(tabs[i], tab));
        } else if i == at {
            if j - 1 > at {
                assert(tab_le(tabs[at], tabs[j - 1]));
            }
            lemma_tab_order(tab, tabs[at], tabs[j - 1]);
        } else if i < at {
            assert(tab_le(tabs[i], tabs[j - 1]));
        } else {
            assert(tab_le(tabs[i - 1], tabs[j - 1]));
        }
    }
}

/// Whether the keys are the sort keys of the tabs, one for one.
spec fn keys_match(keys: Seq<(Vec<char>, Vec<char>)>, tabs: Seq<TabModel>) -> bool {
    &&& keys.len() == tabs.len()
    &&& forall|i: int|
        0 <= i < keys.len() ==> has_domain(#[trigger] tabs[i]) && keys[i]@ == sort_key(tabs[i])
}

/// The index in front of which a tab with this key belongs: behind every
/// tab whose key does not come later.
fn place_of(
    keys: &Vec<(Vec<char>, Vec<char>)>,
    domain: &[char],
    url: &[char],
    Ghost(tabs): Ghost<Seq<TabModel>>,
    Ghost(tab): Ghost<TabModel>,
) -> (at: usize)
    requires
        keys_match(keys@, tabs),
        sort_key(tab) == (domain@, url@),
    ensures
        at <= keys.len(),
        forall|i: int| 0 <= i < at ==> tab_le(#[trigger] tabs[i], tab),
        at < keys.len() ==> tab_le(tab, tabs[at as int]),
{
    let mut at: usize = 0;
    while at < keys.len()
        invariant
            at <= keys.len(),
            keys_match(keys@, tabs),
            sort_key(tab) == (domain@, url@),
            forall|i: int| 0 <= i < at ==> tab_le(#[trigger] tabs[i], tab),
        decreases keys.len() - at,
    {
        let key = &keys[at];
        let ghost other = tabs[at as int];
        proof {
            assert(keys@[at as int]@ == sort_key(other));
            lemma_tab_order(other, tab, tab);
            lemma_tab_order(tab, other, other);
            lemma_lex_lt_total(domain@, key.0@);
        }
        let domain_first = chars_lt(domain, key.0.as_slice());
        let later = if domain_first {
            true
        } else if chars_lt(key.0.as_slice(), domain) {
            false
        } else {
            chars_lt(url, key.1.as_slice())
        };
        if later {
            return at;
        }
        at += 1;
    }
    at
}

/// The tabs whose URL has a domain, ordered by domain and, within a domain,
/// by URL. Tabs without a domain are left out.
pub fn sort_tabs_by_domain(tabs: &[TabInfo]) -> (sorted: Vec<TabInfo>)
    ensures
        views(sorted@).to_multiset() == with_domain(views(tabs@)).to_multiset(),
        in_domain_order(views(sorted@)),
{
    let mut sorted: Vec<TabInfo> = Vec::new();
    let mut keys: Vec<(Vec<char>, Vec<char>)> = Vec::new();
    let mut i: usize = 0;
    proof {
        assert(views(tabs@).take(0) =~= Seq::<TabModel>::empty());
        reveal(Seq::filter);
        assert(with_domain(views(tabs@).take(0)) =~= views(sorted@));
    }
    while i < tabs.len()
        invariant
            i <= tabs.len(),
            keys_match(keys@, views(sorted@)),
            in_domain_order(views(sorted@)),
            views(sorted@).to_multiset() == with_domain(views(tabs@).take(i as int)).to_multiset(),
        decreases tabs.len() - i,
    {
        let tab = &tabs[i];
        let ghost seen = views(tabs@).take(i as int);
        let ghost before = views(sorted@);
        proof {
            assert(views(tabs@).take(i + 1) =~= seen.push(tab@));
            seen.lemma_filter_push(tab@, |tab: TabModel| has_domain(tab));
        }
        match extract_domain(tab.url.as_str()) {
            Some(domain) => {
                let domain_chars = chars_of(domain.as_str());
                let url_chars = chars_of(tab.url.as_str());
                let at = place_of(
                    &keys,
                    domain_chars.as_slice(),
                    url_chars.as_slice(),
                    Ghost(before),
                    Ghost(tab@),
                );
                let ghost old_keys = keys@;
                assert(domain_of(tab@.url) == Some(domain@));
                keys.insert(at, (domain_chars, url_chars));
                sorted.insert(at, tab.clone());
                proof {
                    let after = views(sorted@);
                    assert(after =~= before.insert(at as int, tab@));
                    lemma_insert_in_order(before, at as int, tab@);
                    to_multiset_insert(before, at as int, tab@);
                    to_multiset_build(with_domain(seen), tab@);
                    assert(keys@ =~= old_keys.insert(at as int, keys@[at as int]));
                    assert(keys@.len() == after.len());
                    assert(keys_match(keys@, after)) by {
                        assert forall|k: int| 0 <= k < keys@.len() implies has_domain(
                            #[trigger] after[k],
                        ) && keys@[k]@ == sort_key(after[k]) by {
                            if k < at {
                                assert(keys@[k] == old_keys[k] && after[k] == before[k]);
                                assert(has_domain(before[k]) && old_keys[k]@ == sort_key(before[k]));
                            } else if k > at {
                                assert(keys@[k] == old_keys[k - 1] && after[k] == before[k - 1]);
                                assert(has_domain(before[k - 1]) && old_keys[k - 1]@ == sort_key(
                                    before[k - 1],
                                ));
                            } else {
                                assert(after[k] == tab@);
                                assert(keys@[k]@ == (domain@, tab.url@));
                            }
                        }
                    }
                }
            },
            None => {},
        }
        i += 1;
    }
    proof {
        assert(views(tabs@).take(tabs@.len() as int) =~= views(tabs@));
    }
    sorted
}

/// What sorting by domain gives holds tabs of the list, every one with a
/// domain, and as many as the list has with a domain; a tab whose URL has
/// no domain is not among them.
pub proof fn lemma_sorted_tabs_have_domains(tabs: Seq<TabModel>, sorted: Seq<TabModel>)
    requires
        sorted.to_multiset() == with_domain(tabs).to_multiset(),
    ensures
        sorted.len() == with_domain(tabs).len(),
        forall|i: int|
            0 <= i < sorted.len() ==> has_domain(#[trigger] sorted[i]) && tabs.contains(sorted[i]),
        forall|j: int|
            0 <= j < tabs.len() && has_domain(#[trigger] tabs[j]) ==> sorted.contains(tabs[j]),
{
    let wanted = |tab: TabModel| has_domain(tab);
    let kept = with_domain(tabs);
    vstd::seq_lib::to_multiset_len(sorted);
    vstd::seq_lib::to_multiset_len(kept);
    assert forall|i: int| 0 <= i < sorted.len() implies has_domain(#[trigger] sorted[i])
        && tabs.contains(sorted[i]) by {
        vstd::seq_lib::to_multiset_contains(sorted, sorted[i]);
        vstd::seq_lib::to_multiset_contains(kept, sorted[i]);
        assert(sorted.contains(sorted[i]));
        assert(kept.contains(sorted[i]));
        let k = choose|k: int| 0 <= k < kept.len() && kept[k] == sorted[i];
        tabs.lemma_filter_pred(wanted, k);
        tabs.lemma_filter_contains_rev(wanted, sorted[i]);
    }
    assert forall|j: int| 0 <= j < tabs.len() && has_domain(#[trigger] tabs[j]) implies sorted.contains(
        tabs[j],
    ) by {
        tabs.lemma_filter_contains(wanted, j);
        vstd::seq_lib::to_multiset_contains(sorted, tabs[j]);
        vstd::seq_lib::to_multiset_contains(kept, tabs[j]);
    }
}

/// Whether an earlier tab has the same URL as tab `i`, character for
/// character.
pub open spec fn seen_before(tabs: Seq<TabModel>, i: int) -> bool {
    exists|j: int| 0 <= j < i && (#[trigger] tabs[j]).url == tabs[i].url
}

/// The tabs that are the first with their URL, in their order.
pub open spec fn survivors(tabs: Seq<TabModel>) -> Seq<TabModel>
    decreases tabs.len(),
{
    if tabs.len() == 0 {
        Seq::empty()
    } else if seen_before(tabs, tabs.len() - 1) {
        survivors(tabs.drop_last())
    } else {
        survivors(tabs.drop_last()).push(tabs.last())
    }
}

/// The identifiers of the tabs whose URL an earlier tab has, in their order.
pub open spec fn duplicate_ids(tabs: Seq<TabModel>) -> Seq<int>
    decreases tabs.len(),
{
    if tabs.len() == 0 {
        Seq::empty()
    } else if seen_before(tabs, tabs.len() - 1) {
        duplicate_ids(tabs.drop_last()).push(tabs.last().id)
    } else {
        duplicate_ids(tabs.drop_last())
    }
}

/// The identifiers as integers.
pub open spec fn ids_of(ids: Seq<i32>) -> Seq<int> {
    Seq::new(ids.len(), |i: int| ids[i] as int)
}

/// Every tab is a survivor or a duplicate, and never both.
pub proof fn lemma_unique_partition(tabs: Seq<TabModel>)
    ensures
        survivors(tabs).len() + duplicate_ids(tabs).len() == tabs.len(),
    decreases tabs.len(),
{
    if tabs.len() > 0 {
        lemma_unique_partition(tabs.drop_last());
    }
}

/// Whether one of the tabs has this URL.
#[verifier::opaque]
spec fn has_url(tabs: Seq<TabModel>, url: Seq<char>) -> bool {
    exists|j: int| 0 <= j < tabs.len() && (#[trigger] tabs[j]).url == url
}

/// Whether the kept tabs hold exactly the URLs of the tabs seen.
spec fn same_urls(kept: Seq<TabModel>, seen: Seq<TabModel>) -> bool {
    forall|url: Seq<char>| #[trigger] has_url(kept, url) == has_url(seen, url)
}

proof fn lemma_has_url_at(tabs: Seq<TabModel>, j: int)
    requires
        0 <= j < tabs.len(),
    ensures
        has_url(tabs, tabs[j].url),
{
    reveal(has_url);
}

proof fn lemma_has_url_none(tabs: Seq<TabModel>, url: Seq<char>)
    requires
        forall|j: int| 0 <= j < tabs.len() ==> (#[trigger] tabs[j]).url != url,
    ensures
        !has_url(tabs, url),
{
    reveal(has_url);
}

proof fn lemma_has_url_push(tabs: Seq<TabModel>, tab: TabModel, url: Seq<char>)
    ensures
        has_url(tabs.push(tab), url) == (has_url(tabs, url) || tab.url == url),
{
    reveal(has_url);
    let grown = tabs.push(tab);
    if has_url(tabs, url) {
        let j = choose|j: int| 0 <= j < tabs.len() && (#[trigger] tabs[j]).url == url;
        assert(grown[j].url == url);
    }
    if tab.url == url {
        assert(grown[tabs.len() as int].url == url);
    }
    if has_url(grown, url) {
        let j = choose|j: int| 0 <= j < grown.len() && (#[trigger] grown[j]).url == url;
        if j < tabs.len() {
            assert(tabs[j].url == url);
        }
    }
}

/// The last of the tabs has been seen before just when one of the others
/// has its URL.
proof fn lemma_seen_before_last(tabs: Seq<TabModel>, tab: TabModel)
    ensures
        seen_before(tabs.push(tab), tabs.len() as int) == has_url(tabs, tab.url),
{
    reveal(has_url);
    let grown = tabs.push(tab);
    if has_url(tabs, tab.url) {
        let j = choose|j: int| 0 <= j < tabs.len() && (#[trigger] tabs[j]).url == tab.url;
        assert(grown[j].url == grown[tabs.len() as int].url);
    }
    if seen_before(grown, tabs.len() as int) {
        let j = choose|j: int|
            0 <= j < tabs.len() && (#[trigger] grown[j]).url == grown[tabs.len() as int].url;
        assert(tabs[j].url == tab.url);
    }
}

/// One more tab seen: it is kept just when its URL is new, and the kept
/// tabs go on holding the URLs of the tabs seen.
proof fn lemma_unique_step(kept: Seq<TabModel>, seen: Seq<TabModel>, tab: TabModel)
    requires
        same_urls(kept, seen),
    ensures
        has_url(kept, tab.url) ==> same_urls(kept, seen.push(tab)),
        !has_url(kept, tab.url) ==> same_urls(kept.push(tab), seen.push(tab)),
        seen_before(seen.push(tab), seen.len() as int) == has_url(kept, tab.url),
{
    lemma_seen_before_last(seen, tab);
    assert(has_url(kept, tab.url) == has_url(seen, tab.url));
    assert forall|url: Seq<char>|
        has_url(kept, tab.url) implies #[trigger] has_url(kept, url) == has_url(
            seen.push(tab),
            url,
        ) by {
        lemma_has_url_push(seen, tab, url);
        assert(has_url(kept, url) == has_url(seen, url));
    }
    assert forall|url: Seq<char>|
        !has_url(kept, tab.url) implies #[trigger] has_url(kept.push(tab), url) == has_url(
            seen.push(tab),
            url,
        ) by {
        lemma_has_url_push(seen, tab, url);
        lemma_has_url_push(kept, tab, url);
        assert(has_url(kept, url) == has_url(seen, url));
    }
}

/// The survivors are tabs of the list, hold every URL of the list, and
/// hold no URL twice.
proof fn lemma_survivors(tabs: Seq<TabModel>)
    ensures
        forall|k: int| 0 <= k < survivors(tabs).len() ==> tabs.contains(#[trigger] survivors(tabs)[k]),
        same_urls(survivors(tabs), tabs),
        forall|a: int, b: int|
            0 <= a < b < survivors(tabs).len() ==> (#[trigger] survivors(tabs)[a]).url != (
            #[trigger] survivors(tabs)[b]).url,
    decreases tabs.len(),
{
    let kept = survivors(tabs);
    if tabs.len() == 0 {
        assert forall|url: Seq<char>| #[trigger] has_url(kept, url) == has_url(tabs, url) by {
            lemma_has_url_none(kept, url);
            lemma_has_url_none(tabs, url);
        }
    } else {
        let front = tabs.drop_last();
        let last = tabs.last();
        let before = survivors(front);
        lemma_survivors(front);
        assert(tabs =~= front.push(last));
        lemma_unique_step(before, front, last);
        assert forall|k: int| 0 <= k < kept.len() implies tabs.contains(#[trigger] kept[k]) by {
            if k < before.len() {
                assert(front.contains(before[k]));
                let j = choose|j: int| 0 <= j < front.len() && front[j] == before[k];
                assert(tabs[j] == kept[k]);
            } else {
                assert(tabs[tabs.len() - 1] == kept[k]);
            }
        }
        if !seen_before(tabs, tabs.len() - 1) {
            assert forall|a: int, b: int| 0 <= a < b < kept.len() implies (#[trigger] kept[a]).url
                != (#[trigger] kept[b]).url by {
                if b == before.len() {
                    if kept[a].url == last.url {
                        lemma_has_url_at(before, a);
                    }
                } else {
                    assert(before[a].url != before[b].url);
                }
            }
        }
    }
}

/// Making tabs unique keeps tabs of the list, one for every URL that the
/// list holds, and no URL twice.
pub proof fn lemma_unique_keeps_each_url_once(tabs: Seq<TabModel>)
    ensures
        forall|k: int| 0 <= k < survivors(tabs).len() ==> tabs.contains(#[trigger] survivors(tabs)[k]),
        forall|j: int|
            0 <= j < tabs.len() ==> exists|k: int|
                0 <= k < survivors(tabs).len() && (#[trigger] survivors(tabs)[k]).url == (
                #[trigger] tabs[j]).url,
        forall|a: int, b: int|
            0 <= a < b < survivors(tabs).len() ==> (#[trigger] survivors(tabs)[a]).url != (
            #[trigger] survivors(tabs)[b]).url,
{
    lemma_survivors(tabs);
    let kept = survivors(tabs);
    assert forall|j: int| 0 <= j < tabs.len() implies exists|k: int|
        0 <= k < kept.len() && (#[trigger] kept[k]).url == (#[trigger] tabs[j]).url by {
        lemma_has_url_at(tabs, j);
        assert(has_url(kept, tabs[j].url));
        reveal(has_url);
    }
}

/// The tabs with every URL kept once, and the identifiers of the tabs to
/// remove. Of the tabs that share a URL the first one stays; URLs are
/// compared as they are written. Both lists keep the order of `tabs`.
pub fn make_tabs_unique(tabs: &[TabInfo]) -> (plan: (Vec<TabInfo>, Vec<i32>))
    ensures
        views(plan.0@) == survivors(views(tabs@)),
        ids_of(plan.1@) == duplicate_ids(views(tabs@)),
{
    let mut keep_tabs: Vec<TabInfo> = Vec::new();
    let mut remove_ids: Vec<i32> = Vec::new();
    let mut i: usize = 0;
    let ghost all = views(tabs@);
    proof {
        assert(views(keep_tabs@) =~= survivors(all.take(0)));
        assert(ids_of(remove_ids@) =~= duplicate_ids(all.take(0)));
        assert forall|url: Seq<char>| #[trigger]
            has_url(views(keep_tabs@), url) == has_url(all.take(0), url) by {
            lemma_has_url_none(views(keep_tabs@), url);
            lemma_has_url_none(all.take(0), url);
        }
    }
    while i < tabs.len()
        invariant
            i <= tabs.len(),
            all == views(tabs@),
            views(keep_tabs@) == survivors(all.take(i as int)),
            ids_of(remove_ids@) == duplicate_ids(all.take(i as int)),
            same_urls(views(keep_tabs@), all.take(i as int)),
        decreases tabs.len() - i,
    {
        let tab = &tabs[i];
        let ghost seen = all.take(i as int);
        let ghost next = all.take(i + 1);
        let ghost kept = views(keep_tabs@);
        let ghost removed = ids_of(remove_ids@);
        let found = holds_url(&keep_tabs, &tab.url);
        proof {
            assert(next =~= seen.push(tab@));
            assert(next.drop_last() =~= seen);
            lemma_unique_step(kept, seen, tab@);
        }
        if found {
            remove_ids.push(tab.id);
            proof {
                assert(ids_of(remove_ids@) =~= removed.push(tab@.id));
            }
        } else {
            keep_tabs.push(tab.clone());
            proof {
                assert(views(keep_tabs@) =~= kept.push(tab@));
            }
        }
        i += 1;
    }
    proof {
        assert(all.take(tabs@.len() as int) =~= all);
    }
    (keep_tabs, remove_ids)
}

/// Whether one of the tabs has this URL.
fn holds_url(tabs: &Vec<TabInfo>, url: &String) -> (found: bool)
    ensures
        found == has_url(views(tabs@), url@),
{
    let mut k: usize = 0;
    while k < tabs.len()
        invariant
            k <= tabs.len(),
            forall|x: int| 0 <= x < k ==> (#[trigger] views(tabs@)[x]).url != url@,
        decreases tabs.len() - k,
    {
        if tabs[k].url == *url {
            proof {
                lemma_has_url_at(views(tabs@), k as int);
            }
            return true;
        }
        k += 1;
    }
    proof {
        lemma_has_url_none(views(tabs@), url@);
    }
    false
}

/// The tabs at position `index`, in their order.
pub open spec fn tabs_at_index(tabs: Seq<TabModel>, index: int) -> Seq<TabModel>
    decreases tabs.len(),
{
    if tabs.len() == 0 {
        Seq::empty()
    } else if tabs.last().index == index {
        tabs_at_index(tabs.drop_last(), index).push(tabs.last())
    } else {
        tabs_at_index(tabs.drop_last(), index)
    }
}

/// Whether `sorted` is `tabs` in order of position, with tabs of one
/// position in the order that they had.
pub open spec fn is_index_order(tabs: Seq<TabModel>, sorted: Seq<TabModel>) -> bool {
    &&& sorted.len() == tabs.len()
    &&& forall|i: int, j: int|
        0 <= i < j < sorted.len() ==> (#[trigger] sorted[i]).index <= (#[trigger] sorted[j]).index
    &&& forall|index: int| #[trigger] tabs_at_index(sorted, index) == tabs_at_index(tabs, index)
}

/// A tab put in front of the tabs with a higher position joins the tabs of
/// its own position at their end.
proof fn lemma_insert_at_index(tabs: Seq<TabModel>, at: int, tab: TabModel, index: int)
    requires
        0 <= at <= tabs.len(),
        forall|k: int| at <= k < tabs.len() ==> (#[trigger] tabs[k]).index != tab.index,
    ensures
        tabs_at_index(tabs.insert(at, tab), index) == if index == tab.index {
            tabs_at_index(tabs, index).push(tab)
        } else {
            tabs_at_index(tabs, index)
        },
    decreases tabs.len(),
{
    let after = tabs.insert(at, tab);
    if at == tabs.len() {
        assert(after =~= tabs.push(tab));
        assert(after.drop_last() =~= tabs);
    } else {
        assert(after.drop_last() =~= tabs.drop_last().insert(at, tab));
        assert(after.last() == tabs.last());
        assert(tabs.last() == tabs[tabs.len() - 1]);
        lemma_insert_at_index(tabs.drop_last(), at, tab, index);
    }
}

/// The tabs in order of position. Tabs of one position keep their order.
pub fn sort_tabs_by_index(tabs: &[TabInfo]) -> (sorted: Vec<TabInfo>)
    ensures
        is_index_order(views(tabs@), views(sorted@)),
{
    let mut sorted: Vec<TabInfo> = Vec::new();
    let mut i: usize = 0;
    let ghost all = views(tabs@);
    proof {
        assert(all.take(0) =~= views(sorted@));
    }
    while i < tabs.len()
        invariant
            i <= tabs.len(),
            all == views(tabs@),
            is_index_order(all.take(i as int), views(sorted@)),
        decreases tabs.len() - i,
    {
        let tab = &tabs[i];
        let ghost seen = all.take(i as int);
        let ghost before = views(sorted@);
        let mut at: usize = 0;
        while at < sorted.len() && sorted[at].index <= tab.index
            invariant
                at <= sorted.len(),
                before == views(sorted@),
                forall|k: int| 0 <= k < at ==> (#[trigger] before[k]).index <= tab@.index,
            decreases sorted.len() - at,
        {
            assert(before[at as int].index == sorted@[at as int].index);
            at += 1;
        }
        proof {
            if at < sorted.len() {
                assert(before[at as int].index == sorted@[at as int].index);
            }
            assert forall|k: int| at <= k < before.len() implies (#[trigger] before[k]).index
                > tab@.index by {
                if k > at {
                    assert(before[at as int].index <= before[k].index);
                }
            }
        }
        sorted.insert(at, tab.clone());
        proof {
            let after = views(sorted@);
            let next = all.take(i + 1);
            assert(after =~= before.insert(at as int, tab@));
            assert(next =~= seen.push(tab@));
            assert(next.drop_last() =~= seen);
            assert forall|index: int| #[trigger]
                tabs_at_index(after, index) == tabs_at_index(next, index) by {
                lemma_insert_at_index(before, at as int, tab@, index);
                assert(tabs_at_index(before, index) == tabs_at_index(seen, index));
            }
            assert forall|x: int, y: int| 0 <= x < y < after.len() implies (
            #[trigger] after[x]).index <= (#[trigger] after[y]).index by {
                if y < at {
                    assert(before[x].index <= before[y].index);
                } else if y == at {
                    assert(before[x].index <= tab@.index);
                } else if x == at {
                    assert(before[y - 1].index > tab@.index);
                } else if x < at {
                    assert(before[x].index <= before[y - 1].index);
                } else {
                    assert(before[x - 1].index <= before[y - 1].index);
                }
            }
        }
        i += 1;
    }
    proof {
        assert(all.take(tabs@.len() as int) =~= all);
    }
    sorted
}

/// The tabs whose identifier is not `id`, in their order.
pub open spec fn tabs_without_id(tabs: Seq<TabModel>, id: int) -> Seq<TabModel> {
    tabs.filter(|tab: TabModel| tab.id != id)
}

/// The tabs that are left when the tab with this identifier is closed.
pub fn without_tab(tabs: &[TabInfo], id: i32) -> (left: Vec<TabInfo>)
    ensures
        views(left@) == tabs_without_id(views(tabs@), id as int),
{
    let mut left: Vec<TabInfo> = Vec::new();
    let mut i: usize = 0;
    let ghost all = views(tabs@);
    proof {
        reveal(Seq::filter);
        assert(views(left@) =~= tabs_without_id(all.take(0), id as int));
    }
    while i < tabs.len()
        invariant
            i <= tabs.len(),
            all == views(tabs@),
            views(left@) == tabs_without_id(all.take(i as int), id as int),
        decreases tabs.len() - i,
    {
        let tab = &tabs[i];
        let ghost before = views(left@);
        proof {
            assert(all.take(i + 1) =~= all.take(i as int).push(tab@));
            all.take(i as int).lemma_filter_push(tab@, |tab: TabModel| tab.id != id as int);
        }
        if tab.id != id {
            left.push(tab.clone());
            assert(views(left@) =~= before.push(tab@));
        }
        i += 1;
    }
    assert(all.take(tabs@.len() as int) =~= all);
    left
}

} // verus!
