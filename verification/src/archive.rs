//! Archiving: from the open tabs to a session for the store and the list of
//! tabs to close.

use crate::domain::{domain_of, extract_domain};
use crate::operations::{
    has_domain, ids_of, in_domain_order, make_tabs_unique, sort_tabs_by_domain, survivors,
    with_domain,
};
use crate::tab_data::{CollapsedSession, SavedTab, SavedTabModel, SessionModel, TabInfo, TabModel};
use crate::text::views;
use vstd::prelude::*;

verus! {

/// A tab as the archive keeps it, with the domain of its URL.
pub open spec fn saved_from(tab: TabModel) -> SavedTabModel {
    SavedTabModel {
        url: tab.url,
        title: tab.title,
        domain: domain_of(tab.url)->0,
        pinned: tab.pinned,
    }
}

/// The tabs whose URL has a domain as the archive keeps them, in their
/// order.
pub open spec fn saved_tabs_of(tabs: Seq<TabModel>) -> Seq<SavedTabModel>
    decreases tabs.len(),
{
    if tabs.len() == 0 {
        Seq::empty()
    } else if has_domain(tabs.last()) {
        saved_tabs_of(tabs.drop_last()).push(saved_from(tabs.last()))
    } else {
        saved_tabs_of(tabs.drop_last())
    }
}

/// The identifiers of the tabs, in their order.
pub open spec fn tab_ids(tabs: Seq<TabModel>) -> Seq<int> {
    Seq::new(tabs.len(), |i: int| tabs[i].id)
}

/// Whether `sorted` holds the tabs of `tabs` that have a domain, in order
/// of domain and URL.
pub open spec fn is_sorted_form(tabs: Seq<TabModel>, sorted: Seq<TabModel>) -> bool {
    &&& sorted.to_multiset() == with_domain(tabs).to_multiset()
    &&& in_domain_order(sorted)
}

/// Whether a session and a list of identifiers are what archiving `tabs`
/// gives: the tabs are put in order of domain and URL, every URL is kept
/// once, and what is left goes into the session and is to be closed.
pub open spec fn is_collapse_of(
    tabs: Seq<TabModel>,
    session: SessionModel,
    to_close: Seq<int>,
) -> bool {
    exists|sorted: Seq<TabModel>|
        {
            &&& #[trigger] is_sorted_form(tabs, sorted)
            &&& session.tabs == saved_tabs_of(survivors(sorted))
            &&& to_close == tab_ids(survivors(sorted))
        }
}

/// The shape of a session identifier: 36 characters, a hyphen at the
/// indices 8, 13, 18 and 23, lower-case hexadecimal digits elsewhere, of
/// which the one at 14 is `4` and the one at 19 is `8`, `9`, `a` or `b`.
pub open spec fn is_session_id(id: Seq<char>) -> bool {
    &&& id.len() == 36
    &&& forall|i: int|
        0 <= i < 36 ==> if i == 8 || i == 13 || i == 18 || i == 23 {
            #[trigger] id[i] == '-'
        } else {
            '0' <= id[i] <= '9' || 'a' <= id[i] <= 'f'
        }
    &&& id[14] == '4'
    &&& (id[19] == '8' || id[19] == '9' || id[19] == 'a' || id[19] == 'b')
}

/// `uuid::Uuid::new_v4` and its `to_string`: a random identifier of version
/// 4 in the hyphenated lower-case form. Which one comes out is not
/// determined; the contract says what every one looks like.
#[verifier::external_body]
fn new_session_id() -> (id: String)
    ensures
        is_session_id(id@),
{
    uuid::Uuid::new_v4().to_string()
}

/// The tabs whose URL has a domain as the archive keeps them.
pub fn save_tabs(tabs: &[TabInfo]) -> (saved: Vec<SavedTab>)
    ensures
        views(saved@) == saved_tabs_of(views(tabs@)),
{
    let mut saved: Vec<SavedTab> = Vec::new();
    let mut i: usize = 0;
    let ghost all = views(tabs@);
    assert(views(saved@) =~= saved_tabs_of(all.take(0)));
    while i < tabs.len()
        invariant
            i <= tabs.len(),
            all == views(tabs@),
            views(saved@) == saved_tabs_of(all.take(i as int)),
        decreases tabs.len() - i,
    {
        let tab = &tabs[i];
        let ghost before = views(saved@);
        proof {
            assert(all.take(i + 1).drop_last() =~= all.take(i as int));
            assert(all.take(i + 1).last() == tab@);
        }
        match extract_domain(tab.url.as_str()) {
            Some(domain) => {
                saved.push(
                    SavedTab {
                        url: tab.url.clone(),
                        title: tab.title.clone(),
                        domain,
                        pinned: tab.pinned,
                    },
                );
                assert(views(saved@) =~= before.push(saved_from(tab@)));
            },
            None => {},
        }
        i += 1;
    }
    assert(all.take(tabs@.len() as int) =~= all);
    saved
}

/// The session that archives `tabs` under the given identifier, name and
/// time, and the identifiers of the tabs to close once it is stored.
pub fn collapse_tabs_as(tabs: &[TabInfo], id: String, name: String, timestamp: i64) -> (plan: (
    CollapsedSession,
    Vec<i32>,
))
    ensures
        plan.0@.id == id@,
        plan.0@.name == name@,
        plan.0@.timestamp == timestamp,
        is_collapse_of(views(tabs@), plan.0@, ids_of(plan.1@)),
{
    let sorted = sort_tabs_by_domain(tabs);
    let (unique, _) = make_tabs_unique(sorted.as_slice());
    let saved = save_tabs(unique.as_slice());
    let mut to_close: Vec<i32> = Vec::new();
    let mut i: usize = 0;
    while i < unique.len()
        invariant
            i <= unique.len(),
            ids_of(to_close@) == tab_ids(views(unique@)).take(i as int),
        decreases unique.len() - i,
    {
        let ghost before = ids_of(to_close@);
        to_close.push(unique[i].id);
        assert(ids_of(to_close@) =~= before.push(unique@[i as int]@.id));
        assert(tab_ids(views(unique@)).take(i + 1) =~= tab_ids(views(unique@)).take(
            i as int,
        ).push(unique@[i as int]@.id));
        i += 1;
    }
    let session = CollapsedSession { id, name, timestamp, tabs: saved };
    proof {
        assert(tab_ids(views(unique@)).take(unique@.len() as int) =~= tab_ids(views(unique@)));
        assert(is_sorted_form(views(tabs@), views(sorted@)));
    }
    (session, to_close)
}

/// Archives `tabs` under a fresh identifier.
pub fn collapse_tabs(tabs: &[TabInfo], name: String, timestamp: i64) -> (plan: (
    CollapsedSession,
    Vec<i32>,
))
    ensures
        is_session_id(plan.0@.id),
        plan.0@.name == name@,
        plan.0@.timestamp == timestamp,
        is_collapse_of(views(tabs@), plan.0@, ids_of(plan.1@)),
{
    collapse_tabs_as(tabs, new_session_id(), name, timestamp)
}

} // verus!
