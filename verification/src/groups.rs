//! The tabs of a session by domain, for showing them group by group.

use crate::tab_data::{SavedTab, SavedTabModel};
use crate::text::{
    chars_eq, chars_lt, chars_of, lemma_lex_lt_irreflexive, lemma_lex_lt_total,
    lemma_lex_lt_transitive, lex_lt, views,
};
use vstd::prelude::*;

verus! {

/// The tabs of one domain.
#[derive(Debug, PartialEq)]
pub struct DomainGroup {
    pub domain: String,
    pub tabs: Vec<SavedTab>,
}

/// What a `DomainGroup` holds.
pub struct GroupModel {
    pub domain: Seq<char>,
    pub tabs: Seq<SavedTabModel>,
}

impl View for DomainGroup {
    type V = GroupModel;

    open spec fn view(&self) -> GroupModel {
        GroupModel { domain: self.domain@, tabs: views(self.tabs@) }
    }
}

/// The tabs that were archived with this domain, in their order.
pub open spec fn tabs_of_domain(tabs: Seq<SavedTabModel>, domain: Seq<char>) -> Seq<SavedTabModel>
    decreases tabs.len(),
{
    if tabs.len() == 0 {
        Seq::empty()
    } else if tabs.last().domain == domain {
        tabs_of_domain(tabs.drop_last(), domain).push(tabs.last())
    } else {
        tabs_of_domain(tabs.drop_last(), domain)
    }
}

/// Whether `groups` are the tabs by domain: one group for each domain that
/// a tab has, each with all tabs of its domain in their order, and the
/// groups in dictionary order of their domains.
pub open spec fn is_grouping(tabs: Seq<SavedTabModel>, groups: Seq<GroupModel>) -> bool {
    &&& forall|i: int, j: int|
        0 <= i < j < groups.len() ==> lex_lt(
            (#[trigger] groups[i]).domain,
            (#[trigger] groups[j]).domain,
        )
    &&& forall|i: int|
        0 <= i < groups.len() ==> (#[trigger] groups[i]).tabs.len() > 0 && groups[i].tabs
            == tabs_of_domain(tabs, groups[i].domain)
    &&& forall|domain: Seq<char>|
        tabs_of_domain(tabs, domain).len() > 0 ==> #[trigger] has_group(groups, domain)
}

/// Whether one of the groups is for this domain.
pub open spec fn has_group(groups: Seq<GroupModel>, domain: Seq<char>) -> bool {
    exists|i: int| 0 <= i < groups.len() && (#[trigger] groups[i]).domain == domain
}

/// One more tab: it joins the group of its domain.
proof fn lemma_group_grows(
    tabs: Seq<SavedTabModel>,
    groups: Seq<GroupModel>,
    at: int,
    tab: SavedTabModel,
)
    requires
        is_grouping(tabs, groups),
        0 <= at < groups.len(),
        groups[at].domain == tab.domain,
    ensures
        is_grouping(
            tabs.push(tab),
            groups.update(at, GroupModel { tabs: groups[at].tabs.push(tab), ..groups[at] }),
        ),
{
    let more = tabs.push(tab);
    let after = groups.update(at, GroupModel { tabs: groups[at].tabs.push(tab), ..groups[at] });
    assert(more.drop_last() =~= tabs);
    assert forall|i: int, j: int| 0 <= i < j < after.len() implies lex_lt(
        (#[trigger] after[i]).domain,
        (#[trigger] after[j]).domain,
    ) by {
        assert(lex_lt(groups[i].domain, groups[j].domain));
    }
    assert forall|i: int| 0 <= i < after.len() implies (#[trigger] after[i]).tabs.len() > 0
        && after[i].tabs == tabs_of_domain(more, after[i].domain) by {
        assert(groups[i].tabs == tabs_of_domain(tabs, groups[i].domain));
        if i != at {
            lemma_lex_lt_irreflexive(tab.domain);
            if i < at {
                assert(lex_lt(groups[i].domain, groups[at].domain));
            } else {
                assert(lex_lt(groups[at].domain, groups[i].domain));
            }
        }
    }
    assert forall|domain: Seq<char>| tabs_of_domain(more, domain).len() > 0 implies #[trigger] has_group(
        after,
        domain,
    ) by {
        if domain == tab.domain {
            assert(after[at].domain == domain);
        } else {
            assert(has_group(groups, domain));
            let i = choose|i: int| 0 <= i < groups.len() && (#[trigger] groups[i]).domain == domain;
            assert(after[i].domain == domain);
        }
    }
}

/// One more tab, the first of its domain: it makes a group of its own.
proof fn lemma_group_starts(
    tabs: Seq<SavedTabModel>,
    groups: Seq<GroupModel>,
    at: int,
    tab: SavedTabModel,
)
    requires
        is_grouping(tabs, groups),
        0 <= at <= groups.len(),
        forall|i: int| 0 <= i < at ==> lex_lt((#[trigger] groups[i]).domain, tab.domain),
        at < groups.len() ==> lex_lt(tab.domain, groups[at].domain),
    ensures
        is_grouping(
            tabs.push(tab),
            groups.insert(at, GroupModel { domain: tab.domain, tabs: seq![tab] }),
        ),
{
    let more = tabs.push(tab);
    let group = GroupModel { domain: tab.domain, tabs: seq![tab] };
    let after = groups.insert(at, group);
    assert(more.drop_last() =~= tabs);
    lemma_lex_lt_irreflexive(tab.domain);
    assert forall|i: int| 0 <= i < groups.len() implies (#[trigger] groups[i]).domain
        != tab.domain by {
        if i >= at {
            if i > at {
                assert(lex_lt(groups[at].domain, groups[i].domain));
                lemma_lex_lt_transitive(tab.domain, groups[at].domain, groups[i].domain);
            }
        }
    }
    assert(!has_group(groups, tab.domain));
    assert(tabs_of_domain(tabs, tab.domain).len() == 0);
    assert(tabs_of_domain(more, tab.domain) =~= seq![tab]);
    assert forall|i: int, j: int| 0 <= i < j < after.len() implies lex_lt(
        (#[trigger] after[i]).domain,
        (#[trigger] after[j]).domain,
    ) by {
        if j < at {
            assert(lex_lt(groups[i].domain, groups[j].domain));
        } else if j == at {
            assert(lex_lt(groups[i].domain, tab.domain));
        } else if i == at {
            if j - 1 > at {
                assert(lex_lt(groups[at].domain, groups[j - 1].domain));
                lemma_lex_lt_transitive(tab.domain, groups[at].domain, groups[j - 1].domain);
            }
        } else if i < at {
            assert(lex_lt(groups[i].domain, groups[j - 1].domain));
        } else {
            assert(lex_lt(groups[i - 1].domain, groups[j - 1].domain));
        }
    }
    assert forall|i: int| 0 <= i < after.len() implies (#[trigger] after[i]).tabs.len() > 0
        && after[i].tabs == tabs_of_domain(more, after[i].domain) by {
        if i != at {
            let k = if i < at {
                i
            } else {
                i - 1
            };
            assert(after[i] == groups[k]);
            assert(groups[k].tabs == tabs_of_domain(tabs, groups[k].domain));
        }
    }
    assert forall|domain: Seq<char>| tabs_of_domain(more, domain).len() > 0 implies #[trigger] has_group(
        after,
        domain,
    ) by {
        if domain == tab.domain {
            assert(after[at].domain == domain);
        } else {
            assert(has_group(groups, domain));
            let i = choose|i: int| 0 <= i < groups.len() && (#[trigger] groups[i]).domain == domain;
            if i < at {
                assert(after[i].domain == domain);
            } else {
                assert(after[i + 1].domain == domain);
            }
        }
    }
}

/// The tabs by domain, the domains in dictionary order. A tab counts under
/// the domain that it was archived with.
pub fn group_tabs_by_domain(tabs: &[SavedTab]) -> (groups: Vec<DomainGroup>)
    ensures
        is_grouping(views(tabs@), views(groups@)),
{
    let mut groups: Vec<DomainGroup> = Vec::new();
    let mut keys: Vec<Vec<char>> = Vec::new();
    let mut i: usize = 0;
    let ghost all = views(tabs@);
    proof {
        assert(all.take(0) =~= Seq::<SavedTabModel>::empty());
    }
    while i < tabs.len()
        invariant
            i <= tabs.len(),
            all == views(tabs@),
            keys.len() == groups.len(),
            forall|k: int| 0 <= k < keys.len() ==> (#[trigger] keys@[k])@ == groups@[k].domain@,
            is_grouping(all.take(i as int), views(groups@)),
        decreases tabs.len() - i,
    {
        let tab = &tabs[i];
        let key = chars_of(tab.domain.as_str());
        let ghost seen = all.take(i as int);
        let ghost before = views(groups@);
        let ghost old_keys = keys@;
        proof {
            assert(all.take(i + 1) =~= seen.push(tab@));
        }
        let mut at: usize = 0;
        while at < keys.len() && chars_lt(keys[at].as_slice(), key.as_slice())
            invariant
                at <= keys.len(),
                keys.len() == groups.len(),
                before == views(groups@),
                key@ == tab@.domain,
                forall|k: int| 0 <= k < keys.len() ==> (#[trigger] keys@[k])@ == groups@[k].domain@,
                forall|k: int| 0 <= k < at ==> lex_lt((#[trigger] before[k]).domain, tab@.domain),
            decreases keys.len() - at,
        {
            assert(keys@[at as int]@ == before[at as int].domain);
            at += 1;
        }
        if at < keys.len() && chars_eq(keys[at].as_slice(), key.as_slice()) {
            let mut group = groups.remove(at);
            group.tabs.push(tab.clone());
            let ghost grown = group@;
            groups.insert(at, group);
            proof {
                assert(keys@[at as int]@ == before[at as int].domain);
                assert(grown == GroupModel {
                    tabs: before[at as int].tabs.push(tab@),
                    ..before[at as int]
                }) by {
                    assert(grown.tabs =~= before[at as int].tabs.push(tab@));
                }
                assert(views(groups@) =~= before.update(at as int, grown));
                lemma_group_grows(seen, before, at as int, tab@);
            }
        } else {
            proof {
                if at < keys.len() {
                    assert(keys@[at as int]@ == before[at as int].domain);
                    lemma_lex_lt_total(key@, keys@[at as int]@);
                }
                lemma_group_starts(seen, before, at as int, tab@);
            }
            let mut only: Vec<SavedTab> = Vec::new();
            only.push(tab.clone());
            let group = DomainGroup { domain: tab.domain.clone(), tabs: only };
            proof {
                assert(group@.tabs =~= seq![tab@]);
            }
            groups.insert(at, group);
            keys.insert(at, key);
            proof {
                assert(views(groups@) =~= before.insert(
                    at as int,
                    GroupModel { domain: tab@.domain, tabs: seq![tab@] },
                ));
                assert forall|k: int| 0 <= k < keys.len() implies (#[trigger] keys@[k])@
                    == groups@[k].domain@ by {
                    if k < at {
                        assert(keys@[k] == old_keys[k]);
                    } else if k > at {
                        assert(keys@[k] == old_keys[k - 1]);
                    }
                }
            }
        }
        i += 1;
    }
    proof {
        assert(all.take(tabs@.len() as int) =~= all);
    }
    groups
}

} // verus!
