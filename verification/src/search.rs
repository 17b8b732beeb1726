//! Searching the open tabs by title, as text or as a regular expression,
//! and the archived sessions by what they hold.

use crate::tab_data::{CollapsedSession, SavedTab, SavedTabModel, SessionModel, TabInfo, TabModel};
use crate::text::{chars_of, contains_chars, has_substring, lowercase, to_lowercase, views};
use vstd::prelude::*;

verus! {

/// `regex::Regex`, a compiled regular expression. Nothing of its inside is
/// known here; it is made by `compile` and asked by `is_match`.
#[verifier::external_type_specification]
#[verifier::external_body]
pub struct ExRegex(regex::Regex);

/// Whether a compiled expression finds a match anywhere in `text`, as
/// `regex::Regex::is_match` tells.
pub uninterp spec fn regex_is_match(re: regex::Regex, text: Seq<char>) -> bool;

/// `regex::Regex::new`: the compiled form of `pattern`, or `None` where the
/// pattern is not valid or compiles to more than the size limit allows.
#[verifier::external_body]
fn compile(pattern: &str) -> (re: Option<regex::Regex>) {
    regex::Regex::new(pattern).ok()
}

/// `regex::Regex::is_match`: whether the expression matches somewhere in
/// `text`. The answer depends on the expression and the text alone.
#[verifier::external_body]
fn is_match(re: &regex::Regex, text: &str) -> (found: bool)
    ensures
        found == regex_is_match(*re, text@),
{
    re.is_match(text)
}

/// Whether `text` holds `query` when case is set aside: the lower-case form
/// of the one holds the lower-case form of the other.
pub open spec fn holds_text(text: Seq<char>, query: Seq<char>) -> bool {
    has_substring(lowercase(text), lowercase(query))
}

/// The tabs whose title holds `query`, in their order.
pub open spec fn tabs_with_text(tabs: Seq<TabModel>, query: Seq<char>) -> Seq<TabModel> {
    tabs.filter(|tab: TabModel| holds_text(tab.title, query))
}

/// The tabs in whose title the expression finds a match, in their order.
pub open spec fn tabs_matching(tabs: Seq<TabModel>, re: regex::Regex) -> Seq<TabModel> {
    tabs.filter(|tab: TabModel| regex_is_match(re, tab.title))
}

/// Whether the URL, the title or the domain of the tab holds `query`.
pub open spec fn saved_tab_holds(tab: SavedTabModel, query: Seq<char>) -> bool {
    holds_text(tab.url, query) || holds_text(tab.title, query) || holds_text(tab.domain, query)
}

/// Whether the name of the session or one of its tabs holds `query`.
pub open spec fn session_holds(session: SessionModel, query: Seq<char>) -> bool {
    holds_text(session.name, query) || exists|i: int|
        0 <= i < session.tabs.len() && saved_tab_holds(#[trigger] session.tabs[i], query)
}

/// The sessions that hold `query`, in their order.
pub open spec fn sessions_holding(sessions: Seq<SessionModel>, query: Seq<char>) -> Seq<
    SessionModel,
> {
    sessions.filter(|session: SessionModel| session_holds(session, query))
}

/// What a search for `query` shows of the sessions: those that hold it, and
/// all of them where the query is empty.
pub open spec fn sessions_with_text(sessions: Seq<SessionModel>, query: Seq<char>) -> Seq<
    SessionModel,
> {
    if query.len() == 0 {
        sessions
    } else {
        sessions_holding(sessions, query)
    }
}

/// What a search for `query` shows of `tabs`, given what compiling the
/// query gave: all tabs for the empty query; with `use_regex`, the tabs
/// that the expression matches, and all tabs where the query did not
/// compile; else the tabs whose title holds the query.
pub open spec fn search_result(
    tabs: Seq<TabModel>,
    query: Seq<char>,
    use_regex: bool,
    compiled: Option<regex::Regex>,
) -> Seq<TabModel> {
    if query.len() == 0 {
        tabs
    } else if use_regex {
        match compiled {
            Some(re) => tabs_matching(tabs, re),
            None => tabs,
        }
    } else {
        tabs_with_text(tabs, query)
    }
}

fn copy_tabs(tabs: &[TabInfo]) -> (copy: Vec<TabInfo>)
    ensures
        views(copy@) == views(tabs@),
{
    let mut copy: Vec<TabInfo> = Vec::new();
    let mut i: usize = 0;
    while i < tabs.len()
        invariant
            i <= tabs.len(),
            copy@ == tabs@.take(i as int),
        decreases tabs.len() - i,
    {
        copy.push(tabs[i].clone());
        assert(tabs@.take(i + 1) =~= tabs@.take(i as int).push(tabs@[i as int]));
        i += 1;
    }
    assert(views(copy@) =~= views(tabs@));
    copy
}

/// Whether `text` holds the query whose lower-case form is `query_lower`.
fn text_holds(text: &str, query_lower: &[char], Ghost(query): Ghost<Seq<char>>) -> (found: bool)
    requires
        query_lower@ == lowercase(query),
    ensures
        found == holds_text(text@, query),
{
    let lower = to_lowercase(text);
    let chars = chars_of(lower.as_str());
    contains_chars(chars.as_slice(), query_lower)
}

/// The tabs whose title holds `query`, whatever the case of either.
pub fn filter_tabs_by_text(tabs: &[TabInfo], query: &str) -> (found: Vec<TabInfo>)
    ensures
        views(found@) == tabs_with_text(views(tabs@), query@),
{
    let lower = to_lowercase(query);
    let query_lower = chars_of(lower.as_str());
    let mut found: Vec<TabInfo> = Vec::new();
    let mut i: usize = 0;
    let ghost all = views(tabs@);
    proof {
        reveal(Seq::filter);
        assert(views(found@) =~= tabs_with_text(all.take(0), query@));
    }
    while i < tabs.len()
        invariant
            i <= tabs.len(),
            all == views(tabs@),
            query_lower@ == lowercase(query@),
            views(found@) == tabs_with_text(all.take(i as int), query@),
        decreases tabs.len() - i,
    {
        let tab = &tabs[i];
        let ghost before = views(found@);
        proof {
            assert(all.take(i + 1) =~= all.take(i as int).push(tab@));
            all.take(i as int).lemma_filter_push(
                tab@,
                |tab: TabModel| holds_text(tab.title, query@),
            );
        }
        if text_holds(tab.title.as_str(), query_lower.as_slice(), Ghost(query@)) {
            found.push(tab.clone());
            assert(views(found@) =~= before.push(tab@));
        }
        i += 1;
    }
    assert(all.take(tabs@.len() as int) =~= all);
    found
}

/// The tabs in whose title the expression finds a match.
pub fn filter_tabs_by_pattern(tabs: &[TabInfo], re: &regex::Regex) -> (found: Vec<TabInfo>)
    ensures
        views(found@) == tabs_matching(views(tabs@), *re),
{
    let mut found: Vec<TabInfo> = Vec::new();
    let mut i: usize = 0;
    let ghost all = views(tabs@);
    proof {
        reveal(Seq::filter);
        assert(views(found@) =~= tabs_matching(all.take(0), *re));
    }
    while i < tabs.len()
        invariant
            i <= tabs.len(),
            all == views(tabs@),
            views(found@) == tabs_matching(all.take(i as int), *re),
        decreases tabs.len() - i,
    {
        let tab = &tabs[i];
        let ghost before = views(found@);
        proof {
            assert(all.take(i + 1) =~= all.take(i as int).push(tab@));
            all.take(i as int).lemma_filter_push(
                tab@,
                |tab: TabModel| regex_is_match(*re, tab.title),
            );
        }
        if is_match(re, tab.title.as_str()) {
            found.push(tab.clone());
            assert(views(found@) =~= before.push(tab@));
        }
        i += 1;
    }
    assert(all.take(tabs@.len() as int) =~= all);
    found
}

/// What a search shows once the query has been compiled, or has failed to
/// compile, or need not be compiled at all.
pub fn search_tabs_compiled(
    tabs: &[TabInfo],
    query: &str,
    use_regex: bool,
    compiled: Option<&regex::Regex>,
) -> (found: Vec<TabInfo>)
    ensures
        views(found@) == search_result(
            views(tabs@),
            query@,
            use_regex,
            match compiled {
                Some(re) => Some(*re),
                None => None,
            },
        ),
{
    if query.is_empty() {
        copy_tabs(tabs)
    } else if use_regex {
        match compiled {
            Some(re) => filter_tabs_by_pattern(tabs, re),
            None => copy_tabs(tabs),
        }
    } else {
        filter_tabs_by_text(tabs, query)
    }
}

/// The tabs that a search for `query` shows. With `use_regex` the query is
/// a regular expression; a query that does not compile shows all tabs.
pub fn search_tabs(tabs: &[TabInfo], query: &str, use_regex: bool) -> (found: Vec<TabInfo>)
    ensures
        exists|compiled: Option<regex::Regex>|
            views(found@) == #[trigger] search_result(views(tabs@), query@, use_regex, compiled),
        query@.len() == 0 ==> views(found@) == views(tabs@),
        query@.len() > 0 && !use_regex ==> views(found@) == tabs_with_text(views(tabs@), query@),
{
    if use_regex && !query.is_empty() {
        let compiled = compile(query);
        let found = search_tabs_compiled(tabs, query, true, compiled.as_ref());
        assert(views(found@) == search_result(views(tabs@), query@, use_regex, compiled));
        found
    } else {
        let found = search_tabs_compiled(tabs, query, use_regex, None);
        assert(views(found@) == search_result(views(tabs@), query@, use_regex, None));
        found
    }
}

/// Whether the URL, the title or the domain of one of the tabs holds the
/// query.
fn some_tab_holds(tabs: &Vec<SavedTab>, query_lower: &[char], Ghost(query): Ghost<Seq<char>>) -> (found:
    bool)
    requires
        query_lower@ == lowercase(query),
    ensures
        found == exists|i: int|
            0 <= i < tabs@.len() && saved_tab_holds(#[trigger] views(tabs@)[i], query),
{
    let mut i: usize = 0;
    while i < tabs.len()
        invariant
            i <= tabs.len(),
            query_lower@ == lowercase(query),
            forall|j: int| 0 <= j < i ==> !saved_tab_holds(#[trigger] views(tabs@)[j], query),
        decreases tabs.len() - i,
    {
        let tab = &tabs[i];
        if text_holds(tab.url.as_str(), query_lower, Ghost(query)) || text_holds(
            tab.title.as_str(),
            query_lower,
            Ghost(query),
        ) || text_holds(tab.domain.as_str(), query_lower, Ghost(query)) {
            assert(saved_tab_holds(views(tabs@)[i as int], query));
            return true;
        }
        i += 1;
    }
    false
}

/// The sessions whose name, or one of whose tabs, holds `query`, whatever
/// the case of either; all sessions where the query is empty.
pub fn filter_sessions(sessions: &[CollapsedSession], query: &str) -> (found: Vec<
    CollapsedSession,
>)
    ensures
        views(found@) == sessions_with_text(views(sessions@), query@),
{
    let lower = to_lowercase(query);
    let query_lower = chars_of(lower.as_str());
    let all_wanted = query.is_empty();
    let mut found: Vec<CollapsedSession> = Vec::new();
    let mut i: usize = 0;
    let ghost all = views(sessions@);
    proof {
        reveal(Seq::filter);
        assert(views(found@) =~= sessions_holding(all.take(0), query@));
        assert(views(found@) =~= all.take(0));
    }
    while i < sessions.len()
        invariant
            i <= sessions.len(),
            all == views(sessions@),
            all_wanted == (query@.len() == 0),
            query_lower@ == lowercase(query@),
            views(found@) == if all_wanted {
                all.take(i as int)
            } else {
                sessions_holding(all.take(i as int), query@)
            },
        decreases sessions.len() - i,
    {
        let session = &sessions[i];
        let ghost before = views(found@);
        proof {
            assert(all.take(i + 1) =~= all.take(i as int).push(session@));
            all.take(i as int).lemma_filter_push(
                session@,
                |session: SessionModel| session_holds(session, query@),
            );
            assert(views(session.tabs@) == session@.tabs);
        }
        if all_wanted || text_holds(session.name.as_str(), query_lower.as_slice(), Ghost(query@))
            || some_tab_holds(&session.tabs, query_lower.as_slice(), Ghost(query@)) {
            found.push(session.clone());
            assert(views(found@) =~= before.push(session@));
        }
        i += 1;
    }
    assert(all.take(sessions@.len() as int) =~= all);
    found
}

} // verus!
