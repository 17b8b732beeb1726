//! The store of archived sessions: an ordered list, looked up by session
//! identifier. The store takes identifiers as they come; a caller that adds
//! the same identifier twice gets a store in which lookups find the first.

use crate::tab_data::{CollapsedSession, SavedTab, SavedTabModel, SessionModel};
use crate::text::views;
use vstd::prelude::*;

verus! {

/// Everything that is archived, in the order in which it was added.
#[derive(Debug)]
pub struct StorageData {
    pub sessions: Vec<CollapsedSession>,
}

impl View for StorageData {
    type V = Seq<SessionModel>;

    open spec fn view(&self) -> Seq<SessionModel> {
        views(self.sessions@)
    }
}

/// The index of the first session with this identifier, or the number of
/// sessions where none has it.
pub open spec fn index_of_id(sessions: Seq<SessionModel>, id: Seq<char>) -> nat
    decreases sessions.len(),
{
    if sessions.len() == 0 || sessions[0].id == id {
        0
    } else {
        1 + index_of_id(sessions.skip(1), id)
    }
}

/// Whether a session has this identifier.
pub open spec fn has_session(sessions: Seq<SessionModel>, id: Seq<char>) -> bool {
    index_of_id(sessions, id) < sessions.len()
}

/// Whether no two sessions share an identifier.
pub open spec fn ids_unique(sessions: Seq<SessionModel>) -> bool {
    forall|i: int, j: int|
        0 <= i < j < sessions.len() ==> (#[trigger] sessions[i]).id != (#[trigger] sessions[j]).id
}

/// The tabs whose URL is not `url`, in their order.
pub open spec fn without_url(tabs: Seq<SavedTabModel>, url: Seq<char>) -> Seq<SavedTabModel>
    decreases tabs.len(),
{
    if tabs.len() == 0 {
        Seq::empty()
    } else if tabs.last().url == url {
        without_url(tabs.drop_last(), url)
    } else {
        without_url(tabs.drop_last(), url).push(tabs.last())
    }
}

/// The sessions after the tabs with `url` are taken out of the first session
/// with identifier `id`. A session that is left without tabs goes too.
pub open spec fn after_remove_tab(
    sessions: Seq<SessionModel>,
    id: Seq<char>,
    url: Seq<char>,
) -> Seq<SessionModel> {
    let k = index_of_id(sessions, id) as int;
    if k >= sessions.len() {
        sessions
    } else {
        let tabs = without_url(sessions[k].tabs, url);
        if tabs.len() == 0 {
            sessions.remove(k)
        } else {
            sessions.update(k, SessionModel { tabs, ..sessions[k] })
        }
    }
}

/// The number of tabs in all sessions together.
pub open spec fn tab_count(sessions: Seq<SessionModel>) -> nat
    decreases sessions.len(),
{
    if sessions.len() == 0 {
        0
    } else {
        tab_count(sessions.drop_last()) + sessions.last().tabs.len()
    }
}

/// `index_of_id` is the least index whose session has the identifier.
pub proof fn lemma_index_of_id(sessions: Seq<SessionModel>, id: Seq<char>)
    ensures
        index_of_id(sessions, id) <= sessions.len(),
        forall|j: int| 0 <= j < index_of_id(sessions, id) ==> (#[trigger] sessions[j]).id != id,
        has_session(sessions, id) ==> sessions[index_of_id(sessions, id) as int].id == id,
    decreases sessions.len(),
{
    if sessions.len() == 0 || sessions[0].id == id {
    } else {
        let rest = sessions.skip(1);
        lemma_index_of_id(rest, id);
        assert forall|j: int| 0 <= j < index_of_id(sessions, id) implies (
        #[trigger] sessions[j]).id != id by {
            if j > 0 {
                assert(rest[j - 1] == sessions[j]);
            }
        }
        if has_session(sessions, id) {
            let k = index_of_id(rest, id) as int;
            assert(rest[k] == sessions[k + 1]);
        }
    }
}

/// An index in front of which no session has the identifier, and which has
/// it itself or is the number of sessions, is what `index_of_id` gives.
pub proof fn lemma_index_of_id_is(sessions: Seq<SessionModel>, id: Seq<char>, k: int)
    requires
        0 <= k <= sessions.len(),
        forall|j: int| 0 <= j < k ==> (#[trigger] sessions[j]).id != id,
        k < sessions.len() ==> sessions[k].id == id,
    ensures
        index_of_id(sessions, id) == k,
{
    lemma_index_of_id(sessions, id);
    let found = index_of_id(sessions, id) as int;
    if found < k {
        assert(sessions[found].id != id);
    } else if k < found {
        assert(sessions[k].id != id);
    }
}

/// Taking a session out, or changing anything but identifiers, keeps the
/// identifiers apart; a new session does so just when its identifier is new.
pub proof fn lemma_ids_stay_unique(sessions: Seq<SessionModel>, k: int, session: SessionModel)
    requires
        ids_unique(sessions),
    ensures
        0 <= k < sessions.len() ==> ids_unique(sessions.remove(k)),
        0 <= k < sessions.len() && session.id == sessions[k].id ==> ids_unique(
            sessions.update(k, session),
        ),
        ids_unique(sessions.push(session)) <==> !has_session(sessions, session.id),
{
    if 0 <= k < sessions.len() {
        let removed = sessions.remove(k);
        assert forall|i: int, j: int| 0 <= i < j < removed.len() implies (
        #[trigger] removed[i]).id != (#[trigger] removed[j]).id by {
            let (a, b) = (if i < k { i } else { i + 1 }, if j < k { j } else { j + 1 });
            assert(sessions[a].id != sessions[b].id);
        }
        if session.id == sessions[k].id {
            let updated = sessions.update(k, session);
            assert forall|i: int, j: int| 0 <= i < j < updated.len() implies (
            #[trigger] updated[i]).id != (#[trigger] updated[j]).id by {
                assert(sessions[i].id != sessions[j].id);
            }
        }
    }
    lemma_index_of_id(sessions, session.id);
    let pushed = sessions.push(session);
    if has_session(sessions, session.id) {
        let at = index_of_id(sessions, session.id) as int;
        assert(pushed[at].id == pushed[sessions.len() as int].id);
    } else {
        assert forall|i: int, j: int| 0 <= i < j < pushed.len() implies (
        #[trigger] pushed[i]).id != (#[trigger] pushed[j]).id by {
            if j < sessions.len() {
                assert(sessions[i].id != sessions[j].id);
            }
        }
    }
}

/// The tabs whose URL is not `url`.
fn tabs_without(tabs: &Vec<SavedTab>, url: &String) -> (kept: Vec<SavedTab>)
    ensures
        views(kept@) == without_url(views(tabs@), url@),
{
    let mut kept: Vec<SavedTab> = Vec::new();
    let mut i: usize = 0;
    let ghost all = views(tabs@);
    assert(views(kept@) =~= without_url(all.take(0), url@));
    while i < tabs.len()
        invariant
            i <= tabs.len(),
            all == views(tabs@),
            views(kept@) == without_url(all.take(i as int), url@),
        decreases tabs.len() - i,
    {
        let ghost before = views(kept@);
        proof {
            assert(all.take(i + 1).drop_last() =~= all.take(i as int));
            assert(all.take(i + 1).last() == tabs@[i as int]@);
        }
        if !(tabs[i].url == *url) {
            kept.push(tabs[i].clone());
            assert(views(kept@) =~= before.push(tabs@[i as int]@));
        }
        i += 1;
    }
    assert(all.take(tabs@.len() as int) =~= all);
    kept
}

impl StorageData {
    /// The empty store.
    pub fn new() -> (store: Self)
        ensures
            store@ == Seq::<SessionModel>::empty(),
    {
        let store = StorageData { sessions: Vec::new() };
        assert(store@ =~= Seq::<SessionModel>::empty());
        store
    }

    /// Appends a session. Its identifier is not checked against the ones
    /// that the store holds.
    pub fn add_session(&mut self, session: CollapsedSession)
        ensures
            final(self)@ == old(self)@.push(session@),
    {
        self.sessions.push(session);
        assert(self@ =~= old(self)@.push(session@));
    }

    /// The index of the first session with this identifier.
    fn find(&self, session_id: &str) -> (k: usize)
        ensures
            k == index_of_id(self@, session_id@),
            k <= self.sessions.len(),
    {
        let id = session_id.to_owned();
        let mut k: usize = 0;
        while k < self.sessions.len()
            invariant
                k <= self.sessions.len(),
                id@ == session_id@,
                forall|j: int| 0 <= j < k ==> (#[trigger] self@[j]).id != id@,
            decreases self.sessions.len() - k,
        {
            if self.sessions[k].id == id {
                proof {
                    assert(self@[k as int].id == id@);
                    lemma_index_of_id_is(self@, id@, k as int);
                }
                return k;
            }
            k += 1;
        }
        proof {
            lemma_index_of_id_is(self@, id@, k as int);
        }
        k
    }

    /// Removes the first session with this identifier, and says whether
    /// there was one.
    pub fn remove_session(&mut self, session_id: &str) -> (removed: bool)
        ensures
            removed == has_session(old(self)@, session_id@),
            removed ==> final(self)@ == old(self)@.remove(
                index_of_id(old(self)@, session_id@) as int,
            ),
            !removed ==> *final(self) == *old(self),
    {
        let k = self.find(session_id);
        if k < self.sessions.len() {
            self.sessions.remove(k);
            assert(self@ =~= old(self)@.remove(k as int));
            true
        } else {
            false
        }
    }

    /// The first session with this identifier.
    pub fn get_session(&self, session_id: &str) -> (session: Option<&CollapsedSession>)
        ensures
            session is Some <==> has_session(self@, session_id@),
            session matches Some(found) ==> *found == self.sessions@[index_of_id(
                self@,
                session_id@,
            ) as int],
    {
        let k = self.find(session_id);
        if k < self.sessions.len() {
            Some(&self.sessions[k])
        } else {
            None
        }
    }

    /// Gives the first session with this identifier a new name, and says
    /// whether there was one. Any name is taken, the empty one too.
    pub fn update_session_name(&mut self, session_id: &str, new_name: String) -> (updated: bool)
        ensures
            updated == has_session(old(self)@, session_id@),
            updated ==> ({
                let k = index_of_id(old(self)@, session_id@) as int;
                final(self)@ == old(self)@.update(
                    k,
                    SessionModel { name: new_name@, ..old(self)@[k] },
                )
            }),
            !updated ==> *final(self) == *old(self),
    {
        let k = self.find(session_id);
        if k < self.sessions.len() {
            let mut session = self.sessions.remove(k);
            session.name = new_name;
            self.sessions.insert(k, session);
            assert(self@ =~= old(self)@.update(
                k as int,
                SessionModel { name: new_name@, ..old(self)@[k as int] },
            ));
            true
        } else {
            false
        }
    }

    /// Takes the tabs with this URL out of the first session with this
    /// identifier, and the session out of the store where no tab is left in
    /// it. Says whether there was such a session.
    pub fn remove_tab(&mut self, session_id: &str, tab_url: &str) -> (found: bool)
        ensures
            found == has_session(old(self)@, session_id@),
            final(self)@ == after_remove_tab(old(self)@, session_id@, tab_url@),
            !found ==> *final(self) == *old(self),
    {
        let k = self.find(session_id);
        if k >= self.sessions.len() {
            return false;
        }
        let url = tab_url.to_owned();
        let mut session = self.sessions.remove(k);
        let ghost rest = self@;
        assert(rest =~= old(self)@.remove(k as int));
        let kept = tabs_without(&session.tabs, &url);
        if kept.len() > 0 {
            session.tabs = kept;
            self.sessions.insert(k, session);
            assert(self@ =~= old(self)@.update(
                k as int,
                SessionModel {
                    tabs: without_url(old(self)@[k as int].tabs, tab_url@),
                    ..old(self)@[k as int]
                },
            ));
        }
        true
    }

    /// The number of tabs in all sessions together, or `usize::MAX` where
    /// there are more than that.
    pub fn total_tabs(&self) -> (total: usize)
        ensures
            total == if tab_count(self@) <= usize::MAX {
                tab_count(self@)
            } else {
                usize::MAX as nat
            },
    {
        let mut total: usize = 0;
        let mut i: usize = 0;
        assert(self@.take(0) =~= Seq::<SessionModel>::empty());
        while i < self.sessions.len()
            invariant
                i <= self.sessions.len(),
                total == if tab_count(self@.take(i as int)) <= usize::MAX {
                    tab_count(self@.take(i as int))
                } else {
                    usize::MAX as nat
                },
            decreases self.sessions.len() - i,
        {
            let n = self.sessions[i].tabs.len();
            proof {
                assert(self@.take(i + 1).drop_last() =~= self@.take(i as int));
                assert(self@.take(i + 1).last().tabs.len() == n);
            }
            total = if total > usize::MAX - n {
                usize::MAX
            } else {
                total + n
            };
            i += 1;
        }
        assert(self@.take(self.sessions@.len() as int) =~= self@);
        total
    }
}

impl Clone for StorageData {
    fn clone(&self) -> (copy: Self)
        ensures
            copy@ == self@,
    {
        let mut sessions: Vec<CollapsedSession> = Vec::new();
        let mut i: usize = 0;
        while i < self.sessions.len()
            invariant
                i <= self.sessions.len(),
                views(sessions@) == self@.take(i as int),
            decreases self.sessions.len() - i,
        {
            let ghost before = views(sessions@);
            sessions.push(self.sessions[i].clone());
            assert(views(sessions@) =~= before.push(self@[i as int]));
            assert(self@.take(i + 1) =~= self@.take(i as int).push(self@[i as int]));
            i += 1;
        }
        assert(self@.take(self.sessions@.len() as int) =~= self@);
        StorageData { sessions }
    }
}

impl Default for StorageData {
    fn default() -> (store: Self)
        ensures
            store@ == Seq::<SessionModel>::empty(),
    {
        StorageData::new()
    }
}

} // verus!
