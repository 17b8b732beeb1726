//! The records that the library works on: open tabs, and the tabs and
//! sessions of the archive.

use crate::text::views;
use vstd::prelude::*;

verus! {

/// One open browser tab, as the browser reports it.
#[derive(Debug)]
pub struct TabInfo {
    pub id: i32,
    pub url: String,
    pub title: String,
    pub pinned: bool,
    pub index: i32,
}

/// What a `TabInfo` holds.
pub struct TabModel {
    pub id: int,
    pub url: Seq<char>,
    pub title: Seq<char>,
    pub pinned: bool,
    pub index: int,
}

impl View for TabInfo {
    type V = TabModel;

    open spec fn view(&self) -> TabModel {
        TabModel {
            id: self.id as int,
            url: self.url@,
            title: self.title@,
            pinned: self.pinned,
            index: self.index as int,
        }
    }
}

impl Clone for TabInfo {
    fn clone(&self) -> (copy: Self)
        ensures
            copy == *self,
    {
        TabInfo {
            id: self.id,
            url: self.url.clone(),
            title: self.title.clone(),
            pinned: self.pinned,
            index: self.index,
        }
    }
}

impl TabInfo {
    pub fn new(id: i32, url: String, title: String, pinned: bool, index: i32) -> (tab: TabInfo)
        ensures
            tab == (TabInfo { id, url, title, pinned, index }),
    {
        TabInfo { id, url, title, pinned, index }
    }
}

/// A tab as the archive keeps it. The domain is computed once, when the tab
/// is archived, and kept as it was.
#[derive(Debug, PartialEq)]
pub struct SavedTab {
    pub url: String,
    pub title: String,
    pub domain: String,
    pub pinned: bool,
}

/// What a `SavedTab` holds.
pub struct SavedTabModel {
    pub url: Seq<char>,
    pub title: Seq<char>,
    pub domain: Seq<char>,
    pub pinned: bool,
}

impl View for SavedTab {
    type V = SavedTabModel;

    open spec fn view(&self) -> SavedTabModel {
        SavedTabModel {
            url: self.url@,
            title: self.title@,
            domain: self.domain@,
            pinned: self.pinned,
        }
    }
}

impl Clone for SavedTab {
    fn clone(&self) -> (copy: Self)
        ensures
            copy == *self,
    {
        SavedTab {
            url: self.url.clone(),
            title: self.title.clone(),
            domain: self.domain.clone(),
            pinned: self.pinned,
        }
    }
}

/// A named bundle of tabs that were archived together. `timestamp` is the
/// time of creation in milliseconds since the epoch; the tabs stand in the
/// order in which they were archived.
#[derive(Debug, PartialEq)]
pub struct CollapsedSession {
    pub id: String,
    pub name: String,
    pub timestamp: i64,
    pub tabs: Vec<SavedTab>,
}

/// What a `CollapsedSession` holds.
pub struct SessionModel {
    pub id: Seq<char>,
    pub name: Seq<char>,
    pub timestamp: int,
    pub tabs: Seq<SavedTabModel>,
}

impl View for CollapsedSession {
    type V = SessionModel;

    open spec fn view(&self) -> SessionModel {
        SessionModel {
            id: self.id@,
            name: self.name@,
            timestamp: self.timestamp as int,
            tabs: views(self.tabs@),
        }
    }
}

impl Clone for CollapsedSession {
    fn clone(&self) -> (copy: Self)
        ensures
            copy@ == self@,
    {
        let mut tabs: Vec<SavedTab> = Vec::new();
        let mut i: usize = 0;
        while i < self.tabs.len()
            invariant
                i <= self.tabs.len(),
                tabs@ == self.tabs@.take(i as int),
            decreases self.tabs.len() - i,
        {
            tabs.push(self.tabs[i].clone());
            proof {
                assert(self.tabs@.take(i + 1) =~= self.tabs@.take(i as int).push(self.tabs@[i as int]));
            }
            i += 1;
        }
        proof {
            assert(views(tabs@) =~= views(self.tabs@));
        }
        CollapsedSession {
            id: self.id.clone(),
            name: self.name.clone(),
            timestamp: self.timestamp,
            tabs,
        }
    }
}

} // verus!
