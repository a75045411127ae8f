//! Watching the multiplexer's session list: a new listing is announced only
//! when it differs from the last one seen.
use vstd::prelude::*;

use crate::types::{TmuxSession, TmuxWindow};

verus! {

broadcast use vstd::seq_lib::group_seq_properties;

/// A session name with its window count and total pane count.
pub struct PaneCount {
    pub session: String,
    pub windows: usize,
    pub panes: usize,
}

impl PaneCount {
    pub open spec fn view(&self) -> (Seq<char>, usize, usize) {
        (self.session@, self.windows, self.panes)
    }
}

pub open spec fn session_views(s: Seq<TmuxSession>) -> Seq<(Seq<char>, bool, i64, u32, Seq<char>)> {
    s.map_values(|x: TmuxSession| x.view())
}

pub open spec fn count_views(s: Seq<PaneCount>) -> Seq<(Seq<char>, usize, usize)> {
    s.map_values(|x: PaneCount| x.view())
}

/// Sum of the pane counts of `windows`, saturating at `usize::MAX`.
pub open spec fn pane_sum(windows: Seq<TmuxWindow>) -> int
    decreases windows.len(),
{
    if windows.len() == 0 {
        0
    } else {
        let s = pane_sum(windows.drop_last()) + windows.last().panes;
        if s > usize::MAX {
            usize::MAX as int
        } else {
            s
        }
    }
}

/// The window and pane counts of one session.
pub fn count_panes(session: &str, windows: &Vec<TmuxWindow>) -> (r: PaneCount)
    ensures
        r.view() == (session@, windows@.len() as usize, pane_sum(windows@) as usize),
{
    let mut total: usize = 0;
    let mut i: usize = 0;
    while i < windows.len()
        invariant
            i <= windows@.len(),
            total as int == pane_sum(windows@.subrange(0, i as int)),
        decreases windows@.len() - i,
    {
        proof {
            assert(windows@.subrange(0, i + 1).drop_last() =~= windows@.subrange(0, i as int));
        }
        total = total.saturating_add(windows[i].panes as usize);
        i = i + 1;
    }
    proof {
        assert(windows@.subrange(0, windows@.len() as int) =~= windows@);
    }
    PaneCount { session: session.to_owned(), windows: windows.len(), panes: total }
}

fn same_session(a: &TmuxSession, b: &TmuxSession) -> (r: bool)
    ensures
        r == (a.view() == b.view()),
{
    a.name == b.name && a.attached == b.attached && a.created == b.created && a.windows == b.windows
        && a.dimensions == b.dimensions
}

fn same_sessions(a: &Vec<TmuxSession>, b: &Vec<TmuxSession>) -> (r: bool)
    ensures
        r == (session_views(a@) == session_views(b@)),
{
    if a.len() != b.len() {
        proof {
            assert(session_views(a@).len() != session_views(b@).len());
        }
        return false;
    }
    let mut i: usize = 0;
    while i < a.len()
        invariant
            i <= a@.len(),
            a@.len() == b@.len(),
            forall|j: int| 0 <= j < i ==> #[trigger] a@[j].view() == b@[j].view(),
        decreases a@.len() - i,
    {
        if !same_session(&a[i], &b[i]) {
            proof {
                assert(session_views(a@)[i as int] != session_views(b@)[i as int]);
            }
            return false;
        }
        i = i + 1;
    }
    proof {
        assert(session_views(a@) =~= session_views(b@));
    }
    true
}

fn same_counts(a: &Vec<PaneCount>, b: &Vec<PaneCount>) -> (r: bool)
    ensures
        r == (count_views(a@) == count_views(b@)),
{
    if a.len() != b.len() {
        proof {
            assert(count_views(a@).len() != count_views(b@).len());
        }
        return false;
    }
    let mut i: usize = 0;
    while i < a.len()
        invariant
            i <= a@.len(),
            a@.len() == b@.len(),
            forall|j: int| 0 <= j < i ==> #[trigger] a@[j].view() == b@[j].view(),
        decreases a@.len() - i,
    {
        if !(a[i].session == b[i].session && a[i].windows == b[i].windows && a[i].panes == b[i].panes) {
            proof {
                assert(count_views(a@)[i as int] != count_views(b@)[i as int]);
            }
            return false;
        }
        i = i + 1;
    }
    proof {
        assert(count_views(a@) =~= count_views(b@));
    }
    true
}

/// The last session listing seen, with its window and pane counts.
pub struct TmuxMonitor {
    sessions: Vec<TmuxSession>,
    counts: Vec<PaneCount>,
}

impl TmuxMonitor {
    pub closed spec fn last_sessions(&self) -> Seq<(Seq<char>, bool, i64, u32, Seq<char>)> {
        session_views(self.sessions@)
    }

    pub closed spec fn last_counts(&self) -> Seq<(Seq<char>, usize, usize)> {
        count_views(self.counts@)
    }

    /// A monitor that has seen nothing yet.
    pub fn new() -> (r: Self)
        ensures
            r.last_sessions().len() == 0,
            r.last_counts().len() == 0,
    {
        TmuxMonitor { sessions: Vec::new(), counts: Vec::new() }
    }

    /// Records a new listing. Returns `true` (announce the new session list)
    /// when the sessions or the window and pane counts differ from the last
    /// listing; the new listing is kept in that case only.
    pub fn observe(&mut self, sessions: Vec<TmuxSession>, counts: Vec<PaneCount>) -> (r: bool)
        ensures
            r == (session_views(sessions@) != old(self).last_sessions() || count_views(counts@) != old(
                self,
            ).last_counts()),
            r ==> final(self).last_sessions() == session_views(sessions@) && final(self).last_counts()
                == count_views(counts@),
            !r ==> final(self).last_sessions() == old(self).last_sessions() && final(self).last_counts()
                == old(self).last_counts(),
    {
        let changed = !same_sessions(&self.sessions, &sessions) || !same_counts(&self.counts, &counts);
        if changed {
            self.sessions = sessions;
            self.counts = counts;
        }
        changed
    }

    /// The last listing seen.
    pub fn sessions(&self) -> (r: &Vec<TmuxSession>)
        ensures
            session_views(r@) == self.last_sessions(),
    {
        &self.sessions
    }
}

} // verus!
