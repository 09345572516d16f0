//! Enrichment orchestration: the decision core of the bounded-concurrency
//! run over every commenter.
//!
//! The orchestrator is a state machine. The caller's driver loop asks it to
//! dispatch (which yields the progress event to emit and the user to fetch,
//! and is refused while the concurrency cap is reached), performs the fetch,
//! and hands the outcome back; the machine collects one report row per
//! commenter, in completion order. Everything the driver may not get wrong —
//! the cap, the pacing value, progress numbering, exactly-once coverage, the
//! uniform failure policy — is stated and proved here.

use vstd::prelude::*;

use crate::error::Error;
use crate::profile::PttWebData;
use crate::report::UserReportData;

verus! {

/// The default cap on concurrently in-flight profile fetches.
pub const DEFAULT_CONCURRENT_LIMIT: usize = 10;

/// The minimum pacing delay the driver must await before each profile fetch,
/// in milliseconds.
pub const PROFILE_FETCH_DELAY_MS: u64 = 250;

/// A progress notification, emitted at dispatch time (not completion time):
/// the dispatch sequence number, the total number of commenters, and the
/// user being fetched. Delivery is best-effort and unacknowledged.
#[derive(Debug, Clone)]
pub struct ProgressEvent {
    pub current: usize,
    pub total: usize,
    pub user_id: String,
}

/// Merge one commenter's article count with the outcome of their
/// enrichment: a missing outcome retains the user with zero-valued fields.
pub fn merge_report(user: String, article_comments: u32, outcome: Option<PttWebData>) -> (r:
    UserReportData)
    ensures
        r.user == user,
        r.article_comments == article_comments,
        outcome matches Some(d) ==> r.board_comments == d.board_comments && r.total_comments
            == d.total_comments,
        outcome is None ==> r.board_comments@.len() == 0 && r.total_comments == 0,
{
    match outcome {
        Some(d) => UserReportData {
            user,
            article_comments,
            board_comments: d.board_comments,
            total_comments: d.total_comments,
        },
        None => UserReportData {
            user,
            article_comments,
            board_comments: Vec::new(),
            total_comments: 0,
        },
    }
}

/// The uniform per-user failure policy: a successful fetch keeps its data;
/// every error — user not found, parse failure, transport failure — retains
/// the user with zero-valued enrichment. No error aborts the batch.
pub fn resolve_profile_outcome(result: Result<PttWebData, Error>) -> (r: Option<PttWebData>)
    ensures
        result matches Ok(d) ==> r == Some(d),
        result is Err ==> r is None,
{
    match result {
        Ok(d) => Some(d),
        Err(_) => None,
    }
}

/// The enrichment run's state: the commenters (fixed at start), the
/// concurrency cap, how many fetches were dispatched, which of them are
/// still in flight, and the finished report rows.
pub struct Orchestrator {
    pub users: Vec<(String, u32)>,
    pub cap: usize,
    pub next: usize,
    pub pending: Vec<usize>,
    pub done: Vec<UserReportData>,
    pub done_src: Ghost<Seq<int>>,
}

impl Orchestrator {
    /// The commenters the run covers, with their article comment counts.
    pub open spec fn users_view(self) -> Seq<(String, u32)> {
        self.users@
    }

    /// The concurrency cap.
    pub open spec fn cap_spec(self) -> int {
        self.cap as int
    }

    /// How many fetches were dispatched so far.
    pub open spec fn dispatched(self) -> int {
        self.next as int
    }

    /// How many fetches are in flight: dispatched and not yet completed.
    pub open spec fn in_flight(self) -> int {
        self.pending@.len() as int
    }

    /// The finished report rows, in completion order.
    pub open spec fn done_rows(self) -> Seq<UserReportData> {
        self.done@
    }

    /// For each finished row, the index of its commenter.
    pub open spec fn done_sources(self) -> Seq<int> {
        self.done_src@
    }

    /// The state invariant: at most `cap` fetches in flight; dispatched
    /// indices are split exactly between in-flight and finished, each index
    /// at most once; every finished row carries its commenter's id and
    /// article count.
    pub open spec fn wf(self) -> bool {
        &&& self.cap >= 1
        &&& self.next <= self.users@.len()
        &&& self.pending@.len() <= self.cap
        &&& self.done_src@.len() == self.done@.len()
        &&& self.pending@.len() + self.done@.len() == self.next
        &&& forall|k: int| 0 <= k < self.pending@.len() ==> #[trigger] self.pending@[k] < self.next
        &&& forall|k: int|
            0 <= k < self.done_src@.len() ==> 0 <= #[trigger] self.done_src@[k] < self.next
        &&& forall|k1: int, k2: int|
            0 <= k1 < k2 < self.pending@.len() ==> self.pending@[k1] != self.pending@[k2]
        &&& forall|k1: int, k2: int|
            0 <= k1 < k2 < self.done_src@.len() ==> self.done_src@[k1] != self.done_src@[k2]
        &&& forall|k1: int, k2: int|
            0 <= k1 < self.pending@.len() && 0 <= k2 < self.done_src@.len()
                ==> #[trigger] self.pending@[k1] as int != #[trigger] self.done_src@[k2]
        &&& forall|k: int|
            0 <= k < self.done@.len() ==> (#[trigger] self.done@[k]).user@
                == self.users@[self.done_src@[k]].0@ && self.done@[k].article_comments
                == self.users@[self.done_src@[k]].1
    }

    /// Start a run over `users` with concurrency cap `cap`.
    pub fn new(users: Vec<(String, u32)>, cap: usize) -> (r: Orchestrator)
        requires
            cap >= 1,
        ensures
            r.wf(),
            r.users_view() == users@,
            r.cap_spec() == cap,
            r.dispatched() == 0,
            r.in_flight() == 0,
            r.done_rows() == Seq::<UserReportData>::empty(),
    {
        Orchestrator {
            users,
            cap,
            next: 0,
            pending: Vec::new(),
            done: Vec::new(),
            done_src: Ghost(Seq::empty()),
        }
    }

    /// Whether a fetch may be dispatched now: commenters remain and the cap
    /// is not reached.
    pub open spec fn can_dispatch(self) -> bool {
        self.dispatched() < self.users_view().len() && self.in_flight() < self.cap_spec()
    }

    /// Whether every commenter was dispatched and every fetch completed.
    pub open spec fn is_finished(self) -> bool {
        self.dispatched() == self.users_view().len() && self.in_flight() == 0
    }

    /// Whether a fetch may be dispatched now.
    pub fn can_dispatch_now(&self) -> (r: bool)
        ensures
            r == self.can_dispatch(),
    {
        self.next < self.users.len() && self.pending.len() < self.cap
    }

    /// Whether the run is finished.
    pub fn finished(&self) -> (r: bool)
        ensures
            r == self.is_finished(),
    {
        self.next == self.users.len() && self.pending.len() == 0
    }

    /// Dispatch the next commenter's fetch, when the cap allows one: the
    /// returned event carries the dispatch sequence number (starting at
    /// one), the total, and the user id to fetch; the driver emits the
    /// event (best-effort), waits the pacing delay, and performs the fetch.
    /// At the cap, or with no commenter left, nothing changes.
    pub fn dispatch(&mut self) -> (r: Option<ProgressEvent>)
        requires
            old(self).wf(),
        ensures
            final(self).wf(),
            final(self).users_view() == old(self).users_view(),
            final(self).cap_spec() == old(self).cap_spec(),
            !old(self).can_dispatch() ==> r is None && *final(self) == *old(self),
            old(self).can_dispatch() ==> (r matches Some(ev) && ev.current == old(self).dispatched()
                + 1 && ev.total == old(self).users_view().len() && ev.user_id@ == old(
                self,
            ).users_view()[old(self).dispatched()].0@),
            old(self).can_dispatch() ==> final(self).dispatched() == old(self).dispatched() + 1
                && final(self).in_flight() == old(self).in_flight() + 1 && final(self).done_rows()
                == old(self).done_rows() && final(self).done_sources() == old(self).done_sources(),
    {
        if self.next < self.users.len() && self.pending.len() < self.cap {
            let idx = self.next;
            let user_id = self.users[idx].0.clone();
            self.pending.push(idx);
            self.next = idx + 1;
            proof {
                assert(forall|k: int|
                    0 <= k < old(self).pending@.len() ==> #[trigger] self.pending@[k] == old(
                        self,
                    ).pending@[k]);
            }
            Some(ProgressEvent { current: idx + 1, total: self.users.len(), user_id })
        } else {
            None
        }
    }

    /// Record the outcome of the fetch dispatched for commenter `index`:
    /// the fetch leaves flight, and one report row is appended, pairing the
    /// commenter's article count with the outcome (zero-valued enrichment
    /// when the outcome is absent, per the uniform failure policy). An
    /// index not in flight is refused and changes nothing.
    pub fn complete(&mut self, index: usize, outcome: Option<PttWebData>) -> (r: bool)
        requires
            old(self).wf(),
        ensures
            final(self).wf(),
            final(self).users_view() == old(self).users_view(),
            final(self).cap_spec() == old(self).cap_spec(),
            r == old(self).pending@.contains(index),
            !r ==> *final(self) == *old(self),
            r ==> final(self).dispatched() == old(self).dispatched() && final(self).in_flight()
                == old(self).in_flight() - 1 && final(self).done_sources() == old(
                self,
            ).done_sources().push(index as int) && final(self).done_rows().len() == old(
                self,
            ).done_rows().len() + 1,
            r ==> final(self).done_rows() =~= old(self).done_rows().push(
                final(self).done_rows().last(),
            ) && final(self).done_rows().last().user@ == old(self).users_view()[index as int].0@
                && final(self).done_rows().last().article_comments == old(
                self,
            ).users_view()[index as int].1,
            r ==> (outcome matches Some(d) ==> final(self).done_rows().last().board_comments
                == d.board_comments && final(self).done_rows().last().total_comments
                == d.total_comments),
            r ==> (outcome is None ==> final(self).done_rows().last().board_comments@.len() == 0
                && final(self).done_rows().last().total_comments == 0),
    {
        let mut pos: usize = 0;
        let mut found = false;
        while pos < self.pending.len() && !found
            invariant
                0 <= pos <= self.pending@.len(),
                !found ==> forall|k: int| 0 <= k < pos ==> self.pending@[k] != index,
                found ==> pos < self.pending@.len() && self.pending@[pos as int] == index,
            decreases self.pending@.len() - pos + (if found {
                0int
            } else {
                1int
            }),
        {
            if self.pending[pos] == index {
                found = true;
            } else {
                pos = pos + 1;
            }
        }
        if !found {
            proof {
                assert(!old(self).pending@.contains(index));
            }
            return false;
        }
        proof {
            assert(old(self).pending@.contains(index));
        }
        let ghost pre = *self;
        self.pending.remove(pos);
        let user_id = self.users[index].0.clone();
        let article_comments = self.users[index].1;
        let row = merge_report(user_id, article_comments, outcome);
        self.done.push(row);
        proof {
            self.done_src@ = pre.done_src@.push(index as int);
        }
        proof {
            assert(forall|k: int|
                0 <= k < self.pending@.len() ==> #[trigger] self.pending@[k] == (if k < pos {
                    pre.pending@[k]
                } else {
                    pre.pending@[k + 1]
                }));
            assert(forall|k: int|
                0 <= k < pre.done@.len() ==> #[trigger] self.done@[k] == pre.done@[k]);
        }
        true
    }

    /// Hand the finished rows out, one per commenter, in completion order.
    pub fn into_reports(self) -> (r: Vec<UserReportData>)
        requires
            self.wf(),
            self.is_finished(),
        ensures
            r@ == self.done_rows(),
            r@.len() == self.users_view().len(),
    {
        self.done
    }
}

/// The concurrency bound: in every reachable state, the number of in-flight
/// fetches never exceeds the cap, and a dispatch at the cap is refused.
pub proof fn lemma_in_flight_bounded(o: Orchestrator)
    requires
        o.wf(),
    ensures
        o.in_flight() <= o.cap_spec(),
        o.in_flight() == o.cap_spec() ==> !o.can_dispatch(),
{
}

/// Whether some position of `src` names the commenter index `u`.
pub open spec fn covers(src: Seq<int>, u: int) -> bool {
    exists|k: int| 0 <= k < src.len() && #[trigger] src[k] == u
}

/// A finished run covers every commenter exactly once: there is one report
/// row per commenter, each commenter index is the source of exactly one
/// row, and each row carries that commenter's id and article count.
pub proof fn lemma_finished_covers_all(o: Orchestrator)
    requires
        o.wf(),
        o.is_finished(),
    ensures
        o.done_rows().len() == o.users_view().len(),
        o.done_sources().len() == o.users_view().len(),
        forall|u: int| 0 <= u < o.users_view().len() ==> #[trigger] covers(o.done_sources(), u),
        forall|k1: int, k2: int|
            0 <= k1 < k2 < o.done_sources().len() ==> o.done_sources()[k1] != o.done_sources()[k2],
        forall|k: int|
            0 <= k < o.done_rows().len() ==> (#[trigger] o.done_rows()[k]).user@
                == o.users_view()[o.done_sources()[k]].0@ && o.done_rows()[k].article_comments
                == o.users_view()[o.done_sources()[k]].1,
{
    let n = o.users_view().len() as int;
    let src = o.done_sources();
    assert(src.no_duplicates());
    src.unique_seq_to_set();
    let s = src.to_set();
    let range = vstd::set_lib::set_int_range(0, n);
    vstd::set_lib::lemma_int_range(0, n);
    assert forall|u: int| 0 <= u < n implies #[trigger] covers(src, u) by {
        if !s.contains(u) {
            assert(s.subset_of(range.remove(u)));
            assert(range.remove(u).len() == n - 1);
            vstd::set_lib::lemma_len_subset(s, range.remove(u));
            assert(false);
        }
        assert(src.contains(u));
        let k = choose|k: int| 0 <= k < src.len() && src[k] == u;
        assert(0 <= k < src.len() && src[k] == u);
        assert(covers(src, u));
    }
}

} // verus!
