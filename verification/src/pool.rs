//! The dispatcher's bookkeeping: session affinity, round robin, and the
//! eviction of idle sessions by capacity and by age.

use vstd::prelude::*;
use std::collections::VecDeque;
use tokio::time::Instant;
use crate::clock::{instant_now, millis_since};
use crate::envelope::{Dispatch, InferenceJob};
use crate::model::{
    age, holds, index_of, lemma_index_of, lemma_stale_prefix_unique, lemma_without, without,
    PoolView, SessionView,
};

verus! {

/// The capacity of the session table unless the pool is made with another.
pub const MAX_SESSION: usize = 10;

/// How long a session may stay idle, in milliseconds, unless the pool is
/// made with another limit: thirty minutes.
pub const SESSION_TTL: u64 = 1_800_000;

/// Where a session is pinned, and when it was last touched, in
/// milliseconds on the pool's clock.
#[derive(Clone, Copy, Debug, PartialEq, Eq)]
pub struct Sticky {
    pub worker: usize,
    pub last_used: u64,
}

struct Session {
    id: String,
    worker: usize,
    last_used: u64,
}

impl View for Session {
    type V = SessionView;

    closed spec fn view(&self) -> SessionView {
        SessionView { id: self.id@, worker: self.worker as nat, last_used: self.last_used as nat }
    }
}

/// The dispatcher of a pool of `worker_count` workers: the session table,
/// the round-robin cursor and the limits of the table. Times are counted
/// in milliseconds from the moment the pool was made.
///
/// The table is one queue of rows in the order of their use, searched
/// from the old end. A pool keeps few sessions, so the search is cheap,
/// and one structure cannot disagree with itself as a map beside a queue
/// could.
pub struct WorkerPool {
    worker_count: usize,
    max_sessions: usize,
    session_ttl: u64,
    next: usize,
    sessions: VecDeque<Session>,
    started: Instant,
}

impl View for WorkerPool {
    type V = PoolView;

    closed spec fn view(&self) -> PoolView {
        PoolView {
            worker_count: self.worker_count as nat,
            max_sessions: self.max_sessions as nat,
            session_ttl: self.session_ttl as nat,
            cursor: self.next as nat,
            sessions: self.sessions@.map_values(|s: Session| s@),
        }
    }
}

fn is_expired(now: u64, last_used: u64, ttl: u64) -> (r: bool)
    ensures
        r == (age(now as nat, last_used as nat) > ttl),
{
    now > last_used && now - last_used > ttl
}

impl WorkerPool {
    /// A pool of `worker_count` workers that keeps at most `max_sessions`
    /// sticky sessions, each for at most `session_ttl` milliseconds of
    /// idleness. A pool needs a worker: round robin divides by their
    /// number.
    pub fn new(worker_count: usize, max_sessions: usize, session_ttl: u64) -> (pool: WorkerPool)
        requires
            worker_count >= 1,
        ensures
            pool@ == PoolView::fresh(worker_count as nat, max_sessions as nat, session_ttl as nat),
            pool@.wf(),
    {
        let pool = WorkerPool {
            worker_count,
            max_sessions,
            session_ttl,
            next: 0,
            sessions: VecDeque::new(),
            started: instant_now(),
        };
        assert(pool@.sessions =~= Seq::empty());
        pool
    }

    /// A pool of `worker_count` workers with the usual limits: room for
    /// `MAX_SESSION` sessions, each kept for `SESSION_TTL` milliseconds of
    /// idleness.
    pub fn with_defaults(worker_count: usize) -> (pool: WorkerPool)
        requires
            worker_count >= 1,
        ensures
            pool@ == PoolView::fresh(worker_count as nat, MAX_SESSION as nat, SESSION_TTL as nat),
            pool@.wf(),
    {
        WorkerPool::new(worker_count, MAX_SESSION, SESSION_TTL)
    }

    /// The number of workers.
    pub fn worker_count(&self) -> (n: usize)
        ensures
            n == self@.worker_count,
    {
        self.worker_count
    }

    /// The capacity of the session table.
    pub fn max_sessions(&self) -> (n: usize)
        ensures
            n == self@.max_sessions,
    {
        self.max_sessions
    }

    /// The time to live of an idle session, in milliseconds.
    pub fn session_ttl(&self) -> (millis: u64)
        ensures
            millis == self@.session_ttl,
    {
        self.session_ttl
    }

    /// The round-robin cursor.
    pub fn cursor(&self) -> (next: usize)
        ensures
            next == self@.cursor,
    {
        self.next
    }

    /// The number of sessions in the table.
    pub fn len(&self) -> (n: usize)
        ensures
            n == self@.sessions.len(),
    {
        self.sessions.len()
    }

    /// Whether the table is empty.
    pub fn is_empty(&self) -> (empty: bool)
        ensures
            empty == (self@.sessions.len() == 0),
    {
        self.sessions.len() == 0
    }

    /// The row of `session_id` in the affinity table, if it has one.
    pub fn sticky(&self, session_id: &str) -> (row: Option<Sticky>)
        requires
            self@.wf(),
        ensures
            match row {
                Some(sticky) => self@.sticky().contains_key(session_id@)
                    && self@.sticky()[session_id@].worker == sticky.worker
                    && self@.sticky()[session_id@].last_used == sticky.last_used,
                None => !self@.sticky().contains_key(session_id@),
            },
    {
        let key = session_id.to_owned();
        match self.find(&key) {
            Some(i) => {
                assert(self@.sessions[i as int] == self.sessions@[i as int]@);
                Some(Sticky { worker: self.sessions[i].worker, last_used: self.sessions[i].last_used })
            },
            None => None,
        }
    }

    /// The recency queue: the sessions of the table, least recently
    /// touched first.
    pub fn recency(&self) -> (ids: Vec<String>)
        ensures
            ids@.len() == self@.recency().len(),
            forall|i: int| 0 <= i < ids@.len() ==> (#[trigger] ids@[i])@ == self@.recency()[i],
    {
        let mut ids: Vec<String> = Vec::new();
        let mut i: usize = 0;
        while i < self.sessions.len()
            invariant
                i <= self.sessions@.len(),
                ids@.len() == i,
                self@.recency().len() == self.sessions@.len(),
                forall|j: int| 0 <= j < i ==> (#[trigger] ids@[j])@ == self@.recency()[j],
            decreases self.sessions@.len() - i,
        {
            assert(self@.recency()[i as int] == self.sessions@[i as int]@.id);
            ids.push(self.sessions[i].id.clone());
            i = i + 1;
        }
        ids
    }

    /// The maintenance pass at time `now`: drops the expired sessions at
    /// the old end of the table, up to the first one that is still alive.
    pub fn prune_stale_at(&mut self, now: u64)
        requires
            old(self)@.wf(),
        ensures
            final(self)@ == old(self)@.pruned(now as nat),
            final(self)@.wf(),
    {
        let ghost before = self@;
        let ghost mut k: int = 0;
        assert(before.sessions.skip(0) =~= before.sessions);
        loop
            invariant
                0 <= k <= before.sessions.len(),
                self@.sessions == before.sessions.skip(k),
                self@.worker_count == before.worker_count,
                self@.max_sessions == before.max_sessions,
                self@.session_ttl == before.session_ttl,
                self@.cursor == before.cursor,
                forall|i: int|
                    0 <= i < k ==> (#[trigger] before.sessions[i]).expired(
                        now as nat,
                        before.session_ttl,
                    ),
            ensures
                k == before.sessions.len() || !before.sessions[k].expired(
                    now as nat,
                    before.session_ttl,
                ),
            decreases self.sessions.len(),
        {
            assert(self@.sessions.len() == self.sessions@.len());
            assert(before.sessions.skip(k).len() == before.sessions.len() - k);
            if self.sessions.len() == 0 {
                break ;
            }
            assert(self@.sessions[0] == self.sessions@[0]@);
            assert(before.sessions.skip(k)[0] == before.sessions[k]);
            if !is_expired(now, self.sessions[0].last_used, self.session_ttl) {
                break ;
            }
            let ghost prev = self.sessions@;
            self.sessions.pop_front();
            proof {
                assert(self.sessions@ =~= prev.skip(1));
                assert forall|i: int| 0 <= i < self@.sessions.len() implies self@.sessions[i]
                    == before.sessions.skip(k + 1)[i] by {
                    assert(self@.sessions[i] == self.sessions@[i]@);
                    assert(self.sessions@[i] == prev[i + 1]);
                    assert(prev[i + 1]@ == before.sessions.skip(k)[i + 1]);
                }
                assert(self@.sessions =~= before.sessions.skip(k + 1));
                k = k + 1;
            }
        }
        proof {
            lemma_stale_prefix_unique(before.sessions, now as nat, before.session_ttl, k);
        }
    }

    /// The maintenance pass at the present time, read from the pool's
    /// clock.
    pub fn prune_stale(&mut self)
        requires
            old(self)@.wf(),
        ensures
            exists|now: nat| now <= u64::MAX && final(self)@ == #[trigger] old(self)@.pruned(now),
            final(self)@.wf(),
    {
        let now = millis_since(&self.started);
        self.prune_stale_at(now);
    }

    /// The place of `key` in the table, if it has a row.
    fn find(&self, key: &String) -> (found: Option<usize>)
        requires
            self@.wf(),
        ensures
            match found {
                Some(i) => holds(self@.sessions, key@) && index_of(self@.sessions, key@) == i
                    && i < self.sessions@.len(),
                None => !holds(self@.sessions, key@),
            },
    {
        let mut i: usize = 0;
        while i < self.sessions.len()
            invariant
                i <= self.sessions@.len(),
                self@.sessions.len() == self.sessions@.len(),
                forall|j: int| 0 <= j < i ==> (#[trigger] self@.sessions[j]).id != key@,
                self@.wf(),
            decreases self.sessions@.len() - i,
        {
            assert(self@.sessions[i as int] == self.sessions@[i as int]@);
            if self.sessions[i].id == *key {
                proof {
                    lemma_index_of(self@.sessions, key@, i as int);
                }
                return Some(i);
            }
            i = i + 1;
        }
        None
    }

    /// Records that `session_id` was served by `worker` at `now`: its row
    /// becomes the newest, and where a new row makes the table too large
    /// the oldest row leaves. A row can only name a worker of the pool.
    pub fn hit_session(&mut self, session_id: &str, worker: usize, now: u64)
        requires
            old(self)@.wf(),
            worker < old(self)@.worker_count,
        ensures
            final(self)@ == old(self)@.touched(session_id@, worker as nat, now as nat),
            final(self)@.wf(),
    {
        let key = session_id.to_owned();
        let ghost before = self@;
        let ghost row = SessionView { id: key@, worker: worker as nat, last_used: now as nat };
        proof {
            before.lemma_touched(key@, worker as nat, now as nat);
            lemma_without(before.sessions, key@);
        }
        match self.find(&key) {
            Some(i) => {
                let ghost prev = self.sessions@;
                self.sessions.remove(i);
                assert(self@.sessions =~= before.sessions.remove(i as int)) by {
                    assert forall|j: int| 0 <= j < self@.sessions.len() implies self@.sessions[j]
                        == before.sessions.remove(i as int)[j] by {
                        assert(self@.sessions[j] == self.sessions@[j]@);
                        let a = if j < i { j } else { j + 1 };
                        assert(self.sessions@[j] == prev[a]);
                        assert(before.sessions[a] == prev[a]@);
                    }
                }
                let ghost mid = self.sessions@;
                self.sessions.push_back(Session { id: key, worker, last_used: now });
                assert(self@.sessions =~= without(before.sessions, key@).push(row)) by {
                    assert forall|j: int| 0 <= j < self@.sessions.len() implies self@.sessions[j]
                        == without(before.sessions, key@).push(row)[j] by {
                        assert(self@.sessions[j] == self.sessions@[j]@);
                        if j < mid.len() {
                            assert(self.sessions@[j] == mid[j]);
                        }
                    }
                }
            },
            None => {
                let ghost prev = self.sessions@;
                if self.sessions.len() >= self.max_sessions {
                    self.sessions.pop_front();
                }
                let ghost mid = self.sessions@;
                if self.max_sessions > 0 {
                    self.sessions.push_back(Session { id: key, worker, last_used: now });
                }
                assert(self@.sessions =~= before.touched(
                    row.id,
                    worker as nat,
                    now as nat,
                ).sessions) by {
                    let goal = before.touched(row.id, worker as nat, now as nat).sessions;
                    assert(prev.len() == before.sessions.len());
                    assert(self@.sessions.len() == goal.len());
                    assert forall|j: int| 0 <= j < self@.sessions.len() implies self@.sessions[j]
                        == goal[j] by {
                        assert(self@.sessions[j] == self.sessions@[j]@);
                        if j < mid.len() {
                            assert(self.sessions@[j] == mid[j]);
                            if prev.len() >= before.max_sessions {
                                assert(mid[j] == prev[j + 1]);
                                assert(before.sessions[j + 1] == prev[j + 1]@);
                            } else {
                                assert(mid[j] == prev[j]);
                                assert(before.sessions[j] == prev[j]@);
                            }
                        }
                    }
                }
            },
        }
    }

    /// The dispatcher's part of `accept` at time `now`: a maintenance
    /// pass, the choice of the worker (the session's own if it has a live
    /// row, else the next by round robin), and the session touched. The
    /// result tells the runtime on which worker's queue to put the job;
    /// the job carries `reply_tx`, the handle for its reply.
    ///
    /// The maintenance pass runs at the start of every call, so that the
    /// table is kept without a timer. A call can therefore drop several
    /// rows, also where its own session has one: the expired rows at the
    /// old end. Beyond those it drops at most the oldest row, and only to
    /// make room for a session that had none. The call itself never
    /// blocks: the runtime queues the job and waits for the reply after it
    /// has let go of the pool.
    pub fn accept_at<R>(
        &mut self,
        prompt: String,
        sample_len: usize,
        session_id: &str,
        reply_tx: R,
        now: u64,
    ) -> (dispatch: Dispatch<R>)
        requires
            old(self)@.wf(),
        ensures
            final(self)@ == old(self)@.accepted(session_id@, now as nat),
            final(self)@.wf(),
            dispatch.worker == old(self)@.assigned(session_id@, now as nat),
            dispatch.worker < old(self)@.worker_count,
            dispatch.job.prompt@ == prompt@,
            dispatch.job.session_id@ == session_id@,
            dispatch.job.sample_len == sample_len,
            dispatch.job.reply_tx == reply_tx,
    {
        let ghost before = self@;
        proof {
            before.lemma_pruned(now as nat);
            before.lemma_accepted(session_id@, now as nat);
        }
        self.prune_stale_at(now);
        let ghost pruned = self@;
        let key = session_id.to_owned();
        let mut hit: Option<usize> = None;
        match self.find(&key) {
            Some(i) => {
                assert(self@.sessions[i as int] == self.sessions@[i as int]@);
                if !is_expired(now, self.sessions[i].last_used, self.session_ttl) {
                    hit = Some(self.sessions[i].worker);
                }
            },
            None => {},
        }
        let worker = match hit {
            Some(worker) => worker,
            None => {
                let worker = self.next % self.worker_count;
                self.next = if self.next == usize::MAX {
                    0
                } else {
                    self.next + 1
                };
                worker
            },
        };
        assert(self@.sessions =~= pruned.sessions);
        self.hit_session(session_id, worker, now);
        Dispatch {
            worker,
            job: InferenceJob { prompt, session_id: session_id.to_owned(), sample_len, reply_tx },
        }
    }

    /// The dispatcher's part of `accept` at the present time, read from
    /// the pool's clock. Whatever the clock says, the pool moves as
    /// `accept_at` would move it at that time.
    pub fn accept<R>(
        &mut self,
        prompt: String,
        sample_len: usize,
        session_id: &str,
        reply_tx: R,
    ) -> (dispatch: Dispatch<R>)
        requires
            old(self)@.wf(),
        ensures
            exists|now: nat|
                now <= u64::MAX && final(self)@ == #[trigger] old(self)@.accepted(session_id@, now)
                    && dispatch.worker == old(self)@.assigned(session_id@, now),
            final(self)@.wf(),
            dispatch.worker < old(self)@.worker_count,
            dispatch.job.prompt@ == prompt@,
            dispatch.job.session_id@ == session_id@,
            dispatch.job.sample_len == sample_len,
            dispatch.job.reply_tx == reply_tx,
    {
        let now = millis_since(&self.started);
        self.accept_at(prompt, sample_len, session_id, reply_tx, now)
    }
}

} // verus!
