//! The mathematical model of the dispatcher's bookkeeping.
//!
//! A pool is a fixed number of workers, a round-robin cursor and a table of
//! sticky sessions. The table is one sequence, ordered from the least to the
//! most recently touched session: the affinity table and the recency queue
//! are two readings of it (`sticky` and `recency`), so they can never
//! disagree.

use vstd::prelude::*;

verus! {

/// How long ago `last_used` was, seen from `now`. A `last_used` that lies
/// in the future counts as age zero.
pub open spec fn age(now: nat, last_used: nat) -> nat {
    if now >= last_used {
        (now - last_used) as nat
    } else {
        0
    }
}

/// The cursor after one round-robin assignment: one further, wrapping to
/// zero past the largest `usize`.
pub open spec fn advance(cursor: nat) -> nat {
    if cursor >= usize::MAX {
        0
    } else {
        cursor + 1
    }
}

/// The cursor after `n` round-robin assignments.
pub open spec fn advanced(cursor: nat, n: nat) -> nat
    decreases n,
{
    if n == 0 {
        cursor
    } else {
        advance(advanced(cursor, (n - 1) as nat))
    }
}

/// One row of the session table.
pub struct SessionView {
    pub id: Seq<char>,
    pub worker: nat,
    pub last_used: nat,
}

impl SessionView {
    /// The row has been idle for longer than `ttl` at time `now`.
    pub open spec fn expired(self, now: nat, ttl: nat) -> bool {
        age(now, self.last_used) > ttl
    }
}

/// Some row of `sessions` belongs to `id`.
pub open spec fn holds(sessions: Seq<SessionView>, id: Seq<char>) -> bool {
    exists|i: int| 0 <= i < sessions.len() && (#[trigger] sessions[i]).id == id
}

/// The place of `id` in `sessions`, where `holds(sessions, id)`.
pub open spec fn index_of(sessions: Seq<SessionView>, id: Seq<char>) -> int {
    choose|i: int| 0 <= i < sessions.len() && (#[trigger] sessions[i]).id == id
}

/// No session has two rows.
pub open spec fn distinct_ids(sessions: Seq<SessionView>) -> bool {
    forall|i: int, j: int|
        0 <= i < j < sessions.len() ==> (#[trigger] sessions[i]).id != (#[trigger] sessions[j]).id
}

/// `sessions` without the row of `id`, if it has one.
pub open spec fn without(sessions: Seq<SessionView>, id: Seq<char>) -> Seq<SessionView> {
    if holds(sessions, id) {
        sessions.remove(index_of(sessions, id))
    } else {
        sessions
    }
}

/// The number of rows at the old end of `sessions` that are expired at
/// `now`: the rows before the first one that is still alive.
pub open spec fn stale_prefix(sessions: Seq<SessionView>, now: nat, ttl: nat) -> nat
    decreases sessions.len(),
{
    if sessions.len() > 0 && sessions[0].expired(now, ttl) {
        1 + stale_prefix(sessions.drop_first(), now, ttl)
    } else {
        0
    }
}

/// One call of `accept`: the session it names and the time it is made at.
pub struct Call {
    pub session: Seq<char>,
    pub now: nat,
}

/// What the dispatcher knows between two calls.
pub struct PoolView {
    pub worker_count: nat,
    pub max_sessions: nat,
    pub session_ttl: nat,
    pub cursor: nat,
    /// The sticky sessions, least recently touched first.
    pub sessions: Seq<SessionView>,
}

impl PoolView {
    /// The invariant of the bookkeeping: there is a worker to assign, the
    /// table is within its capacity, no session occurs twice in it, and
    /// every row names an existing worker.
    pub open spec fn wf(self) -> bool {
        &&& 1 <= self.worker_count <= usize::MAX
        &&& self.cursor <= usize::MAX
        &&& self.max_sessions <= usize::MAX
        &&& self.session_ttl <= u64::MAX
        &&& self.sessions.len() <= self.max_sessions
        &&& distinct_ids(self.sessions)
        &&& forall|i: int|
            0 <= i < self.sessions.len() ==> {
                &&& (#[trigger] self.sessions[i]).worker < self.worker_count
                &&& self.sessions[i].last_used <= u64::MAX
            }
    }

    /// A pool that has seen no call yet.
    pub open spec fn fresh(worker_count: nat, max_sessions: nat, session_ttl: nat) -> PoolView {
        PoolView { worker_count, max_sessions, session_ttl, cursor: 0, sessions: Seq::empty() }
    }

    /// The affinity table: each session in the table, with its row.
    pub open spec fn sticky(self) -> Map<Seq<char>, SessionView> {
        Map::new(
            |id: Seq<char>| holds(self.sessions, id),
            |id: Seq<char>| self.sessions[index_of(self.sessions, id)],
        )
    }

    /// The recency queue: the session ids, least recently touched first.
    pub open spec fn recency(self) -> Seq<Seq<char>> {
        self.sessions.map_values(|s: SessionView| s.id)
    }

    /// The pool after a maintenance pass at `now`: the expired rows at the
    /// old end are gone, up to the first row that is still alive.
    pub open spec fn pruned(self, now: nat) -> PoolView {
        PoolView {
            sessions: self.sessions.skip(
                stale_prefix(self.sessions, now, self.session_ttl) as int,
            ),
            ..self
        }
    }

    /// `id` has a row that is not expired at `now`.
    pub open spec fn hits(self, id: Seq<char>, now: nat) -> bool {
        holds(self.sessions, id) && !self.sessions[index_of(self.sessions, id)].expired(
            now,
            self.session_ttl,
        )
    }

    /// The worker for a call of `id` at `now`, without a maintenance pass:
    /// the recorded one on a hit, else the one under the cursor.
    pub open spec fn resolve(self, id: Seq<char>, now: nat) -> nat {
        if self.hits(id, now) {
            self.sessions[index_of(self.sessions, id)].worker
        } else {
            self.cursor % self.worker_count
        }
    }

    /// The table after `id` was touched at `now` on `worker`: its row is
    /// the newest, and if that made the table too large the oldest row is
    /// gone.
    pub open spec fn touched(self, id: Seq<char>, worker: nat, now: nat) -> PoolView {
        let grown = without(self.sessions, id).push(SessionView { id, worker, last_used: now });
        PoolView {
            sessions: if grown.len() > self.max_sessions {
                grown.drop_first()
            } else {
                grown
            },
            ..self
        }
    }

    /// The worker that `accept` chooses for `id` at `now`.
    pub open spec fn assigned(self, id: Seq<char>, now: nat) -> nat {
        self.pruned(now).resolve(id, now)
    }

    /// The pool after `accept` for `id` at `now`: a maintenance pass, the
    /// choice of a worker, the cursor moved on if the choice was by round
    /// robin, and the session touched.
    pub open spec fn accepted(self, id: Seq<char>, now: nat) -> PoolView {
        let p = self.pruned(now);
        let q = PoolView {
            cursor: if p.hits(id, now) {
                p.cursor
            } else {
                advance(p.cursor)
            },
            ..p
        };
        q.touched(id, p.resolve(id, now), now)
    }

    /// The pool after the calls of `calls`, made in order.
    pub open spec fn after(self, calls: Seq<Call>) -> PoolView
        decreases calls.len(),
    {
        if calls.len() == 0 {
            self
        } else {
            self.after(calls.drop_last()).accepted(calls.last().session, calls.last().now)
        }
    }

    /// The worker chosen for the call number `i` of `calls`, made in order
    /// from this pool.
    pub open spec fn nth_worker(self, calls: Seq<Call>, i: int) -> nat {
        self.after(calls.take(i)).assigned(calls[i].session, calls[i].now)
    }
}

/// The length of the stale prefix is the one `k` with every row before `k`
/// expired and the row at `k`, if there is one, alive.
pub proof fn lemma_stale_prefix_unique(sessions: Seq<SessionView>, now: nat, ttl: nat, k: int)
    requires
        0 <= k <= sessions.len(),
        forall|i: int| 0 <= i < k ==> (#[trigger] sessions[i]).expired(now, ttl),
        k == sessions.len() || !sessions[k].expired(now, ttl),
    ensures
        stale_prefix(sessions, now, ttl) == k,
    decreases sessions.len(),
{
    if k > 0 {
        let rest = sessions.drop_first();
        assert forall|i: int| 0 <= i < k - 1 implies (#[trigger] rest[i]).expired(now, ttl) by {
            assert(rest[i] == sessions[i + 1]);
        }
        if k < sessions.len() {
            assert(rest[k - 1] == sessions[k]);
        }
        lemma_stale_prefix_unique(rest, now, ttl, k - 1);
    }
}

/// In a table without repeated sessions, the row that belongs to `id` is
/// the one at `index_of`.
pub proof fn lemma_index_of(sessions: Seq<SessionView>, id: Seq<char>, i: int)
    requires
        distinct_ids(sessions),
        0 <= i < sessions.len(),
        sessions[i].id == id,
    ensures
        holds(sessions, id),
        index_of(sessions, id) == i,
{
    let j = index_of(sessions, id);
    if j < i {
        assert(sessions[j].id != sessions[i].id);
    } else if i < j {
        assert(sessions[i].id != sessions[j].id);
    }
}

/// Taking the row of `id` out leaves a table without repeated sessions in
/// which `id` has no row, and every other row where it was, in order.
pub proof fn lemma_without(sessions: Seq<SessionView>, id: Seq<char>)
    requires
        distinct_ids(sessions),
    ensures
        distinct_ids(without(sessions, id)),
        !holds(without(sessions, id), id),
        without(sessions, id).len() == sessions.len() - (if holds(sessions, id) {
            1int
        } else {
            0int
        }),
        forall|other: Seq<char>|
            other != id ==> (holds(without(sessions, id), other) <==> holds(sessions, other)),
        forall|i: int|
            0 <= i < without(sessions, id).len() ==> sessions.contains(
                #[trigger] without(sessions, id)[i],
            ),
{
    let rest = without(sessions, id);
    if holds(sessions, id) {
        let k = index_of(sessions, id);
        assert forall|i: int, j: int| 0 <= i < j < rest.len() implies (#[trigger] rest[i]).id != (
        #[trigger] rest[j]).id by {
            let a = if i < k { i } else { i + 1 };
            let b = if j < k { j } else { j + 1 };
            assert(rest[i] == sessions[a]);
            assert(rest[j] == sessions[b]);
        }
        if holds(rest, id) {
            let i = index_of(rest, id);
            let a = if i < k { i } else { i + 1 };
            assert(rest[i] == sessions[a]);
            if a < k {
                assert(sessions[a].id != sessions[k].id);
            } else {
                assert(sessions[k].id != sessions[a].id);
            }
        }
        assert forall|other: Seq<char>| other != id implies (holds(rest, other) <==> holds(
            sessions,
            other,
        )) by {
            if holds(rest, other) {
                let i = index_of(rest, other);
                let a = if i < k { i } else { i + 1 };
                assert(rest[i] == sessions[a]);
            }
            if holds(sessions, other) {
                let a = index_of(sessions, other);
                let i = if a < k { a } else { a - 1 };
                assert(rest[i] == sessions[a]);
            }
        }
        assert forall|i: int| 0 <= i < rest.len() implies sessions.contains(#[trigger] rest[i]) by {
            let a = if i < k { i } else { i + 1 };
            assert(rest[i] == sessions[a]);
        }
    } else {
        assert forall|i: int| 0 <= i < rest.len() implies sessions.contains(#[trigger] rest[i]) by {
            assert(sessions[i] == rest[i]);
        }
    }
}

impl PoolView {
    /// A maintenance pass keeps the invariant and only ever drops rows.
    pub proof fn lemma_pruned(self, now: nat)
        requires
            self.wf(),
        ensures
            self.pruned(now).wf(),
            stale_prefix(self.sessions, now, self.session_ttl) <= self.sessions.len(),
            forall|id: Seq<char>|
                holds(self.pruned(now).sessions, id) ==> holds(self.sessions, id)
                    && self.pruned(now).sessions[index_of(self.pruned(now).sessions, id)]
                    == self.sessions[index_of(self.sessions, id)],
    {
        let k = stale_prefix(self.sessions, now, self.session_ttl) as int;
        lemma_stale_prefix_bound(self.sessions, now, self.session_ttl);
        let kept = self.pruned(now).sessions;
        assert forall|i: int, j: int| 0 <= i < j < kept.len() implies (#[trigger] kept[i]).id != (
        #[trigger] kept[j]).id by {
            assert(kept[i] == self.sessions[i + k]);
            assert(kept[j] == self.sessions[j + k]);
        }
        assert forall|i: int| 0 <= i < kept.len() implies (#[trigger] kept[i]).worker
            < self.worker_count && kept[i].last_used <= u64::MAX by {
            assert(kept[i] == self.sessions[i + k]);
        }
        assert forall|id: Seq<char>| holds(kept, id) implies holds(self.sessions, id)
            && kept[index_of(kept, id)] == self.sessions[index_of(self.sessions, id)] by {
            let i = index_of(kept, id);
            assert(kept[i] == self.sessions[i + k]);
            lemma_index_of(self.sessions, id, i + k);
        }
    }

    /// Touching a session keeps the invariant.
    pub proof fn lemma_touched(self, id: Seq<char>, worker: nat, now: nat)
        requires
            self.wf(),
            worker < self.worker_count,
            now <= u64::MAX,
        ensures
            self.touched(id, worker, now).wf(),
            forall|other: Seq<char>|
                holds(self.touched(id, worker, now).sessions, other) ==> other == id || holds(
                    self.sessions,
                    other,
                ),
    {
        lemma_without(self.sessions, id);
        let rest = without(self.sessions, id);
        let row = SessionView { id, worker, last_used: now };
        let grown = rest.push(row);
        assert forall|i: int, j: int| 0 <= i < j < grown.len() implies (#[trigger] grown[i]).id != (
        #[trigger] grown[j]).id by {
            assert(grown[i] == rest[i]);
            if j < rest.len() {
                assert(grown[j] == rest[j]);
            } else {
                assert(grown[j] == row);
            }
        }
        assert forall|i: int| 0 <= i < grown.len() implies (#[trigger] grown[i]).worker
            < self.worker_count && grown[i].last_used <= u64::MAX by {
            if i < rest.len() {
                assert(grown[i] == rest[i]);
                assert(self.sessions.contains(rest[i]));
                let j = choose|j: int| 0 <= j < self.sessions.len() && self.sessions[j] == rest[i];
                assert(self.sessions[j].worker < self.worker_count);
            } else {
                assert(grown[i] == row);
            }
        }
        let after = self.touched(id, worker, now).sessions;
        assert forall|other: Seq<char>| holds(after, other) implies other == id || holds(
            self.sessions,
            other,
        ) by {
            let i = index_of(after, other);
            let g = if grown.len() > self.max_sessions { i + 1 } else { i };
            assert(after[i] == grown[g]);
            if g < rest.len() {
                assert(grown[g] == rest[g]);
                assert(holds(rest, other));
            }
        }
        if grown.len() > self.max_sessions {
            assert forall|i: int, j: int| 0 <= i < j < after.len() implies (#[trigger] after[i]).id
                != (#[trigger] after[j]).id by {
                assert(after[i] == grown[i + 1]);
                assert(after[j] == grown[j + 1]);
            }
            assert forall|i: int| 0 <= i < after.len() implies (#[trigger] after[i]).worker
                < self.worker_count && after[i].last_used <= u64::MAX by {
                assert(after[i] == grown[i + 1]);
            }
        }
    }

    /// `accept` keeps the invariant, and the worker it chooses exists.
    pub proof fn lemma_accepted(self, id: Seq<char>, now: nat)
        requires
            self.wf(),
            now <= u64::MAX,
        ensures
            self.accepted(id, now).wf(),
            self.assigned(id, now) < self.worker_count,
    {
        self.lemma_pruned(now);
        let p = self.pruned(now);
        if p.hits(id, now) {
            assert(p.sessions[index_of(p.sessions, id)].worker < p.worker_count);
        } else {
            assert(p.cursor % p.worker_count < p.worker_count) by (nonlinear_arith)
                requires
                    p.worker_count >= 1,
            ;
        }
        let q = PoolView {
            cursor: if p.hits(id, now) {
                p.cursor
            } else {
                advance(p.cursor)
            },
            ..p
        };
        q.lemma_touched(id, p.resolve(id, now), now);
    }
}

/// The stale prefix is no longer than the table.
pub proof fn lemma_stale_prefix_bound(sessions: Seq<SessionView>, now: nat, ttl: nat)
    ensures
        stale_prefix(sessions, now, ttl) <= sessions.len(),
        forall|i: int|
            0 <= i < stale_prefix(sessions, now, ttl) ==> (#[trigger] sessions[i]).expired(now, ttl),
        stale_prefix(sessions, now, ttl) == sessions.len() || !sessions[stale_prefix(
            sessions,
            now,
            ttl,
        ) as int].expired(now, ttl),
    decreases sessions.len(),
{
    if sessions.len() > 0 && sessions[0].expired(now, ttl) {
        let rest = sessions.drop_first();
        lemma_stale_prefix_bound(rest, now, ttl);
        let k = stale_prefix(rest, now, ttl) as int;
        assert forall|i: int| 0 <= i < k + 1 implies (#[trigger] sessions[i]).expired(now, ttl) by {
            if i > 0 {
                assert(sessions[i] == rest[i - 1]);
            }
        }
        if k < rest.len() {
            assert(rest[k] == sessions[k + 1]);
        }
    }
}

} // verus!
