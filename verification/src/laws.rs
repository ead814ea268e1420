//! What holds of the dispatcher over any number of calls.
//!
//! The laws speak of the model of `model`; the functions of `pool` move a
//! pool exactly as the model says, so they hold of every pool.

use vstd::prelude::*;
use vstd::seq_lib::*;
use vstd::set_lib::*;
use crate::model::{
    advance, advanced, age, distinct_ids, holds, index_of, lemma_index_of,
    lemma_stale_prefix_bound, lemma_stale_prefix_unique, lemma_without, stale_prefix, without, Call,
    PoolView, SessionView,
};

verus! {

/// No two calls of `calls` name the same session.
pub open spec fn distinct_sessions(calls: Seq<Call>) -> bool {
    forall|j: int, k: int|
        0 <= j < k < calls.len() ==> (#[trigger] calls[j]).session != (#[trigger] calls[k]).session
}

/// Every time in `calls` is one that the clock can show.
pub open spec fn representable(calls: Seq<Call>) -> bool {
    forall|j: int| 0 <= j < calls.len() ==> (#[trigger] calls[j]).now <= u64::MAX
}

/// What makes a run of calls one of strangers holds of each of its
/// prefixes: the times can be shown by the clock, no two calls name one
/// session, and the pool holds none of the sessions.
proof fn lemma_strangers_prefix(p: PoolView, calls: Seq<Call>, n: int)
    requires
        representable(calls),
        distinct_sessions(calls),
        forall|j: int| 0 <= j < calls.len() ==> !holds(p.sessions, (#[trigger] calls[j]).session),
        0 <= n <= calls.len(),
    ensures
        representable(calls.take(n)),
        distinct_sessions(calls.take(n)),
        forall|j: int|
            0 <= j < calls.take(n).len() ==> !holds(
                p.sessions,
                (#[trigger] calls.take(n)[j]).session,
            ),
{
    let prefix = calls.take(n);
    assert forall|j: int| 0 <= j < prefix.len() implies #[trigger] prefix[j] == calls[j] by {}
    assert forall|j: int| 0 <= j < prefix.len() implies !holds(
        p.sessions,
        (#[trigger] prefix[j]).session,
    ) by {
        assert(prefix[j] == calls[j]);
    }
}

/// Calls for sessions that the pool has never seen, each a different one,
/// move the cursor by one each and leave only their own and the pool's
/// earlier sessions in the table.
proof fn lemma_new_sessions(p: PoolView, calls: Seq<Call>)
    requires
        p.wf(),
        representable(calls),
        distinct_sessions(calls),
        forall|j: int| 0 <= j < calls.len() ==> !holds(p.sessions, (#[trigger] calls[j]).session),
    ensures
        p.after(calls).wf(),
        p.after(calls).cursor == advanced(p.cursor, calls.len()),
        p.after(calls).worker_count == p.worker_count,
        forall|id: Seq<char>|
            holds(p.after(calls).sessions, id) ==> holds(p.sessions, id) || exists|j: int|
                0 <= j < calls.len() && (#[trigger] calls[j]).session == id,
    decreases calls.len(),
{
    if calls.len() > 0 {
        let earlier = calls.drop_last();
        let last = calls.last();
        assert(earlier =~= calls.take(calls.len() - 1));
        lemma_strangers_prefix(p, calls, calls.len() - 1);
        lemma_new_sessions(p, earlier);
        let q = p.after(earlier);
        assert(last == calls[calls.len() - 1]);
        law_stranger_is_assigned_by_round_robin(q, last.session, last.now);
        assert(!holds(q.sessions, last.session)) by {
            if holds(q.sessions, last.session) {
                let j = choose|j: int| 0 <= j < earlier.len() && (#[trigger] earlier[j]).session == last.session;
                assert(earlier[j] == calls[j]);
            }
        }
        q.lemma_accepted(last.session, last.now);
        q.lemma_pruned(last.now);
        let r = q.pruned(last.now);
        let moved = PoolView { cursor: advance(r.cursor), ..r };
        moved.lemma_touched(last.session, r.resolve(last.session, last.now), last.now);
        assert forall|id: Seq<char>| holds(p.after(calls).sessions, id) implies holds(
            p.sessions,
            id,
        ) || exists|j: int| 0 <= j < calls.len() && (#[trigger] calls[j]).session == id by {
            if id == last.session {
            } else {
                assert(holds(r.sessions, id));
                assert(holds(q.sessions, id));
                if !holds(p.sessions, id) {
                    let j = choose|j: int| 0 <= j < earlier.len() && (#[trigger] earlier[j]).session == id;
                    assert(earlier[j] == calls[j]);
                }
            }
        }
    }
}

/// A session without a row, be it new or evicted, is a stranger: its call
/// is given the worker under the cursor, and the cursor moves on.
pub proof fn law_stranger_is_assigned_by_round_robin(p: PoolView, id: Seq<char>, now: nat)
    requires
        p.wf(),
        !holds(p.sessions, id),
    ensures
        !p.pruned(now).hits(id, now),
        p.assigned(id, now) == p.cursor % p.worker_count,
        p.accepted(id, now).cursor == advance(p.cursor),
{
    p.lemma_pruned(now);
}

/// As long as the cursor does not pass the largest `usize`, advancing it
/// `n` times adds `n`.
pub proof fn law_cursor_counts(cursor: nat, n: nat)
    requires
        cursor + n <= usize::MAX,
    ensures
        advanced(cursor, n) == cursor + n,
    decreases n,
{
    if n > 0 {
        law_cursor_counts(cursor, (n - 1) as nat);
    }
}

/// Round robin: the call number `i` of a run of calls for sessions that
/// the pool has never seen, each a different one, is given the worker
/// under the cursor as `i` assignments have advanced it, whatever the
/// times of the calls and however small the table.
pub proof fn law_round_robin(p: PoolView, calls: Seq<Call>, i: int)
    requires
        p.wf(),
        representable(calls),
        distinct_sessions(calls),
        forall|j: int| 0 <= j < calls.len() ==> !holds(p.sessions, (#[trigger] calls[j]).session),
        0 <= i < calls.len(),
    ensures
        p.nth_worker(calls, i) == advanced(p.cursor, i as nat) % p.worker_count,
{
    let earlier = calls.take(i);
    lemma_strangers_prefix(p, calls, i);
    lemma_new_sessions(p, earlier);
    let q = p.after(earlier);
    assert(!holds(q.sessions, calls[i].session)) by {
        if holds(q.sessions, calls[i].session) {
            let j = choose|j: int| 0 <= j < earlier.len() && (#[trigger] earlier[j]).session == calls[i].session;
            assert(earlier[j] == calls[j]);
        }
    }
    law_stranger_is_assigned_by_round_robin(q, calls[i].session, calls[i].now);
}

/// Round-robin fairness: `n` calls for `n` different sessions, with `n` at
/// most the number of workers, made in order to a pool that has seen no
/// call yet, go to the workers 0, 1, ..., `n - 1`.
pub proof fn law_round_robin_fairness(
    worker_count: nat,
    max_sessions: nat,
    session_ttl: nat,
    calls: Seq<Call>,
    i: int,
)
    requires
        PoolView::fresh(worker_count, max_sessions, session_ttl).wf(),
        representable(calls),
        distinct_sessions(calls),
        calls.len() <= worker_count,
        0 <= i < calls.len(),
    ensures
        PoolView::fresh(worker_count, max_sessions, session_ttl).nth_worker(calls, i) == i,
{
    let p = PoolView::fresh(worker_count, max_sessions, session_ttl);
    law_round_robin(p, calls, i);
    law_cursor_counts(0, i as nat);
    assert(i % (worker_count as int) == i) by (nonlinear_arith)
        requires
            0 <= i < worker_count,
    ;
}

/// The sessions that the calls of `calls` name.
pub open spec fn sessions_of(calls: Seq<Call>) -> Set<Seq<char>> {
    calls.map_values(|c: Call| c.session).to_set()
}

/// `id` is pinned in `p`: it has the row `row`, and every row touched
/// after it belongs to a session of `seen`.
spec fn pinned(p: PoolView, row: SessionView, seen: Set<Seq<char>>) -> bool {
    &&& p.wf()
    &&& holds(p.sessions, row.id)
    &&& p.sessions[index_of(p.sessions, row.id)] == row
    &&& forall|i: int|
        index_of(p.sessions, row.id) < i < p.sessions.len() ==> seen.contains(
            (#[trigger] p.sessions[i]).id,
        )
}

/// Rows of different sessions, all of them sessions of a finite set, are
/// no more than the set has members.
proof fn lemma_rows_within(rows: Seq<SessionView>, seen: Set<Seq<char>>)
    requires
        distinct_ids(rows),
        seen.finite(),
        forall|i: int| 0 <= i < rows.len() ==> seen.contains((#[trigger] rows[i]).id),
    ensures
        rows.len() <= seen.len(),
    decreases rows.len(),
{
    if rows.len() > 0 {
        let last = rows.last();
        let rest = rows.drop_last();
        assert(rows[rows.len() - 1] == last);
        assert forall|i: int| 0 <= i < rest.len() implies seen.remove(last.id).contains(
            (#[trigger] rest[i]).id,
        ) by {
            assert(rest[i] == rows[i]);
            assert(rows[i].id != rows[rows.len() - 1].id);
        }
        assert(distinct_ids(rest)) by {
            assert forall|i: int, j: int| 0 <= i < j < rest.len() implies (#[trigger] rest[i]).id
                != (#[trigger] rest[j]).id by {
                assert(rest[i] == rows[i]);
                assert(rest[j] == rows[j]);
            }
        }
        lemma_rows_within(rest, seen.remove(last.id));
    }
}

/// The first call for a session pins it, with the worker it was given, as
/// the newest row.
proof fn lemma_accept_pins(p: PoolView, id: Seq<char>, now: nat)
    requires
        p.wf(),
        now <= u64::MAX,
        p.max_sessions >= 1,
    ensures
        pinned(
            p.accepted(id, now),
            SessionView { id, worker: p.assigned(id, now), last_used: now },
            Set::empty(),
        ),
{
    p.lemma_accepted(id, now);
    p.lemma_pruned(now);
    let r = p.pruned(now);
    let row = SessionView { id, worker: p.assigned(id, now), last_used: now };
    lemma_without(r.sessions, id);
    let grown = without(r.sessions, id).push(row);
    let a = p.accepted(id, now);
    let at = a.sessions.len() - 1;
    assert(grown[grown.len() - 1] == row);
    assert(a.sessions[at] == row);
    lemma_index_of(a.sessions, id, at);
}

/// A call for another session, made while the pinned row is alive and
/// while the sessions seen since are fewer than the table has room for,
/// leaves the pinned row as it is.
proof fn lemma_accept_keeps_pin(
    p: PoolView,
    row: SessionView,
    seen: Set<Seq<char>>,
    other: Seq<char>,
    now: nat,
)
    requires
        pinned(p, row, seen),
        seen.finite(),
        other != row.id,
        now <= u64::MAX,
        !row.expired(now, p.session_ttl),
        seen.insert(other).len() < p.max_sessions,
    ensures
        pinned(p.accepted(other, now), row, seen.insert(other)),
        p.accepted(other, now).session_ttl == p.session_ttl,
        p.accepted(other, now).max_sessions == p.max_sessions,
{
    p.lemma_accepted(other, now);
    p.lemma_pruned(now);
    lemma_stale_prefix_bound(p.sessions, now, p.session_ttl);
    let k = stale_prefix(p.sessions, now, p.session_ttl) as int;
    let at = index_of(p.sessions, row.id);
    assert(k <= at) by {
        if at < k {
            assert(p.sessions[at].expired(now, p.session_ttl));
        }
    }
    let r = p.pruned(now);
    assert(r.sessions[at - k] == p.sessions[at]);
    lemma_index_of(r.sessions, row.id, at - k);
    let at_r = at - k;
    assert forall|i: int| at_r < i < r.sessions.len() implies seen.contains(
        (#[trigger] r.sessions[i]).id,
    ) by {
        assert(r.sessions[i] == p.sessions[i + k]);
    }
    // The other session's row leaves its place; the pinned row stays.
    lemma_without(r.sessions, other);
    let rest = without(r.sessions, other);
    let at_rest = if holds(r.sessions, other) && index_of(r.sessions, other) < at_r {
        at_r - 1
    } else {
        at_r
    };
    if holds(r.sessions, other) {
        let gone = index_of(r.sessions, other);
        assert(gone != at_r);
        assert forall|i: int| 0 <= i < rest.len() implies #[trigger] rest[i] == r.sessions[if i
            < gone {
            i
        } else {
            i + 1
        }] by {}
    }
    assert(rest[at_rest] == row);
    lemma_index_of(rest, row.id, at_rest);
    assert forall|i: int| at_rest < i < rest.len() implies seen.contains((#[trigger] rest[i]).id) by {
        if holds(r.sessions, other) {
            let gone = index_of(r.sessions, other);
            let a = if i < gone { i } else { i + 1 };
            assert(rest[i] == r.sessions[a]);
        }
    }
    let new_row = SessionView { id: other, worker: r.resolve(other, now), last_used: now };
    let grown = rest.push(new_row);
    let wider = seen.insert(other);
    assert(grown[at_rest] == row);
    assert forall|i: int| at_rest < i < grown.len() implies wider.contains(
        (#[trigger] grown[i]).id,
    ) by {
        if i < rest.len() {
            assert(grown[i] == rest[i]);
        }
    }
    let a = p.accepted(other, now);
    assert(a.sessions == if grown.len() > p.max_sessions {
        grown.drop_first()
    } else {
        grown
    });
    if grown.len() > p.max_sessions {
        assert(at_rest >= 1) by {
            if at_rest == 0 {
                let tail = grown.skip(1);
                assert forall|i: int| 0 <= i < tail.len() implies wider.contains(
                    (#[trigger] tail[i]).id,
                ) by {
                    assert(tail[i] == grown[i + 1]);
                }
                assert(distinct_ids(tail)) by {
                    assert forall|i: int, j: int| 0 <= i < j < tail.len() implies (
                    #[trigger] tail[i]).id != (#[trigger] tail[j]).id by {
                        assert(tail[i] == a.sessions[i]);
                        assert(tail[j] == a.sessions[j]);
                    }
                }
                lemma_rows_within(tail, wider);
            }
        }
        assert(a.sessions[at_rest - 1] == row);
        lemma_index_of(a.sessions, row.id, at_rest - 1);
        assert forall|i: int| at_rest - 1 < i < a.sessions.len() implies wider.contains(
            (#[trigger] a.sessions[i]).id,
        ) by {
            assert(a.sessions[i] == grown[i + 1]);
        }
    } else {
        assert(a.sessions[at_rest] == row);
        lemma_index_of(a.sessions, row.id, at_rest);
    }
}

/// The sessions of a run of calls are those of the calls before the last,
/// and the last one's.
proof fn lemma_sessions_of_last(calls: Seq<Call>)
    requires
        calls.len() > 0,
    ensures
        sessions_of(calls) == sessions_of(calls.drop_last()).insert(calls.last().session),
        sessions_of(calls).finite(),
        sessions_of(calls.drop_last()).finite(),
        sessions_of(calls.drop_last()).len() <= sessions_of(calls).len(),
{
    let ids = calls.map_values(|c: Call| c.session);
    let earlier = calls.drop_last().map_values(|c: Call| c.session);
    seq_to_set_is_finite(ids);
    seq_to_set_is_finite(earlier);
    assert forall|id: Seq<char>| sessions_of(calls).contains(id) <==> sessions_of(
        calls.drop_last(),
    ).insert(calls.last().session).contains(id) by {
        if ids.contains(id) {
            let j = choose|j: int| 0 <= j < ids.len() && ids[j] == id;
            if j < earlier.len() {
                assert(earlier[j] == id);
            }
        }
        if earlier.contains(id) {
            let j = choose|j: int| 0 <= j < earlier.len() && earlier[j] == id;
            assert(ids[j] == id);
        }
        if id == calls.last().session {
            assert(ids[ids.len() - 1] == id);
        }
    }
    assert(sessions_of(calls) =~= sessions_of(calls.drop_last()).insert(calls.last().session));
    lemma_len_subset(sessions_of(calls.drop_last()), sessions_of(calls));
}

/// A pinned session stays pinned through any run of calls for other
/// sessions, made while its row is alive, that name fewer sessions than
/// the table has room for.
proof fn lemma_pin_survives(p: PoolView, row: SessionView, others: Seq<Call>)
    requires
        pinned(p, row, Set::empty()),
        representable(others),
        forall|j: int| 0 <= j < others.len() ==> (#[trigger] others[j]).session != row.id,
        forall|j: int|
            0 <= j < others.len() ==> !row.expired((#[trigger] others[j]).now, p.session_ttl),
        sessions_of(others).len() < p.max_sessions,
    ensures
        pinned(p.after(others), row, sessions_of(others)),
        p.after(others).session_ttl == p.session_ttl,
        p.after(others).max_sessions == p.max_sessions,
    decreases others.len(),
{
    if others.len() == 0 {
        assert(sessions_of(others) =~= Set::empty());
    } else {
        let earlier = others.drop_last();
        let last = others.last();
        assert(last == others[others.len() - 1]);
        lemma_sessions_of_last(others);
        assert forall|j: int| 0 <= j < earlier.len() implies (#[trigger] earlier[j]).session
            != row.id && !row.expired(earlier[j].now, p.session_ttl) && earlier[j].now
            <= u64::MAX by {
            assert(earlier[j] == others[j]);
        }
        lemma_pin_survives(p, row, earlier);
        lemma_accept_keeps_pin(
            p.after(earlier),
            row,
            sessions_of(earlier),
            last.session,
            last.now,
        );
    }
}

/// Affinity stability: once a call at `first` has given session `id` a
/// worker, a call for `id` at `later` is given the same worker, whatever
/// calls for other sessions `others` were made in between, provided that
/// every one of these calls, the later one included, is made no more than
/// the time to live after `first`, and that the calls in between name
/// fewer sessions than the table has room for (with as many as that, the
/// row of `id` is the one that leaves the full table).
pub proof fn law_affinity_stability(
    p: PoolView,
    id: Seq<char>,
    first: nat,
    others: Seq<Call>,
    later: nat,
)
    requires
        p.wf(),
        first <= u64::MAX,
        later <= u64::MAX,
        representable(others),
        forall|j: int| 0 <= j < others.len() ==> (#[trigger] others[j]).session != id,
        forall|j: int|
            0 <= j < others.len() ==> age((#[trigger] others[j]).now, first) <= p.session_ttl,
        age(later, first) <= p.session_ttl,
        sessions_of(others).len() < p.max_sessions,
    ensures
        p.accepted(id, first).after(others).assigned(id, later) == p.assigned(id, first),
{
    let row = SessionView { id, worker: p.assigned(id, first), last_used: first };
    lemma_accept_pins(p, id, first);
    p.lemma_accepted(id, first);
    let pinned_pool = p.accepted(id, first);
    lemma_pin_survives(pinned_pool, row, others);
    law_live_session_keeps_its_worker(pinned_pool.after(others), row, later);
}

/// A session in the table whose age is within the time to live is served
/// by the worker of its row: the maintenance pass spares the row, the call
/// is a hit, and the cursor stays where it is.
pub proof fn law_live_session_keeps_its_worker(p: PoolView, row: SessionView, now: nat)
    requires
        p.wf(),
        holds(p.sessions, row.id),
        p.sessions[index_of(p.sessions, row.id)] == row,
        !row.expired(now, p.session_ttl),
    ensures
        holds(p.pruned(now).sessions, row.id),
        p.pruned(now).sessions[index_of(p.pruned(now).sessions, row.id)] == row,
        p.pruned(now).hits(row.id, now),
        p.assigned(row.id, now) == row.worker,
        p.accepted(row.id, now).cursor == p.cursor,
{
    p.lemma_pruned(now);
    lemma_stale_prefix_bound(p.sessions, now, p.session_ttl);
    let k = stale_prefix(p.sessions, now, p.session_ttl) as int;
    let at = index_of(p.sessions, row.id);
    if at < k {
        assert(p.sessions[at].expired(now, p.session_ttl));
    }
    let r = p.pruned(now);
    assert(r.sessions[at - k] == p.sessions[at]);
    lemma_index_of(r.sessions, row.id, at - k);
}

/// The table is one thing under two readings: the sessions of the affinity
/// table are exactly those of the recency queue, the queue names no
/// session twice, and neither is larger than the capacity.
pub proof fn law_table_agrees(p: PoolView)
    requires
        p.wf(),
    ensures
        p.sticky().dom() == p.recency().to_set(),
        p.recency().no_duplicates(),
        p.recency().len() == p.sessions.len(),
        p.sticky().dom().finite(),
        p.sticky().dom().len() == p.sessions.len(),
        p.sticky().dom().len() <= p.max_sessions,
        forall|i: int|
            0 <= i < p.sessions.len() ==> p.sticky()[#[trigger] p.recency()[i]] == p.sessions[i],
{
    let ids = p.recency();
    assert forall|id: Seq<char>| p.sticky().dom().contains(id) <==> ids.to_set().contains(id) by {
        if holds(p.sessions, id) {
            let i = index_of(p.sessions, id);
            assert(ids[i] == id);
        }
        if ids.contains(id) {
            let i = choose|i: int| 0 <= i < ids.len() && ids[i] == id;
            assert(p.sessions[i].id == id);
        }
    }
    assert(p.sticky().dom() =~= ids.to_set());
    assert forall|i: int, j: int| 0 <= i < ids.len() && 0 <= j < ids.len() && i != j implies ids[i]
        != ids[j] by {
        if i < j {
            assert(p.sessions[i].id != p.sessions[j].id);
        } else {
            assert(p.sessions[j].id != p.sessions[i].id);
        }
    }
    seq_to_set_is_finite(ids);
    ids.unique_seq_to_set();
    assert forall|i: int| 0 <= i < p.sessions.len() implies p.sticky()[#[trigger] ids[i]]
        == p.sessions[i] by {
        lemma_index_of(p.sessions, ids[i], i);
    }
}

/// Every call leaves a table that meets the invariant, so the table never
/// holds more sessions than its capacity, and the worker that the call is
/// given exists.
pub proof fn law_capacity(p: PoolView, id: Seq<char>, now: nat)
    requires
        p.wf(),
        now <= u64::MAX,
    ensures
        p.accepted(id, now).wf(),
        p.accepted(id, now).sessions.len() <= p.max_sessions,
        p.assigned(id, now) < p.worker_count,
        p.accepted(id, now).worker_count == p.worker_count,
        p.accepted(id, now).max_sessions == p.max_sessions,
        p.accepted(id, now).session_ttl == p.session_ttl,
{
    p.lemma_accepted(id, now);
}

/// The maintenance pass is idempotent: a second pass at the same time
/// changes nothing.
pub proof fn law_maintenance_idempotent(p: PoolView, now: nat)
    requires
        p.wf(),
    ensures
        p.pruned(now).pruned(now) == p.pruned(now),
{
    lemma_stale_prefix_bound(p.sessions, now, p.session_ttl);
    let k = stale_prefix(p.sessions, now, p.session_ttl) as int;
    let kept = p.sessions.skip(k);
    if kept.len() > 0 {
        assert(kept[0] == p.sessions[k]);
    }
    lemma_stale_prefix_unique(kept, now, p.session_ttl, 0);
    assert(kept.skip(0) =~= kept);
}

/// Eviction by capacity: a call for a session without a row, made when
/// the maintenance pass leaves the table full, evicts exactly the least
/// recently touched session. Every other row stays, in order, and the new
/// row is the newest. The evicted session is a stranger from then on: its
/// next call is given the worker under the cursor.
pub proof fn law_lru_eviction(p: PoolView, id: Seq<char>, now: nat, next: nat)
    requires
        p.wf(),
        now <= u64::MAX,
        p.max_sessions >= 1,
        p.pruned(now).sessions.len() == p.max_sessions,
        !holds(p.pruned(now).sessions, id),
    ensures
        p.accepted(id, now).sessions == p.pruned(now).sessions.drop_first().push(
            SessionView { id, worker: p.cursor % p.worker_count, last_used: now },
        ),
        !holds(p.accepted(id, now).sessions, p.pruned(now).sessions[0].id),
        p.accepted(id, now).assigned(p.pruned(now).sessions[0].id, next) == p.accepted(
            id,
            now,
        ).cursor % p.worker_count,
{
    p.lemma_pruned(now);
    p.lemma_accepted(id, now);
    let r = p.pruned(now);
    let oldest = r.sessions[0];
    let row = SessionView { id, worker: p.cursor % p.worker_count, last_used: now };
    let a = p.accepted(id, now);
    assert(a.sessions =~= r.sessions.drop_first().push(row));
    if holds(a.sessions, oldest.id) {
        let i = index_of(a.sessions, oldest.id);
        if i < a.sessions.len() - 1 {
            assert(a.sessions[i] == r.sessions[i + 1]);
            assert(r.sessions[0].id != r.sessions[i + 1].id);
        } else {
            assert(a.sessions[i] == row);
            assert(holds(r.sessions, id));
        }
    }
    law_stranger_is_assigned_by_round_robin(a, oldest.id, next);
}

/// A call that does not find the table full, or finds its own session in
/// it, evicts nobody: every session that the maintenance pass left is
/// still there.
pub proof fn law_no_eviction_with_room(p: PoolView, id: Seq<char>, now: nat, other: Seq<char>)
    requires
        p.wf(),
        now <= u64::MAX,
        p.pruned(now).sessions.len() < p.max_sessions || holds(p.pruned(now).sessions, id),
        holds(p.pruned(now).sessions, other),
    ensures
        holds(p.accepted(id, now).sessions, other),
{
    p.lemma_pruned(now);
    let r = p.pruned(now);
    lemma_without(r.sessions, id);
    let rest = without(r.sessions, id);
    let row = SessionView { id, worker: r.resolve(id, now), last_used: now };
    let grown = rest.push(row);
    let a = p.accepted(id, now);
    assert(a.sessions == grown);
    if other == id {
        assert(grown[grown.len() - 1] == row);
    } else {
        let i = index_of(rest, other);
        assert(grown[i] == rest[i]);
    }
}

/// Eviction by age: a session whose row has been idle for longer than the
/// time to live is not held to the worker of its row. Its call is given
/// the worker under the cursor, as a stranger's would be.
pub proof fn law_ttl_eviction(p: PoolView, id: Seq<char>, now: nat)
    requires
        p.wf(),
        holds(p.sessions, id),
        p.sessions[index_of(p.sessions, id)].expired(now, p.session_ttl),
    ensures
        !p.pruned(now).hits(id, now),
        p.assigned(id, now) == p.cursor % p.worker_count,
{
    p.lemma_pruned(now);
}

/// A call leaves its session as the most recently touched one, with the
/// worker it was given and the time of the call, unless the table has no
/// room at all.
pub proof fn law_accepted_is_newest(p: PoolView, id: Seq<char>, now: nat)
    requires
        p.wf(),
        now <= u64::MAX,
        p.max_sessions >= 1,
    ensures
        p.accepted(id, now).sessions.len() >= 1,
        p.accepted(id, now).sessions.last() == (SessionView {
            id,
            worker: p.assigned(id, now),
            last_used: now,
        }),
        p.accepted(id, now).recency().last() == id,
{
    lemma_accept_pins(p, id, now);
    let a = p.accepted(id, now);
    p.lemma_pruned(now);
    lemma_without(p.pruned(now).sessions, id);
    assert(a.recency()[a.sessions.len() - 1] == a.sessions[a.sessions.len() - 1].id);
}

/// Two calls for one session, the second no more than the time to live
/// after the first, go to the same worker, and so to the same queue.
pub proof fn law_back_to_back(p: PoolView, id: Seq<char>, first: nat, second: nat)
    requires
        p.wf(),
        first <= u64::MAX,
        second <= u64::MAX,
        p.max_sessions >= 1,
        age(second, first) <= p.session_ttl,
    ensures
        p.accepted(id, first).assigned(id, second) == p.assigned(id, first),
{
    let none: Seq<Call> = Seq::empty();
    assert(sessions_of(none) =~= Set::empty());
    law_affinity_stability(p, id, first, none, second);
    assert(p.accepted(id, first).after(none) == p.accepted(id, first));
}

/// Touching a session that has no row, in a full table, evicts exactly
/// the least recently touched session and no other: the sessions of the
/// table are the old ones without the oldest and with the new one, the
/// other rows keep their order, and the table is still full.
pub proof fn law_touch_evicts_oldest(p: PoolView, id: Seq<char>, worker: nat, now: nat)
    requires
        p.wf(),
        worker < p.worker_count,
        now <= u64::MAX,
        p.max_sessions >= 1,
        p.sessions.len() == p.max_sessions,
        !holds(p.sessions, id),
    ensures
        p.touched(id, worker, now).sessions == p.sessions.drop_first().push(
            SessionView { id, worker, last_used: now },
        ),
        p.touched(id, worker, now).sessions.len() == p.max_sessions,
        p.touched(id, worker, now).sticky().dom() == p.sticky().dom().remove(
            p.recency()[0],
        ).insert(id),
{
    let row = SessionView { id, worker, last_used: now };
    let t = p.touched(id, worker, now);
    p.lemma_touched(id, worker, now);
    assert(t.sessions =~= p.sessions.drop_first().push(row));
    let oldest = p.sessions[0].id;
    assert(p.recency()[0] == oldest);
    assert forall|x: Seq<char>| t.sticky().dom().contains(x) <==> p.sticky().dom().remove(
        oldest,
    ).insert(id).contains(x) by {
        if holds(t.sessions, x) {
            let i = index_of(t.sessions, x);
            if i < t.sessions.len() - 1 {
                assert(t.sessions[i] == p.sessions[i + 1]);
                assert(p.sessions[0].id != p.sessions[i + 1].id);
            } else {
                assert(t.sessions[i] == row);
            }
        }
        if x == id {
            assert(t.sessions[t.sessions.len() - 1] == row);
        } else if holds(p.sessions, x) && x != oldest {
            let i = index_of(p.sessions, x);
            assert(i >= 1);
            assert(t.sessions[i - 1] == p.sessions[i]);
        }
    }
    assert(t.sticky().dom() =~= p.sticky().dom().remove(oldest).insert(id));
}

/// Touching a session evicts nobody where the session has a row already
/// or the table has room: the sessions of the table are the old ones and
/// the touched one, and every other session keeps its row.
pub proof fn law_touch_evicts_nobody(p: PoolView, id: Seq<char>, worker: nat, now: nat)
    requires
        p.wf(),
        worker < p.worker_count,
        now <= u64::MAX,
        holds(p.sessions, id) || p.sessions.len() < p.max_sessions,
    ensures
        p.touched(id, worker, now).sticky().dom() == p.sticky().dom().insert(id),
        p.touched(id, worker, now).sticky()[id] == (SessionView { id, worker, last_used: now }),
        forall|other: Seq<char>|
            other != id && holds(p.sessions, other) ==> #[trigger] p.touched(
                id,
                worker,
                now,
            ).sticky()[other] == p.sticky()[other],
{
    let row = SessionView { id, worker, last_used: now };
    let t = p.touched(id, worker, now);
    p.lemma_touched(id, worker, now);
    lemma_without(p.sessions, id);
    let rest = without(p.sessions, id);
    assert(t.sessions == rest.push(row));
    assert(t.sessions[rest.len() as int] == row);
    lemma_index_of(t.sessions, id, rest.len() as int);
    assert forall|x: Seq<char>| t.sticky().dom().contains(x) <==> p.sticky().dom().insert(
        id,
    ).contains(x) by {
        if x != id && holds(rest, x) {
            let i = index_of(rest, x);
            assert(t.sessions[i] == rest[i]);
        }
    }
    assert(t.sticky().dom() =~= p.sticky().dom().insert(id));
    assert forall|other: Seq<char>| other != id && holds(p.sessions, other) implies #[trigger] t.sticky()[other]
        == p.sticky()[other] by {
        let a = index_of(p.sessions, other);
        let i = if holds(p.sessions, id) && index_of(p.sessions, id) < a {
            a - 1
        } else {
            a
        };
        assert(rest[i] == p.sessions[a]);
        assert(t.sessions[i] == rest[i]);
        lemma_index_of(t.sessions, other, i);
    }
}

/// Every session that a call of `accept` removes from the table is one of
/// two kinds: its row had expired and stood at the old end, where the
/// maintenance pass took it; or it was the least recently touched of a
/// full table, and the call was for a session without a row. Of the
/// second kind a call removes at most one.
pub proof fn law_accept_evicts_only_stale_or_oldest(
    p: PoolView,
    id: Seq<char>,
    now: nat,
    gone: Seq<char>,
)
    requires
        p.wf(),
        now <= u64::MAX,
        holds(p.sessions, gone),
        !holds(p.accepted(id, now).sessions, gone),
    ensures
        gone != id,
        p.sessions[index_of(p.sessions, gone)].expired(now, p.session_ttl) || ({
            &&& p.pruned(now).sessions.len() == p.max_sessions
            &&& p.max_sessions >= 1
            &&& !holds(p.pruned(now).sessions, id)
            &&& gone == p.pruned(now).sessions[0].id
        }),
{
    p.lemma_pruned(now);
    lemma_stale_prefix_bound(p.sessions, now, p.session_ttl);
    let k = stale_prefix(p.sessions, now, p.session_ttl) as int;
    let r = p.pruned(now);
    let at = index_of(p.sessions, gone);
    let worker = r.resolve(id, now);
    p.lemma_accepted(id, now);
    let q = PoolView {
        cursor: if r.hits(id, now) {
            r.cursor
        } else {
            advance(r.cursor)
        },
        ..r
    };
    assert(q.wf());
    if q.max_sessions >= 1 {
        law_accepted_is_newest(p, id, now);
        let a = p.accepted(id, now);
        assert(a.sessions[a.sessions.len() - 1].id == id);
    }
    if at >= k {
        assert(r.sessions[at - k] == p.sessions[at]);
        assert(holds(r.sessions, gone));
        if holds(r.sessions, id) || r.sessions.len() < r.max_sessions {
            law_touch_evicts_nobody(q, id, worker, now);
            assert(q.touched(id, worker, now).sticky().dom().contains(gone));
        } else if r.max_sessions >= 1 {
            law_touch_evicts_oldest(q, id, worker, now);
            assert(q.recency()[0] == r.sessions[0].id);
            assert(q.sticky().dom().contains(gone));
            if gone != r.sessions[0].id {
                assert(q.touched(id, worker, now).sticky().dom().contains(gone));
            }
        }
    }
}

/// The rows are in the order of their times, oldest first.
pub open spec fn time_ordered(sessions: Seq<SessionView>) -> bool {
    forall|i: int, j: int|
        0 <= i < j < sessions.len() ==> (#[trigger] sessions[i]).last_used <= (
        #[trigger] sessions[j]).last_used
}

/// Under a clock that does not run backwards the table stays in the order
/// of its times.
pub proof fn law_time_order(p: PoolView, id: Seq<char>, now: nat)
    requires
        p.wf(),
        now <= u64::MAX,
        time_ordered(p.sessions),
        forall|i: int| 0 <= i < p.sessions.len() ==> (#[trigger] p.sessions[i]).last_used <= now,
    ensures
        time_ordered(p.accepted(id, now).sessions),
        forall|i: int|
            0 <= i < p.accepted(id, now).sessions.len() ==> (#[trigger] p.accepted(
                id,
                now,
            ).sessions[i]).last_used <= now,
{
    p.lemma_pruned(now);
    lemma_stale_prefix_bound(p.sessions, now, p.session_ttl);
    let k = stale_prefix(p.sessions, now, p.session_ttl) as int;
    let r = p.pruned(now);
    assert forall|i: int| 0 <= i < r.sessions.len() implies #[trigger] r.sessions[i]
        == p.sessions[i + k] by {}
    lemma_without(r.sessions, id);
    let rest = without(r.sessions, id);
    let gone = index_of(r.sessions, id);
    assert forall|i: int| 0 <= i < rest.len() implies #[trigger] rest[i] == p.sessions[(if holds(
        r.sessions,
        id,
    ) && i >= gone {
        i + 1
    } else {
        i
    }) + k] by {
        if holds(r.sessions, id) {
            let a = if i < gone { i } else { i + 1 };
            assert(rest[i] == r.sessions[a]);
        }
    }
    let row = SessionView { id, worker: r.resolve(id, now), last_used: now };
    let grown = rest.push(row);
    assert forall|i: int, j: int| 0 <= i < j < grown.len() implies (#[trigger] grown[i]).last_used
        <= (#[trigger] grown[j]).last_used by {
        assert(grown[i] == rest[i]);
        if j < rest.len() {
            assert(grown[j] == rest[j]);
        }
    }
    assert forall|i: int| 0 <= i < grown.len() implies (#[trigger] grown[i]).last_used <= now by {
        if i < rest.len() {
            assert(grown[i] == rest[i]);
        }
    }
    let a = p.accepted(id, now);
    if grown.len() > p.max_sessions {
        assert forall|i: int| 0 <= i < a.sessions.len() implies #[trigger] a.sessions[i] == grown[i
            + 1] by {}
    }
}

/// In a table that is in the order of its times, the maintenance pass
/// drops every expired row: none that is left has been idle for longer
/// than the time to live, and a session whose row had expired has no row
/// any more.
pub proof fn law_maintenance_clears(p: PoolView, now: nat)
    requires
        p.wf(),
        time_ordered(p.sessions),
    ensures
        forall|i: int|
            0 <= i < p.pruned(now).sessions.len() ==> !(#[trigger] p.pruned(now).sessions[i]).expired(
                now,
                p.session_ttl,
            ),
        forall|id: Seq<char>|
            holds(p.sessions, id) && p.sessions[index_of(p.sessions, id)].expired(
                now,
                p.session_ttl,
            ) ==> !holds(p.pruned(now).sessions, id),
{
    p.lemma_pruned(now);
    lemma_stale_prefix_bound(p.sessions, now, p.session_ttl);
    let k = stale_prefix(p.sessions, now, p.session_ttl) as int;
    let r = p.pruned(now);
    assert forall|i: int| 0 <= i < r.sessions.len() implies !(#[trigger] r.sessions[i]).expired(
        now,
        p.session_ttl,
    ) by {
        assert(r.sessions[i] == p.sessions[i + k]);
        assert(r.sessions[0] == p.sessions[k]);
        if i > 0 {
            assert(p.sessions[k].last_used <= p.sessions[i + k].last_used);
        }
    }
    assert forall|id: Seq<char>|
        holds(p.sessions, id) && p.sessions[index_of(p.sessions, id)].expired(
            now,
            p.session_ttl,
        ) implies !holds(r.sessions, id) by {
        if holds(r.sessions, id) {
            let i = index_of(r.sessions, id);
            assert(!r.sessions[i].expired(now, p.session_ttl));
        }
    }
}

} // verus!
