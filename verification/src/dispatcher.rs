//! The scheduling core. A dispatcher step takes the pool and one event — a
//! new work item or a worker's completion notification — mutates the pool,
//! and hands back the delivery the caller owes: which worker receives the
//! item. Two interchangeable policies are provided: least-loaded, which keeps
//! the pool stably sorted by pending count and routes to its head, and
//! round-robin, which routes by a cyclic cursor and never reorders the pool.

use vstd::arithmetic::div_mod::lemma_add_mod_noop;
use vstd::arithmetic::div_mod::lemma_add_mod_noop_right;
use vstd::arithmetic::div_mod::lemma_mod_division_less_than_divisor;
use vstd::arithmetic::div_mod::lemma_small_mod;
use vstd::prelude::*;

use crate::pool::Request;
use crate::pool::Worker;
use crate::pool::distinct_ids;
use crate::pool::has_id;
use crate::pool::index_of_id;
use crate::pool::lemma_index_of_id;
use crate::pool::lemma_sort_facts;
use crate::pool::lemma_sum_update;
use crate::pool::lemma_update_id_facts;
use crate::pool::pending_of;
use crate::pool::sort_by_pending;
use crate::pool::sort_pool;
use crate::pool::sorted_by_pending;
use crate::pool::sum_pending;

verus! {

/// One event the dispatcher services: a work item arrived on the intake
/// side, or a worker reported one completion, carrying its identity.
pub enum Event {
    Arrival(Request),
    Completion(usize),
}

/// A worker after taking one more item.
pub open spec fn bump(w: Worker) -> Worker {
    Worker { id: w.id, pending: (w.pending + 1) as usize }
}

/// A worker after finishing one item.
pub open spec fn drop_one(w: Worker) -> Worker {
    Worker { id: w.id, pending: (w.pending - 1) as usize }
}

/// The pool after the worker at position `c` takes one more item.
pub open spec fn arrive_at(ws: Seq<Worker>, c: int) -> Seq<Worker> {
    ws.update(c, bump(ws[c]))
}

/// The pool after the worker at position `k` finishes one item.
pub open spec fn complete_at(ws: Seq<Worker>, k: int) -> Seq<Worker> {
    ws.update(k, drop_one(ws[k]))
}

/// What an event asks of a least-loaded pool: an arrival needs a worker to
/// route to whose count can still rise; a completion must name a known
/// worker with work outstanding — anything else is state corruption.
pub open spec fn ll_event_ok(ws: Seq<Worker>, e: Event) -> bool {
    match e {
        Event::Arrival(_) => ws.len() > 0 && ws[0].pending < usize::MAX,
        Event::Completion(id) => has_id(ws, id) && pending_of(ws, id) >= 1,
    }
}

/// The least-loaded pool after one step: the head takes an arrival, the
/// named worker finishes on a completion, and the pool is re-sorted stably.
pub open spec fn ll_step(ws: Seq<Worker>, e: Event) -> Seq<Worker> {
    match e {
        Event::Arrival(_) => sort_by_pending(arrive_at(ws, 0)),
        Event::Completion(id) => sort_by_pending(complete_at(ws, index_of_id(ws, id))),
    }
}

/// The delivery a least-loaded step hands back: an arrival goes to the
/// pool's head; a completion delivers nothing.
pub open spec fn ll_action(ws: Seq<Worker>, e: Event) -> Option<(usize, Request)> {
    match e {
        Event::Arrival(req) => Some((ws[0].id, req)),
        Event::Completion(_) => None,
    }
}

/// One least-loaded dispatcher step. On an arrival the work item is routed
/// to the first worker of the pool — the pool is kept sorted ascending by
/// pending count, so that worker holds the minimum — and its count rises by
/// one. On a completion the named worker's count falls by one. Either way
/// the pool is then re-sorted with a stable sort, so ties keep their prior
/// relative order. Returns the delivery owed: the chosen worker's identity
/// and the item to put on its inbound queue.
pub fn dispatch(workers: &mut Vec<Worker>, event: Event) -> (r: Option<(usize, Request)>)
    requires
        distinct_ids(old(workers)@),
        sorted_by_pending(old(workers)@),
        ll_event_ok(old(workers)@, event),
    ensures
        final(workers)@ == ll_step(old(workers)@, event),
        r == ll_action(old(workers)@, event),
        final(workers)@.len() == old(workers)@.len(),
        sorted_by_pending(final(workers)@),
        distinct_ids(final(workers)@),
        sum_pending(final(workers)@) == sum_pending(old(workers)@) + (if event is Arrival {
            1int
        } else {
            -1
        }),
{
    let ghost ws0 = workers@;
    let ghost ev = event;
    let r: Option<(usize, Request)>;
    match event {
        Event::Arrival(req) => {
            let id = workers[0].id;
            let mut w = workers[0];
            let delivered = w.send(req);
            workers[0] = w;
            proof {
                assert(w == bump(ws0[0]));
                assert(workers@ =~= arrive_at(ws0, 0));
                lemma_update_id_facts(ws0, 0, bump(ws0[0]));
                lemma_sum_update(ws0, 0, bump(ws0[0]));
            }
            r = Some((id, delivered));
        }
        Event::Completion(id) => {
            proof {
                lemma_index_of_id(ws0, id);
            }
            let mut k: usize = 0;
            while k < workers.len() && workers[k].id != id
                invariant
                    workers@ == ws0,
                    k <= ws0.len(),
                    forall|t: int| 0 <= t < k ==> #[trigger] ws0[t].id != id,
                    has_id(ws0, id),
                decreases ws0.len() - k,
            {
                k += 1;
            }
            proof {
                if k == workers@.len() {
                    let i = choose|i: int| 0 <= i < ws0.len() && ws0[i].id == id;
                    assert(false);
                }
                let ix = index_of_id(ws0, id);
                if ix < k {
                    assert(ws0[ix].id != id);
                }
                if k < ix {
                    assert(ws0[k as int].id != id);
                }
                assert(k as int == ix);
            }
            let mut w = workers[k];
            w.pending = w.pending - 1;
            workers[k] = w;
            proof {
                assert(w == drop_one(ws0[k as int]));
                assert(workers@ =~= complete_at(ws0, k as int));
                lemma_update_id_facts(ws0, k as int, drop_one(ws0[k as int]));
                lemma_sum_update(ws0, k as int, drop_one(ws0[k as int]));
            }
            r = None;
        }
    }
    sort_pool(workers);
    proof {
        lemma_sort_facts(match ev {
            Event::Arrival(_) => arrive_at(ws0, 0),
            Event::Completion(id) => complete_at(ws0, index_of_id(ws0, id)),
        });
    }
    r
}

/// The round-robin routing state: a cursor walking positions `0 .. len`
/// cyclically. The position of a worker in the pool doubles as its slot.
pub struct CyclicRange {
    pub idx: usize,
    pub len: usize,
}

impl CyclicRange {
    /// The current slot; the cursor advances by one modulo the length.
    pub fn next(&mut self) -> (r: usize)
        requires
            old(self).idx < old(self).len,
        ensures
            r == old(self).idx,
            final(self).len == old(self).len,
            final(self).idx == (old(self).idx + 1) % (old(self).len as int),
            final(self).idx < final(self).len,
    {
        let i = self.idx;
        self.idx = (i + 1) % self.len;
        i
    }
}

/// Under round-robin the pool is never reordered, so each worker stays at
/// the position its identity names: the identity is the routing slot.
pub open spec fn ids_match_positions(ws: Seq<Worker>) -> bool {
    forall|i: int| 0 <= i < ws.len() ==> (#[trigger] ws[i].id) == i
}

/// What an event asks of a round-robin pool: an arrival needs the worker at
/// the cursor able to take one more; a completion must name a worker slot
/// with work outstanding.
pub open spec fn rr_event_ok(ws: Seq<Worker>, c: int, e: Event) -> bool {
    match e {
        Event::Arrival(_) => ws.len() > 0 && ws[c].pending < usize::MAX,
        Event::Completion(id) => id < ws.len() && ws[id as int].pending >= 1,
    }
}

/// The round-robin pool after one step: the worker at the cursor takes an
/// arrival; the worker named by a completion finishes. No reordering.
pub open spec fn rr_step_pool(ws: Seq<Worker>, c: int, e: Event) -> Seq<Worker> {
    match e {
        Event::Arrival(_) => arrive_at(ws, c),
        Event::Completion(id) => complete_at(ws, id as int),
    }
}

/// The cursor after one step: an arrival advances it by one modulo the pool
/// size; a completion leaves it alone.
pub open spec fn rr_step_cursor(n: int, c: int, e: Event) -> int {
    match e {
        Event::Arrival(_) => (c + 1) % n,
        Event::Completion(_) => c,
    }
}

/// The delivery a round-robin step hands back: an arrival goes to the
/// worker at the cursor; a completion delivers nothing.
pub open spec fn rr_action(ws: Seq<Worker>, c: int, e: Event) -> Option<(usize, Request)> {
    match e {
        Event::Arrival(req) => Some((ws[c].id, req)),
        Event::Completion(_) => None,
    }
}

/// One round-robin dispatcher step. An arrival is routed to the worker at
/// the current cursor position, that worker's pending count rises by one,
/// and the cursor advances by one modulo the pool size. A completion is
/// looked up directly by the identity it carries — the pool is never
/// reordered, so identity and position agree — and that worker's count
/// falls by one. Returns the delivery owed, as `dispatch` does.
pub fn dispatch_rr(workers: &mut Vec<Worker>, cursor: &mut CyclicRange, event: Event) -> (r:
    Option<(usize, Request)>)
    requires
        old(workers)@.len() > 0,
        ids_match_positions(old(workers)@),
        old(cursor).len == old(workers)@.len(),
        old(cursor).idx < old(cursor).len,
        rr_event_ok(old(workers)@, old(cursor).idx as int, event),
    ensures
        final(workers)@ == rr_step_pool(old(workers)@, old(cursor).idx as int, event),
        final(cursor).idx == rr_step_cursor(
            old(workers)@.len() as int,
            old(cursor).idx as int,
            event,
        ),
        final(cursor).len == old(cursor).len,
        final(cursor).idx < final(cursor).len,
        r == rr_action(old(workers)@, old(cursor).idx as int, event),
        final(workers)@.len() == old(workers)@.len(),
        ids_match_positions(final(workers)@),
        sum_pending(final(workers)@) == sum_pending(old(workers)@) + (if event is Arrival {
            1int
        } else {
            -1
        }),
{
    let ghost ws0 = workers@;
    match event {
        Event::Arrival(req) => {
            let i = cursor.next();
            let id = workers[i].id;
            let mut w = workers[i];
            let delivered = w.send(req);
            workers[i] = w;
            proof {
                assert(w == bump(ws0[i as int]));
                assert(workers@ =~= arrive_at(ws0, i as int));
                lemma_sum_update(ws0, i as int, bump(ws0[i as int]));
                assert forall|t: int| 0 <= t < workers@.len() implies (#[trigger] workers@[t].id)
                    == t by {
                    assert(workers@[t].id == ws0[t].id);
                }
            }
            Some((id, delivered))
        }
        Event::Completion(id) => {
            let mut w = workers[id];
            w.pending = w.pending - 1;
            workers[id] = w;
            proof {
                assert(w == drop_one(ws0[id as int]));
                assert(workers@ =~= complete_at(ws0, id as int));
                lemma_sum_update(ws0, id as int, drop_one(ws0[id as int]));
                assert forall|t: int| 0 <= t < workers@.len() implies (#[trigger] workers@[t].id)
                    == t by {
                    assert(workers@[t].id == ws0[t].id);
                }
            }
            None
        }
    }
}

/// Arrivals among a sequence of events.
pub open spec fn count_arrivals(es: Seq<Event>) -> int
    decreases es.len(),
{
    if es.len() == 0 {
        0
    } else {
        (if es[0] is Arrival {
            1int
        } else {
            0int
        }) + count_arrivals(es.drop_first())
    }
}

/// Completions among a sequence of events.
pub open spec fn count_completions(es: Seq<Event>) -> int
    decreases es.len(),
{
    if es.len() == 0 {
        0
    } else {
        (if es[0] is Completion {
            1int
        } else {
            0int
        }) + count_completions(es.drop_first())
    }
}

/// The pool a least-loaded run reaches after servicing a sequence of events.
pub open spec fn ll_run(ws: Seq<Worker>, es: Seq<Event>) -> Seq<Worker>
    decreases es.len(),
{
    if es.len() == 0 {
        ws
    } else {
        ll_run(ll_step(ws, es[0]), es.drop_first())
    }
}

/// Every event of the run is admissible in the state it meets.
pub open spec fn ll_events_ok(ws: Seq<Worker>, es: Seq<Event>) -> bool
    decreases es.len(),
{
    es.len() == 0 || (ll_event_ok(ws, es[0]) && ll_events_ok(ll_step(ws, es[0]), es.drop_first()))
}

/// One least-loaded step keeps the pool's shape: same size, identities
/// still distinct and the same set, order re-established, and the total
/// load moved by exactly one in the event's direction.
pub proof fn lemma_ll_step_invariants(ws: Seq<Worker>, e: Event)
    requires
        distinct_ids(ws),
        ll_event_ok(ws, e),
    ensures
        ll_step(ws, e).len() == ws.len(),
        distinct_ids(ll_step(ws, e)),
        sorted_by_pending(ll_step(ws, e)),
        forall|id: usize| #[trigger] has_id(ll_step(ws, e), id) == has_id(ws, id),
        sum_pending(ll_step(ws, e)) == sum_pending(ws) + (if e is Arrival {
            1int
        } else {
            -1
        }),
{
    match e {
        Event::Arrival(_) => {
            lemma_update_id_facts(ws, 0, bump(ws[0]));
            lemma_sum_update(ws, 0, bump(ws[0]));
            lemma_sort_facts(arrive_at(ws, 0));
        }
        Event::Completion(id) => {
            lemma_index_of_id(ws, id);
            let ix = index_of_id(ws, id);
            lemma_update_id_facts(ws, ix, drop_one(ws[ix]));
            lemma_sum_update(ws, ix, drop_one(ws[ix]));
            lemma_sort_facts(complete_at(ws, ix));
        }
    }
}

/// Conservation under the least-loaded policy: after any run of admissible
/// events, the total pending load equals what it was plus the arrivals
/// dispatched minus the completions processed — and, the counts being
/// naturals, no worker's pending count is ever negative.
pub proof fn lemma_conservation_ll(ws: Seq<Worker>, es: Seq<Event>)
    requires
        distinct_ids(ws),
        ll_events_ok(ws, es),
    ensures
        sum_pending(ll_run(ws, es)) == sum_pending(ws) + count_arrivals(es) - count_completions(
            es,
        ),
        ll_run(ws, es).len() == ws.len(),
        distinct_ids(ll_run(ws, es)),
        forall|k: int| 0 <= k < ll_run(ws, es).len() ==> #[trigger] ll_run(ws, es)[k].pending >= 0,
    decreases es.len(),
{
    if es.len() > 0 {
        lemma_ll_step_invariants(ws, es[0]);
        lemma_conservation_ll(ll_step(ws, es[0]), es.drop_first());
    }
}

/// Least-loaded correctness: in a sorted pool the next work item goes to
/// the head, which holds a minimum pending count; that worker's count rises
/// by exactly one, every other worker's count is untouched, and the pool
/// comes out sorted again, its new head again a minimum holder.
pub proof fn lemma_least_loaded(ws: Seq<Worker>, req: Request)
    requires
        sorted_by_pending(ws),
        distinct_ids(ws),
        ll_event_ok(ws, Event::Arrival(req)),
    ensures
        forall|k: int| 0 <= k < ws.len() ==> ws[0].pending <= #[trigger] ws[k].pending,
        ll_action(ws, Event::Arrival(req)) == Some((ws[0].id, req)),
        pending_of(ws, ws[0].id) == ws[0].pending,
        pending_of(ll_step(ws, Event::Arrival(req)), ws[0].id) == ws[0].pending + 1,
        forall|id: usize|
            has_id(ws, id) && id != ws[0].id ==> #[trigger] pending_of(
                ll_step(ws, Event::Arrival(req)),
                id,
            ) == pending_of(ws, id),
        sorted_by_pending(ll_step(ws, Event::Arrival(req))),
        forall|k: int|
            0 <= k < ll_step(ws, Event::Arrival(req)).len() ==> ll_step(
                ws,
                Event::Arrival(req),
            )[0].pending <= #[trigger] ll_step(ws, Event::Arrival(req))[k].pending,
{
    let e = Event::Arrival(req);
    let mid = arrive_at(ws, 0);
    lemma_update_id_facts(ws, 0, bump(ws[0]));
    lemma_sort_facts(mid);
}

/// A completion decrements only the worker it names: that worker's pending
/// count falls by exactly one and every other worker's count is unchanged,
/// under the least-loaded policy.
pub proof fn lemma_completion_ll(ws: Seq<Worker>, id: usize)
    requires
        distinct_ids(ws),
        ll_event_ok(ws, Event::Completion(id)),
    ensures
        pending_of(ll_step(ws, Event::Completion(id)), id) == pending_of(ws, id) - 1,
        forall|j: usize|
            has_id(ws, j) && j != id ==> #[trigger] pending_of(ll_step(ws, Event::Completion(id)), j)
                == pending_of(ws, j),
        forall|j: usize| #[trigger] has_id(ll_step(ws, Event::Completion(id)), j) == has_id(ws, j),
{
    lemma_index_of_id(ws, id);
    let ix = index_of_id(ws, id);
    lemma_update_id_facts(ws, ix, drop_one(ws[ix]));
    lemma_sort_facts(complete_at(ws, ix));
}

/// A completion decrements only the worker it names, under round-robin.
pub proof fn lemma_completion_rr(ws: Seq<Worker>, c: int, id: usize)
    requires
        ids_match_positions(ws),
        rr_event_ok(ws, c, Event::Completion(id)),
    ensures
        pending_of(rr_step_pool(ws, c, Event::Completion(id)), id) == pending_of(ws, id) - 1,
        forall|j: usize|
            has_id(ws, j) && j != id ==> #[trigger] pending_of(
                rr_step_pool(ws, c, Event::Completion(id)),
                j,
            ) == pending_of(ws, j),
{
    assert(distinct_ids(ws));
    assert(has_id(ws, id)) by {
        assert(ws[id as int].id == id);
    }
    lemma_index_of_id(ws, id);
    assert(index_of_id(ws, id) == id as int) by {
        let ix = index_of_id(ws, id);
        if ix < id as int {
            assert(ws[ix].id == ix);
        }
        if (id as int) < ix {
            assert(ws[id as int].id != id);
        }
    }
    lemma_update_id_facts(ws, id as int, drop_one(ws[id as int]));
}

/// Pools and cursor a round-robin run reaches after a sequence of events.
pub open spec fn rr_run(ws: Seq<Worker>, c: int, es: Seq<Event>) -> (Seq<Worker>, int)
    decreases es.len(),
{
    if es.len() == 0 {
        (ws, c)
    } else {
        rr_run(
            rr_step_pool(ws, c, es[0]),
            rr_step_cursor(ws.len() as int, c, es[0]),
            es.drop_first(),
        )
    }
}

/// Every event of the round-robin run is admissible in the state it meets.
pub open spec fn rr_events_ok(ws: Seq<Worker>, c: int, es: Seq<Event>) -> bool
    decreases es.len(),
{
    es.len() == 0 || (rr_event_ok(ws, c, es[0]) && rr_events_ok(
        rr_step_pool(ws, c, es[0]),
        rr_step_cursor(ws.len() as int, c, es[0]),
        es.drop_first(),
    ))
}

/// A run of arrivals only: no completion interleaved.
pub open spec fn all_arrivals(es: Seq<Event>) -> bool {
    forall|i: int| 0 <= i < es.len() ==> es[i] is Arrival
}

/// The identity round-robin assigns at the k-th of a sequence of dispatches.
pub open spec fn rr_pick(ws: Seq<Worker>, c: int, es: Seq<Event>, k: int) -> usize {
    rr_run(ws, c, es.take(k)).0[rr_run(ws, c, es.take(k)).1].id
}

/// Conservation under round-robin: as for least-loaded, the total pending
/// load moves by exactly the arrivals minus the completions, and the cursor
/// stays a valid position.
pub proof fn lemma_conservation_rr(ws: Seq<Worker>, c: int, es: Seq<Event>)
    requires
        ws.len() > 0,
        0 <= c < ws.len(),
        ids_match_positions(ws),
        rr_events_ok(ws, c, es),
    ensures
        sum_pending(rr_run(ws, c, es).0) == sum_pending(ws) + count_arrivals(es)
            - count_completions(es),
        rr_run(ws, c, es).0.len() == ws.len(),
        ids_match_positions(rr_run(ws, c, es).0),
        0 <= rr_run(ws, c, es).1 < ws.len(),
        forall|k: int|
            0 <= k < rr_run(ws, c, es).0.len() ==> #[trigger] rr_run(ws, c, es).0[k].pending >= 0,
    decreases es.len(),
{
    let n = ws.len() as int;
    if es.len() > 0 {
        let e = es[0];
        let p1 = rr_step_pool(ws, c, e);
        let c1 = rr_step_cursor(n, c, e);
        match e {
            Event::Arrival(_) => {
                lemma_sum_update(ws, c, bump(ws[c]));
                lemma_mod_division_less_than_divisor(c + 1, n);
            }
            Event::Completion(id) => {
                lemma_sum_update(ws, id as int, drop_one(ws[id as int]));
            }
        }
        assert(ids_match_positions(p1)) by {
            assert forall|t: int| 0 <= t < p1.len() implies (#[trigger] p1[t].id) == t by {
                assert(p1[t].id == ws[t].id);
            }
        }
        lemma_conservation_rr(p1, c1, es.drop_first());
    }
}

/// Round-robin cyclic property: over a sequence of dispatches with no
/// completion interleaved, the assigned identities walk the pool in cyclic
/// order from the starting cursor, and the cursor ends the run advanced by
/// the number of dispatches, modulo the pool size.
pub proof fn lemma_round_robin_cycle(ws: Seq<Worker>, c: int, es: Seq<Event>)
    requires
        ws.len() > 0,
        0 <= c < ws.len(),
        ids_match_positions(ws),
        all_arrivals(es),
    ensures
        rr_run(ws, c, es).0.len() == ws.len(),
        ids_match_positions(rr_run(ws, c, es).0),
        rr_run(ws, c, es).1 == (c + es.len()) % (ws.len() as int),
        forall|k: int|
            0 <= k < es.len() ==> (#[trigger] rr_pick(ws, c, es, k)) as int == (c + k) % (
            ws.len() as int),
    decreases es.len(),
{
    let n = ws.len() as int;
    if es.len() == 0 {
        lemma_small_mod(c as nat, n as nat);
    } else {
        let e = es[0];
        let p1 = rr_step_pool(ws, c, e);
        let c1 = rr_step_cursor(n, c, e);
        assert(e is Arrival);
        assert(p1.len() == ws.len());
        assert(ids_match_positions(p1)) by {
            assert forall|t: int| 0 <= t < p1.len() implies (#[trigger] p1[t].id) == t by {
                assert(p1[t].id == ws[t].id);
            }
        }
        lemma_mod_division_less_than_divisor(c + 1, n);
        assert(all_arrivals(es.drop_first())) by {
            assert forall|i: int| 0 <= i < es.drop_first().len() implies es.drop_first()[i]
                is Arrival by {
                assert(es.drop_first()[i] == es[i + 1]);
            }
        }
        lemma_round_robin_cycle(p1, c1, es.drop_first());
        assert(rr_run(ws, c, es) == rr_run(p1, c1, es.drop_first()));
        // cursor after the whole run
        lemma_cursor_chain(c, es.len() as int - 1, n);
        assert forall|k: int|
            0 <= k < es.len() implies (#[trigger] rr_pick(ws, c, es, k)) as int == (c + k) % n by {
            if k == 0 {
                assert(es.take(0) =~= Seq::<Event>::empty());
                assert(rr_run(ws, c, es.take(0)) == (ws, c));
                assert(rr_pick(ws, c, es, 0) == ws[c].id);
                lemma_small_mod(c as nat, n as nat);
            } else {
                assert(es.take(k).len() == k);
                assert(es.take(k)[0] == es[0]);
                assert(es.take(k).drop_first() =~= es.drop_first().take(k - 1));
                assert(rr_run(ws, c, es.take(k)) == rr_run(p1, c1, es.take(k).drop_first()));
                assert(rr_pick(ws, c, es, k) == rr_pick(p1, c1, es.drop_first(), k - 1));
                assert((rr_pick(p1, c1, es.drop_first(), k - 1)) as int == (c1 + (k - 1)) % n);
                lemma_cursor_chain(c, k - 1, n);
            }
        }
    }
}

/// Stepping the cursor once and then m more positions lands where stepping
/// m + 1 positions at once lands.
proof fn lemma_cursor_chain(c: int, m: int, n: int)
    requires
        0 < n,
        0 <= m,
        0 <= c,
    ensures
        ((c + 1) % n + m) % n == (c + 1 + m) % n,
{
    lemma_add_mod_noop_right((c + 1) % n, m, n);
    lemma_add_mod_noop(c + 1, m, n);
    lemma_add_mod_noop_right(c + 1, m, n);
}

} // verus!
