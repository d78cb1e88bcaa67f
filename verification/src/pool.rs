//! Work items, workers, and the worker pool's ordering discipline.
//!
//! A `Request` is one unit of simulated work. A `Worker` owns an identity and
//! a pending count; the dispatcher alone mutates the count. Under the
//! least-loaded policy the pool is kept sorted ascending by pending count with
//! a stable sort, so ties keep their prior relative order.

use vstd::prelude::*;

verus! {

/// One unit of work: an immutable value carrying a simulated duration.
pub struct Request {
    pub duration: usize,
}

impl Request {
    /// Perform the work this item stands for; its cost is the duration value.
    pub fn do_work(self) -> (r: usize)
        ensures
            r == self.duration,
    {
        self.duration
    }
}

/// A worker: a stable identity assigned at pool construction and the number
/// of work items assigned to it but not yet completed.
#[derive(Clone, Copy)]
pub struct Worker {
    pub id: usize,
    pub pending: usize,
}

impl Worker {
    /// A fresh worker starts with nothing pending.
    pub fn new(id: usize) -> (w: Worker)
        ensures
            w.id == id,
            w.pending == 0,
    {
        Worker { id, pending: 0 }
    }

    /// Accept one work item: the pending count rises by exactly one and the
    /// item is handed back for delivery on the worker's inbound queue.
    pub fn send(&mut self, req: Request) -> (r: Request)
        requires
            old(self).pending < usize::MAX,
        ensures
            final(self).id == old(self).id,
            final(self).pending == old(self).pending + 1,
            r == req,
    {
        self.pending = self.pending + 1;
        req
    }
}

/// Total load: the sum of all pending counts in the pool.
pub open spec fn sum_pending(ws: Seq<Worker>) -> int
    decreases ws.len(),
{
    if ws.len() == 0 {
        0
    } else {
        ws[0].pending + sum_pending(ws.drop_first())
    }
}

/// Sum of the squared pending counts, as the stats reporter needs it.
pub open spec fn sum_sq_pending(ws: Seq<Worker>) -> int
    decreases ws.len(),
{
    if ws.len() == 0 {
        0
    } else {
        ws[0].pending * ws[0].pending + sum_sq_pending(ws.drop_first())
    }
}

/// The pool is ordered ascending by pending count.
pub open spec fn sorted_by_pending(ws: Seq<Worker>) -> bool {
    forall|i: int, j: int|
        0 <= i < j < ws.len() ==> #[trigger] ws[i].pending <= #[trigger] ws[j].pending
}

/// Exactly one worker per identity.
pub open spec fn distinct_ids(ws: Seq<Worker>) -> bool {
    forall|i: int, j: int|
        0 <= i < j < ws.len() ==> #[trigger] ws[i].id != #[trigger] ws[j].id
}

/// Some worker in the pool carries this identity.
pub open spec fn has_id(ws: Seq<Worker>, id: usize) -> bool {
    exists|i: int| 0 <= i < ws.len() && #[trigger] ws[i].id == id
}

/// Position of the first worker carrying this identity, or -1 if absent.
pub open spec fn index_of_id(ws: Seq<Worker>, id: usize) -> int
    decreases ws.len(),
{
    if ws.len() == 0 {
        -1
    } else if ws[0].id == id {
        0
    } else {
        let r = index_of_id(ws.drop_first(), id);
        if r < 0 {
            -1
        } else {
            1 + r
        }
    }
}

/// Pending count of the first worker carrying this identity, or -1 if absent.
pub open spec fn pending_of(ws: Seq<Worker>, id: usize) -> int
    decreases ws.len(),
{
    if ws.len() == 0 {
        -1
    } else if ws[0].id == id {
        ws[0].pending as int
    } else {
        pending_of(ws.drop_first(), id)
    }
}

/// Insert a worker into a pool sorted by pending count, after every worker
/// whose count is no larger: a later arrival goes after its ties.
pub open spec fn insert_by_pending(s: Seq<Worker>, w: Worker) -> Seq<Worker>
    decreases s.len(),
{
    if s.len() == 0 {
        seq![w]
    } else if w.pending < s[0].pending {
        seq![w] + s
    } else {
        seq![s[0]] + insert_by_pending(s.drop_first(), w)
    }
}

/// Stable sort ascending by pending count: workers are taken left to right
/// and each goes after the ties already placed, so ties keep the relative
/// order they had.
pub open spec fn sort_by_pending(s: Seq<Worker>) -> Seq<Worker>
    decreases s.len(),
{
    if s.len() == 0 {
        Seq::empty()
    } else {
        insert_by_pending(sort_by_pending(s.drop_last()), s.last())
    }
}

pub proof fn lemma_sum_push(s: Seq<Worker>, w: Worker)
    ensures
        sum_pending(s.push(w)) == sum_pending(s) + w.pending,
        sum_sq_pending(s.push(w)) == sum_sq_pending(s) + w.pending * w.pending,
    decreases s.len(),
{
    if s.len() == 0 {
        assert(s.push(w)[0] == w);
        assert(s.push(w).drop_first() =~= Seq::<Worker>::empty());
        assert(sum_pending(s.push(w)) == s.push(w)[0].pending + sum_pending(
            s.push(w).drop_first(),
        ));
        assert(sum_sq_pending(s.push(w)) == s.push(w)[0].pending * s.push(w)[0].pending
            + sum_sq_pending(s.push(w).drop_first()));
    } else {
        assert(s.push(w)[0] == s[0]);
        assert(s.push(w).drop_first() =~= s.drop_first().push(w));
        lemma_sum_push(s.drop_first(), w);
        assert(sum_pending(s.push(w)) == s.push(w)[0].pending + sum_pending(
            s.push(w).drop_first(),
        ));
        assert(sum_sq_pending(s.push(w)) == s.push(w)[0].pending * s.push(w)[0].pending
            + sum_sq_pending(s.push(w).drop_first()));
    }
}

pub proof fn lemma_sum_nonneg(s: Seq<Worker>)
    ensures
        sum_pending(s) >= 0,
        sum_sq_pending(s) >= 0,
    decreases s.len(),
{
    if s.len() > 0 {
        lemma_sum_nonneg(s.drop_first());
    }
}

pub proof fn lemma_sum_update(s: Seq<Worker>, k: int, w: Worker)
    requires
        0 <= k < s.len(),
    ensures
        sum_pending(s.update(k, w)) == sum_pending(s) - s[k].pending + w.pending,
    decreases s.len(),
{
    if k == 0 {
        assert(s.update(0, w)[0] == w);
        assert(s.update(0, w).drop_first() =~= s.drop_first());
    } else {
        assert(s.update(k, w)[0] == s[0]);
        assert(s.update(k, w).drop_first() =~= s.drop_first().update(k - 1, w));
        lemma_sum_update(s.drop_first(), k - 1, w);
    }
}

pub proof fn lemma_id_facts_push(s: Seq<Worker>, w: Worker)
    ensures
        forall|id: usize|
            #[trigger] has_id(s.push(w), id) == (has_id(s, id) || w.id == id),
        forall|id: usize|
            #[trigger] pending_of(s.push(w), id) == if has_id(s, id) {
                pending_of(s, id)
            } else if w.id == id {
                w.pending as int
            } else {
                -1
            },
    decreases s.len(),
{
    if s.len() == 0 {
        assert(s.push(w).drop_first() =~= Seq::<Worker>::empty());
        assert(s.push(w)[0] == w);
        assert forall|id: usize|
            #[trigger] has_id(s.push(w), id) == (has_id(s, id) || w.id == id) by {
            if w.id == id {
                assert(s.push(w)[0].id == id);
            }
            if has_id(s.push(w), id) {
                let i = choose|i: int| 0 <= i < s.push(w).len() && s.push(w)[i].id == id;
                assert(i == 0);
            }
            if has_id(s, id) {
                let i = choose|i: int| 0 <= i < s.len() && s[i].id == id;
                assert(false);
            }
        }
        assert forall|id: usize|
            #[trigger] pending_of(s.push(w), id) == if has_id(s, id) {
                pending_of(s, id)
            } else if w.id == id {
                w.pending as int
            } else {
                -1
            } by {
            assert(!has_id(s, id)) by {
                if has_id(s, id) {
                    let i = choose|i: int| 0 <= i < s.len() && s[i].id == id;
                    assert(false);
                }
            }
            assert(pending_of(s.push(w).drop_first(), id) == -1);
        }
    } else {
        assert(s.push(w).drop_first() =~= s.drop_first().push(w));
        assert(s.push(w)[0] == s[0]);
        lemma_id_facts_push(s.drop_first(), w);
        assert forall|id: usize|
            #[trigger] has_id(s, id) == (s[0].id == id || has_id(s.drop_first(), id)) by {
            if has_id(s, id) {
                let i = choose|i: int| 0 <= i < s.len() && s[i].id == id;
                if i > 0 {
                    assert(s.drop_first()[i - 1].id == id);
                }
            }
            if s[0].id == id {
                assert(has_id(s, id));
            }
            if has_id(s.drop_first(), id) {
                let i = choose|i: int| 0 <= i < s.drop_first().len() && s.drop_first()[i].id == id;
                assert(s[i + 1].id == id);
            }
        }
        assert forall|id: usize|
            #[trigger] has_id(s.push(w), id) == (has_id(s, id) || w.id == id) by {
            if has_id(s.push(w), id) {
                let i = choose|i: int| 0 <= i < s.push(w).len() && s.push(w)[i].id == id;
                if i < s.len() {
                    assert(s[i].id == id);
                } else {
                    assert(w.id == id);
                }
            }
            if has_id(s, id) {
                let i = choose|i: int| 0 <= i < s.len() && s[i].id == id;
                assert(s.push(w)[i].id == id);
            }
            if w.id == id {
                assert(s.push(w)[s.len() as int].id == id);
            }
        }
        assert forall|id: usize|
            #[trigger] pending_of(s.push(w), id) == if has_id(s, id) {
                pending_of(s, id)
            } else if w.id == id {
                w.pending as int
            } else {
                -1
            } by {
            assert(pending_of(s.push(w), id) == if s[0].id == id {
                s[0].pending as int
            } else {
                pending_of(s.drop_first().push(w), id)
            });
            if s[0].id == id {
                assert(has_id(s, id));
                assert(pending_of(s, id) == s[0].pending as int);
            } else {
                assert(pending_of(s, id) == pending_of(s.drop_first(), id));
                assert(has_id(s, id) == has_id(s.drop_first(), id));
            }
        }
    }
}

pub proof fn lemma_cons_facts(x: Worker, s: Seq<Worker>)
    ensures
        (seq![x] + s).len() == s.len() + 1,
        sum_pending(seq![x] + s) == x.pending + sum_pending(s),
        sum_sq_pending(seq![x] + s) == x.pending * x.pending + sum_sq_pending(s),
        forall|id: usize| #[trigger] has_id(seq![x] + s, id) == (x.id == id || has_id(s, id)),
        forall|id: usize|
            #[trigger] pending_of(seq![x] + s, id) == if x.id == id {
                x.pending as int
            } else {
                pending_of(s, id)
            },
{
    let c = seq![x] + s;
    assert(c[0] == x);
    assert(c.drop_first() =~= s);
    assert(sum_pending(c) == c[0].pending + sum_pending(c.drop_first()));
    assert(sum_sq_pending(c) == c[0].pending * c[0].pending + sum_sq_pending(c.drop_first()));
    assert forall|id: usize| #[trigger] has_id(c, id) == (x.id == id || has_id(s, id)) by {
        if has_id(c, id) {
            let i = choose|i: int| 0 <= i < c.len() && c[i].id == id;
            if i > 0 {
                assert(s[i - 1].id == id);
            }
        }
        if x.id == id {
            assert(c[0].id == id);
        }
        if has_id(s, id) {
            let i = choose|i: int| 0 <= i < s.len() && s[i].id == id;
            assert(c[i + 1].id == id);
        }
    }
    assert forall|id: usize|
        #[trigger] pending_of(c, id) == (if x.id == id {
            x.pending as int
        } else {
            pending_of(s, id)
        }) by {
        assert(pending_of(c, id) == if c[0].id == id {
            c[0].pending as int
        } else {
            pending_of(c.drop_first(), id)
        });
    }
}

pub proof fn lemma_insert_facts(s: Seq<Worker>, w: Worker)
    ensures
        insert_by_pending(s, w).len() == s.len() + 1,
        sum_pending(insert_by_pending(s, w)) == sum_pending(s) + w.pending,
        sorted_by_pending(s) ==> sorted_by_pending(insert_by_pending(s, w)),
        insert_by_pending(s, w)[0] == (if s.len() > 0 && s[0].pending <= w.pending {
            s[0]
        } else {
            w
        }),
        forall|id: usize|
            #[trigger] has_id(insert_by_pending(s, w), id) == (has_id(s, id) || w.id == id),
        !has_id(s, w.id) ==> forall|id: usize|
            #[trigger] pending_of(insert_by_pending(s, w), id) == if id == w.id {
                w.pending as int
            } else {
                pending_of(s, id)
            },
        distinct_ids(s) && !has_id(s, w.id) ==> distinct_ids(insert_by_pending(s, w)),
    decreases s.len(),
{
    let r = insert_by_pending(s, w);
    if s.len() == 0 {
        assert(r =~= seq![w] + Seq::<Worker>::empty());
        lemma_cons_facts(w, Seq::<Worker>::empty());
        assert forall|id: usize| !(#[trigger] has_id(s, id)) by {
            if has_id(s, id) {
                let i = choose|i: int| 0 <= i < s.len() && s[i].id == id;
                assert(false);
            }
        }
        assert(distinct_ids(r));
    } else if w.pending < s[0].pending {
        assert(r == seq![w] + s);
        lemma_cons_facts(w, s);
        if sorted_by_pending(s) {
            assert forall|i: int, j: int|
                0 <= i < j < r.len() implies #[trigger] r[i].pending <= #[trigger] r[j].pending by {
                if i == 0 {
                    assert(r[j] == s[j - 1]);
                    if j > 1 {
                        assert(s[0].pending <= s[j - 1].pending);
                    }
                } else {
                    assert(r[i] == s[i - 1]);
                    assert(r[j] == s[j - 1]);
                }
            }
        }
        if distinct_ids(s) && !has_id(s, w.id) {
            assert forall|i: int, j: int|
                0 <= i < j < r.len() implies #[trigger] r[i].id != #[trigger] r[j].id by {
                assert(r[j] == s[j - 1]);
                if i == 0 {
                    assert(r[0] == w);
                } else {
                    assert(r[i] == s[i - 1]);
                }
            }
        }
    } else {
        let t = insert_by_pending(s.drop_first(), w);
        assert(r == seq![s[0]] + t);
        lemma_insert_facts(s.drop_first(), w);
        lemma_cons_facts(s[0], t);
        // relate s to its own head and tail
        assert(s =~= seq![s[0]] + s.drop_first());
        lemma_cons_facts(s[0], s.drop_first());
        if sorted_by_pending(s) {
            assert(sorted_by_pending(s.drop_first())) by {
                assert forall|i: int, j: int|
                    0 <= i < j < s.drop_first().len() implies #[trigger] s.drop_first()[i].pending
                    <= #[trigger] s.drop_first()[j].pending by {
                    assert(s.drop_first()[i] == s[i + 1]);
                    assert(s.drop_first()[j] == s[j + 1]);
                }
            }
            assert(t[0] == (if s.drop_first().len() > 0 && s.drop_first()[0].pending <= w.pending {
                s.drop_first()[0]
            } else {
                w
            }));
            assert(s[0].pending <= t[0].pending);
            assert forall|i: int, j: int|
                0 <= i < j < r.len() implies #[trigger] r[i].pending <= #[trigger] r[j].pending by {
                if i == 0 {
                    assert(r[j] == t[j - 1]);
                    if j > 1 {
                        assert(t[0].pending <= t[j - 1].pending);
                    }
                } else {
                    assert(r[i] == t[i - 1]);
                    assert(r[j] == t[j - 1]);
                }
            }
        }
        if distinct_ids(s) && !has_id(s, w.id) {
            assert(distinct_ids(s.drop_first())) by {
                assert forall|i: int, j: int|
                    0 <= i < j < s.drop_first().len() implies #[trigger] s.drop_first()[i].id
                    != #[trigger] s.drop_first()[j].id by {
                    assert(s.drop_first()[i] == s[i + 1]);
                    assert(s.drop_first()[j] == s[j + 1]);
                }
            }
            assert(!has_id(s.drop_first(), w.id)) by {
                if has_id(s.drop_first(), w.id) {
                    let i = choose|i: int|
                        0 <= i < s.drop_first().len() && s.drop_first()[i].id == w.id;
                    assert(s[i + 1].id == w.id);
                }
            }
            assert(!has_id(s.drop_first(), s[0].id)) by {
                if has_id(s.drop_first(), s[0].id) {
                    let i = choose|i: int|
                        0 <= i < s.drop_first().len() && s.drop_first()[i].id == s[0].id;
                    assert(s[i + 1].id == s[0].id);
                }
            }
            assert(!has_id(t, s[0].id));
            assert forall|i: int, j: int|
                0 <= i < j < r.len() implies #[trigger] r[i].id != #[trigger] r[j].id by {
                assert(r[j] == t[j - 1]);
                if i == 0 {
                    assert(r[0] == s[0]);
                    if t[j - 1].id == s[0].id {
                        assert(has_id(t, s[0].id));
                    }
                } else {
                    assert(r[i] == t[i - 1]);
                    assert(distinct_ids(t));
                }
            }
        }
    }
}

pub proof fn lemma_sort_facts(s: Seq<Worker>)
    ensures
        sort_by_pending(s).len() == s.len(),
        sum_pending(sort_by_pending(s)) == sum_pending(s),
        sorted_by_pending(sort_by_pending(s)),
        forall|id: usize| #[trigger] has_id(sort_by_pending(s), id) == has_id(s, id),
        distinct_ids(s) ==> distinct_ids(sort_by_pending(s)),
        distinct_ids(s) ==> forall|id: usize|
            #[trigger] pending_of(sort_by_pending(s), id) == pending_of(s, id),
    decreases s.len(),
{
    let r = sort_by_pending(s);
    if s.len() == 0 {
        assert(r =~= s);
    } else {
        let d = s.drop_last();
        let t = sort_by_pending(d);
        lemma_sort_facts(d);
        lemma_insert_facts(t, s.last());
        assert(d.push(s.last()) =~= s);
        lemma_sum_push(d, s.last());
        lemma_id_facts_push(d, s.last());
        if distinct_ids(s) {
            assert(distinct_ids(d)) by {
                assert forall|i: int, j: int|
                    0 <= i < j < d.len() implies #[trigger] d[i].id != #[trigger] d[j].id by {
                    assert(d[i] == s[i]);
                    assert(d[j] == s[j]);
                }
            }
            assert(!has_id(d, s.last().id)) by {
                if has_id(d, s.last().id) {
                    let i = choose|i: int| 0 <= i < d.len() && d[i].id == s.last().id;
                    assert(s[i].id == s[s.len() - 1].id);
                }
            }
            assert(!has_id(t, s.last().id));
            assert(distinct_ids(t));
            assert forall|id: usize|
                #[trigger] pending_of(r, id) == pending_of(s, id) by {
                assert(pending_of(s, id) == pending_of(d.push(s.last()), id));
                if id == s.last().id {
                    assert(!has_id(d, id));
                    assert(pending_of(s, id) == s.last().pending as int);
                    assert(pending_of(r, id) == s.last().pending as int);
                } else {
                    assert(pending_of(r, id) == pending_of(t, id));
                    assert(pending_of(t, id) == pending_of(d, id));
                    if !has_id(d, id) {
                        lemma_pending_of_absent(d, id);
                        assert(pending_of(s, id) == -1);
                    }
                }
            }
        }
    }
}

pub proof fn lemma_pending_of_absent(s: Seq<Worker>, id: usize)
    requires
        !has_id(s, id),
    ensures
        pending_of(s, id) == -1,
    decreases s.len(),
{
    if s.len() > 0 {
        assert(s[0].id != id);
        assert(!has_id(s.drop_first(), id)) by {
            if has_id(s.drop_first(), id) {
                let i = choose|i: int| 0 <= i < s.drop_first().len() && s.drop_first()[i].id == id;
                assert(s[i + 1].id == id);
            }
        }
        lemma_pending_of_absent(s.drop_first(), id);
    }
}

/// The position an insertion scan finds is the position the specification
/// inserts at: after every worker with a count no larger.
pub proof fn lemma_insert_position(s: Seq<Worker>, w: Worker, j: int)
    requires
        0 <= j <= s.len(),
        forall|k: int| 0 <= k < j ==> #[trigger] s[k].pending <= w.pending,
        j < s.len() ==> w.pending < s[j].pending,
    ensures
        insert_by_pending(s, w) == s.insert(j, w),
    decreases s.len(),
{
    if s.len() == 0 {
        assert(s.insert(0, w) =~= seq![w]);
    } else if w.pending < s[0].pending {
        assert(j == 0);
        assert(s.insert(0, w) =~= seq![w] + s);
    } else {
        assert(s[0].pending <= w.pending);
        assert(j > 0);
        assert forall|k: int| 0 <= k < j - 1 implies #[trigger] s.drop_first()[k].pending
            <= w.pending by {
            assert(s.drop_first()[k] == s[k + 1]);
        }
        if j - 1 < s.drop_first().len() {
            assert(s.drop_first()[j - 1] == s[j]);
        }
        lemma_insert_position(s.drop_first(), w, j - 1);
        assert(s.insert(j, w) =~= seq![s[0]] + s.drop_first().insert(j - 1, w));
    }
}

pub proof fn lemma_update_id_facts(s: Seq<Worker>, k: int, w: Worker)
    requires
        0 <= k < s.len(),
        w.id == s[k].id,
        distinct_ids(s),
    ensures
        distinct_ids(s.update(k, w)),
        forall|id: usize| #[trigger] has_id(s.update(k, w), id) == has_id(s, id),
        forall|id: usize|
            #[trigger] pending_of(s.update(k, w), id) == if id == w.id {
                w.pending as int
            } else {
                pending_of(s, id)
            },
    decreases s.len(),
{
    let u = s.update(k, w);
    assert forall|i: int, j: int|
        0 <= i < j < u.len() implies #[trigger] u[i].id != #[trigger] u[j].id by {
        assert(u[i].id == s[i].id);
        assert(u[j].id == s[j].id);
    }
    assert forall|id: usize| #[trigger] has_id(u, id) == has_id(s, id) by {
        if has_id(u, id) {
            let i = choose|i: int| 0 <= i < u.len() && u[i].id == id;
            assert(s[i].id == id);
        }
        if has_id(s, id) {
            let i = choose|i: int| 0 <= i < s.len() && s[i].id == id;
            assert(u[i].id == id);
        }
    }
    assert forall|id: usize|
        #[trigger] pending_of(u, id) == (if id == w.id {
            w.pending as int
        } else {
            pending_of(s, id)
        }) by {
        lemma_pending_of_update_inner(s, k, w, id);
    }
}

proof fn lemma_pending_of_update_inner(s: Seq<Worker>, k: int, w: Worker, id: usize)
    requires
        0 <= k < s.len(),
        w.id == s[k].id,
        distinct_ids(s),
    ensures
        pending_of(s.update(k, w), id) == if id == w.id {
            w.pending as int
        } else {
            pending_of(s, id)
        },
    decreases s.len(),
{
    let u = s.update(k, w);
    if k == 0 {
        assert(u[0] == w);
        assert(u.drop_first() =~= s.drop_first());
        assert(pending_of(u, id) == if u[0].id == id {
            u[0].pending as int
        } else {
            pending_of(u.drop_first(), id)
        });
        assert(pending_of(s, id) == if s[0].id == id {
            s[0].pending as int
        } else {
            pending_of(s.drop_first(), id)
        });
    } else {
        assert(u[0] == s[0]);
        assert(u.drop_first() =~= s.drop_first().update(k - 1, w));
        assert(distinct_ids(s.drop_first())) by {
            assert forall|i: int, j: int|
                0 <= i < j < s.drop_first().len() implies #[trigger] s.drop_first()[i].id
                != #[trigger] s.drop_first()[j].id by {
                assert(s.drop_first()[i] == s[i + 1]);
                assert(s.drop_first()[j] == s[j + 1]);
            }
        }
        assert(s.drop_first()[k - 1] == s[k]);
        lemma_pending_of_update_inner(s.drop_first(), k - 1, w, id);
        assert(pending_of(u, id) == if u[0].id == id {
            u[0].pending as int
        } else {
            pending_of(u.drop_first(), id)
        });
        assert(pending_of(s, id) == if s[0].id == id {
            s[0].pending as int
        } else {
            pending_of(s.drop_first(), id)
        });
        if s[0].id == id {
            assert(id != w.id);
        }
    }
}

/// Insert one worker into a pool already sorted ascending by pending count,
/// after every worker whose count is no larger.
fn insert_sorted(out: &mut Vec<Worker>, w: Worker)
    ensures
        final(out)@ == insert_by_pending(old(out)@, w),
{
    let mut j: usize = 0;
    while j < out.len() && out[j].pending <= w.pending
        invariant
            j <= out@.len(),
            out@ == old(out)@,
            forall|k: int| 0 <= k < j ==> #[trigger] out@[k].pending <= w.pending,
        decreases out@.len() - j,
    {
        j += 1;
    }
    proof {
        lemma_insert_position(out@, w, j as int);
    }
    out.insert(j, w);
}

/// Re-establish the pool order after a step: stable sort ascending by
/// pending count, so ties keep the relative order they had.
pub fn sort_pool(workers: &mut Vec<Worker>)
    ensures
        final(workers)@ == sort_by_pending(old(workers)@),
{
    let mut out: Vec<Worker> = Vec::new();
    let mut i: usize = 0;
    while i < workers.len()
        invariant
            i <= workers@.len(),
            workers@ == old(workers)@,
            out@ == sort_by_pending(workers@.take(i as int)),
        decreases workers@.len() - i,
    {
        let ghost prefix = workers@.take(i as int + 1);
        insert_sorted(&mut out, workers[i]);
        proof {
            assert(prefix.drop_last() =~= workers@.take(i as int));
            assert(prefix.last() == workers@[i as int]);
            assert(sort_by_pending(prefix) == insert_by_pending(
                sort_by_pending(prefix.drop_last()),
                prefix.last(),
            ));
        }
        i += 1;
    }
    proof {
        assert(workers@.take(workers@.len() as int) =~= workers@);
    }
    *workers = out;
}

pub proof fn lemma_index_of_id(s: Seq<Worker>, id: usize)
    requires
        has_id(s, id),
    ensures
        0 <= index_of_id(s, id) < s.len(),
        s[index_of_id(s, id)].id == id,
        forall|k: int| 0 <= k < index_of_id(s, id) ==> #[trigger] s[k].id != id,
        pending_of(s, id) == s[index_of_id(s, id)].pending,
    decreases s.len(),
{
    if s[0].id == id {
    } else {
        assert(has_id(s.drop_first(), id)) by {
            let i = choose|i: int| 0 <= i < s.len() && s[i].id == id;
            assert(s.drop_first()[i - 1].id == id);
        }
        lemma_index_of_id(s.drop_first(), id);
        assert(forall|k: int|
            0 <= k < index_of_id(s, id) ==> #[trigger] s[k].id != id) by {
            assert(forall|k: int|
                1 <= k < index_of_id(s, id) ==> s[k] == s.drop_first()[k - 1]);
        }
    }
}

} // verus!

