use loadbalancer::dispatcher::CyclicRange;
use loadbalancer::dispatcher::Event;
use loadbalancer::dispatcher::dispatch;
use loadbalancer::dispatcher::dispatch_rr;
use loadbalancer::pool::Request;
use loadbalancer::pool::Worker;

fn pool_of(counts: &[(usize, usize)]) -> Vec<Worker> {
    counts.iter().map(|&(id, pending)| Worker { id, pending }).collect()
}

#[test]
fn worker_new_starts_idle() {
    let w = Worker::new(7);
    assert_eq!(w.id, 7);
    assert_eq!(w.pending, 0);
}

#[test]
fn worker_send_increments_and_returns_item() {
    let mut w = Worker::new(3);
    let r = w.send(Request { duration: 42 });
    assert_eq!(r.duration, 42);
    assert_eq!(w.pending, 1);
    assert_eq!(w.id, 3);
}

#[test]
fn request_do_work_yields_duration() {
    let req = Request { duration: 1234 };
    assert_eq!(req.do_work(), 1234);
}

#[test]
fn cyclic_range_wraps() {
    let mut c = CyclicRange { idx: 0, len: 3 };
    assert_eq!(c.next(), 0);
    assert_eq!(c.next(), 1);
    assert_eq!(c.next(), 2);
    assert_eq!(c.next(), 0);
    assert_eq!(c.idx, 1);
}

// Pool size 1, least-loaded: three items arrive before any completion; all
// three route to the sole worker and its count reaches 3, then three
// completions bring it back to 0.
#[test]
fn single_worker_backlog_drains() {
    let mut ws = vec![Worker::new(0)];
    for n in 1..=3usize {
        let r = dispatch(&mut ws, Event::Arrival(Request { duration: n }));
        let (id, req) = r.expect("an arrival owes a delivery");
        assert_eq!(id, 0);
        assert_eq!(req.duration, n);
        assert_eq!(ws[0].pending, n);
    }
    for n in (0..3usize).rev() {
        let r = dispatch(&mut ws, Event::Completion(0));
        assert!(r.is_none());
        assert_eq!(ws[0].pending, n);
    }
}

// Pool size 3, round-robin, cursor at 0: four dispatches with no completion
// route to identities [0, 1, 2, 0] and leave the cursor at 1.
#[test]
fn round_robin_cycles_and_wraps() {
    let mut ws = vec![Worker::new(0), Worker::new(1), Worker::new(2)];
    let mut cursor = CyclicRange { idx: 0, len: 3 };
    let mut routed = Vec::new();
    for n in 0..4usize {
        let r = dispatch_rr(&mut ws, &mut cursor, Event::Arrival(Request { duration: n }));
        let (id, _) = r.expect("an arrival owes a delivery");
        routed.push(id);
    }
    assert_eq!(routed, vec![0, 1, 2, 0]);
    assert_eq!(cursor.idx, 1);
    assert_eq!(ws[0].pending, 2);
    assert_eq!(ws[1].pending, 1);
    assert_eq!(ws[2].pending, 1);
}

// The next item always goes to a worker holding the minimum pending count,
// that worker's count rises by exactly one, and the pool is re-sorted.
#[test]
fn least_loaded_routes_to_minimum() {
    let mut ws = pool_of(&[(2, 0), (0, 1), (1, 2)]);
    let r = dispatch(&mut ws, Event::Arrival(Request { duration: 9 }));
    let (id, _) = r.expect("an arrival owes a delivery");
    assert_eq!(id, 2);
    // after the bump the pool is stably re-sorted: the bumped worker keeps
    // its place ahead of its tie
    let snapshot: Vec<(usize, usize)> = ws.iter().map(|w| (w.id, w.pending)).collect();
    assert_eq!(snapshot, vec![(2, 1), (0, 1), (1, 2)]);
}

// Ties keep their prior relative order: with every count equal, arrivals
// walk the pool in its original order.
#[test]
fn least_loaded_tie_break_is_stable() {
    let mut ws = pool_of(&[(4, 0), (5, 0), (6, 0)]);
    let mut routed = Vec::new();
    for _ in 0..3 {
        let r = dispatch(&mut ws, Event::Arrival(Request { duration: 1 }));
        routed.push(r.expect("an arrival owes a delivery").0);
    }
    assert_eq!(routed, vec![4, 5, 6]);
}

// A completion decrements only the worker it names, under both policies.
#[test]
fn completion_decrements_only_named_worker() {
    let mut ws = pool_of(&[(0, 1), (1, 2), (2, 2)]);
    let r = dispatch(&mut ws, Event::Completion(1));
    assert!(r.is_none());
    let mut snapshot: Vec<(usize, usize)> = ws.iter().map(|w| (w.id, w.pending)).collect();
    snapshot.sort();
    assert_eq!(snapshot, vec![(0, 1), (1, 1), (2, 2)]);
}

#[test]
fn completion_rr_decrements_only_named_worker() {
    let mut ws = pool_of(&[(0, 2), (1, 3), (2, 2)]);
    let mut cursor = CyclicRange { idx: 2, len: 3 };
    let r = dispatch_rr(&mut ws, &mut cursor, Event::Completion(1));
    assert!(r.is_none());
    assert_eq!(cursor.idx, 2);
    let snapshot: Vec<(usize, usize)> = ws.iter().map(|w| (w.id, w.pending)).collect();
    assert_eq!(snapshot, vec![(0, 2), (1, 2), (2, 2)]);
}

// Conservation under round-robin: same bookkeeping, other policy.
#[test]
fn conservation_across_a_round_robin_run() {
    let mut ws = vec![Worker::new(0), Worker::new(1), Worker::new(2)];
    let mut cursor = CyclicRange { idx: 0, len: 3 };
    let events = [
        Event::Arrival(Request { duration: 1 }),
        Event::Arrival(Request { duration: 2 }),
        Event::Completion(0),
        Event::Arrival(Request { duration: 3 }),
        Event::Completion(1),
    ];
    let mut dispatched = 0i64;
    let mut completed = 0i64;
    for e in events {
        match e {
            Event::Arrival(_) => dispatched += 1,
            Event::Completion(_) => completed += 1,
        }
        dispatch_rr(&mut ws, &mut cursor, e);
        let total: i64 = ws.iter().map(|w| w.pending as i64).sum();
        assert_eq!(total, dispatched - completed);
    }
}

// Conservation: at every snapshot of a run, the total pending load equals
// the arrivals dispatched so far minus the completions processed.
#[test]
fn conservation_across_a_run() {
    let mut ws = vec![Worker::new(0), Worker::new(1)];
    let events = [
        Event::Arrival(Request { duration: 1 }),
        Event::Arrival(Request { duration: 2 }),
        Event::Arrival(Request { duration: 3 }),
        Event::Completion(0),
        Event::Arrival(Request { duration: 4 }),
        Event::Completion(1),
        Event::Completion(1),
    ];
    let mut dispatched = 0i64;
    let mut completed = 0i64;
    for e in events {
        match e {
            Event::Arrival(_) => dispatched += 1,
            Event::Completion(_) => completed += 1,
        }
        dispatch(&mut ws, e);
        let total: i64 = ws.iter().map(|w| w.pending as i64).sum();
        assert_eq!(total, dispatched - completed);
    }
}
