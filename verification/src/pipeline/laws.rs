//! What every operation of the pipeline's queue and read pool keeps.
use crate::pipeline;
use crate::pipeline::PoolView;
use crate::pipeline::QueueView;
use crate::pipeline::Ticket;
use vstd::prelude::*;

verus! {

// --------------------------------------------------------------- the queue
/// Is this entry the one that counts for its job?
pub open spec fn is_live(q: QueueView, e: Ticket) -> bool {
    q.queued.contains_key(e.2) && q.queued[e.2] == e.0
}

/// A sound queue: every job that waits has an entry at its priority, no two
/// entries arrived at once, and no job both waits and runs.
pub open spec fn queue_sound(q: QueueView) -> bool {
    &&& forall|i: usize| #[trigger]
        q.queued.contains_key(i) ==> exists|k: int|
            0 <= k < q.heap.len() && (#[trigger] q.heap[k]).2 == i && q.heap[k].0 == q.queued[i]
    &&& forall|k: int| 0 <= k < q.heap.len() ==> (#[trigger] q.heap[k]).1 < q.next_seq
    &&& forall|k: int, l: int|
        0 <= k < l < q.heap.len() ==> (#[trigger] q.heap[k]).1 != (#[trigger] q.heap[l]).1
    &&& forall|i: usize| #[trigger] q.queued.contains_key(i) ==> !q.in_flight.contains(i)
}

/// A queue starts sound, with every job waiting at `Background`.
pub proof fn lemma_queue_starts(n: int)
    requires
        0 <= n <= usize::MAX,
    ensures
        queue_sound(QueueView::filled(n)),
        forall|i: usize| QueueView::filled(n).queued.contains_key(i) <==> i < n,
{
    let q = QueueView::filled(n);
    assert forall|i: usize| #[trigger] q.queued.contains_key(i) implies exists|k: int|
        0 <= k < q.heap.len() && (#[trigger] q.heap[k]).2 == i && q.heap[k].0 == q.queued[i] by {
        assert(q.heap[i as int].2 == i);
    }
}

proof fn lemma_promote_one_keeps(q: QueueView, index: usize, priority: u8)
    requires
        queue_sound(q),
        q.next_seq < u64::MAX,
    ensures
        queue_sound(q.promoted_one(index, priority)),
{
    let r = q.promoted_one(index, priority);
    if q.queued.contains_key(index) && priority < q.queued[index] {
        assert forall|i: usize| #[trigger] r.queued.contains_key(i) implies exists|k: int|
            0 <= k < r.heap.len() && (#[trigger] r.heap[k]).2 == i && r.heap[k].0 == r.queued[i] by {
            if i == index {
                assert(r.heap[q.heap.len() as int].2 == i);
            } else {
                assert(q.queued.contains_key(i));
                let k = choose|k: int|
                    0 <= k < q.heap.len() && (#[trigger] q.heap[k]).2 == i && q.heap[k].0
                        == q.queued[i];
                assert(r.heap[k] == q.heap[k]);
            }
        }
    }
}

/// Promotion keeps a queue sound and the same jobs waiting, and never lowers
/// a job's urgency: each named job is at least that urgent afterwards, and
/// every other is as before.
pub proof fn lemma_promotion_never_lowers(q: QueueView, indexes: Seq<usize>, priority: u8)
    requires
        queue_sound(q),
        q.next_seq + indexes.len() <= u64::MAX,
    ensures
        ({
            let r = q.promoted(indexes, priority);
            &&& queue_sound(r)
            &&& r.in_flight == q.in_flight
            &&& r.next_seq <= q.next_seq + indexes.len()
            &&& forall|i: usize| #[trigger]
                r.queued.contains_key(i) <==> q.queued.contains_key(i)
            &&& forall|i: usize| #[trigger]
                q.queued.contains_key(i) ==> r.queued[i] <= q.queued[i]
            &&& forall|i: usize| #[trigger]
                q.queued.contains_key(i) && indexes.contains(i) ==> r.queued[i] <= priority
            &&& forall|i: usize| #[trigger]
                q.queued.contains_key(i) && !indexes.contains(i) ==> r.queued[i] == q.queued[i]
        }),
    decreases indexes.len(),
{
    if indexes.len() > 0 {
        let front = indexes.drop_last();
        let last = indexes.last();
        lemma_promotion_never_lowers(q, front, priority);
        let s = q.promoted(front, priority);
        lemma_promote_one_keeps(s, last, priority);
        let r = q.promoted(indexes, priority);
        assert forall|i: usize| indexes.contains(i) <==> front.contains(i) || i == last by {
            if indexes.contains(i) {
                let k = choose|k: int| 0 <= k < indexes.len() && indexes[k] == i;
                if k < front.len() {
                    assert(front[k] == i);
                }
            }
            if front.contains(i) {
                let k = choose|k: int| 0 <= k < front.len() && front[k] == i;
                assert(indexes[k] == i);
            }
            assert(indexes[indexes.len() - 1] == last);
        }
        assert forall|i: usize| #[trigger] q.queued.contains_key(i) implies r.queued[i]
            <= q.queued[i] && (indexes.contains(i) ==> r.queued[i] <= priority) && (
        !indexes.contains(i) ==> r.queued[i] == q.queued[i]) by {
            assert(s.queued.contains_key(i));
            assert(r.queued.contains_key(i));
        }
    }
}

proof fn lemma_least(heap: Seq<Ticket>, n: int)
    requires
        1 <= n <= heap.len(),
    ensures
        0 <= pipeline::least(heap, n) < n,
        forall|j: int|
            0 <= j < n ==> pipeline::taken_first(
                heap[pipeline::least(heap, n)],
                #[trigger] heap[j],
            ),
    decreases n,
{
    if n > 1 {
        lemma_least(heap, n - 1);
        let k = pipeline::least(heap, n - 1);
        let m = pipeline::least(heap, n);
        assert forall|j: int| 0 <= j < n implies pipeline::taken_first(
            heap[m],
            #[trigger] heap[j],
        ) by {
            if j < n - 1 {
                assert(pipeline::taken_first(heap[k], heap[j]));
            }
        }
    }
}

/// Taking a job keeps a queue sound. There is none exactly where no job
/// waits; and the one that is taken was waiting, runs now and waits no more,
/// and goes before every other that waits: more urgent, or as urgent and
/// earlier. So every job is taken exactly once.
pub proof fn lemma_pop(q: QueueView)
    requires
        queue_sound(q),
    ensures
        ({
            let (job, r) = q.popped();
            &&& queue_sound(r)
            &&& match job {
                None => r.in_flight == q.in_flight && forall|i: usize|
                    !#[trigger] q.queued.contains_key(i),
                Some((index, priority)) => {
                    &&& q.queued.contains_key(index)
                    &&& q.queued[index] == priority
                    &&& !q.in_flight.contains(index)
                    &&& r.queued == q.queued.remove(index)
                    &&& r.in_flight == q.in_flight.insert(index)
                    &&& forall|i: usize| #[trigger]
                        q.queued.contains_key(i) ==> priority <= q.queued[i]
                    &&& exists|k: int|
                        0 <= k < q.heap.len() && is_live(q, #[trigger] q.heap[k]) && q.heap[k].2
                            == index && forall|l: int|
                            0 <= l < q.heap.len() && is_live(q, #[trigger] q.heap[l])
                                ==> pipeline::taken_first(q.heap[k], q.heap[l])
                },
            }
        }),
    decreases q.heap.len(),
{
    if q.heap.len() == 0 {
        assert forall|i: usize| !#[trigger] q.queued.contains_key(i) by {
            if q.queued.contains_key(i) {
                let k = choose|k: int|
                    0 <= k < q.heap.len() && (#[trigger] q.heap[k]).2 == i && q.heap[k].0
                        == q.queued[i];
            }
        }
    } else {
        let n = q.heap.len() as int;
        lemma_least(q.heap, n);
        let k = pipeline::least(q.heap, n);
        let e = q.heap[k];
        let rest = QueueView { heap: q.heap.remove(k), ..q };
        let live = is_live(q, e);
        let r = if live {
            QueueView {
                queued: q.queued.remove(e.2),
                in_flight: q.in_flight.insert(e.2),
                ..rest
            }
        } else {
            rest
        };
        assert(queue_sound(r)) by {
            assert forall|i: usize| #[trigger] r.queued.contains_key(i) implies exists|m: int|
                0 <= m < r.heap.len() && (#[trigger] r.heap[m]).2 == i && r.heap[m].0
                    == r.queued[i] by {
                assert(q.queued.contains_key(i));
                let l = choose|l: int|
                    0 <= l < q.heap.len() && (#[trigger] q.heap[l]).2 == i && q.heap[l].0
                        == q.queued[i];
                assert(l != k);
                let m = if l < k {
                    l
                } else {
                    l - 1
                };
                assert(r.heap[m] == q.heap[l]);
            }
            assert forall|a: int| 0 <= a < r.heap.len() implies (#[trigger] r.heap[a]).1
                < r.next_seq by {
                let x = if a < k {
                    a
                } else {
                    a + 1
                };
                assert(r.heap[a] == q.heap[x]);
            }
            assert forall|a: int, b: int| 0 <= a < b < r.heap.len() implies (
            #[trigger] r.heap[a]).1 != (#[trigger] r.heap[b]).1 by {
                let x = if a < k {
                    a
                } else {
                    a + 1
                };
                let y = if b < k {
                    b
                } else {
                    b + 1
                };
                assert(r.heap[a] == q.heap[x] && r.heap[b] == q.heap[y]);
            }
        }
        if live {
            assert forall|i: usize| #[trigger] q.queued.contains_key(i) implies e.0
                <= q.queued[i] by {
                let l = choose|l: int|
                    0 <= l < q.heap.len() && (#[trigger] q.heap[l]).2 == i && q.heap[l].0
                        == q.queued[i];
                assert(pipeline::taken_first(q.heap[k], q.heap[l]));
            }
            assert(is_live(q, q.heap[k]));
        } else {
            lemma_pop(rest);
            match rest.popped().0 {
                None => {},
                Some((index, priority)) => {
                    let a = choose|a: int|
                        0 <= a < rest.heap.len() && is_live(rest, #[trigger] rest.heap[a])
                            && rest.heap[a].2 == index && forall|l: int|
                            0 <= l < rest.heap.len() && is_live(rest, #[trigger] rest.heap[l])
                                ==> pipeline::taken_first(rest.heap[a], rest.heap[l]);
                    let x = if a < k {
                        a
                    } else {
                        a + 1
                    };
                    assert(q.heap[x] == rest.heap[a]);
                    assert(is_live(q, q.heap[x]));
                    assert forall|l: int|
                        0 <= l < q.heap.len() && is_live(q, #[trigger] q.heap[l]) implies pipeline::taken_first(
                    q.heap[x], q.heap[l]) by {
                        if l != k {
                            let b = if l < k {
                                l
                            } else {
                                l - 1
                            };
                            assert(rest.heap[b] == q.heap[l]);
                            assert(is_live(rest, rest.heap[b]));
                        }
                    }
                },
            }
        }
    }
}

// ----------------------------------------------------------- the read pool
/// A sound pool: the limit is between floor and cap, tickets are handed out
/// once, and the probe is one of the reads under way.
pub open spec fn pool_sound(s: PoolView) -> bool {
    &&& s.controller.wf()
    &&& s.active.dom().finite()
    &&& forall|id: u64| #[trigger] s.active.contains_key(id) ==> id < s.next_ticket
    &&& forall|i: int|
        0 <= i < s.waiters.len() ==> (#[trigger] s.waiters[i]).1 < s.next_ticket
            && !s.active.contains_key(s.waiters[i].1)
    &&& forall|i: int, j: int|
        0 <= i < j < s.waiters.len() ==> (#[trigger] s.waiters[i]).1 != (#[trigger] s.waiters[j]).1
    &&& s.probe is Some ==> s.active.contains_key(s.probe->0)
}

/// A look for stalled reads keeps a pool sound; it only ever lowers the
/// limit, and never below the floor.
pub proof fn lemma_stall_check_keeps(s: PoolView, now: u64)
    requires
        pool_sound(s),
    ensures
        pool_sound(s.stall_checked(now)),
        s.controller.floor <= s.stall_checked(now).controller.limit <= s.controller.limit,
{
}

/// A new ticket keeps a pool sound.
pub proof fn lemma_waiting_keeps(s: PoolView, priority: u8)
    requires
        pool_sound(s),
        s.next_ticket < u64::MAX,
    ensures
        pool_sound(s.waiting(priority)),
{
}

/// A grant keeps a pool sound, takes exactly one ticket out of the row, and
/// leaves no more readers than the limit allows.
pub proof fn lemma_grant_keeps(s: PoolView, ticket: (u8, u64), sampled: bool, now: u64)
    requires
        pool_sound(s),
        s.may_read(ticket),
    ensures
        pool_sound(s.granted(ticket, sampled, now)),
        s.granted(ticket, sampled, now).active.dom().len() == s.active.dom().len() + 1,
        s.granted(ticket, sampled, now).active.dom().len() <= s.controller.limit,
        !s.granted(ticket, sampled, now).waiters.contains(ticket),
{
    let r = s.granted(ticket, sampled, now);
    let k = choose|k: int| 0 <= k < s.waiters.len() && s.waiters[k] == ticket;
    assert forall|j: int| 0 <= j < s.waiters.len() && j != k implies #[trigger] s.waiters[j]
        != ticket by {
        if j < k {
            assert(s.waiters[j].1 != s.waiters[k].1);
        } else {
            assert(s.waiters[k].1 != s.waiters[j].1);
        }
    }
    pipeline::lemma_ticket_at(s.waiters, ticket, k);
    assert(!s.active.contains_key(s.waiters[k].1));
    assert forall|a: int| 0 <= a < r.waiters.len() implies (#[trigger] r.waiters[a]).1
        < r.next_ticket && !r.active.contains_key(r.waiters[a].1) && r.waiters[a] != ticket by {
        let x = if a < k {
            a
        } else {
            a + 1
        };
        assert(r.waiters[a] == s.waiters[x]);
        if x < k {
            assert(s.waiters[x].1 != s.waiters[k].1);
        } else {
            assert(s.waiters[k].1 != s.waiters[x].1);
        }
    }
    assert forall|a: int, b: int| 0 <= a < b < r.waiters.len() implies (#[trigger] r.waiters[a]).1
        != (#[trigger] r.waiters[b]).1 by {
        let x = if a < k {
            a
        } else {
            a + 1
        };
        let y = if b < k {
            b
        } else {
            b + 1
        };
        assert(r.waiters[a] == s.waiters[x] && r.waiters[b] == s.waiters[y]);
    }
    assert(r.active.dom() =~= s.active.dom().insert(ticket.1));
}

/// Where a slot is free and someone waits, exactly one ticket may read: the
/// most urgent, and of equally urgent ones the first to arrive.
pub proof fn lemma_someone_may_read(s: PoolView)
    requires
        pool_sound(s),
        s.active.dom().len() < s.controller.limit,
        s.waiters.len() > 0,
    ensures
        exists|ticket: (u8, u64)| #[trigger] s.may_read(ticket),
        forall|a: (u8, u64), b: (u8, u64)| #[trigger]
            s.may_read(a) && #[trigger] s.may_read(b) ==> a == b,
{
    let k = lemma_first_waiter(s.waiters, s.waiters.len() as int);
    assert(s.waiters.contains(s.waiters[k]));
    assert(s.may_read(s.waiters[k]));
    assert forall|a: (u8, u64), b: (u8, u64)| #[trigger] s.may_read(a) && #[trigger] s.may_read(
        b,
    ) implies a == b by {
        let i = choose|i: int| 0 <= i < s.waiters.len() && s.waiters[i] == a;
        let j = choose|j: int| 0 <= j < s.waiters.len() && s.waiters[j] == b;
        assert(pipeline::goes_first(a, s.waiters[j]));
        assert(pipeline::goes_first(b, s.waiters[i]));
    }
}

proof fn lemma_first_waiter(waiters: Seq<(u8, u64)>, n: int) -> (k: int)
    requires
        1 <= n <= waiters.len(),
    ensures
        0 <= k < n,
        forall|i: int| 0 <= i < n ==> pipeline::goes_first(waiters[k], #[trigger] waiters[i]),
    decreases n,
{
    if n == 1 {
        0
    } else {
        let k = lemma_first_waiter(waiters, n - 1);
        let m = if pipeline::goes_first(waiters[k], waiters[n - 1]) {
            k
        } else {
            n - 1
        };
        assert forall|i: int| 0 <= i < n implies pipeline::goes_first(
            waiters[m],
            #[trigger] waiters[i],
        ) by {
            if i < n - 1 {
                assert(pipeline::goes_first(waiters[k], waiters[i]));
            }
        }
        m
    }
}

/// A release keeps a pool sound.
pub proof fn lemma_release_keeps(s: PoolView, id: u64, started: u64, now: u64)
    requires
        pool_sound(s),
        s.controller.limit < usize::MAX,
    ensures
        pool_sound(s.released(id, started, now)),
        !s.released(id, started, now).active.contains_key(id),
{
    let r = PoolView { active: s.active.remove(id), ..s };
    assert forall|i: int| 0 <= i < r.waiters.len() implies (#[trigger] r.waiters[i]).1
        < r.next_ticket && !r.active.contains_key(r.waiters[i].1) by {
        assert(!s.active.contains_key(s.waiters[i].1));
    }
}

/// A fast probe cannot outvote a stuck read: while any other read that
/// counts is older than the grow threshold, no release raises the limit.
pub proof fn lemma_stuck_read_vetoes_growth(s: PoolView, id: u64, started: u64, now: u64)
    requires
        pool_sound(s),
        s.controller.limit < usize::MAX,
        pipeline::stuck(s.active.remove(id), now, s.controller.grow_below as int),
    ensures
        s.released(id, started, now).controller.limit <= s.controller.limit,
{
}

/// A read above the sample size feeds no decision: its release moves the
/// limit only where another read is stalled.
pub proof fn lemma_large_reads_are_not_sampled(s: PoolView, id: u64, started: u64, now: u64)
    requires
        s.active.contains_key(id),
        s.active[id].excluded,
    ensures
        s.released(id, started, now).controller == (PoolView {
            active: s.active.remove(id),
            ..s
        }).stall_checked(now).controller,
{
}

/// A probe between the two thresholds moves nothing.
pub proof fn lemma_dead_band_holds(s: PoolView, id: u64, started: u64, now: u64)
    requires
        s.controller.grow_below <= pipeline::since(now, started) <= s.controller.shrink_above,
    ensures
        s.released(id, started, now).controller == (PoolView {
            active: s.active.remove(id),
            ..s
        }).stall_checked(now).controller,
{
}

} // verus!
