//! What the pool, the queue and the thumbs do, said of their limits, jobs and
//! pixels themselves.
use crate::orient;
use crate::pipeline;
use crate::pipeline::laws;
use crate::pipeline::PoolController;
use crate::pipeline::PoolView;
use crate::pipeline::QueueView;
use vstd::prelude::*;

verus! {

// ----------------------------------------------------------- the controller
/// One more reader is one more, up to the cap; halving halves, down to the
/// floor; the rest of a controller stays.
pub proof fn lemma_limits_move_as_named(c: PoolController)
    requires
        c.wf(),
        c.limit < usize::MAX,
    ensures
        c.grown() == (PoolController { limit: c.grown().limit, ..c }),
        c.halved() == (PoolController { limit: c.halved().limit, ..c }),
        c.limit < c.cap ==> c.grown().limit == c.limit + 1,
        c.limit == c.cap ==> c.grown().limit == c.limit,
        2 * c.floor <= c.limit ==> c.halved().limit == c.limit as int / 2,
        2 * c.floor > c.limit ==> c.halved().limit == c.floor,
        c.grown().wf() && c.halved().wf(),
{
}

/// A read that counts is older than a threshold.
pub open spec fn is_late(s: PoolView, id: u64, now: u64, threshold: int) -> bool {
    s.active.contains_key(id) && !s.active[id].excluded && s.active[id].started + threshold < now
}

/// Some read that counts, but for one, is older than a threshold.
pub open spec fn another_is_late(s: PoolView, but: Option<u64>, now: u64, threshold: int) -> bool {
    exists|id: u64| Some(id) != but && #[trigger] is_late(s, id, now, threshold)
}

/// The last shrink was longer ago than the shrink threshold.
pub open spec fn may_shrink(s: PoolView, now: u64) -> bool {
    match s.last_shrink {
        Some(t) => t + s.controller.shrink_above < now,
        None => true,
    }
}

proof fn lemma_stuck_is_late(s: PoolView, but: Option<u64>, now: u64, threshold: int)
    requires
        0 <= threshold,
    ensures
        pipeline::stuck(
            match but {
                Some(id) => s.active.remove(id),
                None => s.active,
            },
            now,
            threshold,
        ) <==> another_is_late(s, but, now, threshold),
{
    let active = match but {
        Some(id) => s.active.remove(id),
        None => s.active,
    };
    if pipeline::stuck(active, now, threshold) {
        let id = choose|id: u64|
            active.contains_key(id) && !(#[trigger] active[id]).excluded && pipeline::since(
                now,
                active[id].started,
            ) > threshold;
        assert(is_late(s, id, now, threshold));
    }
    if another_is_late(s, but, now, threshold) {
        let id = choose|id: u64| Some(id) != but && #[trigger] is_late(s, id, now, threshold);
        assert(active.contains_key(id) && !active[id].excluded);
    }
}

/// A look for stalled reads halves the limit exactly where a read that counts
/// is older than the shrink threshold and no shrink was that recent; it
/// remembers the shrink where the limit changed; and changes nothing else.
pub proof fn lemma_stalled_reads_halve_the_limit(s: PoolView, now: u64)
    ensures
        ({
            let t = s.stall_checked(now);
            let stalled = another_is_late(s, None, now, s.controller.shrink_above as int)
                && may_shrink(s, now);
            &&& t == (PoolView { controller: t.controller, last_shrink: t.last_shrink, ..s })
            &&& stalled ==> t.controller == s.controller.halved()
            &&& !stalled ==> t == s
            &&& t.controller != s.controller ==> t.last_shrink == Some(now)
            &&& t.controller == s.controller ==> t.last_shrink == s.last_shrink
        }),
{
    lemma_stuck_is_late(s, None, now, s.controller.shrink_above as int);
    assert(s.window_open(now) == may_shrink(s, now));
}

/// A release ends its read. Where no other read is stalled, the limit moves by
/// the probe alone, and by a read that counts: it grows by one after a fast
/// one, unless another read is slower than that; it is halved after a slow one,
/// unless it was a moment ago; and else it stays.
pub proof fn lemma_what_a_release_does(s: PoolView, id: u64, now: u64)
    requires
        s.active.contains_key(id),
        s.active[id].started <= now,
        s.controller.wf(),
        s.controller.grow_below <= s.controller.shrink_above,
        !another_is_late(s, Some(id), now, s.controller.shrink_above as int),
    ensures
        ({
            let read = s.active[id];
            let t = s.released(id, read.started, now);
            let c = s.controller;
            let took = now - read.started;
            let probe = s.probe == Some(id) && !read.excluded;
            let fast = probe && took < c.grow_below && !another_is_late(
                s,
                Some(id),
                now,
                c.grow_below as int,
            );
            let slow = probe && took > c.shrink_above && may_shrink(s, now);
            &&& t.active == s.active.remove(id)
            &&& t.waiters == s.waiters
            &&& t.next_ticket == s.next_ticket
            &&& s.probe == Some(id) ==> t.probe is None
            &&& s.probe != Some(id) ==> t.probe == s.probe
            &&& fast ==> t.controller == c.grown()
            &&& slow ==> t.controller == c.halved()
            &&& !fast && !slow ==> t.controller == c
        }),
{
    let c = s.controller;
    lemma_stuck_is_late(s, Some(id), now, c.shrink_above as int);
    lemma_stuck_is_late(s, Some(id), now, c.grow_below as int);
    assert(s.window_open(now) == may_shrink(s, now));
}

/// A grant takes the ticket out of the row and starts its read now, as one
/// that counts; it becomes the probe where it may and there is none.
pub proof fn lemma_what_a_grant_does(s: PoolView, ticket: (u8, u64), sampled: bool, now: u64)
    requires
        s.may_read(ticket),
        s.waiters.no_duplicates(),
    ensures
        ({
            let t = s.granted(ticket, sampled, now);
            &&& t.controller == s.controller
            &&& t.last_shrink == s.last_shrink
            &&& t.next_ticket == s.next_ticket
            &&& t.active.contains_key(ticket.1)
            &&& t.active[ticket.1].started == now
            &&& !t.active[ticket.1].excluded
            &&& t.active.remove(ticket.1) == s.active.remove(ticket.1)
            &&& t.waiters.len() + 1 == s.waiters.len()
            &&& !t.waiters.contains(ticket)
            &&& sampled && s.probe is None ==> t.probe == Some(ticket.1)
            &&& !sampled || s.probe is Some ==> t.probe == s.probe
        }),
{
    let t = s.granted(ticket, sampled, now);
    let k = choose|k: int| 0 <= k < s.waiters.len() && s.waiters[k] == ticket;
    assert forall|j: int| 0 <= j < k implies #[trigger] s.waiters[j] != ticket by {}
    pipeline::lemma_ticket_at(s.waiters, ticket, k);
    assert(t.active.remove(ticket.1) =~= s.active.remove(ticket.1));
    if t.waiters.contains(ticket) {
        let i = choose|i: int| 0 <= i < t.waiters.len() && t.waiters[i] == ticket;
        let j = if i < k {
            i
        } else {
            i + 1
        };
        assert(s.waiters[j] == ticket && j != k);
    }
}

// ---------------------------------------------------------------- the queue
/// A promotion brings each named job that waits to the urgency named, where it
/// was lower, and leaves every other job.
pub proof fn lemma_promotion_is_exact(
    q: QueueView,
    indexes: Seq<usize>,
    priority: u8,
    job: usize,
)
    ensures
        ({
            let r = q.promoted(indexes, priority);
            &&& r.in_flight == q.in_flight
            &&& r.queued.contains_key(job) <==> q.queued.contains_key(job)
            &&& q.queued.contains_key(job) && indexes.contains(job) ==> r.queued[job] == if priority
                < q.queued[job] {
                priority
            } else {
                q.queued[job]
            }
            &&& q.queued.contains_key(job) && !indexes.contains(job) ==> r.queued[job]
                == q.queued[job]
        }),
    decreases indexes.len(),
{
    if indexes.len() > 0 {
        let front = indexes.drop_last();
        lemma_promotion_is_exact(q, front, priority, job);
        if front.contains(job) {
            let k = choose|k: int| 0 <= k < front.len() && front[k] == job;
            assert(indexes[k] == job);
        }
        if indexes.contains(job) && indexes.last() != job {
            let k = choose|k: int| 0 <= k < indexes.len() && indexes[k] == job;
            assert(front[k] == job);
        }
        assert(indexes[indexes.len() - 1] == indexes.last());
    }
}

/// Jobs start in the order of their files, all of them at the lowest urgency
/// and none under way; visible ones are most urgent.
pub proof fn lemma_how_jobs_start(n: int, job: usize)
    requires
        0 <= n <= usize::MAX,
    ensures
        ({
            let q = QueueView::filled(n);
            &&& q.queued.contains_key(job) <==> job < n
            &&& job < n ==> q.queued[job] == pipeline::Priority::Background.rank()
            &&& job < n ==> q.heap[job as int] == (2u8, job as u64, job)
            &&& q.heap.len() == n
            &&& !q.in_flight.contains(job)
        }),
        pipeline::Priority::Visible.rank() < pipeline::Priority::Prefetch.rank(),
        pipeline::Priority::Prefetch.rank() < pipeline::Priority::Background.rank(),
{
}

// --------------------------------------------------------------- the thumbs
/// An image within the long edge keeps its size. A larger one gets it as its
/// longer side, and as its shorter one what keeps the shape, cut to whole
/// pixels and at least one.
pub proof fn lemma_fitting(w: int, h: int, edge: int)
    requires
        1 <= w,
        1 <= h,
        1 <= edge,
    ensures
        ({
            let (a, b) = pipeline::fitted(w, h, edge);
            &&& w <= edge && h <= edge ==> (a, b) == (w, h)
            &&& w > edge && w >= h ==> a == edge && (b * w <= h * edge < (b + 1) * w || (b == 1 && h
                * edge < w))
            &&& h > edge && h > w ==> b == edge && (a * h <= w * edge < (a + 1) * h || (a == 1 && w
                * edge < h))
            &&& 1 <= a <= w
            &&& 1 <= b <= h
        }),
{
    if w > edge && w >= h {
        lemma_scaled(h, edge, w);
    } else if h > edge && h > w {
        lemma_scaled(w, edge, h);
    }
}

proof fn lemma_scaled(side: int, edge: int, longest: int)
    requires
        1 <= side <= longest,
        1 <= edge < longest,
    ensures
        ({
            let s = pipeline::larger(side * edge / longest, 1);
            &&& s * longest <= side * edge < (s + 1) * longest || (s == 1 && side * edge < longest)
            &&& 1 <= s <= side
        }),
{
    let p = side * edge;
    let q = p / longest;
    assert(q * longest <= p < (q + 1) * longest) by (nonlinear_arith)
        requires
            q == p / longest,
            longest > 0,
    ;
    assert(q <= side && q >= 0) by (nonlinear_arith)
        requires
            q * longest <= side * edge,
            p < (q + 1) * longest,
            p == side * edge,
            1 <= side,
            1 <= edge < longest,
    ;
    if q < 1 {
        assert(p < longest) by (nonlinear_arith)
            requires
                p < (q + 1) * longest,
                q == 0,
        ;
    }
}

/// A gray pixel becomes three equal bytes; pixels of three bytes stay.
pub proof fn lemma_gray_is_widened(pixels: Seq<u8>, w: int, h: int, i: int, c: int)
    requires
        0 <= i < pixels.len(),
        0 <= c < 3,
    ensures
        pixels.len() == w * h ==> pipeline::in_rgb(pixels, w, h).len() == 3 * pixels.len()
            && pipeline::in_rgb(pixels, w, h)[3 * i + c] == pixels[i],
        pixels.len() != w * h ==> pipeline::in_rgb(pixels, w, h) == pixels,
{
    assert((3 * i + c) / 3 == i);
}

/// A thumb has the shape of the image as it is displayed, within 320 pixels,
/// and is its own pixels, displayed, where it is within them already; a gray
/// image is in colour first.
pub proof fn lemma_what_a_thumb_shows(
    r: Result<(Vec<u8>, u32, u32), String>,
    pixels: Vec<u8>,
    w: int,
    h: int,
    orientation: u16,
)
    requires
        1 <= w <= u32::MAX,
        1 <= h <= u32::MAX,
        pixels@.len() == w * h || pixels@.len() == 3 * (w * h),
        pipeline::is_made_of(r, Ok(pixels), w, h, orientation),
    ensures
        r is Ok,
        ({
            let (jpeg, tw, th) = r->Ok_0;
            let turned = 5 <= orientation <= 8;
            let (dw, dh) = if turned {
                (h, w)
            } else {
                (w, h)
            };
            &&& 1 <= tw <= 320
            &&& 1 <= th <= 320
            &&& dw <= 320 && dh <= 320 ==> tw == dw && th == dh
            &&& dw > 320 && dw >= dh ==> tw == 320
            &&& dh > 320 && dh > dw ==> th == 320
            &&& exists|rgb: Seq<u8>| #[trigger]
                pipeline::is_thumb(jpeg@, rgb, tw, th) && (dw <= 320 && dh <= 320
                    ==> orient::is_displayed(
                    rgb,
                    pipeline::in_rgb(pixels@, w, h),
                    w,
                    h,
                    orientation,
                ))
        }),
{
    let n = w * h;
    assert(n >= 1) by (nonlinear_arith)
        requires
            n == w * h,
            w >= 1,
            h >= 1,
    ;
    let rgb = pipeline::in_rgb(pixels@, w, h);
    assert(rgb.len() == 3 * n);
    let t = r->Ok_0;
    let (turned, thumb) = choose|turned: Seq<u8>, thumb: Seq<u8>|
        pipeline::is_preview_thumb(t.0@, rgb, w, h, orientation, turned, thumb, t.1, t.2);
    let (dw, dh) = orient::displayed_size(w, h, orientation);
    lemma_fitting(dw, dh, 320);
    pipeline::lemma_fitted_within(dw, dh);
    assert(dw * dh == n) by (nonlinear_arith)
        requires
            n == w * h,
            dw == w && dh == h || dw == h && dh == w,
    ;
    assert(turned.take(3 * n) =~= turned);
    assert(pipeline::is_thumb(t.0@, thumb, t.1, t.2));
}

/// The oldest read that counts is as old as any of them, and one of them; there
/// is none exactly where none counts.
pub proof fn lemma_the_oldest_read(s: PoolView, now: u64, age: Option<u64>, id: u64)
    requires
        pipeline::is_oldest_age(s.active, now, age),
        s.active.contains_key(id),
        !s.active[id].excluded,
    ensures
        age is Some,
        s.active[id].started <= now ==> age->0 >= now - s.active[id].started,
        exists|other: u64| #[trigger]
            s.active.contains_key(other) && !s.active[other].excluded && (age->0 == now
                - s.active[other].started || age->0 == 0 && now < s.active[other].started),
{
    assert(!s.active[id].excluded);
    let other = choose|other: u64|
        s.active.contains_key(other) && !(#[trigger] s.active[other]).excluded && pipeline::since(
            now,
            s.active[other].started,
        ) == age->0;
    assert(s.active.contains_key(other));
}

// ------------------------------------------------------------------- turns
/// Who reads next: one that waits, where there is room for another read, and
/// that no other goes before, by its urgency or, of the same urgency, by its
/// earlier number. Numbers are given in the order in which readers come.
pub proof fn lemma_who_reads_next(s: PoolView, ticket: (u8, u64), priority: u8)
    requires
        s.next_ticket < u64::MAX,
    ensures
        s.may_read(ticket) <==> {
            &&& s.active.dom().len() < s.controller.limit
            &&& exists|i: int| 0 <= i < s.waiters.len() && #[trigger] s.waiters[i] == ticket
            &&& !exists|i: int|
                0 <= i < s.waiters.len() && ((#[trigger] s.waiters[i]).0 < ticket.0 || (
                s.waiters[i].0 == ticket.0 && s.waiters[i].1 < ticket.1))
        },
        s.waiting(priority).waiters == s.waiters.push((priority, s.next_ticket)),
        s.waiting(priority).next_ticket == s.next_ticket + 1,
        s.waiting(priority).active == s.active,
        s.waiting(priority).controller == s.controller,
{
    if s.may_read(ticket) {
        let i = choose|i: int| 0 <= i < s.waiters.len() && s.waiters[i] == ticket;
        assert(s.waiters[i] == ticket);
        assert forall|i: int| 0 <= i < s.waiters.len() implies !((#[trigger] s.waiters[i]).0
            < ticket.0 || (s.waiters[i].0 == ticket.0 && s.waiters[i].1 < ticket.1)) by {
            assert(pipeline::goes_first(ticket, s.waiters[i]));
        }
    }
    if s.active.dom().len() < s.controller.limit && (exists|i: int|
        0 <= i < s.waiters.len() && #[trigger] s.waiters[i] == ticket) && !(exists|i: int|
        0 <= i < s.waiters.len() && ((#[trigger] s.waiters[i]).0 < ticket.0 || (s.waiters[i].0
            == ticket.0 && s.waiters[i].1 < ticket.1))) {
        assert(s.waiters.contains(ticket));
        assert forall|i: int| 0 <= i < s.waiters.len() implies pipeline::goes_first(
            ticket,
            #[trigger] s.waiters[i],
        ) by {}
        assert(s.may_read(ticket));
    }
}

/// Which job is taken: no job that waits is more urgent, and none as urgent
/// has been asked for earlier.
pub proof fn lemma_which_job_is_taken(q: QueueView, job: usize)
    requires
        laws::queue_sound(q),
        q.queued.contains_key(job),
    ensures
        q.popped().0 is Some,
        ({
            let (index, priority) = q.popped().0->0;
            &&& q.queued.contains_key(index)
            &&& q.queued[index] == priority
            &&& q.queued[job] >= priority
            &&& exists|k: int|
                0 <= k < q.heap.len() && (#[trigger] q.heap[k]).0 == priority && q.heap[k].2
                    == index && forall|l: int|
                    0 <= l < q.heap.len() && (#[trigger] q.heap[l]).2 == job && q.heap[l].0
                        == q.queued[job] && q.queued[job] == priority ==> q.heap[k].1
                        <= q.heap[l].1
        }),
{
    laws::lemma_pop(q);
    if q.popped().0 is Some {
        let (index, priority) = q.popped().0->0;
        let k = choose|k: int|
            0 <= k < q.heap.len() && laws::is_live(q, #[trigger] q.heap[k]) && q.heap[k].2 == index
                && forall|l: int|
                0 <= l < q.heap.len() && laws::is_live(q, #[trigger] q.heap[l])
                    ==> pipeline::taken_first(q.heap[k], q.heap[l]);
        assert forall|l: int|
            0 <= l < q.heap.len() && (#[trigger] q.heap[l]).2 == job && q.heap[l].0
                == q.queued[job] && q.queued[job] == priority implies q.heap[k].1
            <= q.heap[l].1 by {
            assert(laws::is_live(q, q.heap[l]));
            assert(pipeline::taken_first(q.heap[k], q.heap[l]));
        }
        assert(q.heap[k].0 == priority);
    }
}

} // verus!
