//! What each operation of the loupe engine does, said of the queue, the
//! flights and the cache themselves.
use crate::loupe;
use crate::loupe::LoupeView;
use crate::loupe::Origin;
use crate::loupe::Pending;
use crate::loupe::Rung;
use crate::loupe::Slot;
use crate::order;
use crate::orient;
use vstd::prelude::*;

verus! {

// --------------------------------------------------------------- the ladder
/// A cached asset is enough for a display exactly where five quarters of its
/// longer side reach the display's, or it is the best that its file has.
pub proof fn lemma_what_is_enough(s: LoupeView, index: usize, display: u32)
    requires
        s.cache.contains_key(index) ==> s.cache[index].0.width <= u16::MAX
            && s.cache[index].0.height <= u16::MAX,
    ensures
        s.is_enough(index, display) <==> s.cache.contains_key(index) && {
            let img = s.cache[index].0;
            let serves = |side: u32| 5 * side >= 4 * display;
            let reaches = |side: u32| s.best_long.contains_key(index) && side >= s.best_long[index];
            serves(img.width) || serves(img.height) || reaches(img.width) || reaches(img.height)
        },
{
    if s.cache.contains_key(index) {
        let img = s.cache[index].0;
        loupe::lemma_quarter_rule(img.long(), display);
    }
}

/// The next rung of a climb is the first one that is better than what is
/// there; all before it are not.
pub proof fn lemma_next_rung_is_better(rungs: Seq<Rung>, at: int, achieved: u32)
    requires
        0 <= at <= rungs.len(),
    ensures
        ({
            let k = loupe::next_rung(rungs, at, achieved);
            &&& at <= k <= rungs.len()
            &&& k < rungs.len() ==> rungs[k].width > achieved || rungs[k].height > achieved
            &&& forall|j: int|
                at <= j < k ==> (#[trigger] rungs[j]).width <= achieved && rungs[j].height
                    <= achieved
        }),
    decreases rungs.len() - at,
{
    if at < rungs.len() && rungs[at].long() <= achieved {
        lemma_next_rung_is_better(rungs, at + 1, achieved);
    }
}

// ---------------------------------------------------------------- the queue
/// The entries of other images.
pub open spec fn of_others(queue: Seq<Pending>, index: usize) -> spec_fn(int) -> bool {
    |i: int| queue[i].0 != index
}

/// Without an image's entries the queue holds all others, in their order.
pub proof fn lemma_others_in_order(queue: Seq<Pending>, index: usize, i: int)
    requires
        0 <= i < queue.len(),
    ensures
        ({
            let rest = loupe::others(queue, index);
            let stays = of_others(queue, index);
            &&& rest.len() == order::tally(queue.len() as int, stays)
            &&& queue[i].0 != index ==> rest[order::tally(i, stays) as int] == queue[i]
        }),
    decreases queue.len(),
{
    let n = queue.len() as int;
    let front = queue.drop_last();
    let stays = of_others(queue, index);
    let stays_f = of_others(front, index);
    order::lemma_tally_same(n - 1, stays_f, stays);
    assert(stays(n - 1) == (queue.last().0 != index));
    if i < n - 1 {
        lemma_others_in_order(front, index, i);
        order::lemma_tally_same(i, stays_f, stays);
        assert(front[i] == queue[i]);
        if stays(i) {
            order::lemma_tally_is_short(stays, i, n - 1);
        }
    } else if n - 1 > 0 {
        lemma_others_in_order(front, index, 0);
    } else {
        assert(loupe::others(front, index).len() == 0);
    }
    assert(loupe::others(front, index).len() == order::tally(n - 1, stays));
}

/// The entries that the focus asked for.
pub open spec fn by_focus(queue: Seq<Pending>) -> spec_fn(int) -> bool {
    |i: int| queue[i].2
}

/// A cull of the grid's entries leaves those of the focus, in their order.
pub proof fn lemma_cull_in_order(queue: Seq<Pending>, i: int)
    requires
        0 <= i < queue.len(),
    ensures
        ({
            let rest = LoupeView::without_grid(queue);
            let stays = by_focus(queue);
            &&& rest.len() == order::tally(queue.len() as int, stays)
            &&& queue[i].2 ==> rest[order::tally(i, stays) as int] == queue[i]
        }),
    decreases queue.len(),
{
    let n = queue.len() as int;
    let front = queue.drop_last();
    let stays = by_focus(queue);
    let stays_f = by_focus(front);
    order::lemma_tally_same(n - 1, stays_f, stays);
    assert(stays(n - 1) == queue.last().2);
    if i < n - 1 {
        lemma_cull_in_order(front, i);
        order::lemma_tally_same(i, stays_f, stays);
        assert(front[i] == queue[i]);
        if stays(i) {
            order::lemma_tally_is_short(stays, i, n - 1);
        }
    } else if n - 1 > 0 {
        lemma_cull_in_order(front, 0);
    } else {
        assert(LoupeView::without_grid(front).len() == 0);
    }
    assert(LoupeView::without_grid(front).len() == order::tally(n - 1, stays));
}

/// The ids of the folder's images.
pub open spec fn of_the_folder(ids: Seq<usize>, count: int) -> spec_fn(int) -> bool {
    |i: int| ids[i] < count
}

/// Ids beyond the folder are passed over; the rest keeps its order.
pub proof fn lemma_known_in_order(ids: Seq<usize>, count: int, i: int)
    requires
        0 <= i < ids.len(),
    ensures
        ({
            let rest = loupe::known(ids, count);
            let stays = of_the_folder(ids, count);
            &&& rest.len() == order::tally(ids.len() as int, stays)
            &&& ids[i] < count ==> rest[order::tally(i, stays) as int] == ids[i]
        }),
    decreases ids.len(),
{
    let n = ids.len() as int;
    let front = ids.drop_last();
    let stays = of_the_folder(ids, count);
    let stays_f = of_the_folder(front, count);
    order::lemma_tally_same(n - 1, stays_f, stays);
    assert(stays(n - 1) == (ids.last() < count));
    if i < n - 1 {
        lemma_known_in_order(front, count, i);
        order::lemma_tally_same(i, stays_f, stays);
        assert(front[i] == ids[i]);
        if stays(i) {
            order::lemma_tally_is_short(stays, i, n - 1);
        }
    } else if n - 1 > 0 {
        lemma_known_in_order(front, count, 0);
    } else {
        assert(loupe::known(front, count).len() == 0);
    }
    assert(loupe::known(front, count).len() == order::tally(n - 1, stays));
}

// ----------------------------------------------------------- the scheduling
/// Scheduling touches only its image: its cache entry gets the stamp; what is
/// enough, or failed, changes nothing else; an image in flight keeps the
/// largest target asked for; the focus puts its image at the end of the queue
/// that is served first, in place of any entry it had; and the grid puts it at
/// the other end, unless it has an entry.
pub proof fn lemma_schedule(
    s: LoupeView,
    index: usize,
    target: u32,
    stamp: u64,
    origin: Origin,
    other: usize,
)
    requires
        other != index,
    ensures
        ({
            let t = s.scheduled(index, target, stamp, origin);
            let settled = s.is_enough(index, target) || s.failed.contains(index);
            let flying = s.in_flight.contains(index);
            let had = loupe::is_queued(s.queue, index);
            // Nothing else changes.
            &&& t == (LoupeView { queue: t.queue, deferred: t.deferred, cache: t.cache, ..s })
            &&& t.cache.contains_key(other) == s.cache.contains_key(other)
            &&& s.cache.contains_key(other) ==> t.cache[other] == s.cache[other]
            &&& t.cache.contains_key(index) == s.cache.contains_key(index)
            &&& s.cache.contains_key(index) ==> t.cache[index] == (s.cache[index].0, stamp)
            &&& t.deferred.contains_key(other) == s.deferred.contains_key(other)
            &&& s.deferred.contains_key(other) ==> t.deferred[other] == s.deferred[other]
            // Settled, or under way.
            &&& settled || flying ==> t.queue == s.queue
            &&& settled || !flying ==> t.deferred == s.deferred
            &&& !settled && flying ==> {
                &&& t.deferred.contains_key(index)
                &&& t.deferred[index] >= target
                &&& s.deferred.contains_key(index) ==> t.deferred[index] >= s.deferred[index]
                &&& t.deferred[index] == target || (s.deferred.contains_key(index)
                    && t.deferred[index] == s.deferred[index])
            }
            // Queued.
            &&& !settled && !flying && origin == Origin::Focus ==> {
                &&& t.queue.last() == (index, target, true)
                &&& t.queue.drop_last() == loupe::others(s.queue, index)
            }
            &&& !settled && !flying && origin == Origin::Grid && had ==> t.queue == s.queue
            &&& !settled && !flying && origin == Origin::Grid && !had ==> {
                &&& t.queue[0] == (index, target, false)
                &&& t.queue.drop_first() == s.queue
            }
            &&& s.takes(index, target, origin) <==> !settled && !flying && !(origin == Origin::Grid
                && had)
        }),
{
    let t = s.scheduled(index, target, stamp, origin);
    let rest = loupe::others(s.queue, index);
    assert(rest.push((index, target, true)).drop_last() =~= rest);
    assert((seq![(index, target, false)] + s.queue).drop_first() =~= s.queue);
    assert(t =~= (LoupeView { queue: t.queue, deferred: t.deferred, cache: t.cache, ..s }));
}

/// What scheduling leaves of a state, whatever is scheduled.
pub open spec fn same_but_for_the_queue(s: LoupeView, t: LoupeView) -> bool {
    &&& t.in_flight == s.in_flight
    &&& t.failed == s.failed
    &&& t.best_long == s.best_long
    &&& t.focused == s.focused
    &&& t.view_ids == s.view_ids
    &&& t.view_pos == s.view_pos
    &&& t.cache.dom() == s.cache.dom()
    &&& forall|k: usize| s.cache.contains_key(k) ==> (#[trigger] t.cache[k]).0 == s.cache[k].0
}

/// Scheduling many images starts and ends no flight, fails none, and keeps
/// every cached image.
pub proof fn lemma_schedule_all_touches_the_queue(
    s: LoupeView,
    ids: Seq<usize>,
    target: u32,
    stamp: u64,
    origin: Origin,
)
    ensures
        same_but_for_the_queue(s, s.scheduled_all(ids, target, stamp, origin)),
        forall|k: usize, d: u32|
            s.is_enough(k, d) == #[trigger] s.scheduled_all(ids, target, stamp, origin).is_enough(
                k,
                d,
            ),
    decreases ids.len(),
{
    if ids.len() > 0 {
        lemma_schedule_all_touches_the_queue(s, ids.drop_last(), target, stamp, origin);
        let mid = s.scheduled_all(ids.drop_last(), target, stamp, origin);
        let t = s.scheduled_all(ids, target, stamp, origin);
        assert(t.cache.dom() =~= mid.cache.dom());
        assert forall|k: usize| s.cache.contains_key(k) implies (#[trigger] t.cache[k]).0
            == s.cache[k].0 by {
            assert(mid.cache[k].0 == s.cache[k].0);
        }
    }
    let t = s.scheduled_all(ids, target, stamp, origin);
    assert forall|k: usize, d: u32| s.is_enough(k, d) == #[trigger] t.is_enough(k, d) by {
        assert(t.cache.contains_key(k) == s.cache.contains_key(k));
        if s.cache.contains_key(k) {
            assert(t.cache[k].0 == s.cache[k].0);
        }
    }
}

// ---------------------------------------------------------------- the focus
/// A focus on an image that needs work makes its entry the one that is served
/// first.
pub proof fn lemma_the_focus_is_served_first(
    s: LoupeView,
    index: usize,
    display: u32,
    count: int,
    stamp: u64,
    now: u64,
)
    requires
        index < count,
    ensures
        ({
            let t = s.focused_on(index, display, count, stamp, now);
            let n = s.noted(index, display, now);
            let target = if n.is_moving(now) && display > 1616 {
                1616
            } else {
                display
            };
            &&& t.focused == Some(index)
            &&& t.in_flight == s.in_flight
            &&& t.failed == s.failed
            &&& !s.is_enough(index, target) && !s.failed.contains(index) && !s.in_flight.contains(
                index,
            ) ==> t.queue.last() == (index, target, true)
        }),
{
    let n = s.noted(index, display, now);
    let transit = n.is_moving(now);
    let target = loupe::request(transit, display);
    let ids = n.wanted_by_focus(index, count, transit);
    let ring = ids.drop_last();
    assert(ids.last() == index);
    lemma_schedule_all_touches_the_queue(n, ring, target, stamp, Origin::Focus);
    let mid = n.scheduled_all(ring, target, stamp, Origin::Focus);
    assert(mid.is_enough(index, target) == n.is_enough(index, target));
    assert(n.is_enough(index, target) == s.is_enough(index, target));
    lemma_schedule_all_touches_the_queue(n, ids, target, stamp, Origin::Focus);
}

/// What a focus remembers. The same image at the same size or a smaller one
/// only changes what is wanted; at a larger one the clock starts again. A new
/// image starts the clock, and counts as moving where the last change is at
/// most a quarter of a second ago, and as going forward unless it stands
/// before the last one.
pub proof fn lemma_what_a_focus_remembers(s: LoupeView, index: usize, display: u32, now: u64)
    requires
        s.last_index_change is Some ==> s.last_index_change->0 <= now,
    ensures
        ({
            let t = s.noted(index, display, now);
            let same = s.focused == Some(index);
            &&& t.desired_long == display
            &&& t.focused == Some(index)
            &&& t.queue == s.queue && t.cache == s.cache && t.in_flight == s.in_flight
            &&& same && display <= s.focused_target ==> t == (LoupeView {
                desired_long: display,
                ..s
            })
            &&& same && display > s.focused_target ==> t == (LoupeView {
                desired_long: display,
                focused_at: Some(now),
                focused_target: display,
                ..s
            })
            &&& !same ==> {
                &&& t.focused_at == Some(now)
                &&& t.last_index_change == Some(now)
                &&& t.focused_target == display
                &&& t.moving <==> s.last_index_change is Some && now - s.last_index_change->0
                    <= 250_000_000
            }
            &&& !same && s.focused is Some && s.position(index) is Some && s.position(
                s.focused->0,
            ) is Some ==> (t.travel_forward <==> s.position(index)->0 >= s.position(
                s.focused->0,
            )->0)
            &&& !same && (s.focused is None || s.position(index) is None || s.position(
                s.focused->0,
            ) is None) ==> t.travel_forward
        }),
{
}

/// A user is moving from the second quick change on, until nothing has
/// changed for 150 ms.
pub proof fn lemma_when_the_user_moves(s: LoupeView, now: u64)
    requires
        s.last_index_change is Some ==> s.last_index_change->0 <= now,
    ensures
        s.is_moving(now) <==> s.moving && s.last_index_change is Some && now
            - s.last_index_change->0 < 150_000_000,
{
}

/// The ring around a position: two either side at rest; while moving eight
/// ahead and two behind; never beyond the ends.
pub proof fn lemma_how_far_the_ring_reaches(forward: bool, pos: int, count: int, p: int)
    requires
        0 <= pos < count,
        0 <= p < count,
    ensures
        ({
            let within = |transit: bool|
                loupe::ring_low(transit, forward, pos) <= p <= loupe::ring_high(
                    transit,
                    forward,
                    pos,
                    count,
                );
            &&& within(false) <==> -2 <= p - pos <= 2
            &&& forward ==> (within(true) <==> -2 <= p - pos <= 8)
            &&& !forward ==> (within(true) <==> -8 <= p - pos <= 2)
        }),
        0 <= loupe::ring_low(false, forward, pos),
        0 <= loupe::ring_low(true, forward, pos),
        loupe::ring_high(false, forward, pos, count) < count,
        loupe::ring_high(true, forward, pos, count) < count,
{
}

/// While moving no more than the mid rung is asked for; at rest, what the
/// display wants.
pub proof fn lemma_what_is_asked_for(display: u32)
    ensures
        loupe::request(false, display) == display,
        display <= 1616 ==> loupe::request(true, display) == display,
        display > 1616 ==> loupe::request(true, display) == 1616,
{
}

/// How far apart two positions are.
pub open spec fn apart(a: int, b: int) -> int {
    if a < b {
        b - a
    } else {
        a - b
    }
}

/// The positions of a ring, in its order.
pub open spec fn are_ring_positions(
    s: LoupeView,
    fpos: int,
    lo: int,
    hi: int,
    within: int,
    ids: Seq<usize>,
    at: Seq<int>,
) -> bool {
    &&& at.len() == ids.len()
    // Each is in the range, is not the focus, and has an image.
    &&& forall|i: int|
        0 <= i < at.len() ==> {
            let p = #[trigger] at[i];
            &&& lo <= p <= hi
            &&& p != fpos
            &&& apart(fpos, p) <= within
            &&& s.at(p) == Some(ids[i])
        }
    // Every such position is there.
    &&& forall|p: int|
        lo <= p <= hi && p != fpos && apart(fpos, p) <= within && (#[trigger] s.at(p)) is Some
            ==> at.contains(p)
    // The farther come first; of two equally far, the one before.
    &&& forall|i: int, j: int|
        0 <= i < j < at.len() ==> {
            let (p, q) = (#[trigger] at[i], #[trigger] at[j]);
            apart(fpos, p) > apart(fpos, q) || (apart(fpos, p) == apart(fpos, q) && p < q)
        }
}

/// The ring is made of the images at the positions of its range but for the
/// focus, each once: the farther first, and of two equally far the one before.
pub proof fn lemma_the_ring(s: LoupeView, fpos: int, lo: int, hi: int) -> (at: Seq<int>)
    requires
        lo <= fpos <= hi,
    ensures
        are_ring_positions(
            s,
            fpos,
            lo,
            hi,
            hi - lo,
            loupe::ring(s, fpos, lo, hi),
            at,
        ),
{
    let d = loupe::reach(fpos, lo, hi);
    let at = lemma_ring_within(s, fpos, lo, hi, d);
    assert forall|p: int|
        lo <= p <= hi && p != fpos && apart(fpos, p) <= hi - lo && (
        #[trigger] s.at(p)) is Some implies at.contains(p) by {
        assert(apart(fpos, p) <= d);
    }
    at
}

#[verifier::spinoff_prover]
#[verifier::rlimit(60)]
proof fn lemma_ring_within(s: LoupeView, fpos: int, lo: int, hi: int, d: int) -> (at: Seq<int>)
    requires
        0 <= d,
    ensures
        are_ring_positions(s, fpos, lo, hi, d, loupe::ring_from(s, fpos, lo, hi, d), at),
    decreases d,
{
    if d == 0 {
        Seq::empty()
    } else {
        let inner = lemma_ring_within(s, fpos, lo, hi, d - 1);
        let ids = loupe::ring_from(s, fpos, lo, hi, d - 1);
        let before = loupe::ring_member(s, lo, hi, fpos - d);
        let behind = loupe::ring_member(s, lo, hi, fpos + d);
        let b: Seq<int> = if before.len() > 0 {
            seq![fpos - d]
        } else {
            Seq::empty()
        };
        let a: Seq<int> = if behind.len() > 0 {
            seq![fpos + d]
        } else {
            Seq::empty()
        };
        let at = b + a + inner;
        let all = loupe::ring_from(s, fpos, lo, hi, d);
        assert(all == before + behind + ids);
        assert(before.len() == b.len() && behind.len() == a.len());
        let k = b.len() + a.len() as int;
        assert forall|i: int| 0 <= i < at.len() implies {
            let p = #[trigger] at[i];
            &&& lo <= p <= hi
            &&& p != fpos
            &&& apart(fpos, p) <= d
            &&& s.at(p) == Some(all[i])
        } by {
            if i >= k {
                assert(at[i] == inner[i - k]);
                assert(all[i] == ids[i - k]);
                assert(apart(fpos, inner[i - k]) <= d - 1);
            } else if i < b.len() {
                assert(at[i] == fpos - d && all[i] == before[0]);
            } else {
                assert(at[i] == fpos + d && all[i] == behind[0]);
            }
        }
        assert forall|p: int|
            lo <= p <= hi && p != fpos && apart(fpos, p) <= d && (
            #[trigger] s.at(p)) is Some implies at.contains(p) by {
            if apart(fpos, p) <= d - 1 {
                assert(inner.contains(p));
                let i = choose|i: int| 0 <= i < inner.len() && inner[i] == p;
                assert(at[k + i] == p);
            } else if p == fpos - d {
                assert(at[0] == p);
            } else {
                assert(p == fpos + d);
                assert(at[b.len() as int] == p);
            }
        }
        assert forall|i: int, j: int| 0 <= i < j < at.len() implies {
            let (p, q) = (#[trigger] at[i], #[trigger] at[j]);
            apart(fpos, p) > apart(fpos, q) || (apart(fpos, p) == apart(fpos, q) && p < q)
        } by {
            if j >= k {
                assert(at[j] == inner[j - k]);
                assert(apart(fpos, inner[j - k]) <= d - 1);
                if i >= k {
                    assert(at[i] == inner[i - k]);
                }
            }
        }
        at
    }
}

// ----------------------------------------------------------------- the grid
/// A grid want is the whole of what the grid wants: what it asked for before
/// is gone from the queue, what the focus asked for is all there, and every
/// entry of the grid is one of the images now wanted, at the size now wanted.
pub proof fn lemma_the_grid_wants_what_it_shows(
    s: LoupeView,
    ids: Seq<usize>,
    display: u32,
    count: int,
    stamp: u64,
    i: int,
)
    requires
        0 <= i < s.wanting(ids, display, count, stamp).queue.len(),
    ensures
        ({
            let t = s.wanting(ids, display, count, stamp);
            let e = t.queue[i];
            &&& same_but_for_the_queue(s, t)
            &&& e.2 ==> s.queue.contains(e)
            &&& !e.2 ==> ids.contains(e.0) && e.0 < count && e.1 == display
            &&& LoupeView::without_grid(t.queue) == LoupeView::without_grid(s.queue)
        }),
{
    let c = LoupeView { queue: LoupeView::without_grid(s.queue), ..s };
    let want = loupe::known(ids, count);
    lemma_schedule_all_touches_the_queue(c, want, display, stamp, Origin::Grid);
    lemma_cull_holds(s.queue);
    lemma_cull_twice(s.queue);
    lemma_grid_entries(c, want, display, stamp);
    let t = s.wanting(ids, display, count, stamp);
    let e = t.queue[i];
    if !e.2 {
        lemma_known_holds(ids, count);
        assert(want.contains(e.0));
    }
}

proof fn lemma_cull_holds(queue: Seq<Pending>)
    ensures
        forall|i: int|
            0 <= i < LoupeView::without_grid(queue).len() ==> queue.contains(
                #[trigger] LoupeView::without_grid(queue)[i],
            ) && LoupeView::without_grid(queue)[i].2,
    decreases queue.len(),
{
    if queue.len() > 0 {
        let front = queue.drop_last();
        lemma_cull_holds(front);
        let kept = LoupeView::without_grid(front);
        let all = LoupeView::without_grid(queue);
        assert forall|i: int| 0 <= i < all.len() implies queue.contains(#[trigger] all[i])
            && all[i].2 by {
            if i < kept.len() {
                assert(all[i] == kept[i]);
                let j = choose|j: int| 0 <= j < front.len() && front[j] == kept[i];
                assert(queue[j] == all[i]);
            } else {
                assert(queue[queue.len() - 1] == all[i]);
            }
        }
    }
}

proof fn lemma_cull_twice(queue: Seq<Pending>)
    ensures
        LoupeView::without_grid(LoupeView::without_grid(queue)) == LoupeView::without_grid(queue),
    decreases queue.len(),
{
    if queue.len() > 0 {
        let front = queue.drop_last();
        lemma_cull_twice(front);
        let kept = LoupeView::without_grid(front);
        let all = LoupeView::without_grid(queue);
        if queue.last().2 {
            assert(all.drop_last() =~= kept);
            assert(all.last() == queue.last());
        }
    }
}

proof fn lemma_cull_of_front(e: Pending, queue: Seq<Pending>)
    requires
        !e.2,
    ensures
        LoupeView::without_grid(seq![e] + queue) == LoupeView::without_grid(queue),
    decreases queue.len(),
{
    let all = seq![e] + queue;
    if queue.len() > 0 {
        lemma_cull_of_front(e, queue.drop_last());
        assert(all.drop_last() =~= seq![e] + queue.drop_last());
        assert(all.last() == queue.last());
    } else {
        assert(all.drop_last() =~= Seq::empty());
        assert(all.last() == e);
        assert(LoupeView::without_grid(all.drop_last()) =~= Seq::empty());
    }
}

proof fn lemma_known_holds(ids: Seq<usize>, count: int)
    ensures
        forall|x: usize|
            #[trigger] loupe::known(ids, count).contains(x) ==> ids.contains(x) && x < count,
    decreases ids.len(),
{
    if ids.len() > 0 {
        let front = ids.drop_last();
        lemma_known_holds(front, count);
        let kept = loupe::known(front, count);
        let all = loupe::known(ids, count);
        assert forall|x: usize| #[trigger] all.contains(x) implies ids.contains(x) && x < count by {
            let i = choose|i: int| 0 <= i < all.len() && all[i] == x;
            if i < kept.len() {
                assert(kept[i] == x);
                assert(kept.contains(x));
                let j = choose|j: int| 0 <= j < front.len() && front[j] == x;
                assert(ids[j] == x);
            } else {
                assert(ids[ids.len() - 1] == x);
            }
        }
    }
}

proof fn lemma_grid_entries(c: LoupeView, want: Seq<usize>, display: u32, stamp: u64)
    requires
        forall|i: int| 0 <= i < c.queue.len() ==> (#[trigger] c.queue[i]).2,
    ensures
        ({
            let t = c.scheduled_all(want, display, stamp, Origin::Grid);
            &&& LoupeView::without_grid(t.queue) == LoupeView::without_grid(c.queue)
            &&& forall|i: int|
                0 <= i < t.queue.len() ==> {
                    let e = #[trigger] t.queue[i];
                    &&& e.2 ==> c.queue.contains(e)
                    &&& !e.2 ==> want.contains(e.0) && e.1 == display
                }
        }),
    decreases want.len(),
{
    let t = c.scheduled_all(want, display, stamp, Origin::Grid);
    if want.len() > 0 {
        let front = want.drop_last();
        let last = want.last();
        lemma_grid_entries(c, front, display, stamp);
        let m = c.scheduled_all(front, display, stamp, Origin::Grid);
        lemma_schedule(m, last, display, stamp, Origin::Grid, if last == 0 {
            1
        } else {
            0
        });
        if t.queue != m.queue {
            assert(t.queue =~= seq![(last, display, false)] + m.queue);
            lemma_cull_of_front((last, display, false), m.queue);
        }
        assert forall|i: int| 0 <= i < t.queue.len() implies {
            let e = #[trigger] t.queue[i];
            &&& e.2 ==> c.queue.contains(e)
            &&& !e.2 ==> want.contains(e.0) && e.1 == display
        } by {
            let e = t.queue[i];
            if t.queue == m.queue || i > 0 {
                let j = if t.queue == m.queue {
                    i
                } else {
                    i - 1
                };
                assert(m.queue[j] == e);
                if !e.2 {
                    let l = choose|l: int| 0 <= l < front.len() && front[l] == e.0;
                    assert(want[l] == e.0);
                }
            } else {
                assert(want[want.len() - 1] == last);
            }
        }
    } else {
        assert forall|i: int| 0 <= i < t.queue.len() implies {
            let e = #[trigger] t.queue[i];
            &&& e.2 ==> c.queue.contains(e)
            &&& !e.2 ==> want.contains(e.0) && e.1 == display
        } by {
            assert(c.queue[i] == t.queue[i]);
        }
    }
}

// -------------------------------------------------------------- the workers
/// A worker without a reservation takes the last entry that still needs work;
/// entries behind it are dropped, being served already, and those before it
/// stay. Where none needs work it waits, with an empty queue.
pub proof fn lemma_what_a_worker_takes(s: LoupeView, now: u64)
    ensures
        ({
            let (slot, t) = s.picked(false, now);
            let done = |i: int| s.is_enough(s.queue[i].0, s.queue[i].1);
            &&& t == (LoupeView { queue: t.queue, in_flight: t.in_flight, ..s })
            &&& slot is Job || slot == Slot::Wait
            &&& slot is Job ==> exists|k: int|
                {
                    &&& 0 <= k < s.queue.len()
                    &&& slot == Slot::Job(s.queue[k].0, s.queue[k].1)
                    &&& !#[trigger] done(k)
                    &&& forall|l: int| k < l < s.queue.len() ==> #[trigger] done(l)
                    &&& t.queue == s.queue.take(k)
                    &&& t.in_flight == s.in_flight.push(s.queue[k].0)
                }
            &&& slot == Slot::Wait ==> {
                &&& forall|l: int| 0 <= l < s.queue.len() ==> #[trigger] done(l)
                &&& t.queue.len() == 0
                &&& t.in_flight == s.in_flight
            }
        }),
    decreases s.queue.len(),
{
    let (slot, t) = s.picked(false, now);
    let done = |i: int| s.is_enough(s.queue[i].0, s.queue[i].1);
    let n = s.queue.len() as int;
    if n > 0 {
        let rest = LoupeView { queue: s.queue.remove(n - 1), ..s };
        assert(s.queue.remove(n - 1) =~= s.queue.take(n - 1));
        if done(n - 1) {
            lemma_what_a_worker_takes(rest, now);
            let done_r = |i: int| rest.is_enough(rest.queue[i].0, rest.queue[i].1);
            assert forall|l: int| 0 <= l < n - 1 implies #[trigger] done_r(l) == done(l) by {
                assert(rest.queue[l] == s.queue[l]);
            }
            if slot is Job {
                let k = choose|k: int|
                    {
                        &&& 0 <= k < rest.queue.len()
                        &&& slot == Slot::Job(rest.queue[k].0, rest.queue[k].1)
                        &&& !#[trigger] done_r(k)
                        &&& forall|l: int| k < l < rest.queue.len() ==> #[trigger] done_r(l)
                        &&& t.queue == rest.queue.take(k)
                        &&& t.in_flight == rest.in_flight.push(rest.queue[k].0)
                    };
                assert(done_r(k) == done(k));
                assert(rest.queue.take(k) =~= s.queue.take(k));
                assert(rest.queue[k] == s.queue[k]);
                assert forall|l: int| k < l < n implies #[trigger] done(l) by {
                    if l < n - 1 {
                        assert(done_r(l));
                    }
                }
                assert(!done(k));
            } else {
                assert forall|l: int| 0 <= l < n implies #[trigger] done(l) by {
                    if l < n - 1 {
                        assert(done_r(l));
                    }
                }
            }
        } else {
            assert(!done(n - 1));
        }
    }
}

/// The reserved worker waits without a focus, and until the focus has held for
/// a quarter of a second, no longer than what is left of it.
pub proof fn lemma_the_reserved_worker_waits(s: LoupeView, now: u64)
    requires
        s.focused_at is Some ==> s.focused_at->0 <= now,
    ensures
        ({
            let (slot, t) = s.picked(true, now);
            &&& s.focused is None ==> slot == Slot::Wait && t == s
            &&& s.focused is Some && s.focused_at is Some && now - s.focused_at->0 < 250_000_000
                ==> {
                &&& t == s
                &&& slot is WaitFor
                &&& slot->WaitFor_0 + (now - s.focused_at->0) == 250_000_000
            }
            &&& s.focused is Some && (s.focused_at is None || now - s.focused_at->0 >= 250_000_000)
                ==> !(slot is WaitFor)
        }),
{
    if s.focused is Some && (s.focused_at is None || now - s.focused_at->0 >= 250_000_000) {
        lemma_no_timed_wait(s, now);
    }
}

proof fn lemma_no_timed_wait(s: LoupeView, now: u64)
    requires
        s.focused is Some,
        s.held(now) >= 250_000_000,
    ensures
        !(s.picked(true, now).0 is WaitFor),
    decreases s.queue.len(),
{
    let k = loupe::last_entry(s.queue, s.focused->0);
    if 0 <= k < s.queue.len() {
        let rest = LoupeView { queue: s.queue.remove(k), ..s };
        lemma_no_timed_wait(rest, now);
    }
}

/// Once the focus has held, the reserved worker takes the focused image's
/// entry and no other, where it still needs work. Where there is none that
/// does, it starts the climb to what the display wants itself, once the user
/// has rested for 150 ms on an image that is short of it, has not failed and
/// is not under way; else it waits.
pub proof fn lemma_what_the_reserved_worker_takes(s: LoupeView, now: u64)
    requires
        s.focused is Some,
        s.focused_at is Some ==> s.focused_at->0 + 250_000_000 <= now,
        s.last_index_change is Some ==> s.last_index_change->0 <= now,
        loupe::one_each(s.queue),
    ensures
        ({
            let (slot, t) = s.picked(true, now);
            let f = s.focused->0;
            let others = loupe::others(s.queue, f);
            let short = s.last_index_change is Some && now - s.last_index_change->0 >= 150_000_000
                && s.desired_long > 0 && !s.failed.contains(f) && !s.in_flight.contains(f)
                && !s.is_enough(f, s.desired_long);
            let waiting = exists|k: int|
                0 <= k < s.queue.len() && (#[trigger] s.queue[k]).0 == f && !s.is_enough(
                    f,
                    s.queue[k].1,
                );
            &&& t.queue == others
            &&& t == (LoupeView { queue: t.queue, in_flight: t.in_flight, ..s })
            &&& waiting ==> slot is Job && slot->Job_0 == f && exists|k: int|
                0 <= k < s.queue.len() && (#[trigger] s.queue[k]).0 == f && slot->Job_1
                    == s.queue[k].1
            &&& !waiting && short ==> slot == Slot::Job(f, s.desired_long)
            &&& !waiting && !short ==> slot == Slot::Wait
            &&& slot is Job ==> t.in_flight == s.in_flight.push(f)
            &&& slot == Slot::Wait ==> t.in_flight == s.in_flight
        }),
{
    let f = s.focused->0;
    let k = loupe::last_entry(s.queue, f);
    loupe::lemma_last_entry(s.queue, f);
    if k >= 0 {
        assert(s.queue[k].0 == f);
        lemma_others_is_removal(s.queue, f, k);
        let rest = LoupeView { queue: s.queue.remove(k), ..s };
        loupe::lemma_last_entry(rest.queue, f);
        assert(!loupe::is_queued(rest.queue, f)) by {
            if loupe::is_queued(rest.queue, f) {
                let i = choose|i: int|
                    0 <= i < rest.queue.len() && (#[trigger] rest.queue[i]).0 == f;
                let j = if i < k {
                    i
                } else {
                    i + 1
                };
                assert(rest.queue[i] == s.queue[j]);
                if j < k {
                    assert(s.queue[j].0 != s.queue[k].0);
                } else {
                    assert(s.queue[k].0 != s.queue[j].0);
                }
            }
        }
        if loupe::last_entry(rest.queue, f) >= 0 {
            assert(rest.queue[loupe::last_entry(rest.queue, f)].0 == f);
        }
        assert(rest.held(now) == s.held(now));
        assert(rest.must_climb(f, now) == s.must_climb(f, now));
        assert(rest.picked(true, now) == if rest.must_climb(f, now) {
            (
                Slot::Job(f, rest.desired_long),
                LoupeView { in_flight: rest.in_flight.push(f), ..rest },
            )
        } else {
            (Slot::Wait, rest)
        });
        if s.is_enough(f, s.queue[k].1) {
            assert(s.picked(true, now) == rest.picked(true, now));
            assert forall|l: int| 0 <= l < s.queue.len() && (#[trigger] s.queue[l]).0
                == f implies s.is_enough(f, s.queue[l].1) by {
                if l < k {
                    assert(s.queue[l].0 != s.queue[k].0);
                } else if l > k {
                    assert(s.queue[k].0 != s.queue[l].0);
                }
            }
        } else {
            assert(s.picked(true, now).0 == Slot::Job(f, s.queue[k].1));
        }
    } else {
        lemma_others_is_all(s.queue, f);
        assert forall|l: int| 0 <= l < s.queue.len() implies (#[trigger] s.queue[l]).0 != f by {}
    }
}

proof fn lemma_others_is_all(queue: Seq<Pending>, index: usize)
    requires
        !loupe::is_queued(queue, index),
    ensures
        loupe::others(queue, index) == queue,
    decreases queue.len(),
{
    if queue.len() > 0 {
        let front = queue.drop_last();
        assert(!loupe::is_queued(front, index)) by {
            if loupe::is_queued(front, index) {
                let i = choose|i: int| 0 <= i < front.len() && (#[trigger] front[i]).0 == index;
                assert(queue[i].0 == index);
            }
        }
        assert(queue[queue.len() - 1].0 != index);
        lemma_others_is_all(front, index);
        assert(front.push(queue.last()) =~= queue);
    } else {
        assert(loupe::others(queue, index) =~= queue);
    }
}

proof fn lemma_others_is_removal(queue: Seq<Pending>, index: usize, k: int)
    requires
        loupe::one_each(queue),
        0 <= k < queue.len(),
        queue[k].0 == index,
    ensures
        loupe::others(queue, index) == queue.remove(k),
    decreases queue.len(),
{
    let front = queue.drop_last();
    let last = queue.len() - 1;
    if k == last {
        assert(!loupe::is_queued(front, index)) by {
            if loupe::is_queued(front, index) {
                let i = choose|i: int| 0 <= i < front.len() && (#[trigger] front[i]).0 == index;
                assert(queue[i].0 != queue[k].0);
            }
        }
        lemma_others_is_all(front, index);
        assert(queue.remove(k) =~= front);
    } else {
        assert(loupe::one_each(front)) by {
            assert forall|i: int, j: int| 0 <= i < j < front.len() implies (#[trigger] front[i]).0
                != (#[trigger] front[j]).0 by {
                assert(queue[i].0 != queue[j].0);
            }
        }
        assert(front[k] == queue[k]);
        lemma_others_is_removal(front, index, k);
        assert(queue[k].0 != queue[last].0);
        assert(front.remove(k).push(queue.last()) =~= queue.remove(k));
    }
}

/// A landing ends the image's flight and no other, records a failure, and
/// settles its deferred upgrade: it comes back exactly where the image is
/// within two positions of the focus, has not failed, and is still short of
/// it; the focused image's entry is then served next, a neighbor's last.
pub proof fn lemma_what_a_landing_does(
    s: LoupeView,
    index: usize,
    failed: bool,
    stamp: u64,
    other: usize,
)
    requires
        s.in_flight.no_duplicates(),
    ensures
        ({
            let t = s.landed(index, failed, stamp);
            let rest = loupe::others(s.queue, index);
            let target = s.deferred[index];
            let near = s.focused is Some && match (
                s.position(index),
                s.position(s.focused->0),
            ) {
                (Some(a), Some(b)) => apart(a as int, b as int) <= 2,
                _ => false,
            };
            let revived = s.deferred.contains_key(index) && near && !failed && !s.failed.contains(
                index,
            ) && !s.is_enough(index, target);
            &&& t.in_flight.contains(other) <==> s.in_flight.contains(other) && other != index
            &&& t.failed.contains(other) <==> s.failed.contains(other) || (failed && other == index)
            &&& t.deferred == s.deferred.remove(index)
            &&& !revived ==> t.queue == s.queue
            &&& revived && s.focused == Some(index) ==> t.queue == rest.push((index, target, true))
            &&& revived && s.focused != Some(index) ==> t.queue == seq![(index, target, true)]
                + rest
        }),
{
    loupe::laws::lemma_others_flying(s.in_flight, index);
}

/// The positions of a view: an image stands where the view's order names it
/// last, and nowhere where it does not.
pub proof fn lemma_where_an_image_stands(order: Seq<usize>, id: usize)
    requires
        order.len() <= usize::MAX,
    ensures
        ({
            let p = loupe::placed(order, id);
            &&& !order.contains(id) ==> p == usize::MAX
            &&& order.contains(id) ==> {
                &&& p < order.len()
                &&& order[p as int] == id
                &&& forall|k: int| p < k < order.len() ==> #[trigger] order[k] != id
            }
        }),
    decreases order.len(),
{
    if order.len() > 0 {
        let front = order.drop_last();
        lemma_where_an_image_stands(front, id);
        let n = order.len() - 1;
        if order[n] != id {
            if order.contains(id) {
                let i = choose|i: int| 0 <= i < order.len() && order[i] == id;
                assert(front[i] == id);
                let p = loupe::placed(front, id);
                assert forall|k: int| p < k < order.len() implies #[trigger] order[k] != id by {
                    if k < n {
                        assert(front[k] != id);
                    }
                }
            }
            if front.contains(id) {
                let i = choose|i: int| 0 <= i < front.len() && front[i] == id;
                assert(order[i] == id);
            }
        } else {
            assert(order.contains(id));
        }
    }
}

/// A stream is decoded exactly where its header names its sides, they are
/// plausible, and its scan is whole.
pub proof fn lemma_what_is_decoded(
    header: Result<Option<(usize, usize)>, Seq<char>>,
    max_pixels: u64,
    terminated: bool,
)
    ensures
        loupe::refused(header, max_pixels, terminated) is None <==> {
            &&& header is Ok
            &&& header->Ok_0 is Some
            &&& (header->Ok_0->0).0 * (header->Ok_0->0).1 <= max_pixels
            &&& terminated
        },
{
}

/// Without a view every image stands at its own number. With one, an image
/// stands where the view has it, and what stands there is that image.
pub proof fn lemma_places_and_images_agree(s: LoupeView, id: usize, count: int)
    requires
        s.view_ids.len() < usize::MAX,
        0 <= count,
        s.view_pos == loupe::places(s.view_ids, count),
    ensures
        s.view_ids.len() == 0 ==> s.position(id) == Some(id) && s.at(id as int) == Some(id),
        s.view_ids.len() > 0 && id < count ==> (s.position(id) is Some <==> s.view_ids.contains(
            id,
        )),
        s.view_ids.len() > 0 && s.position(id) is Some ==> s.at((s.position(id)->0) as int) == Some(
            id,
        ),
        s.view_ids.len() > 0 && id >= count ==> s.position(id) is None,
        s.view_ids.len() > 0 && id >= s.view_ids.len() ==> s.at(id as int) is None,
{
    lemma_where_an_image_stands(s.view_ids, id);
}

/// What is shown of a decode: every pixel of the screen is the stored one that
/// the orientation puts there, row by row and three bytes each; a side-turning
/// orientation swaps the sides. Where the decode failed nothing is shown.
pub proof fn lemma_what_a_decode_shows(
    r: Result<(Vec<u8>, u32, u32), String>,
    decoded: Result<Vec<u8>, String>,
    w: int,
    h: int,
    orientation: u16,
    x: int,
    y: int,
    c: int,
)
    requires
        loupe::is_oriented(r, decoded, w, h, orientation),
    ensures
        r is Ok <==> decoded is Ok,
        r is Ok ==> {
            let (rgb, shown_w, shown_h) = r->Ok_0;
            let (sx, sy) = orient::stored_at(x, y, w, h, orientation);
            &&& rgb@.len() == decoded->Ok_0@.len()
            &&& 5 <= orientation <= 8 ==> shown_w == h && shown_h == w
            &&& !(5 <= orientation <= 8) ==> shown_w == w && shown_h == h
            &&& 0 <= x < shown_w && 0 <= y < shown_h && 0 <= c < 3 ==> rgb@[3 * (y * shown_w + x)
                + c] == decoded->Ok_0@[3 * (sy * w + sx) + c]
        },
{
    if r is Ok && decoded is Ok {
        let (rgb, shown_w, shown_h) = r->Ok_0;
        let (dw, dh) = orient::displayed_size(w, h, orientation);
        let (sx, sy) = orient::stored_at(x, y, w, h, orientation);
        assert(dw == shown_w && dh == shown_h);
        if 0 <= x < dw && 0 <= y < dh && 0 <= c < 3 {
            assert(rgb@[orient::pixel_start(x, y, dw) + c] == decoded->Ok_0@[orient::pixel_start(
                sx,
                sy,
                w,
            ) + c]);
        }
    }
}

// ------------------------------------------------------------- the eviction
proof fn lemma_fewer_images_fewer_bytes(few: loupe::Cache, all: loupe::Cache)
    requires
        all.dom().finite(),
        few.submap_of(all),
    ensures
        few.dom().finite(),
        0 <= loupe::bytes_of(few) <= loupe::bytes_of(all),
    decreases all.dom().len(),
{
    assert(few.dom().subset_of(all.dom()));
    vstd::set_lib::lemma_len_subset(few.dom(), all.dom());
    loupe::lemma_bytes_nonneg(few);
    if all.dom().len() > 0 {
        let k = all.dom().choose();
        assert(all.dom().contains(k));
        loupe::lemma_bytes_without(all, k);
        if few.contains_key(k) {
            loupe::lemma_bytes_without(few, k);
            lemma_fewer_images_fewer_bytes(few.remove(k), all.remove(k));
        } else {
            lemma_fewer_images_fewer_bytes(few, all.remove(k));
        }
    }
}

/// What an eviction does. What stays is as it was; the focused image stays;
/// an image that leaves was used no later than any that stays, but for the
/// focused one; what stays is within the budget, or one image; and where all
/// was within the budget, all stays.
pub proof fn lemma_what_an_eviction_does(
    before: loupe::Cache,
    after: loupe::Cache,
    focused: Option<usize>,
    budget: int,
    gone: usize,
    kept: usize,
)
    requires
        before.dom().finite(),
        loupe::is_eviction(before, after, focused, budget),
    ensures
        after.contains_key(kept) ==> before.contains_key(kept) && after[kept] == before[kept],
        focused is Some && before.contains_key(focused->0) ==> after.contains_key(focused->0),
        before.contains_key(gone) && !after.contains_key(gone) && after.contains_key(kept) && Some(
            kept,
        ) != focused ==> before[gone].1 <= before[kept].1,
        after.dom().len() <= 1 || loupe::bytes_of(after) <= budget,
        loupe::bytes_of(before) <= budget ==> after == before,
{
    if after.contains_key(kept) {
        assert(after[kept] == before[kept]);
    }
    if before.contains_key(gone) && !after.contains_key(gone) && after.contains_key(kept) && Some(
        kept,
    ) != focused {
        assert(before[gone].1 <= after[kept].1);
    }
    if loupe::bytes_of(before) <= budget {
        if after.dom() != before.dom() {
            let r = choose|r: usize|
                before.contains_key(r) && !after.contains_key(r) && loupe::bytes_of(after) + (
                #[trigger] before[r]).0.bytes() > budget && forall|q: usize|
                    before.contains_key(q) && !after.contains_key(q) ==> (#[trigger] before[q]).1
                        <= before[r].1;
            assert(before.contains_key(r) && !after.contains_key(r));
            let rest = before.remove(r);
            assert(after.submap_of(rest)) by {
                assert forall|k: usize| #[trigger] after.dom().contains(k) implies rest.dom().contains(
                    k,
                ) && after[k] == rest[k] by {
                    assert(after.contains_key(k) && before.contains_key(k));
                    assert(after[k] == before[k]);
                    assert(k != r);
                }
            }
            loupe::lemma_bytes_without(before, r);
            lemma_fewer_images_fewer_bytes(after, rest);
            assert(loupe::bytes_of(after) + before[r].0.bytes() <= budget);
        }
        assert(after.dom() == before.dom());
        assert(after =~= before);
    }
}

} // verus!
