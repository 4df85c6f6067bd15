//! What every operation of the loupe engine keeps.
use crate::loupe;
use crate::loupe::LoupeView;
use crate::loupe::Origin;
use crate::loupe::Pending;
use crate::loupe::Slot;
use vstd::prelude::*;

verus! {

/// A sound state: an image is queued at most once, is never both queued and
/// in flight, flies at most once, and is not queued once it has failed; the
/// byte count is that of the cache; and the positions of the view are those
/// of its ids.
pub open spec fn sound(s: LoupeView) -> bool {
    &&& loupe::one_each(s.queue)
    &&& s.in_flight.no_duplicates()
    &&& forall|i: int|
        0 <= i < s.queue.len() ==> !s.in_flight.contains((#[trigger] s.queue[i]).0)
            && !s.failed.contains(s.queue[i].0)
    &&& s.cache.dom().finite()
    &&& s.cached_bytes == loupe::bytes_of(s.cache)
    &&& forall|i: int|
        0 <= i < s.view_pos.len() && #[trigger] s.view_pos[i] != usize::MAX ==> s.view_pos[i]
            < s.view_ids.len() && s.view_ids[s.view_pos[i] as int] == i
}

// -------------------------------------------------------------- the queue
proof fn lemma_others(queue: Seq<Pending>, index: usize)
    ensures
        loupe::one_each(queue) ==> loupe::one_each(loupe::others(queue, index)),
        !loupe::is_queued(loupe::others(queue, index), index),
        forall|i: int|
            0 <= i < loupe::others(queue, index).len() ==> queue.contains(
                #[trigger] loupe::others(queue, index)[i],
            ) && loupe::others(queue, index)[i].0 != index,
    decreases queue.len(),
{
    if queue.len() > 0 {
        let front = queue.drop_last();
        let kept = loupe::others(front, index);
        lemma_others(front, index);
        let all = loupe::others(queue, index);
        if loupe::one_each(queue) {
            assert(loupe::one_each(front)) by {
                assert forall|i: int, j: int| 0 <= i < j < front.len() implies (
                #[trigger] front[i]).0 != (#[trigger] front[j]).0 by {
                    assert(queue[i].0 != queue[j].0);
                }
            }
        }
        assert forall|i: int| 0 <= i < all.len() implies queue.contains(#[trigger] all[i])
            && all[i].0 != index by {
            if i < kept.len() {
                assert(all[i] == kept[i]);
                let j = choose|j: int| 0 <= j < front.len() && front[j] == kept[i];
                assert(queue[j] == all[i]);
            } else {
                assert(queue[queue.len() - 1] == all[i]);
            }
        }
        if loupe::one_each(queue) && (queue.last()).0 != index {
            assert forall|i: int, j: int| 0 <= i < j < all.len() implies (#[trigger] all[i]).0 != (
            #[trigger] all[j]).0 by {
                if j == kept.len() {
                    let k = choose|k: int| 0 <= k < front.len() && front[k] == kept[i];
                    assert(queue[k].0 != queue[queue.len() - 1].0);
                } else {
                    assert(kept[i].0 != kept[j].0);
                }
            }
        }
    }
}

proof fn lemma_front_insert(queue: Seq<Pending>, e: Pending)
    requires
        loupe::one_each(queue),
        !loupe::is_queued(queue, e.0),
    ensures
        loupe::one_each(seq![e] + queue),
        loupe::one_each(queue.push(e)),
{
    let all = seq![e] + queue;
    assert forall|i: int, j: int| 0 <= i < j < all.len() implies (#[trigger] all[i]).0 != (
    #[trigger] all[j]).0 by {
        if i == 0 {
            assert(all[j] == queue[j - 1]);
        } else {
            assert(all[i] == queue[i - 1] && all[j] == queue[j - 1]);
        }
    }
}

proof fn lemma_restamp(s: LoupeView, index: usize, stamp: u64)
    requires
        s.cache.dom().finite(),
    ensures
        s.stamped(index, stamp).cache.dom() == s.cache.dom(),
        loupe::bytes_of(s.stamped(index, stamp).cache) == loupe::bytes_of(s.cache),
{
    if s.cache.contains_key(index) {
        let c = s.stamped(index, stamp).cache;
        loupe::lemma_bytes_without(s.cache, index);
        assert(c.dom() =~= s.cache.dom());
        loupe::lemma_bytes_without(c, index);
        assert(c.remove(index) =~= s.cache.remove(index));
    }
}

/// Scheduling keeps a state sound, whoever asks and for whatever.
pub proof fn lemma_schedule_keeps(
    s: LoupeView,
    index: usize,
    target: u32,
    stamp: u64,
    origin: Origin,
)
    requires
        sound(s),
    ensures
        sound(s.scheduled(index, target, stamp, origin)),
{
    lemma_restamp(s, index, stamp);
    lemma_others(s.queue, index);
    let rest = loupe::others(s.queue, index);
    let t = s.scheduled(index, target, stamp, origin);
    if s.takes(index, target, origin) {
        if origin == Origin::Focus {
            lemma_front_insert(rest, (index, target, true));
            assert forall|i: int| 0 <= i < t.queue.len() implies !t.in_flight.contains(
                (#[trigger] t.queue[i]).0,
            ) && !t.failed.contains(t.queue[i].0) by {
                if i < rest.len() {
                    assert(t.queue[i] == rest[i]);
                    let j = choose|j: int| 0 <= j < s.queue.len() && s.queue[j] == rest[i];
                    assert(!s.in_flight.contains(s.queue[j].0));
                }
            }
        } else {
            lemma_front_insert(s.queue, (index, target, false));
            assert forall|i: int| 0 <= i < t.queue.len() implies !t.in_flight.contains(
                (#[trigger] t.queue[i]).0,
            ) && !t.failed.contains(t.queue[i].0) by {
                if i > 0 {
                    assert(t.queue[i] == s.queue[i - 1]);
                }
            }
        }
    }
}

/// So does a row of them.
pub proof fn lemma_schedule_all_keeps(
    s: LoupeView,
    ids: Seq<usize>,
    target: u32,
    stamp: u64,
    origin: Origin,
)
    requires
        sound(s),
    ensures
        sound(s.scheduled_all(ids, target, stamp, origin)),
    decreases ids.len(),
{
    if ids.len() > 0 {
        lemma_schedule_all_keeps(s, ids.drop_last(), target, stamp, origin);
        lemma_schedule_keeps(
            s.scheduled_all(ids.drop_last(), target, stamp, origin),
            ids.last(),
            target,
            stamp,
            origin,
        );
    }
}

/// A focus keeps a state sound.
pub proof fn lemma_focus_keeps(
    s: LoupeView,
    index: usize,
    display: u32,
    count: int,
    stamp: u64,
    now: u64,
)
    requires
        sound(s),
    ensures
        sound(s.noted(index, display, now)),
        sound(s.focused_on(index, display, count, stamp, now)),
{
    let t = s.noted(index, display, now);
    let transit = t.is_moving(now);
    lemma_schedule_all_keeps(
        t,
        t.wanted_by_focus(index, count, transit),
        loupe::request(transit, display),
        stamp,
        Origin::Focus,
    );
}

proof fn lemma_without_grid(queue: Seq<Pending>)
    ensures
        loupe::one_each(queue) ==> loupe::one_each(LoupeView::without_grid(queue)),
        forall|i: int|
            0 <= i < LoupeView::without_grid(queue).len() ==> queue.contains(
                #[trigger] LoupeView::without_grid(queue)[i],
            ),
    decreases queue.len(),
{
    if queue.len() > 0 {
        let front = queue.drop_last();
        let kept = LoupeView::without_grid(front);
        lemma_without_grid(front);
        let all = LoupeView::without_grid(queue);
        if loupe::one_each(queue) {
            assert(loupe::one_each(front)) by {
                assert forall|i: int, j: int| 0 <= i < j < front.len() implies (
                #[trigger] front[i]).0 != (#[trigger] front[j]).0 by {
                    assert(queue[i].0 != queue[j].0);
                }
            }
        }
        assert forall|i: int| 0 <= i < all.len() implies queue.contains(#[trigger] all[i]) by {
            if i < kept.len() {
                assert(all[i] == kept[i]);
                let j = choose|j: int| 0 <= j < front.len() && front[j] == kept[i];
                assert(queue[j] == all[i]);
            } else {
                assert(queue[queue.len() - 1] == all[i]);
            }
        }
        if loupe::one_each(queue) && (queue.last()).2 {
            assert forall|i: int, j: int| 0 <= i < j < all.len() implies (#[trigger] all[i]).0 != (
            #[trigger] all[j]).0 by {
                if j == kept.len() {
                    let k = choose|k: int| 0 <= k < front.len() && front[k] == kept[i];
                    assert(queue[k].0 != queue[queue.len() - 1].0);
                } else {
                    assert(kept[i].0 != kept[j].0);
                }
            }
        }
    }
}

/// A grid want keeps a state sound.
pub proof fn lemma_want_keeps(s: LoupeView, ids: Seq<usize>, display: u32, count: int, stamp: u64)
    requires
        sound(s),
    ensures
        sound(s.wanting(ids, display, count, stamp)),
{
    lemma_without_grid(s.queue);
    let t = LoupeView { queue: LoupeView::without_grid(s.queue), ..s };
    assert forall|i: int| 0 <= i < t.queue.len() implies !t.in_flight.contains(
        (#[trigger] t.queue[i]).0,
    ) && !t.failed.contains(t.queue[i].0) by {
        let j = choose|j: int| 0 <= j < s.queue.len() && s.queue[j] == t.queue[i];
        assert(!s.in_flight.contains(s.queue[j].0));
    }
    lemma_schedule_all_keeps(t, loupe::known(ids, count), display, stamp, Origin::Grid);
}

// ------------------------------------------------------------- the workers
/// Picking a job keeps a state sound, and never gives out an image that is
/// already in flight or has failed: no two workers decode the same image.
pub proof fn lemma_pick_keeps(s: LoupeView, reserved: bool, now: u64)
    requires
        sound(s),
    ensures
        sound(s.picked(reserved, now).1),
        match s.picked(reserved, now).0 {
            Slot::Job(index, _) => !s.in_flight.contains(index) && !s.failed.contains(index)
                && s.picked(reserved, now).1.in_flight == s.in_flight.push(index),
            _ => s.picked(reserved, now).1.in_flight == s.in_flight,
        },
    decreases s.queue.len(),
{
    let k = if reserved {
        loupe::last_entry(s.queue, s.focused->0)
    } else {
        s.queue.len() - 1
    };
    if reserved && (s.focused is None || s.held(now) < loupe::FOCUS_DEBOUNCE) {
    } else if k < 0 || k >= s.queue.len() {
        if reserved && s.must_climb(s.focused->0, now) {
            let f = s.focused->0;
            loupe::lemma_no_entry(s.queue, f);
            lemma_takeoff(s, f);
        }
    } else {
        let (index, target, _) = s.queue[k];
        let rest = LoupeView { queue: s.queue.remove(k), ..s };
        assert forall|i: int, j: int| 0 <= i < j < rest.queue.len() implies (
        #[trigger] rest.queue[i]).0 != (#[trigger] rest.queue[j]).0 by {
            let a = if i < k {
                i
            } else {
                i + 1
            };
            let b = if j < k {
                j
            } else {
                j + 1
            };
            assert(rest.queue[i] == s.queue[a] && rest.queue[j] == s.queue[b]);
        }
        assert forall|i: int| 0 <= i < rest.queue.len() implies !rest.in_flight.contains(
            (#[trigger] rest.queue[i]).0,
        ) && !rest.failed.contains(rest.queue[i].0) && rest.queue[i].0 != index by {
            let a = if i < k {
                i
            } else {
                i + 1
            };
            assert(rest.queue[i] == s.queue[a]);
            if a < k {
                assert(s.queue[a].0 != s.queue[k].0);
            } else {
                assert(s.queue[k].0 != s.queue[a].0);
            }
        }
        assert(sound(rest));
        assert(!s.in_flight.contains(s.queue[k].0));
        if s.is_enough(index, target) {
            lemma_pick_keeps(rest, reserved, now);
        } else {
            assert(!loupe::is_queued(rest.queue, index));
            lemma_takeoff(rest, index);
        }
    }
}

proof fn lemma_takeoff(s: LoupeView, index: usize)
    requires
        sound(s),
        !s.in_flight.contains(index),
        !loupe::is_queued(s.queue, index),
    ensures
        sound(LoupeView { in_flight: s.in_flight.push(index), ..s }),
{
    let t = LoupeView { in_flight: s.in_flight.push(index), ..s };
    assert forall|i: int| 0 <= i < t.queue.len() implies !t.in_flight.contains(
        (#[trigger] t.queue[i]).0,
    ) by {
        assert(t.queue[i] == s.queue[i]);
        if t.in_flight.contains(s.queue[i].0) {
            let j = choose|j: int| 0 <= j < t.in_flight.len() && t.in_flight[j] == s.queue[i].0;
            if j < s.in_flight.len() {
                assert(s.in_flight[j] == s.queue[i].0);
            }
        }
    }
    assert forall|i: int, j: int|
        0 <= i < t.in_flight.len() && 0 <= j < t.in_flight.len() && i != j implies t.in_flight[i]
        != t.in_flight[j] by {
        if i == s.in_flight.len() {
            assert(s.in_flight.contains(s.in_flight[j]));
        } else if j == s.in_flight.len() {
            assert(s.in_flight.contains(s.in_flight[i]));
        }
    }
}

pub(crate) proof fn lemma_others_flying(in_flight: Seq<usize>, index: usize)
    requires
        in_flight.no_duplicates(),
    ensures
        loupe::others_flying(in_flight, index).no_duplicates(),
        forall|x: usize|
            #[trigger] loupe::others_flying(in_flight, index).contains(x) <==> in_flight.contains(x)
                && x != index,
    decreases in_flight.len(),
{
    if in_flight.len() > 0 {
        let front = in_flight.drop_last();
        let last = in_flight.last();
        assert(front.no_duplicates());
        lemma_others_flying(front, index);
        let kept = loupe::others_flying(front, index);
        let all = loupe::others_flying(in_flight, index);
        assert(!front.contains(last)) by {
            if front.contains(last) {
                let j = choose|j: int| 0 <= j < front.len() && front[j] == last;
                assert(in_flight[j] == in_flight[in_flight.len() - 1]);
            }
        }
        assert forall|x: usize| in_flight.contains(x) <==> front.contains(x) || x == last by {
            if in_flight.contains(x) {
                let j = choose|j: int| 0 <= j < in_flight.len() && in_flight[j] == x;
                if j < front.len() {
                    assert(front[j] == x);
                }
            }
            if front.contains(x) {
                let j = choose|j: int| 0 <= j < front.len() && front[j] == x;
                assert(in_flight[j] == x);
            }
            assert(in_flight[in_flight.len() - 1] == last);
        }
        if last != index {
            assert(all == kept.push(last));
            assert(!kept.contains(last));
            assert forall|x: usize| #[trigger] all.contains(x) <==> in_flight.contains(x) && x
                != index by {
                if all.contains(x) {
                    let j = choose|j: int| 0 <= j < all.len() && all[j] == x;
                    if j < kept.len() {
                        assert(kept[j] == x);
                        assert(kept.contains(x));
                    }
                }
                if kept.contains(x) {
                    let j = choose|j: int| 0 <= j < kept.len() && kept[j] == x;
                    assert(all[j] == x);
                }
                assert(all[kept.len() as int] == last);
                assert(kept.contains(x) <==> front.contains(x) && x != index);
            }
            assert forall|i: int, j: int|
                0 <= i < all.len() && 0 <= j < all.len() && i != j implies all[i] != all[j] by {
                if i == kept.len() {
                    assert(kept.contains(kept[j]));
                } else if j == kept.len() {
                    assert(kept.contains(kept[i]));
                }
            }
        } else {
            assert(all == kept);
            assert forall|x: usize| #[trigger] all.contains(x) <==> in_flight.contains(x) && x
                != index by {
                assert(kept.contains(x) <==> front.contains(x) && x != index);
            }
        }
    }
}

/// A revived upgrade keeps a state sound, where its image is not in flight.
pub proof fn lemma_revive_keeps(s: LoupeView, index: usize, target: u32, stamp: u64)
    requires
        sound(s),
        !s.in_flight.contains(index),
    ensures
        sound(s.revived(index, target, stamp)),
{
    lemma_restamp(s, index, stamp);
    lemma_others(s.queue, index);
    let rest = loupe::others(s.queue, index);
    let t = s.revived(index, target, stamp);
    if s.revives(index, target) {
        lemma_front_insert(rest, (index, target, true));
        assert forall|i: int| 0 <= i < t.queue.len() implies !t.in_flight.contains(
            (#[trigger] t.queue[i]).0,
        ) && !t.failed.contains(t.queue[i].0) by {
            let e = t.queue[i];
            if e.0 != index {
                let r = if s.focused == Some(index) {
                    i
                } else {
                    i - 1
                };
                assert(e == rest[r]);
                let j = choose|j: int| 0 <= j < s.queue.len() && s.queue[j] == rest[r];
                assert(!s.in_flight.contains(s.queue[j].0));
            }
        }
    }
}

/// A landing keeps a state sound; and an image that failed is never queued
/// again by it.
pub proof fn lemma_landing_keeps(s: LoupeView, index: usize, failed: bool, stamp: u64)
    requires
        sound(s),
        s.in_flight.contains(index),
    ensures
        sound(s.landed(index, failed, stamp)),
        !s.landed(index, failed, stamp).in_flight.contains(index),
        failed ==> !loupe::is_queued(s.landed(index, failed, stamp).queue, index),
{
    lemma_others_flying(s.in_flight, index);
    let t = s.grounded(index, failed);
    assert forall|i: int| 0 <= i < t.queue.len() implies !t.in_flight.contains(
        (#[trigger] t.queue[i]).0,
    ) && !t.failed.contains(t.queue[i].0) by {
        assert(!s.in_flight.contains(s.queue[i].0));
    }
    assert(!t.in_flight.contains(index));
    assert(sound(t));
    if s.deferred.contains_key(index) {
        lemma_revive_keeps(t, index, s.deferred[index], stamp);
    }
    let u = s.landed(index, failed, stamp);
    if failed && loupe::is_queued(u.queue, index) {
        let i = choose|i: int| 0 <= i < u.queue.len() && (#[trigger] u.queue[i]).0 == index;
        assert(!u.failed.contains(u.queue[i].0));
    }
}

// ---------------------------------------------------------- view and cache
/// Installing a view keeps a state sound, where the view fits the machine.
pub proof fn lemma_view_keeps(s: LoupeView, order: Seq<usize>, count: int)
    requires
        sound(s),
        order.len() <= usize::MAX,
        0 <= count <= usize::MAX,
    ensures
        sound(
            LoupeView { view_ids: order, view_pos: loupe::places(order, count), ..s },
        ),
{
    let pos = loupe::places(order, count);
    assert forall|i: int| 0 <= i < pos.len() && #[trigger] pos[i] != usize::MAX implies pos[i]
        < order.len() && order[pos[i] as int] == i by {
        lemma_placed_is(order, i as usize);
    }
}

proof fn lemma_placed_is(order: Seq<usize>, id: usize)
    requires
        order.len() <= usize::MAX,
    ensures
        loupe::placed(order, id) != usize::MAX ==> loupe::placed(order, id) < order.len()
            && order[loupe::placed(order, id) as int] == id,
    decreases order.len(),
{
    if order.len() > 0 && order.last() != id {
        lemma_placed_is(order.drop_last(), id);
    }
}

/// A published image keeps a state sound, and the focused image in the
/// cache; and the image is there afterwards where it is the focused one.
pub proof fn lemma_publish_keeps(
    s: LoupeView,
    after: loupe::Cache,
    index: usize,
    image: loupe::FullImage,
    stamp: u64,
    budget: int,
)
    requires
        sound(s),
        loupe::is_eviction(s.cache.insert(index, (image, stamp)), after, s.focused, budget),
    ensures
        sound(LoupeView { cache: after, cached_bytes: loupe::bytes_of(after), ..s }),
        s.focused == Some(index) ==> after.contains_key(index) && after[index] == (image, stamp),
        s.focused is Some && s.cache.contains_key(s.focused->0) ==> after.contains_key(
            s.focused->0,
        ),
{
    let before = s.cache.insert(index, (image, stamp));
    assert(after.dom().subset_of(before.dom())) by {
        assert forall|k: usize| after.dom().contains(k) implies before.dom().contains(k) by {}
    }
    vstd::set_lib::lemma_len_subset(after.dom(), before.dom());
    if s.focused == Some(index) {
        assert(before.contains_key(index));
        assert(after.dom().contains(index) && before.dom().contains(index));
    }
}

} // verus!
