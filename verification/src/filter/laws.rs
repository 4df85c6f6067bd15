//! What a photographer sees of the filters, the sorts and the cursor, said
//! of the views and of the images themselves.
use crate::catalog::PickState;
use crate::filter;
use crate::filter::{PickFilter, SortKey, ViewQuery};
use crate::text;
use vstd::prelude::*;

verus! {

// --------------------------------------------------------------- the views
/// Under the capture-time sort of a loaded folder, ascending, of two images
/// of the view the one that stands first
/// - has a capture key if the other has one;
/// - has a key that is not after the other's, in byte order;
/// - with the same key, or where neither has one, has a name that is not
///   after the other's, in byte order;
/// - and with the same name too, is the earlier one of the session.
pub proof fn lemma_capture_time_view(
    picks: Seq<PickState>,
    names: Seq<String>,
    keys: Seq<Option<String>>,
    filter: PickFilter,
    i: int,
    j: int,
)
    requires
        picks.len() <= usize::MAX,
        0 <= i < j < filter::view_of(
            picks,
            names,
            keys,
            (ViewQuery { filter, sort: SortKey::CaptureTime, ascending: true }),
            true,
        ).len(),
    ensures
        ({
            let v = filter::view_of(
                picks,
                names,
                keys,
                ViewQuery { filter, sort: SortKey::CaptureTime, ascending: true },
                true,
            );
            let (a, b) = (v[i] as int, v[j] as int);
            &&& keys[b] is Some ==> keys[a] is Some
            &&& keys[a] is Some && keys[b] is Some ==> text::text_le(keys[a]->0@, keys[b]->0@)
            &&& keys[a] is Some && keys[b] is Some && keys[a]->0@ == keys[b]->0@
                ==> text::text_le(names[a]@, names[b]@)
            &&& keys[a] is None && keys[b] is None ==> text::text_le(names[a]@, names[b]@)
            &&& text::opt_text(keys[a]) == text::opt_text(keys[b]) && names[a]@ == names[b]@
                ==> a < b
        }),
{
    let query = ViewQuery { filter, sort: SortKey::CaptureTime, ascending: true };
    let v = filter::view_of(picks, names, keys, query, true);
    let (a, b) = (v[i] as int, v[j] as int);
    filter::lemma_view_is_sorted(picks, names, keys, query, true, i, j);
    text::lemma_text_le(names[a]@, names[b]@, names[a]@);
    if keys[a] is Some && keys[b] is Some {
        text::lemma_text_le(keys[a]->0@, keys[b]->0@, keys[a]->0@);
    }
}

/// Under the filename sort, and while metadata is still arriving under any
/// sort, ascending: of two images of the view the one that stands first has a
/// name that is not after the other's, in byte order, and with the same name
/// is the earlier one of the session.
pub proof fn lemma_filename_view(
    picks: Seq<PickState>,
    names: Seq<String>,
    keys: Seq<Option<String>>,
    query: ViewQuery,
    complete: bool,
    i: int,
    j: int,
)
    requires
        picks.len() <= usize::MAX,
        query.ascending,
        query.sort == SortKey::Filename || !complete,
        0 <= i < j < filter::view_of(picks, names, keys, query, complete).len(),
    ensures
        ({
            let v = filter::view_of(picks, names, keys, query, complete);
            let (a, b) = (v[i] as int, v[j] as int);
            &&& text::text_le(names[a]@, names[b]@)
            &&& names[a]@ == names[b]@ ==> a < b
        }),
{
    let v = filter::view_of(picks, names, keys, query, complete);
    let (a, b) = (v[i] as int, v[j] as int);
    filter::lemma_view_is_sorted(picks, names, keys, query, complete, i, j);
    text::lemma_text_le(names[a]@, names[b]@, names[a]@);
}

/// Each chip shows the images of its verdict, each once, and "all" shows
/// every image.
pub proof fn lemma_view_shows_the_verdict(
    picks: Seq<PickState>,
    names: Seq<String>,
    keys: Seq<Option<String>>,
    sort: SortKey,
    ascending: bool,
    complete: bool,
    id: usize,
)
    requires
        picks.len() <= usize::MAX,
    ensures
        ({
            let shown = |filter: PickFilter|
                filter::view_of(
                    picks,
                    names,
                    keys,
                    ViewQuery { filter, sort, ascending },
                    complete,
                );
            &&& shown(PickFilter::All).contains(id) <==> id < picks.len()
            &&& shown(PickFilter::Picked).contains(id) <==> id < picks.len() && picks[id as int]
                == PickState::Picked
            &&& shown(PickFilter::Rejected).contains(id) <==> id < picks.len() && picks[id as int]
                == PickState::Rejected
            &&& shown(PickFilter::Unmarked).contains(id) <==> id < picks.len() && picks[id as int]
                == PickState::Unmarked
            &&& shown(PickFilter::All).no_duplicates()
            &&& shown(PickFilter::Picked).no_duplicates()
            &&& shown(PickFilter::Rejected).no_duplicates()
            &&& shown(PickFilter::Unmarked).no_duplicates()
        }),
{
    let q = |filter: PickFilter| ViewQuery { filter, sort, ascending };
    filter::lemma_view_members(picks, names, keys, q(PickFilter::All), complete, id);
    filter::lemma_view_members(picks, names, keys, q(PickFilter::Picked), complete, id);
    filter::lemma_view_members(picks, names, keys, q(PickFilter::Rejected), complete, id);
    filter::lemma_view_members(picks, names, keys, q(PickFilter::Unmarked), complete, id);
}

/// Each further image adds one to the count of its own verdict and to no
/// other; an empty session counts nothing.
pub proof fn lemma_counts_follow_the_verdicts(picks: Seq<PickState>, more: PickState)
    ensures
        ({
            let all = picks.push(more);
            let one = |b: bool|
                if b {
                    1int
                } else {
                    0int
                };
            &&& filter::count(all, PickFilter::Picked) == filter::count(picks, PickFilter::Picked)
                + one(more == PickState::Picked)
            &&& filter::count(all, PickFilter::Rejected) == filter::count(
                picks,
                PickFilter::Rejected,
            ) + one(more == PickState::Rejected)
            &&& filter::count(all, PickFilter::Unmarked) == filter::count(
                picks,
                PickFilter::Unmarked,
            ) + one(more == PickState::Unmarked)
            &&& filter::count(Seq::empty(), PickFilter::Picked) == 0
            &&& filter::count(Seq::empty(), PickFilter::Rejected) == 0
            &&& filter::count(Seq::empty(), PickFilter::Unmarked) == 0
        }),
{
    let n = picks.len() as int;
    let all = picks.push(more);
    lemma_passing_of_front(picks, more, PickFilter::Picked, n);
    lemma_passing_of_front(picks, more, PickFilter::Rejected, n);
    lemma_passing_of_front(picks, more, PickFilter::Unmarked, n);
    assert(all[n] == more);
}

proof fn lemma_passing_of_front(
    picks: Seq<PickState>,
    more: PickState,
    filter: PickFilter,
    i: int,
)
    requires
        0 <= i <= picks.len(),
    ensures
        filter::passing(picks.push(more), filter, i) == filter::passing(picks, filter, i),
    decreases i,
{
    if i > 0 {
        lemma_passing_of_front(picks, more, filter, i - 1);
    }
}

// -------------------------------------------------------------- the cursor
/// Where the marked image leaves the view, the cursor goes to the image that
/// stood behind it, or where it stood last to the one before it, with
/// auto-advance on or off alike; an emptied view has no cursor.
pub proof fn lemma_a_mark_that_removes(old: Seq<usize>, pos: int, auto_advance: bool)
    requires
        0 <= pos < old.len(),
        old.no_duplicates(),
    ensures
        ({
            let r = filter::after_mark(old[pos], pos, old.remove(pos), auto_advance);
            &&& pos + 1 < old.len() ==> r == Some(old[pos + 1])
            &&& pos + 1 == old.len() && pos > 0 ==> r == Some(old[pos - 1])
            &&& old.len() == 1 ==> r is None
        }),
{
    let new = old.remove(pos);
    let marked = old[pos];
    assert forall|i: int| 0 <= i < new.len() implies #[trigger] new[i] != marked by {
        let o = if i < pos {
            i
        } else {
            i + 1
        };
        assert(new[i] == old[o] && o != pos);
    }
    filter::lemma_position(new, marked, new.len() as int);
}

/// The same where other images came or went meanwhile: the cursor goes to
/// the image that stands where the marked one stood, else to the last one,
/// with auto-advance on or off alike.
pub proof fn lemma_a_mark_that_removes_among_others(
    marked: usize,
    pos: int,
    new: Seq<usize>,
    auto_advance: bool,
)
    requires
        0 <= pos,
        !new.contains(marked),
    ensures
        ({
            let r = filter::after_mark(marked, pos, new, auto_advance);
            &&& pos < new.len() ==> r == Some(new[pos])
            &&& 0 < new.len() <= pos ==> r == Some(new[new.len() - 1])
            &&& new.len() == 0 ==> r is None
        }),
{
    filter::lemma_position_is(new, marked);
}

/// Where the marked image stays in the view, the cursor stays on it without
/// auto-advance; with it, the cursor goes to the image behind it, and stays
/// where there is none.
pub proof fn lemma_a_mark_that_stays(
    view: Seq<usize>,
    at: int,
    old_pos: int,
    auto_advance: bool,
)
    requires
        0 <= at < view.len(),
        view.no_duplicates(),
    ensures
        filter::after_mark(view[at], old_pos, view, auto_advance) == if auto_advance && at + 1
            < view.len() {
            Some(view[at + 1])
        } else {
            Some(view[at])
        },
{
    assert forall|i: int| 0 <= i < at implies #[trigger] view[i] != view[at] by {}
    filter::lemma_position(view, view[at], at);
}

/// After a removal the cursor image is one of the view: the one that slid
/// into the place, else the last; an empty view has none.
pub proof fn lemma_removal_keeps_the_place(new: Seq<usize>, pos: int)
    requires
        0 <= pos,
    ensures
        pos < new.len() ==> filter::slid_in(new, pos) == Some(new[pos]),
        0 < new.len() <= pos ==> filter::slid_in(new, pos) == Some(new[new.len() - 1]),
        new.len() == 0 ==> filter::slid_in(new, pos) is None,
{
}

/// How far apart two positions are.
pub open spec fn apart(a: int, b: int) -> int {
    if a < b {
        b - a
    } else {
        a - b
    }
}

/// After a change of the filter the cursor stays on an image that survived.
/// One that did not is followed by the survivor that stood nearest to it, and
/// of two at the same distance by the one that stood before it. Where nothing
/// survived, where the cursor was in no view, and where there was none, it is
/// the first image of the new view, if there is one.
pub proof fn lemma_filter_change(old: Seq<usize>, pos: int, new: Seq<usize>, q: int, stray: usize)
    requires
        0 <= pos < old.len(),
        old.no_duplicates(),
        !old.contains(stray),
    ensures
        ({
            let r = filter::after_filter_change(old, Some(old[pos]), new);
            let start = if new.len() > 0 {
                Some(new[0])
            } else {
                None
            };
            &&& new.contains(old[pos]) ==> r == Some(old[pos])
            &&& !new.contains(old[pos]) && 0 <= q < old.len() && new.contains(old[q]) && (forall|
                k: int,
            |
                0 <= k < old.len() && k != q && new.contains(#[trigger] old[k]) ==> apart(pos, q)
                    < apart(pos, k) || (apart(pos, q) == apart(pos, k) && q < k)) ==> r == Some(
                old[q],
            )
            &&& (forall|k: int| 0 <= k < old.len() ==> !new.contains(#[trigger] old[k])) ==> r
                == start
            &&& filter::after_filter_change(old, None, new) == start
            &&& filter::after_filter_change(old, Some(stray), new) == if new.contains(stray) {
                Some(stray)
            } else {
                start
            }
        }),
{
    assert forall|i: int| 0 <= i < pos implies #[trigger] old[i] != old[pos] by {}
    filter::lemma_position(old, old[pos], pos);
    filter::lemma_position_is(old, stray);
    if !new.contains(old[pos]) && 0 <= q < old.len() && new.contains(old[q]) && (forall|k: int|
        0 <= k < old.len() && k != q && new.contains(#[trigger] old[k]) ==> apart(pos, q) < apart(
            pos,
            k,
        ) || (apart(pos, q) == apart(pos, k) && q < k)) {
        lemma_outward(old, pos, new, q, 1);
    }
    if forall|k: int| 0 <= k < old.len() ==> !new.contains(#[trigger] old[k]) {
        lemma_outward_none(old, pos, new, 1);
    }
}

proof fn lemma_outward(old: Seq<usize>, pos: int, new: Seq<usize>, q: int, dist: int)
    requires
        0 <= pos < old.len(),
        0 <= q < old.len(),
        new.contains(old[q]),
        1 <= dist <= apart(pos, q),
        forall|k: int|
            0 <= k < old.len() && k != q && new.contains(#[trigger] old[k]) ==> apart(pos, q)
                < apart(pos, k) || (apart(pos, q) == apart(pos, k) && q < k),
    ensures
        filter::nearest(old, pos, new, dist) == Some(old[q]),
    decreases apart(pos, q) - dist,
{
    assert(dist <= old.len());
    if dist < apart(pos, q) {
        lemma_outward(old, pos, new, q, dist + 1);
    }
}

proof fn lemma_outward_none(old: Seq<usize>, pos: int, new: Seq<usize>, dist: int)
    requires
        forall|k: int| 0 <= k < old.len() ==> !new.contains(#[trigger] old[k]),
    ensures
        filter::nearest(old, pos, new, dist) is None,
    decreases old.len() + 1 - dist,
{
    if dist <= old.len() {
        lemma_outward_none(old, pos, new, dist + 1);
    }
}

/// A cursor that nobody moved follows the head of the view while the folder
/// loads, and whenever the user asks for a different view. A cursor that was
/// moved, and any cursor on a loaded folder whose view the user did not
/// change, goes as after a change of the filter.
pub proof fn lemma_recompute(
    old: Seq<usize>,
    cursor: Option<usize>,
    new: Seq<usize>,
    complete: bool,
    user_changed_query: bool,
)
    ensures
        ({
            let start = if new.len() > 0 {
                Some(new[0])
            } else {
                None
            };
            let kept = filter::after_filter_change(old, cursor, new);
            &&& filter::after_recompute(old, cursor, new, true, complete, user_changed_query)
                == kept
            &&& filter::after_recompute(old, cursor, new, false, true, false) == kept
            &&& filter::after_recompute(old, cursor, new, false, false, user_changed_query)
                == start
            &&& filter::after_recompute(old, cursor, new, false, complete, true) == start
        }),
{
}

} // verus!
