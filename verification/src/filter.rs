//! Filter & sort predicates over the session: single-choice pick filters,
//! capture-time or filename sort, live counts, and the cursor rules that
//! make the inbox-zero loop (filter Unmarked, Y/N until empty) work exactly.
//!
//! Pure functions over parallel slices — the application owns the state,
//! this module owns the semantics.
use crate::catalog::PickState;
use crate::order;
use crate::text;
use vstd::prelude::*;

pub mod laws;

verus! {

/// Single-choice filter chips.
#[derive(Debug, Clone, Copy, PartialEq, Eq, Structural)]
pub enum PickFilter {
    All,
    Picked,
    Rejected,
    Unmarked,
}

impl Default for PickFilter {
    fn default() -> (f: PickFilter)
        ensures
            f == PickFilter::All,
    {
        PickFilter::All
    }
}

impl PickFilter {
    /// Does an image with this verdict pass?
    pub open spec fn passes(self, pick: PickState) -> bool {
        match self {
            PickFilter::All => true,
            PickFilter::Picked => pick == PickState::Picked,
            PickFilter::Rejected => pick == PickState::Rejected,
            PickFilter::Unmarked => pick == PickState::Unmarked,
        }
    }

    pub fn matches(self, pick: PickState) -> (r: bool)
        ensures
            r == self.passes(pick),
    {
        match self {
            PickFilter::All => true,
            PickFilter::Picked => pick == PickState::Picked,
            PickFilter::Rejected => pick == PickState::Rejected,
            PickFilter::Unmarked => pick == PickState::Unmarked,
        }
    }
}

#[derive(Debug, Clone, Copy, PartialEq, Eq, Structural)]
pub enum SortKey {
    /// Capture time (EXIF sort key, lexicographic == chronological);
    /// images without one sort after those with one, by name. Default:
    /// keeps bursts adjacent.
    CaptureTime,
    Filename,
}

impl Default for SortKey {
    fn default() -> (k: SortKey)
        ensures
            k == SortKey::CaptureTime,
    {
        SortKey::CaptureTime
    }
}

#[derive(Debug, Clone, Copy, PartialEq, Eq, Structural)]
pub struct ViewQuery {
    pub filter: PickFilter,
    pub sort: SortKey,
    pub ascending: bool,
}

impl Default for ViewQuery {
    fn default() -> (q: ViewQuery)
        ensures
            q == (ViewQuery {
                filter: PickFilter::All,
                sort: SortKey::CaptureTime,
                ascending: true,
            }),
    {
        ViewQuery { filter: PickFilter::All, sort: SortKey::CaptureTime, ascending: true }
    }
}

// -------------------------------------------------------------- the counts
/// Live chip counts (status for "am I done?").
#[derive(Debug, Clone, Copy, PartialEq, Eq, Structural)]
pub struct Counts {
    pub all: usize,
    pub picked: usize,
    pub rejected: usize,
    pub unmarked: usize,
}

impl Default for Counts {
    fn default() -> (c: Counts)
        ensures
            c == (Counts { all: 0, picked: 0, rejected: 0, unmarked: 0 }),
    {
        Counts { all: 0, picked: 0, rejected: 0, unmarked: 0 }
    }
}

/// The images that pass a filter, in session order, among the first `i`.
pub open spec fn passing(picks: Seq<PickState>, filter: PickFilter, i: int) -> Seq<usize>
    decreases i,
{
    if i <= 0 {
        Seq::empty()
    } else if filter.passes(picks[i - 1]) {
        passing(picks, filter, i - 1).push((i - 1) as usize)
    } else {
        passing(picks, filter, i - 1)
    }
}

/// How many images pass a filter.
pub open spec fn count(picks: Seq<PickState>, filter: PickFilter) -> int {
    passing(picks, filter, picks.len() as int).len() as int
}

pub fn counts(picks: &[PickState]) -> (c: Counts)
    ensures
        c.all == picks@.len(),
        c.picked == count(picks@, PickFilter::Picked),
        c.rejected == count(picks@, PickFilter::Rejected),
        c.unmarked == count(picks@, PickFilter::Unmarked),
{
    let mut c = Counts::default();
    c.all = picks.len();
    let mut i: usize = 0;
    while i < picks.len()
        invariant
            i <= picks@.len(),
            c.all == picks@.len(),
            c.picked == passing(picks@, PickFilter::Picked, i as int).len(),
            c.rejected == passing(picks@, PickFilter::Rejected, i as int).len(),
            c.unmarked == passing(picks@, PickFilter::Unmarked, i as int).len(),
            c.picked <= i,
            c.rejected <= i,
            c.unmarked <= i,
        decreases picks@.len() - i,
    {
        match picks[i] {
            PickState::Picked => {
                c.picked = c.picked + 1;
            },
            PickState::Rejected => {
                c.rejected = c.rejected + 1;
            },
            PickState::Unmarked => {
                c.unmarked = c.unmarked + 1;
            },
        }
        i = i + 1;
    }
    c
}

// ---------------------------------------------------------------- the view
/// "Not after", by file name.
pub open spec fn by_name(names: Seq<String>, a: int, b: int) -> bool {
    text::text_le(names[a]@, names[b]@)
}

/// "Not after", by capture time: keyed images chronologically, keyless ones
/// after them, and the name where the key does not decide.
pub open spec fn by_capture(
    names: Seq<String>,
    keys: Seq<Option<String>>,
    a: int,
    b: int,
) -> bool {
    match (keys[a], keys[b]) {
        (Some(x), Some(y)) => text::text_le(x@, y@) && (x@ == y@ ==> by_name(names, a, b)),
        (Some(_), None) => true,
        (None, Some(_)) => false,
        (None, None) => by_name(names, a, b),
    }
}

/// "Not after", by the sort in force.
pub open spec fn sorted_by(
    sort: SortKey,
    names: Seq<String>,
    keys: Seq<Option<String>>,
    a: int,
    b: int,
) -> bool {
    match sort {
        SortKey::Filename => by_name(names, a, b),
        SortKey::CaptureTime => by_capture(names, keys, a, b),
    }
}

/// Some images in the order of a sort; equal ones in session order.
pub open spec fn arranged(
    ids: Seq<usize>,
    sort: SortKey,
    names: Seq<String>,
    keys: Seq<Option<String>>,
) -> Seq<usize> {
    let p = order::stable_order_of(
        ids.len() as int,
        |a: int, b: int| sorted_by(sort, names, keys, ids[a] as int, ids[b] as int),
    );
    Seq::new(ids.len(), |i: int| ids[p[i] as int])
}

/// The sort in force: filename order while metadata is still streaming.
pub open spec fn sort_in_force(query: ViewQuery, complete: bool) -> SortKey {
    if complete {
        query.sort
    } else {
        SortKey::Filename
    }
}

/// The display view.
pub open spec fn view_of(
    picks: Seq<PickState>,
    names: Seq<String>,
    keys: Seq<Option<String>>,
    query: ViewQuery,
    complete: bool,
) -> Seq<usize> {
    let ids = passing(picks, query.filter, picks.len() as int);
    let ordered = arranged(ids, sort_in_force(query, complete), names, keys);
    if query.ascending {
        ordered
    } else {
        ordered.reverse()
    }
}

proof fn lemma_passing(picks: Seq<PickState>, filter: PickFilter, i: int)
    requires
        0 <= i <= picks.len() <= usize::MAX,
    ensures
        passing(picks, filter, i).len() <= i,
        forall|k: int|
            0 <= k < passing(picks, filter, i).len() ==> #[trigger] passing(picks, filter, i)[k] < i
                && filter.passes(picks[passing(picks, filter, i)[k] as int]),
        forall|k: int, l: int|
            0 <= k < l < passing(picks, filter, i).len() ==> #[trigger] passing(picks, filter, i)[k]
                < #[trigger] passing(picks, filter, i)[l],
    decreases i,
{
    if i > 0 {
        lemma_passing(picks, filter, i - 1);
    }
}

proof fn lemma_passing_has(picks: Seq<PickState>, filter: PickFilter, i: int, x: int) -> (k: int)
    requires
        0 <= x < i <= picks.len() <= usize::MAX,
        filter.passes(picks[x]),
    ensures
        0 <= k < passing(picks, filter, i).len(),
        passing(picks, filter, i)[k] == x,
    decreases i,
{
    if x == i - 1 {
        passing(picks, filter, i - 1).len() as int
    } else {
        lemma_passing_has(picks, filter, i - 1, x)
    }
}

proof fn lemma_sort_is_preorder(
    ids: Seq<usize>,
    sort: SortKey,
    names: Seq<String>,
    keys: Seq<Option<String>>,
)
    ensures
        order::is_preorder(
            ids.len() as int,
            |a: int, b: int| sorted_by(sort, names, keys, ids[a] as int, ids[b] as int),
        ),
{
    let le = |a: int, b: int| sorted_by(sort, names, keys, ids[a] as int, ids[b] as int);
    let n = ids.len() as int;
    assert forall|a: int, b: int| 0 <= a < n && 0 <= b < n implies #[trigger] le(a, b) || le(
        b,
        a,
    ) by {
        let (x, y) = (ids[a] as int, ids[b] as int);
        text::lemma_text_le(names[x]@, names[y]@, names[x]@);
        if keys[x] is Some && keys[y] is Some {
            text::lemma_text_le(keys[x]->0@, keys[y]->0@, keys[x]->0@);
        }
    }
    assert forall|a: int, b: int, c: int|
        0 <= a < n && 0 <= b < n && 0 <= c < n && #[trigger] le(a, b) && #[trigger] le(
            b,
            c,
        ) implies le(a, c) by {
        let (x, y, z) = (ids[a] as int, ids[b] as int, ids[c] as int);
        text::lemma_text_le(names[x]@, names[y]@, names[z]@);
        if keys[x] is Some && keys[y] is Some && keys[z] is Some {
            text::lemma_text_le(keys[x]->0@, keys[y]->0@, keys[z]->0@);
            text::lemma_text_le(keys[y]->0@, keys[x]->0@, keys[z]->0@);
        }
    }
}

fn name_order(ids: &Vec<usize>, names: &[String], Ghost(keys): Ghost<Seq<Option<String>>>) -> (p:
    Vec<usize>)
    requires
        forall|i: int| 0 <= i < ids@.len() ==> #[trigger] ids@[i] < names@.len(),
    ensures
        order::arranges(p@, 0, ids@.len() as int),
        Seq::new(ids@.len(), |i: int| ids@[p@[i] as int]) == arranged(
            ids@,
            SortKey::Filename,
            names@,
            keys,
        ),
{
    let ghost le = |a: int, b: int|
        sorted_by(SortKey::Filename, names@, keys, ids@[a] as int, ids@[b] as int);
    proof {
        lemma_sort_is_preorder(ids@, SortKey::Filename, names@, keys);
    }
    let not_after = |a: usize, b: usize| -> (r: bool)
        requires
            a < ids@.len() && b < ids@.len(),
            ids@[a as int] < names@.len(),
            ids@[b as int] < names@.len(),
        ensures
            r == by_name(names@, ids@[a as int] as int, ids@[b as int] as int),
        { text::not_after(names[ids[a]].as_str(), names[ids[b]].as_str()) };
    order::stable_order(ids.len(), &not_after, Ghost(le))
}

fn capture_order(ids: &Vec<usize>, names: &[String], keys: &[Option<String>]) -> (p: Vec<usize>)
    requires
        forall|i: int| 0 <= i < ids@.len() ==> #[trigger] ids@[i] < names@.len(),
        forall|i: int| 0 <= i < ids@.len() ==> #[trigger] ids@[i] < keys@.len(),
    ensures
        order::arranges(p@, 0, ids@.len() as int),
        Seq::new(ids@.len(), |i: int| ids@[p@[i] as int]) == arranged(
            ids@,
            SortKey::CaptureTime,
            names@,
            keys@,
        ),
{
    let ghost le = |a: int, b: int|
        sorted_by(SortKey::CaptureTime, names@, keys@, ids@[a] as int, ids@[b] as int);
    proof {
        lemma_sort_is_preorder(ids@, SortKey::CaptureTime, names@, keys@);
    }
    let not_after = |a: usize, b: usize| -> (r: bool)
        requires
            a < ids@.len() && b < ids@.len(),
            ids@[a as int] < names@.len(),
            ids@[b as int] < names@.len(),
            ids@[a as int] < keys@.len(),
            ids@[b as int] < keys@.len(),
        ensures
            r == by_capture(names@, keys@, ids@[a as int] as int, ids@[b as int] as int),
        {
            let x: usize = ids[a];
            let y: usize = ids[b];
            match (&keys[x], &keys[y]) {
                (Some(k), Some(l)) => {
                    if text::same(k.as_str(), l.as_str()) {
                        proof {
                            text::lemma_text_le(k@, l@, k@);
                        }
                        text::not_after(names[x].as_str(), names[y].as_str())
                    } else {
                        text::not_after(k.as_str(), l.as_str())
                    }
                },
                (Some(_), None) => true,
                (None, Some(_)) => false,
                (None, None) => text::not_after(names[x].as_str(), names[y].as_str()),
            }
        };
    order::stable_order(ids.len(), &not_after, Ghost(le))
}

/// Compute the display view: image indexes passing `filter`, ordered by
/// `sort`/`ascending`. `capture_keys[i]` is the image's sort key (None until
/// metadata loads or when absent); `names[i]` breaks ties and orders keyless
/// images.
///
/// `metadata_complete` says whether every image's metadata job has finished.
/// **While it is false the view is ordered by FILENAME regardless of
/// `query.sort`**: the capture sort puts keyed images before still-keyless
/// ones, so applying it mid-load makes the order churn on every arrival.
pub fn view(
    picks: &[PickState],
    names: &[String],
    capture_keys: &[Option<String>],
    query: &ViewQuery,
    metadata_complete: bool,
) -> (v: Vec<usize>)
    requires
        picks@.len() <= names@.len(),
        sort_in_force(*query, metadata_complete) == SortKey::CaptureTime ==> picks@.len()
            <= capture_keys@.len(),
    ensures
        v@ == view_of(picks@, names@, capture_keys@, *query, metadata_complete),
{
    let n: usize = picks.len();
    let mut ids: Vec<usize> = Vec::new();
    let mut i: usize = 0;
    while i < picks.len()
        invariant
            i <= picks@.len(),
            ids@ == passing(picks@, query.filter, i as int),
        decreases picks@.len() - i,
    {
        if query.filter.matches(picks[i]) {
            ids.push(i);
        }
        i = i + 1;
    }
    proof {
        lemma_passing(picks@, query.filter, n as int);
        assert(picks@.len() == n);
    }
    // Provisional order while the metadata is still streaming.
    let sort = if metadata_complete {
        query.sort
    } else {
        SortKey::Filename
    };
    let p = match sort {
        SortKey::Filename => name_order(&ids, names, Ghost(capture_keys@)),
        SortKey::CaptureTime => capture_order(&ids, names, capture_keys),
    };
    let ghost ordered = arranged(ids@, sort, names@, capture_keys@);
    let m: usize = p.len();
    let mut v: Vec<usize> = Vec::new();
    let mut k: usize = 0;
    while k < m
        invariant
            k <= m,
            m == p@.len(),
            p@.len() == ids@.len(),
            order::arranges(p@, 0, ids@.len() as int),
            v@.len() == k,
            query.ascending ==> forall|j: int|
                0 <= j < k ==> #[trigger] v@[j] == ids@[p@[j] as int],
            !query.ascending ==> forall|j: int|
                0 <= j < k ==> #[trigger] v@[j] == ids@[p@[m - 1 - j] as int],
        decreases m - k,
    {
        let at: usize = if query.ascending {
            k
        } else {
            m - 1 - k
        };
        assert(0 <= p@[at as int] < ids@.len());
        v.push(ids[p[at]]);
        k = k + 1;
    }
    proof {
        assert(ordered.len() == m);
        assert forall|j: int| 0 <= j < m implies #[trigger] ordered[j] == ids@[p@[j] as int] by {
            assert(Seq::new(ids@.len(), |i: int| ids@[p@[i] as int])[j] == ids@[p@[j] as int]);
        }
        if query.ascending {
            assert(v@ =~= ordered);
        } else {
            assert(v@ =~= ordered.reverse());
        }
    }
    v
}

/// The view in the user's TRUE sort, never the provisional filename order —
/// for the two consumers that must not see it: burst grouping, because a
/// burst is a fact about capture times, and Copy Picks, because `{seq}` is
/// baked into permanent filenames.
pub fn view_true_sort(
    picks: &[PickState],
    names: &[String],
    capture_keys: &[Option<String>],
    query: &ViewQuery,
) -> (v: Vec<usize>)
    requires
        picks@.len() <= names@.len(),
        query.sort == SortKey::CaptureTime ==> picks@.len() <= capture_keys@.len(),
    ensures
        v@ == view_of(picks@, names@, capture_keys@, *query, true),
{
    view(picks, names, capture_keys, query, true)
}

// -------------------------------------------------------------- the cursor
/// The image at a position, or at the last one where the view is shorter.
pub open spec fn slid_in(view: Seq<usize>, pos: int) -> Option<usize> {
    if view.len() == 0 {
        None
    } else if pos < view.len() {
        Some(view[pos])
    } else {
        Some(view.last())
    }
}

/// Cursor rule for LIVE removal: after the image at `old_pos` left the view,
/// the cursor goes to the image now at the same position (the "next" one
/// slid in), else the previous, else none. Returns the new cursor IMAGE ID.
pub fn cursor_after_removal(new_view: &[usize], old_pos: usize) -> (r: Option<usize>)
    ensures
        r == slid_in(new_view@, old_pos as int),
{
    let n: usize = new_view.len();
    if n == 0 {
        return None;
    }
    if old_pos < n {
        Some(new_view[old_pos])
    } else {
        Some(new_view[n - 1])
    }
}

/// The first position of an image in a view, or the view's length.
pub open spec fn position_of(view: Seq<usize>, id: usize) -> int
    decreases view.len(),
{
    if view.len() == 0 {
        0
    } else if view[0] == id {
        0
    } else {
        1 + position_of(view.drop_first(), id)
    }
}

proof fn lemma_position(view: Seq<usize>, id: usize, k: int)
    requires
        0 <= k <= view.len(),
        forall|i: int| 0 <= i < k ==> #[trigger] view[i] != id,
        k < view.len() ==> view[k] == id,
    ensures
        position_of(view, id) == k,
    decreases k,
{
    if k > 0 {
        let rest = view.drop_first();
        assert(view[0] != id);
        assert forall|i: int| 0 <= i < k - 1 implies #[trigger] rest[i] != id by {
            assert(rest[i] == view[i + 1]);
        }
        lemma_position(rest, id, k - 1);
    }
}

proof fn lemma_position_is(view: Seq<usize>, id: usize)
    ensures
        0 <= position_of(view, id) <= view.len(),
        position_of(view, id) < view.len() ==> view[position_of(view, id)] == id,
        (position_of(view, id) < view.len()) == view.contains(id),
    decreases view.len(),
{
    if view.len() > 0 && view[0] != id {
        let rest = view.drop_first();
        lemma_position_is(rest, id);
        if view.contains(id) {
            let i = choose|i: int| 0 <= i < view.len() && view[i] == id;
            assert(rest[i - 1] == id);
        }
        if rest.contains(id) {
            let i = choose|i: int| 0 <= i < rest.len() && rest[i] == id;
            assert(view[i + 1] == id);
        }
    }
}

fn position(view: &[usize], id: usize) -> (k: usize)
    ensures
        k == position_of(view@, id),
        k <= view@.len(),
        k < view@.len() ==> view@[k as int] == id,
        (k < view@.len()) == view@.contains(id),
{
    let mut k: usize = 0;
    while k < view.len() && view[k] != id
        invariant
            k <= view@.len(),
            forall|i: int| 0 <= i < k ==> #[trigger] view@[i] != id,
        decreases view@.len() - k,
    {
        k = k + 1;
    }
    proof {
        lemma_position(view@, id, k as int);
        lemma_position_is(view@, id);
    }
    k
}

/// The cursor after a mark.
pub open spec fn after_mark(
    marked: usize,
    old_pos: int,
    view: Seq<usize>,
    auto_advance: bool,
) -> Option<usize> {
    let pos = position_of(view, marked);
    if pos >= view.len() {
        // Image left the view: the slide-in IS the advance.
        slid_in(view, old_pos)
    } else if auto_advance {
        slid_in(view, pos + 1)
    } else {
        Some(view[pos])
    }
}

/// Cursor rule after MARKING the cursor image: net movement is exactly one
/// image, always. If the mark removed the image from the filtered view, the
/// removal rule IS the advance; auto-advance applies only when the image
/// stays in view. `old_pos` is the cursor's position in the pre-mark view.
pub fn cursor_after_mark(
    marked_id: usize,
    old_pos: usize,
    new_view: &[usize],
    auto_advance: bool,
) -> (r: Option<usize>)
    ensures
        r == after_mark(marked_id, old_pos as int, new_view@, auto_advance),
{
    let n: usize = new_view.len();
    let pos: usize = position(new_view, marked_id);
    if pos >= n {
        cursor_after_removal(new_view, old_pos)
    } else if auto_advance {
        // Advance one, clamped at the end.
        if pos + 1 < n {
            Some(new_view[pos + 1])
        } else {
            Some(new_view[n - 1])
        }
    } else {
        Some(new_view[pos])
    }
}

/// The first image of a view.
pub open spec fn head(view: Seq<usize>) -> Option<usize> {
    if view.len() == 0 {
        None
    } else {
        Some(view[0])
    }
}

/// The nearest image of the old view that is in the new one, from `dist`
/// positions away on: at each distance first the one before, then the one
/// behind.
pub open spec fn nearest(old: Seq<usize>, pos: int, new: Seq<usize>, dist: int) -> Option<usize>
    decreases old.len() + 1 - dist,
{
    if dist > old.len() {
        None
    } else if 0 <= pos - dist < old.len() && new.contains(old[pos - dist]) {
        Some(old[pos - dist])
    } else if 0 <= pos + dist < old.len() && new.contains(old[pos + dist]) {
        Some(old[pos + dist])
    } else {
        nearest(old, pos, new, dist + 1)
    }
}

/// The cursor after a change of the filter.
pub open spec fn after_filter_change(
    old: Seq<usize>,
    cursor: Option<usize>,
    new: Seq<usize>,
) -> Option<usize> {
    match cursor {
        None => head(new),
        Some(id) => {
            let pos = position_of(old, id);
            if new.contains(id) {
                Some(id)
            } else if pos < old.len() && nearest(old, pos, new, 1) is Some {
                nearest(old, pos, new, 1)
            } else {
                head(new)
            }
        },
    }
}

fn first(view: &[usize]) -> (r: Option<usize>)
    ensures
        r == head(view@),
{
    if view.len() == 0 {
        None
    } else {
        Some(view[0])
    }
}

fn contains(view: &[usize], id: usize) -> (r: bool)
    ensures
        r == view@.contains(id),
{
    position(view, id) < view.len()
}

/// Cursor rule for a FILTER change: keep the cursor image if it survived;
/// else the nearest survivor from the old view (scanning outward from the
/// old position); else the first image of the new view.
pub fn cursor_after_filter_change(
    old_view: &[usize],
    old_cursor: Option<usize>,
    new_view: &[usize],
) -> (r: Option<usize>)
    ensures
        r == after_filter_change(old_view@, old_cursor, new_view@),
{
    let id: usize = match old_cursor {
        Some(id) => id,
        None => {
            return first(new_view);
        },
    };
    if contains(new_view, id) {
        return Some(id);
    }
    let pos: usize = position(old_view, id);
    let n: usize = old_view.len();
    if pos < n {
        let mut dist: usize = 1;
        while dist <= n
            invariant
                1 <= dist,
                pos < n,
                n == old_view@.len(),
                old_cursor == Some(id),
                pos == position_of(old_view@, id),
                !new_view@.contains(id),
                nearest(old_view@, pos as int, new_view@, 1) == nearest(
                    old_view@,
                    pos as int,
                    new_view@,
                    dist as int,
                ),
            decreases n - dist,
        {
            if dist <= pos && contains(new_view, old_view[pos - dist]) {
                return Some(old_view[pos - dist]);
            }
            if dist < n - pos && contains(new_view, old_view[pos + dist]) {
                return Some(old_view[pos + dist]);
            }
            if dist == n {
                assert(nearest(old_view@, pos as int, new_view@, dist + 1) is None);
                return first(new_view);
            }
            dist = dist + 1;
        }
    }
    first(new_view)
}

/// The cursor after any recompute of the view.
pub open spec fn after_recompute(
    old: Seq<usize>,
    cursor: Option<usize>,
    new: Seq<usize>,
    touched: bool,
    complete: bool,
    user_changed_query: bool,
) -> Option<usize> {
    if !touched && (user_changed_query || !complete) {
        head(new)
    } else {
        after_filter_change(old, cursor, new)
    }
}

/// Cursor after ANY view recompute.
///
/// Before the user's first interaction the cursor is "the first image of the
/// view", not a pinned id — so a filter change, a sort change or streaming
/// membership updates snap it to the new head. **Once the folder has
/// finished loading, ENGINE events stop moving it**: the discriminator is
/// "did the USER ask for a different view?".
pub fn cursor_after_recompute(
    old_view: &[usize],
    old_cursor: Option<usize>,
    new_view: &[usize],
    cursor_touched: bool,
    metadata_complete: bool,
    user_changed_query: bool,
) -> (r: Option<usize>)
    ensures
        r == after_recompute(
            old_view@,
            old_cursor,
            new_view@,
            cursor_touched,
            metadata_complete,
            user_changed_query,
        ),
{
    let follow_head: bool = !cursor_touched && (user_changed_query || !metadata_complete);
    if follow_head {
        return first(new_view);
    }
    cursor_after_filter_change(old_view, old_cursor, new_view)
}

// ---------------------------------------------------------------- the laws
/// The verdicts partition the session: the three counts add up to the whole.
pub proof fn lemma_counts_add_up(picks: Seq<PickState>)
    ensures
        count(picks, PickFilter::Picked) + count(picks, PickFilter::Rejected) + count(
            picks,
            PickFilter::Unmarked,
        ) == picks.len(),
        count(picks, PickFilter::All) == picks.len(),
{
    lemma_counts_upto(picks, picks.len() as int);
}

proof fn lemma_counts_upto(picks: Seq<PickState>, i: int)
    requires
        0 <= i,
    ensures
        passing(picks, PickFilter::Picked, i).len() + passing(picks, PickFilter::Rejected, i).len()
            + passing(picks, PickFilter::Unmarked, i).len() == i,
        passing(picks, PickFilter::All, i).len() == i,
    decreases i,
{
    if i > 0 {
        lemma_counts_upto(picks, i - 1);
    }
}

/// A view shows exactly the images that pass its filter, each of them once,
/// whatever the sort, the direction, and the state of the load.
pub proof fn lemma_view_members(
    picks: Seq<PickState>,
    names: Seq<String>,
    keys: Seq<Option<String>>,
    query: ViewQuery,
    complete: bool,
    id: usize,
)
    requires
        picks.len() <= usize::MAX,
    ensures
        view_of(picks, names, keys, query, complete).contains(id) <==> (id < picks.len()
            && query.filter.passes(picks[id as int])),
        view_of(picks, names, keys, query, complete).no_duplicates(),
        view_of(picks, names, keys, query, complete).len() == count(picks, query.filter),
{
    let n = picks.len() as int;
    let ids = passing(picks, query.filter, n);
    let sort = sort_in_force(query, complete);
    let le = |a: int, b: int| sorted_by(sort, names, keys, ids[a] as int, ids[b] as int);
    lemma_passing(picks, query.filter, n);
    lemma_sort_is_preorder(ids, sort, names, keys);
    order::lemma_has_stable_order(ids.len() as int, le);
    let p = order::stable_order_of(ids.len() as int, le);
    let ordered = arranged(ids, sort, names, keys);
    let v = view_of(picks, names, keys, query, complete);
    assert forall|i: int, j: int| 0 <= i < v.len() && 0 <= j < v.len() && i != j implies v[i]
        != v[j] by {
        let a = if query.ascending {
            i
        } else {
            ids.len() - 1 - i
        };
        let b = if query.ascending {
            j
        } else {
            ids.len() - 1 - j
        };
        assert(v[i] == ids[p[a] as int] && v[j] == ids[p[b] as int]);
        assert(p[a] != p[b]);
        assert(0 <= p[a] < ids.len() && 0 <= p[b] < ids.len());
        if p[a] < p[b] {
            assert(ids[p[a] as int] < ids[p[b] as int]);
        } else {
            assert(ids[p[b] as int] < ids[p[a] as int]);
        }
    }
    if v.contains(id) {
        let i = choose|i: int| 0 <= i < v.len() && v[i] == id;
        let a = if query.ascending {
            i
        } else {
            ids.len() - 1 - i
        };
        assert(0 <= p[a] < ids.len());
        assert(v[i] == ids[p[a] as int]);
    }
    if id < picks.len() && query.filter.passes(picks[id as int]) {
        let k = lemma_passing_has(picks, query.filter, n, id as int);
        order::lemma_arranges_all(p, 0, ids.len() as int, k);
        let a = choose|a: int| 0 <= a < p.len() && p[a] == k;
        let i = if query.ascending {
            a
        } else {
            ids.len() - 1 - a
        };
        assert(v[i] == ids[p[a] as int]);
    }
}

/// Descending is the exact reverse of ascending, ties too.
pub proof fn lemma_descending_is_the_reverse(
    picks: Seq<PickState>,
    names: Seq<String>,
    keys: Seq<Option<String>>,
    query: ViewQuery,
    complete: bool,
)
    ensures
        view_of(
            picks,
            names,
            keys,
            ViewQuery { ascending: !query.ascending, ..query },
            complete,
        ) == view_of(picks, names, keys, query, complete).reverse(),
{
    let ids = passing(picks, query.filter, picks.len() as int);
    let ordered = arranged(ids, sort_in_force(query, complete), names, keys);
    assert(ordered.reverse().reverse() =~= ordered);
}

/// A view is in the order of the sort in force: of two images it shows, the
/// one that stands first does not sort after the other (ascending), and
/// equal ones stand in session order.
pub proof fn lemma_view_is_sorted(
    picks: Seq<PickState>,
    names: Seq<String>,
    keys: Seq<Option<String>>,
    query: ViewQuery,
    complete: bool,
    i: int,
    j: int,
)
    requires
        picks.len() <= usize::MAX,
        query.ascending,
        0 <= i < j < view_of(picks, names, keys, query, complete).len(),
    ensures
        ({
            let v = view_of(picks, names, keys, query, complete);
            let sort = sort_in_force(query, complete);
            &&& sorted_by(sort, names, keys, v[i] as int, v[j] as int)
            &&& sorted_by(sort, names, keys, v[j] as int, v[i] as int) ==> v[i] < v[j]
        }),
{
    let n = picks.len() as int;
    let ids = passing(picks, query.filter, n);
    let sort = sort_in_force(query, complete);
    let le = |a: int, b: int| sorted_by(sort, names, keys, ids[a] as int, ids[b] as int);
    lemma_passing(picks, query.filter, n);
    lemma_sort_is_preorder(ids, sort, names, keys);
    order::lemma_has_stable_order(ids.len() as int, le);
    let p = order::stable_order_of(ids.len() as int, le);
    assert(order::before(le, p[i] as int, p[j] as int));
    assert(0 <= p[i] < ids.len() && 0 <= p[j] < ids.len());
    if p[i] < p[j] {
        assert(ids[p[i] as int] < ids[p[j] as int]);
    }
}

/// While metadata streams, the view does not move: it is the same whatever
/// keys have arrived and whichever sort was asked for — the filename order.
pub proof fn lemma_provisional_order_is_stable(
    picks: Seq<PickState>,
    names: Seq<String>,
    keys: Seq<Option<String>>,
    later: Seq<Option<String>>,
    query: ViewQuery,
)
    ensures
        view_of(picks, names, keys, query, false) == view_of(picks, names, later, query, false),
        view_of(picks, names, keys, query, false) == view_of(
            picks,
            names,
            keys,
            ViewQuery { sort: SortKey::Filename, ..query },
            true,
        ),
{
    let ids = passing(picks, query.filter, picks.len() as int);
    let a = |a: int, b: int|
        sorted_by(SortKey::Filename, names, keys, ids[a] as int, ids[b] as int);
    let b = |a: int, b: int|
        sorted_by(SortKey::Filename, names, later, ids[a] as int, ids[b] as int);
    assert(a =~= b);
}

/// The cursor is never a dangling id: where the old cursor was in its view,
/// the new one is in the new view, and there is none only where the view is
/// empty.
pub proof fn lemma_cursor_is_in_the_view(
    old: Seq<usize>,
    cursor: Option<usize>,
    new: Seq<usize>,
    touched: bool,
    complete: bool,
    user_changed_query: bool,
)
    ensures
        match after_recompute(old, cursor, new, touched, complete, user_changed_query) {
            Some(id) => new.contains(id),
            None => new.len() == 0,
        },
{
    if cursor is Some {
        let pos = position_of(old, cursor->0);
        lemma_nearest_survives(old, pos, new, 1);
    }
    if new.len() > 0 {
        assert(new.contains(new[0]));
    }
}

proof fn lemma_nearest_survives(old: Seq<usize>, pos: int, new: Seq<usize>, dist: int)
    ensures
        nearest(old, pos, new, dist) is Some ==> new.contains(nearest(old, pos, new, dist)->0),
    decreases old.len() + 1 - dist,
{
    if dist <= old.len() {
        lemma_nearest_survives(old, pos, new, dist + 1);
    }
}

/// An engine event on a loaded folder never moves the photograph: a cursor
/// whose image survives is kept, touched or not.
pub proof fn lemma_engine_events_keep_the_photograph(
    old: Seq<usize>,
    id: usize,
    new: Seq<usize>,
    touched: bool,
)
    requires
        new.contains(id),
    ensures
        after_recompute(old, Some(id), new, touched, true, false) == Some(id),
{
}

/// The fallback is the nearest survivor: nothing of the old view that is
/// still shown stands closer to where the cursor was.
pub proof fn lemma_nearest_is_nearest(
    old: Seq<usize>,
    id: usize,
    new: Seq<usize>,
    r: int,
)
    requires
        position_of(old, id) < old.len(),
        !new.contains(id),
        0 <= r < old.len(),
        new.contains(old[r]),
    ensures
        exists|q: int|
            #![trigger old[q]]
            0 <= q < old.len() && after_filter_change(old, Some(id), new) == Some(old[q]) && {
                let pos = position_of(old, id);
                let (far, near) = (
                    if r < pos {
                        pos - r
                    } else {
                        r - pos
                    },
                    if q < pos {
                        pos - q
                    } else {
                        q - pos
                    },
                );
                near <= far
            },
{
    lemma_position_is(old, id);
    let pos = position_of(old, id);
    let far = if r < pos {
        pos - r
    } else {
        r - pos
    };
    assert(far > 0);
    let q = lemma_nearest_within(old, pos, new, 1, r);
    assert(nearest(old, pos, new, 1) == Some(old[q]));
}

proof fn lemma_nearest_within(
    old: Seq<usize>,
    pos: int,
    new: Seq<usize>,
    dist: int,
    r: int,
) -> (q: int)
    requires
        0 <= pos < old.len(),
        0 <= r < old.len(),
        new.contains(old[r]),
        1 <= dist,
        r <= pos - dist || r >= pos + dist,
    ensures
        0 <= q < old.len(),
        nearest(old, pos, new, dist) == Some(old[q]),
        ({
            let far = if r < pos {
                pos - r
            } else {
                r - pos
            };
            let near = if q < pos {
                pos - q
            } else {
                q - pos
            };
            near <= far
        }),
    decreases old.len() + 1 - dist,
{
    if 0 <= pos - dist < old.len() && new.contains(old[pos - dist]) {
        pos - dist
    } else if 0 <= pos + dist < old.len() && new.contains(old[pos + dist]) {
        pos + dist
    } else {
        lemma_nearest_within(old, pos, new, dist + 1, r)
    }
}

/// Marking moves the cursor exactly one image. Where the marked image stays
/// in the view, that is to the one behind it (or nowhere, at the end); where
/// it leaves, to the one that was behind it and slides in (or to the one
/// before it, at the end).
pub proof fn lemma_mark_moves_one_image(view: Seq<usize>, pos: int)
    requires
        view.no_duplicates(),
        0 <= pos < view.len(),
    ensures
        after_mark(view[pos], pos, view, true) == Some(
            if pos + 1 < view.len() {
                view[pos + 1]
            } else {
                view[pos]
            },
        ),
        after_mark(view[pos], pos, view.remove(pos), true) == if pos + 1 < view.len() {
            Some(view[pos + 1])
        } else if pos > 0 {
            Some(view[pos - 1])
        } else {
            None
        },
        after_mark(view[pos], pos, view, false) == Some(view[pos]),
{
    lemma_position(view, view[pos], pos);
    let rest = view.remove(pos);
    assert forall|i: int| 0 <= i < rest.len() implies #[trigger] rest[i] != view[pos] by {
        if i < pos {
            assert(rest[i] == view[i]);
        } else {
            assert(rest[i] == view[i + 1]);
        }
    }
    lemma_position(rest, view[pos], rest.len() as int);
}

} // verus!
