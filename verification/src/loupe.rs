//! Loupe asset engine: which full-resolution embedded-JPEG decodes the
//! 1-column view and the 1:1 zoom ask for, in which order, and what is kept.
//!
//! Asset ladder: each image climbs mid-preview (1616×1080) → full-res
//! (8640×5760), and a rung is only cooked when the display exceeds the
//! current asset by more than a quarter.
//!
//! [`LoupeState::focus`] schedules the focused image at top priority and
//! prefetches its neighbors in VIEW order, the order arrows actually travel
//! ([`LoupeState::set_view`]). A byte-budget LRU evicts the least recently
//! focused images, never the focused one.
//!
//! Times are nanoseconds on a clock that never goes back.
pub mod laws;
pub mod rules;

use crate::jpeg;
use crate::orient;
use crate::rounding;
use crate::text;
use std::collections::HashMap;
use std::collections::HashSet;
use std::sync::Arc;
use vstd::prelude::*;
use vstd::std_specs::hash::*;
use vstd::std_specs::iter::IteratorSpec;
use vstd::string::*;

verus! {

broadcast use group_hash_axioms;

/// Neighbors prefetched on each side of the focused image.
pub const PREFETCH: usize = 2;

/// Default decoded-pixels budget (bytes of RGB kept in the LRU).
pub const DEFAULT_BUDGET_BYTES: usize = 0x8000_0000;

/// Room for at least one full-resolution frame: no budget is below it.
pub const MIN_BUDGET_BYTES: usize = 209_715_200;

/// Assets at or below this long edge are "mid rung" class (grid-cell size).
pub const MID_RUNG_MAX_LONG: u32 = 2048;

/// Downscale target when adopting a full-res image for a grid cell.
pub const MID_RUNG_TARGET: u32 = 1616;

/// A fresh focus must HOLD this long before the reserved worker commits to
/// it: 250 ms.
pub const FOCUS_DEBOUNCE: u64 = 250_000_000;

/// Two successive frame changes at most this far apart are a HELD key, not
/// deliberate taps: 250 ms.
pub const TRANSIT_GAP: u64 = 250_000_000;

/// Quiet for this long after the last frame change means the user has
/// STOPPED, and quality becomes the goal again: 150 ms.
pub const SETTLE_DEBOUNCE: u64 = 150_000_000;

/// Transit prefetch is DIRECTIONAL: the ring leans the way the user travels
/// and flips when they reverse.
pub const TRANSIT_AHEAD: usize = 8;

pub const TRANSIT_BEHIND: usize = 2;

/// Is this decoded asset the file's TOP rung — the one the sharp 1:1 view
/// may use and the one the zoom ceiling is read from?
///
/// Two ways to qualify: a `long_edge` above [`MID_RUNG_MAX_LONG`] — a real
/// full-res decode; or `terminal` — the file has nothing better to give, so
/// its native size IS the ceiling however small it is.
pub fn is_top_rung(long_edge: u32, terminal: bool) -> (r: bool)
    ensures
        r == (long_edge > 2048 || terminal),
{
    long_edge > MID_RUNG_MAX_LONG || terminal
}

/// A decoded full-resolution image, shared with the UI without copying.
#[derive(Debug, Clone)]
pub struct FullImage {
    pub rgb: Arc<Vec<u8>>,
    pub width: u32,
    pub height: u32,
}

impl FullImage {
    /// The longer of the two sides.
    pub open spec fn long(self) -> u32 {
        if self.width >= self.height {
            self.width
        } else {
            self.height
        }
    }

    /// How many bytes of pixels it holds.
    pub open spec fn bytes(self) -> int {
        self.rgb@.len() as int
    }

    pub fn long_edge(&self) -> (n: u32)
        ensures
            n == self.long(),
    {
        if self.width >= self.height {
            self.width
        } else {
            self.height
        }
    }
}

#[derive(Debug, Clone)]
pub enum LoupeEvent {
    Ready {
        index: usize,
        image: FullImage,
        /// True when this is the file's BEST possible rung (its native
        /// resolution): the application learns the zoom ceiling from it.
        terminal: bool,
    },
    Failed { index: usize, reason: String },
}

/// One pending decode: the image, the display's long edge, and whether the
/// focus (or its ring) asked for it, which survives a cull of grid wants.
pub type Pending = (usize, u32, bool);

/// What the engine knows, between two events.
pub struct LoupeState {
    /// Most urgent last (workers pop from the back); one entry per index —
    /// the LATEST target wins.
    pub queue: Vec<Pending>,
    /// Best rung a file can ever provide (long edge), learned when its
    /// ladder tops out: an asset at this size is sufficient for ANY display.
    pub best_long: HashMap<usize, u32>,
    pub in_flight: Vec<usize>,
    /// Upgrade targets requested while the index was in flight at a smaller
    /// target: re-queued when the flight lands.
    pub deferred: HashMap<usize, u32>,
    /// LRU cache: index -> (image, last-focus stamp).
    pub cache: HashMap<usize, (FullImage, u64)>,
    pub cached_bytes: usize,
    /// Indexes that failed to decode: never re-queued.
    pub failed: HashSet<usize>,
    /// The image the user is looking at: never evicted, even over-budget.
    pub focused: Option<usize>,
    /// When the focus last became NEW WORK: reset when the focused index
    /// changes AND when the focused index's target escalates.
    pub focused_at: Option<u64>,
    /// The display target of the last focus for `focused`.
    pub focused_target: u32,
    /// When the focused INDEX last changed.
    pub last_index_change: Option<u64>,
    /// Direction of travel, latched at the last real index CHANGE.
    pub travel_forward: bool,
    /// The last index change followed the previous one closely enough to be
    /// a held key rather than a deliberate tap.
    pub moving: bool,
    /// What the application asked for, before transit capping.
    pub desired_long: u32,
    /// The VIEW order: `view_ids[pos]` = image id, `view_pos[id]` = position
    /// (`usize::MAX` = filtered out). Empty = identity (id order).
    pub view_ids: Vec<usize>,
    pub view_pos: Vec<usize>,
}

/// The model of a [`LoupeState`].
#[verifier::ext_equal]
pub ghost struct LoupeView {
    pub queue: Seq<Pending>,
    pub best_long: Map<usize, u32>,
    pub in_flight: Seq<usize>,
    pub deferred: Map<usize, u32>,
    pub cache: Map<usize, (FullImage, u64)>,
    pub cached_bytes: int,
    pub failed: Set<usize>,
    pub focused: Option<usize>,
    pub focused_at: Option<u64>,
    pub focused_target: u32,
    pub last_index_change: Option<u64>,
    pub travel_forward: bool,
    pub moving: bool,
    pub desired_long: u32,
    pub view_ids: Seq<usize>,
    pub view_pos: Seq<usize>,
}

impl View for LoupeState {
    type V = LoupeView;

    open spec fn view(&self) -> LoupeView {
        LoupeView {
            queue: self.queue@,
            best_long: self.best_long@,
            in_flight: self.in_flight@,
            deferred: self.deferred@,
            cache: self.cache@,
            cached_bytes: self.cached_bytes as int,
            failed: self.failed@,
            focused: self.focused,
            focused_at: self.focused_at,
            focused_target: self.focused_target,
            last_index_change: self.last_index_change,
            travel_forward: self.travel_forward,
            moving: self.moving,
            desired_long: self.desired_long,
            view_ids: self.view_ids@,
            view_pos: self.view_pos@,
        }
    }
}

impl Default for LoupeState {
    fn default() -> (s: LoupeState)
        ensures
            s@ == (LoupeView {
                queue: Seq::empty(),
                best_long: Map::empty(),
                in_flight: Seq::empty(),
                deferred: Map::empty(),
                cache: Map::empty(),
                cached_bytes: 0,
                failed: Set::empty(),
                focused: None,
                focused_at: None,
                focused_target: 0,
                last_index_change: None,
                travel_forward: false,
                moving: false,
                desired_long: 0,
                view_ids: Seq::empty(),
                view_pos: Seq::empty(),
            }),
    {
        LoupeState {
            queue: Vec::new(),
            best_long: HashMap::new(),
            in_flight: Vec::new(),
            deferred: HashMap::new(),
            cache: HashMap::new(),
            cached_bytes: 0,
            failed: HashSet::new(),
            focused: None,
            focused_at: None,
            focused_target: 0,
            last_index_change: None,
            travel_forward: false,
            moving: false,
            desired_long: 0,
            view_ids: Vec::new(),
            view_pos: Vec::new(),
        }
    }
}

// ---------------------------------------------------------------- the view
impl LoupeView {
    /// View position of an image id (identity when no view is set).
    pub open spec fn position(self, id: usize) -> Option<usize> {
        if self.view_ids.len() == 0 {
            Some(id)
        } else if id < self.view_pos.len() && self.view_pos[id as int] != usize::MAX {
            Some(self.view_pos[id as int])
        } else {
            None
        }
    }

    /// Image id at a view position (identity when no view is set).
    pub open spec fn at(self, pos: int) -> Option<usize> {
        if self.view_ids.len() == 0 {
            Some(pos as usize)
        } else if 0 <= pos < self.view_ids.len() {
            Some(self.view_ids[pos])
        } else {
            None
        }
    }

    /// Length of the space the ring is clamped to.
    pub open spec fn ring_length(self, count: int) -> int {
        if self.view_ids.len() == 0 {
            count
        } else {
            self.view_ids.len() as int
        }
    }
}

impl LoupeState {
    /// View position of an image id (identity when no view is set).
    pub fn pos_of(&self, id: usize) -> (r: Option<usize>)
        ensures
            r == self@.position(id),
    {
        if self.view_ids.len() == 0 {
            return Some(id);
        }
        if id < self.view_pos.len() && self.view_pos[id] != usize::MAX {
            Some(self.view_pos[id])
        } else {
            None
        }
    }

    /// Image id at a view position (identity when no view is set).
    pub fn id_at(&self, pos: usize) -> (r: Option<usize>)
        ensures
            r == self@.at(pos as int),
    {
        if self.view_ids.len() == 0 {
            Some(pos)
        } else if pos < self.view_ids.len() {
            Some(self.view_ids[pos])
        } else {
            None
        }
    }

    /// Length of the space the ring is clamped to: the view when set, else
    /// the whole folder.
    pub fn ring_len(&self, count: usize) -> (n: usize)
        ensures
            n == self@.ring_length(count as int),
    {
        if self.view_ids.len() == 0 {
            count
        } else {
            self.view_ids.len()
        }
    }
}

/// The last position of an id in an order, or `usize::MAX`.
pub open spec fn placed(order: Seq<usize>, id: usize) -> usize
    decreases order.len(),
{
    if order.len() == 0 {
        usize::MAX
    } else if order.last() == id {
        (order.len() - 1) as usize
    } else {
        placed(order.drop_last(), id)
    }
}

/// Where each of `count` ids stands in an order.
pub open spec fn places(order: Seq<usize>, count: int) -> Seq<usize> {
    Seq::new(count as nat, |id: int| placed(order, id as usize))
}

/// Install a view order (`order[pos]` = image id), the order arrows actually
/// travel. The prefetch ring and the direction latch follow it from the next
/// focus on.
pub fn apply_view(state: &mut LoupeState, order: &[usize], count: usize)
    ensures
        final(state)@ == (LoupeView {
            view_ids: order@,
            view_pos: places(order@, count as int),
            ..old(state)@
        }),
{
    let mut ids: Vec<usize> = Vec::new();
    ids.extend_from_slice(order);
    assert(ids@ =~= order@);
    let mut pos: Vec<usize> = Vec::new();
    let mut i: usize = 0;
    while i < count
        invariant
            i <= count,
            pos@.len() == i,
            forall|j: int| 0 <= j < i ==> #[trigger] pos@[j] == usize::MAX,
        decreases count - i,
    {
        pos.push(usize::MAX);
        i = i + 1;
    }
    assert(order@.take(0) =~= Seq::empty());
    assert(pos@ =~= places(order@.take(0), count as int));
    let mut k: usize = 0;
    while k < order.len()
        invariant
            k <= order@.len(),
            count <= usize::MAX,
            pos@ == places(order@.take(k as int), count as int),
        decreases order@.len() - k,
    {
        let id: usize = order[k];
        let ghost t = order@.take(k + 1);
        assert(t.drop_last() =~= order@.take(k as int));
        assert(t.last() == id);
        if id < count {
            pos.set(id, k);
        }
        assert(pos@ =~= places(t, count as int));
        k = k + 1;
    }
    assert(order@.take(k as int) =~= order@);
    state.view_ids = ids;
    state.view_pos = pos;
}

/// A view without repeated ids is a bijection: position and id undo each
/// other.
pub proof fn lemma_view_is_a_bijection(s: LoupeView, order: Seq<usize>, count: int, pos: int)
    requires
        order.no_duplicates(),
        s.view_ids == order,
        s.view_pos == places(order, count),
        0 <= pos < order.len() <= usize::MAX,
        order[pos] < count,
    ensures
        s.at(pos) == Some(order[pos]),
        s.position(order[pos]) == Some(pos as usize),
{
    lemma_placed(order, pos);
}

proof fn lemma_placed(order: Seq<usize>, pos: int)
    requires
        order.no_duplicates(),
        0 <= pos < order.len() <= usize::MAX,
    ensures
        placed(order, order[pos]) == pos,
    decreases order.len(),
{
    let n = order.len() - 1;
    if pos < n {
        assert(order[pos] != order[n]);
        let front = order.drop_last();
        assert(front[pos] == order[pos]);
        lemma_placed(front, pos);
    }
}

/// The id at a position, where the position is in `lo..=hi` and has one.
pub open spec fn ring_member(s: LoupeView, lo: int, hi: int, p: int) -> Seq<usize> {
    if lo <= p <= hi && s.at(p) is Some {
        seq![s.at(p)->0]
    } else {
        Seq::empty()
    }
}

/// The ids of the positions `lo..=hi` around `fpos`, from `d` positions away
/// inwards: farthest first, the one before ahead of the one behind.
pub open spec fn ring_from(s: LoupeView, fpos: int, lo: int, hi: int, d: int) -> Seq<usize>
    decreases d,
{
    if d <= 0 {
        Seq::empty()
    } else {
        ring_member(s, lo, hi, fpos - d) + ring_member(s, lo, hi, fpos + d) + ring_from(
            s,
            fpos,
            lo,
            hi,
            d - 1,
        )
    }
}

/// How far the range `lo..=hi` reaches from `fpos`.
pub open spec fn reach(fpos: int, lo: int, hi: int) -> int {
    let back = fpos - lo;
    let ahead = hi - fpos;
    if back >= ahead {
        back
    } else {
        ahead
    }
}

/// The ring around `fpos`.
pub open spec fn ring(s: LoupeView, fpos: int, lo: int, hi: int) -> Seq<usize> {
    ring_from(s, fpos, lo, hi, reach(fpos, lo, hi))
}

/// Ring members as image ids for view positions `lo..=hi` around the focused
/// position `fpos`: farthest first (workers pop from the back, so the
/// nearest neighbor is popped soonest), the focused position excluded.
/// Positions that map to no id (stale view) are skipped rather than guessed.
pub fn ring_ids(state: &LoupeState, fpos: usize, lo: usize, hi: usize) -> (ids: Vec<usize>)
    ensures
        ids@ == ring(state@, fpos as int, lo as int, hi as int),
{
    let back: usize = if fpos >= lo {
        fpos - lo
    } else {
        0
    };
    let ahead: usize = if hi >= fpos {
        hi - fpos
    } else {
        0
    };
    let mut d: usize = if back >= ahead {
        back
    } else {
        ahead
    };
    let mut ids: Vec<usize> = Vec::new();
    let ghost whole = ring(state@, fpos as int, lo as int, hi as int);
    assert(ids@ + whole =~= whole);
    while d > 0
        invariant
            whole == ring(state@, fpos as int, lo as int, hi as int),
            ids@ + ring_from(state@, fpos as int, lo as int, hi as int, d as int) == whole,
        decreases d,
    {
        let ghost had = ids@;
        let ghost rest = ring_from(state@, fpos as int, lo as int, hi as int, d - 1);
        let ghost before = ring_member(state@, lo as int, hi as int, fpos - d);
        let ghost behind = ring_member(state@, lo as int, hi as int, fpos + d);
        if d <= fpos && lo <= fpos - d && fpos - d <= hi {
            match state.id_at(fpos - d) {
                Some(id) => {
                    ids.push(id);
                },
                None => {},
            }
        }
        assert(ids@ =~= had + before);
        if fpos <= hi && d <= hi - fpos && lo <= fpos + d {
            match state.id_at(fpos + d) {
                Some(id) => {
                    ids.push(id);
                },
                None => {},
            }
        }
        assert(ids@ =~= had + before + behind);
        assert(ids@ + rest =~= had + (before + behind + rest));
        d = d - 1;
    }
    assert(ids@ =~= whole);
    ids
}

// -------------------------------------------------------------- the ladder
/// Does an asset of this long edge serve a display of `display` pixels? It
/// serves any display up to 25% larger than itself, in single precision.
pub open spec fn serves_long(asset: u32, display: u32) -> bool {
    rounding::single(5 * rounding::single(asset as int)) >= 4 * rounding::single(display as int)
}

/// For every asset that a JPEG can be (its sides have 16 bits), the rule is
/// exactly that: five quarters of it reach the display.
pub proof fn lemma_quarter_rule(asset: u32, display: u32)
    requires
        asset <= u16::MAX,
    ensures
        serves_long(asset, display) <==> 5 * asset >= 4 * display,
{
    rounding::lemma_single_is_exact(asset as int);
    rounding::lemma_single_is_exact(5 * asset as int);
    if (display as int) < rounding::SINGLE {
        rounding::lemma_single_is_exact(display as int);
    } else {
        rounding::lemma_single_stays_large(display as int);
    }
}

fn long_serves(asset: u32, display: u32) -> (r: bool)
    ensures
        r == serves_long(asset, display),
{
    let a: u64 = rounding::single_of(asset as u64);
    proof {
        lemma_single_bound(asset);
    }
    let left: u64 = rounding::single_of(5 * a);
    let right: u64 = rounding::single_of(display as u64);
    left >= 4 * right
}

proof fn lemma_single_bound(n: u32)
    ensures
        rounding::single(n as int) <= 0x1_0000_0000,
{
    rounding::lemma_single_within(n as int);
}

/// Ladder rule: does this asset serve a display of `display_long` pixels?
pub fn serves(img: &FullImage, display_long: u32) -> (r: bool)
    ensures
        r == serves_long(img.long(), display_long),
{
    long_serves(img.long_edge(), display_long)
}

/// Ladder rule for a rung that is not decoded yet.
pub fn serves_dims(w: u32, h: u32, display_long: u32) -> (r: bool)
    ensures
        r == serves_long(
            if w >= h {
                w
            } else {
                h
            },
            display_long,
        ),
{
    long_serves(
        if w >= h {
            w
        } else {
            h
        },
        display_long,
    )
}

// --------------------------------------------------------------- the cache
impl LoupeView {
    /// Is there a cached asset that is enough for this display? It is where
    /// it serves the display, or already is the best rung this file can
    /// provide.
    pub open spec fn is_enough(self, index: usize, display: u32) -> bool {
        self.cache.contains_key(index) && {
            let img = self.cache[index].0;
            serves_long(img.long(), display) || (self.best_long.contains_key(index) && img.long()
                >= self.best_long[index])
        }
    }

    /// The cache entry of an image gets a new stamp, where it has one.
    pub open spec fn stamped(self, index: usize, stamp: u64) -> LoupeView {
        if self.cache.contains_key(index) {
            LoupeView { cache: self.cache.insert(index, (self.cache[index].0, stamp)), ..self }
        } else {
            self
        }
    }
}

/// Is there a cached asset that is enough for this display? Only ASKS: the
/// LRU order is left alone, because the settle guarantee polls on a timer,
/// and stamping there would turn the order around.
pub fn cached_serves(state: &LoupeState, index: usize, display_long: u32) -> (r: bool)
    ensures
        r == state@.is_enough(index, display_long),
{
    match state.cache.get(&index) {
        Some(entry) => {
            if serves(&entry.0, display_long) {
                return true;
            }
            match state.best_long.get(&index) {
                Some(best) => entry.0.long_edge() >= *best,
                None => false,
            }
        },
        None => false,
    }
}

/// Cached-and-sufficient check, refreshing the LRU stamp: its callers are
/// declaring live interest.
pub fn sufficient_cached(
    state: &mut LoupeState,
    index: usize,
    display_long: u32,
    stamp: u64,
) -> (r: bool)
    ensures
        r == old(state)@.is_enough(index, display_long),
        final(state)@ == old(state)@.stamped(index, stamp),
{
    let r: bool = cached_serves(state, index, display_long);
    match state.cache.remove(&index) {
        Some(entry) => {
            let (img, _) = entry;
            state.cache.insert(index, (img, stamp));
            assert(state.cache@ =~= old(state)@.cache.insert(
                index,
                (old(state)@.cache[index].0, stamp),
            ));
        },
        None => {
            assert(state.cache@ =~= old(state)@.cache);
        },
    }
    r
}

// --------------------------------------------------------------- the queue
/// The entries for other images.
pub open spec fn others(queue: Seq<Pending>, index: usize) -> Seq<Pending>
    decreases queue.len(),
{
    if queue.len() == 0 {
        Seq::empty()
    } else {
        let front = others(queue.drop_last(), index);
        if (queue.last()).0 != index {
            front.push(queue.last())
        } else {
            front
        }
    }
}

/// Is there an entry for this image?
pub open spec fn is_queued(queue: Seq<Pending>, index: usize) -> bool {
    exists|i: int| 0 <= i < queue.len() && (#[trigger] queue[i]).0 == index
}

/// One entry per image.
pub open spec fn one_each(queue: Seq<Pending>) -> bool {
    forall|i: int, j: int|
        0 <= i < j < queue.len() ==> (#[trigger] queue[i]).0 != (#[trigger] queue[j]).0
}

fn drop_entries(queue: &mut Vec<Pending>, index: usize)
    ensures
        final(queue)@ == others(old(queue)@, index),
{
    let mut kept: Vec<Pending> = Vec::new();
    let mut i: usize = 0;
    let ghost all = queue@;
    assert(all.take(0) =~= Seq::empty());
    while i < queue.len()
        invariant
            i <= queue@.len(),
            queue@ == all,
            kept@ == others(all.take(i as int), index),
        decreases queue@.len() - i,
    {
        let entry = queue[i];
        let ghost t = all.take(i + 1);
        assert(t.drop_last() =~= all.take(i as int));
        assert(t.last() == entry);
        if entry.0 != index {
            kept.push(entry);
        }
        i = i + 1;
    }
    assert(all.take(i as int) =~= all);
    *queue = kept;
}

fn queued(queue: &Vec<Pending>, index: usize) -> (r: bool)
    ensures
        r == is_queued(queue@, index),
{
    let mut i: usize = 0;
    while i < queue.len()
        invariant
            i <= queue@.len(),
            forall|j: int| 0 <= j < i ==> (#[trigger] queue@[j]).0 != index,
        decreases queue@.len() - i,
    {
        if queue[i].0 == index {
            return true;
        }
        i = i + 1;
    }
    false
}

fn flying(in_flight: &Vec<usize>, index: usize) -> (r: bool)
    ensures
        r == in_flight@.contains(index),
{
    let mut i: usize = 0;
    while i < in_flight.len()
        invariant
            i <= in_flight@.len(),
            forall|j: int| 0 <= j < i ==> #[trigger] in_flight@[j] != index,
        decreases in_flight@.len() - i,
    {
        if in_flight[i] == index {
            return true;
        }
        i = i + 1;
    }
    false
}

/// Where a scheduled request goes in the queue — the ONE thing a focus and a
/// grid want disagree about.
#[derive(Clone, Copy, PartialEq, Eq, Debug, Structural)]
pub enum Origin {
    /// Focus and its prefetch ring: the BACK of the queue (served first),
    /// REPLACING any pending entry for the same index.
    Focus,
    /// Grid want: the FRONT of the queue, and it YIELDS to an entry that is
    /// already there.
    Grid,
}

/// The target an upgrade waits for: the largest one asked for.
pub open spec fn merged(deferred: Map<usize, u32>, index: usize, target: u32) -> Map<usize, u32> {
    deferred.insert(
        index,
        if deferred.contains_key(index) && deferred[index] >= target {
            deferred[index]
        } else {
            target
        },
    )
}

impl LoupeView {
    /// Does scheduling this put an entry into the queue?
    pub open spec fn takes(self, index: usize, target: u32, origin: Origin) -> bool {
        &&& !self.is_enough(index, target)
        &&& !self.failed.contains(index)
        &&& !self.in_flight.contains(index)
        &&& origin == Origin::Grid ==> !is_queued(self.queue, index)
    }

    /// The state after scheduling: sufficient-or-failed does nothing,
    /// in-flight merges the target into the deferred ones, and anything else
    /// is queued at the origin's end.
    pub open spec fn scheduled(
        self,
        index: usize,
        target: u32,
        stamp: u64,
        origin: Origin,
    ) -> LoupeView {
        let s = self.stamped(index, stamp);
        if self.is_enough(index, target) || self.failed.contains(index) {
            s
        } else if self.in_flight.contains(index) {
            LoupeView { deferred: merged(self.deferred, index, target), ..s }
        } else if origin == Origin::Focus {
            LoupeView { queue: others(self.queue, index).push((index, target, true)), ..s }
        } else if is_queued(self.queue, index) {
            s
        } else {
            LoupeView { queue: seq![(index, target, false)] + self.queue, ..s }
        }
    }
}

/// Schedule `index` at `target`, or record why it needs no work. A smaller
/// later request must never undo a bigger one.
///
/// Returns true only when an entry was actually queued.
pub fn schedule(
    state: &mut LoupeState,
    index: usize,
    target: u32,
    stamp: u64,
    origin: Origin,
) -> (queued_it: bool)
    ensures
        final(state)@ == old(state)@.scheduled(index, target, stamp, origin),
        queued_it == old(state)@.takes(index, target, origin),
{
    let enough: bool = sufficient_cached(state, index, target, stamp);
    if enough || state.failed.contains(&index) {
        return false;
    }
    if flying(&state.in_flight, index) {
        let wanted: u32 = match state.deferred.get(&index) {
            Some(t) => if *t >= target {
                *t
            } else {
                target
            },
            None => target,
        };
        state.deferred.insert(index, wanted);
        return false;
    }
    match origin {
        Origin::Focus => {
            drop_entries(&mut state.queue, index);
            state.queue.push((index, target, true));
        },
        Origin::Grid => {
            if queued(&state.queue, index) {
                return false;
            }
            // Front of the queue = popped last: focused work stays first.
            state.queue.insert(0, (index, target, false));
            assert(state.queue@ =~= seq![(index, target, false)] + old(state)@.queue);
        },
    }
    true
}

impl LoupeView {
    /// Is this image within the focused prefetch ring, in VIEW positions?
    pub open spec fn in_ring(self, index: usize) -> bool {
        self.focused is Some && match (self.position(index), self.position(self.focused->0)) {
            (Some(a), Some(b)) => -2 <= a - b <= 2,
            _ => false,
        }
    }

    /// Is a deferred upgrade of this image still worth reviving?
    pub open spec fn revives(self, index: usize, target: u32) -> bool {
        self.in_ring(index) && !self.failed.contains(index) && !self.is_enough(index, target)
    }

    /// The state after the revival of a deferred upgrade.
    pub open spec fn revived(self, index: usize, target: u32, stamp: u64) -> LoupeView {
        if !self.in_ring(index) || self.failed.contains(index) {
            self
        } else if self.is_enough(index, target) {
            self.stamped(index, stamp)
        } else {
            let rest = others(self.queue, index);
            LoupeView {
                queue: if self.focused == Some(index) {
                    rest.push((index, target, true))
                } else {
                    seq![(index, target, true)] + rest
                },
                ..self.stamped(index, stamp)
            }
        }
    }
}

/// Land-time revival of a deferred upgrade (an in-flight index whose wanted
/// rung grew mid-decode). Revived ONLY while the index is still inside the
/// focused prefetch ring: a stale upgrade would capture workers for frames
/// nobody is looking at, and dropping it loses nothing. The focused index
/// re-queues at the back (popped next); a ring neighbor goes to the front so
/// it can never outrank the focused frame's own pending work.
pub fn revive_deferred(state: &mut LoupeState, index: usize, target: u32, stamp: u64) -> (r: bool)
    ensures
        final(state)@ == old(state)@.revived(index, target, stamp),
        r == old(state)@.revives(index, target),
{
    let in_ring: bool = match state.focused {
        None => false,
        Some(f) => match (state.pos_of(index), state.pos_of(f)) {
            (Some(a), Some(b)) => {
                let apart: usize = if a >= b {
                    a - b
                } else {
                    b - a
                };
                apart <= PREFETCH
            },
            _ => false,
        },
    };
    if !in_ring || state.failed.contains(&index) {
        return false;
    }
    if sufficient_cached(state, index, target, stamp) {
        return false;
    }
    drop_entries(&mut state.queue, index);
    let focused: bool = match state.focused {
        Some(f) => f == index,
        None => false,
    };
    if focused {
        state.queue.push((index, target, true));
    } else {
        let ghost rest = state.queue@;
        state.queue.insert(0, (index, target, true));
        assert(state.queue@ =~= seq![(index, target, true)] + rest);
    }
    true
}

// --------------------------------------------------------------- the focus
/// How long after `t` it is now.
pub open spec fn since(now: u64, t: u64) -> int {
    if now >= t {
        now - t
    } else {
        0
    }
}

fn elapsed(now: u64, t: u64) -> (d: u64)
    ensures
        d == since(now, t),
{
    if now >= t {
        now - t
    } else {
        0
    }
}

impl LoupeView {
    /// The state once the focus is on an image, at a display target.
    pub open spec fn noted(self, index: usize, display: u32, now: u64) -> LoupeView {
        let s = LoupeView { desired_long: display, ..self };
        if self.focused != Some(index) {
            LoupeView {
                moving: self.last_index_change is Some && since(now, self.last_index_change->0)
                    <= TRANSIT_GAP,
                last_index_change: Some(now),
                travel_forward: match (
                    self.position(index),
                    match self.focused {
                        Some(f) => self.position(f),
                        None => None,
                    },
                ) {
                    (Some(n), Some(p)) => n >= p,
                    _ => true,
                },
                focused: Some(index),
                focused_at: Some(now),
                focused_target: display,
                ..s
            }
        } else if display > self.focused_target {
            LoupeView { focused_at: Some(now), focused_target: display, ..s }
        } else {
            s
        }
    }

    /// Is the user MOVING between frames rather than looking at one?
    pub open spec fn is_moving(self, now: u64) -> bool {
        self.moving && self.last_index_change is Some && since(now, self.last_index_change->0)
            < SETTLE_DEBOUNCE
    }
}

/// Track the focus for the reserved worker's debounce. The clock resets when
/// the focused INDEX changes and ALSO when the focused index's target
/// ESCALATES: new big work must survive the debounce regardless of how long
/// the focus has rested. A same-or-smaller target never resets.
pub fn note_focus(state: &mut LoupeState, index: usize, display_long: u32, now: u64)
    ensures
        final(state)@ == old(state)@.noted(index, display_long, now),
{
    // The application's real intent, before any transit capping, so the
    // settle knows what to climb to.
    state.desired_long = display_long;
    let same: bool = match state.focused {
        Some(f) => f == index,
        None => false,
    };
    if !same {
        // A change hard on the heels of the previous one is a held key.
        state.moving =
        match state.last_index_change {
            Some(t) => elapsed(now, t) <= TRANSIT_GAP,
            None => false,
        };
        state.last_index_change = Some(now);
        // Latch direction HERE, where a real change proves it — in VIEW
        // positions: arrows travel the view.
        let new_pos = state.pos_of(index);
        let prev_pos = match state.focused {
            Some(f) => state.pos_of(f),
            None => None,
        };
        state.travel_forward =
        match (new_pos, prev_pos) {
            (Some(n), Some(p)) => n >= p,
            _ => true,
        };
        state.focused = Some(index);
        state.focused_at = Some(now);
        state.focused_target = display_long;
    } else if display_long > state.focused_target {
        state.focused_at = Some(now);
        state.focused_target = display_long;
    }
}

/// Is the user MOVING between frames (held key, an auto-advance chain)
/// rather than looking at one? This governs what is REQUESTED, never what is
/// DISPLAYED.
pub fn in_transit(state: &LoupeState, now: u64) -> (r: bool)
    ensures
        r == state@.is_moving(now),
{
    state.moving && match state.last_index_change {
        Some(t) => elapsed(now, t) < SETTLE_DEBOUNCE,
        None => false,
    }
}

/// What a moving frame asks the decoder for: [`MID_RUNG_TARGET`], not
/// [`MID_RUNG_MAX_LONG`], which a mid rung of 1616 does not serve.
pub fn transit_request(display_long: u32) -> (r: u32)
    ensures
        r == if display_long < 1616 {
            display_long
        } else {
            1616
        },
{
    if display_long < MID_RUNG_TARGET {
        display_long
    } else {
        MID_RUNG_TARGET
    }
}

/// What to ask the decoder for.
pub open spec fn request(transit: bool, display: u32) -> u32 {
    if transit && display > 1616 {
        1616
    } else {
        display
    }
}

/// What to ask the decoder for: the mid while moving, the application's real
/// target when stopped.
pub fn plan_request(transit: bool, display_long: u32) -> (r: u32)
    ensures
        r == request(transit, display_long),
{
    if transit {
        transit_request(display_long)
    } else {
        display_long
    }
}

/// How far the ring reaches back and ahead.
pub open spec fn lean(transit: bool, forward: bool) -> (int, int) {
    if !transit {
        (2, 2)
    } else if forward {
        (2, 8)
    } else {
        (8, 2)
    }
}

/// The first position of the ring.
pub open spec fn ring_low(transit: bool, forward: bool, pos: int) -> int {
    let back = lean(transit, forward).0;
    if pos > back {
        pos - back
    } else {
        0
    }
}

/// The last position of the ring.
pub open spec fn ring_high(transit: bool, forward: bool, pos: int, count: int) -> int {
    let ahead = lean(transit, forward).1;
    if pos + ahead < count - 1 {
        pos + ahead
    } else {
        count - 1
    }
}

/// What a focus should ask for, and over which ring: the TRANSIT vs SETTLED
/// decision.
///
/// Moving: the mid rung only, over a wide ring leaning the way we travel.
/// Stopped: what the application actually wants over the tight ring.
///
/// Returns `(request, lo, hi)` with `lo..=hi` already clamped to `count`, in
/// view positions.
pub fn focus_plan(
    transit: bool,
    forward: bool,
    index: usize,
    display_long: u32,
    count: usize,
) -> (r: (u32, usize, usize))
    requires
        count > 0,
        index + lean(transit, forward).1 <= usize::MAX,
    ensures
        r.0 == request(transit, display_long),
        r.1 == ring_low(transit, forward, index as int),
        r.2 == ring_high(transit, forward, index as int, count as int),
{
    let (back, ahead): (usize, usize) = if !transit {
        (PREFETCH, PREFETCH)
    } else if forward {
        // A reversal must re-lean immediately.
        (TRANSIT_BEHIND, TRANSIT_AHEAD)
    } else {
        (TRANSIT_AHEAD, TRANSIT_BEHIND)
    };
    let lo: usize = if index > back {
        index - back
    } else {
        0
    };
    let hi: usize = if index + ahead < count - 1 {
        index + ahead
    } else {
        count - 1
    };
    (plan_request(transit, display_long), lo, hi)
}

/// The request of a moving frame is one that the mid rung serves, whatever
/// the display.
pub proof fn lemma_transit_is_served_by_the_mid(display: u32)
    ensures
        serves_long(1616, request(true, display)),
{
    lemma_quarter_rule(1616, request(true, display));
}

// ------------------------------------------------------------- the workers
/// What a worker should do next.
#[derive(Debug, Clone, Copy, PartialEq, Eq, Structural)]
pub enum Slot {
    /// Decode this (index, display long edge).
    Job(usize, u32),
    /// Nothing for this worker: wait for a queue notification.
    Wait,
    /// The reserved worker's debounce hasn't elapsed: wait at most this
    /// long (a timed wait — nothing will notify when time passes).
    WaitFor(u64),
}

/// The last entry for an image, or -1.
pub open spec fn last_entry(queue: Seq<Pending>, index: usize) -> int
    decreases queue.len(),
{
    if queue.len() == 0 {
        -1
    } else if (queue.last()).0 == index {
        queue.len() - 1
    } else {
        last_entry(queue.drop_last(), index)
    }
}

proof fn lemma_last_entry(queue: Seq<Pending>, index: usize)
    ensures
        -1 <= last_entry(queue, index) < queue.len(),
        last_entry(queue, index) >= 0 ==> (queue[last_entry(queue, index)]).0 == index,
        last_entry(queue, index) < 0 ==> !is_queued(queue, index),
    decreases queue.len(),
{
    if queue.len() > 0 && (queue.last()).0 != index {
        let front = queue.drop_last();
        lemma_last_entry(front, index);
        if is_queued(queue, index) {
            let i = choose|i: int| 0 <= i < queue.len() && (#[trigger] queue[i]).0 == index;
            assert((front[i]).0 == index);
        }
    }
}

/// Where there is no last entry, there is none.
pub proof fn lemma_no_entry(queue: Seq<Pending>, index: usize)
    requires
        last_entry(queue, index) < 0 || last_entry(queue, index) >= queue.len(),
    ensures
        !is_queued(queue, index),
{
    lemma_last_entry(queue, index);
}

fn find_last(queue: &Vec<Pending>, index: usize) -> (r: Option<usize>)
    ensures
        match r {
            Some(k) => k == last_entry(queue@, index) && k < queue@.len(),
            None => last_entry(queue@, index) == -1,
        },
{
    let mut i: usize = queue.len();
    assert(queue@.take(i as int) =~= queue@);
    while i > 0
        invariant
            i <= queue@.len(),
            last_entry(queue@, index) == last_entry(queue@.take(i as int), index),
        decreases i,
    {
        let ghost t = queue@.take(i as int);
        assert(t.last() == queue@[i - 1]);
        assert(t.drop_last() =~= queue@.take(i - 1));
        if queue[i - 1].0 == index {
            return Some(i - 1);
        }
        i = i - 1;
    }
    None
}

impl LoupeView {
    /// How long the focus has held.
    pub open spec fn held(self, now: u64) -> int {
        match self.focused_at {
            Some(t) => since(now, t),
            None => FOCUS_DEBOUNCE as int,
        }
    }

    /// The SETTLE GUARANTEE: the user has stopped on a frame that is short
    /// of what the application wants, and nothing is under way for it.
    pub open spec fn must_climb(self, f: usize, now: u64) -> bool {
        &&& self.last_index_change is Some
        &&& since(now, self.last_index_change->0) >= SETTLE_DEBOUNCE
        &&& self.desired_long > 0
        &&& !self.failed.contains(f)
        &&& !self.in_flight.contains(f)
        &&& !self.is_enough(f, self.desired_long)
    }

    /// What a worker should do next, and the state it leaves: it takes the
    /// most urgent entry that is not already served, or (the reserved one)
    /// the focused image's, once the focus has held.
    pub open spec fn picked(self, reserved: bool, now: u64) -> (Slot, LoupeView)
        decreases self.queue.len(),
    {
        if reserved && self.focused is None {
            (Slot::Wait, self)
        } else if reserved && self.held(now) < FOCUS_DEBOUNCE {
            (Slot::WaitFor((FOCUS_DEBOUNCE - self.held(now)) as u64), self)
        } else {
            let k = if reserved {
                last_entry(self.queue, self.focused->0)
            } else {
                self.queue.len() - 1
            };
            if k < 0 || k >= self.queue.len() {
                if reserved && self.must_climb(self.focused->0, now) {
                    let f = self.focused->0;
                    (
                        Slot::Job(f, self.desired_long),
                        LoupeView { in_flight: self.in_flight.push(f), ..self },
                    )
                } else {
                    (Slot::Wait, self)
                }
            } else {
                let (index, target, _) = self.queue[k];
                let rest = LoupeView { queue: self.queue.remove(k), ..self };
                if self.is_enough(index, target) {
                    rest.picked(reserved, now)
                } else {
                    (
                        Slot::Job(index, target),
                        LoupeView { in_flight: self.in_flight.push(index), ..rest },
                    )
                }
            }
        }
    }
}

/// Pick this worker's next job off the queue.
///
/// A focus-reserved worker takes ONLY the focused index's entry, and only
/// once the focus has been stable for [`FOCUS_DEBOUNCE`]: in-flight decodes
/// cannot be preempted, so a debounced reservation is the only way the
/// SETTLED frame's ladder is guaranteed to start promptly. Normal workers
/// pop from the back (most urgent last).
pub fn next_job(state: &mut LoupeState, focus_reserved: bool, now: u64) -> (slot: Slot)
    ensures
        old(state)@.picked(focus_reserved, now) == (slot, final(state)@),
{
    let ghost whole = state@.picked(focus_reserved, now);
    loop
        invariant
            whole == state@.picked(focus_reserved, now),
            whole == old(state)@.picked(focus_reserved, now),
        decreases state.queue@.len(),
    {
        let pos: usize = if focus_reserved {
            let f: usize = match state.focused {
                Some(f) => f,
                None => {
                    return Slot::Wait;
                },
            };
            let held: u64 = match state.focused_at {
                Some(t) => elapsed(now, t),
                None => FOCUS_DEBOUNCE,
            };
            if held < FOCUS_DEBOUNCE {
                return Slot::WaitFor(FOCUS_DEBOUNCE - held);
            }
            match find_last(&state.queue, f) {
                Some(pos) => pos,
                None => {
                    // Transit deliberately asked only for the mid, so once
                    // the user stops, SOMETHING has to ask for the real
                    // target.
                    let settled: bool = match state.last_index_change {
                        Some(t) => elapsed(now, t) >= SETTLE_DEBOUNCE,
                        None => false,
                    };
                    let want: u32 = state.desired_long;
                    if settled && want > 0 && !state.failed.contains(&f) && !flying(
                        &state.in_flight,
                        f,
                    ) && !cached_serves(state, f, want) {
                        state.in_flight.push(f);
                        return Slot::Job(f, want);
                    }
                    return Slot::Wait;
                },
            }
        } else {
            if state.queue.len() == 0 {
                return Slot::Wait;
            }
            state.queue.len() - 1
        };
        let ghost before = state@;
        let (index, display_long, _) = state.queue.remove(pos);
        assert(state@ == (LoupeView { queue: before.queue.remove(pos as int), ..before }));
        if !cached_serves(state, index, display_long) {
            state.in_flight.push(index);
            return Slot::Job(index, display_long);
        }
        // Upgraded or topped out meanwhile.
    }
}

/// The rung an image already has, as its long edge.
pub fn current_long(state: &LoupeState, index: usize) -> (n: u32)
    ensures
        n == if state@.cache.contains_key(index) {
            state@.cache[index].0.long()
        } else {
            0
        },
{
    match state.cache.get(&index) {
        Some(entry) => entry.0.long_edge(),
        None => 0,
    }
}

/// The flights of other images.
pub open spec fn others_flying(in_flight: Seq<usize>, index: usize) -> Seq<usize>
    decreases in_flight.len(),
{
    if in_flight.len() == 0 {
        Seq::empty()
    } else {
        let front = others_flying(in_flight.drop_last(), index);
        if in_flight.last() != index {
            front.push(in_flight.last())
        } else {
            front
        }
    }
}

fn drop_flights(in_flight: &mut Vec<usize>, index: usize)
    ensures
        final(in_flight)@ == others_flying(old(in_flight)@, index),
{
    let mut kept: Vec<usize> = Vec::new();
    let mut i: usize = 0;
    let ghost all = in_flight@;
    assert(all.take(0) =~= Seq::empty());
    while i < in_flight.len()
        invariant
            i <= in_flight@.len(),
            in_flight@ == all,
            kept@ == others_flying(all.take(i as int), index),
        decreases in_flight@.len() - i,
    {
        let x: usize = in_flight[i];
        let ghost t = all.take(i + 1);
        assert(t.drop_last() =~= all.take(i as int));
        assert(t.last() == x);
        if x != index {
            kept.push(x);
        }
        i = i + 1;
    }
    assert(all.take(i as int) =~= all);
    *in_flight = kept;
}

impl LoupeView {
    /// The state once a flight is over, before its upgrade is looked at.
    /// Failure is recorded BEFORE that: a doomed index must not come back.
    pub open spec fn grounded(self, index: usize, failed: bool) -> LoupeView {
        LoupeView {
            in_flight: others_flying(self.in_flight, index),
            failed: if failed {
                self.failed.insert(index)
            } else {
                self.failed
            },
            deferred: self.deferred.remove(index),
            ..self
        }
    }

    /// The state once a flight has landed.
    pub open spec fn landed(self, index: usize, failed: bool, stamp: u64) -> LoupeView {
        let s = self.grounded(index, failed);
        if self.deferred.contains_key(index) {
            s.revived(index, self.deferred[index], stamp)
        } else {
            s
        }
    }
}

/// A decode is over. Returns whether workers should be woken: a deferred
/// upgrade went back into the queue.
pub fn land(state: &mut LoupeState, index: usize, failed: bool, stamp: u64) -> (wake: bool)
    ensures
        final(state)@ == old(state)@.landed(index, failed, stamp),
        wake == (old(state)@.deferred.contains_key(index) && old(state)@.grounded(
            index,
            failed,
        ).revives(index, old(state)@.deferred[index])),
{
    drop_flights(&mut state.in_flight, index);
    if failed {
        state.failed.insert(index);
    }
    let target: Option<u32> = state.deferred.remove(&index);
    assert(state@ =~= old(state)@.grounded(index, failed));
    match target {
        Some(t) => revive_deferred(state, index, t, stamp),
        None => false,
    }
}

// ------------------------------------------------------------- the requests
impl LoupeView {
    /// The state after scheduling each of some images, in order.
    pub open spec fn scheduled_all(
        self,
        ids: Seq<usize>,
        target: u32,
        stamp: u64,
        origin: Origin,
    ) -> LoupeView
        decreases ids.len(),
    {
        if ids.len() == 0 {
            self
        } else {
            self.scheduled_all(ids.drop_last(), target, stamp, origin).scheduled(
                ids.last(),
                target,
                stamp,
                origin,
            )
        }
    }
}

/// The ids that are images of the folder.
pub open spec fn known(ids: Seq<usize>, count: int) -> Seq<usize>
    decreases ids.len(),
{
    if ids.len() == 0 {
        Seq::empty()
    } else {
        let front = known(ids.drop_last(), count);
        if ids.last() < count {
            front.push(ids.last())
        } else {
            front
        }
    }
}

fn known_ids(ids: &[usize], count: usize) -> (r: Vec<usize>)
    ensures
        r@ == known(ids@, count as int),
{
    let mut r: Vec<usize> = Vec::new();
    let mut i: usize = 0;
    assert(ids@.take(0) =~= Seq::empty());
    while i < ids.len()
        invariant
            i <= ids@.len(),
            r@ == known(ids@.take(i as int), count as int),
        decreases ids@.len() - i,
    {
        let ghost t = ids@.take(i + 1);
        assert(t.drop_last() =~= ids@.take(i as int));
        assert(t.last() == ids@[i as int]);
        if ids[i] < count {
            r.push(ids[i]);
        }
        i = i + 1;
    }
    assert(ids@.take(i as int) =~= ids@);
    r
}

fn schedule_all(
    state: &mut LoupeState,
    ids: &Vec<usize>,
    target: u32,
    stamp: u64,
    origin: Origin,
) -> (any: bool)
    ensures
        final(state)@ == old(state)@.scheduled_all(ids@, target, stamp, origin),
        any == exists|i: int|
            0 <= i < ids@.len() && old(state)@.scheduled_all(
                #[trigger] ids@.take(i),
                target,
                stamp,
                origin,
            ).takes(ids@[i], target, origin),
{
    let mut any: bool = false;
    let mut i: usize = 0;
    let ghost s = state@;
    assert(ids@.take(0) =~= Seq::empty());
    while i < ids.len()
        invariant
            i <= ids@.len(),
            s == old(state)@,
            state@ == s.scheduled_all(ids@.take(i as int), target, stamp, origin),
            any == exists|j: int|
                0 <= j < i && s.scheduled_all(
                    #[trigger] ids@.take(j),
                    target,
                    stamp,
                    origin,
                ).takes(ids@[j], target, origin),
        decreases ids@.len() - i,
    {
        let ghost t = ids@.take(i + 1);
        assert(t.drop_last() =~= ids@.take(i as int));
        assert(t.last() == ids@[i as int]);
        let took: bool = schedule(state, ids[i], target, stamp, origin);
        if took {
            assert(s.scheduled_all(ids@.take(i as int), target, stamp, origin).takes(
                ids@[i as int],
                target,
                origin,
            ));
            any = true;
        }
        i = i + 1;
    }
    assert(ids@.take(i as int) =~= ids@);
    any
}

impl LoupeView {
    /// The images a focus asks for, least urgent first: the ring in view
    /// order, then the focused image itself. A focused image with no view
    /// position has no ring: its neighbors are unknowable.
    pub open spec fn wanted_by_focus(self, index: usize, count: int, transit: bool) -> Seq<usize> {
        let ids = match self.position(index) {
            Some(p) => known(
                ring(
                    self,
                    p as int,
                    ring_low(transit, self.travel_forward, p as int),
                    ring_high(
                        transit,
                        self.travel_forward,
                        p as int,
                        self.ring_length(count),
                    ),
                ),
                count,
            ),
            None => Seq::empty(),
        };
        ids.push(index)
    }

    /// The state once the user looks at an image.
    pub open spec fn focused_on(
        self,
        index: usize,
        display: u32,
        count: int,
        stamp: u64,
        now: u64,
    ) -> LoupeView {
        if index >= count {
            self
        } else {
            let s = self.noted(index, display, now);
            let transit = s.is_moving(now);
            s.scheduled_all(
                s.wanted_by_focus(index, count, transit),
                request(transit, display),
                stamp,
                Origin::Focus,
            )
        }
    }

    /// The entries that the focus asked for.
    pub open spec fn without_grid(queue: Seq<Pending>) -> Seq<Pending>
        decreases queue.len(),
    {
        if queue.len() == 0 {
            Seq::empty()
        } else {
            let front = LoupeView::without_grid(queue.drop_last());
            if (queue.last()).2 {
                front.push(queue.last())
            } else {
                front
            }
        }
    }

    /// The state once these grid cells are the visible ones.
    pub open spec fn wanting(
        self,
        ids: Seq<usize>,
        display: u32,
        count: int,
        stamp: u64,
    ) -> LoupeView {
        LoupeView { queue: LoupeView::without_grid(self.queue), ..self }.scheduled_all(
            known(ids, count),
            display,
            stamp,
            Origin::Grid,
        )
    }
}

impl LoupeState {
    /// The user is looking at `index` (of `count` images) on a display whose
    /// longest edge is `display_long` physical pixels: ensure it and its
    /// neighbors — in VIEW order — have an asset sufficient for that display
    /// (ladder rule) or are queued.
    ///
    /// Moving: ask only for the mid rung, across a wide ring leaning the way
    /// we travel. Stopped: ask for what the application actually wants, over
    /// the tight ring.
    pub fn focus(
        &mut self,
        index: usize,
        display_long: u32,
        count: usize,
        stamp: u64,
        now: u64,
    )
        requires
            index + 8 <= usize::MAX,
            old(self).view_ids@.len() + 8 <= usize::MAX,
            forall|i: int|
                0 <= i < old(self).view_pos@.len() ==> #[trigger] old(self).view_pos@[i]
                    == usize::MAX || old(self).view_pos@[i] < old(self).view_ids@.len(),
        ensures
            final(self)@ == old(self)@.focused_on(index, display_long, count as int, stamp, now),
    {
        if index >= count {
            return ;
        }
        note_focus(self, index, display_long, now);
        let transit: bool = in_transit(self, now);
        let ghost s = self@;
        let mut wanted: Vec<usize> = Vec::new();
        match self.pos_of(index) {
            Some(fpos) => {
                let (_, lo, hi) = focus_plan(
                    transit,
                    self.travel_forward,
                    fpos,
                    display_long,
                    self.ring_len(count),
                );
                let around = ring_ids(self, fpos, lo, hi);
                wanted = known_ids(around.as_slice(), count);
            },
            None => {},
        }
        wanted.push(index);
        assert(wanted@ == s.wanted_by_focus(index, count as int, transit));
        let target: u32 = plan_request(transit, display_long);
        schedule_all(self, &wanted, target, stamp, Origin::Focus);
    }

    /// Cached image without scheduling anything (e.g. re-render).
    pub fn peek(&self, index: usize) -> (r: Option<&FullImage>)
        ensures
            match r {
                Some(img) => self@.cache.contains_key(index) && *img == self@.cache[index].0,
                None => !self@.cache.contains_key(index),
            },
    {
        match self.cache.get(&index) {
            Some(entry) => Some(&entry.0),
            None => None,
        }
    }

    /// Supply the current VIEW order (`order[pos]` = image id) of a folder of
    /// `count` images.
    pub fn set_view(&mut self, order: &[usize], count: usize)
        ensures
            final(self)@ == (LoupeView {
                view_ids: order@,
                view_pos: places(order@, count as int),
                ..old(self)@
            }),
    {
        apply_view(self, order, count);
    }

    /// Grid-cell ladder (same 25% rule as focus): ensure every `index` has
    /// an asset serving `display_long`, at lower urgency than the focused
    /// image. This call defines the CURRENT visible set: stale grid wants
    /// are culled, so scrolled-past cells never starve on-screen ones.
    ///
    /// Returns whether workers should be woken: something was queued.
    pub fn want(&mut self, indexes: &[usize], display_long: u32, count: usize, stamp: u64) -> (any:
        bool)
        ensures
            final(self)@ == old(self)@.wanting(indexes@, display_long, count as int, stamp),
            ({
                let s = LoupeView {
                    queue: LoupeView::without_grid(old(self)@.queue),
                    ..old(self)@
                };
                let ids = known(indexes@, count as int);
                any == exists|i: int|
                    0 <= i < ids.len() && s.scheduled_all(
                        #[trigger] ids.take(i),
                        display_long,
                        stamp,
                        Origin::Grid,
                    ).takes(ids[i], display_long, Origin::Grid)
            }),
    {
        let mut kept: Vec<Pending> = Vec::new();
        let mut i: usize = 0;
        let ghost all = self.queue@;
        assert(all.take(0) =~= Seq::empty());
        while i < self.queue.len()
            invariant
                i <= self.queue@.len(),
                self.queue@ == all,
                self@ == old(self)@,
                kept@ == LoupeView::without_grid(all.take(i as int)),
            decreases self.queue@.len() - i,
        {
            let entry = self.queue[i];
            let ghost t = all.take(i + 1);
            assert(t.drop_last() =~= all.take(i as int));
            assert(t.last() == entry);
            if entry.2 {
                kept.push(entry);
            }
            i = i + 1;
        }
        assert(all.take(i as int) =~= all);
        self.queue = kept;
        let ids = known_ids(indexes, count);
        schedule_all(self, &ids, display_long, stamp, Origin::Grid)
    }
}

// ------------------------------------------------------------- the eviction
pub type Cache = Map<usize, (FullImage, u64)>;

/// The bytes of pixels that a cache holds.
pub open spec fn bytes_of(cache: Cache) -> int
    decreases cache.dom().len(),
{
    if !cache.dom().finite() || cache.dom().len() == 0 {
        0
    } else {
        let k = cache.dom().choose();
        cache[k].0.bytes() + bytes_of(cache.remove(k))
    }
}

/// The bytes are a sum: each entry counts once, in whatever order.
pub proof fn lemma_bytes_without(cache: Cache, k: usize)
    requires
        cache.dom().finite(),
        cache.contains_key(k),
    ensures
        bytes_of(cache) == cache[k].0.bytes() + bytes_of(cache.remove(k)),
    decreases cache.dom().len(),
{
    let c = cache.dom().choose();
    assert(cache.dom().contains(c)) by {
        assert(cache.dom().contains(k));
    }
    if c != k {
        let a = cache.remove(c);
        lemma_bytes_without(a, k);
        let b = cache.remove(k);
        lemma_bytes_without(b, c);
        assert(a.remove(k) =~= b.remove(c));
    }
}

proof fn lemma_bytes_nonneg(cache: Cache)
    ensures
        bytes_of(cache) >= 0,
    decreases cache.dom().len(),
{
    if cache.dom().finite() && cache.dom().len() > 0 {
        lemma_bytes_nonneg(cache.remove(cache.dom().choose()));
    }
}

/// What an eviction to a budget may do. Which of two equally old images goes
/// first is open.
pub open spec fn is_eviction(
    before: Cache,
    after: Cache,
    focused: Option<usize>,
    budget: int,
) -> bool {
    // Images only leave; what stays is untouched.
    &&& after.submap_of(before)
    // The focused image never leaves, and neither does the last one.
    &&& focused is Some && before.contains_key(focused->0) ==> after.contains_key(focused->0)
    &&& before.dom().len() >= 1 ==> after.dom().len() >= 1
    // The least recently focused leave first.
    &&& forall|r: usize, k: usize|
        before.contains_key(r) && !after.contains_key(r) && after.contains_key(k) && Some(k)
            != focused ==> (#[trigger] before[r]).1 <= (#[trigger] after[k]).1
    // Enough leave: the rest is within the budget, or there is one left.
    &&& bytes_of(after) <= budget || after.dom().len() <= 1
    // No more leave than must: without the last to leave it was too much.
    &&& after.dom() != before.dom() ==> exists|r: usize|
        before.contains_key(r) && !after.contains_key(r) && bytes_of(after) + (
        #[trigger] before[r]).0.bytes() > budget && forall|q: usize|
            before.contains_key(q) && !after.contains_key(q) ==> (#[trigger] before[q]).1
                <= before[r].1
}

/// The least recently focused image that is not the focused one.
fn oldest(cache: &HashMap<usize, (FullImage, u64)>, focused: Option<usize>) -> (r: Option<usize>)
    ensures
        match r {
            Some(v) => cache@.contains_key(v) && Some(v) != focused && forall|k: usize|
                cache@.contains_key(k) && Some(k) != focused ==> cache@[v].1 <= (
                #[trigger] cache@[k]).1,
            None => forall|k: usize| #[trigger] cache@.contains_key(k) ==> Some(k) == focused,
        },
{
    let mut best: Option<(usize, u64)> = None;
    for kv in it: cache.iter()
        invariant
            it.seq() == cache.iter().remaining(),
            match best {
                Some((v, stamp)) => cache@.contains_key(v) && Some(v) != focused && cache@[v].1
                    == stamp && forall|i: int|
                    #![trigger it.seq()[i]]
                    0 <= i < it.index() && Some(*it.seq()[i].0) != focused ==> stamp
                        <= it.seq()[i].1.1,
                None => forall|i: int|
                    #![trigger it.seq()[i]]
                    0 <= i < it.index() ==> Some(*it.seq()[i].0) == focused,
            },
    {
        let (k, entry) = kv;
        let ghost at = it.index();
        assert(it.seq()[at] == (k, entry));
        assert(cache@.contains_key(*it.seq()[at].0));
        let is_focused: bool = match focused {
            Some(f) => f == *k,
            None => false,
        };
        if !is_focused {
            best =
            match best {
                Some((v, stamp)) => if entry.1 < stamp {
                    Some((*k, entry.1))
                } else {
                    Some((v, stamp))
                },
                None => Some((*k, entry.1)),
            };
        }
    }
    proof {
        let all = cache.iter().remaining();
        assert forall|k: usize| #[trigger] cache@.contains_key(k) implies exists|i: int|
            0 <= i < all.len() && *(#[trigger] all[i]).0 == k && *all[i].1 == cache@[k] by {
            assert(all.contains((&k, &cache@[k])));
            let i = choose|i: int| 0 <= i < all.len() && all[i] == (&k, &cache@[k]);
            assert(*all[i].0 == k);
        }
    }
    match best {
        Some((v, _)) => Some(v),
        None => None,
    }
}

/// Evict least-recently-focused images until the pixels fit the budget —
/// never the focused image, and never the last one.
pub fn evict_to_budget(state: &mut LoupeState, budget: usize)
    requires
        old(state)@.cached_bytes == bytes_of(old(state)@.cache),
    ensures
        final(state)@ == (LoupeView {
            cache: final(state)@.cache,
            cached_bytes: bytes_of(final(state)@.cache),
            ..old(state)@
        }),
        is_eviction(old(state)@.cache, final(state)@.cache, old(state)@.focused, budget as int),
{
    let ghost before = state@.cache;
    let ghost focused = state.focused;
    let ghost mut last: Option<usize> = None;
    while state.cached_bytes > budget && state.cache.len() > 1
        invariant
            before == old(state)@.cache,
            focused == old(state)@.focused,
            state@ == (LoupeView {
                cache: state@.cache,
                cached_bytes: bytes_of(state@.cache),
                ..old(state)@
            }),
            state@.cache.submap_of(before),
            before.dom().finite(),
            focused is Some && before.contains_key(focused->0) ==> state@.cache.contains_key(
                focused->0,
            ),
            before.dom().len() >= 1 ==> state@.cache.dom().len() >= 1,
            forall|r: usize, k: usize|
                before.contains_key(r) && !state@.cache.contains_key(r)
                    && state@.cache.contains_key(k) && Some(k) != focused ==> (
                #[trigger] before[r]).1 <= (#[trigger] state@.cache[k]).1,
            match last {
                None => state@.cache == before,
                Some(r) => before.contains_key(r) && !state@.cache.contains_key(r) && bytes_of(
                    state@.cache,
                ) + before[r].0.bytes() > budget && forall|q: usize|
                    before.contains_key(q) && !state@.cache.contains_key(q) ==> (
                    #[trigger] before[q]).1 <= before[r].1,
            },
        decreases state@.cache.dom().len(),
    {
        let ghost had = state@.cache;
        match oldest(&state.cache, state.focused) {
            None => {
                // Only the focused image can be left, and there are two.
                proof {
                    lemma_two_keys(had, focused);
                }
                return ;
            },
            Some(victim) => {
                proof {
                    lemma_bytes_without(had, victim);
                    lemma_bytes_nonneg(had.remove(victim));
                }
                match state.cache.remove(&victim) {
                    Some(entry) => {
                        let n: usize = entry.0.rgb.len();
                        state.cached_bytes = state.cached_bytes - n;
                        proof {
                            assert(state@.cache =~= had.remove(victim));
                            last = Some(victim);
                            assert(had.dom().contains(victim));
                            assert(before.dom().contains(victim));
                            assert(before[victim] == had[victim]);
                            assert forall|q: usize|
                                before.contains_key(q) && !state@.cache.contains_key(q) implies (
                            #[trigger] before[q]).1 <= before[victim].1 by {
                                if q != victim {
                                    assert(!had.contains_key(q));
                                    assert(before[q].1 <= had[victim].1);
                                }
                            }
                        }
                    },
                    None => {},
                }
            },
        }
    }
    proof {
        match last {
            None => {},
            Some(r) => {
                assert(before.dom().contains(r));
                assert(!state@.cache.dom().contains(r));
            },
        }
    }
}

/// Of two keys, one is not the focused one.
proof fn lemma_two_keys(cache: Cache, focused: Option<usize>)
    requires
        cache.dom().finite(),
        cache.dom().len() > 1,
    ensures
        !(forall|k: usize| #[trigger] cache.contains_key(k) ==> Some(k) == focused),
{
    let a = cache.dom().choose();
    let rest = cache.dom().remove(a);
    assert(rest.len() >= 1);
    let b = rest.choose();
    assert(rest.contains(b));
    assert(cache.contains_key(a) && cache.contains_key(b) && a != b);
}

/// Put a freshly decoded image into the cache, and evict to the budget.
pub fn publish(state: &mut LoupeState, index: usize, image: FullImage, stamp: u64, budget: usize)
    requires
        old(state)@.cached_bytes == bytes_of(old(state)@.cache),
        bytes_of(old(state)@.cache.remove(index)) + image.bytes() <= usize::MAX,
    ensures
        final(state)@ == (LoupeView {
            cache: final(state)@.cache,
            cached_bytes: bytes_of(final(state)@.cache),
            ..old(state)@
        }),
        is_eviction(
            old(state)@.cache.insert(index, (image, stamp)),
            final(state)@.cache,
            old(state)@.focused,
            budget as int,
        ),
{
    let ghost had = state@.cache;
    let n: usize = image.rgb.len();
    proof {
        if had.contains_key(index) {
            lemma_bytes_without(had, index);
        } else {
            assert(had.remove(index) =~= had);
        }
        lemma_bytes_nonneg(had.remove(index));
        let now = had.insert(index, (image, stamp));
        lemma_bytes_without(now, index);
        assert(now.remove(index) =~= had.remove(index));
    }
    match state.cache.remove(&index) {
        Some(entry) => {
            let m: usize = entry.0.rgb.len();
            state.cached_bytes = state.cached_bytes - m;
        },
        None => {},
    }
    state.cached_bytes = state.cached_bytes + n;
    state.cache.insert(index, (image, stamp));
    assert(state@.cache =~= had.insert(index, (image, stamp)));
    evict_to_budget(state, budget);
}

/// A ladder topped out: memoize the best rung, so this file is never parsed
/// again for an unreachable target.
pub fn note_best(state: &mut LoupeState, index: usize, long: u32)
    ensures
        final(state)@ == (LoupeView {
            best_long: merged(old(state)@.best_long, index, long),
            ..old(state)@
        }),
{
    let best: u32 = match state.best_long.get(&index) {
        Some(b) => if *b >= long {
            *b
        } else {
            long
        },
        None => long,
    };
    state.best_long.insert(index, best);
}

// -------------------------------------------------------------- the climb
/// One embedded JPEG of a file.
#[derive(Debug, Clone, Copy, PartialEq, Eq, Structural)]
pub struct Rung {
    pub offset: u64,
    pub len: u64,
    pub width: u32,
    pub height: u32,
}

impl Rung {
    /// The longer of the two sides.
    pub open spec fn long(self) -> u32 {
        if self.width >= self.height {
            self.width
        } else {
            self.height
        }
    }

    pub fn long_edge(&self) -> (n: u32)
        ensures
            n == self.long(),
    {
        if self.width >= self.height {
            self.width
        } else {
            self.height
        }
    }
}

/// The rungs of a file, cheapest first: the mid preview, and the full-res
/// one where it is another.
pub fn rungs_of(mid: Option<Rung>, full: Option<Rung>) -> (rungs: Vec<Rung>)
    ensures
        rungs@ == match (mid, full) {
            (Some(m), Some(f)) => if m == f {
                seq![m]
            } else {
                seq![m, f]
            },
            (Some(m), None) => seq![m],
            (None, Some(f)) => seq![f],
            (None, None) => Seq::empty(),
        },
{
    let mut rungs: Vec<Rung> = Vec::new();
    match (mid, full) {
        (Some(m), Some(f)) => {
            rungs.push(m);
            if m != f {
                rungs.push(f);
            }
        },
        (Some(m), None) => {
            rungs.push(m);
        },
        (None, Some(f)) => {
            rungs.push(f);
        },
        (None, None) => {},
    }
    rungs
}

/// Why an image has nothing to show.
#[derive(Debug)]
pub enum LadderError {
    /// The file has no preview that could be used.
    NoUsablePreview,
    /// It has some, and none that could be decoded.
    NoDecodablePreview,
    /// The first one it has could not be decoded: the reason.
    Decode(String),
}

/// What a climb does next.
#[derive(Debug)]
pub enum Climb {
    /// Decode this rung and publish it; `terminal` where it is the file's
    /// best.
    Decode { rung: usize, terminal: bool },
    /// The climb is over: memoize `best` as the best rung, where it is
    /// given.
    Done { best: Option<u32> },
    /// The climb is over, and there is no image.
    Failed(LadderError),
}

/// The climb of one image: rungs are decoded, cheapest first, until one
/// serves the display.
pub struct Ladder {
    pub index: usize,
    pub rungs: Vec<Rung>,
    /// The next rung to look at.
    pub at: usize,
    /// The best rung so far, as its long edge.
    pub achieved: u32,
    pub display_long: u32,
    /// This flight runs on the focus-reserved worker.
    pub reserved_lane: bool,
}

/// The first rung, from `at` on, that is better than what is there.
pub open spec fn next_rung(rungs: Seq<Rung>, at: int, achieved: u32) -> int
    decreases rungs.len() - at,
{
    if at >= rungs.len() || rungs[at].long() > achieved {
        at
    } else {
        next_rung(rungs, at + 1, achieved)
    }
}

impl Ladder {
    /// A climb from what is cached now.
    pub fn start(
        index: usize,
        rungs: Vec<Rung>,
        display_long: u32,
        current_long: u32,
        reserved_lane: bool,
    ) -> (l: Ladder)
        ensures
            l == (Ladder {
                index,
                rungs,
                at: 0,
                achieved: current_long,
                display_long,
                reserved_lane,
            }),
    {
        Ladder { index, rungs, at: 0, achieved: current_long, display_long, reserved_lane }
    }

    /// The next step.
    ///
    /// A climb on the reserved lane exists ONLY to serve the focused frame:
    /// at every rung boundary it is abandoned where the focus has moved on.
    /// A climb that runs out of rungs memoizes what it achieved, so that the
    /// file is never parsed again for an unreachable target.
    pub fn next(&mut self, focused: Option<usize>) -> (step: Climb)
        requires
            old(self).at <= old(self).rungs@.len(),
        ensures
            ({
                let k = next_rung(old(self).rungs@, old(self).at as int, old(self).achieved);
                let rungs = old(self).rungs@;
                &&& *final(self) == (Ladder { at: final(self).at, ..*old(self) })
                &&& final(self).at == k
                &&& k <= rungs.len()
                &&& match step {
                    Climb::Decode { rung, terminal } => rung == k && k < rungs.len() && (
                    old(self).reserved_lane ==> focused == Some(old(self).index)) && rungs[k].long()
                        > old(self).achieved && terminal == (rungs[k].long()
                        >= rungs.last().long()),
                    Climb::Done { best: None } => k < rungs.len() && old(self).reserved_lane
                        && focused != Some(old(self).index),
                    Climb::Done { best: Some(b) } => k == rungs.len() && rungs.len() > 0 && b
                        == old(self).achieved && b > 0,
                    Climb::Failed(LadderError::NoUsablePreview) => rungs.len() == 0,
                    Climb::Failed(LadderError::NoDecodablePreview) => k == rungs.len()
                        && rungs.len() > 0 && old(self).achieved == 0,
                    Climb::Failed(LadderError::Decode(_)) => false,
                }
            }),
    {
        let n: usize = self.rungs.len();
        let ghost k = next_rung(self.rungs@, self.at as int, self.achieved);
        while self.at < n && self.rungs[self.at].long_edge() <= self.achieved
            invariant
                self.at <= n,
                n == self.rungs@.len(),
                *self == (Ladder { at: self.at, ..*old(self) }),
                k == next_rung(self.rungs@, self.at as int, self.achieved),
                k == next_rung(old(self).rungs@, old(self).at as int, old(self).achieved),
            decreases n - self.at,
        {
            self.at = self.at + 1;
        }
        if n == 0 {
            return Climb::Failed(LadderError::NoUsablePreview);
        }
        if self.at == n {
            // Topped out below the display target.
            if self.achieved > 0 {
                return Climb::Done { best: Some(self.achieved) };
            }
            return Climb::Failed(LadderError::NoDecodablePreview);
        }
        let on_focus: bool = match focused {
            Some(f) => f == self.index,
            None => false,
        };
        if self.reserved_lane && !on_focus {
            return Climb::Done { best: None };
        }
        let terminal: bool = self.rungs[self.at].long_edge() >= self.rungs[n - 1].long_edge();
        Climb::Decode { rung: self.at, terminal }
    }

    /// The rung of the last step was decoded and published. Where it serves
    /// the display, the climb is over.
    pub fn published(&mut self) -> (over: bool)
        requires
            old(self).at < old(self).rungs@.len(),
        ensures
            *final(self) == (Ladder {
                at: (old(self).at + 1) as usize,
                achieved: old(self).rungs@[old(self).at as int].long(),
                ..*old(self)
            }),
            over == serves_long(old(self).rungs@[old(self).at as int].long(), old(self).display_long),
    {
        let n: usize = self.rungs.len();
        assert(self.at < n);
        let rung = self.rungs[self.at];
        self.achieved = rung.long_edge();
        self.at = self.at + 1;
        serves_dims(rung.width, rung.height, self.display_long)
    }

    /// The rung of the last step could not be decoded. A broken HIGHER rung
    /// must not fail an image that already has a good lower one: what was
    /// achieved is memoized, so that the ladder quiesces.
    pub fn broken(&self, reason: String) -> (end: Climb)
        ensures
            match end {
                Climb::Done { best: Some(b) } => self.achieved > 0 && b == self.achieved,
                Climb::Failed(LadderError::Decode(r)) => self.achieved == 0 && r == reason,
                _ => false,
            },
    {
        if self.achieved > 0 {
            Climb::Done { best: Some(self.achieved) }
        } else {
            Climb::Failed(LadderError::Decode(reason))
        }
    }
}

// ------------------------------------------------------------- the decode
/// Why a stream is not decoded, where its headers decide: they are refused,
/// they claim more pixels than are plausible, or the scan is cut off. It is
/// decided before anything is allocated from the headers' claim.
pub open spec fn refused(
    header: Result<Option<(usize, usize)>, Seq<char>>,
    max_pixels: u64,
    terminated: bool,
) -> Option<Seq<char>> {
    match header {
        Err(e) => Some("decode: "@ + e),
        Ok(None) => Some("no dimensions"@),
        Ok(Some((w, h))) => if w * h > max_pixels {
            Some(
                "implausible JPEG dimensions "@ + text::decimal(w as int) + "x"@ + text::decimal(
                    h as int,
                ) + " (over "@ + text::decimal(max_pixels as int) + " pixels)"@,
            )
        } else if !terminated {
            Some("truncated JPEG stream (scan reaches no end-of-image marker)"@)
        } else {
            None
        },
    }
}

/// What a decode into a buffer of `3 * (w * h)` bytes leads to: the pixels,
/// turned to display orientation, or the reason.
pub open spec fn is_oriented(
    r: Result<(Vec<u8>, u32, u32), String>,
    decoded: Result<Vec<u8>, String>,
    w: int,
    h: int,
    orientation: u16,
) -> bool {
    match (decoded, r) {
        (Err(why), Err(e)) => e@ == "decode: "@ + why@,
        (Ok(pixels), Ok((rgb, shown_w, shown_h))) => {
            &&& (shown_w as int, shown_h as int) == orient::displayed_size(w, h, orientation)
            &&& orient::is_displayed(rgb@, pixels@, w, h, orientation)
        },
        _ => false,
    }
}

/// Take what the decoder made of a stream whose frame is `w` by `h`, and turn
/// it to display orientation.
pub fn orient_decoded(
    decoded: Result<Vec<u8>, String>,
    w: u32,
    h: u32,
    orientation: u16,
) -> (r: Result<(Vec<u8>, u32, u32), String>)
    requires
        decoded is Ok ==> decoded->Ok_0@.len() == 3 * (w * h),
    ensures
        is_oriented(r, decoded, w as int, h as int, orientation),
{
    match decoded {
        Ok(pixels) => Ok(orient::apply_orientation(pixels, w, h, orientation)),
        Err(e) => {
            let mut s = "decode: ".to_string();
            s.append(e.as_str());
            Err(s)
        },
    }
}

/// Decode a JPEG stream and apply its EXIF orientation. `max_pixels` is the
/// most that is plausible; `terminated` says whether the scan reaches an
/// end-of-image marker.
///
/// `decode` is the decoder: it is handed the stream and the size of the
/// buffer that it fills with RGB, and says why where it does not. It is not
/// called for a stream that is refused. (A stream too long for the decoder to
/// count its bytes is refused as one on which the decoder panicked.)
pub fn decode_oriented<F: Fn(&[u8], usize) -> Result<Vec<u8>, String>>(
    bytes: &[u8],
    orientation: u16,
    max_pixels: u64,
    terminated: bool,
    decode: F,
) -> (r: Result<(Vec<u8>, u32, u32), String>)
    requires
        forall|n: usize| #[trigger] call_requires(decode, (bytes, n)),
        forall|n: usize, d: Result<Vec<u8>, String>| #[trigger]
            call_ensures(decode, (bytes, n), d) && d is Ok ==> d->Ok_0@.len() == n,
    ensures
        bytes@.len() > jpeg::MAX_STREAM ==> r is Err && r->Err_0@
            == "internal error (panic) decoding image"@,
        bytes@.len() <= jpeg::MAX_STREAM ==> ({
            let header = jpeg::jpeg_header(bytes@, usize::MAX);
            match refused(header, max_pixels, terminated) {
                Some(why) => r is Err && r->Err_0@ == why,
                None => {
                    let (w, h) = header->Ok_0->0;
                    let n = 3 * (w * h);
                    if n > usize::MAX {
                        r is Err && r->Err_0@ == "dimension overflow"@
                    } else {
                        exists|d: Result<Vec<u8>, String>| #[trigger]
                            call_ensures(decode, (bytes, n as usize), d) && is_oriented(
                                r,
                                d,
                                w as int,
                                h as int,
                                orientation,
                            )
                    }
                },
            }
        }),
{
    if bytes.len() > jpeg::MAX_STREAM {
        return Err("internal error (panic) decoding image".to_string());
    }
    let sides = match jpeg::read_header(bytes, usize::MAX) {
        Ok(sides) => sides,
        Err(e) => {
            let mut s = "decode: ".to_string();
            s.append(e.as_str());
            return Err(s);
        },
    };
    let (w, h): (usize, usize) = match sides {
        Some((w, h)) => (w, h),
        None => {
            return Err("no dimensions".to_string());
        },
    };
    proof {
        assert(0 <= w * h <= 0xffff * 0xffff) by (nonlinear_arith)
            requires
                w <= 0xffff,
                h <= 0xffff,
        ;
    }
    let pixels: u64 = (w as u64) * (h as u64);
    if pixels > max_pixels {
        let mut s = "implausible JPEG dimensions ".to_string();
        s.append(text::decimal_of(w as u64).as_str());
        s.append("x");
        s.append(text::decimal_of(h as u64).as_str());
        s.append(" (over ");
        s.append(text::decimal_of(max_pixels).as_str());
        s.append(" pixels)");
        return Err(s);
    }
    if !terminated {
        return Err("truncated JPEG stream (scan reaches no end-of-image marker)".to_string());
    }
    if 3 * pixels > usize::MAX as u64 {
        return Err("dimension overflow".to_string());
    }
    let n: usize = (3 * pixels) as usize;
    let decoded = decode(bytes, n);
    assert(call_ensures(decode, (bytes, n), decoded));
    orient_decoded(decoded, w as u32, h as u32, orientation)
}

} // verus!
