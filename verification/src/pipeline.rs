//! Priority thumbnail pipeline: turns a scanned session into grid thumbs and
//! EXIF metadata on all cores.
//!
//! Queue contract: three priorities (`Visible` > `Prefetch` > `Background`),
//! background jobs run in sequential file order (card-reader friendly),
//! [`QueueState::promote`] reprioritizes queued jobs without re-enqueueing,
//! duplicates coalesce, in-flight jobs are never cancelled.
//!
//! Per image the pipeline emits `MetadataReady` and `ThumbReady` (embedded
//! preview → decode → 320 px → JPEG), or `Failed` once if the thumb path is
//! impossible — metadata failure alone does not fail an image. Cache hits
//! skip every RAW read.
//!
//! Times are nanoseconds on a clock that never goes back.
pub mod job;
pub mod laws;
pub mod rules;

use crate::cache::CachedPreview;
use crate::catalog::PickState;
use crate::exif;
use crate::exif::ExifSummary;
use crate::iptc::IptcData;
use crate::jpeg;
use crate::orient;
use crate::text;
use std::collections::HashMap;
use std::collections::HashSet;
use vstd::prelude::*;
use vstd::std_specs::hash::*;
use vstd::std_specs::iter::IteratorSpec;
use vstd::string::*;

verus! {

broadcast use group_hash_axioms;

// ---------------------------------------------------------- the controller
/// The floor of the adaptive read pool: the proven-safe value is always
/// available — network mounts must never be throttled below it.
pub const POOL_MIN_READERS: usize = 4;

/// Reads larger than this never feed the controller: a healthy medium may
/// take long over one.
pub const POOL_SAMPLE_MAX_BYTES: u64 = 2_097_152;

/// How often blocked waiters re-check for a stalled read: 100 ms.
pub const POOL_STALL_RECHECK: u64 = 100_000_000;

pub open spec fn larger(a: int, b: int) -> int {
    if a >= b {
        a
    } else {
        b
    }
}

pub open spec fn smaller(a: int, b: int) -> int {
    if a <= b {
        a
    } else {
        b
    }
}

/// Cap: growth beyond the floor is earned probe by probe, up to the number
/// of CPU cores.
pub fn pool_cap(cores: usize) -> (n: usize)
    ensures
        n == larger(cores as int, 4),
{
    if cores >= POOL_MIN_READERS {
        cores
    } else {
        POOL_MIN_READERS
    }
}

/// Pure clamp arithmetic: no clock, no threads. Grow below / shrink above
/// form a hysteresis dead-band (a single threshold ping-pongs at
/// equilibrium). +1 per fast probe, HALVE on a slow or stalled read.
#[derive(Debug, Clone, Copy, PartialEq, Eq, Structural)]
pub struct PoolController {
    pub limit: usize,
    pub floor: usize,
    pub cap: usize,
    pub grow_below: u64,
    pub shrink_above: u64,
}

impl PoolController {
    /// The limit is between the floor and the cap.
    pub open spec fn wf(self) -> bool {
        self.floor <= self.limit <= self.cap
    }

    /// The controller once one more reader is allowed.
    pub open spec fn grown(self) -> PoolController {
        PoolController { limit: smaller(self.limit + 1, self.cap as int) as usize, ..self }
    }

    /// The controller once the readers are halved.
    pub open spec fn halved(self) -> PoolController {
        PoolController { limit: larger(self.limit as int / 2, self.floor as int) as usize, ..self }
    }

    /// A maximum of readers REPLACES the adaptive cap: above the core count
    /// it raises the ceiling, and at or below the floor it also lowers the
    /// floor, so 1 pins a single reader and 4 a fixed pool of four. Without
    /// one the cap follows the cores.
    pub fn with_override(max_readers: Option<usize>, cores: usize) -> (c: PoolController)
        ensures
            c.floor == match max_readers {
                Some(n) => smaller(4, n as int),
                None => 4,
            },
            c.cap == match max_readers {
                Some(n) => n as int,
                None => larger(cores as int, 4),
            },
            c.limit == c.floor,
            c.grow_below == 200_000_000,
            c.shrink_above == 500_000_000,
            c.wf(),
    {
        let (floor, cap): (usize, usize) = match max_readers {
            Some(n) => (
                if n < POOL_MIN_READERS {
                    n
                } else {
                    POOL_MIN_READERS
                },
                n,
            ),
            None => (POOL_MIN_READERS, pool_cap(cores)),
        };
        PoolController {
            limit: floor,
            floor,
            cap,
            grow_below: 200_000_000,
            shrink_above: 500_000_000,
        }
    }

    /// Additive increase: one more reader, clamped at the cap.
    pub fn grow_one(&mut self)
        requires
            old(self).limit < usize::MAX,
        ensures
            *final(self) == old(self).grown(),
            old(self).wf() ==> final(self).wf(),
    {
        if self.limit + 1 <= self.cap {
            self.limit = self.limit + 1;
        } else {
            self.limit = self.cap;
        }
    }

    /// Multiplicative decrease, clamped at the floor.
    pub fn shrink_halve(&mut self)
        ensures
            *final(self) == old(self).halved(),
            old(self).wf() ==> final(self).wf(),
    {
        if self.limit / 2 >= self.floor {
            self.limit = self.limit / 2;
        } else {
            self.limit = self.floor;
        }
    }
}

/// A choking medium reaches the floor fast: three halvings take any limit up
/// to eight floors there.
pub proof fn lemma_three_halvings_reach_the_floor(c: PoolController)
    requires
        c.wf(),
        c.limit <= 8 * c.floor,
    ensures
        c.halved().halved().halved().limit == c.floor,
{
}

// ----------------------------------------------------------- the read pool
/// One granted read: start time, and whether it is excluded from control
/// decisions.
#[derive(Debug, Clone, Copy, PartialEq, Eq, Structural)]
pub struct ActiveRead {
    pub started: u64,
    pub excluded: bool,
}

/// The pool manager: workers ask it for release before entering a read
/// section. Shrink is non-preemptive — reads in progress always finish, the
/// slot is simply not re-released.
pub struct PoolState {
    pub controller: PoolController,
    /// EVERY in-flight read, by permit id. The stall check watches all of
    /// these, not just the probe: stuck reads never produce samples.
    pub active: HashMap<u64, ActiveRead>,
    /// Waiting tickets (priority, arrival): a freed slot goes to the least.
    pub waiters: Vec<(u8, u64)>,
    pub next_ticket: u64,
    /// Permit id of the designated probe, which paces GROWTH.
    pub probe: Option<u64>,
    /// Shrinks are throttled to one per shrink-threshold window.
    pub last_shrink: Option<u64>,
}

/// The model of a [`PoolState`].
#[verifier::ext_equal]
pub ghost struct PoolView {
    pub controller: PoolController,
    pub active: Map<u64, ActiveRead>,
    pub waiters: Seq<(u8, u64)>,
    pub next_ticket: u64,
    pub probe: Option<u64>,
    pub last_shrink: Option<u64>,
}

impl View for PoolState {
    type V = PoolView;

    open spec fn view(&self) -> PoolView {
        PoolView {
            controller: self.controller,
            active: self.active@,
            waiters: self.waiters@,
            next_ticket: self.next_ticket,
            probe: self.probe,
            last_shrink: self.last_shrink,
        }
    }
}

/// How long after `t` it is now.
pub open spec fn since(now: u64, t: u64) -> int {
    if now >= t {
        now - t
    } else {
        0
    }
}

fn elapsed(now: u64, t: u64) -> (d: u64)
    ensures
        d == since(now, t),
{
    if now >= t {
        now - t
    } else {
        0
    }
}

/// Is some read that counts older than a threshold?
pub open spec fn stuck(active: Map<u64, ActiveRead>, now: u64, threshold: int) -> bool {
    exists|id: u64|
        active.contains_key(id) && !(#[trigger] active[id]).excluded && since(
            now,
            active[id].started,
        ) > threshold
}

/// Is this the age of the oldest read that counts?
pub open spec fn is_oldest_age(active: Map<u64, ActiveRead>, now: u64, age: Option<u64>) -> bool {
    match age {
        Some(a) => {
            &&& exists|id: u64|
                active.contains_key(id) && !(#[trigger] active[id]).excluded && since(
                    now,
                    active[id].started,
                ) == a
            &&& forall|id: u64|
                active.contains_key(id) && !(#[trigger] active[id]).excluded ==> since(
                    now,
                    active[id].started,
                ) <= a
        },
        None => forall|id: u64| #[trigger] active.contains_key(id) ==> active[id].excluded,
    }
}

/// `a` goes before `b`: more urgent, or as urgent and earlier.
pub open spec fn goes_first(a: (u8, u64), b: (u8, u64)) -> bool {
    a.0 < b.0 || (a.0 == b.0 && a.1 <= b.1)
}

/// The first place of a ticket among the waiters, or their number.
pub open spec fn ticket_at(waiters: Seq<(u8, u64)>, ticket: (u8, u64)) -> int
    decreases waiters.len(),
{
    if waiters.len() == 0 {
        0
    } else if waiters[0] == ticket {
        0
    } else {
        1 + ticket_at(waiters.drop_first(), ticket)
    }
}

/// The first place of a ticket is the one with no like it in front.
pub proof fn lemma_ticket_at(waiters: Seq<(u8, u64)>, ticket: (u8, u64), k: int)
    requires
        0 <= k < waiters.len(),
        waiters[k] == ticket,
        forall|j: int| 0 <= j < k ==> #[trigger] waiters[j] != ticket,
    ensures
        ticket_at(waiters, ticket) == k,
    decreases k,
{
    if k > 0 {
        let rest = waiters.drop_first();
        assert(waiters[0] != ticket);
        assert forall|j: int| 0 <= j < k - 1 implies #[trigger] rest[j] != ticket by {
            assert(rest[j] == waiters[j + 1]);
        }
        lemma_ticket_at(rest, ticket, k - 1);
    }
}

impl PoolView {
    /// Has the last shrink been long enough ago for another?
    pub open spec fn window_open(self, now: u64) -> bool {
        self.last_shrink is None || since(now, self.last_shrink->0) > self.controller.shrink_above
    }

    /// The state once the readers are halved; the window closes where that
    /// changed anything.
    pub open spec fn shrunk(self, now: u64) -> PoolView {
        PoolView {
            controller: self.controller.halved(),
            last_shrink: if self.controller.halved().limit != self.controller.limit {
                Some(now)
            } else {
                self.last_shrink
            },
            ..self
        }
    }

    /// The state after a look for stalled reads.
    pub open spec fn stall_checked(self, now: u64) -> PoolView {
        if stuck(self.active, now, self.controller.shrink_above as int) && self.window_open(now) {
            self.shrunk(now)
        } else {
            self
        }
    }

    /// The state once a ticket waits.
    pub open spec fn waiting(self, priority: u8) -> PoolView {
        PoolView {
            waiters: self.waiters.push((priority, self.next_ticket)),
            next_ticket: (self.next_ticket + 1) as u64,
            ..self
        }
    }

    /// Is it this ticket's turn? There is a free slot, and no waiter goes
    /// before it.
    pub open spec fn may_read(self, ticket: (u8, u64)) -> bool {
        &&& self.active.dom().len() < self.controller.limit
        &&& self.waiters.contains(ticket)
        &&& forall|i: int|
            0 <= i < self.waiters.len() ==> goes_first(ticket, #[trigger] self.waiters[i])
    }

    /// The state once a ticket is granted its read.
    pub open spec fn granted(self, ticket: (u8, u64), sampled: bool, now: u64) -> PoolView {
        PoolView {
            active: self.active.insert(ticket.1, ActiveRead { started: now, excluded: false }),
            waiters: self.waiters.remove(ticket_at(self.waiters, ticket)),
            probe: if sampled && self.probe is None {
                Some(ticket.1)
            } else {
                self.probe
            },
            ..self
        }
    }

    /// The state once a read is over, and its permit given back.
    pub open spec fn released(self, id: u64, started: u64, now: u64) -> PoolView {
        let took = since(now, started);
        let counted = self.active.contains_key(id) && !self.active[id].excluded;
        let s = PoolView { active: self.active.remove(id), ..self }.stall_checked(now);
        let c = s.controller;
        if self.probe != Some(id) {
            s
        } else {
            let s = PoolView { probe: None, ..s };
            if counted && took < c.grow_below {
                // A fast probe only vouches for the medium when NO other
                // in-flight read is older than the grow threshold.
                if stuck(s.active, now, c.grow_below as int) {
                    s
                } else {
                    PoolView { controller: c.grown(), ..s }
                }
            } else if counted && took > c.shrink_above && s.window_open(now) {
                s.shrunk(now)
            } else {
                s
            }
        }
    }
}

impl PoolState {
    /// A pool with no readers.
    pub fn new(controller: PoolController) -> (s: PoolState)
        ensures
            s@ == (PoolView {
                controller,
                active: Map::empty(),
                waiters: Seq::empty(),
                next_ticket: 0,
                probe: None,
                last_shrink: None,
            }),
    {
        PoolState {
            controller,
            active: HashMap::new(),
            waiters: Vec::new(),
            next_ticket: 0,
            probe: None,
            last_shrink: None,
        }
    }

    /// The age of the oldest in-flight read that counts.
    pub fn oldest_active_age(&self, now: u64) -> (age: Option<u64>)
        ensures
            is_oldest_age(self@.active, now, age),
    {
        let mut age: Option<u64> = None;
        let ghost active = self.active@;
        for kv in it: self.active.iter()
            invariant
                it.seq() == self.active.iter().remaining(),
                active == self.active@,
                match age {
                    Some(a) => {
                        &&& exists|id: u64|
                            active.contains_key(id) && !(#[trigger] active[id]).excluded && since(
                                now,
                                active[id].started,
                            ) == a
                        &&& forall|i: int|
                            #![trigger it.seq()[i]]
                            0 <= i < it.index() && !it.seq()[i].1.excluded ==> since(
                                now,
                                it.seq()[i].1.started,
                            ) <= a
                    },
                    None => forall|i: int|
                        #![trigger it.seq()[i]]
                        0 <= i < it.index() ==> it.seq()[i].1.excluded,
                },
        {
            let (k, read) = kv;
            assert(it.seq()[it.index()] == (k, read));
            assert(active.contains_key(*it.seq()[it.index()].0));
            assert(active[*k] == *read);
            if !read.excluded {
                let old: u64 = elapsed(now, read.started);
                age =
                match age {
                    Some(a) => if old > a {
                        Some(old)
                    } else {
                        Some(a)
                    },
                    None => Some(old),
                };
            }
        }
        proof {
            let all = self.active.iter().remaining();
            assert forall|id: u64| #[trigger] active.contains_key(id) implies exists|i: int|
                0 <= i < all.len() && *(#[trigger] all[i]).0 == id && *all[i].1 == active[id] by {
                assert(all.contains((&id, &active[id])));
                let i = choose|i: int| 0 <= i < all.len() && all[i] == (&id, &active[id]);
                assert(*all[i].0 == id);
            }
        }
        age
    }

    /// Has the last shrink been long enough ago for another?
    pub fn shrink_window_open(&self, now: u64) -> (r: bool)
        ensures
            r == self@.window_open(now),
    {
        match self.last_shrink {
            None => true,
            Some(t) => elapsed(now, t) > self.controller.shrink_above,
        }
    }

    fn shrink(&mut self, now: u64)
        ensures
            final(self)@ == old(self)@.shrunk(now),
    {
        let before: usize = self.controller.limit;
        self.controller.shrink_halve();
        if self.controller.limit != before {
            self.last_shrink = Some(now);
        }
    }

    /// Stall shrink: an in-flight read that counts exceeding the shrink
    /// threshold halves the limit — decided WITHOUT waiting for any
    /// completion, at most once per window.
    pub fn check_stall(&mut self, now: u64)
        ensures
            final(self)@ == old(self)@.stall_checked(now),
    {
        let age: u64 = match self.oldest_active_age(now) {
            Some(age) => age,
            None => {
                return ;
            },
        };
        if age <= self.controller.shrink_above || !self.shrink_window_open(now) {
            return ;
        }
        self.shrink(now);
    }

    /// Wait for release at `priority` (lower = more urgent): the ticket.
    pub fn enqueue(&mut self, priority: u8) -> (ticket: (u8, u64))
        requires
            old(self).next_ticket < u64::MAX,
        ensures
            final(self)@ == old(self)@.waiting(priority),
            ticket == (priority, old(self).next_ticket),
    {
        let ticket = (priority, self.next_ticket);
        self.next_ticket = self.next_ticket + 1;
        self.waiters.push(ticket);
        ticket
    }

    fn is_head(&self, ticket: (u8, u64)) -> (r: Option<usize>)
        ensures
            match r {
                Some(k) => k < self.waiters@.len() && k == ticket_at(self.waiters@, ticket)
                    && self.waiters@.contains(ticket) && forall|i: int|
                    0 <= i < self.waiters@.len() ==> goes_first(ticket, #[trigger] self.waiters@[i]),
                None => !self.waiters@.contains(ticket) || !(forall|i: int|
                    0 <= i < self.waiters@.len() ==> goes_first(
                        ticket,
                        #[trigger] self.waiters@[i],
                    )),
            },
    {
        let mut at: Option<usize> = None;
        let mut i: usize = 0;
        while i < self.waiters.len()
            invariant
                i <= self.waiters@.len(),
                forall|j: int| 0 <= j < i ==> goes_first(ticket, #[trigger] self.waiters@[j]),
                match at {
                    Some(k) => k < i && self.waiters@[k as int] == ticket && forall|j: int|
                        0 <= j < k ==> #[trigger] self.waiters@[j] != ticket,
                    None => forall|j: int| 0 <= j < i ==> #[trigger] self.waiters@[j] != ticket,
                },
            decreases self.waiters@.len() - i,
        {
            let other = self.waiters[i];
            let first: bool = ticket.0 < other.0 || (ticket.0 == other.0 && ticket.1 <= other.1);
            if !first {
                return None;
            }
            if at.is_none() && ticket.0 == other.0 && ticket.1 == other.1 {
                at = Some(i);
            }
            i = i + 1;
        }
        proof {
            match at {
                Some(k) => {
                    assert(self.waiters@.contains(ticket)) by {
                        assert(self.waiters@[k as int] == ticket);
                    }
                    lemma_ticket_at(self.waiters@, ticket, k as int);
                },
                None => {},
            }
        }
        at
    }

    /// Grant a waiting ticket its read, if it is its turn: there is a free
    /// slot, and no waiter goes before it. `sampled` marks a preview-read
    /// section eligible to become the probe.
    pub fn try_acquire(&mut self, ticket: (u8, u64), sampled: bool, now: u64) -> (granted: bool)
        ensures
            ({
                let s = old(self)@.stall_checked(now);
                &&& granted == s.may_read(ticket)
                &&& final(self)@ == if granted {
                    s.granted(ticket, sampled, now)
                } else {
                    s
                }
            }),
    {
        self.check_stall(now);
        if self.active.len() >= self.controller.limit {
            return false;
        }
        match self.is_head(ticket) {
            None => false,
            Some(k) => {
                let ghost s = self@;
                self.waiters.remove(k);
                self.active.insert(ticket.1, ActiveRead { started: now, excluded: false });
                if sampled && self.probe.is_none() {
                    self.probe = Some(ticket.1);
                }
                assert(self@ =~= s.granted(ticket, sampled, now));
                true
            },
        }
    }

    /// Payload size, once known (before the bulk read): more than 2 MB
    /// excludes this read from ALL control decisions — growth, shrink, and
    /// stall alike.
    pub fn set_bytes(&mut self, id: u64, bytes: u64)
        ensures
            final(self)@ == (PoolView {
                active: if bytes > 2_097_152 && old(self)@.active.contains_key(id) {
                    old(self)@.active.insert(
                        id,
                        ActiveRead { started: old(self)@.active[id].started, excluded: true },
                    )
                } else {
                    old(self)@.active
                },
                ..old(self)@
            }),
    {
        if bytes > POOL_SAMPLE_MAX_BYTES {
            let started: Option<u64> = match self.active.get(&id) {
                Some(read) => Some(read.started),
                None => None,
            };
            match started {
                Some(started) => {
                    self.active.insert(id, ActiveRead { started, excluded: true });
                },
                None => {},
            }
        }
    }

    /// A read is over. Every release looks for stalled reads; the probe's
    /// own release decides on growth or shrink.
    pub fn release(&mut self, id: u64, started: u64, now: u64)
        requires
            old(self).controller.limit < usize::MAX,
            old(self).controller.floor < usize::MAX,
        ensures
            final(self)@ == old(self)@.released(id, started, now),
    {
        let took: u64 = elapsed(now, started);
        let counted: bool = match self.active.remove(&id) {
            Some(read) => !read.excluded,
            None => false,
        };
        self.check_stall(now);
        let probing: bool = match self.probe {
            Some(p) => p == id,
            None => false,
        };
        if !probing {
            return ;
        }
        self.probe = None;
        if counted && took < self.controller.grow_below {
            let blocked: bool = match self.oldest_active_age(now) {
                Some(age) => age > self.controller.grow_below,
                None => false,
            };
            if !blocked {
                self.controller.grow_one();
            }
        } else if counted && took > self.controller.shrink_above && self.shrink_window_open(now) {
            self.shrink(now);
        }
    }
}

// --------------------------------------------------------------- the queue
/// Grid thumbnails: long edge in pixels.
pub const THUMB_LONG_EDGE: u32 = 320;

/// Grid thumbnails: JPEG re-encode quality.
pub const THUMB_JPEG_QUALITY: u8 = 80;

#[derive(Debug, Clone, Copy, PartialEq, Eq, PartialOrd, Ord, Structural)]
pub enum Priority {
    Visible,
    Prefetch,
    Background,
}

impl Priority {
    /// The number of a priority: lower is more urgent.
    pub open spec fn rank(self) -> u8 {
        match self {
            Priority::Visible => 0,
            Priority::Prefetch => 1,
            Priority::Background => 2,
        }
    }

    pub fn number(self) -> (n: u8)
        ensures
            n == self.rank(),
    {
        match self {
            Priority::Visible => 0,
            Priority::Prefetch => 1,
            Priority::Background => 2,
        }
    }
}

/// What the pipeline needs to know about one image.
#[derive(Debug, Clone)]
pub struct JobSpec {
    pub path: String,
    pub size: u64,
    /// Modification time, in nanoseconds since 1970.
    pub mtime: Option<i128>,
}

/// One entry of the queue: priority, arrival, job.
pub type Ticket = (u8, u64, usize);

/// The jobs that wait, and those under way.
pub struct QueueState {
    /// Entries that disagree with `queued` are stale and skipped.
    pub heap: Vec<Ticket>,
    /// Source of truth for each queued job's current priority. Absence means
    /// done or in flight.
    pub queued: HashMap<usize, u8>,
    pub in_flight: HashSet<usize>,
    pub next_seq: u64,
}

/// The model of a [`QueueState`].
#[verifier::ext_equal]
pub ghost struct QueueView {
    pub heap: Seq<Ticket>,
    pub queued: Map<usize, u8>,
    pub in_flight: Set<usize>,
    pub next_seq: u64,
}

impl View for QueueState {
    type V = QueueView;

    open spec fn view(&self) -> QueueView {
        QueueView {
            heap: self.heap@,
            queued: self.queued@,
            in_flight: self.in_flight@,
            next_seq: self.next_seq,
        }
    }
}

/// `a` is taken before `b`, or is the same entry.
pub open spec fn taken_first(a: Ticket, b: Ticket) -> bool {
    a.0 < b.0 || (a.0 == b.0 && (a.1 < b.1 || (a.1 == b.1 && a.2 <= b.2)))
}

/// The place of the entry that is taken first, of the first `n`.
pub open spec fn least(heap: Seq<Ticket>, n: int) -> int
    decreases n,
{
    if n <= 1 {
        0
    } else {
        let k = least(heap, n - 1);
        if taken_first(heap[k], heap[n - 1]) {
            k
        } else {
            n - 1
        }
    }
}

fn least_at(heap: &Vec<Ticket>) -> (k: usize)
    requires
        heap@.len() > 0,
    ensures
        k == least(heap@, heap@.len() as int),
        k < heap@.len(),
{
    let mut k: usize = 0;
    let mut i: usize = 1;
    while i < heap.len()
        invariant
            1 <= i <= heap@.len(),
            k < i,
            k == least(heap@, i as int),
        decreases heap@.len() - i,
    {
        let a = heap[k];
        let b = heap[i];
        let first: bool = a.0 < b.0 || (a.0 == b.0 && (a.1 < b.1 || (a.1 == b.1 && a.2 <= b.2)));
        if !first {
            k = i;
        }
        i = i + 1;
    }
    k
}

impl QueueView {
    /// The state once the first `n` jobs wait, in file order.
    pub open spec fn filled(n: int) -> QueueView {
        QueueView {
            heap: Seq::new(n as nat, |i: int| (2u8, i as u64, i as usize)),
            queued: Map::new(|i: usize| i < n, |i: usize| 2u8),
            in_flight: Set::empty(),
            next_seq: n as u64,
        }
    }

    /// The state once one job is promoted: where it waits at a lower
    /// urgency, it gets a new entry.
    pub open spec fn promoted_one(self, index: usize, priority: u8) -> QueueView {
        if self.queued.contains_key(index) && priority < self.queued[index] {
            QueueView {
                heap: self.heap.push((priority, self.next_seq, index)),
                queued: self.queued.insert(index, priority),
                next_seq: (self.next_seq + 1) as u64,
                ..self
            }
        } else {
            self
        }
    }

    /// The state once some jobs are promoted, one after the other.
    pub open spec fn promoted(self, indexes: Seq<usize>, priority: u8) -> QueueView
        decreases indexes.len(),
    {
        if indexes.len() == 0 {
            self
        } else {
            self.promoted(indexes.drop_last(), priority).promoted_one(indexes.last(), priority)
        }
    }

    /// The job to run next, with its priority, and the state it leaves:
    /// entries are taken in order, and stale ones dropped.
    pub open spec fn popped(self) -> (Option<(usize, u8)>, QueueView)
        decreases self.heap.len(),
    {
        if self.heap.len() == 0 {
            (None, self)
        } else {
            let k = least(self.heap, self.heap.len() as int);
            let (priority, _, index) = self.heap[k];
            let rest = QueueView { heap: self.heap.remove(k), ..self };
            if !(0 <= k < self.heap.len()) {
                (None, self)
            } else if self.queued.contains_key(index) && self.queued[index] == priority {
                (
                    Some((index, priority)),
                    QueueView {
                        queued: self.queued.remove(index),
                        in_flight: self.in_flight.insert(index),
                        ..rest
                    },
                )
            } else {
                rest.popped()
            }
        }
    }
}

impl QueueState {
    /// All of `n` jobs wait, at `Background` priority in list order.
    pub fn start(n: usize) -> (s: QueueState)
        ensures
            s@ == QueueView::filled(n as int),
    {
        let mut s = QueueState {
            heap: Vec::new(),
            queued: HashMap::new(),
            in_flight: HashSet::new(),
            next_seq: 0,
        };
        assert(s@ =~= QueueView::filled(0));
        let mut i: usize = 0;
        while i < n
            invariant
                i <= n,
                s@ == QueueView::filled(i as int),
            decreases n - i,
        {
            let p: u8 = Priority::Background.number();
            s.heap.push((p, s.next_seq, i));
            s.queued.insert(i, p);
            s.next_seq = i as u64 + 1;
            assert(s@ =~= QueueView::filled(i + 1));
            i = i + 1;
        }
        s
    }

    /// Promote `indexes` to `priority`. Completed and in-flight jobs are
    /// skipped; queued jobs are reprioritized (never duplicated in effect).
    /// Lowering a priority is intentionally impossible — a job that was once
    /// visible stays at its highest requested urgency.
    pub fn promote(&mut self, indexes: &[usize], priority: Priority)
        requires
            old(self).next_seq + indexes@.len() <= u64::MAX,
        ensures
            final(self)@ == old(self)@.promoted(indexes@, priority.rank()),
    {
        let p: u8 = priority.number();
        let mut i: usize = 0;
        let ghost s = self@;
        assert(indexes@.take(0) =~= Seq::empty());
        while i < indexes.len()
            invariant
                i <= indexes@.len(),
                p == priority.rank(),
                s == old(self)@,
                s.next_seq + indexes@.len() <= u64::MAX,
                self.next_seq <= s.next_seq + i,
                self@ == s.promoted(indexes@.take(i as int), p),
            decreases indexes@.len() - i,
        {
            let index: usize = indexes[i];
            let ghost t = indexes@.take(i + 1);
            assert(t.drop_last() =~= indexes@.take(i as int));
            assert(t.last() == index);
            let ghost had = self@;
            let lower: bool = match self.queued.get(&index) {
                Some(current) => p < *current,
                None => false,
            };
            if lower {
                self.queued.insert(index, p);
                self.heap.push((p, self.next_seq, index));
                self.next_seq = self.next_seq + 1;
            }
            assert(self@ =~= had.promoted_one(index, p));
            i = i + 1;
        }
        assert(indexes@.take(i as int) =~= indexes@);
    }

    /// The viewport changed: everything in `start..end` becomes `Visible`.
    pub fn set_visible(&mut self, start: usize, end: usize)
        requires
            start <= end ==> old(self).next_seq + (end - start) <= u64::MAX,
        ensures
            final(self)@ == old(self)@.promoted(
                Seq::new(
                    (if start <= end {
                        end - start
                    } else {
                        0
                    }) as nat,
                    |i: int| (start + i) as usize,
                ),
                0,
            ),
    {
        let mut range: Vec<usize> = Vec::new();
        let mut i: usize = start;
        while i < end
            invariant
                start <= end ==> start <= i <= end,
                start > end ==> i == start,
                range@.len() == i - start,
                forall|j: int| 0 <= j < range@.len() ==> #[trigger] range@[j] == start + j,
            decreases end - i,
        {
            range.push(i);
            i = i + 1;
        }
        assert(range@ =~= Seq::new(
            (if start <= end {
                end - start
            } else {
                0
            }) as nat,
            |i: int| (start + i) as usize,
        ));
        self.promote(range.as_slice(), Priority::Visible);
    }

    /// Take the job to run next, with its priority: the most urgent, and of
    /// equally urgent ones the first to arrive.
    pub fn take_next(&mut self) -> (r: Option<(usize, u8)>)
        ensures
            old(self)@.popped() == (r, final(self)@),
    {
        let ghost whole = self@.popped();
        while self.heap.len() > 0
            invariant
                whole == self@.popped(),
                whole == old(self)@.popped(),
            decreases self.heap@.len(),
        {
            let ghost had = self@;
            let k: usize = least_at(&self.heap);
            let (priority, _, index) = self.heap.remove(k);
            let live: bool = match self.queued.get(&index) {
                Some(p) => *p == priority,
                None => false,
            };
            assert(self@ =~= (QueueView { heap: had.heap.remove(k as int), ..had }));
            if live {
                self.queued.remove(&index);
                self.in_flight.insert(index);
                assert(self@ =~= whole.1);
                return Some((index, priority));
            }
        }
        None
    }

    /// A job is done.
    pub fn finish(&mut self, index: usize)
        ensures
            final(self)@ == (QueueView {
                in_flight: old(self)@.in_flight.remove(index),
                ..old(self)@
            }),
    {
        self.in_flight.remove(&index);
    }
}

// ---------------------------------------------------------------- the jobs
/// Progress events. Indexes refer to the job list.
#[derive(Debug, Clone, PartialEq, Eq)]
pub enum SessionEvent {
    MetadataReady { index: usize, exif: ExifSummary, from_cache: bool },
    ThumbReady {
        index: usize,
        thumb_jpeg: Vec<u8>,
        width: u32,
        height: u32,
        from_cache: bool,
    },
    Failed { index: usize, reason: String },
    /// A pre-existing sidecar was found at load: picks and the full IPTC
    /// state from a previous session (or another tool) reappear.
    Sidecar { index: usize, pick: PickState, iptc: Box<IptcData> },
}

/// The sides that fit a long edge: never enlarged, never below one pixel.
pub open spec fn fitted(w: int, h: int, long_edge: int) -> (int, int) {
    if w <= long_edge && h <= long_edge {
        (w, h)
    } else if w >= h {
        (long_edge, larger(h * long_edge / w, 1))
    } else {
        (larger(w * long_edge / h, 1), long_edge)
    }
}

/// Scale a size so that its long edge is `long_edge`, keeping the aspect.
pub fn fit_long_edge(w: u32, h: u32, long_edge: u32) -> (r: (u32, u32))
    ensures
        (r.0 as int, r.1 as int) == fitted(w as int, h as int, long_edge as int),
{
    if w <= long_edge && h <= long_edge {
        return (w, h);
    }
    if w >= h {
        let scaled: u64 = scale(h, long_edge, w);
        (
            long_edge,
            if scaled >= 1 {
                scaled as u32
            } else {
                1
            },
        )
    } else {
        let scaled: u64 = scale(w, long_edge, h);
        (
            if scaled >= 1 {
                scaled as u32
            } else {
                1
            },
            long_edge,
        )
    }
}

fn scale(side: u32, long_edge: u32, longest: u32) -> (n: u64)
    requires
        0 < longest,
        side <= longest,
    ensures
        n == side * long_edge / longest as int,
        n <= long_edge,
{
    assert(side * long_edge <= 0xffff_ffff * 0xffff_ffff) by (nonlinear_arith)
        requires
            side <= 0xffff_ffff,
            long_edge <= 0xffff_ffff,
    ;
    assert(side * long_edge / longest as int <= long_edge) by (nonlinear_arith)
        requires
            0 < longest,
            side <= longest,
            0 <= long_edge,
            0 <= side,
    ;
    side as u64 * long_edge as u64 / longest as u64
}

/// The sides of an in-memory JPEG, from its headers (for cached thumbs).
pub fn jpeg_dimensions(bytes: &[u8]) -> (r: Option<(u32, u32)>)
    ensures
        match jpeg::sides_of(bytes@) {
            Some((w, h)) => r == Some((w as u32, h as u32)),
            None => r is None,
        },
{
    if bytes.len() > jpeg::MAX_STREAM {
        return None;
    }
    match jpeg::read_header(bytes, jpeg::USUAL_MAX_SIDE) {
        Ok(Some((w, h))) => Some((w as u32, h as u32)),
        Ok(None) => None,
        Err(_) => None,
    }
}

/// The pixels that a thumbnail is made of, and its size: what was decoded,
/// turned to display orientation.
pub struct ThumbSource {
    pub pixels: Vec<u8>,
    pub width: u32,
    pub height: u32,
    pub thumb_width: u32,
    pub thumb_height: u32,
}

/// Three bytes to each pixel: where there is one, it is all three.
pub open spec fn in_rgb(pixels: Seq<u8>, w: int, h: int) -> Seq<u8> {
    if pixels.len() == w * h {
        Seq::new(3 * pixels.len(), |i: int| pixels[i / 3])
    } else {
        pixels
    }
}

fn widen(pixels: Vec<u8>) -> (rgb: Vec<u8>)
    ensures
        rgb@ == Seq::new(3 * pixels@.len(), |i: int| pixels@[i / 3]),
{
    let mut rgb: Vec<u8> = Vec::new();
    let mut i: usize = 0;
    while i < pixels.len()
        invariant
            i <= pixels@.len(),
            rgb@.len() == 3 * i,
            forall|j: int| 0 <= j < 3 * i ==> #[trigger] rgb@[j] == pixels@[j / 3],
        decreases pixels@.len() - i,
    {
        let v: u8 = pixels[i];
        rgb.push(v);
        rgb.push(v);
        rgb.push(v);
        i = i + 1;
    }
    assert(rgb@ =~= Seq::new(3 * pixels@.len(), |i: int| pixels@[i / 3]));
    rgb
}

/// Turn decoded pixels (of `w` by `h`) to display orientation, and fit the
/// thumbnail. Gray pixels, of one byte each, are widened to three. Pixels
/// that are neither stay as they are: the resizer refuses them.
pub fn thumb_source(pixels: Vec<u8>, w: u32, h: u32, orientation: u16) -> (s: ThumbSource)
    ensures
        ({
            let rgb = in_rgb(pixels@, w as int, h as int);
            if rgb.len() == 3 * (w * h) {
                &&& (s.width as int, s.height as int) == orient::displayed_size(
                    w as int,
                    h as int,
                    orientation,
                )
                &&& orient::is_displayed(s.pixels@, rgb, w as int, h as int, orientation)
            } else {
                &&& (s.width, s.height) == (w, h)
                &&& s.pixels@ == rgb
            }
        }),
        (s.thumb_width as int, s.thumb_height as int) == fitted(
            s.width as int,
            s.height as int,
            320,
        ),
        s.thumb_width <= 320,
        s.thumb_height <= 320,
{
    assert(w * h <= 0xffff_ffff * 0xffff_ffff) by (nonlinear_arith)
        requires
            w <= 0xffff_ffff,
            h <= 0xffff_ffff,
    ;
    proof {
        lemma_fitted_within(w as int, h as int);
        lemma_fitted_within(h as int, w as int);
    }
    let n: u128 = w as u128 * h as u128;
    let rgb: Vec<u8> = if pixels.len() as u128 == n {
        widen(pixels)
    } else {
        pixels
    };
    if rgb.len() as u128 == 3 * n {
        let (turned, width, height) = orient::apply_orientation(rgb, w, h, orientation);
        let (thumb_width, thumb_height) = fit_long_edge(width, height, THUMB_LONG_EDGE);
        ThumbSource { pixels: turned, width, height, thumb_width, thumb_height }
    } else {
        let (thumb_width, thumb_height) = fit_long_edge(w, h, THUMB_LONG_EDGE);
        ThumbSource { pixels: rgb, width: w, height: h, thumb_width, thumb_height }
    }
}

impl ThumbSource {
    /// These may be the pixels of the thumb: the source's, resized; and its
    /// own where it is small enough.
    pub open spec fn has_thumb(self, rgb: Seq<u8>) -> bool {
        &&& jpeg::is_resized(
            self.pixels@,
            self.width,
            self.height,
            self.thumb_width,
            self.thumb_height,
            rgb,
        )
        &&& self.thumb_width == self.width && self.thumb_height == self.height ==> rgb
            == self.pixels@.take(3 * (self.width * self.height))
    }
}

/// `out` is the JPEG stream of these RGB pixels, at the quality of a thumb.
pub open spec fn is_thumb(out: Seq<u8>, rgb: Seq<u8>, w: u32, h: u32) -> bool {
    &&& rgb.len() == 3 * (w * h)
    &&& jpeg::jpeg_encoded(rgb, w as u16, h as u16, 80) == Ok::<Seq<u8>, Seq<char>>(out)
}

/// Encode the pixels of a thumbnail.
pub fn encode_thumb(rgb: &[u8], w: u32, h: u32) -> (r: Result<(Vec<u8>, u32, u32), String>)
    requires
        w <= 65535,
        h <= 65535,
        3 * (w * h) <= usize::MAX,
    ensures
        (r is Ok) == (w > 0 && h > 0 && rgb@.len() >= 3 * (w * h)),
        match r {
            Ok(t) => (t.1, t.2) == (w, h) && jpeg::jpeg_encoded(rgb@, w as u16, h as u16, 80)
                == Ok::<Seq<u8>, Seq<char>>(t.0@),
            Err(e) => jpeg::jpeg_encoded(rgb@, w as u16, h as u16, 80) is Err && e@ == "encode: "@
                + jpeg::jpeg_encoded(rgb@, w as u16, h as u16, 80)->Err_0,
        },
{
    match jpeg::encode_rgb(rgb, w as u16, h as u16, THUMB_JPEG_QUALITY) {
        Ok(out) => Ok((out, w, h)),
        Err(e) => {
            let mut t = "encode: ".to_string();
            t.append(e.as_str());
            Err(t)
        },
    }
}

/// Resize to the thumbnail, and encode it.
pub fn thumb_from(s: ThumbSource) -> (r: Result<(Vec<u8>, u32, u32), String>)
    requires
        1 <= s.width <= 65535,
        1 <= s.height <= 65535,
        3 * (s.width * s.height) <= isize::MAX,
        (s.thumb_width as int, s.thumb_height as int) == fitted(
            s.width as int,
            s.height as int,
            320,
        ),
    ensures
        match r {
            Ok(t) => {
                &&& s.pixels@.len() >= 3 * (s.width * s.height)
                &&& (t.1, t.2) == (s.thumb_width, s.thumb_height)
                &&& exists|rgb: Seq<u8>|
                    s.has_thumb(rgb) && #[trigger] is_thumb(t.0@, rgb, t.1, t.2)
            },
            Err(e) => s.pixels@.len() < 3 * (s.width * s.height) && e@
                == "resize input: Size of buffer is smaller than required"@,
        },
{
    let (w, h) = (s.thumb_width, s.thumb_height);
    let (full_w, full_h) = (s.width, s.height);
    proof {
        lemma_fitted_within(full_w as int, full_h as int);
        assert(w * h <= 320 * 320) by (nonlinear_arith)
            requires
                w <= 320,
                h <= 320,
        ;
    }
    let ghost pixels = s.pixels@;
    let rgb = match jpeg::resize_rgb(s.pixels, full_w, full_h, w, h) {
        Ok(rgb) => rgb,
        Err(jpeg::Refusal::Source(e)) => {
            let mut t = "resize input: ".to_string();
            t.append(e.as_str());
            proof {
                reveal_strlit("resize input: ");
                reveal_strlit("Size of buffer is smaller than required");
                reveal_strlit("resize input: Size of buffer is smaller than required");
                assert(t@ =~= "resize input: Size of buffer is smaller than required"@);
            }
            return Err(t);
        },
        Err(jpeg::Refusal::Resize(e)) => {
            let mut t = "resize: ".to_string();
            t.append(e.as_str());
            return Err(t);
        },
    };
    // Neither side is zero and no byte is missing.
    let r = encode_thumb(rgb.as_slice(), w, h);
    proof {
        let thumb = r->Ok_0;
        assert(s.has_thumb(rgb@) && is_thumb(thumb.0@, rgb@, thumb.1, thumb.2));
    }
    r
}

proof fn lemma_fitted_within(w: int, h: int)
    requires
        0 <= w,
        0 <= h,
    ensures
        fitted(w, h, 320).0 <= 320,
        fitted(w, h, 320).1 <= 320,
        1 <= w && 1 <= h ==> 1 <= fitted(w, h, 320).0 && 1 <= fitted(w, h, 320).1,
{
    if w <= 320 && h <= 320 {
    } else if w >= h {
        assert(h * 320 / w <= 320) by (nonlinear_arith)
            requires
                0 <= h <= w,
                0 < w,
        ;
    } else {
        assert(w * 320 / h <= 320) by (nonlinear_arith)
            requires
                0 <= w <= h,
                0 < h,
        ;
    }
}

/// `out` is a thumb of `tw` by `th` pixels: the JPEG stream of `thumb`, which
/// are the RGB pixels of a preview, turned to display orientation and
/// resized. They are the turned ones themselves where the preview is small
/// enough. (Pixels past the last one are not looked at.)
pub open spec fn is_preview_thumb(
    out: Seq<u8>,
    rgb: Seq<u8>,
    w: int,
    h: int,
    orientation: u16,
    turned: Seq<u8>,
    thumb: Seq<u8>,
    tw: u32,
    th: u32,
) -> bool {
    let (dw, dh) = if rgb.len() == 3 * (w * h) {
        orient::displayed_size(w, h, orientation)
    } else {
        (w, h)
    };
    &&& (tw as int, th as int) == fitted(dw, dh, 320)
    &&& if rgb.len() == 3 * (w * h) {
        orient::is_displayed(turned, rgb, w, h, orientation)
    } else {
        turned == rgb
    }
    &&& jpeg::is_resized(turned, dw as u32, dh as u32, tw, th, thumb)
    &&& (tw as int, th as int) == (dw, dh) ==> thumb == turned.take(3 * (dw * dh))
    &&& is_thumb(out, thumb, tw, th)
}

/// What a decode of a preview of `w` by `h` leads to: a thumb where there are
/// three bytes to each pixel, or one; the resizer's refusal where there are
/// fewer than three and not one; and the decoder's where it gave nothing.
pub open spec fn is_made_of(
    r: Result<(Vec<u8>, u32, u32), String>,
    decoded: Result<Vec<u8>, String>,
    w: int,
    h: int,
    orientation: u16,
) -> bool {
    match decoded {
        Err(why) => r is Err && r->Err_0@ == "decode: "@ + why@,
        Ok(pixels) => {
            let rgb = in_rgb(pixels@, w, h);
            match r {
                Ok(t) => rgb.len() >= 3 * (w * h) && exists|turned: Seq<u8>, thumb: Seq<u8>|
                    is_preview_thumb(t.0@, rgb, w, h, orientation, turned, thumb, t.1, t.2),
                Err(e) => rgb.len() < 3 * (w * h) && e@
                    == "resize input: Size of buffer is smaller than required"@,
            }
        },
    }
}

/// Make the thumb of what the decoder made of a preview of `w` by `h`.
pub fn thumb_of_decoded(
    decoded: Result<Vec<u8>, String>,
    w: u32,
    h: u32,
    orientation: u16,
) -> (r: Result<(Vec<u8>, u32, u32), String>)
    requires
        1 <= w <= 65535,
        1 <= h <= 65535,
        3 * (w * h) <= isize::MAX,
    ensures
        is_made_of(r, decoded, w as int, h as int, orientation),
{
    let pixels = match decoded {
        Ok(pixels) => pixels,
        Err(e) => {
            let mut s = "decode: ".to_string();
            s.append(e.as_str());
            return Err(s);
        },
    };
    assert(h * w == w * h) by (nonlinear_arith);
    let ghost rgb = in_rgb(pixels@, w as int, h as int);
    let s = thumb_source(pixels, w, h, orientation);
    let ghost source = s;
    let r = thumb_from(s);
    proof {
        if r is Ok {
            let t = r->Ok_0;
            let thumb = choose|thumb: Seq<u8>|
                source.has_thumb(thumb) && #[trigger] is_thumb(t.0@, thumb, t.1, t.2);
            assert(is_preview_thumb(
                t.0@,
                rgb,
                w as int,
                h as int,
                orientation,
                source.pixels@,
                thumb,
                t.1,
                t.2,
            ));
        }
    }
    r
}

/// Decode a grid-source preview, resize to 320 px, re-encode. `terminated`
/// says whether the preview's scan reaches an end-of-image marker: a cut-off
/// preview must fail, not become a mostly-blank thumb.
///
/// `decode` is the decoder: it is handed the preview and gives its pixels, or
/// says why not. It is not called for a preview that is refused. (One too
/// long for the decoder to count its bytes is refused as one on which the
/// decoder panicked.)
pub fn make_grid_thumb<F: Fn(&[u8]) -> Result<Vec<u8>, String>>(
    preview: &[u8],
    orientation: u16,
    terminated: bool,
    decode: F,
) -> (r: Result<(Vec<u8>, u32, u32), String>)
    requires
        call_requires(decode, (preview,)),
    ensures
        !terminated ==> r is Err && r->Err_0@
            == "truncated JPEG preview (scan reaches no end-of-image marker)"@,
        terminated && preview@.len() > jpeg::MAX_STREAM ==> r is Err && r->Err_0@
            == "internal error (panic) while processing this file"@,
        terminated && preview@.len() <= jpeg::MAX_STREAM ==> match jpeg::jpeg_header(
            preview@,
            jpeg::USUAL_MAX_SIDE,
        ) {
            Err(e) => r is Err && r->Err_0@ == "decode: "@ + e,
            Ok(sides) => exists|d: Result<Vec<u8>, String>| #[trigger]
                call_ensures(decode, (preview,), d) && is_made_of(
                    r,
                    d,
                    (sides->0).0 as int,
                    (sides->0).1 as int,
                    orientation,
                ),
        },
{
    if !terminated {
        return Err("truncated JPEG preview (scan reaches no end-of-image marker)".to_string());
    }
    if preview.len() > jpeg::MAX_STREAM {
        return Err("internal error (panic) while processing this file".to_string());
    }
    let sides = match jpeg::read_header(preview, jpeg::USUAL_MAX_SIDE) {
        Ok(sides) => sides,
        Err(e) => {
            let mut s = "decode: ".to_string();
            s.append(e.as_str());
            return Err(s);
        },
    };
    let decoded = decode(preview);
    assert(call_ensures(decode, (preview,), decoded));
    let (w, h): (usize, usize) = match sides {
        Some((w, h)) => (w, h),
        None => {
            return Err("decoded JPEG reports no dimensions".to_string());
        },
    };
    assert(w * h <= 16384 * 16384) by (nonlinear_arith)
        requires
            w <= 16384,
            h <= 16384,
    ;
    thumb_of_decoded(decoded, w as u32, h as u32, orientation)
}

/// What a cache hit gives: its events, or none where the cached thumb cannot
/// be read (and is extracted anew).
pub fn cached_events(index: usize, hit: CachedPreview) -> (r: Option<(SessionEvent, SessionEvent)>)
    ensures
        match jpeg::sides_of(hit.thumb_jpeg@) {
            Some((w, h)) => r == Some(
                (
                    SessionEvent::MetadataReady { index, exif: hit.exif, from_cache: true },
                    SessionEvent::ThumbReady {
                        index,
                        thumb_jpeg: hit.thumb_jpeg,
                        width: w as u32,
                        height: h as u32,
                        from_cache: true,
                    },
                ),
            ),
            None => r is None,
        },
{
    match jpeg_dimensions(hit.thumb_jpeg.as_slice()) {
        Some((width, height)) => Some(
            (
                SessionEvent::MetadataReady { index, exif: hit.exif, from_cache: true },
                SessionEvent::ThumbReady {
                    index,
                    thumb_jpeg: hit.thumb_jpeg,
                    width,
                    height,
                    from_cache: true,
                },
            ),
        ),
        None => None,
    }
}

/// What a freshly made thumb gives: the event, or the failure.
pub fn thumb_event(index: usize, thumb: Result<(Vec<u8>, u32, u32), String>) -> (e: SessionEvent)
    ensures
        e == match thumb {
            Ok((thumb_jpeg, width, height)) => SessionEvent::ThumbReady {
                index,
                thumb_jpeg,
                width,
                height,
                from_cache: false,
            },
            Err(reason) => SessionEvent::Failed { index, reason },
        },
{
    match thumb {
        Ok((thumb_jpeg, width, height)) => SessionEvent::ThumbReady {
            index,
            thumb_jpeg,
            width,
            height,
            from_cache: false,
        },
        Err(reason) => SessionEvent::Failed { index, reason },
    }
}

/// The summary that is cached with a thumb: an empty one where the EXIF read
/// failed — the zero-RAW-reads-on-reopen guarantee outranks metadata
/// completeness.
pub fn exif_for_cache(summary: Option<ExifSummary>) -> (s: ExifSummary)
    ensures
        match summary {
            Some(e) => s == e,
            None => s@ == exif::empty_summary(),
        },
{
    match summary {
        Some(e) => e,
        None => ExifSummary::default(),
    }
}

} // verus!
