//! Burst grouping: pure functions over per-frame capture metadata. Display
//! metadata only — grouping never reorders images and has no effect on
//! picks, sidecars, or copies.
//!
//! Behavior differs by brand: Sony frames carry maker-note sequence numbers,
//! so 2-frame bursts qualify and back-to-back squeezes split on the sequence
//! RESET. Every other brand (and any Sony file with a missing/corrupt maker
//! note) uses the generic time-only path: gaps within threshold, same body,
//! run length >= `min_run`.
use crate::civil;
use crate::exif;
use crate::order;
use crate::text;
use vstd::prelude::*;
use vstd::string::*;

pub mod laws;

verus! {

/// Per-frame input, in CAPTURE-TIME order.
#[derive(Clone, Debug)]
pub struct FrameMeta {
    /// Capture instant in milliseconds (any epoch — only gaps matter).
    /// None = no usable timestamp: the frame never joins a group.
    pub time_ms: Option<i64>,
    /// True when SubSecTime contributed (millisecond precision). Without
    /// it timestamps have 1 s granularity and the gap threshold widens.
    pub has_subsec: bool,
    /// Camera identity for the generic path (EXIF serial, else model).
    pub camera: Option<String>,
    /// Sony maker-note SequenceNumber: 0 = single shot, >=1 = position
    /// in a burst. None = tag absent (generic path).
    pub seq: Option<u32>,
}

impl Default for FrameMeta {
    fn default() -> (f: FrameMeta)
        ensures
            f == (FrameMeta { time_ms: None, has_subsec: false, camera: None, seq: None }),
    {
        FrameMeta { time_ms: None, has_subsec: false, camera: None, seq: None }
    }
}

// ---------------------------------------------------------------- the clock
/// The number that a 64-bit signed integer can hold.
pub open spec fn fits(n: int) -> bool {
    i64::MIN <= n <= i64::MAX
}

/// What a sort key says.
#[derive(Clone, Copy, Debug, PartialEq, Eq, Structural)]
pub enum KeyReading {
    /// It is no sort key.
    Unreadable,
    /// It has a key's shape, but its numbers are beyond the clock.
    OutOfRange,
    /// The instant, in milliseconds.
    At(i64),
}

/// The number in the `k`-th piece between colons.
pub open spec fn piece_number(s: Seq<char>, k: nat) -> Option<i64> {
    match text::piece(s, k) {
        Some(p) => text::int_of(p),
        None => None,
    }
}

/// Three numbers between colons; further pieces do not matter.
pub open spec fn three_numbers(s: Seq<char>) -> Option<(i64, i64, i64)> {
    match (piece_number(s, 0), piece_number(s, 1), piece_number(s, 2)) {
        (Some(a), Some(b), Some(c)) => Some((a, b, c)),
        _ => None,
    }
}

/// Milliseconds padded with zeros on the right to three characters.
pub open spec fn padded_millis(s: Seq<char>) -> Seq<char> {
    if s.len() >= 3 {
        s
    } else {
        s + Seq::new((3 - s.len()) as nat, |i: int| '0')
    }
}

/// The number in the first three characters, where they are ASCII.
pub open spec fn millis_number(padded: Seq<char>) -> Option<i64> {
    if vstd::utf8::is_ascii_chars(padded.take(3)) {
        text::int_of(padded.take(3))
    } else {
        None
    }
}

/// Every step of the date arithmetic stays within 64 bits.
pub open spec fn clock_fits(
    y: int,
    m: int,
    d: int,
    h: int,
    min: int,
    s: int,
    ms: int,
) -> bool {
    let ya = civil::march_year(y, m);
    let era = ya / 400;
    let yoe = ya - era * 400;
    let base = civil::month_start(m);
    let year_days = yoe * 365 + yoe / 4 - yoe / 100;
    let days = civil::days_from_civil(y, m, d);
    &&& fits(ya)
    &&& fits(era * 400)
    &&& fits(m + 9)
    &&& fits(base + d)
    &&& fits(base + d - 1)
    &&& fits(year_days + (base + d - 1))
    &&& fits(era * 146097)
    &&& fits(era * 146097 + (year_days + (base + d - 1)))
    &&& fits(days)
    &&& fits(days * 24)
    &&& fits(days * 24 + h)
    &&& fits((days * 24 + h) * 60)
    &&& fits((days * 24 + h) * 60 + min)
    &&& fits(((days * 24 + h) * 60 + min) * 60)
    &&& fits(((days * 24 + h) * 60 + min) * 60 + s)
    &&& fits((((days * 24 + h) * 60 + min) * 60 + s) * 1000)
    &&& fits((((days * 24 + h) * 60 + min) * 60 + s) * 1000 + ms)
}

/// Milliseconds since the epoch.
pub open spec fn clock_ms(y: int, m: int, d: int, h: int, min: int, s: int, ms: int) -> int {
    (((civil::days_from_civil(y, m, d) * 24 + h) * 60 + min) * 60 + s) * 1000 + ms
}

/// What the key `"YYYY:MM:DD HH:MM:SS.mmm"` says.
pub open spec fn reading_of(key: Seq<char>) -> KeyReading {
    let sp = text::find(key, ' ');
    let time = key.skip(sp + 1);
    let dot = text::find(time, '.');
    let millis = padded_millis(
        if dot < time.len() {
            time.skip(dot + 1)
        } else {
            seq!['0']
        },
    );
    if sp >= key.len() {
        KeyReading::Unreadable
    } else {
        match (three_numbers(key.take(sp)), three_numbers(time.take(dot))) {
            (Some((y, m, d)), Some((h, min, s))) => {
                // The third byte has to end a character.
                if !vstd::utf8::is_char_boundary(vstd::utf8::encode_utf8(millis), 3) {
                    KeyReading::OutOfRange
                } else {
                    match millis_number(millis) {
                        None => KeyReading::Unreadable,
                        Some(ms) => if clock_fits(
                            y as int,
                            m as int,
                            d as int,
                            h as int,
                            min as int,
                            s as int,
                            ms as int,
                        ) {
                            KeyReading::At(
                                clock_ms(
                                    y as int,
                                    m as int,
                                    d as int,
                                    h as int,
                                    min as int,
                                    s as int,
                                    ms as int,
                                ) as i64,
                            )
                        } else {
                            KeyReading::OutOfRange
                        },
                    }
                }
            },
            _ => KeyReading::Unreadable,
        }
    }
}

fn parse_three(v: &Vec<char>) -> (r: Option<(i64, i64, i64)>)
    ensures
        r == three_numbers(v@),
{
    let (first, rest) = text::cut(v, ':');
    reveal_with_fuel(text::piece, 3);
    let a = text::parse_i64(&first)?;
    let rest = rest?;
    let (second, rest) = text::cut(&rest, ':');
    let b = text::parse_i64(&second)?;
    let rest = rest?;
    let (third, _) = text::cut(&rest, ':');
    let c = text::parse_i64(&third)?;
    Some((a, b, c))
}

fn in_range(n: i128) -> (b: bool)
    ensures
        b == fits(n as int),
{
    -0x8000_0000_0000_0000 <= n && n <= 0x7fff_ffff_ffff_ffff
}

/// The date arithmetic, step by step.
fn clock(y: i64, m: i64, d: i64, h: i64, min: i64, s: i64, ms: i64) -> (r: Option<i64>)
    ensures
        r == if clock_fits(
            y as int,
            m as int,
            d as int,
            h as int,
            min as int,
            s as int,
            ms as int,
        ) {
            Some(
                clock_ms(
                    y as int,
                    m as int,
                    d as int,
                    h as int,
                    min as int,
                    s as int,
                    ms as int,
                ) as i64,
            )
        } else {
            None
        },
{
    let ya: i128 = if m <= 2 {
        y as i128 - 1
    } else {
        y as i128
    };
    if !in_range(ya) {
        return None;
    }
    let era: i128 = if ya >= 0 {
        ya / 400
    } else {
        -((399 - ya) / 400)
    };
    assert(era == ya as int / 400);
    if !in_range(era * 400) {
        return None;
    }
    let yoe: i128 = ya - era * 400;
    let turned: i128 = m as i128 + 9;
    if !in_range(turned) {
        return None;
    }
    let mp: i128 = if turned >= 0 {
        turned % 12
    } else {
        -((-turned) % 12)
    };
    assert(mp == civil::trunc_rem(m + 9, 12));
    let scaled: i128 = 153 * mp + 2;
    let base: i128 = if scaled >= 0 {
        scaled / 5
    } else {
        -((-scaled) / 5)
    };
    assert(base == civil::month_start(m as int));
    if !in_range(base + d as i128) || !in_range(base + d as i128 - 1) {
        return None;
    }
    let doy: i128 = base + d as i128 - 1;
    let doe: i128 = yoe * 365 + yoe / 4 - yoe / 100 + doy;
    if !in_range(doe) || !in_range(era * 146_097) || !in_range(era * 146_097 + doe) {
        return None;
    }
    let days: i128 = era * 146_097 + doe - 719_468;
    if !in_range(days) || !in_range(days * 24) {
        return None;
    }
    let hours: i128 = days * 24 + h as i128;
    if !in_range(hours) || !in_range(hours * 60) {
        return None;
    }
    let minutes: i128 = hours * 60 + min as i128;
    if !in_range(minutes) || !in_range(minutes * 60) {
        return None;
    }
    let seconds: i128 = minutes * 60 + s as i128;
    if !in_range(seconds) || !in_range(seconds * 1000) {
        return None;
    }
    let total: i128 = seconds * 1000 + ms as i128;
    if !in_range(total) {
        return None;
    }
    Some(total as i64)
}

/// Read a sort key; never fails.
pub fn read_sort_key(key: &str) -> (r: KeyReading)
    ensures
        r == reading_of(key@),
{
    let chars = text::chars_of(key);
    let (date, time) = text::cut(&chars, ' ');
    let time = match time {
        Some(t) => t,
        None => {
            return KeyReading::Unreadable;
        },
    };
    let (y, m, d) = match parse_three(&date) {
        Some(t) => t,
        None => {
            return KeyReading::Unreadable;
        },
    };
    let (hms, fraction) = text::cut(&time, '.');
    let (h, min, s) = match parse_three(&hms) {
        Some(t) => t,
        None => {
            return KeyReading::Unreadable;
        },
    };
    let mut millis = match fraction {
        Some(f) => f,
        None => vec!['0'],
    };
    let ghost given = millis@;
    assert(given =~= if text::find(time@, '.') < time@.len() {
        time@.skip(text::find(time@, '.') + 1)
    } else {
        seq!['0']
    });
    assert(given + Seq::new(0, |i: int| '0') =~= given);
    while millis.len() < 3
        invariant
            given.len() <= millis@.len(),
            given.len() < millis@.len() ==> millis@.len() <= 3,
            millis@ == given + Seq::new((millis@.len() - given.len()) as nat, |i: int| '0'),
        decreases 3 - millis@.len(),
    {
        millis.push('0');
        assert(millis@ =~= given + Seq::new(
            (millis@.len() - given.len()) as nat,
            |i: int| '0',
        ));
    }
    assert(millis@ =~= padded_millis(given));
    let whole = text::string_of(&millis);
    if !whole.as_str().is_char_boundary(3) {
        return KeyReading::OutOfRange;
    }
    let first = text::slice_of(&millis, 0, 3);
    assert(first@ =~= millis@.take(3));
    if !first.as_str().is_ascii() {
        return KeyReading::Unreadable;
    }
    let ms: i64 = match text::parse_i64(&text::chars_of(first.as_str())) {
        Some(n) => n,
        None => {
            return KeyReading::Unreadable;
        },
    };
    match clock(y, m, d, h, min, s, ms) {
        Some(n) => KeyReading::At(n),
        None => KeyReading::OutOfRange,
    }
}

/// "YYYY:MM:DD HH:MM:SS.mmm" (the sort key) → epoch-ish milliseconds. Only
/// DIFFERENCES matter to grouping; the day count keeps month and year
/// boundaries exact.
pub fn parse_sort_key_ms(key: &str) -> (r: Option<i64>)
    requires
        reading_of(key@) != KeyReading::OutOfRange,
    ensures
        r == match reading_of(key@) {
            KeyReading::At(ms) => Some(ms),
            _ => None,
        },
{
    match read_sort_key(key) {
        KeyReading::At(ms) => Some(ms),
        _ => None,
    }
}

/// The instant a summary's sort key says, if any.
pub open spec fn summary_ms(e: exif::ExifSummary) -> Option<i64> {
    match e.key() {
        None => None,
        Some(k) => match reading_of(k) {
            KeyReading::At(ms) => Some(ms),
            _ => None,
        },
    }
}

impl FrameMeta {
    /// Build from an EXIF summary: time from the chronological sort key,
    /// SubSec presence from the summary, camera identity = serial else
    /// model, seq from the Sony maker-note pass.
    pub fn from_summary(e: &exif::ExifSummary) -> (f: FrameMeta)
        requires
            e.key() is Some ==> reading_of(e.key()->0) != KeyReading::OutOfRange,
        ensures
            f.time_ms == summary_ms(*e),
            f.has_subsec == (e.subsec is Some),
            text::opt_text(f.camera) == if e.serial_number is Some {
                text::opt_text(e.serial_number)
            } else {
                text::opt_text(e.camera_model)
            },
            f.seq == e.sequence_number,
    {
        let time_ms = match e.sort_key() {
            Some(key) => parse_sort_key_ms(key.as_str()),
            None => None,
        };
        let camera = if e.serial_number.is_some() {
            text::copy_opt(&e.serial_number)
        } else {
            text::copy_opt(&e.camera_model)
        };
        FrameMeta { time_ms, has_subsec: e.subsec.is_some(), camera, seq: e.sequence_number }
    }
}

// ------------------------------------------------------------ the grouping
/// Grouping knobs.
#[derive(Clone, Copy, Debug)]
pub struct BurstConfig {
    /// Max gap between consecutive frames of one burst when both carry
    /// SubSec precision.
    pub max_gap_ms: i64,
    /// Generic path only: minimum run length that counts as a burst.
    pub min_run: usize,
}

impl Default for BurstConfig {
    fn default() -> (c: BurstConfig)
        ensures
            c.max_gap_ms == 600,
            c.min_run == 3,
    {
        BurstConfig { max_gap_ms: 600, min_run: 3 }
    }
}

/// Per-frame result: `group[i]` = None (single) or Some(group index);
/// group indices are dense and increase in input order. `size[g]` =
/// member count of group g.
#[derive(Clone, Debug, PartialEq, Eq)]
pub struct Grouping {
    pub group: Vec<Option<usize>>,
    pub size: Vec<usize>,
}

impl Default for Grouping {
    fn default() -> (g: Grouping)
        ensures
            g.group@ == Seq::<Option<usize>>::empty(),
            g.size@ == Seq::<usize>::empty(),
    {
        Grouping { group: Vec::new(), size: Vec::new() }
    }
}

/// How many of the first `upto` frames are in group `g`.
pub open spec fn members_before(group: Seq<Option<usize>>, g: usize, upto: int) -> nat
    decreases upto,
{
    if upto <= 0 {
        0
    } else {
        members_before(group, g, upto - 1) + if group[upto - 1] == Some(g) {
            1nat
        } else {
            0nat
        }
    }
}

pub proof fn lemma_members_bound(group: Seq<Option<usize>>, g: usize, upto: int)
    requires
        0 <= upto,
    ensures
        members_before(group, g, upto) <= upto,
    decreases upto,
{
    if upto > 0 {
        lemma_members_bound(group, g, upto - 1);
    }
}

impl Grouping {
    /// Every group a frame names has a size.
    pub open spec fn wf(&self) -> bool {
        forall|i: int|
            0 <= i < self.group@.len() && (#[trigger] self.group@[i]) is Some
                ==> self.group@[i]->0 < self.size@.len()
    }

    /// The 1-based position of frame `i` inside its group, with the group
    /// size.
    pub open spec fn position(&self, i: int) -> Option<(usize, usize)> {
        if 0 <= i < self.group@.len() && self.group@[i] is Some {
            let g = self.group@[i]->0;
            Some((members_before(self.group@, g, i + 1) as usize, self.size@[g as int]))
        } else {
            None
        }
    }

    /// True when `i` is the FIRST frame of its group (the badge cell).
    /// Group members need NOT be contiguous (interleaved bodies), so
    /// "first" means no earlier member, not "previous differs".
    pub fn is_group_start(&self, i: usize) -> (b: bool)
        requires
            i < self.group@.len() && self.group@[i as int] is Some ==> self.group@[i as int]->0
                < self.size@.len(),
        ensures
            b == (i < self.group@.len() && self.group@[i as int] is Some && forall|j: int|
                0 <= j < i ==> #[trigger] self.group@[j] != self.group@[i as int]),
    {
        match self.position_in_group(i) {
            Some((pos, _)) => {
                proof {
                    let g = self.group@[i as int]->0;
                    lemma_members_bound(self.group@, g, i + 1);
                    lemma_no_members_before(self.group@, g, i as int);
                }
                pos == 1
            },
            None => false,
        }
    }

    /// 1-based position of `i` inside its group ("burst 7/23"), with the
    /// group size. None for singles. O(i) — use [`Grouping::positions`]
    /// when querying every frame.
    pub fn position_in_group(&self, i: usize) -> (p: Option<(usize, usize)>)
        requires
            i < self.group@.len() && self.group@[i as int] is Some ==> self.group@[i as int]->0
                < self.size@.len(),
        ensures
            p == self.position(i as int),
            p is Some ==> (p->0).0 == members_before(
                self.group@,
                self.group@[i as int]->0,
                i + 1,
            ),
    {
        if i >= self.group.len() {
            return None;
        }
        let g: usize = match self.group[i] {
            Some(g) => g,
            None => {
                return None;
            },
        };
        let mut pos: usize = 0;
        let mut j: usize = 0;
        while j <= i
            invariant
                i < self.group.len(),
                j <= i + 1,
                pos <= j,
                pos == members_before(self.group@, g, j as int),
            decreases i + 1 - j,
        {
            let here: bool = match self.group[j] {
                Some(h) => h == g,
                None => false,
            };
            if here {
                pos = pos + 1;
            }
            j = j + 1;
        }
        Some((pos, self.size[g]))
    }

    /// All frames' (position, group size) in one O(n) pass.
    pub fn positions(&self) -> (all: Vec<Option<(usize, usize)>>)
        requires
            self.wf(),
        ensures
            all@.len() == self.group@.len(),
            forall|i: int| 0 <= i < all@.len() ==> #[trigger] all@[i] == self.position(i),
    {
        let mut counter: Vec<usize> = Vec::new();
        let mut k: usize = 0;
        while k < self.size.len()
            invariant
                k <= self.size@.len(),
                counter@.len() == k,
                forall|g: int| 0 <= g < k ==> #[trigger] counter@[g] == 0,
            decreases self.size@.len() - k,
        {
            counter.push(0);
            k = k + 1;
        }
        let mut all: Vec<Option<(usize, usize)>> = Vec::new();
        let mut i: usize = 0;
        while i < self.group.len()
            invariant
                self.wf(),
                i <= self.group@.len(),
                all@.len() == i,
                counter@.len() == self.size@.len(),
                forall|g: usize|
                    g < counter@.len() ==> #[trigger] counter@[g as int] == members_before(
                        self.group@,
                        g,
                        i as int,
                    ),
                forall|j: int| 0 <= j < i ==> #[trigger] all@[j] == self.position(j),
            decreases self.group@.len() - i,
        {
            let ghost counted = counter@;
            match self.group[i] {
                Some(g) => {
                    proof {
                        lemma_members_bound(self.group@, g, i as int);
                    }
                    let n: usize = counter[g] + 1;
                    counter.set(g, n);
                    all.push(Some((n, self.size[g])));
                },
                None => {
                    all.push(None);
                },
            }
            assert forall|g: usize| g < counter@.len() implies #[trigger] counter@[g as int]
                == members_before(self.group@, g, i + 1) by {
                assert(counted[g as int] == members_before(self.group@, g, i as int));
            }
            i = i + 1;
        }
        all
    }
}

proof fn lemma_no_members_before(group: Seq<Option<usize>>, g: usize, upto: int)
    requires
        0 <= upto <= group.len(),
    ensures
        members_before(group, g, upto) == 0 <==> forall|j: int|
            0 <= j < upto ==> #[trigger] group[j] != Some(g),
    decreases upto,
{
    if upto > 0 {
        lemma_no_members_before(group, g, upto - 1);
        if group[upto - 1] == Some(g) {
            assert(members_before(group, g, upto) > 0);
        } else if members_before(group, g, upto) == 0 {
            assert forall|j: int| 0 <= j < upto implies #[trigger] group[j] != Some(g) by {
                if j < upto - 1 {
                    assert(group[j] != Some(g));
                }
            }
        } else {
            assert(!(forall|j: int| 0 <= j < upto - 1 ==> #[trigger] group[j] != Some(g)));
        }
    }
}

/// Two frames of the same body. Frames without identity share one body.
pub open spec fn same_body(a: FrameMeta, b: FrameMeta) -> bool {
    text::opt_text(a.camera) == text::opt_text(b.camera)
}

/// The last frame before position `upto` of the body of frame `f`.
pub open spec fn previous_of(frames: Seq<FrameMeta>, f: FrameMeta, upto: int) -> Option<int>
    decreases upto,
{
    if upto <= 0 {
        None
    } else if same_body(frames[upto - 1], f) {
        Some(upto - 1)
    } else {
        previous_of(frames, f, upto - 1)
    }
}

/// Can this frame be part of a run? It needs a timestamp, and it must not
/// be a declared single.
pub open spec fn joinable(f: FrameMeta) -> bool {
    f.time_ms is Some && f.seq != Some(0u32)
}

/// Does the maker note say "in a burst"?
pub open spec fn in_sequence(f: FrameMeta) -> bool {
    f.seq is Some && f.seq->0 >= 1
}

pub open spec fn magnitude(n: int) -> int {
    if n < 0 {
        -n
    } else {
        n
    }
}

/// Effective gap threshold between two neighbors: 1 s granularity wins
/// when either side lacks SubSec.
pub open spec fn gap_limit(cfg: BurstConfig, a: FrameMeta, b: FrameMeta) -> int {
    if (a.has_subsec && b.has_subsec) || cfg.max_gap_ms >= 1000 {
        cfg.max_gap_ms as int
    } else {
        1000
    }
}

/// Frame `f` continues the run of its body's previous frame `p`: both are
/// joinable, the gap is within the threshold, and the sequence number did
/// not reset (or neither has one).
pub open spec fn continues(cfg: BurstConfig, p: FrameMeta, f: FrameMeta) -> bool {
    &&& joinable(p)
    &&& joinable(f)
    &&& magnitude(f.time_ms->0 - p.time_ms->0) <= gap_limit(cfg, p, f)
    &&& if in_sequence(p) && in_sequence(f) {
        f.seq->0 > p.seq->0
    } else {
        in_sequence(p) == in_sequence(f)
    }
}

/// The first frame of the run that frame `i` belongs to.
pub open spec fn run_start(frames: Seq<FrameMeta>, cfg: BurstConfig, i: int) -> int
    decreases i,
{
    match previous_of(frames, frames[i], i) {
        Some(p) => if 0 <= p < i && continues(cfg, frames[p], frames[i]) {
            run_start(frames, cfg, p)
        } else {
            i
        },
        None => i,
    }
}

/// How many of the first `upto` frames belong to the run from `s`.
pub open spec fn run_length(frames: Seq<FrameMeta>, cfg: BurstConfig, s: int, upto: int) -> nat
    decreases upto,
{
    if upto <= 0 {
        0
    } else {
        run_length(frames, cfg, s, upto - 1) + if run_start(frames, cfg, upto - 1) == s {
            1nat
        } else {
            0nat
        }
    }
}

/// Is there a run from `s` that counts as a burst? Only joinable frames
/// make one. Sequence numbers vouch for any two of them; without numbers it
/// takes `min_run`.
pub open spec fn qualifies(frames: Seq<FrameMeta>, cfg: BurstConfig, s: int) -> bool {
    let len = run_length(frames, cfg, s, frames.len() as int);
    &&& joinable(frames[s])
    &&& run_start(frames, cfg, s) == s
    &&& if in_sequence(frames[s]) {
        len >= 2
    } else {
        len >= cfg.min_run
    }
}

/// How many bursts start before frame `s`: the index of the burst that
/// starts there.
pub open spec fn bursts_before(frames: Seq<FrameMeta>, cfg: BurstConfig, s: int) -> nat
    decreases s,
{
    if s <= 0 {
        0
    } else {
        bursts_before(frames, cfg, s - 1) + if qualifies(frames, cfg, s - 1) {
            1nat
        } else {
            0nat
        }
    }
}

/// The burst that frame `i` is part of, if any.
pub open spec fn group_of(frames: Seq<FrameMeta>, cfg: BurstConfig, i: int) -> Option<usize> {
    let s = run_start(frames, cfg, i);
    if qualifies(frames, cfg, s) {
        Some(bursts_before(frames, cfg, s) as usize)
    } else {
        None
    }
}

/// The burst of every frame.
pub open spec fn groups_of(frames: Seq<FrameMeta>, cfg: BurstConfig) -> Seq<Option<usize>> {
    Seq::new(frames.len(), |i: int| group_of(frames, cfg, i))
}

/// Every gap that is measured fits 64 bits.
pub open spec fn gaps_fit(frames: Seq<FrameMeta>) -> bool {
    forall|i: int|
        0 <= i < frames.len() && joinable(#[trigger] frames[i]) ==> match previous_of(
            frames,
            frames[i],
            i,
        ) {
            Some(p) => joinable(frames[p]) ==> magnitude(
                frames[i].time_ms->0 - frames[p].time_ms->0,
            ) <= i64::MAX,
            None => true,
        }
}

pub proof fn lemma_run_start(frames: Seq<FrameMeta>, cfg: BurstConfig, i: int)
    requires
        0 <= i < frames.len(),
    ensures
        0 <= run_start(frames, cfg, i) <= i,
        run_start(frames, cfg, run_start(frames, cfg, i)) == run_start(frames, cfg, i),
    decreases i,
{
    lemma_previous(frames, frames[i], i);
    match previous_of(frames, frames[i], i) {
        Some(p) => {
            if continues(cfg, frames[p], frames[i]) {
                lemma_run_start(frames, cfg, p);
            }
        },
        None => {},
    }
}

proof fn lemma_previous(frames: Seq<FrameMeta>, f: FrameMeta, upto: int)
    requires
        0 <= upto <= frames.len(),
    ensures
        match previous_of(frames, f, upto) {
            Some(p) => 0 <= p < upto && same_body(frames[p], f) && forall|j: int|
                p < j < upto ==> !same_body(#[trigger] frames[j], f),
            None => forall|j: int| 0 <= j < upto ==> !same_body(#[trigger] frames[j], f),
        },
    decreases upto,
{
    if upto > 0 && !same_body(frames[upto - 1], f) {
        lemma_previous(frames, f, upto - 1);
    }
}

proof fn lemma_previous_is(frames: Seq<FrameMeta>, f: FrameMeta, upto: int, p: int)
    requires
        0 <= p < upto <= frames.len(),
        same_body(frames[p], f),
        forall|j: int| p < j < upto ==> !same_body(#[trigger] frames[j], f),
    ensures
        previous_of(frames, f, upto) == Some(p),
{
    lemma_previous(frames, f, upto);
    match previous_of(frames, f, upto) {
        Some(q) => {
            if q < p {
                assert(!same_body(frames[p], f));
            }
        },
        None => {
            assert(!same_body(frames[p], f));
        },
    }
}

proof fn lemma_run_length_bound(frames: Seq<FrameMeta>, cfg: BurstConfig, s: int, upto: int)
    requires
        0 <= upto,
    ensures
        run_length(frames, cfg, s, upto) <= upto,
    decreases upto,
{
    if upto > 0 {
        lemma_run_length_bound(frames, cfg, s, upto - 1);
    }
}

proof fn lemma_bursts_bound(frames: Seq<FrameMeta>, cfg: BurstConfig, s: int)
    requires
        0 <= s,
    ensures
        bursts_before(frames, cfg, s) <= s,
    decreases s,
{
    if s > 0 {
        lemma_bursts_bound(frames, cfg, s - 1);
    }
}

pub proof fn lemma_bursts_monotone(frames: Seq<FrameMeta>, cfg: BurstConfig, s: int, t: int)
    requires
        0 <= s <= t,
    ensures
        bursts_before(frames, cfg, s) <= bursts_before(frames, cfg, t),
        s < t && qualifies(frames, cfg, s) ==> bursts_before(frames, cfg, s) < bursts_before(
            frames,
            cfg,
            t,
        ),
    decreases t - s,
{
    if s < t {
        lemma_bursts_monotone(frames, cfg, s, t - 1);
    }
}

fn same_camera(a: &FrameMeta, b: &FrameMeta) -> (r: bool)
    ensures
        r == same_body(*a, *b),
{
    match (&a.camera, &b.camera) {
        (Some(x), Some(y)) => text::same(x.as_str(), y.as_str()),
        (None, None) => true,
        _ => false,
    }
}

/// Effective gap threshold between two neighbors: 1 s granularity wins
/// when either side lacks SubSec.
pub fn threshold(cfg: &BurstConfig, a: &FrameMeta, b: &FrameMeta) -> (t: i64)
    ensures
        t == gap_limit(*cfg, *a, *b),
{
    if a.has_subsec && b.has_subsec {
        cfg.max_gap_ms
    } else if cfg.max_gap_ms < 1000 {
        1000
    } else {
        cfg.max_gap_ms
    }
}

fn is_joinable(f: &FrameMeta) -> (b: bool)
    ensures
        b == joinable(*f),
{
    let declared_single: bool = match f.seq {
        Some(s) => s == 0,
        None => false,
    };
    f.time_ms.is_some() && !declared_single
}

fn has_sequence(f: &FrameMeta) -> (b: bool)
    ensures
        b == in_sequence(*f),
{
    match f.seq {
        Some(s) => s >= 1,
        None => false,
    }
}

fn joins(cfg: &BurstConfig, p: &FrameMeta, f: &FrameMeta) -> (b: bool)
    requires
        joinable(*p) && joinable(*f) ==> magnitude(f.time_ms->0 - p.time_ms->0) <= i64::MAX,
    ensures
        b == continues(*cfg, *p, *f),
{
    if !is_joinable(p) || !is_joinable(f) {
        return false;
    }
    let gap_ok: bool = match (p.time_ms, f.time_ms) {
        (Some(a), Some(b)) => {
            let gap: i64 = b - a;
            let size: i64 = if gap < 0 {
                -gap
            } else {
                gap
            };
            size <= threshold(cfg, p, f)
        },
        _ => false,
    };
    let seq_ok: bool = if has_sequence(p) && has_sequence(f) {
        // A reset (seq <= previous) starts a NEW squeeze even inside the
        // gap window.
        match (p.seq, f.seq) {
            (Some(a), Some(b)) => b > a,
            _ => false,
        }
    } else {
        // Generic path: no mixing Sony-burst and plain frames.
        has_sequence(p) == has_sequence(f)
    };
    gap_ok && seq_ok
}

/// `last` holds one frame per body among the first `i`: that body's latest.
spec fn latest(frames: Seq<FrameMeta>, last: Seq<usize>, i: int) -> bool {
    &&& forall|k: int| 0 <= k < last.len() ==> #[trigger] last[k] < i
    &&& forall|j: int| 0 <= j < i ==> seen(frames, last, #[trigger] frames[j])
    &&& forall|j: int, k: int|
        0 <= j < i && 0 <= k < last.len() && same_body(
            #[trigger] frames[j],
            frames[#[trigger] last[k] as int],
        ) ==> j <= last[k]
    &&& forall|x: int, y: int|
        0 <= x < y < last.len() ==> !same_body(
            frames[#[trigger] last[x] as int],
            frames[#[trigger] last[y] as int],
        )
}

spec fn seen(frames: Seq<FrameMeta>, last: Seq<usize>, f: FrameMeta) -> bool {
    exists|k: int| 0 <= k < last.len() && same_body(f, frames[#[trigger] last[k] as int])
}

proof fn lemma_latest_known(frames: Seq<FrameMeta>, last: Seq<usize>, i: int, k: int)
    requires
        latest(frames, last, i),
        0 <= i < frames.len(),
        i <= usize::MAX,
        0 <= k < last.len(),
        same_body(frames[last[k] as int], frames[i]),
    ensures
        previous_of(frames, frames[i], i) == Some(last[k] as int),
        latest(frames, last.update(k, i as usize), i + 1),
{
    let f = frames[i];
    let p = last[k] as int;
    assert forall|j: int| p < j < i implies !same_body(#[trigger] frames[j], f) by {
        if same_body(frames[j], f) {
            assert(same_body(frames[j], frames[last[k] as int]));
        }
    }
    lemma_previous_is(frames, f, i, p);
    let new = last.update(k, i as usize);
    assert forall|j: int| 0 <= j < i + 1 implies seen(frames, new, #[trigger] frames[j]) by {
        if j == i {
            assert(same_body(frames[j], frames[new[k] as int]));
        } else {
            assert(seen(frames, last, frames[j]));
            let l = choose|l: int|
                0 <= l < last.len() && same_body(frames[j], frames[#[trigger] last[l] as int]);
            assert(same_body(frames[j], frames[new[l] as int]));
        }
    }
    assert forall|j: int, l: int|
        0 <= j < i + 1 && 0 <= l < new.len() && same_body(
            #[trigger] frames[j],
            frames[#[trigger] new[l] as int],
        ) implies j <= new[l] by {
        if l != k {
            assert(new[l] == last[l]);
            if j == i {
                assert(same_body(frames[last[k] as int], frames[last[l] as int]));
            }
        }
    }
    assert forall|x: int, y: int| 0 <= x < y < new.len() implies !same_body(
        frames[#[trigger] new[x] as int],
        frames[#[trigger] new[y] as int],
    ) by {
        assert(!same_body(frames[last[x] as int], frames[last[y] as int]));
    }
}

proof fn lemma_latest_new(frames: Seq<FrameMeta>, last: Seq<usize>, i: int)
    requires
        latest(frames, last, i),
        0 <= i < frames.len(),
        i <= usize::MAX,
        forall|k: int| 0 <= k < last.len() ==> !same_body(
            frames[#[trigger] last[k] as int],
            frames[i],
        ),
    ensures
        previous_of(frames, frames[i], i) is None,
        latest(frames, last.push(i as usize), i + 1),
{
    let f = frames[i];
    let new = last.push(i as usize);
    lemma_previous(frames, f, i);
    match previous_of(frames, f, i) {
        Some(p) => {
            assert(seen(frames, last, frames[p]));
            let l = choose|l: int|
                0 <= l < last.len() && same_body(frames[p], frames[#[trigger] last[l] as int]);
            assert(!same_body(frames[last[l] as int], f));
        },
        None => {},
    }
    assert forall|j: int| 0 <= j < i + 1 implies seen(frames, new, #[trigger] frames[j]) by {
        if j == i {
            assert(same_body(frames[j], frames[new[last.len() as int] as int]));
        } else {
            assert(seen(frames, last, frames[j]));
            let l = choose|l: int|
                0 <= l < last.len() && same_body(frames[j], frames[#[trigger] last[l] as int]);
            assert(new[l] == last[l]);
            assert(same_body(frames[j], frames[new[l] as int]));
        }
    }
    assert forall|j: int, l: int|
        0 <= j < i + 1 && 0 <= l < new.len() && same_body(
            #[trigger] frames[j],
            frames[#[trigger] new[l] as int],
        ) implies j <= new[l] by {
        if l < last.len() {
            assert(new[l] == last[l]);
            if j == i {
                assert(!same_body(frames[last[l] as int], f));
            }
        }
    }
    assert forall|x: int, y: int| 0 <= x < y < new.len() implies !same_body(
        frames[#[trigger] new[x] as int],
        frames[#[trigger] new[y] as int],
    ) by {
        assert(new[x] == last[x]);
        if y < last.len() {
            assert(new[y] == last[y]);
            assert(!same_body(frames[last[x] as int], frames[last[y] as int]));
        } else {
            assert(!same_body(frames[last[x] as int], f));
        }
    }
}

/// The first frame of every frame's run.
fn run_starts(frames: &[FrameMeta], cfg: &BurstConfig) -> (starts: Vec<usize>)
    requires
        gaps_fit(frames@),
    ensures
        starts@.len() == frames@.len(),
        forall|i: int|
            0 <= i < starts@.len() ==> #[trigger] starts@[i] == run_start(frames@, *cfg, i),
{
    let mut starts: Vec<usize> = Vec::new();
    // The last frame of every body seen so far.
    let mut last: Vec<usize> = Vec::new();
    let mut i: usize = 0;
    while i < frames.len()
        invariant
            gaps_fit(frames@),
            i <= frames@.len(),
            starts@.len() == i,
            forall|j: int| 0 <= j < i ==> #[trigger] starts@[j] == run_start(frames@, *cfg, j),
            latest(frames@, last@, i as int),
        decreases frames@.len() - i,
    {
        let f = &frames[i];
        let mut k: usize = 0;
        while k < last.len() && !same_camera(&frames[last[k]], f)
            invariant
                i < frames@.len(),
                *f == frames@[i as int],
                k <= last@.len(),
                forall|l: int| 0 <= l < last@.len() ==> #[trigger] last@[l] < i,
                forall|l: int|
                    0 <= l < k ==> !same_body(frames@[#[trigger] last@[l] as int], *f),
            decreases last@.len() - k,
        {
            k = k + 1;
        }
        if k < last.len() {
            let p: usize = last[k];
            proof {
                lemma_latest_known(frames@, last@, i as int, k as int);
            }
            if joins(cfg, &frames[p], f) {
                let s: usize = starts[p];
                starts.push(s);
            } else {
                starts.push(i);
            }
            last.set(k, i);
        } else {
            proof {
                lemma_latest_new(frames@, last@, i as int);
            }
            last.push(i);
            starts.push(i);
        }
        i = i + 1;
    }
    starts
}

/// Group frames (input already in capture order). Sony path where
/// SequenceNumber exists; generic camera+gap runs otherwise. Two bodies
/// shooting simultaneously (interleaved in capture order) group
/// independently: gaps are measured between consecutive frames of the SAME
/// body. Dense group ids follow the order of the groups' FIRST frames.
pub fn group(frames: &[FrameMeta], cfg: &BurstConfig) -> (r: Grouping)
    requires
        gaps_fit(frames@),
    ensures
        r.wf(),
        r.group@.len() == frames@.len(),
        r.size@.len() == bursts_before(frames@, *cfg, frames@.len() as int),
        r.group@ == groups_of(frames@, *cfg),
        forall|s: int|
            0 <= s < frames@.len() && #[trigger] qualifies(frames@, *cfg, s) ==> r.size@[
                bursts_before(frames@, *cfg, s) as int
            ] == run_length(frames@, *cfg, s, frames@.len() as int),
        forall|g: usize|
            g < r.size@.len() ==> #[trigger] r.size@[g as int] == order::tally(
                frames@.len() as int,
                |i: int| r.group@[i] == Some(g),
            ),
{
    let n: usize = frames.len();
    let starts = run_starts(frames, cfg);
    let mut lengths: Vec<usize> = Vec::new();
    let mut k: usize = 0;
    while k < n
        invariant
            k <= n,
            lengths@.len() == k,
            forall|s: int| 0 <= s < k ==> #[trigger] lengths@[s] == 0,
        decreases n - k,
    {
        lengths.push(0);
        k = k + 1;
    }
    let mut i: usize = 0;
    while i < n
        invariant
            n == frames@.len(),
            i <= n,
            starts@.len() == n,
            lengths@.len() == n,
            forall|j: int| 0 <= j < n ==> #[trigger] starts@[j] == run_start(frames@, *cfg, j),
            forall|s: int|
                0 <= s < n ==> #[trigger] lengths@[s] == run_length(frames@, *cfg, s, i as int),
        decreases n - i,
    {
        proof {
            lemma_run_start(frames@, *cfg, i as int);
            lemma_run_length_bound(frames@, *cfg, starts@[i as int] as int, i as int);
        }
        let s: usize = starts[i];
        let len: usize = lengths[s] + 1;
        lengths.set(s, len);
        i = i + 1;
    }
    let mut size: Vec<usize> = Vec::new();
    let mut ids: Vec<Option<usize>> = Vec::new();
    let mut s: usize = 0;
    while s < n
        invariant
            n == frames@.len(),
            s <= n,
            starts@.len() == n,
            lengths@.len() == n,
            ids@.len() == s,
            forall|j: int| 0 <= j < n ==> #[trigger] starts@[j] == run_start(frames@, *cfg, j),
            forall|j: int|
                0 <= j < n ==> #[trigger] lengths@[j] == run_length(frames@, *cfg, j, n as int),
            size@.len() == bursts_before(frames@, *cfg, s as int),
            forall|j: int|
                0 <= j < s ==> #[trigger] ids@[j] == if qualifies(frames@, *cfg, j) {
                    Some(bursts_before(frames@, *cfg, j) as usize)
                } else {
                    None
                },
            forall|j: int|
                0 <= j < s && #[trigger] qualifies(frames@, *cfg, j) ==> bursts_before(
                    frames@,
                    *cfg,
                    j,
                ) < size@.len() && size@[bursts_before(frames@, *cfg, j) as int] == run_length(
                    frames@,
                    *cfg,
                    j,
                    n as int,
                ),
        decreases n - s,
    {
        let enough: bool = if !is_joinable(&frames[s]) {
            false
        } else if has_sequence(&frames[s]) {
            lengths[s] >= 2
        } else {
            lengths[s] >= cfg.min_run
        };
        let ghost had = size@;
        if starts[s] == s && enough {
            assert(qualifies(frames@, *cfg, s as int));
            let g: usize = size.len();
            ids.push(Some(g));
            size.push(lengths[s]);
            assert forall|j: int|
                0 <= j < s + 1 && #[trigger] qualifies(frames@, *cfg, j) implies bursts_before(
                frames@,
                *cfg,
                j,
            ) < size@.len() && size@[bursts_before(frames@, *cfg, j) as int] == run_length(
                frames@,
                *cfg,
                j,
                n as int,
            ) by {
                if j < s {
                    let b = bursts_before(frames@, *cfg, j) as int;
                    assert(had[b] == size@[b]);
                }
            }
        } else {
            assert(!qualifies(frames@, *cfg, s as int));
            ids.push(None);
        }
        s = s + 1;
    }
    let mut groups: Vec<Option<usize>> = Vec::new();
    let mut i: usize = 0;
    while i < n
        invariant
            n == frames@.len(),
            i <= n,
            starts@.len() == n,
            ids@.len() == n,
            groups@.len() == i,
            forall|j: int| 0 <= j < n ==> #[trigger] starts@[j] == run_start(frames@, *cfg, j),
            forall|j: int|
                0 <= j < n ==> #[trigger] ids@[j] == if qualifies(frames@, *cfg, j) {
                    Some(bursts_before(frames@, *cfg, j) as usize)
                } else {
                    None
                },
            forall|j: int|
                0 <= j < n && #[trigger] qualifies(frames@, *cfg, j) ==> bursts_before(
                    frames@,
                    *cfg,
                    j,
                ) < size@.len(),
            forall|j: int|
                0 <= j < i ==> #[trigger] groups@[j] == ids@[run_start(frames@, *cfg, j)],
            forall|j: int|
                0 <= j < i && (#[trigger] groups@[j]) is Some ==> groups@[j]->0 < size@.len(),
        decreases n - i,
    {
        proof {
            lemma_run_start(frames@, *cfg, i as int);
            lemma_bursts_bound(frames@, *cfg, run_start(frames@, *cfg, i as int));
            let s0 = run_start(frames@, *cfg, i as int);
            assert(starts@[i as int] == s0);
            assert(ids@[s0] is Some ==> ids@[s0]->0 < size@.len());
        }
        groups.push(ids[starts[i]]);
        i = i + 1;
    }
    proof {
        assert forall|j: int| 0 <= j < n implies #[trigger] groups@[j] == group_of(
            frames@,
            *cfg,
            j,
        ) by {
            lemma_run_start(frames@, *cfg, j);
        }
        assert(groups@ =~= groups_of(frames@, *cfg));
        assert forall|g: usize| g < size@.len() implies #[trigger] size@[g as int] == order::tally(
            n as int,
            |i: int| groups@[i] == Some(g),
        ) by {
            laws::lemma_sizes_are_member_counts(frames@, *cfg, size@, g);
        }
    }
    Grouping { group: groups, size }
}

// ------------------------------------------------------------------- laws
proof fn lemma_same_run(frames: Seq<FrameMeta>, cfg: BurstConfig, i: int)
    requires
        0 <= i < frames.len(),
    ensures
        same_body(frames[run_start(frames, cfg, i)], frames[i]),
        run_start(frames, cfg, i) != i ==> joinable(frames[run_start(frames, cfg, i)]) && joinable(
            frames[i],
        ),
    decreases i,
{
    lemma_previous(frames, frames[i], i);
    match previous_of(frames, frames[i], i) {
        Some(p) => {
            if continues(cfg, frames[p], frames[i]) {
                lemma_same_run(frames, cfg, p);
            }
        },
        None => {},
    }
}

proof fn lemma_group_names_run(frames: Seq<FrameMeta>, cfg: BurstConfig, s: int, i: int)
    requires
        frames.len() <= usize::MAX,
        0 <= s < frames.len(),
        0 <= i < frames.len(),
        qualifies(frames, cfg, s),
    ensures
        group_of(frames, cfg, i) == Some(bursts_before(frames, cfg, s) as usize) <==> run_start(
            frames,
            cfg,
            i,
        ) == s,
{
    let t = run_start(frames, cfg, i);
    lemma_run_start(frames, cfg, i);
    lemma_bursts_bound(frames, cfg, s);
    lemma_bursts_bound(frames, cfg, t);
    if t < s {
        lemma_bursts_monotone(frames, cfg, t, s);
    } else if s < t {
        lemma_bursts_monotone(frames, cfg, s, t);
    }
}

/// A group's size is the number of frames that are in it.
pub proof fn lemma_sizes_count_members(
    frames: Seq<FrameMeta>,
    cfg: BurstConfig,
    s: int,
    upto: int,
)
    requires
        frames.len() <= usize::MAX,
        0 <= s < frames.len(),
        0 <= upto <= frames.len(),
        qualifies(frames, cfg, s),
    ensures
        members_before(
            groups_of(frames, cfg),
            bursts_before(frames, cfg, s) as usize,
            upto,
        ) == run_length(frames, cfg, s, upto),
    decreases upto,
{
    if upto > 0 {
        lemma_sizes_count_members(frames, cfg, s, upto - 1);
        lemma_group_names_run(frames, cfg, s, upto - 1);
    }
}

/// The frames of one group are frames of one body.
pub proof fn lemma_groups_never_mix_bodies(
    frames: Seq<FrameMeta>,
    cfg: BurstConfig,
    i: int,
    j: int,
)
    requires
        frames.len() <= usize::MAX,
        0 <= i < frames.len(),
        0 <= j < frames.len(),
        group_of(frames, cfg, i) is Some,
        group_of(frames, cfg, i) == group_of(frames, cfg, j),
    ensures
        same_body(frames[i], frames[j]),
{
    let s = run_start(frames, cfg, i);
    lemma_run_start(frames, cfg, i);
    lemma_group_names_run(frames, cfg, s, j);
    lemma_same_run(frames, cfg, i);
    lemma_same_run(frames, cfg, j);
}

/// Group indices follow the order of the groups' first frames.
pub proof fn lemma_groups_are_numbered_in_order(
    frames: Seq<FrameMeta>,
    cfg: BurstConfig,
    i: int,
    j: int,
)
    requires
        frames.len() <= usize::MAX,
        0 <= i < frames.len(),
        0 <= j < frames.len(),
        group_of(frames, cfg, i) is Some,
        group_of(frames, cfg, j) is Some,
    ensures
        run_start(frames, cfg, i) < run_start(frames, cfg, j) <==> group_of(frames, cfg, i)->0
            < group_of(frames, cfg, j)->0,
{
    let s = run_start(frames, cfg, i);
    let t = run_start(frames, cfg, j);
    lemma_run_start(frames, cfg, i);
    lemma_run_start(frames, cfg, j);
    lemma_bursts_bound(frames, cfg, s);
    lemma_bursts_bound(frames, cfg, t);
    if s < t {
        lemma_bursts_monotone(frames, cfg, s, t);
    } else {
        lemma_bursts_monotone(frames, cfg, t, s);
    }
}

/// A frame without a timestamp, or declared single, is in no group.
pub proof fn lemma_singles_never_group(frames: Seq<FrameMeta>, cfg: BurstConfig, i: int)
    requires
        0 <= i < frames.len(),
        !joinable(frames[i]),
    ensures
        group_of(frames, cfg, i) is None,
{
    lemma_previous(frames, frames[i], i);
    assert(run_start(frames, cfg, i) == i);
}

/// `idx` lists the positions of body `camera`'s frames, in their order.
pub open spec fn lists_body(
    frames: Seq<FrameMeta>,
    camera: Option<Seq<char>>,
    idx: Seq<int>,
) -> bool {
    &&& forall|a: int|
        0 <= a < idx.len() ==> 0 <= #[trigger] idx[a] < frames.len() && text::opt_text(
            frames[idx[a]].camera,
        ) == camera
    &&& forall|a: int, b: int| 0 <= a < b < idx.len() ==> #[trigger] idx[a] < #[trigger] idx[b]
    &&& forall|i: int|
        0 <= i < frames.len() && text::opt_text((#[trigger] frames[i]).camera) == camera
            ==> idx.contains(i)
}

/// The listed frames alone.
pub open spec fn picked(frames: Seq<FrameMeta>, idx: Seq<int>) -> Seq<FrameMeta> {
    Seq::new(idx.len(), |a: int| frames[idx[a]])
}

proof fn lemma_previous_in_body(
    frames: Seq<FrameMeta>,
    camera: Option<Seq<char>>,
    idx: Seq<int>,
    a: int,
)
    requires
        lists_body(frames, camera, idx),
        0 <= a < idx.len(),
    ensures
        previous_of(picked(frames, idx), picked(frames, idx)[a], a) == if a > 0 {
            Some(a - 1)
        } else {
            None::<int>
        },
        previous_of(frames, frames[idx[a]], idx[a]) == if a > 0 {
            Some(idx[a - 1])
        } else {
            None::<int>
        },
{
    let f = frames[idx[a]];
    if a > 0 {
        assert(idx[a - 1] < idx[a]);
        assert(same_body(frames[idx[a - 1]], f));
        assert forall|j: int| idx[a - 1] < j < idx[a] implies !same_body(
            #[trigger] frames[j],
            f,
        ) by {
            if same_body(frames[j], f) {
                assert(idx.contains(j));
                let k = choose|k: int| 0 <= k < idx.len() && idx[k] == j;
                if k < a - 1 {
                    assert(idx[k] < idx[a - 1]);
                } else if k > a {
                    assert(idx[a] < idx[k]);
                }
            }
        }
        lemma_previous_is(frames, f, idx[a], idx[a - 1]);
    } else {
        lemma_previous(frames, f, idx[a]);
        if let Some(p) = previous_of(frames, f, idx[a]) {
            assert(idx.contains(p));
            let k = choose|k: int| 0 <= k < idx.len() && idx[k] == p;
            if k > 0 {
                assert(idx[0] < idx[k]);
            }
        }
    }
}

proof fn lemma_run_start_in_body(
    frames: Seq<FrameMeta>,
    cfg: BurstConfig,
    camera: Option<Seq<char>>,
    idx: Seq<int>,
    a: int,
)
    requires
        lists_body(frames, camera, idx),
        0 <= a < idx.len(),
    ensures
        0 <= run_start(picked(frames, idx), cfg, a) <= a,
        run_start(frames, cfg, idx[a]) == idx[run_start(picked(frames, idx), cfg, a)],
    decreases a,
{
    let sub = picked(frames, idx);
    lemma_previous_in_body(frames, camera, idx, a);
    if a > 0 {
        assert(0 <= idx[a - 1] < idx[a]);
        lemma_run_start_in_body(frames, cfg, camera, idx, a - 1);
        assert(sub[a - 1] == frames[idx[a - 1]]);
    }
}

proof fn lemma_run_length_in_body(
    frames: Seq<FrameMeta>,
    cfg: BurstConfig,
    camera: Option<Seq<char>>,
    idx: Seq<int>,
    s: int,
    upto: int,
    k: int,
)
    requires
        lists_body(frames, camera, idx),
        0 <= s < idx.len(),
        0 <= upto <= frames.len(),
        0 <= k <= idx.len(),
        k > 0 ==> idx[k - 1] < upto,
        k < idx.len() ==> upto <= idx[k],
    ensures
        run_length(frames, cfg, idx[s], upto) == run_length(picked(frames, idx), cfg, s, k),
    decreases upto,
{
    let sub = picked(frames, idx);
    if upto > 0 {
        let j = upto - 1;
        lemma_run_start(frames, cfg, j);
        if text::opt_text(frames[j].camera) == camera {
            assert(idx.contains(j));
            let at = choose|at: int| 0 <= at < idx.len() && idx[at] == j;
            if at < k - 1 {
                assert(idx[at] < idx[k - 1]);
            } else if at > k {
                assert(idx[k] < idx[at]);
            }
            assert(at == k - 1);
            if k >= 2 {
                assert(idx[k - 2] < idx[k - 1]);
            }
            lemma_run_length_in_body(frames, cfg, camera, idx, s, j, k - 1);
            lemma_run_start_in_body(frames, cfg, camera, idx, k - 1);
            let t = run_start(sub, cfg, k - 1);
            if t < s {
                assert(idx[t] < idx[s]);
            } else if s < t {
                assert(idx[s] < idx[t]);
            }
        } else {
            if k > 0 {
                assert(text::opt_text(frames[idx[k - 1]].camera) == camera);
            }
            lemma_run_length_in_body(frames, cfg, camera, idx, s, j, k);
            lemma_same_run(frames, cfg, j);
            assert(text::opt_text(frames[idx[s]].camera) == camera);
        }
    } else if k > 0 {
        assert(0 <= idx[k - 1]);
    }
}

proof fn lemma_qualifies_in_body(
    frames: Seq<FrameMeta>,
    cfg: BurstConfig,
    camera: Option<Seq<char>>,
    idx: Seq<int>,
    s: int,
)
    requires
        lists_body(frames, camera, idx),
        0 <= s < idx.len(),
    ensures
        run_length(frames, cfg, idx[s], frames.len() as int) == run_length(
            picked(frames, idx),
            cfg,
            s,
            idx.len() as int,
        ),
        qualifies(frames, cfg, idx[s]) == qualifies(picked(frames, idx), cfg, s),
{
    let sub = picked(frames, idx);
    let n = idx.len() as int;
    assert(idx[n - 1] < frames.len());
    lemma_run_length_in_body(frames, cfg, camera, idx, s, frames.len() as int, n);
    lemma_run_start_in_body(frames, cfg, camera, idx, s);
    let t = run_start(sub, cfg, s);
    if t < s {
        assert(idx[t] < idx[s]);
    }
    assert(sub[s] == frames[idx[s]]);
}

/// Bodies group independently. Frames of other bodies never split, join or
/// shorten a body's groups: grouping one body's frames alone puts the same
/// frames together, leaves the same frames alone, and finds the same sizes.
pub proof fn lemma_bodies_group_independently(
    frames: Seq<FrameMeta>,
    cfg: BurstConfig,
    camera: Option<Seq<char>>,
    idx: Seq<int>,
    a: int,
    b: int,
)
    requires
        frames.len() <= usize::MAX,
        lists_body(frames, camera, idx),
        0 <= a < idx.len(),
        0 <= b < idx.len(),
    ensures
        groups_of(picked(frames, idx), cfg)[a] is None <==> groups_of(frames, cfg)[idx[a]] is None,
        groups_of(picked(frames, idx), cfg)[a] == groups_of(picked(frames, idx), cfg)[b]
            <==> groups_of(frames, cfg)[idx[a]] == groups_of(frames, cfg)[idx[b]],
        run_length(
            picked(frames, idx),
            cfg,
            run_start(picked(frames, idx), cfg, a),
            idx.len() as int,
        ) == run_length(frames, cfg, run_start(frames, cfg, idx[a]), frames.len() as int),
{
    let sub = picked(frames, idx);
    lemma_body_fits(frames, idx);
    let s = run_start(sub, cfg, a);
    let t = run_start(sub, cfg, b);
    lemma_run_start_in_body(frames, cfg, camera, idx, a);
    lemma_run_start_in_body(frames, cfg, camera, idx, b);
    lemma_qualifies_in_body(frames, cfg, camera, idx, s);
    lemma_qualifies_in_body(frames, cfg, camera, idx, t);
    if s < t {
        assert(idx[s] < idx[t]);
    } else if t < s {
        assert(idx[t] < idx[s]);
    }
    if qualifies(sub, cfg, s) && qualifies(sub, cfg, t) {
        lemma_group_names_run(sub, cfg, s, b);
        lemma_group_names_run(frames, cfg, idx[s], idx[b]);
    }
}

/// Ascending positions are no more than the frames they point into.
proof fn lemma_body_fits(frames: Seq<FrameMeta>, idx: Seq<int>)
    requires
        forall|a: int| 0 <= a < idx.len() ==> 0 <= #[trigger] idx[a] < frames.len(),
        forall|a: int, b: int| 0 <= a < b < idx.len() ==> #[trigger] idx[a] < #[trigger] idx[b],
    ensures
        idx.len() <= frames.len(),
{
    if idx.len() > 0 {
        lemma_ascending_reach(idx, idx.len() - 1);
    }
}

proof fn lemma_ascending_reach(idx: Seq<int>, a: int)
    requires
        0 <= a < idx.len(),
        0 <= idx[0],
        forall|x: int, y: int| 0 <= x < y < idx.len() ==> #[trigger] idx[x] < #[trigger] idx[y],
    ensures
        idx[a] >= a,
    decreases a,
{
    if a > 0 {
        lemma_ascending_reach(idx, a - 1);
        assert(idx[a - 1] < idx[a]);
    }
}

/// Where the gaps of all frames can be measured, so can those of one body's
/// frames alone.
pub proof fn lemma_gaps_fit_in_body(
    frames: Seq<FrameMeta>,
    camera: Option<Seq<char>>,
    idx: Seq<int>,
)
    requires
        gaps_fit(frames),
        lists_body(frames, camera, idx),
    ensures
        gaps_fit(picked(frames, idx)),
{
    let sub = picked(frames, idx);
    assert forall|a: int| 0 <= a < sub.len() && joinable(#[trigger] sub[a]) implies match previous_of(
        sub,
        sub[a],
        a,
    ) {
        Some(p) => joinable(sub[p]) ==> magnitude(sub[a].time_ms->0 - sub[p].time_ms->0)
            <= i64::MAX,
        None => true,
    } by {
        lemma_previous_in_body(frames, camera, idx, a);
        assert(joinable(frames[idx[a]]));
    }
}

// ------------------------------------------------------------- navigation
/// `g` can be the answer of a caller's grouping function.
pub open spec fn may_answer<F: Fn(usize) -> Option<usize>>(
    f: F,
    i: usize,
    g: Option<usize>,
) -> bool {
    call_ensures(f, (i,), g)
}

/// What a caller's grouping function says of a view position.
pub open spec fn group_at<F: Fn(usize) -> Option<usize>>(f: F, i: int) -> Option<usize> {
    choose|g: Option<usize>| #[trigger] may_answer(f, i as usize, g)
}

/// The grouping function can be asked about position `i`, and its answer is
/// a function of the position.
pub open spec fn answers<F: Fn(usize) -> Option<usize>>(f: F, i: int) -> bool {
    &&& call_requires(f, (i as usize,))
    &&& forall|a: Option<usize>, b: Option<usize>|
        #[trigger] may_answer(f, i as usize, a) && #[trigger] may_answer(f, i as usize, b)
            ==> a == b
}

/// Does position `j` lie outside the territory of group `here`? Each
/// ungrouped frame is a territory of its own.
pub open spec fn foreign(target: Option<usize>, here: Option<usize>) -> bool {
    target != here || target is None
}

/// The boundary navigation's landing place.
pub open spec fn is_boundary(
    g: spec_fn(int) -> Option<usize>,
    pos: int,
    len: int,
    forward: bool,
    r: int,
) -> bool {
    let here = g(pos);
    if len == 0 {
        r == 0
    } else if forward {
        // The next foreign position, or the last one.
        ||| (pos < r < len && foreign(g(r), here) && forall|j: int|
            pos < j < r ==> !foreign(#[trigger] g(j), here))
        ||| (r == len - 1 && forall|j: int| pos < j < len ==> !foreign(#[trigger] g(j), here))
    } else if here is Some && exists|p: int| 0 <= p < pos && #[trigger] g(p) == here {
        // Re-anchor on the group's first visible frame.
        0 <= r < pos && g(r) == here && forall|p: int| 0 <= p < r ==> #[trigger] g(p) != here
    } else if exists|j: int| 0 <= j < pos && foreign(#[trigger] g(j), here) {
        // The nearest foreign territory before, at its first visible frame.
        exists|j: int|
            #![trigger g(j)]
            {
                &&& 0 <= j < pos
                &&& foreign(g(j), here)
                &&& forall|k: int| j < k < pos ==> !foreign(#[trigger] g(k), here)
                &&& if g(j) is Some {
                    0 <= r <= j && g(r) == g(j) && forall|p: int|
                        0 <= p < r ==> #[trigger] g(p) != g(j)
                } else {
                    r == j
                }
            }
    } else {
        r == 0
    }
}

fn same_group(a: Option<usize>, b: Option<usize>) -> (r: bool)
    ensures
        r == (a == b),
{
    match (a, b) {
        (Some(x), Some(y)) => x == y,
        (None, None) => true,
        _ => false,
    }
}

/// The first position of group `target` before `end`, or `end`.
fn first_of<F: Fn(usize) -> Option<usize>>(group_of: &F, target: Option<usize>, end: usize) -> (r:
    usize)
    requires
        forall|i: int| 0 <= i < end ==> #[trigger] answers(*group_of, i),
    ensures
        r <= end,
        forall|p: int| 0 <= p < r ==> group_at(*group_of, p) != target,
        r < end ==> group_at(*group_of, r as int) == target,
{
    let mut p: usize = 0;
    while p < end
        invariant
            p <= end,
            forall|i: int| 0 <= i < end ==> #[trigger] answers(*group_of, i),
            forall|q: int| 0 <= q < p ==> group_at(*group_of, q) != target,
        decreases end - p,
    {
        assert(answers(*group_of, p as int));
        let g = group_of(p);
        assert(may_answer(*group_of, p, g));
        if same_group(g, target) {
            return p;
        }
        p = p + 1;
    }
    end
}

/// `[` / `]` navigation: from view position `pos`, the next/prev VIEW
/// position whose group differs from the cursor's (singles are their own
/// territory). Clamps at the ends; `group_of` maps a view position to the
/// group of that image.
///
/// Backwards, from mid-group, the first step RE-ANCHORS on the current
/// group's first visible frame; only from that first frame does it cross to
/// the previous group/single. Landing is always a group's first visible
/// member. Group members need not be contiguous in the view.
pub fn next_boundary<F: Fn(usize) -> Option<usize>>(
    pos: usize,
    len: usize,
    group_of: F,
    forward: bool,
) -> (r: usize)
    requires
        len > 0 ==> pos < usize::MAX,
        len > 0 ==> answers(group_of, pos as int),
        forall|i: int| 0 <= i < len || 0 <= i < pos && len > 0 ==> #[trigger] answers(group_of, i),
    ensures
        is_boundary(|i: int| group_at(group_of, i), pos as int, len as int, forward, r as int),
{
    if len == 0 {
        return 0;
    }
    let ghost g = |i: int| group_at(group_of, i);
    let here = group_of(pos);
    assert(may_answer(group_of, pos, here));
    if forward {
        let mut j: usize = pos;
        while j < len - 1
            invariant
                forward,
                pos <= j,
                j < len || j == pos,
                pos < usize::MAX,
                len > 0,
                g == (|i: int| group_at(group_of, i)),
                here == g(pos as int),
                forall|i: int| 0 <= i < len ==> #[trigger] answers(group_of, i),
                forall|k: int| pos < k <= j ==> !foreign(#[trigger] g(k), here),
            decreases len - j,
        {
            j = j + 1;
            assert(answers(group_of, j as int));
            let target = group_of(j);
            assert(may_answer(group_of, j, target));
            assert(g(j as int) == target);
            if !same_group(target, here) || target.is_none() {
                return j;
            }
        }
        len - 1
    } else {
        if here.is_some() {
            let first: usize = first_of(&group_of, here, pos);
            if first < pos {
                assert(g(first as int) == here);
                return first;
            }
            assert forall|p: int| 0 <= p < pos implies #[trigger] g(p) != here by {}
        }
        let mut j: usize = pos;
        while j > 0
            invariant
                !forward,
                j <= pos,
                len > 0,
                g == (|i: int| group_at(group_of, i)),
                here == g(pos as int),
                forall|i: int| 0 <= i < pos ==> #[trigger] answers(group_of, i),
                forall|k: int| j <= k < pos ==> !foreign(#[trigger] g(k), here),
                here is Some ==> forall|p: int| 0 <= p < pos ==> #[trigger] g(p) != here,
            decreases j,
        {
            j = j - 1;
            assert(answers(group_of, j as int));
            let target = group_of(j);
            assert(may_answer(group_of, j, target));
            assert(g(j as int) == target);
            if !same_group(target, here) || target.is_none() {
                if target.is_some() {
                    let end: usize = j + 1;
                    let first: usize = first_of(&group_of, target, end);
                    assert(g(j as int) == target);
                    assert(first < end) by {
                        if first == end {
                            assert(group_at(group_of, j as int) != target);
                        }
                    }
                    assert(g(first as int) == target);
                    assert forall|p: int| 0 <= p < first implies #[trigger] g(p) != g(
                        j as int,
                    ) by {}
                    return first;
                }
                // A single is its own territory.
                return j;
            }
        }
        0
    }
}

} // verus!
