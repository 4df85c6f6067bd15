//! Export frames as video: the selected frames' embedded full-res JPEGs,
//! copied byte-for-byte into ONE Motion JPEG QuickTime file.
//!
//! Same two-phase shape as the copy engine: a PLAN that never writes, then an
//! EXECUTE with BLAKE3 verification. Nothing at the destination is replaced
//! without the user's Overwrite answer, and no RAW is ever opened for
//! writing.
//!
//! This module decides three things the copy engine has no equivalent of:
//!
//! 1. **The cadence** — how long each frame is on screen — measured from
//!    the frames' own capture timestamps ([`Cadence`]).
//! 2. **Which frames may share one track** — a Motion JPEG track has ONE
//!    frame size and ONE display orientation, so anything that does not
//!    match the first frame is skipped and reported, never scaled.
//! 3. **Where the JPEG bytes are** — an offset and a length inside each
//!    RAW, so the write is a byte copy.
pub mod qt;
pub mod qt_laws;
pub mod qt_rules;
pub mod laws;

use crate::digest;
use crate::fileops;
use crate::order;
use crate::rounding;
use crate::text;
use vstd::prelude::*;
use vstd::string::*;

verus! {

/// Sample duration assumed when the frames carry no usable timing. 67 ms is
/// 1/15 s rounded to the movie timescale of 1000.
pub const ASSUMED_SAMPLE_MS: u32 = 67;

/// Shortest sample this module will write, in milliseconds — 9 ms is
/// 111 fps, the fastest whole-millisecond cadence within [10 fps, 120 fps].
pub const MIN_SAMPLE_MS: u32 = 9;

/// Longest sample this module will write: 100 ms is 10 fps.
pub const MAX_SAMPLE_MS: u32 = 100;

/// Longest destination file name this module will try to create, in BYTES.
pub const MAX_NAME_BYTES: usize = 255;

/// One frame offered to the export, in any order.
#[derive(Debug)]
pub struct ClipSource {
    /// Session image id.
    pub id: usize,
    pub path: String,
    /// The file's name as it is on disk (`DSC05010.ARW`): the output name
    /// is built from these stems, and it is the tiebreak when two frames
    /// carry the same timestamp.
    pub name: String,
    /// Capture instant in milliseconds. None = no usable timestamp.
    pub time_ms: Option<i64>,
    /// Did `SubSecTimeOriginal` contribute? Without it the timestamp has
    /// 1 s granularity and cannot measure a burst's cadence.
    pub has_subsec: bool,
}

impl Clone for ClipSource {
    fn clone(&self) -> (r: ClipSource)
        ensures
            r == *self,
    {
        ClipSource {
            id: self.id,
            path: self.path.clone(),
            name: self.name.clone(),
            time_ms: self.time_ms,
            has_subsec: self.has_subsec,
        }
    }
}

/// Why a frame is not in the file.
#[derive(Clone, Copy, Debug, PartialEq, Eq, Structural)]
pub enum SkipReason {
    /// No embedded JPEG that can be used.
    NoPreview,
    /// A different frame size from the first frame's. Scaling it would be
    /// a re-encode and padding it would be an edit, so it is left out.
    Size { width: u32, height: u32 },
    /// A different display orientation from the first frame's.
    Orientation(u16),
}

impl SkipReason {
    /// The reason in words.
    pub open spec fn words(&self) -> Seq<char> {
        match self {
            SkipReason::NoPreview => "no usable embedded JPEG"@,
            SkipReason::Size { width, height } => "different size ("@ + text::decimal(
                *width as int,
            ) + "×"@ + text::decimal(*height as int) + ")"@,
            SkipReason::Orientation(o) => "different orientation (EXIF "@ + text::decimal(
                *o as int,
            ) + ")"@,
        }
    }

    /// The reason as the dialog and the report say it — one phrase, so
    /// the two surfaces can never word the same fact differently.
    pub fn text(&self) -> (s: String)
        ensures
            s@ == self.words(),
    {
        match self {
            SkipReason::NoPreview => "no usable embedded JPEG".to_string(),
            SkipReason::Size { width, height } => {
                let mut s = "different size (".to_string();
                s.append(text::decimal_of(*width as u64).as_str());
                s.append("×");
                s.append(text::decimal_of(*height as u64).as_str());
                s.append(")");
                s
            },
            SkipReason::Orientation(o) => {
                let mut s = "different orientation (EXIF ".to_string();
                s.append(text::decimal_of(*o as u64).as_str());
                s.append(")");
                s
            },
        }
    }
}

#[derive(Debug)]
pub struct Skipped {
    pub id: usize,
    pub name: String,
    pub reason: SkipReason,
}

impl Clone for Skipped {
    fn clone(&self) -> (r: Skipped)
        ensures
            r == *self,
    {
        Skipped { id: self.id, name: self.name.clone(), reason: self.reason }
    }
}

/// One sample: where its bytes live inside the RAW.
#[derive(Clone, Debug)]
pub struct ClipFrame {
    pub id: usize,
    pub path: String,
    pub name: String,
    /// Byte offset of the embedded JPEG inside the RAW.
    pub offset: u64,
    /// Its length in bytes — this sample's size in the finished file.
    pub len: u64,
}

// ------------------------------------------------------------- the cadence
/// Where the frame rate came from.
#[derive(Clone, Copy, Debug, PartialEq, Eq, Structural)]
pub enum CadenceSource {
    /// Measured from the frames' own millisecond timestamps.
    Measured,
    /// No pair of frames carried millisecond timing: 15 fps assumed.
    NoTiming,
    /// Measured, but so far outside a playable range that it was pulled
    /// into it — two bodies interleaved, or a selection of singles.
    Clamped { median_ms: i64 },
}

#[derive(Clone, Copy, Debug, PartialEq, Eq, Structural)]
pub struct Cadence {
    /// How long ONE frame is on screen, in milliseconds (the movie
    /// timescale is 1000, so this is also the sample duration).
    pub sample_ms: u32,
    pub source: CadenceSource,
}

/// The rate of a sample duration in tenths of a frame per second: 10000
/// over the milliseconds, rounded to nearest. Of the five durations that
/// fall on a half, 32, 160, 800 and 4000 ms have an exact binary quotient
/// and go to the even tenth, below; that of 20000 ms lies just above the
/// half.
pub open spec fn fps_tenths(sample_ms: int) -> int {
    let ms = if sample_ms > 1 {
        sample_ms
    } else {
        1
    };
    if ms == 20000 {
        1
    } else {
        (20000 + ms - 1) / (2 * ms)
    }
}

/// A number of tenths with one decimal, trimmed: `30.3`, `10`, `111.1`.
pub open spec fn tenths_trimmed(t: int) -> Seq<char> {
    if t % 10 == 0 {
        text::decimal(t / 10)
    } else {
        text::decimal(t / 10) + "."@ + text::decimal(t % 10)
    }
}

/// A frame rate with one decimal, trimmed: `30.3`, `10`, `111.1`.
pub fn fps_text(sample_ms: u32) -> (s: String)
    ensures
        s@ == tenths_trimmed(fps_tenths(sample_ms as int)),
{
    let ms: u64 = if sample_ms > 1 {
        sample_ms as u64
    } else {
        1
    };
    let tenths: u64 = if ms == 20000 {
        1
    } else {
        (20000 + ms - 1) / (2 * ms)
    };
    assert(tenths == fps_tenths(sample_ms as int));
    let mut s = text::decimal_of(tenths / 10);
    if tenths % 10 != 0 {
        s.append(".");
        s.append(text::decimal_of(tenths % 10).as_str());
    }
    s
}

/// 2^53: whole numbers below it are exact in binary floating point.
pub const EXACT: u64 = 0x20_0000_0000_0000;

/// 2^52.
pub const HALF_EXACT: u64 = 0x10_0000_0000_0000;

/// The coarsest power of two, from `unit` on, under which `n` keeps to 53
/// bits.
pub open spec fn coarse_unit(n: int, unit: int) -> int
    decreases n - unit,
{
    if unit > 0 && n >= EXACT * unit && unit < n {
        coarse_unit(n, 2 * unit)
    } else {
        unit
    }
}

/// A whole number in binary floating point, which has 53 bits.
pub open spec fn nearest_double(n: int) -> int {
    let u = coarse_unit(n, 1);
    rounding::rounded(n, u) * u
}

/// The finest power of two, from `unit` on and up to 2^52, in which a
/// quotient keeps to 53 bits.
pub open spec fn fine_unit(n: int, d: int, unit: int) -> int
    decreases HALF_EXACT - unit,
{
    if 0 < unit && 2 * unit <= HALF_EXACT && n * (2 * unit) < EXACT * d {
        fine_unit(n, d, 2 * unit)
    } else {
        unit
    }
}

/// A whole number of milliseconds in tenths of a second, to nearest with
/// ties to even, of the quotient that binary floating point has.
pub open spec fn gap_tenths(ms: int) -> int {
    let m = nearest_double(ms);
    if m >= EXACT * 1000 {
        // Beyond 53 bits there are only even whole seconds.
        10 * (2 * rounding::rounded(m, 2000))
    } else {
        let u = fine_unit(m, 1000, 1);
        rounding::rounded(10 * rounding::rounded(m * u, 1000), u)
    }
}

/// A gap in the units it is easiest to recognise: `4.0 s`, `250 ms`.
pub open spec fn gap_words(ms: int) -> Seq<char> {
    if ms >= 1000 {
        text::decimal(gap_tenths(ms) / 10) + "."@ + text::decimal(gap_tenths(ms) % 10) + " s"@
    } else {
        text::signed_decimal(ms) + " ms"@
    }
}

fn double_of(n: u64) -> (m: u128)
    requires
        n < 0x8000_0000_0000_0000,
    ensures
        m == nearest_double(n as int),
        n < EXACT ==> m == n,
        m <= 0x8000_0000_0000_0000,
{
    let mut unit: u128 = 1;
    while n as u128 >= EXACT as u128 * unit
        invariant
            1 <= unit <= 2048,
            n < 0x8000_0000_0000_0000,
            coarse_unit(n as int, 1) == coarse_unit(n as int, unit as int),
            unit == 1 || n >= EXACT * (unit as int / 2),
            unit == 1 || unit == 2 || unit == 4 || unit == 8 || unit == 16 || unit == 32 || unit
                == 64 || unit == 128 || unit == 256 || unit == 512 || unit == 1024 || unit == 2048,
        decreases 4096 - unit,
    {
        assert(n as int >= EXACT * unit as int);
        assert(unit < 1024) by {
            if unit >= 1024 {
                assert(EXACT * 1024 == 0x8000_0000_0000_0000);
            }
        }
        unit = 2 * unit;
    }
    let q: u128 = rounding::round_half_even(n as u128, unit);
    proof {
        assert(rounding::rounded(n as int, 1) == n);
        if n < EXACT {
            assert(unit == 1);
            assert(q == n);
        }
        let d = unit as int;
        assert(q * d <= n as int + d) by (nonlinear_arith)
            requires
                q == rounding::rounded(n as int, d),
                d >= 1,
                n >= 0,
        ;
        assert(q * unit <= 0x8000_0000_0000_0000) by (nonlinear_arith)
            requires
                q == rounding::rounded(n as int, d),
                d == unit,
                1 <= d <= 1024 || d == 2048,
                0 <= n < 0x8000_0000_0000_0000,
                d == 1 || d == 2 || d == 4 || d == 8 || d == 16 || d == 32 || d == 64 || d == 128
                    || d == 256 || d == 512 || d == 1024 || d == 2048,
        ;
    }
    q * unit
}

fn tenths_of(ms: u64) -> (t: u128)
    requires
        1000 <= ms < 0x8000_0000_0000_0000,
    ensures
        t == gap_tenths(ms as int),
        t <= 0x1_0000_0000_0000_0000,
{
    let m: u128 = double_of(ms);
    if m >= EXACT as u128 * 1000 {
        let q: u128 = rounding::round_half_even(m, 2000);
        proof {
            assert(q <= m / 2000 + 1);
        }
        return 10 * (2 * q);
    }
    let mut unit: u128 = 1;
    let mut grown: u128 = m;
    while 2 * unit <= HALF_EXACT as u128 && 2 * grown < EXACT as u128 * 1000
        invariant
            1 <= unit <= HALF_EXACT,
            grown < EXACT * 1000,
            grown == m * unit,
            fine_unit(m as int, 1000, 1) == fine_unit(m as int, 1000, unit as int),
        decreases HALF_EXACT - unit,
    {
        assert(m * (2 * unit) == 2 * (m * unit)) by (nonlinear_arith);
        unit = 2 * unit;
        grown = 2 * grown;
    }
    assert(m * (2 * unit) == 2 * (m * unit)) by (nonlinear_arith);
    let scaled: u128 = rounding::round_half_even(grown, 1000);
    assert(scaled <= EXACT);
    let t: u128 = rounding::round_half_even(10 * scaled, unit);
    proof {
        assert(t <= 10 * scaled + 1) by (nonlinear_arith)
            requires
                t == rounding::rounded(10 * scaled as int, unit as int),
                unit >= 1,
                scaled >= 0,
        ;
    }
    t
}

/// A gap in the units it is easiest to recognise: `4.0 s`, `250 ms`.
pub fn gap_text(ms: i64) -> (s: String)
    ensures
        s@ == gap_words(ms as int),
{
    if ms >= 1000 {
        let t: u128 = tenths_of(ms as u64);
        let mut s = text::decimal_of((t / 10) as u64);
        s.append(".");
        s.append(text::decimal_of((t % 10) as u64).as_str());
        s.append(" s");
        s
    } else {
        let mut s = text::signed_decimal_of(ms);
        s.append(" ms");
        s
    }
}

impl Cadence {
    /// The cadence in words.
    pub open spec fn words(&self) -> Seq<char> {
        let rate = tenths_trimmed(fps_tenths(self.sample_ms as int));
        match self.source {
            CadenceSource::Measured => rate + " fps"@,
            CadenceSource::NoTiming => "timing not in the files — assumed 15 fps"@,
            CadenceSource::Clamped { median_ms } => "gaps of "@ + gap_words(median_ms as int)
                + " — clamped to "@ + rate + " fps"@,
        }
    }

    /// The cadence as ONE phrase for the plan line and the report.
    ///
    /// When the cadence was measured this is just the rate. In the two
    /// fallback cases it says what happened INSTEAD of the bare rate.
    pub fn text(&self) -> (s: String)
        ensures
            s@ == self.words(),
    {
        match self.source {
            CadenceSource::Measured => {
                let mut s = fps_text(self.sample_ms);
                s.append(" fps");
                s
            },
            CadenceSource::NoTiming => "timing not in the files — assumed 15 fps".to_string(),
            CadenceSource::Clamped { median_ms } => {
                let mut s = "gaps of ".to_string();
                s.append(gap_text(median_ms).as_str());
                s.append(" — clamped to ");
                s.append(fps_text(self.sample_ms).as_str());
                s.append(" fps");
                s
            },
        }
    }
}

/// Do two neighbors measure a gap? Both need millisecond precision.
pub open spec fn measures(a: ClipSource, b: ClipSource) -> bool {
    a.time_ms is Some && b.time_ms is Some && a.has_subsec && b.has_subsec
}

pub open spec fn gap_between(a: ClipSource, b: ClipSource) -> int {
    let d = b.time_ms->0 - a.time_ms->0;
    if d < 0 {
        -d
    } else {
        d
    }
}

/// Every gap that is measured fits 64 bits.
pub open spec fn gaps_fit(frames: Seq<ClipSource>) -> bool {
    forall|i: int|
        1 <= i < frames.len() && measures(frames[i - 1], #[trigger] frames[i]) ==> gap_between(
            frames[i - 1],
            frames[i],
        ) <= i64::MAX
}

/// The gaps between consecutive frames, in order.
pub open spec fn gaps_of(frames: Seq<ClipSource>) -> Seq<i64>
    decreases frames.len(),
{
    if frames.len() < 2 {
        Seq::empty()
    } else {
        let n = frames.len() as int;
        let front = gaps_of(frames.drop_last());
        if measures(frames[n - 2], frames[n - 1]) {
            front.push(gap_between(frames[n - 2], frames[n - 1]) as i64)
        } else {
            front
        }
    }
}

/// The numbers in rising order.
pub open spec fn rising(gaps: Seq<i64>) -> Seq<usize> {
    order::stable_order_of(gaps.len() as int, |a: int, b: int| gaps[a] <= gaps[b])
}

/// The middle one of some numbers, the upper of two.
pub open spec fn median_of(gaps: Seq<i64>) -> i64 {
    gaps[rising(gaps)[gaps.len() as int / 2] as int]
}

/// The cadence of some frames in capture order.
pub open spec fn cadence_of(frames: Seq<ClipSource>) -> Cadence {
    let gaps = gaps_of(frames);
    if gaps.len() == 0 {
        Cadence { sample_ms: ASSUMED_SAMPLE_MS, source: CadenceSource::NoTiming }
    } else {
        let m = median_of(gaps);
        if m < MIN_SAMPLE_MS {
            Cadence { sample_ms: MIN_SAMPLE_MS, source: CadenceSource::Clamped { median_ms: m } }
        } else if m > MAX_SAMPLE_MS {
            Cadence { sample_ms: MAX_SAMPLE_MS, source: CadenceSource::Clamped { median_ms: m } }
        } else {
            Cadence { sample_ms: m as u32, source: CadenceSource::Measured }
        }
    }
}

/// Measure the cadence from the frames' own capture times.
///
/// Only gaps between CONSECUTIVE frames that BOTH carry millisecond
/// precision are measured. With no such pair at all the export falls back
/// to 15 fps and says so. The MEDIAN gap, not the mean: two bursts selected
/// together have one huge gap between them, and a mean would stretch every
/// frame of both to hide it.
pub fn cadence(frames: &[ClipSource]) -> (c: Cadence)
    requires
        gaps_fit(frames@),
    ensures
        c == cadence_of(frames@),
{
    let mut gaps: Vec<i64> = Vec::new();
    let mut i: usize = 1;
    assert(frames@.len() >= 1 ==> gaps_of(frames@.take(1)) =~= Seq::empty());
    while i < frames.len()
        invariant
            1 <= i,
            frames@.len() > 0 ==> i <= frames@.len(),
            gaps_fit(frames@),
            frames@.len() > 0 ==> gaps@ == gaps_of(frames@.take(i as int)),
            frames@.len() == 0 ==> gaps@.len() == 0,
        decreases frames@.len() - i,
    {
        let a = &frames[i - 1];
        let b = &frames[i];
        let ghost t = frames@.take(i + 1);
        assert(t.drop_last() =~= frames@.take(i as int));
        assert(t[i as int] == *b && t[i - 1] == *a);
        if let (Some(x), Some(y)) = (a.time_ms, b.time_ms) {
            if a.has_subsec && b.has_subsec {
                assert(measures(frames@[i - 1], frames@[i as int]));
                let d: i64 = y - x;
                gaps.push(
                    if d < 0 {
                        -d
                    } else {
                        d
                    },
                );
            }
        }
        i = i + 1;
    }
    proof {
        if frames@.len() > 0 {
            assert(frames@.take(i as int) =~= frames@);
        }
    }
    if gaps.len() == 0 {
        return Cadence { sample_ms: ASSUMED_SAMPLE_MS, source: CadenceSource::NoTiming };
    }
    let n: usize = gaps.len();
    let ghost le = |a: int, b: int| gaps@[a] <= gaps@[b];
    let not_after = |a: usize, b: usize| -> (r: bool)
        requires
            a < gaps@.len() && b < gaps@.len(),
        ensures
            r == (gaps@[a as int] <= gaps@[b as int]),
        { gaps[a] <= gaps[b] };
    let p = order::stable_order(n, &not_after, Ghost(le));
    let median: i64 = gaps[p[n / 2]];
    assert(median == median_of(gaps@));
    if median < MIN_SAMPLE_MS as i64 {
        Cadence {
            sample_ms: MIN_SAMPLE_MS,
            source: CadenceSource::Clamped { median_ms: median },
        }
    } else if median > MAX_SAMPLE_MS as i64 {
        Cadence {
            sample_ms: MAX_SAMPLE_MS,
            source: CadenceSource::Clamped { median_ms: median },
        }
    } else {
        Cadence { sample_ms: median as u32, source: CadenceSource::Measured }
    }
}

// --------------------------------------------------------------- the skips
/// The distinct reasons in the order they first came up, with how often each
/// did.
pub open spec fn skip_groups(skipped: Seq<Skipped>) -> Seq<(Seq<char>, int)>
    decreases skipped.len(),
{
    if skipped.len() == 0 {
        Seq::empty()
    } else {
        let front = skip_groups(skipped.drop_last());
        let words = skipped.last().reason.words();
        let k = group_at(front, words);
        if k < front.len() {
            front.update(k, (words, front[k].1 + 1))
        } else {
            front.push((words, 1))
        }
    }
}

/// The first group of these words, or the number of groups.
pub open spec fn group_at(groups: Seq<(Seq<char>, int)>, words: Seq<char>) -> int
    decreases groups.len(),
{
    if groups.len() == 0 {
        0
    } else if groups[0].0 == words {
        0
    } else {
        1 + group_at(groups.drop_first(), words)
    }
}

/// Most frames first; equal numbers in the order they came up.
pub open spec fn biggest_first(groups: Seq<(Seq<char>, int)>) -> Seq<usize> {
    order::stable_order_of(groups.len() as int, |a: int, b: int| groups[a].1 >= groups[b].1)
}

/// "2 frames: different size (5616×3744)"
pub open spec fn group_words(g: (Seq<char>, int)) -> Seq<char> {
    text::decimal(g.1) + (if g.1 == 1 {
        " frame: "@
    } else {
        " frames: "@
    }) + g.0
}

/// The first `k` groups in their order, with dots between them.
pub open spec fn joined_groups(groups: Seq<(Seq<char>, int)>, p: Seq<usize>, k: int) -> Seq<char>
    decreases k,
{
    if k <= 0 {
        Seq::empty()
    } else if k == 1 {
        group_words(groups[p[0] as int])
    } else {
        joined_groups(groups, p, k - 1) + " · "@ + group_words(groups[p[k - 1] as int])
    }
}

/// The skips as one sentence.
pub open spec fn skipped_words(skipped: Seq<Skipped>) -> Seq<char> {
    if skipped.len() == 0 {
        Seq::empty()
    } else {
        let groups = skip_groups(skipped);
        "skipped — "@ + joined_groups(groups, biggest_first(groups), groups.len() as int)
    }
}

/// The model of the groups while they are counted.
spec fn count_views(v: Seq<(String, usize)>) -> Seq<(Seq<char>, int)> {
    Seq::new(v.len(), |i: int| (v[i].0@, v[i].1 as int))
}

proof fn lemma_group_at(groups: Seq<(Seq<char>, int)>, words: Seq<char>, k: int)
    requires
        0 <= k <= groups.len(),
        forall|i: int| 0 <= i < k ==> (#[trigger] groups[i]).0 != words,
        k < groups.len() ==> groups[k].0 == words,
    ensures
        group_at(groups, words) == k,
    decreases k,
{
    if k > 0 {
        assert(groups[0].0 != words);
        let rest = groups.drop_first();
        assert forall|i: int| 0 <= i < k - 1 implies (#[trigger] rest[i]).0 != words by {
            assert(rest[i] == groups[i + 1]);
        }
        lemma_group_at(rest, words, k - 1);
    }
}

/// The one place skip reasons are turned into a sentence — the plan line
/// and the report share it so they can never disagree.
pub fn skipped_text(skipped: &[Skipped]) -> (s: String)
    ensures
        s@ == skipped_words(skipped@),
{
    if skipped.len() == 0 {
        return String::new();
    }
    let mut groups: Vec<(String, usize)> = Vec::new();
    let mut i: usize = 0;
    assert(skipped@.take(0) =~= Seq::empty());
    assert(count_views(groups@) =~= Seq::empty());
    while i < skipped.len()
        invariant
            i <= skipped@.len(),
            groups@.len() <= i,
            i > 0 ==> groups@.len() > 0,
            count_views(groups@) == skip_groups(skipped@.take(i as int)),
            forall|j: int| 0 <= j < groups@.len() ==> (#[trigger] groups@[j]).1 <= i,
        decreases skipped@.len() - i,
    {
        let words = skipped[i].reason.text();
        let ghost had = count_views(groups@);
        let ghost t = skipped@.take(i + 1);
        assert(t.drop_last() =~= skipped@.take(i as int));
        let mut k: usize = 0;
        while k < groups.len() && !text::same(groups[k].0.as_str(), words.as_str())
            invariant
                k <= groups@.len(),
                had == count_views(groups@),
                forall|j: int| 0 <= j < k ==> (#[trigger] had[j]).0 != words@,
            decreases groups@.len() - k,
        {
            k = k + 1;
        }
        proof {
            lemma_group_at(had, words@, k as int);
        }
        if k < groups.len() {
            let n: usize = groups[k].1 + 1;
            let again = groups[k].0.clone();
            groups.set(k, (again, n));
            assert(count_views(groups@) =~= had.update(k as int, (words@, had[k as int].1 + 1)));
        } else {
            groups.push((words, 1));
            assert(count_views(groups@) =~= had.push((words@, 1)));
        }
        i = i + 1;
    }
    assert(skipped@.take(i as int) =~= skipped@);
    let ghost g = count_views(groups@);
    let ghost le = |a: int, b: int| g[a].1 >= g[b].1;
    let not_after = |a: usize, b: usize| -> (r: bool)
        requires
            a < groups@.len() && b < groups@.len(),
        ensures
            r == (groups@[a as int].1 >= groups@[b as int].1),
        { groups[a].1 >= groups[b].1 };
    let p = order::stable_order(groups.len(), &not_after, Ghost(le));
    assert(p@ == biggest_first(g));
    let mut parts = String::new();
    let mut k: usize = 0;
    while k < p.len()
        invariant
            k <= p@.len(),
            p@.len() == groups@.len(),
            g == count_views(groups@),
            order::arranges(p@, 0, groups@.len() as int),
            parts@ == joined_groups(g, p@, k as int),
        decreases p@.len() - k,
    {
        let ghost had = parts@;
        let at: usize = p[k];
        assert(0 <= p@[k as int] < groups@.len());
        if k > 0 {
            parts.append(" · ");
        }
        let n: usize = groups[at].1;
        parts.append(text::decimal_of(n as u64).as_str());
        if n == 1 {
            parts.append(" frame: ");
        } else {
            parts.append(" frames: ");
        }
        parts.append(groups[at].0.as_str());
        proof {
            assert(g[at as int] == (groups@[at as int].0@, n as int));
            if k == 0 {
                assert(parts@ =~= group_words(g[at as int]));
            } else {
                assert(parts@ =~= had + " · "@ + group_words(g[at as int]));
            }
        }
        k = k + 1;
    }
    let mut s = "skipped — ".to_string();
    s.append(parts.as_str());
    s
}

/// EXIF orientation reduced to the rotation the track matrix can carry: the
/// mirrored ones lose their flip, and what is no orientation is "as stored".
pub open spec fn rotation_of(orientation: u16) -> u16 {
    if orientation == 4 {
        3
    } else if orientation == 5 {
        8
    } else if orientation == 7 {
        6
    } else if orientation == 3 || orientation == 6 || orientation == 8 {
        orientation
    } else {
        1
    }
}

/// EXIF orientation reduced to the rotation the track matrix can carry.
///
/// QuickTime's matrix can rotate but not mirror in any way a phone editor
/// honours, so the four mirrored orientations degrade to their unmirrored
/// counterpart — the same picture, un-flipped.
pub fn unmirrored(orientation: u16) -> (r: u16)
    ensures
        r == rotation_of(orientation),
{
    match orientation {
        2 => 1,
        4 => 3,
        5 => 8,
        7 => 6,
        1 | 3 | 6 | 8 => orientation,
        // Anything else is not an EXIF orientation at all (a corrupt tag):
        // treat it as "as stored".
        _ => 1,
    }
}

/// One of the four EXIF orientations that flip the picture.
pub open spec fn is_mirrored(orientation: u16) -> bool {
    orientation == 2 || orientation == 4 || orientation == 5 || orientation == 7
}

/// Bytes a file of so many frames occupies: the samples and the header.
pub open spec fn bytes_of_file(sample_bytes: int, frames: int) -> int {
    sample_bytes + qt::header_size(frames, sample_bytes)
}

/// Bytes the finished file occupies: the samples plus this module's exact
/// header.
pub fn file_bytes(sample_bytes: u64, frames: usize) -> (n: u64)
    requires
        bytes_of_file(sample_bytes as int, frames as int) <= u64::MAX,
    ensures
        n == bytes_of_file(sample_bytes as int, frames as int),
{
    sample_bytes + qt::header_len(frames, sample_bytes)
}

// --------------------------------------------------------------- the scope
/// The positions of a group among the first `i`.
pub open spec fn group_members(group_of: Seq<Option<usize>>, g: usize, i: int) -> Seq<usize>
    decreases i,
{
    if i <= 0 {
        Seq::empty()
    } else if group_of[i - 1] == Some(g) {
        group_members(group_of, g, i - 1).push((i - 1) as usize)
    } else {
        group_members(group_of, g, i - 1)
    }
}

/// The frames the export would take.
pub open spec fn scope_of(
    selected: Seq<usize>,
    cursor: int,
    group_of: Seq<Option<usize>>,
) -> Seq<usize> {
    if selected.len() > 0 {
        selected
    } else if 0 <= cursor < group_of.len() && group_of[cursor] is Some {
        group_members(group_of, group_of[cursor]->0, group_of.len() as int)
    } else {
        Seq::empty()
    }
}

/// Which frames the export would take.
///
/// The SELECTION when there is one. With nothing selected, the BURST under
/// the cursor, whole, including any of its frames the current filter hides.
/// Neither → nothing. The ids come back in `group_of` order.
pub fn scope(selected: &[usize], cursor: usize, group_of: &[Option<usize>]) -> (ids: Vec<usize>)
    ensures
        ids@ == scope_of(selected@, cursor as int, group_of@),
{
    let mut ids: Vec<usize> = Vec::new();
    if selected.len() > 0 {
        ids.extend_from_slice(selected);
        assert(ids@ =~= selected@);
        return ids;
    }
    if cursor >= group_of.len() {
        return ids;
    }
    let group: usize = match group_of[cursor] {
        Some(g) => g,
        None => {
            return ids;
        },
    };
    let mut i: usize = 0;
    while i < group_of.len()
        invariant
            i <= group_of@.len(),
            ids@ == group_members(group_of@, group, i as int),
        decreases group_of@.len() - i,
    {
        let member: bool = match group_of[i] {
            Some(g) => g == group,
            None => false,
        };
        if member {
            ids.push(i);
        }
        i = i + 1;
    }
    ids
}

/// How many frames the export would take, WITHOUT building the list: the
/// selection count, or the size of the burst under the cursor.
pub fn scope_len(selected: usize, burst_size: usize) -> (n: usize)
    ensures
        n == if selected > 0 {
            selected
        } else {
            burst_size
        },
{
    if selected > 0 {
        selected
    } else {
        burst_size
    }
}

/// The count and the list always agree: the list is as long as the
/// selection, or else as the burst under the cursor, or empty.
pub proof fn lemma_scope_and_its_count_agree(
    selected: Seq<usize>,
    cursor: int,
    group_of: Seq<Option<usize>>,
)
    ensures
        scope_of(selected, cursor, group_of).len() == if selected.len() > 0 {
            selected.len()
        } else if 0 <= cursor < group_of.len() && group_of[cursor] is Some {
            crate::burst::members_before(
                group_of,
                group_of[cursor]->0,
                group_of.len() as int,
            )
        } else {
            0
        },
{
    if 0 <= cursor < group_of.len() && group_of[cursor] is Some {
        lemma_members_counted(group_of, group_of[cursor]->0, group_of.len() as int);
    }
}

proof fn lemma_members_counted(group_of: Seq<Option<usize>>, g: usize, i: int)
    ensures
        group_members(group_of, g, i).len() == crate::burst::members_before(group_of, g, i),
    decreases i,
{
    if i > 0 {
        lemma_members_counted(group_of, g, i - 1);
    }
}

/// Why the export cannot run, in the words the status line says it —
/// `None` when it can.
pub fn unavailable_reason(frames: usize) -> (r: Option<&'static str>)
    ensures
        match r {
            Some(s) => frames < 2 && s@ == if frames == 0 {
                "select frames or stand in a burst"@
            } else {
                "one frame is not a video — select more, or stand in a burst"@
            },
            None => frames >= 2,
        },
{
    match frames {
        0 => Some("select frames or stand in a burst"),
        1 => Some("one frame is not a video — select more, or stand in a burst"),
        _ => None,
    }
}

// --------------------------------------------------------------- the order
/// Capture order: timestamp first, file name as the tiebreak, frames
/// without a timestamp last.
pub open spec fn captured_before(a: ClipSource, b: ClipSource) -> bool {
    match (a.time_ms, b.time_ms) {
        (Some(x), Some(y)) => x < y || (x == y && text::text_le(a.name@, b.name@)),
        (Some(_), None) => true,
        (None, Some(_)) => false,
        (None, None) => text::text_le(a.name@, b.name@),
    }
}

/// The capture order of some frames.
pub open spec fn capture_positions(sources: Seq<ClipSource>) -> Seq<usize> {
    order::stable_order_of(
        sources.len() as int,
        |a: int, b: int| captured_before(sources[a], sources[b]),
    )
}

/// The frames in capture order.
pub open spec fn in_capture_order(sources: Seq<ClipSource>) -> Seq<ClipSource> {
    let p = capture_positions(sources);
    Seq::new(sources.len(), |i: int| sources[p[i] as int])
}

proof fn lemma_capture_preorder(sources: Seq<ClipSource>)
    ensures
        order::is_preorder(
            sources.len() as int,
            |a: int, b: int| captured_before(sources[a], sources[b]),
        ),
{
    let le = |a: int, b: int| captured_before(sources[a], sources[b]);
    assert forall|a: int, b: int|
        0 <= a < sources.len() && 0 <= b < sources.len() implies #[trigger] le(a, b) || le(b, a) by {
        text::lemma_text_le(sources[a].name@, sources[b].name@, sources[a].name@);
    }
    assert forall|a: int, b: int, c: int|
        0 <= a < sources.len() && 0 <= b < sources.len() && 0 <= c < sources.len() && #[trigger] le(
            a,
            b,
        ) && #[trigger] le(b, c) implies le(a, c) by {
        text::lemma_text_le(sources[a].name@, sources[b].name@, sources[c].name@);
    }
}

fn capture_indices(sources: &[ClipSource]) -> (p: Vec<usize>)
    ensures
        p@ == capture_positions(sources@),
        order::arranges(p@, 0, sources@.len() as int),
{
    let ghost le = |a: int, b: int| captured_before(sources@[a], sources@[b]);
    proof {
        lemma_capture_preorder(sources@);
    }
    let not_after = |a: usize, b: usize| -> (r: bool)
        requires
            a < sources@.len() && b < sources@.len(),
        ensures
            r == captured_before(sources@[a as int], sources@[b as int]),
        {
            let x = &sources[a];
            let y = &sources[b];
            match (x.time_ms, y.time_ms) {
                (Some(s), Some(t)) => {
                    s < t || (s == t && text::not_after(x.name.as_str(), y.name.as_str()))
                },
                (Some(_), None) => true,
                (None, Some(_)) => false,
                (None, None) => text::not_after(x.name.as_str(), y.name.as_str()),
            }
        };
    order::stable_order(sources.len(), &not_after, Ghost(le))
}

/// Capture order: timestamp first, file name as the tiebreak, frames
/// without a timestamp last (the same rule the grid sorts by, so "capture
/// order" means one thing in this library).
pub fn capture_order(sources: &[ClipSource]) -> (ordered: Vec<ClipSource>)
    ensures
        ordered@ == in_capture_order(sources@),
{
    let p = capture_indices(sources);
    let mut ordered: Vec<ClipSource> = Vec::new();
    let mut i: usize = 0;
    while i < p.len()
        invariant
            i <= p@.len(),
            p@.len() == sources@.len(),
            order::arranges(p@, 0, sources@.len() as int),
            ordered@.len() == i,
            forall|j: int| 0 <= j < i ==> #[trigger] ordered@[j] == sources@[p@[j] as int],
        decreases p@.len() - i,
    {
        assert(0 <= p@[i as int] < sources@.len());
        ordered.push(sources[p[i]].clone());
        i = i + 1;
    }
    assert(ordered@ =~= in_capture_order(sources@));
    ordered
}

/// `DSC05010-DSC05039.mov`: first and last stem, or the one stem they share.
pub open spec fn name_of_range(first: Seq<char>, last: Seq<char>) -> Seq<char> {
    let a = text::stem_of(first);
    let b = text::stem_of(last);
    if a == b {
        a + ".mov"@
    } else {
        a + "-"@ + b + ".mov"@
    }
}

/// `DSC05010-DSC05039.mov` — first and last stem in capture order, so the
/// name doubles as the frame-range record. Two frames whose stems are equal
/// (the same name with two extensions) collapse to one stem rather than
/// producing `a-a.mov`.
pub fn clip_name(first: &str, last: &str) -> (s: String)
    ensures
        s@ == name_of_range(first@, last@),
{
    let (a, _) = text::split_name(first);
    let (b, _) = text::split_name(last);
    let mut s = a.clone();
    if !text::same(a.as_str(), b.as_str()) {
        s.append("-");
        s.append(b.as_str());
    }
    s.append(".mov");
    s
}

// ---------------------------------------------------------------- the plan
/// What the write will do with the destination name — the copy engine's
/// [`fileops::PlanAction`], minus the cases that only exist for a pair of
/// files.
#[derive(Clone, Copy, Debug, PartialEq, Eq, Structural)]
pub enum ClipAction {
    /// The name is free.
    Write,
    /// The name was taken and the user answered "keep both": this lands
    /// under `_1`, `_2`, …
    WriteRenamed,
    /// The name was taken and the user answered "overwrite".
    Replace,
    /// The name is taken and nothing has been decided yet
    /// ([`fileops::ClashPolicy::Ask`]). Never executed: it is the question.
    Clash,
}

/// Why there is no plan.
#[derive(Debug)]
pub enum ClipError {
    /// Fewer than two frames could share one track. `skipped` carries
    /// WHY the others could not.
    TooFewFrames { kept: usize, skipped: Vec<Skipped> },
    DestNotADirectory,
    InsufficientSpace { needed: u64, free: u64 },
    NameTooLong { name: String, len: usize },
}

/// What a [`ClipError`] says.
pub ghost enum ClipFault {
    TooFewFrames { kept: int, skipped: Seq<Skipped> },
    DestNotADirectory,
    InsufficientSpace { needed: int, free: int },
    NameTooLong { name: Seq<char>, len: int },
}

impl View for ClipError {
    type V = ClipFault;

    open spec fn view(&self) -> ClipFault {
        match self {
            ClipError::TooFewFrames { kept, skipped } => ClipFault::TooFewFrames {
                kept: *kept as int,
                skipped: skipped@,
            },
            ClipError::DestNotADirectory => ClipFault::DestNotADirectory,
            ClipError::InsufficientSpace { needed, free } => ClipFault::InsufficientSpace {
                needed: *needed as int,
                free: *free as int,
            },
            ClipError::NameTooLong { name, len } => ClipFault::NameTooLong {
                name: name@,
                len: *len as int,
            },
        }
    }
}

impl ClipError {
    /// The message the dialog shows.
    pub fn text(&self) -> (s: String)
        ensures
            s@ == match self@ {
                ClipFault::TooFewFrames { kept, .. } => "a video needs at least 2 frames; "@
                    + text::decimal(kept) + " would be left"@,
                ClipFault::DestNotADirectory => "the destination is not a folder"@,
                ClipFault::InsufficientSpace { needed, free } => "not enough free space: need "@
                    + text::decimal(needed) + " bytes, "@ + text::decimal(free) + " available"@,
                ClipFault::NameTooLong { name, len } => "the file name would be "@ + text::decimal(
                    len,
                ) + " bytes long, which no filesystem accepts: "@ + name,
            },
    {
        match self {
            ClipError::TooFewFrames { kept, skipped: _ } => {
                let mut s = "a video needs at least 2 frames; ".to_string();
                s.append(text::decimal_of(*kept as u64).as_str());
                s.append(" would be left");
                s
            },
            ClipError::DestNotADirectory => "the destination is not a folder".to_string(),
            ClipError::InsufficientSpace { needed, free } => {
                let mut s = "not enough free space: need ".to_string();
                s.append(text::decimal_of(*needed).as_str());
                s.append(" bytes, ");
                s.append(text::decimal_of(*free).as_str());
                s.append(" available");
                s
            },
            ClipError::NameTooLong { name, len } => {
                let mut s = "the file name would be ".to_string();
                s.append(text::decimal_of(*len as u64).as_str());
                s.append(" bytes long, which no filesystem accepts: ");
                s.append(name.as_str());
                s
            },
        }
    }
}

/// What was found in one RAW: where its embedded full-res JPEG is, how big
/// it is, and the file's EXIF orientation.
#[derive(Clone, Copy, Debug, PartialEq, Eq, Structural)]
pub struct Probe {
    pub offset: u64,
    pub len: u64,
    pub width: u32,
    pub height: u32,
    pub orientation: u16,
}

/// What was found at the destination.
#[derive(Clone, Copy, Debug, PartialEq, Eq, Structural)]
pub struct Destination {
    /// Something is there and it is not a folder. (Nothing there at all is
    /// fine: the write creates the folder.)
    pub blocked: bool,
    /// How many names are occupied before the first free one, in the row
    /// that [`candidate_name`] gives: the natural name, `_1`, `_2`, …
    pub taken: usize,
}

/// The inspectable plan the dialog previews.
#[derive(Clone, Debug)]
pub struct ClipPlan {
    /// The samples, in CAPTURE ORDER — the file's own order, whatever the
    /// grid was sorted by.
    pub frames: Vec<ClipFrame>,
    /// Frame size of every sample (the first frame's; the rest matched it
    /// or were skipped).
    pub width: u32,
    pub height: u32,
    /// Display orientation carried by the track matrix, already reduced
    /// to its unmirrored counterpart (1, 3, 6 or 8).
    pub orientation: u16,
    /// How many kept frames had a MIRRORED EXIF orientation (2/4/5/7) and
    /// were treated as their unmirrored counterpart.
    pub mirrored: usize,
    pub cadence: Cadence,
    /// Frames left out, with their reason.
    pub skipped: Vec<Skipped>,
    /// The name of the file this plan writes, in the destination folder.
    pub dst: String,
    pub action: ClipAction,
    /// The JPEG bytes alone.
    pub sample_bytes: u64,
    /// What the finished file will occupy: samples plus the header, which
    /// is known exactly because every sample size is known.
    pub total_bytes: u64,
    /// None = the free-space query failed ("free space unknown").
    pub free_bytes: Option<u64>,
    /// [`fileops::ClashPolicy::Ask`] only: the name a "keep both" answer
    /// would really land under, so the question can name it.
    pub keep_both_example: Option<String>,
}

/// The model of a [`ClipPlan`].
pub ghost struct ClipPlanView {
    pub frames: Seq<ClipFrame>,
    pub width: u32,
    pub height: u32,
    pub orientation: u16,
    pub mirrored: int,
    pub cadence: Cadence,
    pub skipped: Seq<Skipped>,
    pub dst: Seq<char>,
    pub action: ClipAction,
    pub sample_bytes: int,
    pub total_bytes: int,
    pub free_bytes: Option<u64>,
    pub keep_both_example: Option<Seq<char>>,
}

impl View for ClipPlan {
    type V = ClipPlanView;

    open spec fn view(&self) -> ClipPlanView {
        ClipPlanView {
            frames: self.frames@,
            width: self.width,
            height: self.height,
            orientation: self.orientation,
            mirrored: self.mirrored as int,
            cadence: self.cadence,
            skipped: self.skipped@,
            dst: self.dst@,
            action: self.action,
            sample_bytes: self.sample_bytes as int,
            total_bytes: self.total_bytes as int,
            free_bytes: self.free_bytes,
            keep_both_example: text::opt_text(self.keep_both_example),
        }
    }
}

impl ClipPlan {
    /// Playing time of the finished file, in milliseconds.
    pub fn duration_ms(&self) -> (ms: u64)
        requires
            self.frames@.len() * self.cadence.sample_ms <= u64::MAX,
        ensures
            ms == self.frames@.len() * self.cadence.sample_ms,
    {
        self.frames.len() as u64 * self.cadence.sample_ms as u64
    }

    /// The destination's file name.
    pub fn file_name(&self) -> (s: String)
        ensures
            s@ == self.dst@,
    {
        self.dst.clone()
    }

    /// Skips grouped by reason, most frames first: "2 frames skipped:
    /// different size (5616×3744)". Empty when nothing was skipped.
    pub fn skipped_text(&self) -> (s: String)
        ensures
            s@ == skipped_words(self.skipped@),
    {
        skipped_text(self.skipped.as_slice())
    }
}

/// The probes in capture order.
pub open spec fn probes_in_order(sources: Seq<ClipSource>, probes: Seq<Option<Probe>>) -> Seq<
    Option<Probe>,
> {
    let p = capture_positions(sources);
    Seq::new(sources.len(), |i: int| probes[p[i] as int])
}

/// Is there a JPEG that can be a frame? One that cannot be sized, or is
/// empty, is none.
pub open spec fn is_usable(probe: Option<Probe>) -> bool {
    probe is Some && probe->0.width > 0 && probe->0.height > 0 && probe->0.len > 0
}

/// The frame size and the rotation that the first usable JPEG sets.
pub open spec fn track_of(probes: Seq<Option<Probe>>) -> (u32, u32, u16)
    decreases probes.len(),
{
    if probes.len() == 0 {
        (0, 0, 1)
    } else if is_usable(probes[0]) {
        let p = probes[0]->0;
        (p.width, p.height, rotation_of(p.orientation))
    } else {
        track_of(probes.drop_first())
    }
}

/// Why a frame cannot be in this track, if it cannot.
pub open spec fn verdict(probe: Option<Probe>, track: (u32, u32, u16)) -> Option<SkipReason> {
    let p = probe->0;
    if !is_usable(probe) {
        Some(SkipReason::NoPreview)
    } else if (p.width, p.height) != (track.0, track.1) {
        Some(SkipReason::Size { width: p.width, height: p.height })
    } else if rotation_of(p.orientation) != track.2 {
        Some(SkipReason::Orientation(p.orientation))
    } else {
        None
    }
}

/// The frames that are kept, among the first `i` in capture order.
pub open spec fn kept_among(probes: Seq<Option<Probe>>, track: (u32, u32, u16), i: int) -> Seq<int>
    decreases i,
{
    if i <= 0 {
        Seq::empty()
    } else if verdict(probes[i - 1], track) is None {
        kept_among(probes, track, i - 1).push(i - 1)
    } else {
        kept_among(probes, track, i - 1)
    }
}

/// The frames that are left out, among the first `i` in capture order.
pub open spec fn left_out_among(
    ordered: Seq<ClipSource>,
    probes: Seq<Option<Probe>>,
    track: (u32, u32, u16),
    i: int,
) -> Seq<Skipped>
    decreases i,
{
    if i <= 0 {
        Seq::empty()
    } else {
        let front = left_out_among(ordered, probes, track, i - 1);
        match verdict(probes[i - 1], track) {
            None => front,
            Some(reason) => front.push(
                Skipped { id: ordered[i - 1].id, name: ordered[i - 1].name, reason },
            ),
        }
    }
}

/// How many of the kept frames are mirrored. A corrupt tag is no mirror.
pub open spec fn mirrored_among(probes: Seq<Option<Probe>>, kept: Seq<int>) -> int
    decreases kept.len(),
{
    if kept.len() == 0 {
        0
    } else {
        let o = probes[kept.last()]->0.orientation;
        mirrored_among(probes, kept.drop_last()) + if is_mirrored(o) {
            1int
        } else {
            0
        }
    }
}

/// One frame of the file.
pub open spec fn frame_of(s: ClipSource, p: Probe) -> ClipFrame {
    ClipFrame { id: s.id, path: s.path, name: s.name, offset: p.offset, len: p.len }
}

/// What can share one track.
pub ghost struct Sifted {
    pub track: (u32, u32, u16),
    pub frames: Seq<ClipFrame>,
    pub sources: Seq<ClipSource>,
    pub skipped: Seq<Skipped>,
    pub mirrored: int,
}

/// Uniformity: the first frame WITH a usable JPEG sets the size and the
/// orientation; everything else matches it or is skipped.
pub open spec fn sifted(sources: Seq<ClipSource>, probes: Seq<Option<Probe>>) -> Sifted {
    let ordered = in_capture_order(sources);
    let found = probes_in_order(sources, probes);
    let track = track_of(found);
    let kept = kept_among(found, track, found.len() as int);
    Sifted {
        track,
        frames: Seq::new(kept.len(), |k: int| frame_of(ordered[kept[k]], found[kept[k]]->0)),
        sources: Seq::new(kept.len(), |k: int| ordered[kept[k]]),
        skipped: left_out_among(ordered, found, track, found.len() as int),
        mirrored: mirrored_among(found, kept),
    }
}

/// The sizes of some frames.
pub open spec fn sizes_of(frames: Seq<ClipFrame>) -> Seq<u64> {
    Seq::new(frames.len(), |i: int| frames[i].len)
}

/// The JPEG bytes of some frames.
pub open spec fn payload_of(frames: Seq<ClipFrame>) -> int {
    qt::total(sizes_of(frames))
}

/// What a file of these frames occupies.
pub open spec fn file_size(frames: Seq<ClipFrame>) -> int {
    bytes_of_file(payload_of(frames), frames.len() as int)
}

/// The numbers of the plan fit 64 bits: the size of the file, and the gaps
/// between the timestamps.
pub open spec fn plan_fits(sources: Seq<ClipSource>, probes: Seq<Option<Probe>>) -> bool {
    let s = sifted(sources, probes);
    file_size(s.frames) <= u64::MAX && gaps_fit(s.sources)
}

/// The row of names that the file may take: the natural one, then `_1`,
/// `_2`, …
pub open spec fn candidate(name: Seq<char>, k: int) -> Seq<char> {
    if k == 0 {
        name
    } else {
        fileops::suffixed_name(name, k)
    }
}

/// The natural name of a file of these frames.
pub open spec fn natural_name(frames: Seq<ClipFrame>) -> Seq<char> {
    name_of_range(frames[0].name@, frames.last().name@)
}

/// The plan, or why there is none.
pub open spec fn planned(
    sources: Seq<ClipSource>,
    probes: Seq<Option<Probe>>,
    dest: Destination,
    policy: fileops::ClashPolicy,
    free: Option<u64>,
) -> Result<ClipPlanView, ClipFault> {
    let s = sifted(sources, probes);
    let name = natural_name(s.frames);
    let len = vstd::utf8::encode_utf8(name).len();
    let total = file_size(s.frames);
    if sources.len() < 2 {
        Err(ClipFault::TooFewFrames { kept: sources.len() as int, skipped: Seq::empty() })
    } else if dest.blocked {
        Err(ClipFault::DestNotADirectory)
    } else if s.frames.len() < 2 {
        Err(ClipFault::TooFewFrames { kept: s.frames.len() as int, skipped: s.skipped })
    } else if len > MAX_NAME_BYTES {
        Err(ClipFault::NameTooLong { name, len: len as int })
    } else if free is Some && total > free->0 {
        Err(ClipFault::InsufficientSpace { needed: total, free: free->0 as int })
    } else {
        Ok(
            ClipPlanView {
                frames: s.frames,
                width: s.track.0,
                height: s.track.1,
                orientation: s.track.2,
                mirrored: s.mirrored,
                cadence: cadence_of(s.sources),
                skipped: s.skipped,
                dst: if policy == fileops::ClashPolicy::CreateCopies {
                    candidate(name, dest.taken as int)
                } else {
                    name
                },
                action: if dest.taken == 0 {
                    ClipAction::Write
                } else {
                    match policy {
                        fileops::ClashPolicy::Ask => ClipAction::Clash,
                        fileops::ClashPolicy::Overwrite => ClipAction::Replace,
                        fileops::ClashPolicy::CreateCopies => ClipAction::WriteRenamed,
                    }
                },
                sample_bytes: payload_of(s.frames),
                total_bytes: total,
                free_bytes: free,
                keep_both_example: if dest.taken > 0 && policy == fileops::ClashPolicy::Ask {
                    Some(candidate(name, dest.taken as int))
                } else {
                    None
                },
            },
        )
    }
}

struct Sieve {
    width: u32,
    height: u32,
    orientation: u16,
    frames: Vec<ClipFrame>,
    sources: Vec<ClipSource>,
    skipped: Vec<Skipped>,
    mirrored: usize,
}

fn usable(probe: Option<Probe>) -> (b: bool)
    ensures
        b == is_usable(probe),
{
    match probe {
        Some(p) => p.width > 0 && p.height > 0 && p.len > 0,
        None => false,
    }
}

fn track(found: &Vec<Option<Probe>>) -> (t: (u32, u32, u16))
    ensures
        t == track_of(found@),
{
    let mut i: usize = 0;
    assert(found@.skip(0) =~= found@);
    while i < found.len()
        invariant
            i <= found@.len(),
            track_of(found@) == track_of(found@.skip(i as int)),
        decreases found@.len() - i,
    {
        assert(found@.skip(i as int)[0] == found@[i as int]);
        if let Some(p) = found[i] {
            if usable(found[i]) {
                return (p.width, p.height, unmirrored(p.orientation));
            }
        }
        assert(found@.skip(i as int).drop_first() =~= found@.skip(i + 1));
        i = i + 1;
    }
    (0, 0, 1)
}

fn judge(probe: Option<Probe>, track: (u32, u32, u16)) -> (r: Option<SkipReason>)
    ensures
        r == verdict(probe, track),
{
    match probe {
        None => Some(SkipReason::NoPreview),
        Some(p) => {
            if !usable(probe) {
                Some(SkipReason::NoPreview)
            } else if p.width != track.0 || p.height != track.1 {
                Some(SkipReason::Size { width: p.width, height: p.height })
            } else if unmirrored(p.orientation) != track.2 {
                Some(SkipReason::Orientation(p.orientation))
            } else {
                None
            }
        },
    }
}

fn sift(sources: &[ClipSource], probes: &Vec<Option<Probe>>) -> (s: Sieve)
    requires
        probes@.len() == sources@.len(),
    ensures
        ({
            let want = sifted(sources@, probes@);
            &&& (s.width, s.height, s.orientation) == want.track
            &&& s.frames@ == want.frames
            &&& s.sources@ == want.sources
            &&& s.skipped@ == want.skipped
            &&& s.mirrored == want.mirrored
        }),
{
    let ordered = capture_order(sources);
    let p = capture_indices(sources);
    let mut found: Vec<Option<Probe>> = Vec::new();
    let mut i: usize = 0;
    while i < p.len()
        invariant
            i <= p@.len(),
            p@.len() == sources@.len() == probes@.len(),
            order::arranges(p@, 0, sources@.len() as int),
            found@.len() == i,
            forall|j: int| 0 <= j < i ==> #[trigger] found@[j] == probes@[p@[j] as int],
        decreases p@.len() - i,
    {
        assert(0 <= p@[i as int] < sources@.len());
        found.push(probes[p[i]]);
        i = i + 1;
    }
    assert(found@ =~= probes_in_order(sources@, probes@));
    let (width, height, orientation) = track(&found);
    let ghost t = (width, height, orientation);
    let mut frames: Vec<ClipFrame> = Vec::new();
    let mut kept: Vec<ClipSource> = Vec::new();
    let mut skipped: Vec<Skipped> = Vec::new();
    let mut mirrored: usize = 0;
    let mut i: usize = 0;
    let ghost mut at: Seq<int> = Seq::empty();
    while i < ordered.len()
        invariant
            i <= ordered.len(),
            ordered@.len() == found@.len(),
            t == (width, height, orientation),
            at == kept_among(found@, t, i as int),
            forall|k: int| 0 <= k < at.len() ==> 0 <= #[trigger] at[k] < i,
            frames@ == Seq::new(at.len(), |k: int| frame_of(ordered@[at[k]], found@[at[k]]->0)),
            kept@ == Seq::new(at.len(), |k: int| ordered@[at[k]]),
            skipped@ == left_out_among(ordered@, found@, t, i as int),
            mirrored == mirrored_among(found@, at),
            mirrored <= i,
        decreases ordered.len() - i,
    {
        let s = &ordered[i];
        let probe = found[i];
        match judge(probe, (width, height, orientation)) {
            Some(reason) => {
                skipped.push(Skipped { id: s.id, name: s.name.clone(), reason });
            },
            None => {
                let jpeg = probe.unwrap();
                let o: u16 = jpeg.orientation;
                if o == 2 || o == 4 || o == 5 || o == 7 {
                    mirrored = mirrored + 1;
                }
                frames.push(
                    ClipFrame {
                        id: s.id,
                        path: s.path.clone(),
                        name: s.name.clone(),
                        offset: jpeg.offset,
                        len: jpeg.len,
                    },
                );
                kept.push(s.clone());
                proof {
                    let had = at;
                    at = at.push(i as int);
                    assert(at.drop_last() =~= had);
                    assert(frames@ =~= Seq::new(
                        at.len(),
                        |k: int| frame_of(ordered@[at[k]], found@[at[k]]->0),
                    ));
                    assert(kept@ =~= Seq::new(at.len(), |k: int| ordered@[at[k]]));
                }
            },
        }
        i = i + 1;
    }
    Sieve { width, height, orientation, frames, sources: kept, skipped, mirrored }
}

fn payload(frames: &Vec<ClipFrame>) -> (n: u64)
    requires
        payload_of(frames@) <= u64::MAX,
    ensures
        n == payload_of(frames@),
{
    let mut n: u64 = 0;
    let mut i: usize = 0;
    let ghost sizes = sizes_of(frames@);
    while i < frames.len()
        invariant
            i <= frames@.len(),
            sizes == sizes_of(frames@),
            qt::total(sizes) <= u64::MAX,
            n == qt::total(sizes.take(i as int)),
        decreases frames@.len() - i,
    {
        proof {
            qt::lemma_total_prefix(sizes, i as int);
            qt::lemma_total_prefix(sizes, i + 1);
        }
        n = n + frames[i].len;
        i = i + 1;
    }
    assert(sizes.take(i as int) =~= sizes);
    n
}

/// Do the numbers of a plan of these frames fit 64 bits: the size of the
/// file, and the gaps between the timestamps?
pub fn numbers_fit(sources: &[ClipSource], probes: &Vec<Option<Probe>>) -> (b: bool)
    requires
        probes@.len() == sources@.len(),
    ensures
        b == plan_fits(sources@, probes@),
{
    let s = sift(sources, probes);
    let ghost sizes = sizes_of(s.frames@);
    let mut sum: u64 = 0;
    let mut i: usize = 0;
    while i < s.frames.len()
        invariant
            i <= s.frames@.len(),
            sizes == sizes_of(s.frames@),
            s.frames@ == sifted(sources@, probes@).frames,
            sum == qt::total(sizes.take(i as int)),
        decreases s.frames@.len() - i,
    {
        proof {
            qt::lemma_total_prefix(sizes, i as int);
            qt::lemma_total_prefix(sizes, i + 1);
        }
        if sum > u64::MAX - s.frames[i].len {
            return false;
        }
        sum = sum + s.frames[i].len;
        i = i + 1;
    }
    assert(sizes.take(i as int) =~= sizes);
    let n: usize = s.frames.len();
    let room: u128 = if sum as u128 + 8 > u32::MAX as u128 {
        16
    } else {
        8
    };
    if sum as u128 + 627 + 12 * (n as u128) + room > u64::MAX as u128 {
        return false;
    }
    let mut k: usize = 1;
    while k < s.sources.len()
        invariant
            1 <= k,
            s.sources@ == sifted(sources@, probes@).sources,
            forall|j: int|
                1 <= j < k && j < s.sources@.len() && measures(
                    s.sources@[j - 1],
                    #[trigger] s.sources@[j],
                ) ==> gap_between(s.sources@[j - 1], s.sources@[j]) <= i64::MAX,
        decreases s.sources@.len() - k,
    {
        let a = &s.sources[k - 1];
        let b = &s.sources[k];
        if let (Some(x), Some(y)) = (a.time_ms, b.time_ms) {
            if a.has_subsec && b.has_subsec {
                assert(measures(s.sources@[k - 1], s.sources@[k as int]));
                let d: i128 = y as i128 - x as i128;
                if d > i64::MAX as i128 || d < -(i64::MAX as i128) {
                    assert(!gaps_fit(s.sources@));
                    return false;
                }
            }
        }
        k = k + 1;
    }
    true
}

/// The natural name of the file, from the frames that are actually IN it:
/// the name to look up at the destination. `None` where fewer than two
/// frames can share the track.
pub fn planned_name(sources: &[ClipSource], probes: &Vec<Option<Probe>>) -> (r: Option<String>)
    requires
        probes@.len() == sources@.len(),
    ensures
        ({
            let frames = sifted(sources@, probes@).frames;
            match r {
                Some(name) => frames.len() >= 2 && name@ == natural_name(frames),
                None => frames.len() < 2,
            }
        }),
{
    let s = sift(sources, probes);
    let n: usize = s.frames.len();
    if n < 2 {
        None
    } else {
        Some(clip_name(s.frames[0].name.as_str(), s.frames[n - 1].name.as_str()))
    }
}

/// The names that a file may take, in the order they are tried: the natural
/// one, then `_1`, `_2`, …
pub fn candidate_name(name: &str, k: usize) -> (s: String)
    ensures
        s@ == candidate(name@, k as int),
{
    if k == 0 {
        name.to_string()
    } else {
        fileops::suffixed(name, k)
    }
}

/// Build the plan from what was read: the probes of the RAWs, in the order
/// of the frames, and the destination. Changes nothing.
///
/// `policy` is the user's answer to the clash question, or
/// [`fileops::ClashPolicy::Ask`] before it has been asked.
pub fn plan_with_free(
    sources: &[ClipSource],
    probes: &Vec<Option<Probe>>,
    dest: Destination,
    policy: fileops::ClashPolicy,
    free_bytes: Option<u64>,
) -> (r: Result<ClipPlan, ClipError>)
    requires
        probes@.len() == sources@.len(),
        plan_fits(sources@, probes@),
    ensures
        match r {
            Ok(p) => planned(sources@, probes@, dest, policy, free_bytes) == Ok::<
                ClipPlanView,
                ClipFault,
            >(p@),
            Err(e) => planned(sources@, probes@, dest, policy, free_bytes) == Err::<
                ClipPlanView,
                ClipFault,
            >(e@),
        },
{
    // One frame is not a video.
    if sources.len() < 2 {
        return Err(ClipError::TooFewFrames { kept: sources.len(), skipped: Vec::new() });
    }
    if dest.blocked {
        return Err(ClipError::DestNotADirectory);
    }
    let s = sift(sources, probes);
    let n: usize = s.frames.len();
    if n < 2 {
        return Err(ClipError::TooFewFrames { kept: n, skipped: s.skipped });
    }
    let cadence = cadence(s.sources.as_slice());
    let sample_bytes: u64 = payload(&s.frames);
    let total_bytes: u64 = file_bytes(sample_bytes, n);
    // The name, from the frames that are actually IN the file: a range
    // that names a frame the user will not find in it is worse than no
    // range at all.
    let name = clip_name(s.frames[0].name.as_str(), s.frames[n - 1].name.as_str());
    let len: usize = name.as_str().as_bytes().len();
    if len > MAX_NAME_BYTES {
        return Err(ClipError::NameTooLong { name, len });
    }
    // The clash question, exactly as the copy engine asks it: the disk
    // decides, one answer governs the run, and nothing is replaced without
    // the Overwrite answer.
    let mut keep_both_example: Option<String> = None;
    let mut dst = name;
    let mut action = ClipAction::Write;
    if dest.taken > 0 {
        match policy {
            fileops::ClashPolicy::Ask => {
                keep_both_example = Some(fileops::suffixed(dst.as_str(), dest.taken));
                action = ClipAction::Clash;
            },
            fileops::ClashPolicy::Overwrite => {
                action = ClipAction::Replace;
            },
            fileops::ClashPolicy::CreateCopies => {
                dst = fileops::suffixed(dst.as_str(), dest.taken);
                action = ClipAction::WriteRenamed;
            },
        }
    }
    // An overwrite still writes the whole file to a temp first, so the
    // space has to be there under every answer.
    if let Some(free) = free_bytes {
        if total_bytes > free {
            return Err(ClipError::InsufficientSpace { needed: total_bytes, free });
        }
    }
    Ok(
        ClipPlan {
            frames: s.frames,
            width: s.width,
            height: s.height,
            orientation: s.orientation,
            mirrored: s.mirrored,
            cadence,
            skipped: s.skipped,
            dst,
            action,
            sample_bytes,
            total_bytes,
            free_bytes,
            keep_both_example,
        },
    )
}

// ------------------------------------------------------------- the writing
/// What an export says while it runs.
#[derive(Debug)]
pub enum ClipEvent {
    /// Before each frame's bytes are copied (1-based).
    Frame { index: usize, total: usize, name: String },
    /// The samples are written; the finished file is being re-read and
    /// re-hashed.
    Verifying,
    Finished(ClipReport),
}

/// How a write ended, where it did not fail.
#[derive(Clone, Copy, Debug, PartialEq, Eq, Structural)]
pub enum Written {
    Committed { bytes: u64 },
    Cancelled,
}

/// What an export did.
#[derive(Debug, Clone)]
pub struct ClipReport {
    /// Frames in the finished file.
    pub frames: usize,
    /// The file's size on disk.
    pub bytes: u64,
    /// The name of the file that landed (None when nothing was written).
    pub path: Option<String>,
    /// The name it lands under — `_1` included, when the user answered
    /// "keep both".
    pub name: String,
    pub duration_ms: u64,
    pub cadence: Option<Cadence>,
    /// It replaced a file that was already there (the Overwrite answer).
    pub replaced: bool,
    /// Frames left out, with their reasons — the same list the plan line
    /// showed.
    pub skipped: Vec<Skipped>,
    /// Kept frames whose mirrored EXIF orientation (2/4/5/7) was degraded.
    pub mirrored: usize,
    /// Every sample was BLAKE3-hashed on the way in AND re-hashed from
    /// the finished file, and the `moov` re-parse described exactly the
    /// samples written.
    pub all_verified: bool,
    pub cancelled: bool,
    /// What went wrong, if anything did.
    pub failed: Option<String>,
}

/// The model of a [`ClipReport`].
pub ghost struct ClipReportView {
    pub frames: int,
    pub bytes: u64,
    pub path: Option<Seq<char>>,
    pub name: Seq<char>,
    pub duration_ms: int,
    pub cadence: Option<Cadence>,
    pub replaced: bool,
    pub skipped: Seq<Skipped>,
    pub mirrored: int,
    pub all_verified: bool,
    pub cancelled: bool,
    pub failed: Option<Seq<char>>,
}

impl View for ClipReport {
    type V = ClipReportView;

    open spec fn view(&self) -> ClipReportView {
        ClipReportView {
            frames: self.frames as int,
            bytes: self.bytes,
            path: text::opt_text(self.path),
            name: self.name@,
            duration_ms: self.duration_ms as int,
            cadence: self.cadence,
            replaced: self.replaced,
            skipped: self.skipped@,
            mirrored: self.mirrored as int,
            all_verified: self.all_verified,
            cancelled: self.cancelled,
            failed: text::opt_text(self.failed),
        }
    }
}

/// The report of a run that did nothing.
pub open spec fn blank_report() -> ClipReportView {
    ClipReportView {
        frames: 0,
        bytes: 0,
        path: None,
        name: Seq::empty(),
        duration_ms: 0,
        cadence: None,
        replaced: false,
        skipped: Seq::empty(),
        mirrored: 0,
        all_verified: false,
        cancelled: false,
        failed: None,
    }
}

impl Default for ClipReport {
    fn default() -> (r: ClipReport)
        ensures
            r@ == blank_report(),
    {
        ClipReport {
            frames: 0,
            bytes: 0,
            path: None,
            name: String::new(),
            duration_ms: 0,
            cadence: None,
            replaced: false,
            skipped: Vec::new(),
            mirrored: 0,
            all_verified: false,
            cancelled: false,
            failed: None,
        }
    }
}

impl ClipReport {
    /// May this run print "all checksums verified"?
    ///
    /// A run has earned it only when a file actually landed, every sample
    /// matched on the way back out, and nothing failed or was cancelled.
    pub fn earned_the_green_light(&self) -> (r: bool)
        ensures
            r == is_green(self@),
    {
        self.frames > 0 && self.all_verified && self.failed.is_none() && !self.cancelled
            && self.path.is_some()
    }
}

/// Why a plan must not run, if it must not: one built before the clash
/// question is a QUESTION, not an instruction.
pub fn refusal(plan: &ClipPlan) -> (r: Option<&'static str>)
    ensures
        match r {
            Some(s) => plan.action == ClipAction::Clash && s@
                == "unanswered clash question: this plan was built before the answer and must not run"@,
            None => plan.action != ClipAction::Clash,
        },
{
    if plan.action == ClipAction::Clash {
        Some("unanswered clash question: this plan was built before the answer and must not run")
    } else {
        None
    }
}

/// The report of a plan whose write ended this way.
pub open spec fn reported(
    plan: ClipPlan,
    outcome: Result<Written, Seq<char>>,
) -> ClipReportView {
    let report = ClipReportView {
        skipped: plan.skipped@,
        mirrored: plan.mirrored as int,
        cadence: Some(plan.cadence),
        duration_ms: plan.frames@.len() * plan.cadence.sample_ms,
        name: plan.dst@,
        ..blank_report()
    };
    if plan.action == ClipAction::Clash {
        ClipReportView {
            failed: Some(
                "unanswered clash question: this plan was built before the answer and must not run"@,
            ),
            ..report
        }
    } else {
        match outcome {
            Ok(Written::Committed { bytes }) => ClipReportView {
                frames: plan.frames@.len() as int,
                bytes,
                path: Some(plan.dst@),
                replaced: plan.action == ClipAction::Replace,
                all_verified: true,
                ..report
            },
            Ok(Written::Cancelled) => ClipReportView { cancelled: true, ..report },
            Err(e) => ClipReportView { failed: Some(e), ..report },
        }
    }
}

/// The model of how a write ended.
pub open spec fn outcome_view(outcome: Result<Written, String>) -> Result<Written, Seq<char>> {
    match outcome {
        Ok(w) => Ok(w),
        Err(e) => Err(e@),
    }
}

/// What a run has to report, given how its write ended. Of a plan that is
/// refused the write never happens, and its outcome is not looked at.
pub fn run_plan_with(plan: &ClipPlan, outcome: Result<Written, String>) -> (report: ClipReport)
    requires
        plan.frames@.len() * plan.cadence.sample_ms <= u64::MAX,
    ensures
        report@ == reported(*plan, outcome_view(outcome)),
{
    let mut skipped: Vec<Skipped> = Vec::new();
    let mut i: usize = 0;
    while i < plan.skipped.len()
        invariant
            i <= plan.skipped@.len(),
            skipped@ == plan.skipped@.take(i as int),
        decreases plan.skipped@.len() - i,
    {
        let ghost had = skipped@;
        skipped.push(plan.skipped[i].clone());
        assert(skipped@ =~= plan.skipped@.take(i + 1));
        i = i + 1;
    }
    assert(skipped@ =~= plan.skipped@);
    let mut report = ClipReport::default();
    report.skipped = skipped;
    report.mirrored = plan.mirrored;
    report.cadence = Some(plan.cadence);
    report.duration_ms = plan.duration_ms();
    report.name = plan.file_name();
    match refusal(plan) {
        Some(text) => {
            report.failed = Some(text.to_string());
            return report;
        },
        None => {},
    }
    match outcome {
        Ok(Written::Committed { bytes }) => {
            report.frames = plan.frames.len();
            report.bytes = bytes;
            report.path = Some(plan.file_name());
            report.replaced = plan.action == ClipAction::Replace;
            report.all_verified = true;
        },
        Ok(Written::Cancelled) => {
            report.cancelled = true;
        },
        Err(e) => {
            report.failed = Some(e);
        },
    }
    report
}

/// How far a write has come.
#[derive(Clone, Copy, Debug, PartialEq, Eq, Structural)]
pub enum WriteStage {
    /// So many samples are in the temp file, behind its header.
    Copied(usize),
    /// All of them are, and the file is flushed to the disk.
    Synced,
    /// Its index was read back and describes the plan, and so many samples
    /// were re-hashed and are what was copied.
    Checked(usize),
    /// It has its final name.
    Committed,
}

/// What a write has to do next.
#[derive(Clone, Copy, Debug, PartialEq, Eq, Structural)]
pub enum WriteStep {
    /// Say so, and copy this sample (counted from 0).
    Copy(usize),
    /// Flush the temp file to the disk.
    Sync,
    /// Say so, and read the file's index back.
    Verify,
    /// Re-hash this sample (counted from 0) from the finished file.
    Check(usize),
    /// Give the file its final name.
    Commit(fileops::Commit),
    /// Nothing more.
    Done,
    /// Remove the temp file: the user cancelled.
    Abandon,
}

/// The step that follows a stage of a plan's write.
///
/// The order is the point. Nothing ever appears under the destination name
/// until every byte of it has been read back and matched.
pub open spec fn step_after(plan: ClipPlan, stage: WriteStage, cancelled: bool) -> WriteStep {
    match stage {
        WriteStage::Copied(i) => if i >= plan.frames@.len() {
            WriteStep::Sync
        } else if cancelled {
            WriteStep::Abandon
        } else {
            WriteStep::Copy(i)
        },
        WriteStage::Synced => if cancelled {
            WriteStep::Abandon
        } else {
            WriteStep::Verify
        },
        WriteStage::Checked(i) => if cancelled {
            WriteStep::Abandon
        } else if i < plan.frames@.len() {
            WriteStep::Check(i)
        } else {
            WriteStep::Commit(
                if plan.action == ClipAction::Replace {
                    fileops::Commit::Replace
                } else {
                    fileops::Commit::NoClobber
                },
            )
        },
        WriteStage::Committed => WriteStep::Done,
    }
}

/// The stage that a step brings a write to.
pub open spec fn stage_after(step: WriteStep, stage: WriteStage) -> WriteStage {
    match step {
        WriteStep::Copy(i) => WriteStage::Copied((i + 1) as usize),
        WriteStep::Sync => WriteStage::Synced,
        WriteStep::Verify => WriteStage::Checked(0),
        WriteStep::Check(i) => WriteStage::Checked((i + 1) as usize),
        WriteStep::Commit(_) => WriteStage::Committed,
        WriteStep::Done => stage,
        WriteStep::Abandon => stage,
    }
}

/// What a write has to do next. Cancellation is looked at between frames,
/// before the verification, between its samples, and before the commit.
pub fn write_step(plan: &ClipPlan, stage: WriteStage, cancelled: bool) -> (step: WriteStep)
    ensures
        step == step_after(*plan, stage, cancelled),
{
    match stage {
        WriteStage::Copied(i) => {
            if i >= plan.frames.len() {
                WriteStep::Sync
            } else if cancelled {
                WriteStep::Abandon
            } else {
                WriteStep::Copy(i)
            }
        },
        WriteStage::Synced => {
            if cancelled {
                WriteStep::Abandon
            } else {
                WriteStep::Verify
            }
        },
        WriteStage::Checked(i) => {
            if cancelled {
                WriteStep::Abandon
            } else if i < plan.frames.len() {
                WriteStep::Check(i)
            } else if plan.action == ClipAction::Replace {
                WriteStep::Commit(fileops::Commit::Replace)
            } else {
                WriteStep::Commit(fileops::Commit::NoClobber)
            }
        },
        WriteStage::Committed => WriteStep::Done,
    }
}

/// The stage that a step brings a write to, once it is done.
pub fn write_stage(plan: &ClipPlan, stage: WriteStage, step: WriteStep) -> (next: WriteStage)
    requires
        exists|c: bool| step == step_after(*plan, stage, c),
    ensures
        next == stage_after(step, stage),
{
    let n: usize = plan.frames.len();
    match step {
        WriteStep::Copy(i) => {
            assert(i < n);
            WriteStage::Copied(i + 1)
        },
        WriteStep::Sync => WriteStage::Synced,
        WriteStep::Verify => WriteStage::Checked(0),
        WriteStep::Check(i) => {
            assert(i < n);
            WriteStage::Checked(i + 1)
        },
        WriteStep::Commit(_) => WriteStage::Committed,
        WriteStep::Done => stage,
        WriteStep::Abandon => stage,
    }
}

/// The stages that a write goes through, given what the cancel flag says
/// before each step.
pub open spec fn stages(plan: ClipPlan, cancelled: Seq<bool>) -> WriteStage
    decreases cancelled.len(),
{
    if cancelled.len() == 0 {
        WriteStage::Copied(0)
    } else {
        let stage = stages(plan, cancelled.drop_last());
        stage_after(step_after(plan, stage, cancelled.last()), stage)
    }
}

/// A name is given to the file only after every sample was copied, the file
/// flushed, and the whole read back; and something that is already there is
/// replaced only where the user answered so.
pub proof fn lemma_commit_comes_last(plan: ClipPlan, cancelled: Seq<bool>, now: bool)
    ensures
        step_after(plan, stages(plan, cancelled), now) is Commit ==> {
            &&& stages(plan, cancelled) == WriteStage::Checked(plan.frames@.len() as usize)
            &&& !now
            &&& cancelled.len() >= 2 * plan.frames@.len() + 2
        },
        step_after(plan, stages(plan, cancelled), now) == WriteStep::Commit(
            fileops::Commit::Replace,
        ) ==> plan.action == ClipAction::Replace,
{
    lemma_stage_costs_steps(plan, cancelled);
}

proof fn lemma_stage_costs_steps(plan: ClipPlan, cancelled: Seq<bool>)
    ensures
        match stages(plan, cancelled) {
            WriteStage::Copied(i) => cancelled.len() >= i && i <= plan.frames@.len(),
            WriteStage::Synced => cancelled.len() >= plan.frames@.len() + 1,
            WriteStage::Checked(i) => cancelled.len() >= plan.frames@.len() + 2 + i && i
                <= plan.frames@.len(),
            WriteStage::Committed => cancelled.len() >= 2 * plan.frames@.len() + 2,
        },
    decreases cancelled.len(),
{
    let n: usize = plan.frames.len();
    if cancelled.len() > 0 {
        lemma_stage_costs_steps(plan, cancelled.drop_last());
    }
}

// -------------------------------------------------------- the verification
/// The track that a plan writes.
pub open spec fn describes(spec: qt::TrackSpec, plan: ClipPlan) -> bool {
    &&& spec.width == plan.width
    &&& spec.height == plan.height
    &&& spec.orientation == plan.orientation
    &&& spec.sample_ms == plan.cadence.sample_ms
    &&& spec.sample_sizes@ == sizes_of(plan.frames@)
}

/// The track that a plan writes.
pub fn track_spec(plan: &ClipPlan) -> (spec: qt::TrackSpec)
    ensures
        describes(spec, *plan),
{
    let mut sizes: Vec<u64> = Vec::new();
    let mut i: usize = 0;
    while i < plan.frames.len()
        invariant
            i <= plan.frames@.len(),
            sizes@.len() == i,
            forall|j: int| 0 <= j < i ==> #[trigger] sizes@[j] == plan.frames@[j].len,
        decreases plan.frames@.len() - i,
    {
        sizes.push(plan.frames[i].len);
        i = i + 1;
    }
    assert(sizes@ =~= sizes_of(plan.frames@));
    qt::TrackSpec {
        width: plan.width,
        height: plan.height,
        orientation: plan.orientation,
        sample_ms: plan.cadence.sample_ms,
        sample_sizes: sizes,
    }
}

/// The index says what the plan does.
pub open spec fn index_matches(m: qt::MovieView, plan: ClipPlan) -> bool {
    &&& m.timescale == qt::TIMESCALE
    &&& m.sample_ms == plan.cadence.sample_ms
    &&& m.stts_entries == 1
    &&& m.width == plan.width
    &&& m.height == plan.height
    &&& m.sample_width == plan.width
    &&& m.sample_height == plan.height
    &&& m.format == qt::be32_bytes(qt::TAG_JPEG)
    &&& m.major_brand == qt::be32_bytes(qt::TAG_QT)
    &&& m.co64
    &&& m.moov_before_mdat
    &&& m.matrix == qt::matrix_of(plan.orientation)
}

/// What is wrong with the index of a finished file, if anything is.
pub open spec fn index_fault(m: qt::MovieView, plan: ClipPlan) -> Option<Seq<char>> {
    if m.samples.len() != plan.frames@.len() {
        Some(
            "the finished file describes "@ + text::decimal(m.samples.len() as int) + " samples, not "@
                + text::decimal(plan.frames@.len() as int),
        )
    } else if !index_matches(m, plan) {
        Some("the finished file's moov does not describe this export"@)
    } else {
        None
    }
}

/// Is a sample where the plan put it?
pub open spec fn is_placed(m: qt::MovieView, plan: ClipPlan, i: int) -> bool {
    &&& m.samples[i].size == plan.frames@[i].len
    &&& m.samples[i].offset == qt::offset_of(sizes_of(plan.frames@), i)
}

/// What is said of a sample that is elsewhere.
pub open spec fn misplaced(i: int) -> Seq<char> {
    "sample "@ + text::decimal(i + 1) + " is not where the plan put it"@
}

/// What is said of a sample whose bytes are not those of its RAW.
pub open spec fn mismatched(plan: ClipPlan, i: int) -> Seq<char> {
    "sample "@ + text::decimal(i + 1) + " does not match the bytes read from "@
        + plan.frames@[i].name@
}

/// What the disk gave back of a write: the index of the finished file, and
/// each sample's digest, taken on the way in and from the finished file.
pub ghost struct ReadBack {
    pub movie: qt::MovieView,
    pub written: Seq<Seq<u8>>,
    pub found: Seq<Seq<u8>>,
}

/// Sample `i` was found where the plan put it, with the bytes of its RAW.
pub open spec fn is_sound(plan: ClipPlan, back: ReadBack, i: int) -> bool {
    is_placed(back.movie, plan, i) && back.found[i] == back.written[i]
}

/// What a step of a write finds wrong with the file, if anything.
pub open spec fn step_fault(plan: ClipPlan, step: WriteStep, back: ReadBack) -> Option<Seq<char>> {
    match step {
        WriteStep::Verify => index_fault(back.movie, plan),
        WriteStep::Check(i) => if !is_placed(back.movie, plan, i as int) {
            Some(misplaced(i as int))
        } else if back.found[i as int] != back.written[i as int] {
            Some(mismatched(plan, i as int))
        } else {
            None
        },
        _ => None,
    }
}

/// One turn of a write: what the cancel flag said before the step, what the
/// disk answered to it, and the size of the file where the step asks for it.
pub ghost struct Turn {
    pub cancelled: bool,
    pub refused: Option<Seq<char>>,
    pub bytes: u64,
}

/// How a write that has come to `stage` ends, in these turns. `None` where
/// they do not bring it to an end.
pub open spec fn ending(
    plan: ClipPlan,
    back: ReadBack,
    stage: WriteStage,
    turns: Seq<Turn>,
) -> Option<Result<Written, Seq<char>>>
    decreases turns.len(),
{
    if turns.len() == 0 {
        None
    } else {
        let turn = turns[0];
        let step = step_after(plan, stage, turn.cancelled);
        match step {
            WriteStep::Done => Some(Ok(Written::Committed { bytes: turn.bytes })),
            WriteStep::Abandon => Some(Ok(Written::Cancelled)),
            _ => if turn.refused is Some {
                Some(Err(turn.refused->0))
            } else if step_fault(plan, step, back) is Some {
                Some(Err(step_fault(plan, step, back)->0))
            } else {
                ending(plan, back, stage_after(step, stage), turns.drop_first())
            },
        }
    }
}

/// What is known of the finished file at a stage.
spec fn is_checked(plan: ClipPlan, back: ReadBack, stage: WriteStage) -> bool {
    match stage {
        WriteStage::Checked(k) => index_fault(back.movie, plan) is None && forall|i: int|
            0 <= i < k && i < plan.frames@.len() ==> #[trigger] is_sound(plan, back, i),
        WriteStage::Committed => index_fault(back.movie, plan) is None && forall|i: int|
            0 <= i < plan.frames@.len() ==> #[trigger] is_sound(plan, back, i),
        _ => true,
    }
}

proof fn lemma_commit_was_checked(
    plan: ClipPlan,
    back: ReadBack,
    stage: WriteStage,
    turns: Seq<Turn>,
)
    requires
        is_checked(plan, back, stage),
        ending(plan, back, stage, turns) is Some,
        ending(plan, back, stage, turns)->0 is Ok,
        ending(plan, back, stage, turns)->0->Ok_0 is Committed,
    ensures
        is_checked(plan, back, WriteStage::Committed),
    decreases turns.len(),
{
    let n: usize = plan.frames.len();
    let step = step_after(plan, stage, turns[0].cancelled);
    match step {
        WriteStep::Done => {},
        WriteStep::Abandon => {},
        _ => {
            let next = stage_after(step, stage);
            if let WriteStep::Check(k) = step {
                assert(is_sound(plan, back, k as int));
            }
            assert(is_checked(plan, back, next));
            lemma_commit_was_checked(plan, back, next, turns.drop_first());
        },
    }
}

/// Did the run earn "all checksums verified"?
pub open spec fn is_green(r: ClipReportView) -> bool {
    r.frames > 0 && r.all_verified && r.failed is None && !r.cancelled && r.path is Some
}

/// The green light is earned by the run that gave the file its name, and by
/// no other; and it gave it only after the re-read index described the plan
/// and every sample was found in its place, with the digest that it was
/// copied with. A plan with an open clash question, a cancel seen before
/// the commit, and any error leave no light, no path and no frames.
pub proof fn lemma_green_light(
    plan: ClipPlan,
    back: ReadBack,
    turns: Seq<Turn>,
    outcome: Result<Written, Seq<char>>,
)
    requires
        ending(plan, back, WriteStage::Copied(0), turns) == Some(outcome),
    ensures
        is_green(reported(plan, outcome)) <==> plan.action != ClipAction::Clash
            && plan.frames@.len() > 0 && outcome is Ok && outcome->Ok_0 is Committed,
        is_green(reported(plan, outcome)) ==> {
            &&& reported(plan, outcome).path == Some(plan.dst@)
            &&& index_fault(back.movie, plan) is None
            &&& forall|i: int|
                0 <= i < plan.frames@.len() ==> #[trigger] is_sound(plan, back, i)
        },
        plan.action == ClipAction::Clash || outcome is Err || outcome == Ok::<
            Written,
            Seq<char>,
        >(Written::Cancelled) ==> {
            &&& !is_green(reported(plan, outcome))
            &&& reported(plan, outcome).path is None
            &&& reported(plan, outcome).frames == 0
        },
{
    if outcome is Ok && outcome->Ok_0 is Committed {
        lemma_commit_was_checked(plan, back, WriteStage::Copied(0), turns);
    }
}

/// The size that is quoted for a file is where its last sample ends, and
/// that is the header and the samples, written one behind the other.
pub proof fn lemma_file_ends_with_its_last_sample(spec: qt::TrackSpec)
    requires
        spec.sample_sizes@.len() >= 1,
    ensures
        bytes_of_file(spec.payload(), spec.sample_sizes@.len() as int) == qt::offset_of(
            spec.sample_sizes@,
            spec.sample_sizes@.len() - 1,
        ) + spec.sample_sizes@.last(),
        bytes_of_file(spec.payload(), spec.sample_sizes@.len() as int) == qt::header_bytes(
            spec,
        ).len() + spec.payload(),
{
    qt_laws::lemma_header_size(spec);
    qt_laws::lemma_samples_are_back_to_back(spec, spec.sample_sizes@.len() - 1);
}

fn same_matrix(a: &[i32; 9], b: &[i32; 9]) -> (r: bool)
    ensures
        r == (a@ == b@),
{
    let mut i: usize = 0;
    while i < 9
        invariant
            i <= 9,
            forall|j: int| 0 <= j < i ==> #[trigger] a@[j] == b@[j],
        decreases 9 - i,
    {
        if a[i] != b[i] {
            return false;
        }
        i = i + 1;
    }
    assert(a@ =~= b@);
    true
}

fn is_jpeg_tag(tag: &[u8; 4]) -> (r: bool)
    ensures
        r == (tag@ == qt::be32_bytes(qt::TAG_JPEG)),
{
    proof {
        assert(0x6a70_6567u32 / 0x100_0000 == 0x6a && 0x6a70_6567u32 / 0x1_0000 % 0x100 == 0x70
            && 0x6a70_6567u32 / 0x100 % 0x100 == 0x65 && 0x6a70_6567u32 % 0x100 == 0x67);
        let t = qt::be32_bytes(qt::TAG_JPEG);
        assert(t.len() == 4 && t[0] == 0x6a && t[1] == 0x70 && t[2] == 0x65 && t[3] == 0x67);
    }
    let r: bool = tag[0] == 0x6a && tag[1] == 0x70 && tag[2] == 0x65 && tag[3] == 0x67;
    assert(r ==> tag@ =~= qt::be32_bytes(qt::TAG_JPEG));
    r
}

fn is_qt_tag(tag: &[u8; 4]) -> (r: bool)
    ensures
        r == (tag@ == qt::be32_bytes(qt::TAG_QT)),
{
    proof {
        assert(0x7174_2020u32 / 0x100_0000 == 0x71 && 0x7174_2020u32 / 0x1_0000 % 0x100 == 0x74
            && 0x7174_2020u32 / 0x100 % 0x100 == 0x20 && 0x7174_2020u32 % 0x100 == 0x20);
        let t = qt::be32_bytes(qt::TAG_QT);
        assert(t.len() == 4 && t[0] == 0x71 && t[1] == 0x74 && t[2] == 0x20 && t[3] == 0x20);
    }
    let r: bool = tag[0] == 0x71 && tag[1] == 0x74 && tag[2] == 0x20 && tag[3] == 0x20;
    assert(r ==> tag@ =~= qt::be32_bytes(qt::TAG_QT));
    r
}

/// The message for a finished file that the reader refuses.
pub fn did_not_parse(e: &qt::QtError) -> (s: String)
    ensures
        s@ == "the finished file did not parse back: "@ + qt::fault_words(e@),
{
    let mut s = "the finished file did not parse back: ".to_string();
    s.append(e.text().as_str());
    s
}

/// Does the `moov` of the finished file describe this export?
///
/// A file whose header says a sample is 12 MB at offset X is unplayable if
/// the bytes are somewhere else, and every byte of it can still hash
/// correctly.
pub fn check_index(movie: &qt::Movie, plan: &ClipPlan) -> (r: Result<(), String>)
    ensures
        match r {
            Ok(_) => index_fault(movie@, *plan) is None,
            Err(e) => index_fault(movie@, *plan) == Some(e@),
        },
{
    if movie.samples.len() != plan.frames.len() {
        let mut s = "the finished file describes ".to_string();
        s.append(text::decimal_of(movie.samples.len() as u64).as_str());
        s.append(" samples, not ");
        s.append(text::decimal_of(plan.frames.len() as u64).as_str());
        return Err(s);
    }
    let describes_this_export: bool = movie.timescale == qt::TIMESCALE && movie.sample_ms
        == plan.cadence.sample_ms && movie.stts_entries == 1 && movie.width == plan.width
        && movie.height == plan.height && movie.sample_width == plan.width && movie.sample_height
        == plan.height && is_jpeg_tag(&movie.format) && is_qt_tag(&movie.major_brand) && movie.co64
        && movie.moov_before_mdat && same_matrix(
        &movie.matrix,
        &qt::display_matrix(plan.orientation),
    );
    if !describes_this_export {
        return Err("the finished file's moov does not describe this export".to_string());
    }
    Ok(())
}

/// Is sample `i` (counted from 0) where the plan put it?
pub fn check_place(movie: &qt::Movie, plan: &ClipPlan, i: usize) -> (r: Result<(), String>)
    requires
        i < plan.frames@.len(),
        movie.samples@.len() == plan.frames@.len(),
        file_size(plan.frames@) <= u64::MAX,
    ensures
        match r {
            Ok(_) => is_placed(movie@, *plan, i as int),
            Err(e) => !is_placed(movie@, *plan, i as int) && e@ == misplaced(i as int),
        },
{
    let spec = track_spec(plan);
    let expected = qt::sample_offsets(&spec);
    let sample = movie.samples[i];
    let n: usize = plan.frames.len();
    assert(i < n);
    if sample.size != plan.frames[i].len || sample.offset != expected[i] {
        let mut s = "sample ".to_string();
        s.append(text::decimal_of(i as u64 + 1).as_str());
        s.append(" is not where the plan put it");
        return Err(s);
    }
    Ok(())
}

/// Are the bytes of sample `i` (counted from 0), hashed from the finished
/// file, those that were read from the RAW?
pub fn check_bytes(
    plan: &ClipPlan,
    i: usize,
    found: &digest::Digest,
    written: &digest::Digest,
) -> (r: Result<(), String>)
    requires
        i < plan.frames@.len(),
    ensures
        match r {
            Ok(_) => found@ == written@,
            Err(e) => found@ != written@ && e@ == mismatched(*plan, i as int),
        },
{
    let n: usize = plan.frames.len();
    assert(i < n);
    if !digest::same_digest(found, written) {
        let mut s = "sample ".to_string();
        s.append(text::decimal_of(i as u64 + 1).as_str());
        s.append(" does not match the bytes read from ");
        s.append(plan.frames[i].name.as_str());
        return Err(s);
    }
    Ok(())
}

/// The samples, one behind the other.
pub open spec fn joined(samples: Seq<Seq<u8>>) -> Seq<u8>
    decreases samples.len(),
{
    if samples.len() == 0 {
        Seq::empty()
    } else {
        joined(samples.drop_last()) + samples.last()
    }
}

proof fn lemma_joined(samples: Seq<Seq<u8>>, sizes: Seq<u64>, i: int)
    requires
        samples.len() == sizes.len(),
        forall|k: int| 0 <= k < samples.len() ==> (#[trigger] samples[k]).len() == sizes[k],
        0 <= i < samples.len(),
    ensures
        joined(samples).len() == qt::total(sizes),
        0 <= qt::total(sizes.take(i)),
        qt::total(sizes.take(i)) + sizes[i] <= qt::total(sizes),
        joined(samples).subrange(
            qt::total(sizes.take(i)),
            qt::total(sizes.take(i)) + sizes[i],
        ) == samples[i],
    decreases samples.len(),
{
    let front = samples.drop_last();
    let fsizes = sizes.drop_last();
    assert forall|k: int| 0 <= k < front.len() implies (#[trigger] front[k]).len() == fsizes[k] by {
        assert(front[k] == samples[k]);
    }
    lemma_joined_len(front, fsizes);
    qt::lemma_total_prefix(sizes, i);
    qt::lemma_total_prefix(sizes, i + 1);
    let all = joined(samples);
    if i == samples.len() - 1 {
        assert(sizes.take(i) =~= fsizes);
        assert(all.subrange(qt::total(fsizes), qt::total(fsizes) + sizes[i]) =~= samples[i]);
    } else {
        lemma_joined(front, fsizes, i);
        assert(fsizes.take(i) =~= sizes.take(i));
        let from = qt::total(sizes.take(i));
        assert(all.subrange(from, from + sizes[i]) =~= joined(front).subrange(
            from,
            from + sizes[i],
        ));
    }
}

proof fn lemma_joined_len(samples: Seq<Seq<u8>>, sizes: Seq<u64>)
    requires
        samples.len() == sizes.len(),
        forall|k: int| 0 <= k < samples.len() ==> (#[trigger] samples[k]).len() == sizes[k],
    ensures
        joined(samples).len() == qt::total(sizes),
    decreases samples.len(),
{
    if samples.len() > 0 {
        let front = samples.drop_last();
        assert forall|k: int| 0 <= k < front.len() implies (#[trigger] front[k]).len()
            == sizes.drop_last()[k] by {
            assert(front[k] == samples[k]);
        }
        lemma_joined_len(front, sizes.drop_last());
    }
}

/// What the writer writes, the verification accepts: of a file that is the
/// header of the plan's track and then the samples, the index describes the
/// export, every sample is where the plan put it, and there the file holds
/// exactly its bytes.
///
/// The frame size must be one the format can say (16 bits), the sizes ones
/// the 32-bit size table can hold, and the `moov` one the reader accepts.
pub proof fn lemma_written_clip_verifies(
    plan: ClipPlan,
    spec: qt::TrackSpec,
    samples: Seq<Seq<u8>>,
    i: int,
)
    requires
        describes(spec, plan),
        spec.fits(),
        plan.width <= u16::MAX,
        plan.height <= u16::MAX,
        599 + 12 * plan.frames@.len() <= qt::MAX_MOOV,
        samples.len() == plan.frames@.len(),
        forall|k: int|
            0 <= k < samples.len() ==> (#[trigger] samples[k]).len() == plan.frames@[k].len
                && samples[k].len() <= u32::MAX,
        0 <= i < samples.len(),
    ensures
        ({
            let file = qt::header_bytes(spec) + joined(samples);
            let movie = qt::movie_of(file);
            let m = movie->Ok_0;
            &&& movie is Ok
            &&& index_fault(m, plan) is None
            &&& is_placed(m, plan, i)
            &&& file.subrange(
                m.samples[i].offset as int,
                m.samples[i].offset + m.samples[i].size,
            ) == samples[i]
        }),
{
    let sizes = spec.sample_sizes@;
    assert forall|k: int| 0 <= k < sizes.len() implies #[trigger] sizes[k] <= u32::MAX by {
        assert(samples[k].len() == plan.frames@[k].len);
    }
    assert forall|k: int| 0 <= k < samples.len() implies (#[trigger] samples[k]).len()
        == sizes[k] by {}
    lemma_joined(samples, sizes, i);
    qt_laws::lemma_movie_reads_back(spec, joined(samples));
    qt_laws::lemma_header_size(spec);
    let file = qt::header_bytes(spec) + joined(samples);
    let m = qt::movie_of(file)->Ok_0;
    let from = qt::total(sizes.take(i));
    assert(m.samples[i].offset == qt::offset_of(sizes, i));
    assert(file.subrange(
        m.samples[i].offset as int,
        m.samples[i].offset + m.samples[i].size,
    ) =~= joined(samples).subrange(from, from + sizes[i]));
}

} // verus!
