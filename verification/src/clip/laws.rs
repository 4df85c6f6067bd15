//! What the exported video owes its frames, said of the frames themselves.
use crate::clip;
use crate::clip::{
    Cadence, CadenceSource, ClipAction, ClipFault, ClipFrame, ClipPlan, ClipPlanView, ClipSource,
    Destination, Probe, SkipReason, Skipped, WriteStage, WriteStep, Written,
};
use crate::fileops;
use crate::order;
use crate::orient;
use crate::rounding;
use crate::text;
use vstd::prelude::*;

verus! {

// -------------------------------------------------------------- the cadence
/// The gap between frame `i` and the one before it: measured only where both
/// have a time of millisecond precision.
pub open spec fn gap_at(frames: Seq<ClipSource>, i: int) -> Option<int> {
    if 1 <= i < frames.len() && frames[i].has_subsec && frames[i - 1].has_subsec {
        match (frames[i - 1].time_ms, frames[i].time_ms) {
            (Some(a), Some(b)) => Some(
                if a <= b {
                    b - a
                } else {
                    a - b
                },
            ),
            _ => None,
        }
    } else {
        None
    }
}

/// How many measured gaps a test holds of.
pub open spec fn gaps_that(frames: Seq<ClipSource>, test: spec_fn(int) -> bool) -> nat {
    order::tally(
        frames.len() as int,
        |i: int| gap_at(frames, i) is Some && test(gap_at(frames, i)->0),
    )
}

/// Every measured gap fits 64 bits.
pub open spec fn measurable(frames: Seq<ClipSource>) -> bool {
    forall|i: int| (#[trigger] gap_at(frames, i)) is Some ==> gap_at(frames, i)->0 <= i64::MAX
}

proof fn lemma_gaps_are_counted(frames: Seq<ClipSource>, test: spec_fn(int) -> bool)
    requires
        measurable(frames),
    ensures
        order::tally(
            clip::gaps_of(frames).len() as int,
            |k: int| test(clip::gaps_of(frames)[k] as int),
        ) == gaps_that(frames, test),
    decreases frames.len(),
{
    let n = frames.len() as int;
    let gaps = clip::gaps_of(frames);
    let pair = |i: int| gap_at(frames, i) is Some && test(gap_at(frames, i)->0);
    let at = |k: int| test(gaps[k] as int);
    if n >= 1 {
        let shorter = frames.drop_last();
        let front = clip::gaps_of(shorter);
        assert forall|i: int| 0 <= i < n - 1 implies #[trigger] gap_at(shorter, i) == gap_at(
            frames,
            i,
        ) by {}
        assert forall|i: int| (#[trigger] gap_at(shorter, i)) is Some implies gap_at(
            shorter,
            i,
        )->0 <= i64::MAX by {
            assert(gap_at(frames, i) is Some);
        }
        lemma_gaps_are_counted(shorter, test);
        let pair_s = |i: int| gap_at(shorter, i) is Some && test(gap_at(shorter, i)->0);
        let at_s = |k: int| test(front[k] as int);
        order::lemma_tally_same(n - 1, pair_s, pair);
        assert(gap_at(frames, n - 1) is Some ==> gap_at(frames, n - 1)->0 <= i64::MAX);
        if n >= 2 {
            if clip::measures(frames[n - 2], frames[n - 1]) {
                let last = clip::gap_between(frames[n - 2], frames[n - 1]);
                assert(gap_at(frames, n - 1) == Some(last));
                assert(gaps == front.push(last as i64));
                assert(last as i64 == last);
                assert forall|k: int| 0 <= k < front.len() implies #[trigger] at_s(k) == at(k) by {
                    assert(gaps[k] == front[k]);
                }
                order::lemma_tally_same(front.len() as int, at_s, at);
                assert(gaps.len() == front.len() + 1);
                assert(at(front.len() as int) == pair(n - 1));
            } else {
                assert(gap_at(frames, n - 1) is None);
                assert(gaps == front);
                order::lemma_tally_same(front.len() as int, at_s, at);
            }
        } else {
            assert(gap_at(frames, 0) is None);
            assert(order::tally(n - 1, pair) == 0);
            assert(!pair(n - 1));
            assert(order::tally(n, pair) == 0);
            assert(gaps.len() == 0);
        }
    }
}

proof fn lemma_middle_of_the_gaps(gaps: Seq<i64>, m: int)
    requires
        0 < gaps.len() <= usize::MAX,
        m == clip::median_of(gaps),
    ensures
        2 * order::tally(gaps.len() as int, |k: int| (gaps[k] as int) < m) <= gaps.len(),
        2 * order::tally(gaps.len() as int, |k: int| (gaps[k] as int) > m) < gaps.len(),
{
    let n = gaps.len() as int;
    let le = |a: int, b: int| gaps[a] <= gaps[b];
    order::lemma_has_stable_order(n, le);
    let p = clip::rising(gaps);
    let h = n / 2;
    let less = |k: int| (gaps[k] as int) < m;
    let more = |k: int| (gaps[k] as int) > m;
    order::lemma_tally_arranged(p, n, less);
    order::lemma_tally_arranged(p, n, more);
    let less_at = |j: int| less(p[j] as int);
    let more_at = |j: int| more(p[j] as int);
    assert forall|j: int| h <= j < n implies !#[trigger] less_at(j) by {
        if j > h {
            assert(order::before(le, p[h] as int, p[j] as int));
        }
    }
    assert forall|j: int| 0 <= j < h + 1 implies !#[trigger] more_at(j) by {
        if j < h {
            assert(order::before(le, p[j] as int, p[h] as int));
        }
    }
    order::lemma_tally_outside(n, less_at, h, 0);
    order::lemma_tally_outside(n, more_at, n, h + 1);
}

/// The duration of a frame is the median of the measured gaps: at most half
/// of them are shorter, and fewer than half are longer — which only one value
/// among them can meet. Between 9 and 100 ms it is taken as it is; a median
/// outside is reported and brought to the nearer limit. Without any measured
/// gap the duration is 67 ms, and said to be assumed.
pub proof fn lemma_cadence_is_the_median(frames: Seq<ClipSource>)
    requires
        frames.len() <= usize::MAX,
        measurable(frames),
    ensures
        ({
            let all = gaps_that(frames, |g: int| true);
            let c = clip::cadence_of(frames);
            let m = match c.source {
                CadenceSource::Clamped { median_ms } => median_ms as int,
                _ => c.sample_ms as int,
            };
            &&& all == 0 <==> c.source == CadenceSource::NoTiming
            &&& all == 0 ==> c.sample_ms == 67
            &&& all > 0 ==> gaps_that(frames, |g: int| g == m) > 0
            &&& all > 0 ==> 2 * gaps_that(frames, |g: int| g < m) <= all
            &&& all > 0 ==> 2 * gaps_that(frames, |g: int| g > m) < all
            &&& all > 0 ==> (c.source == CadenceSource::Measured <==> 9 <= m <= 100)
            &&& all > 0 && m < 9 ==> c.sample_ms == 9
            &&& all > 0 && m > 100 ==> c.sample_ms == 100
        }),
{
    let gaps = clip::gaps_of(frames);
    let n = gaps.len() as int;
    let c = clip::cadence_of(frames);
    let yes = |g: int| true;
    lemma_gaps_are_counted(frames, yes);
    let yes_at = |k: int| yes(gaps[k] as int);
    order::lemma_tally_of_all(n, yes_at);
    let pair = |i: int| gap_at(frames, i) is Some && yes(gap_at(frames, i)->0);
    order::lemma_tally_of_all(frames.len() as int, pair);
    if n > 0 {
        let m = clip::median_of(gaps) as int;
        let less = |g: int| g < m;
        let more = |g: int| g > m;
        let equal = |g: int| g == m;
        lemma_middle_of_the_gaps(gaps, m);
        lemma_gaps_are_counted(frames, less);
        lemma_gaps_are_counted(frames, more);
        lemma_gaps_are_counted(frames, equal);
        let less_at = |k: int| less(gaps[k] as int);
        let more_at = |k: int| more(gaps[k] as int);
        let equal_at = |k: int| equal(gaps[k] as int);
        order::lemma_tally_same(n, |k: int| (gaps[k] as int) < m, less_at);
        order::lemma_tally_same(n, |k: int| (gaps[k] as int) > m, more_at);
        order::lemma_tally_of_three(n, less_at, more_at, equal_at, yes_at);
    }
}

/// A gap that more than half of the measured gaps have, and that lies within
/// the limits, is the duration of a frame, wherever the other gaps lie.
pub proof fn lemma_a_steady_burst_keeps_its_rate(frames: Seq<ClipSource>, gap: int)
    requires
        frames.len() <= usize::MAX,
        measurable(frames),
        2 * gaps_that(frames, |g: int| g == gap) > gaps_that(frames, |g: int| true),
        9 <= gap <= 100,
    ensures
        clip::cadence_of(frames) == (Cadence {
            sample_ms: gap as u32,
            source: CadenceSource::Measured,
        }),
{
    lemma_cadence_is_the_median(frames);
    let c = clip::cadence_of(frames);
    let m = match c.source {
        CadenceSource::Clamped { median_ms } => median_ms as int,
        _ => c.sample_ms as int,
    };
    let n = frames.len() as int;
    let yes = |i: int| gap_at(frames, i) is Some && (|g: int| true)(gap_at(frames, i)->0);
    let here = |i: int| gap_at(frames, i) is Some && (|g: int| g == gap)(gap_at(frames, i)->0);
    let less = |i: int| gap_at(frames, i) is Some && (|g: int| g < m)(gap_at(frames, i)->0);
    let more = |i: int| gap_at(frames, i) is Some && (|g: int| g > m)(gap_at(frames, i)->0);
    order::lemma_tally_grows(n, here, yes);
    if gap < m {
        order::lemma_tally_grows(n, here, less);
    } else if gap > m {
        order::lemma_tally_grows(n, here, more);
    }
}

/// A rate in tenths is the nearest to ten thousand over the milliseconds; a
/// tie goes to the even tenth, but for 20000 ms, whose quotient in binary
/// lies just above the half.
pub proof fn lemma_rate_is_rounded(ms: int)
    requires
        1 <= ms,
    ensures
        ({
            let t = clip::fps_tenths(ms);
            &&& 2 * (t * ms) <= 20000 + ms
            &&& 2 * (t * ms) >= 20000 - ms
            &&& 2 * (t * ms) == 20000 - ms ==> t % 2 == 0
            &&& 2 * (t * ms) == 20000 + ms ==> ms == 20000
        }),
        clip::fps_tenths(0) == clip::fps_tenths(1),
{
    let t = clip::fps_tenths(ms);
    if ms != 20000 {
        let n = 20000 + ms - 1;
        let d = 2 * ms;
        vstd::arithmetic::div_mod::lemma_fundamental_div_mod(n, d);
        assert(d * (n / d) == 2 * (t * ms)) by (nonlinear_arith)
            requires
                d == 2 * ms,
                t == n / d,
        ;
        assert(0 <= n % d < d) by (nonlinear_arith)
            requires
                d > 0,
        ;
        if 2 * (t * ms) == 20000 - ms {
            assert(ms * (2 * t + 1) == 20000) by (nonlinear_arith)
                requires
                    2 * (t * ms) == 20000 - ms,
            ;
            lemma_ties_are_even(ms, t);
        }
    }
}

proof fn lemma_ties_are_even(ms: int, t: int)
    requires
        1 <= ms,
        ms * (2 * t + 1) == 20000,
        ms != 20000,
    ensures
        t % 2 == 0,
{
    // An odd divisor of 20000 divides 625.
    let q = 2 * t + 1;
    assert(q >= 1) by (nonlinear_arith)
        requires
            ms >= 1,
            ms * q == 20000,
    ;
    assert(q % 2 == 1);
    assert(ms % 32 == 0) by {
        lemma_even_factor(ms, q, 10000);
        let a = ms / 2;
        assert(a * q == 10000) by (nonlinear_arith)
            requires
                ms * q == 20000,
                ms == 2 * a,
        ;
        lemma_even_factor(a, q, 5000);
        let b = a / 2;
        assert(b * q == 5000) by (nonlinear_arith)
            requires
                a * q == 10000,
                a == 2 * b,
        ;
        lemma_even_factor(b, q, 2500);
        let c = b / 2;
        assert(c * q == 2500) by (nonlinear_arith)
            requires
                b * q == 5000,
                b == 2 * c,
        ;
        lemma_even_factor(c, q, 1250);
        let d = c / 2;
        assert(d * q == 1250) by (nonlinear_arith)
            requires
                c * q == 2500,
                c == 2 * d,
        ;
        lemma_even_factor(d, q, 625);
    }
    let m = ms / 32;
    assert(m * q == 625) by (nonlinear_arith)
        requires
            ms * q == 20000,
            ms == 32 * m,
    ;
    assert(m >= 1) by (nonlinear_arith)
        requires
            m * q == 625,
            q >= 1,
    ;
    assert(q <= 625) by (nonlinear_arith)
        requires
            m * q == 625,
            m >= 1,
            q >= 1,
    ;
    lemma_divisors_of_625(m, q);
}

proof fn lemma_even_factor(a: int, q: int, half: int)
    requires
        a * q == 2 * half,
        q % 2 == 1,
    ensures
        a % 2 == 0,
{
    if a % 2 == 1 {
        let x = a / 2;
        let y = q / 2;
        assert(a * q == 2 * (2 * x * y + x + y) + 1) by (nonlinear_arith)
            requires
                a == 2 * x + 1,
                q == 2 * y + 1,
        ;
    }
}

proof fn lemma_five_divides(m: int, q: int, fifth: int)
    requires
        m * q == 5 * fifth,
    ensures
        m % 5 == 0 || q % 5 == 0,
{
    if m % 5 != 0 && q % 5 != 0 {
        let (a, b) = (m / 5, q / 5);
        let (r, s) = (m % 5, q % 5);
        assert(m * q == 5 * (5 * a * b + a * s + b * r) + r * s) by (nonlinear_arith)
            requires
                m == 5 * a + r,
                q == 5 * b + s,
        ;
        assert((r * s) % 5 != 0) by {
            assert(r == 1 || r == 2 || r == 3 || r == 4);
            assert(s == 1 || s == 2 || s == 3 || s == 4);
        }
        assert(false);
    }
}

/// The divisors of 625 are 1 more than a multiple of four.
proof fn lemma_divisors_of_625(m: int, q: int)
    requires
        m >= 1,
        q >= 1,
        m * q == 625,
    ensures
        q % 4 == 1,
{
    lemma_power_of_five(m, q, 625);
}

proof fn lemma_power_of_five(m: int, q: int, n: int)
    requires
        m >= 1,
        q >= 1,
        m * q == n,
        n == 625 || n == 125 || n == 25 || n == 5 || n == 1,
    ensures
        q % 4 == 1,
    decreases n,
{
    if n == 1 {
        assert(q == 1) by (nonlinear_arith)
            requires
                m >= 1,
                q >= 1,
                m * q == 1,
        ;
    } else {
        let f = n / 5;
        lemma_five_divides(m, q, f);
        if m % 5 == 0 {
            let a = m / 5;
            assert(a * q == f) by (nonlinear_arith)
                requires
                    m * q == 5 * f,
                    m == 5 * a,
            ;
            assert(a >= 1);
            lemma_power_of_five(a, q, f);
        } else {
            let b = q / 5;
            assert(m * b == f) by (nonlinear_arith)
                requires
                    m * q == 5 * f,
                    q == 5 * b,
            ;
            assert(b >= 1);
            lemma_power_of_five(m, b, f);
        }
    }
}

proof fn lemma_fine_unit_is_fine(n: int, unit: int)
    requires
        1 <= n < clip::EXACT,
        1 <= unit,
    ensures
        clip::fine_unit(n, 1000, unit) > 500,
    decreases clip::HALF_EXACT - unit,
{
    if 2 * unit <= clip::HALF_EXACT && n * (2 * unit) < clip::EXACT * 1000 {
        lemma_fine_unit_is_fine(n, 2 * unit);
    } else if 2 * unit <= clip::HALF_EXACT {
        assert(2 * unit > 1000) by (nonlinear_arith)
            requires
                n * (2 * unit) >= clip::EXACT * 1000,
                n < clip::EXACT,
                1 <= n,
                1 <= unit,
        ;
    }
}

/// A gap of seconds is said to the nearest tenth.
pub proof fn lemma_gap_is_rounded(ms: int)
    requires
        1000 <= ms < clip::EXACT,
    ensures
        -50 <= 100 * clip::gap_tenths(ms) - ms <= 50,
{
    rounding::lemma_rounded_is_nearest(ms, 1);
    assert(clip::nearest_double(ms) == ms);
    let u = clip::fine_unit(ms, 1000, 1);
    lemma_fine_unit_is_fine(ms, 1);
    let q = rounding::rounded(ms * u, 1000);
    let t = clip::gap_tenths(ms);
    rounding::lemma_rounded_is_nearest(ms * u, 1000);
    rounding::lemma_rounded_is_nearest(10 * q, u);
    let off = 100 * t - ms;
    assert(off * u == 100 * (t * u) - ms * u) by (nonlinear_arith)
        requires
            off == 100 * t - ms,
    ;
    assert(off < 51 && off > -51) by (nonlinear_arith)
        requires
            off * u <= 50 * u + 500,
            off * u >= -(50 * u + 500),
            u > 500,
    ;
}

// ---------------------------------------------------------------- the scope
/// A selection is taken as it is. Without one the whole burst under the cursor
/// is taken, every frame that is in it and in their order; a cursor outside
/// any burst takes nothing.
pub proof fn lemma_what_is_exported(
    selected: Seq<usize>,
    cursor: int,
    group_of: Seq<Option<usize>>,
    i: int,
)
    requires
        0 <= i < group_of.len() <= usize::MAX,
    ensures
        ({
            let ids = clip::scope_of(selected, cursor, group_of);
            let together = |j: int| group_of[j] == group_of[cursor];
            let in_burst = 0 <= cursor < group_of.len() && group_of[cursor] is Some;
            &&& selected.len() > 0 ==> ids == selected
            &&& selected.len() == 0 && !in_burst ==> ids.len() == 0
            &&& selected.len() == 0 && in_burst ==> ids.len() == order::tally(
                group_of.len() as int,
                together,
            )
            &&& selected.len() == 0 && in_burst && together(i) ==> ids[order::tally(
                i,
                together,
            ) as int] == i
        }),
{
    if selected.len() == 0 && 0 <= cursor < group_of.len() && group_of[cursor] is Some {
        lemma_members_in_order(group_of, cursor, group_of.len() as int);
    }
}

proof fn lemma_members_in_order(group_of: Seq<Option<usize>>, cursor: int, n: int)
    requires
        0 <= cursor < group_of.len(),
        0 <= n <= group_of.len() <= usize::MAX,
        group_of[cursor] is Some,
    ensures
        ({
            let together = |j: int| group_of[j] == group_of[cursor];
            let ids = clip::group_members(group_of, group_of[cursor]->0, n);
            &&& ids.len() == order::tally(n, together)
            &&& forall|i: int|
                0 <= i < n && #[trigger] together(i) ==> ids[order::tally(i, together) as int] == i
        }),
    decreases n,
{
    let together = |j: int| group_of[j] == group_of[cursor];
    if n > 0 {
        lemma_members_in_order(group_of, cursor, n - 1);
        let front = clip::group_members(group_of, group_of[cursor]->0, n - 1);
        let ids = clip::group_members(group_of, group_of[cursor]->0, n);
        assert forall|i: int| 0 <= i < n && #[trigger] together(i) implies ids[order::tally(
            i,
            together,
        ) as int] == i by {
            if i < n - 1 {
                order::lemma_tally_is_short(together, i, n - 1);
                assert(front[order::tally(i, together) as int] == i);
            }
        }
    }
}

// ---------------------------------------------------------------- the order
/// The export takes every frame once, in capture order. Of two frames the one
/// that stands first
/// - has a time if the other has one;
/// - is not later;
/// - with the same time, or where neither has one, has a name that is not
///   after the other's, in byte order;
/// - and with the same name too, was given first.
pub proof fn lemma_capture_order(sources: Seq<ClipSource>, i: int, j: int)
    requires
        sources.len() <= usize::MAX,
        0 <= i < j < sources.len(),
    ensures
        ({
            let p = clip::capture_positions(sources);
            let ordered = clip::in_capture_order(sources);
            let (a, b) = (ordered[i], ordered[j]);
            &&& order::arranges(p, 0, sources.len() as int)
            &&& ordered.len() == sources.len()
            &&& a == sources[p[i] as int]
            &&& b == sources[p[j] as int]
            &&& b.time_ms is Some ==> a.time_ms is Some
            &&& a.time_ms is Some && b.time_ms is Some ==> a.time_ms->0 <= b.time_ms->0
            &&& a.time_ms == b.time_ms ==> text::text_le(a.name@, b.name@)
            &&& a.time_ms == b.time_ms && a.name@ == b.name@ ==> p[i] < p[j]
        }),
{
    let le = |a: int, b: int| clip::captured_before(sources[a], sources[b]);
    clip::lemma_capture_preorder(sources);
    order::lemma_has_stable_order(sources.len() as int, le);
    let p = clip::capture_positions(sources);
    assert(order::before(le, p[i] as int, p[j] as int));
    let (a, b) = (sources[p[i] as int], sources[p[j] as int]);
    text::lemma_text_le(a.name@, b.name@, a.name@);
}

// ------------------------------------------------------------ the one track
/// A JPEG that can be sized and is not empty.
pub open spec fn can_be_shown(probe: Option<Probe>) -> bool {
    match probe {
        Some(p) => p.width > 0 && p.height > 0 && p.len > 0,
        None => false,
    }
}

/// A frame that can share the track of the frame that sets it: it can be
/// shown, at the same size, and turned the same way.
pub open spec fn fits_with(probe: Option<Probe>, first: Probe) -> bool {
    &&& can_be_shown(probe)
    &&& probe->0.width == first.width
    &&& probe->0.height == first.height
    &&& clip::rotation_of(probe->0.orientation) == clip::rotation_of(first.orientation)
}

/// Why a frame is left out: it cannot be shown; else its own size, where it is
/// another; else its own orientation.
pub open spec fn why_left_out(probe: Option<Probe>, first: Probe) -> SkipReason {
    if !can_be_shown(probe) {
        SkipReason::NoPreview
    } else if probe->0.width != first.width || probe->0.height != first.height {
        SkipReason::Size { width: probe->0.width, height: probe->0.height }
    } else {
        SkipReason::Orientation(probe->0.orientation)
    }
}

/// Which frames of a capture order fit with its first.
pub open spec fn fitting(found: Seq<Option<Probe>>, first: Probe) -> spec_fn(int) -> bool {
    |i: int| fits_with(found[i], first)
}

/// Which do not.
pub open spec fn unfitting(found: Seq<Option<Probe>>, first: Probe) -> spec_fn(int) -> bool {
    |i: int| !fits_with(found[i], first)
}

/// Which fit and are mirrored.
pub open spec fn fitting_mirrored(found: Seq<Option<Probe>>, first: Probe) -> spec_fn(int) -> bool {
    |i: int|
        fits_with(found[i], first) && {
            let o = found[i]->0.orientation;
            o == 2 || o == 4 || o == 5 || o == 7
        }
}

proof fn lemma_first_sets_the_track(found: Seq<Option<Probe>>, f: int)
    requires
        0 <= f < found.len(),
        can_be_shown(found[f]),
        forall|k: int| 0 <= k < f ==> !can_be_shown(#[trigger] found[k]),
    ensures
        clip::track_of(found) == (
            found[f]->0.width,
            found[f]->0.height,
            clip::rotation_of(found[f]->0.orientation),
        ),
    decreases f,
{
    if f > 0 {
        assert(!can_be_shown(found[0]));
        let rest = found.drop_first();
        assert forall|k: int| 0 <= k < f - 1 implies !can_be_shown(#[trigger] rest[k]) by {
            assert(rest[k] == found[k + 1]);
        }
        assert(rest[f - 1] == found[f]);
        lemma_first_sets_the_track(rest, f - 1);
    }
}

proof fn lemma_sieve_upto(
    ordered: Seq<ClipSource>,
    found: Seq<Option<Probe>>,
    first: Probe,
    track: (u32, u32, u16),
    n: int,
)
    requires
        0 <= n <= found.len(),
        ordered.len() == found.len(),
        track == (first.width, first.height, clip::rotation_of(first.orientation)),
    ensures
        ({
            let kept = clip::kept_among(found, track, n);
            let skipped = clip::left_out_among(ordered, found, track, n);
            let yes = fitting(found, first);
            let no = unfitting(found, first);
            &&& kept.len() == order::tally(n, yes)
            &&& skipped.len() == order::tally(n, no)
            &&& clip::mirrored_among(found, kept) == order::tally(
                n,
                fitting_mirrored(found, first),
            )
            &&& forall|i: int|
                0 <= i < n && #[trigger] yes(i) ==> kept[order::tally(i, yes) as int] == i
            &&& forall|i: int|
                0 <= i < n && #[trigger] no(i) ==> skipped[order::tally(i, no) as int] == (Skipped {
                    id: ordered[i].id,
                    name: ordered[i].name,
                    reason: why_left_out(found[i], first),
                })
        }),
    decreases n,
{
    let yes = fitting(found, first);
    let no = unfitting(found, first);
    let flipped = fitting_mirrored(found, first);
    if n > 0 {
        lemma_sieve_upto(ordered, found, first, track, n - 1);
        let front = clip::kept_among(found, track, n - 1);
        let kept = clip::kept_among(found, track, n);
        let before = clip::left_out_among(ordered, found, track, n - 1);
        let skipped = clip::left_out_among(ordered, found, track, n);
        assert(yes(n - 1) == (clip::verdict(found[n - 1], track) is None));
        assert(no(n - 1) == !yes(n - 1));
        if yes(n - 1) {
            assert(kept.drop_last() =~= front);
            assert(kept.last() == n - 1);
            assert(flipped(n - 1) == clip::is_mirrored(found[n - 1]->0.orientation));
        } else {
            assert(!flipped(n - 1));
        }
        assert forall|i: int| 0 <= i < n && #[trigger] yes(i) implies kept[order::tally(
            i,
            yes,
        ) as int] == i by {
            if i < n - 1 {
                order::lemma_tally_is_short(yes, i, n - 1);
                assert(front[order::tally(i, yes) as int] == i);
            }
        }
        assert forall|i: int| 0 <= i < n && #[trigger] no(i) implies skipped[order::tally(
            i,
            no,
        ) as int] == (Skipped {
            id: ordered[i].id,
            name: ordered[i].name,
            reason: why_left_out(found[i], first),
        }) by {
            if i < n - 1 {
                order::lemma_tally_is_short(no, i, n - 1);
                assert(before[order::tally(i, no) as int] == (Skipped {
                    id: ordered[i].id,
                    name: ordered[i].name,
                    reason: why_left_out(found[i], first),
                }));
            }
        }
    }
}

/// The first frame of the capture order that can be shown sets the track's
/// size and rotation. Every frame that fits with it is in the file, in capture
/// order, with its own bytes; every other one is left out, in capture order,
/// for its own reason; and the mirrored ones of the file are counted.
pub proof fn lemma_one_track(sources: Seq<ClipSource>, probes: Seq<Option<Probe>>, f: int, i: int)
    requires
        sources.len() <= usize::MAX,
        probes.len() == sources.len(),
        ({
            let found = clip::probes_in_order(sources, probes);
            &&& 0 <= f < sources.len()
            &&& can_be_shown(found[f])
            &&& forall|k: int| 0 <= k < f ==> !can_be_shown(#[trigger] found[k])
        }),
        0 <= i < sources.len(),
    ensures
        ({
            let p = clip::capture_positions(sources);
            let ordered = clip::in_capture_order(sources);
            let found = clip::probes_in_order(sources, probes);
            let first = found[f]->0;
            let n = sources.len() as int;
            let s = clip::sifted(sources, probes);
            let yes = fitting(found, first);
            let no = unfitting(found, first);
            &&& found.len() == sources.len()
            &&& found[i] == probes[p[i] as int]
            &&& ordered[i] == sources[p[i] as int]
            &&& s.track == (first.width, first.height, clip::rotation_of(first.orientation))
            &&& s.frames.len() == order::tally(n, yes)
            &&& s.sources.len() == order::tally(n, yes)
            &&& s.skipped.len() == order::tally(n, no)
            &&& s.mirrored == order::tally(n, fitting_mirrored(found, first))
            &&& yes(i) ==> s.sources[order::tally(i, yes) as int] == ordered[i]
            &&& yes(i) ==> s.frames[order::tally(i, yes) as int] == (ClipFrame {
                id: ordered[i].id,
                path: ordered[i].path,
                name: ordered[i].name,
                offset: found[i]->0.offset,
                len: found[i]->0.len,
            })
            &&& no(i) ==> s.skipped[order::tally(i, no) as int] == (Skipped {
                id: ordered[i].id,
                name: ordered[i].name,
                reason: why_left_out(found[i], first),
            })
        }),
{
    let ordered = clip::in_capture_order(sources);
    let found = clip::probes_in_order(sources, probes);
    let first = found[f]->0;
    lemma_first_sets_the_track(found, f);
    lemma_sieve_upto(ordered, found, first, clip::track_of(found), found.len() as int);
    let yes = fitting(found, first);
    if yes(i) {
        order::lemma_tally_is_short(yes, i, found.len() as int);
    }
}

/// Where no frame can be shown, none is in the file, and each is left out for
/// that.
pub proof fn lemma_no_track(sources: Seq<ClipSource>, probes: Seq<Option<Probe>>, i: int)
    requires
        probes.len() == sources.len(),
        forall|k: int|
            0 <= k < sources.len() ==> !can_be_shown(
                #[trigger] clip::probes_in_order(sources, probes)[k],
            ),
        0 <= i < sources.len(),
    ensures
        ({
            let s = clip::sifted(sources, probes);
            &&& s.frames.len() == 0
            &&& s.skipped.len() == sources.len()
            &&& s.skipped[i].reason == SkipReason::NoPreview
            &&& s.skipped[i].id == clip::in_capture_order(sources)[i].id
        }),
{
    let ordered = clip::in_capture_order(sources);
    let found = clip::probes_in_order(sources, probes);
    lemma_all_left_out(ordered, found, clip::track_of(found), found.len() as int);
}

proof fn lemma_all_left_out(
    ordered: Seq<ClipSource>,
    found: Seq<Option<Probe>>,
    track: (u32, u32, u16),
    n: int,
)
    requires
        0 <= n <= found.len(),
        forall|k: int| 0 <= k < found.len() ==> !can_be_shown(#[trigger] found[k]),
    ensures
        clip::kept_among(found, track, n).len() == 0,
        ({
            let skipped = clip::left_out_among(ordered, found, track, n);
            &&& skipped.len() == n
            &&& forall|i: int|
                0 <= i < n ==> (#[trigger] skipped[i]).reason == SkipReason::NoPreview
                    && skipped[i].id == ordered[i].id
        }),
    decreases n,
{
    if n > 0 {
        lemma_all_left_out(ordered, found, track, n - 1);
        assert(!can_be_shown(found[n - 1]));
    }
}

/// The rotation of a mirrored orientation turns the picture as it does once
/// the stored picture is mirrored from left to right; every other orientation
/// is shown as it is, and four rotations are enough.
pub proof fn lemma_rotation_drops_the_mirror(o: u16, x: int, y: int, w: int, h: int)
    ensures
        ({
            let r = clip::rotation_of(o);
            let turned = orient::stored_at(x, y, w, h, r);
            &&& r == 1 || r == 3 || r == 6 || r == 8
            &&& orient::displayed_size(w, h, r) == orient::displayed_size(w, h, o)
            &&& o == 2 || o == 4 || o == 5 || o == 7 ==> orient::stored_at(x, y, w, h, o) == (
                w - 1 - turned.0,
                turned.1,
            )
            &&& !(o == 2 || o == 4 || o == 5 || o == 7) ==> orient::stored_at(x, y, w, h, o)
                == turned
        }),
{
}

// ----------------------------------------------------------------- the plan
/// The sizes of some frames, together.
pub open spec fn bytes_together(frames: Seq<ClipFrame>) -> int
    decreases frames.len(),
{
    if frames.len() == 0 {
        0
    } else {
        frames[0].len + bytes_together(frames.drop_first())
    }
}

proof fn lemma_payload_is_the_sum(frames: Seq<ClipFrame>)
    ensures
        clip::payload_of(frames) == bytes_together(frames),
    decreases frames.len(),
{
    if frames.len() > 0 {
        let last = frames.drop_last();
        lemma_payload_is_the_sum(last);
        assert(clip::sizes_of(frames).drop_last() =~= clip::sizes_of(last));
        assert(clip::qt::total(clip::sizes_of(frames)) == clip::qt::total(clip::sizes_of(last))
            + frames.last().len);
        lemma_sum_from_the_back(frames);
    }
}

proof fn lemma_sum_from_the_back(frames: Seq<ClipFrame>)
    requires
        frames.len() > 0,
    ensures
        bytes_together(frames) == bytes_together(frames.drop_last()) + frames.last().len,
    decreases frames.len(),
{
    let rest = frames.drop_first();
    if rest.len() > 0 {
        lemma_sum_from_the_back(rest);
        assert(rest.drop_last() =~= frames.drop_last().drop_first());
        assert(rest.last() == frames.last());
        assert(frames.drop_last()[0] == frames[0]);
    } else {
        assert(frames.drop_last().len() == 0);
        assert(bytes_together(rest) == 0);
    }
}

/// A plan keeps to its answer: a free name is written, a taken one is a
/// question before the answer, is replaced under "overwrite", and under "keep
/// both" gives way to the number that is as high as the names taken. Only a
/// question names an example. The file is as large as its samples and a
/// header of 635 bytes and 12 per frame (8 more from 4 GiB on), and that is
/// free.
pub proof fn lemma_what_a_plan_says(
    sources: Seq<ClipSource>,
    probes: Seq<Option<Probe>>,
    dest: Destination,
    policy: fileops::ClashPolicy,
    free: Option<u64>,
    p: ClipPlanView,
)
    requires
        clip::planned(sources, probes, dest, policy, free) == Ok::<ClipPlanView, ClipFault>(p),
    ensures
        ({
            let s = clip::sifted(sources, probes);
            let name = clip::name_of_range(p.frames[0].name@, p.frames.last().name@);
            &&& p.frames == s.frames
            &&& p.skipped == s.skipped
            &&& p.mirrored == s.mirrored
            &&& (p.width, p.height, p.orientation) == s.track
            &&& p.cadence == clip::cadence_of(s.sources)
            &&& p.frames.len() >= 2
            &&& p.action == ClipAction::Write <==> dest.taken == 0
            &&& p.action == ClipAction::Clash <==> dest.taken > 0 && policy
                == fileops::ClashPolicy::Ask
            &&& p.action == ClipAction::Replace <==> dest.taken > 0 && policy
                == fileops::ClashPolicy::Overwrite
            &&& p.action == ClipAction::WriteRenamed <==> dest.taken > 0 && policy
                == fileops::ClashPolicy::CreateCopies
            &&& p.action != ClipAction::WriteRenamed ==> p.dst == name
            &&& p.action == ClipAction::WriteRenamed ==> p.dst == fileops::suffixed_name(
                name,
                dest.taken as int,
            )
            &&& p.keep_both_example is Some <==> p.action == ClipAction::Clash
            &&& p.keep_both_example is Some ==> p.keep_both_example->0 == fileops::suffixed_name(
                name,
                dest.taken as int,
            )
            &&& vstd::utf8::encode_utf8(name).len() <= 255
            &&& p.sample_bytes == bytes_together(p.frames)
            &&& p.total_bytes == p.sample_bytes + 12 * p.frames.len() + if p.sample_bytes
                < 0xffff_fff8 {
                635int
            } else {
                643int
            }
            &&& p.free_bytes == free
            &&& free is Some ==> p.total_bytes <= free->0
        }),
{
    let s = clip::sifted(sources, probes);
    lemma_payload_is_the_sum(s.frames);
}

/// There is a plan unless one of these holds, of which the first is the
/// reason: fewer than two frames were given, the destination is no folder,
/// fewer than two frames can share a track, the name is longer than 255
/// bytes, or the volume says that it has too little room.
pub proof fn lemma_why_there_is_no_plan(
    sources: Seq<ClipSource>,
    probes: Seq<Option<Probe>>,
    dest: Destination,
    policy: fileops::ClashPolicy,
    free: Option<u64>,
)
    ensures
        ({
            let r = clip::planned(sources, probes, dest, policy, free);
            let s = clip::sifted(sources, probes);
            let name = clip::name_of_range(s.frames[0].name@, s.frames.last().name@);
            let bytes = vstd::utf8::encode_utf8(name).len();
            let size = clip::file_size(s.frames);
            let given = sources.len() >= 2;
            let kept = s.frames.len() >= 2;
            &&& !given ==> r == Err::<ClipPlanView, _>(
                ClipFault::TooFewFrames { kept: sources.len() as int, skipped: Seq::empty() },
            )
            &&& given && dest.blocked ==> r == Err::<ClipPlanView, _>(ClipFault::DestNotADirectory)
            &&& given && !dest.blocked && !kept ==> r == Err::<ClipPlanView, _>(
                ClipFault::TooFewFrames { kept: s.frames.len() as int, skipped: s.skipped },
            )
            &&& given && !dest.blocked && kept && bytes > 255 ==> r == Err::<ClipPlanView, _>(
                ClipFault::NameTooLong { name, len: bytes as int },
            )
            &&& given && !dest.blocked && kept && bytes <= 255 && free is Some && size > free->0
                ==> r == Err::<ClipPlanView, _>(
                ClipFault::InsufficientSpace { needed: size, free: free->0 as int },
            )
            &&& given && !dest.blocked && kept && bytes <= 255 && (free is None || size <= free->0)
                ==> r is Ok
        }),
{
}

/// A file is named by the first and the last of its frames, without their
/// extensions; by the one name that they share where they share it.
pub proof fn lemma_name_of_a_range(a: Seq<char>, x: Seq<char>, b: Seq<char>, y: Seq<char>)
    requires
        a.len() > 0,
        b.len() > 0,
        !x.contains('.'),
        !y.contains('.'),
    ensures
        a != b ==> clip::name_of_range(a + seq!['.'] + x, b + seq!['.'] + y) == a + "-"@ + b
            + ".mov"@,
        clip::name_of_range(a + seq!['.'] + x, a + seq!['.'] + y) == a + ".mov"@,
{
    text::lemma_last_dot(a, x);
    text::lemma_last_dot(b, y);
    text::lemma_last_dot(a, y);
}

// ---------------------------------------------------------------- the skips
/// How many frames were left out for a reason of these words.
pub open spec fn left_out_for(skipped: Seq<Skipped>, words: Seq<char>) -> nat {
    order::tally(skipped.len() as int, |i: int| skipped[i].reason.words() == words)
}

/// The reasons of a list of skips: each once, with the number of frames left
/// out for it, in the order in which they came up.
pub proof fn lemma_reasons_are_counted(skipped: Seq<Skipped>)
    ensures
        ({
            let groups = clip::skip_groups(skipped);
            &&& forall|a: int, b: int|
                0 <= a < b < groups.len() ==> (#[trigger] groups[a]).0 != (#[trigger] groups[b]).0
            &&& forall|a: int|
                0 <= a < groups.len() ==> (#[trigger] groups[a]).1 == left_out_for(
                    skipped,
                    groups[a].0,
                )
            &&& forall|a: int| 0 <= a < groups.len() ==> (#[trigger] groups[a]).1 >= 1
            &&& forall|i: int|
                0 <= i < skipped.len() ==> exists|a: int|
                    0 <= a < groups.len() && (#[trigger] groups[a]).0 == (
                    #[trigger] skipped[i]).reason.words()
        }),
    decreases skipped.len(),
{
    if skipped.len() > 0 {
        let n = skipped.len() as int;
        let front = skipped.drop_last();
        lemma_reasons_are_counted(front);
        let had = clip::skip_groups(front);
        let groups = clip::skip_groups(skipped);
        let words = skipped.last().reason.words();
        let k = clip::group_at(had, words);
        lemma_group_at_is(had, words);
        assert forall|w: Seq<char>| left_out_for(skipped, w) == left_out_for(front, w) + (if words
            == w {
            1int
        } else {
            0
        }) by {
            order::lemma_tally_same(
                n - 1,
                |i: int| front[i].reason.words() == w,
                |i: int| skipped[i].reason.words() == w,
            );
        }
        if k >= had.len() {
            assert(left_out_for(front, words) == 0) by {
                let test = |i: int| front[i].reason.words() == words;
                order::lemma_tally_of_all(n - 1, test);
                if order::tally(n - 1, test) > 0 {
                    let i = choose|i: int| 0 <= i < n - 1 && #[trigger] test(i);
                    let a = choose|a: int|
                        0 <= a < had.len() && (#[trigger] had[a]).0 == front[i].reason.words();
                    assert(had[a].0 != words);
                }
            }
        }
        assert forall|i: int| 0 <= i < skipped.len() implies exists|a: int|
            0 <= a < groups.len() && (#[trigger] groups[a]).0 == (
            #[trigger] skipped[i]).reason.words() by {
            if i < n - 1 {
                assert(front[i] == skipped[i]);
                let a = choose|a: int|
                    0 <= a < had.len() && (#[trigger] had[a]).0 == front[i].reason.words();
                assert(groups[a].0 == had[a].0);
            } else if k < had.len() {
                assert(groups[k].0 == words);
            } else {
                assert(groups[had.len() as int].0 == words);
            }
        }
    }
}

proof fn lemma_group_at_is(groups: Seq<(Seq<char>, int)>, words: Seq<char>)
    ensures
        0 <= clip::group_at(groups, words) <= groups.len(),
        clip::group_at(groups, words) < groups.len() ==> groups[clip::group_at(groups, words)].0
            == words,
        clip::group_at(groups, words) == groups.len() ==> forall|a: int|
            0 <= a < groups.len() ==> (#[trigger] groups[a]).0 != words,
    decreases groups.len(),
{
    if groups.len() > 0 && groups[0].0 != words {
        let rest = groups.drop_first();
        lemma_group_at_is(rest, words);
        if clip::group_at(groups, words) == groups.len() {
            assert forall|a: int| 0 <= a < groups.len() implies (#[trigger] groups[a]).0
                != words by {
                if a > 0 {
                    assert(rest[a - 1] == groups[a]);
                }
            }
        }
    }
}

/// A further skip leaves the order of the reasons as it is; a new reason comes
/// last.
pub proof fn lemma_reasons_keep_their_order(skipped: Seq<Skipped>, more: Skipped, a: int)
    requires
        0 <= a < clip::skip_groups(skipped).len(),
    ensures
        ({
            let before = clip::skip_groups(skipped);
            let after = clip::skip_groups(skipped.push(more));
            &&& before.len() <= after.len() <= before.len() + 1
            &&& after[a].0 == before[a].0
        }),
{
    let all = skipped.push(more);
    assert(all.drop_last() =~= skipped);
    lemma_group_at_is(clip::skip_groups(skipped), all.last().reason.words());
}

/// The sentence names the reasons with the most frames first; of two with as
/// many, the one that came up first.
pub proof fn lemma_the_biggest_comes_first(groups: Seq<(Seq<char>, int)>, i: int, j: int)
    requires
        0 <= i < j < groups.len() <= usize::MAX,
    ensures
        ({
            let p = clip::biggest_first(groups);
            &&& order::arranges(p, 0, groups.len() as int)
            &&& groups[p[i] as int].1 >= groups[p[j] as int].1
            &&& groups[p[i] as int].1 == groups[p[j] as int].1 ==> p[i] < p[j]
        }),
{
    let le = |a: int, b: int| groups[a].1 >= groups[b].1;
    order::lemma_has_stable_order(groups.len() as int, le);
    let p = clip::biggest_first(groups);
    assert(order::before(le, p[i] as int, p[j] as int));
}

// -------------------------------------------------------------- the writing
/// When each step of a write is due. Frames are copied one after the other,
/// then the file is flushed, its index read back, its samples checked one after
/// the other, and only then it gets its name, over what is there where that
/// was answered. A cancel is heeded before each but the flush, and not once the
/// name is given.
pub proof fn lemma_when_each_step_is_due(
    plan: ClipPlan,
    stage: WriteStage,
    cancelled: bool,
    i: usize,
)
    ensures
        ({
            let step = clip::step_after(plan, stage, cancelled);
            let n = plan.frames@.len();
            let copying = stage is Copied && stage->Copied_0 < n;
            &&& step == WriteStep::Copy(i) <==> stage == WriteStage::Copied(i) && i < n && !cancelled
            &&& step == WriteStep::Sync <==> stage is Copied && !copying
            &&& step == WriteStep::Verify <==> stage == WriteStage::Synced && !cancelled
            &&& step == WriteStep::Check(i) <==> stage == WriteStage::Checked(i) && i < n
                && !cancelled
            &&& step is Commit <==> stage is Checked && stage->Checked_0 >= n && !cancelled
            &&& step is Commit ==> (step->Commit_0 == fileops::Commit::Replace <==> plan.action
                == ClipAction::Replace)
            &&& step == WriteStep::Abandon <==> cancelled && (copying || stage
                == WriteStage::Synced || stage is Checked)
            &&& step == WriteStep::Done <==> stage == WriteStage::Committed
            // Where it leads.
            &&& clip::stage_after(WriteStep::Sync, stage) == WriteStage::Synced
            &&& clip::stage_after(WriteStep::Verify, stage) == WriteStage::Checked(0)
            &&& i < usize::MAX ==> clip::stage_after(WriteStep::Copy(i), stage)
                == WriteStage::Copied((i + 1) as usize)
            &&& i < usize::MAX ==> clip::stage_after(WriteStep::Check(i), stage)
                == WriteStage::Checked((i + 1) as usize)
            &&& step is Commit ==> clip::stage_after(step, stage) == WriteStage::Committed
            &&& step == WriteStep::Abandon || step == WriteStep::Done ==> clip::stage_after(
                step,
                stage,
            ) == stage
        }),
{
}

/// What a run reports. Whatever happened: the plan's name, cadence, playing
/// time, skips and mirrored frames. A committed file with its frames, size and
/// path, and whether it replaced another; a cancel; an error in its words; and
/// of a plan that still was a question its refusal, whatever was tried.
pub proof fn lemma_what_is_reported(plan: ClipPlan, outcome: Result<Written, Seq<char>>)
    ensures
        ({
            let r = clip::reported(plan, outcome);
            let question = plan.action == ClipAction::Clash;
            let landed = !question && outcome is Ok && outcome->Ok_0 is Committed;
            &&& r.name == plan.dst@
            &&& r.cadence == Some(plan.cadence)
            &&& r.duration_ms == plan.frames@.len() * plan.cadence.sample_ms
            &&& r.skipped == plan.skipped@
            &&& r.mirrored == plan.mirrored
            &&& landed ==> r.frames == plan.frames@.len() && r.bytes == outcome->Ok_0->bytes
                && r.path == Some(plan.dst@)
            &&& !landed ==> r.frames == 0 && r.bytes == 0 && r.path is None
            &&& r.all_verified <==> landed
            &&& r.replaced <==> landed && plan.action == ClipAction::Replace
            &&& r.cancelled <==> !question && outcome == Ok::<Written, Seq<char>>(
                Written::Cancelled,
            )
            &&& r.failed is Some <==> question || outcome is Err
            &&& !question && outcome is Err ==> r.failed == Some(outcome->Err_0)
        }),
{
}

/// An index is passed only where it says of the file exactly what the plan
/// does: as many samples, in milliseconds, of one duration, JPEG, of the plan's
/// size and rotation, with 64-bit offsets, and in front of the samples.
pub proof fn lemma_what_an_index_must_say(m: clip::qt::MovieView, plan: ClipPlan)
    ensures
        clip::index_fault(m, plan) is None <==> {
            &&& m.samples.len() == plan.frames@.len()
            &&& m.timescale == 1000
            &&& m.sample_ms == plan.cadence.sample_ms
            &&& m.stts_entries == 1
            &&& m.width == plan.width && m.sample_width == plan.width
            &&& m.height == plan.height && m.sample_height == plan.height
            &&& m.matrix == clip::qt::matrix_of(plan.orientation)
            &&& m.format == clip::qt::be32_bytes(0x6a70_6567)
            &&& m.major_brand == clip::qt::be32_bytes(0x7174_2020)
            &&& m.co64
            &&& m.moov_before_mdat
        },
{
}

/// A sample is in its place where it has its frame's size and stands behind
/// the header and all the samples before it.
pub proof fn lemma_where_a_sample_must_be(m: clip::qt::MovieView, plan: ClipPlan, i: int)
    requires
        0 <= i < plan.frames@.len(),
    ensures
        clip::is_placed(m, plan, i) <==> {
            &&& m.samples[i].size == plan.frames@[i].len
            &&& m.samples[i].offset == 12 * plan.frames@.len() + (if bytes_together(plan.frames@)
                < 0xffff_fff8 {
                635int
            } else {
                643int
            }) + bytes_together(plan.frames@.take(i))
        },
{
    lemma_payload_is_the_sum(plan.frames@);
    lemma_payload_is_the_sum(plan.frames@.take(i));
    assert(clip::sizes_of(plan.frames@).take(i) =~= clip::sizes_of(plan.frames@.take(i)));
}

/// What a step finds wrong. Reading the index back: whatever an index must not
/// say. Checking a sample: that it is not in its place, or that its bytes are
/// not those that were read. No other step finds anything.
pub proof fn lemma_what_a_step_finds(plan: ClipPlan, step: WriteStep, back: clip::ReadBack, i: usize)
    requires
        i < plan.frames@.len(),
    ensures
        clip::step_fault(plan, WriteStep::Verify, back) is None <==> clip::index_fault(
            back.movie,
            plan,
        ) is None,
        clip::step_fault(plan, WriteStep::Check(i), back) is None <==> clip::is_placed(
            back.movie,
            plan,
            i as int,
        ) && back.found[i as int] == back.written[i as int],
        step != WriteStep::Verify && !(step is Check) ==> clip::step_fault(plan, step, back) is None,
{
}

// ---------------------------------------------------------------- the words
/// A rate that is a whole number of frames a second is told as that number.
pub proof fn lemma_whole_rates_are_told(ms: u32)
    requires
        1 <= ms <= 1000,
        1000int % (ms as int) == 0,
    ensures
        (Cadence { sample_ms: ms, source: CadenceSource::Measured }).words() == text::decimal(
            1000int / (ms as int),
        ) + " fps"@,
{
    let q = 1000int / (ms as int);
    assert(q * ms == 1000) by (nonlinear_arith)
        requires
            1000int % (ms as int) == 0,
            q == 1000int / (ms as int),
            ms >= 1,
    ;
    assert((20000 + ms - 1) / (2 * ms) == 10 * q) by (nonlinear_arith)
        requires
            q * ms == 1000,
            ms >= 1,
    ;
    assert(clip::fps_tenths(ms as int) == 10 * q);
}

/// A gap under a second is told in milliseconds, one of whole seconds in
/// seconds with one decimal.
pub proof fn lemma_gaps_are_told(ms: int, s: int)
    requires
        0 <= ms < 1000,
        1 <= s,
        1000 * s < clip::EXACT,
    ensures
        clip::gap_words(ms) == text::decimal(ms) + " ms"@,
        clip::gap_words(1000 * s) == text::decimal(s) + "."@ + seq!['0'] + " s"@,
{
    lemma_gap_is_rounded(1000 * s);
    text::lemma_decimal_digits(0);
}

proof fn lemma_one_group(skipped: Seq<Skipped>, words: Seq<char>)
    requires
        skipped.len() > 0,
        forall|i: int|
            0 <= i < skipped.len() ==> (#[trigger] skipped[i]).reason.words() == words,
    ensures
        clip::skip_groups(skipped) == seq![(words, skipped.len() as int)],
    decreases skipped.len(),
{
    let front = skipped.drop_last();
    assert(skipped.last().reason.words() == words) by {
        assert(skipped[skipped.len() - 1].reason.words() == words);
    }
    if front.len() == 0 {
        assert(clip::skip_groups(front) =~= Seq::empty());
        assert(clip::group_at(Seq::empty(), words) == 0);
        assert(clip::skip_groups(skipped) =~= seq![(words, 1int)]);
    } else {
        lemma_one_group(front, words);
        let groups = clip::skip_groups(front);
        assert(clip::group_at(groups, words) == 0);
        assert(clip::skip_groups(skipped) =~= seq![(words, skipped.len() as int)]);
    }
}

/// Frames that were all left out for one reason are told with their number
/// and the reason; where none was left out, nothing is told.
pub proof fn lemma_one_reason_is_told(skipped: Seq<Skipped>, words: Seq<char>)
    requires
        forall|i: int|
            0 <= i < skipped.len() ==> (#[trigger] skipped[i]).reason.words() == words,
        skipped.len() <= usize::MAX,
    ensures
        skipped.len() == 0 ==> clip::skipped_words(skipped) == Seq::<char>::empty(),
        skipped.len() == 1 ==> clip::skipped_words(skipped) == "skipped — "@ + (text::decimal(1)
            + " frame: "@ + words),
        skipped.len() > 1 ==> clip::skipped_words(skipped) == "skipped — "@ + (text::decimal(
            skipped.len() as int,
        ) + " frames: "@ + words),
{
    if skipped.len() > 0 {
        lemma_one_group(skipped, words);
        let groups = clip::skip_groups(skipped);
        let le = |a: int, b: int| groups[a].1 >= groups[b].1;
        order::lemma_has_stable_order(1, le);
        let p = clip::biggest_first(groups);
        assert(order::arranges(p, 0, 1));
        assert(p[0] == 0);
    }
}

} // verus!
