//! Which frames make a burst, said of the frames themselves.
use crate::burst;
use crate::burst::{BurstConfig, FrameMeta};
use crate::order;
use crate::text;
use vstd::prelude::*;

verus! {

/// Frame `j` is the next one of frame `i`'s camera.
pub open spec fn next_of_the_camera(frames: Seq<FrameMeta>, i: int, j: int) -> bool {
    &&& 0 <= i < j < frames.len()
    &&& text::opt_text(frames[i].camera) == text::opt_text(frames[j].camera)
    &&& forall|k: int|
        i < k < j ==> text::opt_text((#[trigger] frames[k]).camera) != text::opt_text(
            frames[i].camera,
        )
}

/// The frame has a time and is not declared a single shot.
pub open spec fn may_join(f: FrameMeta) -> bool {
    f.time_ms is Some && f.seq != Some(0u32)
}

/// Two frames of a camera, one after the other, belong together: both may
/// join a burst, they are no further apart than the configuration allows (a
/// whole second at least where either has no SubSec), and either neither has
/// a sequence number or the second's is higher.
pub open spec fn belong_together(cfg: BurstConfig, a: FrameMeta, b: FrameMeta) -> bool {
    &&& may_join(a)
    &&& may_join(b)
    &&& -b.time_ms->0 + a.time_ms->0 <= cfg.max_gap_ms || (!(a.has_subsec && b.has_subsec)
        && -b.time_ms->0 + a.time_ms->0 <= 1000)
    &&& b.time_ms->0 - a.time_ms->0 <= cfg.max_gap_ms || (!(a.has_subsec && b.has_subsec)
        && b.time_ms->0 - a.time_ms->0 <= 1000)
    &&& match (a.seq, b.seq) {
        (None, None) => true,
        (Some(x), Some(y)) => x < y,
        _ => false,
    }
}

/// A stretch of a camera's frames, each the next one after the one before.
pub open spec fn is_stretch(frames: Seq<FrameMeta>, at: Seq<int>) -> bool {
    &&& at.len() >= 1
    &&& 0 <= at[0] < frames.len()
    &&& forall|k: int| 1 <= k < at.len() ==> next_of_the_camera(frames, at[k - 1], #[trigger] at[k])
}

proof fn lemma_next_is(frames: Seq<FrameMeta>, cfg: BurstConfig, i: int, j: int)
    requires
        next_of_the_camera(frames, i, j),
    ensures
        burst::previous_of(frames, frames[j], j) == Some(i),
        belong_together(cfg, frames[i], frames[j]) <==> burst::continues(
            cfg,
            frames[i],
            frames[j],
        ),
{
    assert forall|k: int| i < k < j implies !burst::same_body(#[trigger] frames[k], frames[j]) by {}
    burst::lemma_previous_is(frames, frames[j], j, i);
}

/// Frames that belong together are in one burst, or both in none.
pub proof fn lemma_frames_that_belong_together(
    frames: Seq<FrameMeta>,
    cfg: BurstConfig,
    i: int,
    j: int,
)
    requires
        next_of_the_camera(frames, i, j),
        belong_together(cfg, frames[i], frames[j]),
    ensures
        burst::groups_of(frames, cfg)[i] == burst::groups_of(frames, cfg)[j],
{
    lemma_next_is(frames, cfg, i, j);
}

proof fn lemma_break_stays(frames: Seq<FrameMeta>, cfg: BurstConfig, j: int, x: int)
    requires
        0 <= j <= x < frames.len(),
        burst::same_body(frames[j], frames[x]),
        burst::run_start(frames, cfg, j) == j,
    ensures
        burst::run_start(frames, cfg, x) >= j,
    decreases x,
{
    if j < x {
        burst::lemma_previous(frames, frames[x], x);
        match burst::previous_of(frames, frames[x], x) {
            Some(p) => {
                if p < j {
                    assert(!burst::same_body(frames[j], frames[x]));
                }
                lemma_break_stays(frames, cfg, j, p);
            },
            None => {
                assert(!burst::same_body(frames[j], frames[x]));
            },
        }
    }
}

/// Two frames of a camera, one after the other, that do not belong together
/// separate what came before from what comes after: nothing of the camera up
/// to the first is in a burst with anything of it from the second on.
pub proof fn lemma_a_break_separates(
    frames: Seq<FrameMeta>,
    cfg: BurstConfig,
    i: int,
    j: int,
    before: int,
    after: int,
)
    requires
        frames.len() <= usize::MAX,
        next_of_the_camera(frames, i, j),
        !belong_together(cfg, frames[i], frames[j]),
        0 <= before <= i,
        j <= after < frames.len(),
        text::opt_text(frames[before].camera) == text::opt_text(frames[i].camera),
        text::opt_text(frames[after].camera) == text::opt_text(frames[i].camera),
        burst::groups_of(frames, cfg)[before] is Some,
    ensures
        burst::groups_of(frames, cfg)[before] != burst::groups_of(frames, cfg)[after],
{
    lemma_next_is(frames, cfg, i, j);
    assert(burst::run_start(frames, cfg, j) == j);
    lemma_break_stays(frames, cfg, j, after);
    burst::lemma_run_start(frames, cfg, before);
    burst::lemma_run_start(frames, cfg, after);
    burst::lemma_group_names_run(frames, cfg, burst::run_start(frames, cfg, before), after);
}

/// A gap of more than the configured length between two frames of a camera,
/// one after the other and both with SubSec, separates bursts.
pub proof fn lemma_a_long_gap_separates(frames: Seq<FrameMeta>, cfg: BurstConfig, i: int, j: int)
    requires
        frames.len() <= usize::MAX,
        next_of_the_camera(frames, i, j),
        frames[i].time_ms is Some && frames[j].time_ms is Some,
        frames[i].has_subsec && frames[j].has_subsec,
        frames[j].time_ms->0 - frames[i].time_ms->0 > cfg.max_gap_ms || frames[i].time_ms->0
            - frames[j].time_ms->0 > cfg.max_gap_ms,
        burst::groups_of(frames, cfg)[i] is Some,
    ensures
        burst::groups_of(frames, cfg)[i] != burst::groups_of(frames, cfg)[j],
{
    lemma_a_break_separates(frames, cfg, i, j, i, j);
}

proof fn lemma_length_grows(frames: Seq<FrameMeta>, cfg: BurstConfig, s: int, a: int, b: int)
    requires
        a <= b,
    ensures
        burst::run_length(frames, cfg, s, a) <= burst::run_length(frames, cfg, s, b),
    decreases b - a,
{
    if a < b {
        lemma_length_grows(frames, cfg, s, a, b - 1);
    }
}

proof fn lemma_stretch_is_one_run(frames: Seq<FrameMeta>, cfg: BurstConfig, at: Seq<int>, k: int)
    requires
        is_stretch(frames, at),
        0 <= k < at.len(),
        forall|k: int|
            1 <= k < at.len() ==> belong_together(cfg, frames[at[k - 1]], frames[#[trigger] at[k]]),
    ensures
        0 <= at[k] < frames.len(),
        burst::run_start(frames, cfg, at[k]) == burst::run_start(frames, cfg, at[0]),
        burst::run_length(frames, cfg, burst::run_start(frames, cfg, at[0]), at[k] + 1) >= k + 1,
    decreases k,
{
    let s = burst::run_start(frames, cfg, at[0]);
    if k > 0 {
        lemma_stretch_is_one_run(frames, cfg, at, k - 1);
        assert(next_of_the_camera(frames, at[k - 1], at[k]));
        assert(belong_together(cfg, frames[at[k - 1]], frames[at[k]]));
        lemma_next_is(frames, cfg, at[k - 1], at[k]);
        lemma_length_grows(frames, cfg, s, at[k - 1] + 1, at[k]);
    }
}

proof fn lemma_run_is_of_one_kind(frames: Seq<FrameMeta>, cfg: BurstConfig, i: int)
    requires
        0 <= i < frames.len(),
        burst::joinable(frames[i]),
    ensures
        burst::joinable(frames[burst::run_start(frames, cfg, i)]),
        burst::in_sequence(frames[burst::run_start(frames, cfg, i)]) == burst::in_sequence(
            frames[i],
        ),
    decreases i,
{
    burst::lemma_previous(frames, frames[i], i);
    match burst::previous_of(frames, frames[i], i) {
        Some(p) => {
            if burst::continues(cfg, frames[p], frames[i]) {
                lemma_run_is_of_one_kind(frames, cfg, p);
            }
        },
        None => {},
    }
}

/// A stretch of a camera's frames that belong together is one burst: with
/// sequence numbers from two frames on, without them from the configured
/// number on.
pub proof fn lemma_a_stretch_is_a_burst(
    frames: Seq<FrameMeta>,
    cfg: BurstConfig,
    at: Seq<int>,
    k: int,
)
    requires
        frames.len() <= usize::MAX,
        is_stretch(frames, at),
        may_join(frames[at[0]]),
        forall|k: int|
            1 <= k < at.len() ==> belong_together(cfg, frames[at[k - 1]], frames[#[trigger] at[k]]),
        at.len() >= if frames[at[0]].seq is Some {
            2
        } else {
            cfg.min_run as int
        },
        0 <= k < at.len(),
    ensures
        burst::groups_of(frames, cfg)[at[k]] is Some,
        burst::groups_of(frames, cfg)[at[k]] == burst::groups_of(frames, cfg)[at[0]],
{
    let last = at.len() - 1;
    lemma_stretch_is_one_run(frames, cfg, at, k);
    lemma_stretch_is_one_run(frames, cfg, at, last);
    lemma_run_is_of_one_kind(frames, cfg, at[0]);
    let s = burst::run_start(frames, cfg, at[0]);
    burst::lemma_run_start(frames, cfg, at[0]);
    lemma_length_grows(frames, cfg, s, at[last] + 1, frames.len() as int);
    assert(burst::qualifies(frames, cfg, s));
}

/// A run of at least `min_run` frames of one camera, all of them with SubSec
/// and without sequence numbers, with no gap longer than `max_gap_ms`, is one
/// burst.
pub proof fn lemma_a_fast_run_is_a_burst(
    frames: Seq<FrameMeta>,
    cfg: BurstConfig,
    at: Seq<int>,
    k: int,
)
    requires
        frames.len() <= usize::MAX,
        is_stretch(frames, at),
        forall|k: int|
            0 <= k < at.len() ==> {
                let f = frames[#[trigger] at[k]];
                f.time_ms is Some && f.has_subsec && f.seq is None
            },
        forall|k: int|
            1 <= k < at.len() ==> {
                let gap = frames[#[trigger] at[k]].time_ms->0 - frames[at[k - 1]].time_ms->0;
                -cfg.max_gap_ms <= gap <= cfg.max_gap_ms
            },
        at.len() >= cfg.min_run,
        0 <= k < at.len(),
    ensures
        burst::groups_of(frames, cfg)[at[k]] is Some,
        burst::groups_of(frames, cfg)[at[k]] == burst::groups_of(frames, cfg)[at[0]],
{
    assert forall|k: int| 1 <= k < at.len() implies belong_together(
        cfg,
        frames[at[k - 1]],
        frames[#[trigger] at[k]],
    ) by {
        let (a, b) = (frames[at[k - 1]], frames[at[k]]);
        assert(a.time_ms is Some && a.has_subsec && a.seq is None);
        assert(b.time_ms is Some && b.has_subsec && b.seq is None);
    }
    assert(frames[at[0]].seq is None);
    lemma_a_stretch_is_a_burst(frames, cfg, at, k);
}

/// A burst has at least two frames with sequence numbers, and at least the
/// configured number of them without; all its frames have a time, none is a
/// declared single, all come from one camera, and all or none have a number.
pub proof fn lemma_what_a_burst_is(frames: Seq<FrameMeta>, cfg: BurstConfig, i: int, j: int)
    requires
        frames.len() <= usize::MAX,
        0 <= i < frames.len(),
        0 <= j < frames.len(),
        burst::groups_of(frames, cfg)[i] is Some,
        burst::groups_of(frames, cfg)[i] == burst::groups_of(frames, cfg)[j],
    ensures
        order::tally(
            frames.len() as int,
            |k: int| burst::groups_of(frames, cfg)[k] == burst::groups_of(frames, cfg)[i],
        ) >= if frames[i].seq is Some {
            2
        } else {
            cfg.min_run as int
        },
        may_join(frames[i]) && may_join(frames[j]),
        text::opt_text(frames[i].camera) == text::opt_text(frames[j].camera),
        frames[i].seq is Some <==> frames[j].seq is Some,
{
    let g = burst::groups_of(frames, cfg);
    let s = burst::run_start(frames, cfg, i);
    if !burst::joinable(frames[i]) {
        burst::lemma_singles_never_group(frames, cfg, i);
    }
    if !burst::joinable(frames[j]) {
        burst::lemma_singles_never_group(frames, cfg, j);
    }
    burst::lemma_groups_never_mix_bodies(frames, cfg, i, j);
    burst::lemma_run_start(frames, cfg, i);
    burst::lemma_group_names_run(frames, cfg, s, j);
    lemma_run_is_of_one_kind(frames, cfg, i);
    lemma_run_is_of_one_kind(frames, cfg, j);
    lemma_members_are_counted(frames, cfg, i, frames.len() as int);
}

proof fn lemma_members_are_counted(frames: Seq<FrameMeta>, cfg: BurstConfig, i: int, upto: int)
    requires
        frames.len() <= usize::MAX,
        0 <= i < frames.len(),
        0 <= upto <= frames.len(),
        burst::groups_of(frames, cfg)[i] is Some,
    ensures
        order::tally(
            upto,
            |k: int| burst::groups_of(frames, cfg)[k] == burst::groups_of(frames, cfg)[i],
        ) == burst::run_length(frames, cfg, burst::run_start(frames, cfg, i), upto),
    decreases upto,
{
    if upto > 0 {
        lemma_members_are_counted(frames, cfg, i, upto - 1);
        burst::lemma_run_start(frames, cfg, i);
        burst::lemma_group_names_run(frames, cfg, burst::run_start(frames, cfg, i), upto - 1);
    }
}

/// Bursts are numbered by their first frames, without a gap: where a number
/// comes up first, every lower number has come up before, and no higher one.
pub proof fn lemma_bursts_are_numbered_as_they_begin(
    frames: Seq<FrameMeta>,
    cfg: BurstConfig,
    i: int,
    h: usize,
)
    requires
        frames.len() <= usize::MAX,
        0 <= i < frames.len(),
        burst::groups_of(frames, cfg)[i] is Some,
        forall|k: int|
            0 <= k < i ==> #[trigger] burst::groups_of(frames, cfg)[k] != burst::groups_of(
                frames,
                cfg,
            )[i],
    ensures
        h < burst::groups_of(frames, cfg)[i]->0 <==> exists|k: int|
            0 <= k < i && #[trigger] burst::groups_of(frames, cfg)[k] == Some(h),
{
    let groups = burst::groups_of(frames, cfg);
    let s = burst::run_start(frames, cfg, i);
    let g = groups[i]->0;
    burst::lemma_run_start(frames, cfg, i);
    burst::lemma_group_names_run(frames, cfg, s, s);
    burst::lemma_bursts_bound(frames, cfg, s);
    assert(groups[s] == groups[i]);
    assert(s == i);
    if h < g {
        lemma_number_comes_up(frames, cfg, s, h as int);
    }
    if exists|k: int| 0 <= k < i && #[trigger] groups[k] == Some(h) {
        let k = choose|k: int| 0 <= k < i && #[trigger] groups[k] == Some(h);
        burst::lemma_run_start(frames, cfg, k);
        burst::lemma_groups_are_numbered_in_order(frames, cfg, k, i);
    }
}

proof fn lemma_number_comes_up(frames: Seq<FrameMeta>, cfg: BurstConfig, s: int, h: int)
    requires
        frames.len() <= usize::MAX,
        0 <= s <= frames.len(),
        0 <= h < burst::bursts_before(frames, cfg, s),
    ensures
        exists|k: int|
            0 <= k < s && #[trigger] burst::groups_of(frames, cfg)[k] == Some(h as usize),
    decreases s,
{
    if s > 0 {
        burst::lemma_bursts_bound(frames, cfg, s);
        if h < burst::bursts_before(frames, cfg, s - 1) {
            lemma_number_comes_up(frames, cfg, s - 1, h);
            let k = choose|k: int|
                0 <= k < s - 1 && #[trigger] burst::groups_of(frames, cfg)[k] == Some(h as usize);
            assert(burst::groups_of(frames, cfg)[k] == Some(h as usize));
        } else {
            assert(burst::groups_of(frames, cfg)[s - 1] == Some(h as usize));
        }
    }
}

/// Where every burst's size is the length of its run, it is the number of
/// frames that name the burst.
pub proof fn lemma_sizes_are_member_counts(
    frames: Seq<FrameMeta>,
    cfg: BurstConfig,
    size: Seq<usize>,
    g: usize,
)
    requires
        frames.len() <= usize::MAX,
        size.len() == burst::bursts_before(frames, cfg, frames.len() as int),
        forall|s: int|
            0 <= s < frames.len() && #[trigger] burst::qualifies(frames, cfg, s) ==> size[
                burst::bursts_before(frames, cfg, s) as int
            ] == burst::run_length(frames, cfg, s, frames.len() as int),
        g < size.len(),
    ensures
        size[g as int] == order::tally(
            frames.len() as int,
            |i: int| burst::groups_of(frames, cfg)[i] == Some(g),
        ),
{
    let n = frames.len() as int;
    let groups = burst::groups_of(frames, cfg);
    lemma_number_comes_up(frames, cfg, n, g as int);
    let k = choose|k: int| 0 <= k < n && #[trigger] groups[k] == Some(g as usize);
    let s = burst::run_start(frames, cfg, k);
    burst::lemma_run_start(frames, cfg, k);
    burst::lemma_bursts_bound(frames, cfg, s);
    assert(burst::qualifies(frames, cfg, s));
    lemma_members_are_counted(frames, cfg, k, n);
    order::lemma_tally_same(
        n,
        |i: int| groups[i] == groups[k],
        |i: int| groups[i] == Some(g),
    );
}

// ----------------------------------------------------------------- the keys
proof fn lemma_head_is_kept(head: Seq<char>, tail: Seq<char>)
    requires
        head.contains(' '),
        !head.contains('.'),
    ensures
        ({
            let key = head + seq!['.'] + tail;
            let sp = text::find(head, ' ');
            let time = head.skip(sp + 1);
            &&& 0 <= sp < head.len()
            &&& text::find(key, ' ') == sp
            &&& key.take(sp) == head.take(sp)
            &&& text::find(time, '.') == time.len()
            &&& text::find(key.skip(sp + 1), '.') == time.len()
            &&& key.skip(sp + 1).take(time.len() as int) == time
            &&& key.skip(sp + 1).skip((time.len() + 1) as int) == tail
            &&& key.skip(sp + 1).len() == time.len() + 1 + tail.len()
        }),
{
    let key = head + seq!['.'] + tail;
    text::lemma_find(head, ' ');
    let at = choose|i: int| 0 <= i < head.len() && head[i] == ' ';
    let sp = text::find(head, ' ');
    assert(sp < head.len()) by {
        if sp >= head.len() {
            assert(head[at] != ' ');
        }
    }
    assert forall|i: int| 0 <= i < sp implies #[trigger] key[i] != ' ' by {
        assert(head[i] != ' ');
    }
    text::lemma_find_is(key, ' ', sp);
    let time = head.skip(sp + 1);
    let rest = key.skip(sp + 1);
    assert forall|i: int| 0 <= i < time.len() implies #[trigger] time[i] != '.' by {
        assert(head.contains(head[i + sp + 1]));
    }
    assert forall|i: int| 0 <= i < time.len() implies #[trigger] rest[i] != '.' by {
        assert(rest[i] == time[i]);
    }
    text::lemma_find_is(rest, '.', time.len() as int);
    text::lemma_find(time, '.');
    if text::find(time, '.') < time.len() {
        assert(time[text::find(time, '.')] == '.');
    }
    assert(key.take(sp) =~= head.take(sp));
    assert(rest.take(time.len() as int) =~= time);
    assert(rest.skip((time.len() + 1) as int) =~= tail);
}

/// The digits behind the dot are a fraction of the second: a key without them
/// says no less than one with zeros, and a zero more at the end of a short
/// fraction changes nothing.
pub proof fn lemma_fractions_of_a_second(head: Seq<char>, tail: Seq<char>)
    requires
        head.contains(' '),
        !head.contains('.'),
        tail.len() < 3,
    ensures
        burst::reading_of(head) == burst::reading_of(head + seq!['.'] + seq!['0', '0', '0']),
        burst::reading_of(head + seq!['.'] + tail) == burst::reading_of(
            head + seq!['.'] + tail.push('0'),
        ),
{
    let sp = text::find(head, ' ');
    let time = head.skip(sp + 1);
    lemma_head_is_kept(head, tail);
    lemma_head_is_kept(head, tail.push('0'));
    lemma_head_is_kept(head, seq!['0', '0', '0']);
    assert(burst::padded_millis(seq!['0']) =~= seq!['0', '0', '0']);
    assert(burst::padded_millis(tail) =~= burst::padded_millis(tail.push('0')));
    assert(time.take(time.len() as int) =~= time);
}

// --------------------------------------------------------------- the jumps
/// A jump forward goes to the next frame that is in no burst, or in another
/// one; where there is none, to the last frame.
pub proof fn lemma_a_jump_forward(
    g: spec_fn(int) -> Option<usize>,
    pos: int,
    len: int,
    r: int,
    j: int,
)
    requires
        0 <= pos < len,
        burst::is_boundary(g, pos, len, true, r),
    ensures
        pos <= r < len,
        pos < j < len && (g(j) is None || g(j) != g(pos)) ==> pos < r <= j && (g(r) is None || g(r)
            != g(pos)),
        (forall|k: int| pos < k < len ==> #[trigger] g(k) == g(pos)) && g(pos) is Some ==> r == len
            - 1,
{
    if pos < j < len && (g(j) is None || g(j) != g(pos)) {
        assert(burst::foreign(g(j), g(pos)));
        if r > j {
            assert(!burst::foreign(g(j), g(pos)));
        }
    }
    if (forall|k: int| pos < k < len ==> #[trigger] g(k) == g(pos)) && g(pos) is Some {
        if pos < r < len {
            assert(g(r) == g(pos));
        }
    }
}

/// A jump back goes to the first frame of the burst under the cursor. From
/// there, and from a frame in no burst, it goes to what stands directly before:
/// to the first frame of that burst, or to that frame alone. It always lands on
/// a burst's first frame, and stays at the very first.
pub proof fn lemma_a_jump_back(
    g: spec_fn(int) -> Option<usize>,
    pos: int,
    len: int,
    r: int,
    p: int,
)
    requires
        0 <= pos < len,
        burst::is_boundary(g, pos, len, false, r),
    ensures
        0 <= r <= pos,
        pos > 0 ==> r < pos,
        0 <= p < r && g(r) is Some ==> g(p) != g(r),
        0 <= p < pos && g(p) == g(pos) && g(pos) is Some ==> g(r) == g(pos),
        pos > 0 && (g(pos) is None || forall|k: int| 0 <= k < pos ==> #[trigger] g(k) != g(pos))
            ==> {
            &&& g(r) == g(pos - 1)
            &&& g(pos - 1) is None ==> r == pos - 1
        },
{
    let here = g(pos);
    if here is Some && exists|q: int| 0 <= q < pos && #[trigger] g(q) == here {
        let q = choose|q: int| 0 <= q < pos && #[trigger] g(q) == here;
        assert(g(q) == g(pos));
    } else if pos > 0 {
        assert(burst::foreign(g(pos - 1), here)) by {
            assert(here is Some ==> g(pos - 1) != here);
        }
        let j = choose|j: int|
            #![trigger g(j)]
            {
                &&& 0 <= j < pos
                &&& burst::foreign(g(j), here)
                &&& forall|k: int| j < k < pos ==> !burst::foreign(#[trigger] g(k), here)
                &&& if g(j) is Some {
                    0 <= r <= j && g(r) == g(j) && forall|q: int|
                        0 <= q < r ==> #[trigger] g(q) != g(j)
                } else {
                    r == j
                }
            };
        assert(j == pos - 1) by {
            if j < pos - 1 {
                assert(!burst::foreign(g(pos - 1), here));
            }
        }
    }
}

proof fn lemma_members_are_tallied(group: Seq<Option<usize>>, g: usize, upto: int)
    requires
        0 <= upto <= group.len(),
    ensures
        burst::members_before(group, g, upto) == order::tally(upto, |j: int| group[j] == Some(g)),
    decreases upto,
{
    if upto > 0 {
        lemma_members_are_tallied(group, g, upto - 1);
    }
}

/// The number of a frame in its burst: how many of the burst there are up to
/// it, itself among them. A frame in no burst has none.
pub proof fn lemma_numbers_in_a_burst(r: burst::Grouping, i: int)
    requires
        0 <= i < r.group@.len() <= usize::MAX,
    ensures
        r.position(i) is Some <==> r.group@[i] is Some,
        r.group@[i] is Some ==> {
            let g = r.group@[i]->0;
            &&& (r.position(i)->0).0 == order::tally(i + 1, |j: int| r.group@[j] == Some(g))
            &&& (r.position(i)->0).1 == r.size@[g as int]
        },
{
    if r.group@[i] is Some {
        let g = r.group@[i]->0;
        lemma_members_are_tallied(r.group@, g, i + 1);
        burst::lemma_members_bound(r.group@, g, i + 1);
    }
}

} // verus!
