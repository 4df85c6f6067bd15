//! How the container's tables are read, whoever wrote them, and what its
//! numbers and its display matrix mean.
use crate::clip::qt;
use crate::clip::qt::{Fault, ParsedView, Sample};
use crate::clip::qt_laws;
use crate::orient;
use vstd::prelude::*;

verus! {

// ---------------------------------------------------------------- numbers
/// Numbers are written with their highest byte first.
pub proof fn lemma_numbers_big_end_first(a: u16, b: u32, c: u64)
    ensures
        ({
            let s = qt::be16_bytes(a);
            s.len() == 2 && 0x100 * s[0] + s[1] == a
        }),
        ({
            let s = qt::be32_bytes(b);
            s.len() == 4 && 0x100_0000 * s[0] + 0x1_0000 * s[1] + 0x100 * s[2] + s[3] == b
        }),
        ({
            let s = qt::be64_bytes(c);
            &&& s.len() == 8
            &&& 0x100_0000 * s[0] + 0x1_0000 * s[1] + 0x100 * s[2] + s[3] == c as int
                / 0x1_0000_0000
            &&& 0x100_0000 * s[4] + 0x1_0000 * s[5] + 0x100 * s[6] + s[7] == c as int
                % 0x1_0000_0000
        }),
{
}

/// A negative number is written as its two's complement, and read back.
pub proof fn lemma_signed_numbers(v: i32)
    ensures
        qt::signed(qt::twos(v)) == v,
        v < 0 ==> qt::twos(v) == v + 0x1_0000_0000,
        v >= 0 ==> qt::twos(v) == v,
{
}

/// What does not fit a field is held to the largest number it can say.
pub proof fn lemma_fields_hold(v: int)
    requires
        0 <= v,
    ensures
        v <= 0xffff_ffff ==> qt::sat32(v) == v,
        v > 0xffff_ffff ==> qt::sat32(v) == 0xffff_ffff,
        v <= 0xffff ==> qt::sat16(v) == v,
        v > 0xffff ==> qt::sat16(v) == 0xffff,
{
}

/// The display matrix turns the stored picture as its orientation asks: it
/// takes the way between two stored pixels to the way between the places
/// where they are displayed. It neither moves nor scales the picture, and
/// what is no rotation is shown as it is stored.
pub proof fn lemma_matrix_turns_the_picture(
    o: u16,
    w: int,
    h: int,
    x: int,
    y: int,
    dx: int,
    dy: int,
)
    requires
        o == 1 || o == 3 || o == 6 || o == 8,
    ensures
        ({
            let m = qt::matrix_of(o);
            let from = orient::stored_at(x, y, w, h, o);
            let to = orient::stored_at(x + dx, y + dy, w, h, o);
            let (sx, sy) = (to.0 - from.0, to.1 - from.1);
            &&& m.len() == 9
            &&& m[0] * sx + m[3] * sy == 0x1_0000 * dx
            &&& m[1] * sx + m[4] * sy == 0x1_0000 * dy
            &&& m[2] == 0 && m[5] == 0 && m[6] == 0 && m[7] == 0
            &&& m[8] == 0x4000_0000
        }),
        forall|p: u16|
            p != 3 && p != 6 && p != 8 ==> #[trigger] qt::matrix_of(p) == qt::matrix_of(1),
{
    let m = qt::matrix_of(o);
    let from = orient::stored_at(x, y, w, h, o);
    let to = orient::stored_at(x + dx, y + dy, w, h, o);
    let (sx, sy) = (to.0 - from.0, to.1 - from.1);
    if o == 1 {
        assert(sx == dx && sy == dy);
    } else if o == 3 {
        assert(sx == -dx && sy == -dy);
    } else if o == 6 {
        assert(sx == dy && sy == -dx);
    } else {
        assert(sx == -dy && sy == dx);
    }
}

// ----------------------------------------------------------------- tables
/// A table of `n` rows of `each` bytes stands behind `header` bytes, of which
/// the last four say `n`.
pub open spec fn is_table(body: Seq<u8>, header: int, each: int, n: u32) -> bool {
    &&& 8 <= header
    &&& 0 < each
    &&& body.len() >= header + each * n
    &&& body.subrange(header - 4, header) == qt::be32_bytes(n)
}

proof fn lemma_table_has_room(body: Seq<u8>, header: int, each: int, n: u32)
    requires
        is_table(body, header, each, n),
    ensures
        body.len() >= header,
        qt::be32_at(body, header - 4) == n,
        qt::has_room(body, header, each, n as int),
{
    assert(each * n >= 0) by (nonlinear_arith)
        requires
            each > 0,
            n >= 0,
    ;
    qt_laws::lemma_word(body, header - 4, n);
    let room = if body.len() > header {
        body.len() - header
    } else {
        0
    };
    assert(n <= room / each) by (nonlinear_arith)
        requires
            room >= each * n,
            each > 0,
            n >= 0,
    ;
}

/// The sample-to-chunk table: of each row the first chunk and the samples per
/// chunk; the third number of a row is passed over.
pub proof fn lemma_chunk_rows_are_read(
    body: Seq<u8>,
    n: u32,
    out: ParsedView,
    i: int,
    first: u32,
    per_chunk: u32,
)
    requires
        is_table(body, 8, 12, n),
        0 <= i < n,
        body.subrange(8 + 12 * i, 12 + 12 * i) == qt::be32_bytes(first),
        body.subrange(12 + 12 * i, 16 + 12 * i) == qt::be32_bytes(per_chunk),
    ensures
        qt::stsc_read(body, out).1 is None,
        qt::stsc_read(body, out).0.stsc.len() == n,
        qt::stsc_read(body, out).0.stsc[i] == (first, per_chunk),
        qt::stsc_read(body, out).0 == (ParsedView {
            stsc: qt::stsc_read(body, out).0.stsc,
            ..out
        }),
{
    lemma_table_has_room(body, 8, 12, n);
    qt_laws::lemma_word(body, 8 + 12 * i, first);
    qt_laws::lemma_word(body, 12 + 12 * i, per_chunk);
}

/// The duration table: how many rows it has, and the duration of the first,
/// which is the second number of its row.
pub proof fn lemma_durations_are_read(
    body: Seq<u8>,
    n: u32,
    out: ParsedView,
    duration: u32,
)
    requires
        is_table(body, 8, 8, n),
        n > 0 ==> body.subrange(12, 16) == qt::be32_bytes(duration),
    ensures
        qt::stts_read(body, out).1 is None,
        qt::stts_read(body, out).0 == (ParsedView {
            stts_entries: n as int,
            sample_delta: if n > 0 {
                Some(duration)
            } else {
                out.sample_delta
            },
            ..out
        }),
{
    lemma_table_has_room(body, 8, 8, n);
    if n > 0 {
        qt_laws::lemma_word(body, 12, duration);
    }
}

/// The size table: a size for each sample, unless one size is given for all.
pub proof fn lemma_sizes_are_read(
    body: Seq<u8>,
    n: u32,
    out: ParsedView,
    i: int,
    all: u32,
    one: u32,
)
    requires
        body.len() >= 12,
        body.subrange(4, 8) == qt::be32_bytes(all),
        body.subrange(8, 12) == qt::be32_bytes(n),
        all == 0 ==> is_table(body, 12, 4, n) && body.subrange(12 + 4 * i, 16 + 4 * i)
            == qt::be32_bytes(one),
        all != 0 ==> n <= 0x100_0000,
        0 <= i < n,
    ensures
        ({
            let (p, fault) = qt::stsz_read(body, out);
            &&& fault is None
            &&& p.sizes.len() == n
            &&& p.sizes[i] == if all != 0 {
                all
            } else {
                one
            }
            &&& p == (ParsedView { sizes: p.sizes, ..out })
        }),
{
    qt_laws::lemma_word(body, 4, all);
    qt_laws::lemma_word(body, 8, n);
    if all == 0 {
        lemma_table_has_room(body, 12, 4, n);
        qt_laws::lemma_word(body, 12 + 4 * i, one);
    }
}

/// The offset tables: 32 bits each in one form, 64 in the other.
pub proof fn lemma_offsets_are_read(
    body: Seq<u8>,
    n: u32,
    out: ParsedView,
    i: int,
    short: u32,
    long: u64,
)
    requires
        0 <= i < n,
    ensures
        is_table(body, 8, 4, n) && body.subrange(8 + 4 * i, 12 + 4 * i) == qt::be32_bytes(short)
            ==> {
            let (p, fault) = qt::offsets_read(body, out, 4);
            &&& fault is None
            &&& p.offsets.len() == n
            &&& p.offsets[i] == short
            &&& p == (ParsedView { offsets: p.offsets, co64: false, ..out })
        },
        is_table(body, 8, 8, n) && body.subrange(8 + 8 * i, 16 + 8 * i) == qt::be64_bytes(long)
            ==> {
            let (p, fault) = qt::offsets_read(body, out, 8);
            &&& fault is None
            &&& p.offsets.len() == n
            &&& p.offsets[i] == long
            &&& p == (ParsedView { offsets: p.offsets, co64: true, ..out })
        },
{
    if is_table(body, 8, 4, n) && body.subrange(8 + 4 * i, 12 + 4 * i) == qt::be32_bytes(short) {
        lemma_table_has_room(body, 8, 4, n);
        qt_laws::lemma_word(body, 8 + 4 * i, short);
    }
    if is_table(body, 8, 8, n) && body.subrange(8 + 8 * i, 16 + 8 * i) == qt::be64_bytes(long) {
        lemma_table_has_room(body, 8, 8, n);
        qt_laws::lemma_long(body, 8 + 8 * i, long);
    }
}

/// A table that claims more rows than it holds is refused, and nothing is
/// read of it.
pub proof fn lemma_overclaims_are_refused(body: Seq<u8>, n: u32, out: ParsedView)
    requires
        body.len() >= 12,
    ensures
        body.subrange(4, 8) == qt::be32_bytes(n) && 8 + 12 * n > body.len() ==> {
            &&& qt::stsc_read(body, out).0 == out
            &&& qt::stsc_read(body, out).1 is Some
        },
        body.subrange(4, 8) == qt::be32_bytes(n) && 8 + 8 * n > body.len() ==> {
            &&& qt::stts_read(body, out).0 == out
            &&& qt::stts_read(body, out).1 is Some
            &&& qt::offsets_read(body, out, 8).0 == out
            &&& qt::offsets_read(body, out, 8).1 is Some
        },
        body.subrange(4, 8) == qt::be32_bytes(n) && 8 + 4 * n > body.len() ==> {
            &&& qt::offsets_read(body, out, 4).0 == out
            &&& qt::offsets_read(body, out, 4).1 is Some
        },
        body.subrange(4, 8) == qt::be32_bytes(0) && body.subrange(8, 12) == qt::be32_bytes(n) && 12
            + 4 * n > body.len() ==> {
            &&& qt::stsz_read(body, out).0 == out
            &&& qt::stsz_read(body, out).1 is Some
        },
{
    if body.subrange(4, 8) == qt::be32_bytes(n) {
        qt_laws::lemma_word(body, 4, n);
    }
    if body.subrange(4, 8) == qt::be32_bytes(0) {
        qt_laws::lemma_word(body, 4, 0);
    }
    if body.subrange(8, 12) == qt::be32_bytes(n) {
        qt_laws::lemma_word(body, 8, n);
    }
}

// ---------------------------------------------------------------- samples
/// The row of the chunk table that holds for a chunk: the table is read
/// forwards, as long as the next row has begun.
pub proof fn lemma_row_in_force(stsc: Seq<(u32, u32)>, chunk: int, row: int)
    requires
        0 <= row < stsc.len(),
    ensures
        ({
            let r = qt::row_for(stsc, chunk, row);
            &&& row <= r < stsc.len()
            &&& forall|k: int| row < k <= r ==> (#[trigger] stsc[k]).0 <= chunk
            &&& r + 1 < stsc.len() ==> stsc[r + 1].0 > chunk
        }),
    decreases stsc.len() - row,
{
    if row + 1 < stsc.len() && stsc[row + 1].0 <= chunk {
        lemma_row_in_force(stsc, chunk, row + 1);
    }
}

/// The samples of a chunk: as many as it claims, of the sizes that are next in
/// the size table, one behind the other from the chunk's offset.
pub proof fn lemma_samples_of_a_chunk(sizes: Seq<u64>, next: int, at: int, count: int)
    requires
        0 <= next,
        0 <= at,
        0 <= count,
        qt::chunk_samples(sizes, next, at, count) is Ok,
    ensures
        ({
            let s = qt::chunk_samples(sizes, next, at, count)->Ok_0;
            &&& s.len() == count
            &&& count > 0 ==> next + count <= sizes.len()
            &&& count > 0 ==> s[0].offset == at
            &&& forall|k: int| 0 <= k < count ==> (#[trigger] s[k]).size == sizes[next + k]
            &&& forall|k: int|
                1 <= k < count ==> (#[trigger] s[k]).offset == s[k - 1].offset + s[k - 1].size
        }),
    decreases count,
{
    if count > 0 {
        lemma_samples_of_a_chunk(sizes, next + 1, at + sizes[next], count - 1);
        let rest = qt::chunk_samples(sizes, next + 1, at + sizes[next], count - 1)->Ok_0;
        let s = qt::chunk_samples(sizes, next, at, count)->Ok_0;
        assert forall|k: int| 0 <= k < count implies (#[trigger] s[k]).size == sizes[next + k] by {
            if k > 0 {
                assert(s[k] == rest[k - 1]);
            }
        }
        assert forall|k: int| 1 <= k < count implies (#[trigger] s[k]).offset == s[k - 1].offset
            + s[k - 1].size by {
            assert(s[k] == rest[k - 1]);
            if k > 1 {
                assert(s[k - 1] == rest[k - 2]);
            }
        }
    }
}

/// How many samples the first `chunk` chunks hold, by the table.
pub open spec fn samples_before(p: ParsedView, chunk: int) -> int
    decreases chunk,
{
    if chunk <= 0 {
        0
    } else {
        samples_before(p, chunk - 1) + p.stsc[qt::row_for(p.stsc, chunk, 0)].1
    }
}

/// A movie's samples: their sizes are those of the size table in its order,
/// each chunk's first sample stands at the chunk's offset, and within a chunk
/// each stands where the one before it ends.
pub proof fn lemma_samples_of_a_movie(p: ParsedView, chunk: int, k: int)
    requires
        qt::samples_of(p) is Ok,
        0 <= chunk < p.offsets.len(),
        0 <= k < p.stsc[qt::row_for(p.stsc, chunk + 1, 0)].1,
    ensures
        ({
            let s = qt::samples_of(p)->Ok_0;
            let i = samples_before(p, chunk) + k;
            &&& p.stsc[qt::row_for(p.stsc, chunk + 1, 0)].0 <= chunk + 1
            &&& s.len() == samples_before(p, p.offsets.len() as int)
            &&& s.len() <= p.sizes.len()
            &&& 0 <= i < s.len()
            &&& s[i].size == p.sizes[i]
            &&& k == 0 ==> s[i].offset == p.offsets[chunk]
            &&& k > 0 ==> s[i].offset == s[i - 1].offset + s[i - 1].size
        }),
{
    lemma_samples_from_chunk(p, 0, 0, chunk, k);
}

proof fn lemma_before_grows(p: ParsedView, a: int, b: int)
    requires
        0 <= a <= b,
    ensures
        0 <= samples_before(p, a) <= samples_before(p, b),
    decreases b, b - a,
{
    if a < b {
        lemma_before_grows(p, a, b - 1);
    } else if a > 0 {
        lemma_before_grows(p, a - 1, a - 1);
    }
}

proof fn lemma_samples_from_chunk(p: ParsedView, from: int, next: int, chunk: int, k: int)
    requires
        0 <= from <= chunk < p.offsets.len(),
        next == samples_before(p, from),
        qt::samples_from(p, from, next) is Ok,
        0 <= k < p.stsc[qt::row_for(p.stsc, chunk + 1, 0)].1,
    ensures
        ({
            let s = qt::samples_from(p, from, next)->Ok_0;
            let i = samples_before(p, chunk) + k - next;
            &&& p.stsc[qt::row_for(p.stsc, chunk + 1, 0)].0 <= chunk + 1
            &&& s.len() == samples_before(p, p.offsets.len() as int) - next
            &&& next + s.len() <= p.sizes.len()
            &&& 0 <= i < s.len()
            &&& s[i].size == p.sizes[next + i]
            &&& k == 0 ==> s[i].offset == p.offsets[chunk]
            &&& k > 0 ==> s[i].offset == s[i - 1].offset + s[i - 1].size
        }),
    decreases p.offsets.len() - from,
{
    let row = p.stsc[qt::row_for(p.stsc, from + 1, 0)];
    lemma_before_grows(p, 0, from);
    let here = qt::chunk_samples(p.sizes, next, p.offsets[from] as int, row.1 as int);
    let rest = qt::samples_from(p, from + 1, next + row.1);
    let s = qt::samples_from(p, from, next)->Ok_0;
    assert(here is Ok && rest is Ok);
    assert(samples_before(p, from + 1) == next + row.1);
    lemma_samples_of_a_chunk(p.sizes, next, p.offsets[from] as int, row.1 as int);
    assert(s == here->Ok_0 + rest->Ok_0);
    lemma_len_from(p, from + 1, next + row.1);
    if from < chunk {
        lemma_samples_from_chunk(p, from + 1, next + row.1, chunk, k);
        lemma_before_grows(p, from + 1, chunk);
    } else {
        lemma_before_grows(p, from + 1, p.offsets.len() as int);
    }
}

proof fn lemma_len_from(p: ParsedView, from: int, next: int)
    requires
        0 <= from <= p.offsets.len(),
        next == samples_before(p, from),
        qt::samples_from(p, from, next) is Ok,
    ensures
        ({
            let s = qt::samples_from(p, from, next)->Ok_0;
            &&& s.len() == samples_before(p, p.offsets.len() as int) - next
            &&& s.len() > 0 ==> next + s.len() <= p.sizes.len()
        }),
    decreases p.offsets.len() - from,
{
    lemma_before_grows(p, 0, from);
    if from < p.offsets.len() {
        let row = p.stsc[qt::row_for(p.stsc, from + 1, 0)];
        assert(samples_before(p, from + 1) == next + row.1);
        lemma_samples_of_a_chunk(p.sizes, next, p.offsets[from] as int, row.1 as int);
        lemma_len_from(p, from + 1, next + row.1);
    }
}

/// A chunk that claims more samples than the size table has left is refused.
pub proof fn lemma_too_many_samples_are_refused(sizes: Seq<u64>, next: int, at: int, count: int)
    requires
        0 <= next <= sizes.len(),
        0 <= at,
        next + count > sizes.len(),
    ensures
        qt::chunk_samples(sizes, next, at, count) is Err,
    decreases count,
{
    if next < sizes.len() {
        lemma_too_many_samples_are_refused(sizes, next + 1, at + sizes[next], count - 1);
    }
}

// ------------------------------------------------------------------ atoms
/// A track header of the second version has its matrix and size 12 bytes
/// later, and a media header its timescale 8 bytes later, than the first.
pub proof fn lemma_header_versions(body: Seq<u8>, out: ParsedView, v: u32, i: int)
    requires
        body.len() >= 96,
        0 <= i < 9,
    ensures
        body[0] == 1 && body.subrange(20, 24) == qt::be32_bytes(v) ==> qt::mdhd_read(body, out) == (
            ParsedView { timescale: Some(v), ..out },
            None::<Fault>,
        ),
        body[0] != 1 && body.subrange(12, 16) == qt::be32_bytes(v) ==> qt::mdhd_read(body, out) == (
            ParsedView { timescale: Some(v), ..out },
            None::<Fault>,
        ),
        body[0] == 1 && body.subrange(52 + 4 * i, 56 + 4 * i) == qt::be32_bytes(v)
            ==> qt::tkhd_read(body, out).0.matrix[i] == qt::signed(v),
        body[0] != 1 && body.subrange(40 + 4 * i, 44 + 4 * i) == qt::be32_bytes(v)
            ==> qt::tkhd_read(body, out).0.matrix[i] == qt::signed(v),
        body[0] == 1 && body.subrange(88, 92) == qt::be32_bytes(v) ==> qt::tkhd_read(
            body,
            out,
        ).0.width == v as int / 0x1_0000,
        body[0] == 1 && body.subrange(92, 96) == qt::be32_bytes(v) ==> qt::tkhd_read(
            body,
            out,
        ).0.height == v as int / 0x1_0000,
        body[0] != 1 && body.subrange(76, 80) == qt::be32_bytes(v) ==> qt::tkhd_read(
            body,
            out,
        ).0.width == v as int / 0x1_0000,
        body[0] != 1 && body.subrange(80, 84) == qt::be32_bytes(v) ==> qt::tkhd_read(
            body,
            out,
        ).0.height == v as int / 0x1_0000,
        qt::tkhd_read(body, out).1 is None,
{
    if body[0] == 1 {
        if body.subrange(20, 24) == qt::be32_bytes(v) {
            qt_laws::lemma_word(body, 20, v);
        }
        if body.subrange(52 + 4 * i, 56 + 4 * i) == qt::be32_bytes(v) {
            qt_laws::lemma_word(body, 52 + 4 * i, v);
        }
        if body.subrange(88, 92) == qt::be32_bytes(v) {
            qt_laws::lemma_word(body, 88, v);
        }
        if body.subrange(92, 96) == qt::be32_bytes(v) {
            qt_laws::lemma_word(body, 92, v);
        }
    } else {
        if body.subrange(12, 16) == qt::be32_bytes(v) {
            qt_laws::lemma_word(body, 12, v);
        }
        if body.subrange(40 + 4 * i, 44 + 4 * i) == qt::be32_bytes(v) {
            qt_laws::lemma_word(body, 40 + 4 * i, v);
        }
        if body.subrange(76, 80) == qt::be32_bytes(v) {
            qt_laws::lemma_word(body, 76, v);
        }
        if body.subrange(80, 84) == qt::be32_bytes(v) {
            qt_laws::lemma_word(body, 80, v);
        }
    }
}

/// An atom of a kind that is not known is passed over.
pub proof fn lemma_unknown_atoms_are_passed_over(
    buf: Seq<u8>,
    out: ParsedView,
    depth: nat,
    size: u32,
    kind: u32,
)
    requires
        depth <= qt::MAX_DEPTH,
        8 <= size <= buf.len(),
        buf.subrange(0, 4) == qt::be32_bytes(size),
        buf.subrange(4, 8) == qt::be32_bytes(kind),
        kind != qt::TAG_TRAK && kind != qt::TAG_MDIA && kind != qt::TAG_MINF,
        kind != qt::TAG_STBL && kind != qt::TAG_DINF && kind != qt::TAG_EDTS,
        kind != qt::TAG_TKHD && kind != qt::TAG_MDHD && kind != qt::TAG_STSD,
        kind != qt::TAG_STTS && kind != qt::TAG_STSC && kind != qt::TAG_STSZ,
        kind != qt::TAG_STCO && kind != qt::TAG_CO64,
    ensures
        qt::walked(buf, out, depth) == qt::walked(buf.skip(size as int), out, depth),
{
    qt_laws::lemma_word(buf, 0, size);
    qt_laws::lemma_word(buf, 4, kind);
}

/// An atom that claims to be smaller than its own header, or larger than what
/// holds it, is refused.
pub proof fn lemma_bad_sizes_are_refused(buf: Seq<u8>, out: ParsedView, depth: nat, size: u32)
    requires
        buf.len() >= 8,
        buf.subrange(0, 4) == qt::be32_bytes(size),
        size < 8 || size > buf.len(),
    ensures
        qt::walked(buf, out, depth).1 is Some,
        qt::walked(buf, out, depth).0 == out,
{
    qt_laws::lemma_word(buf, 0, size);
}

// ----------------------------------------------------------------- fields
/// A four-character code as the number of its four bytes.
pub open spec fn code(a: char, b: char, c: char, d: char) -> int {
    0x100_0000 * (a as int) + 0x1_0000 * (b as int) + 0x100 * (c as int) + (d as int)
}

/// Every kind of atom has the code that the format gives it.
pub proof fn lemma_codes()
    ensures
        code('f', 't', 'y', 'p') == qt::TAG_FTYP,
        code('q', 't', ' ', ' ') == qt::TAG_QT,
        code('m', 'o', 'o', 'v') == qt::TAG_MOOV,
        code('m', 'd', 'a', 't') == qt::TAG_MDAT,
        code('m', 'v', 'h', 'd') == qt::TAG_MVHD,
        code('t', 'r', 'a', 'k') == qt::TAG_TRAK,
        code('t', 'k', 'h', 'd') == qt::TAG_TKHD,
        code('m', 'd', 'i', 'a') == qt::TAG_MDIA,
        code('m', 'd', 'h', 'd') == qt::TAG_MDHD,
        code('h', 'd', 'l', 'r') == qt::TAG_HDLR,
        code('m', 'h', 'l', 'r') == qt::TAG_MHLR,
        code('v', 'i', 'd', 'e') == qt::TAG_VIDE,
        code('d', 'h', 'l', 'r') == qt::TAG_DHLR,
        code('u', 'r', 'l', ' ') == qt::TAG_URL,
        code('m', 'i', 'n', 'f') == qt::TAG_MINF,
        code('v', 'm', 'h', 'd') == qt::TAG_VMHD,
        code('d', 'i', 'n', 'f') == qt::TAG_DINF,
        code('d', 'r', 'e', 'f') == qt::TAG_DREF,
        code('e', 'd', 't', 's') == qt::TAG_EDTS,
        code('s', 't', 'b', 'l') == qt::TAG_STBL,
        code('s', 't', 's', 'd') == qt::TAG_STSD,
        code('j', 'p', 'e', 'g') == qt::TAG_JPEG,
        code('s', 't', 't', 's') == qt::TAG_STTS,
        code('s', 't', 's', 'c') == qt::TAG_STSC,
        code('s', 't', 's', 'z') == qt::TAG_STSZ,
        code('s', 't', 'c', 'o') == qt::TAG_STCO,
        code('c', 'o', '6', '4') == qt::TAG_CO64,
{
}

/// How long a track plays: all its frames, each as long as the others, or the
/// longest time that the field can say.
pub proof fn lemma_how_long_a_track_plays(spec: qt::TrackSpec)
    ensures
        spec.sample_sizes@.len() * spec.sample_ms <= u32::MAX ==> spec.duration()
            == spec.sample_sizes@.len() * spec.sample_ms,
        spec.sample_sizes@.len() * spec.sample_ms > u32::MAX ==> spec.duration() == u32::MAX,
{
    assert(spec.sample_sizes@.len() * spec.sample_ms >= 0) by (nonlinear_arith);
}

/// The movie header counts milliseconds, plays at the normal rate and at full
/// volume, is not turned, and leaves 2 as the number of the next track.
pub proof fn lemma_movie_header(duration: u32, i: int)
    requires
        0 <= i < 9,
    ensures
        ({
            let body = qt::mvhd_body(duration);
            &&& body.len() == 100
            &&& qt::be32_at(body, 0) == 0
            &&& qt::be32_at(body, 12) == 1000
            &&& qt::be32_at(body, 16) == duration
            &&& qt::be32_at(body, 20) == 0x1_0000
            &&& qt::be16_at(body, 24) == 0x100
            &&& qt::signed(qt::be32_at(body, 36 + 4 * i)) == if i == 8 {
                0x4000_0000
            } else if i % 4 == 0 {
                0x1_0000int
            } else {
                0
            }
            &&& qt::be32_at(body, 96) == 2
        }),
{
    let body = qt::mvhd_body(duration);
    let m = qt::matrix_of(1);
    qt_laws::lemma_matrix_rows(m);
    assert(body.subrange(0, 4) =~= qt::be32_bytes(0));
    assert(body.subrange(12, 16) =~= qt::be32_bytes(1000));
    assert(body.subrange(16, 20) =~= qt::be32_bytes(duration));
    assert(body.subrange(20, 24) =~= qt::be32_bytes(0x1_0000));
    assert(body.subrange(24, 26) =~= qt::be16_bytes(0x100));
    assert(body.subrange(96, 100) =~= qt::be32_bytes(2));
    assert(body.subrange(36, 72) =~= qt::matrix_bytes(m));
    assert(qt::be32_at(body, 36 + 4 * i) == qt::be32_at(body.subrange(36, 72), 4 * i));
    qt_laws::lemma_word(body, 0, 0);
    qt_laws::lemma_word(body, 12, 1000);
    qt_laws::lemma_word(body, 16, duration);
    qt_laws::lemma_word(body, 20, 0x1_0000);
    qt_laws::lemma_short(body, 24, 0x100);
    qt_laws::lemma_word(body, 96, 2);
}

/// The track is enabled and part of the movie, is number 1, plays as long as
/// the movie, and its size is in whole pixels; the media counts milliseconds
/// and says no language.
pub proof fn lemma_track_header(duration: u32, o: u16, width: u32, height: u32)
    ensures
        ({
            let body = qt::tkhd_body(duration, o, width, height);
            &&& body.len() == 84
            &&& qt::be32_at(body, 0) == 3
            &&& qt::be32_at(body, 12) == 1
            &&& qt::be32_at(body, 20) == duration
            &&& width <= 0xffff ==> qt::be32_at(body, 76) == 0x1_0000 * width
            &&& height <= 0xffff ==> qt::be32_at(body, 80) == 0x1_0000 * height
        }),
        ({
            let body = qt::mdhd_body(duration);
            &&& body.len() == 24
            &&& qt::be32_at(body, 12) == 1000
            &&& qt::be32_at(body, 16) == duration
            &&& qt::be16_at(body, 20) == 0x7fff
        }),
{
    let body = qt::tkhd_body(duration, o, width, height);
    qt_laws::lemma_matrix_rows(qt::matrix_of(o));
    let w = (qt::sat16(width as int) * 0x1_0000) as u32;
    let h = (qt::sat16(height as int) * 0x1_0000) as u32;
    assert(body.subrange(0, 4) =~= qt::be32_bytes(3));
    assert(body.subrange(12, 16) =~= qt::be32_bytes(1));
    assert(body.subrange(20, 24) =~= qt::be32_bytes(duration));
    assert(body.subrange(76, 80) =~= qt::be32_bytes(w));
    assert(body.subrange(80, 84) =~= qt::be32_bytes(h));
    qt_laws::lemma_word(body, 0, 3);
    qt_laws::lemma_word(body, 12, 1);
    qt_laws::lemma_word(body, 20, duration);
    qt_laws::lemma_word(body, 76, w);
    qt_laws::lemma_word(body, 80, h);
    let media = qt::mdhd_body(duration);
    assert(media.subrange(12, 16) =~= qt::be32_bytes(1000));
    assert(media.subrange(16, 20) =~= qt::be32_bytes(duration));
    assert(media.subrange(20, 22) =~= qt::be16_bytes(0x7fff));
    qt_laws::lemma_word(media, 12, 1000);
    qt_laws::lemma_word(media, 16, duration);
    qt_laws::lemma_short(media, 20, 0x7fff);
}

/// The sample description: JPEG frames of the track's size, at 72 dots per
/// inch and best quality, one frame to a sample, 24 bits deep, without a
/// colour table, found in the file itself.
pub proof fn lemma_sample_description(width: u32, height: u32)
    requires
        width <= 0xffff,
        height <= 0xffff,
    ensures
        ({
            let body = qt::jpeg_body(width, height);
            &&& body.len() == 78
            &&& qt::be16_at(body, 6) == 1
            &&& qt::be32_at(body, 16) == 512
            &&& qt::be32_at(body, 20) == 512
            &&& qt::be16_at(body, 24) == width
            &&& qt::be16_at(body, 26) == height
            &&& qt::be32_at(body, 28) == 72 * 0x1_0000
            &&& qt::be32_at(body, 32) == 72 * 0x1_0000
            &&& qt::be16_at(body, 40) == 1
            &&& qt::be16_at(body, 74) == 24
            &&& qt::be16_at(body, 76) == 0xffff
        }),
        ({
            let body = qt::dref_body();
            &&& body.len() == 20
            &&& qt::be32_at(body, 4) == 1
            &&& qt::be32_at(body, 8) == 12
            &&& qt::be32_at(body, 12) == code('u', 'r', 'l', ' ')
            &&& qt::be32_at(body, 16) == 1
        }),
{
    let body = qt::jpeg_body(width, height);
    assert(body.subrange(6, 8) =~= qt::be16_bytes(1));
    assert(body.subrange(16, 20) =~= qt::be32_bytes(512));
    assert(body.subrange(20, 24) =~= qt::be32_bytes(512));
    assert(body.subrange(24, 26) =~= qt::be16_bytes(width as u16));
    assert(body.subrange(26, 28) =~= qt::be16_bytes(height as u16));
    assert(body.subrange(28, 32) =~= qt::be32_bytes(0x48_0000));
    assert(body.subrange(32, 36) =~= qt::be32_bytes(0x48_0000));
    assert(body.subrange(40, 42) =~= qt::be16_bytes(1));
    assert(body.subrange(74, 76) =~= qt::be16_bytes(24));
    assert(body.subrange(76, 78) =~= qt::be16_bytes(0xffff));
    qt_laws::lemma_short(body, 6, 1);
    qt_laws::lemma_word(body, 16, 512);
    qt_laws::lemma_word(body, 20, 512);
    qt_laws::lemma_short(body, 24, width as u16);
    qt_laws::lemma_short(body, 26, height as u16);
    qt_laws::lemma_word(body, 28, 0x48_0000);
    qt_laws::lemma_word(body, 32, 0x48_0000);
    qt_laws::lemma_short(body, 40, 1);
    qt_laws::lemma_short(body, 74, 24);
    qt_laws::lemma_short(body, 76, 0xffff);
    let data = qt::dref_body();
    reveal(qt::atom_bytes);
    assert(data.subrange(4, 8) =~= qt::be32_bytes(1));
    assert(data.subrange(8, 12) =~= qt::be32_bytes(12));
    assert(data.subrange(12, 16) =~= qt::be32_bytes(qt::TAG_URL));
    assert(data.subrange(16, 20) =~= qt::be32_bytes(1));
    qt_laws::lemma_word(data, 4, 1);
    qt_laws::lemma_word(data, 8, 12);
    qt_laws::lemma_word(data, 12, qt::TAG_URL);
    qt_laws::lemma_word(data, 16, 1);
}

/// A handler names its class and its kind, and itself as a counted string.
pub proof fn lemma_handlers(class: u32, kind: u32, name: Seq<char>)
    requires
        vstd::utf8::is_ascii_chars(name),
        name.len() < 256,
    ensures
        ({
            let body = qt::hdlr_body(class, kind, name);
            &&& body.len() == 25 + name.len()
            &&& qt::be32_at(body, 4) == class
            &&& qt::be32_at(body, 8) == kind
            &&& body[24] == name.len()
            &&& forall|i: int| 0 <= i < name.len() ==> #[trigger] body[25 + i] == name[i] as u8
        }),
{
    let body = qt::hdlr_body(class, kind, name);
    vstd::utf8::is_ascii_chars_encode_utf8(name);
    assert(body.subrange(4, 8) =~= qt::be32_bytes(class));
    assert(body.subrange(8, 12) =~= qt::be32_bytes(kind));
    qt_laws::lemma_word(body, 4, class);
    qt_laws::lemma_word(body, 8, kind);
}

/// One duration for all frames, and one chunk for each.
pub proof fn lemma_time_and_chunk_tables(samples: int, sample_ms: u32)
    requires
        0 <= samples <= u32::MAX,
    ensures
        ({
            let body = qt::stts_body(samples, sample_ms);
            &&& body.len() == 16
            &&& qt::be32_at(body, 4) == 1
            &&& qt::be32_at(body, 8) == samples
            &&& qt::be32_at(body, 12) == sample_ms
        }),
        ({
            let body = qt::stsc_body();
            &&& body.len() == 20
            &&& qt::be32_at(body, 4) == 1
            &&& qt::be32_at(body, 8) == 1
            &&& qt::be32_at(body, 12) == 1
            &&& qt::be32_at(body, 16) == 1
        }),
{
    let body = qt::stts_body(samples, sample_ms);
    assert(body.subrange(4, 8) =~= qt::be32_bytes(1));
    assert(body.subrange(8, 12) =~= qt::be32_bytes(samples as u32));
    assert(body.subrange(12, 16) =~= qt::be32_bytes(sample_ms));
    qt_laws::lemma_word(body, 4, 1);
    qt_laws::lemma_word(body, 8, samples as u32);
    qt_laws::lemma_word(body, 12, sample_ms);
    let chunks = qt::stsc_body();
    assert(chunks.subrange(4, 8) =~= qt::be32_bytes(1));
    assert(chunks.subrange(8, 12) =~= qt::be32_bytes(1));
    assert(chunks.subrange(12, 16) =~= qt::be32_bytes(1));
    assert(chunks.subrange(16, 20) =~= qt::be32_bytes(1));
    qt_laws::lemma_word(chunks, 4, 1);
    qt_laws::lemma_word(chunks, 8, 1);
    qt_laws::lemma_word(chunks, 12, 1);
    qt_laws::lemma_word(chunks, 16, 1);
}

/// An atom says its own size, header and all, and its kind, and holds its
/// body. The one with the samples does too, in 64 bits where 32 are too few.
pub proof fn lemma_atoms_say_their_size(kind: u32, body: Seq<u8>, payload: int)
    requires
        body.len() + 8 <= u32::MAX,
        0 <= payload,
        payload + 16 <= u64::MAX,
    ensures
        ({
            let atom = qt::atom_bytes(kind, body);
            &&& atom.len() == body.len() + 8
            &&& qt::be32_at(atom, 0) == atom.len()
            &&& qt::be32_at(atom, 4) == kind
            &&& atom.skip(8) == body
        }),
        ({
            let head = qt::mdat_head(payload);
            &&& qt::be32_at(head, 4) == code('m', 'd', 'a', 't')
            &&& payload + 8 <= u32::MAX ==> head.len() == 8 && qt::be32_at(head, 0) == payload
                + head.len()
            &&& payload + 8 > u32::MAX ==> head.len() == 16 && qt::be32_at(head, 0) == 1
                && qt::be64_at(head, 8) == payload + head.len()
        }),
{
    reveal(qt::atom_bytes);
    let atom = qt::atom_bytes(kind, body);
    assert(atom.subrange(0, 4) =~= qt::be32_bytes((body.len() + 8) as u32));
    assert(atom.subrange(4, 8) =~= qt::be32_bytes(kind));
    assert(atom.skip(8) =~= body);
    qt_laws::lemma_word(atom, 0, (body.len() + 8) as u32);
    qt_laws::lemma_word(atom, 4, kind);
    let head = qt::mdat_head(payload);
    assert(head.subrange(4, 8) =~= qt::be32_bytes(qt::TAG_MDAT));
    qt_laws::lemma_word(head, 4, qt::TAG_MDAT);
    if payload + 8 <= u32::MAX {
        assert(head.subrange(0, 4) =~= qt::be32_bytes((payload + 8) as u32));
        qt_laws::lemma_word(head, 0, (payload + 8) as u32);
    } else {
        assert(head.subrange(0, 4) =~= qt::be32_bytes(1));
        qt_laws::lemma_word(head, 0, 1);
        assert(head.subrange(8, 16) =~= qt::be64_bytes((payload + 16) as u64));
        qt_laws::lemma_long(head, 8, (payload + 16) as u64);
    }
}

// ------------------------------------------------------------- top level
/// A movie can be read only where its index was found, says its timescale, a
/// duration and a sample format, and holds together; and the index comes first
/// exactly where it stands before the samples.
pub proof fn lemma_what_a_movie_must_have(top: qt::TopView)
    ensures
        qt::movie_from(top) is Ok ==> {
            let p = qt::walked(top.moov->0, qt::blank(), 0).0;
            let m = qt::movie_from(top)->Ok_0;
            &&& top.moov is Some
            &&& qt::walked(top.moov->0, qt::blank(), 0).1 is None
            &&& p.timescale == Some(m.timescale)
            &&& p.sample_delta == Some(m.sample_ms)
            &&& p.format == Some(m.format)
            &&& qt::samples_of(p) == Ok::<Seq<Sample>, Fault>(m.samples)
            &&& m.moov_before_mdat <==> {
                &&& top.moov_at is Some
                &&& top.mdat_at is Some
                &&& top.moov_at->0 < top.mdat_at->0
            }
        },
        top.moov is None ==> qt::movie_from(top) is Err,
{
}

/// An atom of the top level that is not known is passed over, by its size, by
/// its long size where that is given, and to the end where it says so.
pub proof fn lemma_other_top_atoms_are_passed_over(
    file: Seq<u8>,
    at: int,
    top: qt::TopView,
    size: u32,
    long: u64,
    kind: u32,
)
    requires
        0 <= at,
        at + 16 <= file.len(),
        file.subrange(at, at + 4) == qt::be32_bytes(size),
        file.subrange(at + 4, at + 8) == qt::be32_bytes(kind),
        file.subrange(at + 8, at + 16) == qt::be64_bytes(long),
        kind != qt::TAG_FTYP && kind != qt::TAG_MOOV && kind != qt::TAG_MDAT,
    ensures
        8 <= size && at + size <= file.len() ==> qt::scanned(file, at, top) == qt::scanned(
            file,
            at + size,
            top,
        ),
        size == 1 && 16 <= long && at + long <= file.len() ==> qt::scanned(file, at, top)
            == qt::scanned(file, at + long, top),
        size == 0 ==> qt::scanned(file, at, top) == Ok::<qt::TopView, Fault>(top),
        1 < size < 8 || at + size > file.len() ==> qt::scanned(file, at, top) is Err,
        size == 1 && (long < 16 || at + long > file.len()) ==> qt::scanned(file, at, top) is Err,
{
    qt_laws::lemma_word(file, at, size);
    qt_laws::lemma_word(file, at + 4, kind);
    qt_laws::lemma_long(file, at + 8, long);
    if size == 0 {
        let rest = file.len() - at;
        assert(qt::scanned(file, at, top) == qt::entered(file, at, top, kind, rest, 8));
        assert(qt::entered(file, at, top, kind, rest, 8) == qt::scanned(file, at + rest, top));
        assert(qt::scanned(file, at + rest, top) == Ok::<qt::TopView, Fault>(top));
    } else if size == 1 {
        assert(qt::scanned(file, at, top) == qt::entered(file, at, top, kind, long as int, 16));
    } else {
        assert(qt::scanned(file, at, top) == qt::entered(file, at, top, kind, size as int, 8));
    }
}

/// The index and the samples are noted where they stand, the last of each; the
/// index is its atom without the header.
pub proof fn lemma_known_top_atoms_are_noted(
    file: Seq<u8>,
    at: int,
    top: qt::TopView,
    size: u32,
    kind: u32,
)
    requires
        0 <= at,
        8 <= size <= 0x100_0000,
        at + size <= file.len(),
        file.subrange(at, at + 4) == qt::be32_bytes(size),
        file.subrange(at + 4, at + 8) == qt::be32_bytes(kind),
    ensures
        kind == qt::TAG_MDAT ==> qt::scanned(file, at, top) == qt::scanned(
            file,
            at + size,
            qt::TopView { mdat_at: Some(at), ..top },
        ),
        kind == qt::TAG_MOOV ==> qt::scanned(file, at, top) == qt::scanned(
            file,
            at + size,
            qt::TopView {
                moov: Some(file.subrange(at + 8, at + size)),
                moov_at: Some(at),
                ..top
            },
        ),
        kind == qt::TAG_FTYP && size >= 12 ==> qt::scanned(file, at, top) == qt::scanned(
            file,
            at + size,
            qt::TopView { major_brand: file.subrange(at + 8, at + 12), ..top },
        ),
{
    qt_laws::lemma_word(file, at, size);
    qt_laws::lemma_word(file, at + 4, kind);
    assert(qt::scanned(file, at, top) == qt::entered(file, at, top, kind, size as int, 8));
}

} // verus!
