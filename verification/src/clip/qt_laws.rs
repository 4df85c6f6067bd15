//! What the container's writer and reader promise each other: the header has
//! the quoted size, and a written movie reads back as the track it was
//! written from.
use crate::clip::qt;
use vstd::prelude::*;

verus! {

// ------------------------------------------------------- numbers and rows
/// A word that was written reads back.
pub(crate) proof fn lemma_word(s: Seq<u8>, at: int, v: u32)
    requires
        0 <= at,
        at + 4 <= s.len(),
        s.subrange(at, at + 4) == qt::be32_bytes(v),
    ensures
        qt::be32_at(s, at) == v,
{
    let w = s.subrange(at, at + 4);
    assert(w[0] == s[at] && w[1] == s[at + 1] && w[2] == s[at + 2] && w[3] == s[at + 3]);
}

pub(crate) proof fn lemma_short(s: Seq<u8>, at: int, v: u16)
    requires
        0 <= at,
        at + 2 <= s.len(),
        s.subrange(at, at + 2) == qt::be16_bytes(v),
    ensures
        qt::be16_at(s, at) == v,
{
    let w = s.subrange(at, at + 2);
    assert(w[0] == s[at] && w[1] == s[at + 1]);
}

pub(crate) proof fn lemma_long(s: Seq<u8>, at: int, v: u64)
    requires
        0 <= at,
        at + 8 <= s.len(),
        s.subrange(at, at + 8) == qt::be64_bytes(v),
    ensures
        qt::be64_at(s, at) == v,
{
    let w = s.subrange(at, at + 8);
    let high = (v / 0x1_0000_0000) as u32;
    let low = (v % 0x1_0000_0000) as u32;
    assert(s.subrange(at, at + 4) =~= w.subrange(0, 4));
    assert(s.subrange(at + 4, at + 4 + 4) =~= w.subrange(4, 8));
    assert(w.subrange(0, 4) =~= qt::be32_bytes(high));
    assert(w.subrange(4, 8) =~= qt::be32_bytes(low));
    lemma_word(s, at, high);
    lemma_word(s, at + 4, low);
}

pub(crate) proof fn lemma_matrix_rows(m: Seq<i32>)
    ensures
        qt::matrix_bytes(m).len() == 4 * m.len(),
        forall|i: int|
            0 <= i < m.len() ==> qt::signed(
                #[trigger] qt::be32_at(qt::matrix_bytes(m), 4 * i),
            ) == m[i],
    decreases m.len(),
{
    if m.len() > 0 {
        let front = qt::matrix_bytes(m.drop_last());
        let all = qt::matrix_bytes(m);
        lemma_matrix_rows(m.drop_last());
        assert forall|i: int| 0 <= i < m.len() implies qt::signed(
            #[trigger] qt::be32_at(all, 4 * i),
        ) == m[i] by {
            if i < m.len() - 1 {
                assert(qt::be32_at(all, 4 * i) == qt::be32_at(front, 4 * i));
            } else {
                assert(all.subrange(4 * i, 4 * i + 4) =~= qt::be32_bytes(qt::twos(m[i])));
                lemma_word(all, 4 * i, qt::twos(m[i]));
            }
        }
    }
}

proof fn lemma_size_rows(sizes: Seq<u64>)
    ensures
        qt::size_rows(sizes).len() == 4 * sizes.len(),
        forall|i: int|
            0 <= i < sizes.len() ==> #[trigger] qt::be32_at(qt::size_rows(sizes), 4 * i)
                == qt::sat32(sizes[i] as int),
    decreases sizes.len(),
{
    if sizes.len() > 0 {
        let front = qt::size_rows(sizes.drop_last());
        let all = qt::size_rows(sizes);
        lemma_size_rows(sizes.drop_last());
        assert forall|i: int| 0 <= i < sizes.len() implies #[trigger] qt::be32_at(all, 4 * i)
            == qt::sat32(sizes[i] as int) by {
            if i < sizes.len() - 1 {
                assert(qt::be32_at(all, 4 * i) == qt::be32_at(front, 4 * i));
            } else {
                assert(all.subrange(4 * i, 4 * i + 4) =~= qt::be32_bytes(
                    qt::sat32(sizes[i] as int),
                ));
                lemma_word(all, 4 * i, qt::sat32(sizes[i] as int));
            }
        }
    }
}

proof fn lemma_offset_rows(offsets: Seq<u64>)
    ensures
        qt::offset_rows(offsets).len() == 8 * offsets.len(),
        forall|i: int|
            0 <= i < offsets.len() ==> #[trigger] qt::be64_at(qt::offset_rows(offsets), 8 * i)
                == offsets[i],
    decreases offsets.len(),
{
    if offsets.len() > 0 {
        let front = qt::offset_rows(offsets.drop_last());
        let all = qt::offset_rows(offsets);
        lemma_offset_rows(offsets.drop_last());
        assert forall|i: int| 0 <= i < offsets.len() implies #[trigger] qt::be64_at(all, 8 * i)
            == offsets[i] by {
            if i < offsets.len() - 1 {
                assert(qt::be64_at(all, 8 * i) == qt::be64_at(front, 8 * i));
            } else {
                assert(all.subrange(8 * i, 8 * i + 8) =~= qt::be64_bytes(offsets[i]));
                lemma_long(all, 8 * i, offsets[i]);
            }
        }
    }
}

// ------------------------------------------------------------- the leaves
proof fn lemma_tkhd(duration: u32, orientation: u16, width: u32, height: u32, out: qt::ParsedView)
    requires
        out.matrix.len() == 9,
    ensures
        qt::tkhd_body(duration, orientation, width, height).len() == 84,
        qt::tkhd_read(qt::tkhd_body(duration, orientation, width, height), out) == (
            qt::ParsedView {
                matrix: qt::matrix_of(orientation),
                width: qt::sat16(width as int) as u32,
                height: qt::sat16(height as int) as u32,
                ..out
            },
            None::<qt::Fault>,
        ),
{
    let body = qt::tkhd_body(duration, orientation, width, height);
    let m = qt::matrix_of(orientation);
    lemma_matrix_rows(m);
    assert(body[0] == 0);
    assert forall|i: int| 0 <= i < 9 implies qt::signed(
        #[trigger] qt::be32_at(body, 40 + 4 * i),
    ) == m[i] by {
        assert(body.subrange(40, 76) =~= qt::matrix_bytes(m));
        assert(qt::be32_at(body, 40 + 4 * i) == qt::be32_at(body.subrange(40, 76), 4 * i));
    }
    let w = (qt::sat16(width as int) * 0x1_0000) as u32;
    let h = (qt::sat16(height as int) * 0x1_0000) as u32;
    assert(body.subrange(76, 80) =~= qt::be32_bytes(w));
    assert(body.subrange(80, 84) =~= qt::be32_bytes(h));
    lemma_word(body, 76, w);
    lemma_word(body, 80, h);
    let read = qt::tkhd_read(body, out);
    assert(read.0.matrix =~= m);
}

proof fn lemma_mdhd(duration: u32, out: qt::ParsedView)
    ensures
        qt::mdhd_body(duration).len() == 24,
        qt::mdhd_read(qt::mdhd_body(duration), out) == (
            qt::ParsedView { timescale: Some(qt::TIMESCALE), ..out },
            None::<qt::Fault>,
        ),
{
    let body = qt::mdhd_body(duration);
    assert(body[0] == 0);
    assert(body.subrange(12, 16) =~= qt::be32_bytes(qt::TIMESCALE));
    lemma_word(body, 12, qt::TIMESCALE);
}

proof fn lemma_stsd(width: u32, height: u32, out: qt::ParsedView)
    ensures
        qt::stsd_body(width, height).len() == 94,
        qt::stsd_read(qt::stsd_body(width, height), out) == (
            qt::ParsedView {
                format: Some(qt::be32_bytes(qt::TAG_JPEG)),
                sample_width: qt::sat16(width as int) as u32,
                sample_height: qt::sat16(height as int) as u32,
                ..out
            },
            None::<qt::Fault>,
        ),
{
    let jpeg = qt::jpeg_body(width, height);
    let body = qt::stsd_body(width, height);
    reveal(qt::atom_bytes);
    assert(jpeg.len() == 78);
    assert(jpeg.subrange(24, 26) =~= qt::be16_bytes(qt::sat16(width as int)));
    assert(jpeg.subrange(26, 28) =~= qt::be16_bytes(qt::sat16(height as int)));
    assert(body.subrange(16, 94) =~= jpeg);
    assert(body.subrange(4, 8) =~= qt::be32_bytes(1));
    lemma_word(body, 4, 1);
    assert(body.subrange(12, 16) =~= qt::be32_bytes(qt::TAG_JPEG));
    assert(body.subrange(40, 42) =~= jpeg.subrange(24, 26));
    assert(body.subrange(42, 44) =~= jpeg.subrange(26, 28));
    lemma_short(body, 40, qt::sat16(width as int));
    lemma_short(body, 42, qt::sat16(height as int));
}

proof fn lemma_stts(samples: int, sample_ms: u32, out: qt::ParsedView)
    ensures
        qt::stts_body(samples, sample_ms).len() == 16,
        qt::stts_read(qt::stts_body(samples, sample_ms), out) == (
            qt::ParsedView { stts_entries: 1, sample_delta: Some(sample_ms), ..out },
            None::<qt::Fault>,
        ),
{
    let body = qt::stts_body(samples, sample_ms);
    assert(body.subrange(4, 8) =~= qt::be32_bytes(1));
    assert(body.subrange(12, 16) =~= qt::be32_bytes(sample_ms));
    lemma_word(body, 4, 1);
    lemma_word(body, 12, sample_ms);
    assert(qt::has_room(body, 8, 8, 1));
}

proof fn lemma_stsc(out: qt::ParsedView)
    ensures
        qt::stsc_body().len() == 20,
        qt::stsc_read(qt::stsc_body(), out) == (
            qt::ParsedView { stsc: seq![(1u32, 1u32)], ..out },
            None::<qt::Fault>,
        ),
{
    let body = qt::stsc_body();
    assert(body.subrange(4, 8) =~= qt::be32_bytes(1));
    assert(body.subrange(8, 12) =~= qt::be32_bytes(1));
    assert(body.subrange(12, 16) =~= qt::be32_bytes(1));
    lemma_word(body, 4, 1);
    lemma_word(body, 8, 1);
    lemma_word(body, 12, 1);
    assert(qt::has_room(body, 8, 12, 1));
    assert(qt::stsc_read(body, out).0.stsc =~= seq![(1u32, 1u32)]);
}

proof fn lemma_stsz(sizes: Seq<u64>, out: qt::ParsedView)
    requires
        sizes.len() <= u32::MAX,
        forall|i: int| 0 <= i < sizes.len() ==> sizes[i] <= u32::MAX,
    ensures
        qt::stsz_body(sizes).len() == 12 + 4 * sizes.len(),
        qt::stsz_read(qt::stsz_body(sizes), out) == (
            qt::ParsedView { sizes, ..out },
            None::<qt::Fault>,
        ),
{
    let body = qt::stsz_body(sizes);
    let rows = qt::size_rows(sizes);
    lemma_size_rows(sizes);
    assert(body.subrange(4, 8) =~= qt::be32_bytes(0));
    assert(body.subrange(8, 12) =~= qt::be32_bytes(sizes.len() as u32));
    assert(body.subrange(12, body.len() as int) =~= rows);
    lemma_word(body, 4, 0);
    lemma_word(body, 8, sizes.len() as u32);
    assert forall|i: int| 0 <= i < sizes.len() implies #[trigger] qt::be32_at(body, 12 + 4 * i)
        == sizes[i] by {
        assert(qt::be32_at(rows, 4 * i) == qt::be32_at(body, 12 + 4 * i));
    }
    assert(qt::has_room(body, 12, 4, sizes.len() as int));
    assert(qt::stsz_read(body, out).0.sizes =~= sizes);
}

proof fn lemma_co64(sizes: Seq<u64>, out: qt::ParsedView)
    requires
        sizes.len() <= u32::MAX,
    ensures
        qt::co64_body(sizes).len() == 8 + 8 * sizes.len(),
        qt::offsets_read(qt::co64_body(sizes), out, 8) == (
            qt::ParsedView { offsets: qt::offsets_of(sizes), co64: true, ..out },
            None::<qt::Fault>,
        ),
{
    let body = qt::co64_body(sizes);
    let offsets = qt::offsets_of(sizes);
    let rows = qt::offset_rows(offsets);
    lemma_offset_rows(offsets);
    assert(body.subrange(4, 8) =~= qt::be32_bytes(sizes.len() as u32));
    assert(body.subrange(8, body.len() as int) =~= rows);
    lemma_word(body, 4, sizes.len() as u32);
    assert forall|i: int| 0 <= i < sizes.len() implies #[trigger] qt::be64_at(body, 8 + 8 * i)
        == offsets[i] by {
        assert(qt::be64_at(rows, 8 * i) == qt::be64_at(body, 8 + 8 * i));
    }
    assert(qt::has_room(body, 8, 8, sizes.len() as int));
    assert(qt::offsets_read(body, out, 8).0.offsets =~= offsets);
}

// ------------------------------------------------------------ the nesting
proof fn lemma_atom_len(kind: u32, body: Seq<u8>)
    ensures
        qt::atom_bytes(kind, body).len() == 8 + body.len(),
{
    reveal(qt::atom_bytes);
}

/// Concatenation, regrouped from the left to the right.
proof fn lemma_regroup(a: Seq<u8>, b: Seq<u8>, c: Seq<u8>, d: Seq<u8>, e: Seq<u8>)
    ensures
        Seq::<u8>::empty() + a + b == a + (b + Seq::<u8>::empty()),
        Seq::<u8>::empty() + a + b + c == a + (b + (c + Seq::<u8>::empty())),
        Seq::<u8>::empty() + a + b + c + d == a + (b + (c + (d + Seq::<u8>::empty()))),
        Seq::<u8>::empty() + a + b + c + d + e == a + (b + (c + (d + (e + Seq::<u8>::empty())))),
{
    assert(Seq::<u8>::empty() + a + b =~= a + (b + Seq::<u8>::empty()));
    assert(Seq::<u8>::empty() + a + b + c =~= a + (b + (c + Seq::<u8>::empty())));
    assert(Seq::<u8>::empty() + a + b + c + d =~= a + (b + (c + (d + Seq::<u8>::empty()))));
    assert(Seq::<u8>::empty() + a + b + c + d + e =~= a + (b + (c + (d + (e
        + Seq::<u8>::empty())))));
}

/// An atom and what stands behind it: the atom is visited, then the walk
/// goes on with the rest.
proof fn lemma_walk_atom(kind: u32, body: Seq<u8>, rest: Seq<u8>, out: qt::ParsedView, depth: nat)
    requires
        body.len() + 8 <= u32::MAX,
        depth <= qt::MAX_DEPTH,
    ensures
        ({
            let visited = if qt::is_container(kind) {
                qt::walked(body, out, depth + 1)
            } else {
                qt::leaf_read(kind, body, out)
            };
            qt::walked(qt::atom_bytes(kind, body) + rest, out, depth) == if visited.1 is Some {
                visited
            } else {
                qt::walked(rest, visited.0, depth)
            }
        }),
{
    reveal(qt::atom_bytes);
    let buf = qt::atom_bytes(kind, body) + rest;
    let size = (body.len() + 8) as u32;
    assert(buf.subrange(0, 4) =~= qt::be32_bytes(size));
    assert(buf.subrange(4, 8) =~= qt::be32_bytes(kind));
    lemma_word(buf, 0, size);
    lemma_word(buf, 4, kind);
    assert(buf.subrange(8, size as int) =~= body);
    assert(buf.skip(size as int) =~= rest);
}

proof fn lemma_walk_end(out: qt::ParsedView, depth: nat)
    requires
        depth <= qt::MAX_DEPTH,
    ensures
        qt::walked(Seq::empty(), out, depth) == (out, None::<qt::Fault>),
{
}

proof fn lemma_handler_names()
    ensures
        qt::counted_bytes("VideoHandler"@).len() == 13,
        qt::counted_bytes("DataHandler"@).len() == 12,
{
    reveal_strlit("VideoHandler");
    reveal_strlit("DataHandler");
    assert(vstd::utf8::is_ascii_chars("VideoHandler"@));
    assert(vstd::utf8::is_ascii_chars("DataHandler"@));
    vstd::utf8::is_ascii_chars_encode_utf8("VideoHandler"@);
    vstd::utf8::is_ascii_chars_encode_utf8("DataHandler"@);
}

proof fn lemma_stbl(spec: qt::TrackSpec, out: qt::ParsedView)
    requires
        spec.sample_sizes@.len() * 12 + 627 <= u32::MAX,
        forall|i: int|
            0 <= i < spec.sample_sizes@.len() ==> spec.sample_sizes@[i] <= u32::MAX,
    ensures
        qt::walked(spec.stbl_body(), out, 4) == (
            qt::ParsedView {
                format: Some(qt::be32_bytes(qt::TAG_JPEG)),
                sample_width: qt::sat16(spec.width as int) as u32,
                sample_height: qt::sat16(spec.height as int) as u32,
                stts_entries: 1,
                sample_delta: Some(spec.sample_ms),
                stsc: seq![(1u32, 1u32)],
                sizes: spec.sample_sizes@,
                offsets: qt::offsets_of(spec.sample_sizes@),
                co64: true,
                ..out
            },
            None::<qt::Fault>,
        ),
{
    let sizes = spec.sample_sizes@;
    let n = sizes.len() as int;
    let b1 = qt::stsd_body(spec.width, spec.height);
    let b2 = qt::stts_body(n, spec.sample_ms);
    let b3 = qt::stsc_body();
    let b4 = qt::stsz_body(sizes);
    let b5 = qt::co64_body(sizes);
    let a5 = qt::atom_bytes(qt::TAG_CO64, b5);
    let a4 = qt::atom_bytes(qt::TAG_STSZ, b4);
    let a3 = qt::atom_bytes(qt::TAG_STSC, b3);
    let a2 = qt::atom_bytes(qt::TAG_STTS, b2);
    let a1 = qt::atom_bytes(qt::TAG_STSD, b1);
    lemma_stsd(spec.width, spec.height, out);
    let o1 = qt::stsd_read(b1, out).0;
    lemma_stts(n, spec.sample_ms, o1);
    let o2 = qt::stts_read(b2, o1).0;
    lemma_stsc(o2);
    let o3 = qt::stsc_read(b3, o2).0;
    lemma_stsz(sizes, o3);
    let o4 = qt::stsz_read(b4, o3).0;
    lemma_co64(sizes, o4);
    let o5 = qt::offsets_read(b5, o4, 8).0;
    let end = Seq::<u8>::empty();
    let r4 = a5 + end;
    let r3 = a4 + r4;
    let r2 = a3 + r3;
    let r1 = a2 + r2;
    lemma_regroup(a1, a2, a3, a4, a5);
    lemma_walk_atom(qt::TAG_STSD, b1, r1, out, 4);
    lemma_walk_atom(qt::TAG_STTS, b2, r2, o1, 4);
    lemma_walk_atom(qt::TAG_STSC, b3, r3, o2, 4);
    lemma_walk_atom(qt::TAG_STSZ, b4, r4, o3, 4);
    lemma_walk_atom(qt::TAG_CO64, b5, end, o4, 4);
    lemma_walk_end(o5, 4);
}

proof fn lemma_dinf(out: qt::ParsedView)
    ensures
        ({
            let body = Seq::<u8>::empty() + qt::atom_bytes(qt::TAG_DREF, qt::dref_body());
            &&& body.len() == 28
            &&& qt::walked(body, out, 4) == (out, None::<qt::Fault>)
        }),
{
    let body = Seq::<u8>::empty() + qt::atom_bytes(qt::TAG_DREF, qt::dref_body());
    let end = Seq::<u8>::empty();
    assert(body =~= qt::atom_bytes(qt::TAG_DREF, qt::dref_body()) + end);
    lemma_atom_len(qt::TAG_DREF, qt::dref_body());
    lemma_atom_len(qt::TAG_URL, Seq::<u8>::empty() + qt::be32_bytes(1));
    lemma_walk_atom(qt::TAG_DREF, qt::dref_body(), end, out, 4);
    lemma_walk_end(out, 4);
}

/// The sizes of the container bodies.
proof fn lemma_body_sizes(spec: qt::TrackSpec)
    ensures
        spec.stbl_body().len() == 190 + 12 * spec.sample_sizes@.len(),
        spec.minf_body().len() == 298 + 12 * spec.sample_sizes@.len(),
        spec.mdia_body().len() == 383 + 12 * spec.sample_sizes@.len(),
        spec.trak_body().len() == 483 + 12 * spec.sample_sizes@.len(),
        spec.moov_body().len() == 599 + 12 * spec.sample_sizes@.len(),
        qt::mvhd_body(spec.duration()).len() == 100,
        qt::hdlr_body(qt::TAG_DHLR, qt::TAG_URL, "DataHandler"@).len() == 36,
        qt::hdlr_body(qt::TAG_MHLR, qt::TAG_VIDE, "VideoHandler"@).len() == 37,
        qt::vmhd_body().len() == 12,
        qt::tkhd_body(spec.duration(), spec.orientation, spec.width, spec.height).len() == 84,
        qt::mdhd_body(spec.duration()).len() == 24,
{
    let sizes = spec.sample_sizes@;
    lemma_handler_names();
    lemma_size_rows(sizes);
    lemma_offset_rows(qt::offsets_of(sizes));
    lemma_matrix_rows(qt::matrix_of(1));
    lemma_matrix_rows(qt::matrix_of(spec.orientation));
    assert(qt::matrix_of(1).len() == 9);
    assert(qt::matrix_of(spec.orientation).len() == 9);
    let stsd = qt::stsd_body(spec.width, spec.height);
    let stts = qt::stts_body(sizes.len() as int, spec.sample_ms);
    let stsc = qt::stsc_body();
    let stsz = qt::stsz_body(sizes);
    let co64 = qt::co64_body(sizes);
    lemma_atom_len(qt::TAG_JPEG, qt::jpeg_body(spec.width, spec.height));
    lemma_atom_len(qt::TAG_URL, Seq::<u8>::empty() + qt::be32_bytes(1));
    lemma_atom_len(qt::TAG_STSD, stsd);
    lemma_atom_len(qt::TAG_STTS, stts);
    lemma_atom_len(qt::TAG_STSC, stsc);
    lemma_atom_len(qt::TAG_STSZ, stsz);
    lemma_atom_len(qt::TAG_CO64, co64);
    assert(spec.stbl_body().len() == 190 + 12 * sizes.len());
    let vmhd = qt::vmhd_body();
    let data = qt::hdlr_body(qt::TAG_DHLR, qt::TAG_URL, "DataHandler"@);
    let dinf = Seq::<u8>::empty() + qt::atom_bytes(qt::TAG_DREF, qt::dref_body());
    lemma_atom_len(qt::TAG_VMHD, vmhd);
    lemma_atom_len(qt::TAG_HDLR, data);
    lemma_atom_len(qt::TAG_DREF, qt::dref_body());
    lemma_atom_len(qt::TAG_DINF, dinf);
    lemma_atom_len(qt::TAG_STBL, spec.stbl_body());
    assert(spec.minf_body().len() == 298 + 12 * sizes.len());
    let mdhd = qt::mdhd_body(spec.duration());
    let media = qt::hdlr_body(qt::TAG_MHLR, qt::TAG_VIDE, "VideoHandler"@);
    lemma_atom_len(qt::TAG_MDHD, mdhd);
    lemma_atom_len(qt::TAG_HDLR, media);
    lemma_atom_len(qt::TAG_MINF, spec.minf_body());
    assert(spec.mdia_body().len() == 383 + 12 * sizes.len());
    let tkhd = qt::tkhd_body(spec.duration(), spec.orientation, spec.width, spec.height);
    lemma_atom_len(qt::TAG_TKHD, tkhd);
    lemma_atom_len(qt::TAG_MDIA, spec.mdia_body());
    assert(spec.trak_body().len() == 483 + 12 * sizes.len());
    lemma_atom_len(qt::TAG_MVHD, qt::mvhd_body(spec.duration()));
    lemma_atom_len(qt::TAG_TRAK, spec.trak_body());
}

/// The header that is written has the size that was quoted for it.
pub proof fn lemma_header_size(spec: qt::TrackSpec)
    ensures
        qt::header_bytes(spec).len() == qt::header_size(
            spec.sample_sizes@.len() as int,
            spec.payload(),
        ),
{
    lemma_body_sizes(spec);
    lemma_atom_len(qt::TAG_FTYP, qt::ftyp_body());
    lemma_atom_len(qt::TAG_MOOV, spec.moov_body());
}

/// What a `moov` of this module says.
spec fn parsed_track(spec: qt::TrackSpec) -> qt::ParsedView {
    qt::ParsedView {
        timescale: Some(qt::TIMESCALE),
        sample_delta: Some(spec.sample_ms),
        stts_entries: 1,
        width: qt::sat16(spec.width as int) as u32,
        height: qt::sat16(spec.height as int) as u32,
        sample_width: qt::sat16(spec.width as int) as u32,
        sample_height: qt::sat16(spec.height as int) as u32,
        matrix: qt::matrix_of(spec.orientation),
        format: Some(qt::be32_bytes(qt::TAG_JPEG)),
        sizes: spec.sample_sizes@,
        offsets: qt::offsets_of(spec.sample_sizes@),
        stsc: seq![(1u32, 1u32)],
        co64: true,
    }
}

proof fn lemma_minf(spec: qt::TrackSpec, out: qt::ParsedView)
    requires
        spec.sample_sizes@.len() * 12 + 627 <= u32::MAX,
        forall|i: int|
            0 <= i < spec.sample_sizes@.len() ==> spec.sample_sizes@[i] <= u32::MAX,
    ensures
        qt::walked(spec.minf_body(), out, 3) == qt::walked(spec.stbl_body(), out, 4),
{
    lemma_body_sizes(spec);
    let b1 = qt::vmhd_body();
    let b2 = qt::hdlr_body(qt::TAG_DHLR, qt::TAG_URL, "DataHandler"@);
    let b3 = Seq::<u8>::empty() + qt::atom_bytes(qt::TAG_DREF, qt::dref_body());
    let b4 = spec.stbl_body();
    let end = Seq::<u8>::empty();
    let r3 = qt::atom_bytes(qt::TAG_STBL, b4) + end;
    let r2 = qt::atom_bytes(qt::TAG_DINF, b3) + r3;
    let r1 = qt::atom_bytes(qt::TAG_HDLR, b2) + r2;
    lemma_regroup(
        qt::atom_bytes(qt::TAG_VMHD, b1),
        qt::atom_bytes(qt::TAG_HDLR, b2),
        qt::atom_bytes(qt::TAG_DINF, b3),
        qt::atom_bytes(qt::TAG_STBL, b4),
        end,
    );
    lemma_dinf(out);
    lemma_stbl(spec, out);
    lemma_walk_atom(qt::TAG_VMHD, b1, r1, out, 3);
    lemma_walk_atom(qt::TAG_HDLR, b2, r2, out, 3);
    lemma_walk_atom(qt::TAG_DINF, b3, r3, out, 3);
    lemma_walk_atom(qt::TAG_STBL, b4, end, out, 3);
    lemma_walk_end(qt::walked(b4, out, 4).0, 3);
}

proof fn lemma_moov(spec: qt::TrackSpec)
    requires
        spec.sample_sizes@.len() * 12 + 627 <= u32::MAX,
        forall|i: int|
            0 <= i < spec.sample_sizes@.len() ==> spec.sample_sizes@[i] <= u32::MAX,
    ensures
        qt::walked(spec.moov_body(), qt::blank(), 0) == (parsed_track(spec), None::<qt::Fault>),
{
    lemma_body_sizes(spec);
    let end = Seq::<u8>::empty();
    let out = qt::blank();
    // moov: mvhd says nothing, trak is walked.
    let trak = spec.trak_body();
    let mvhd = qt::mvhd_body(spec.duration());
    let after_mvhd = qt::atom_bytes(qt::TAG_TRAK, trak) + end;
    lemma_regroup(
        qt::atom_bytes(qt::TAG_MVHD, mvhd),
        qt::atom_bytes(qt::TAG_TRAK, trak),
        end,
        end,
        end,
    );
    lemma_walk_atom(qt::TAG_MVHD, mvhd, after_mvhd, out, 0);
    lemma_walk_atom(qt::TAG_TRAK, trak, end, out, 0);
    lemma_walk_end(qt::walked(trak, out, 1).0, 0);
    // trak: tkhd, mdia.
    let tkhd = qt::tkhd_body(spec.duration(), spec.orientation, spec.width, spec.height);
    let mdia = spec.mdia_body();
    let after_tkhd = qt::atom_bytes(qt::TAG_MDIA, mdia) + end;
    lemma_regroup(
        qt::atom_bytes(qt::TAG_TKHD, tkhd),
        qt::atom_bytes(qt::TAG_MDIA, mdia),
        end,
        end,
        end,
    );
    lemma_tkhd(spec.duration(), spec.orientation, spec.width, spec.height, out);
    let o1 = qt::tkhd_read(tkhd, out).0;
    lemma_walk_atom(qt::TAG_TKHD, tkhd, after_tkhd, out, 1);
    lemma_walk_atom(qt::TAG_MDIA, mdia, end, o1, 1);
    lemma_walk_end(qt::walked(mdia, o1, 2).0, 1);
    // mdia: mdhd, hdlr, minf.
    let mdhd = qt::mdhd_body(spec.duration());
    let hdlr = qt::hdlr_body(qt::TAG_MHLR, qt::TAG_VIDE, "VideoHandler"@);
    let minf = spec.minf_body();
    let after_hdlr = qt::atom_bytes(qt::TAG_MINF, minf) + end;
    let after_mdhd = qt::atom_bytes(qt::TAG_HDLR, hdlr) + after_hdlr;
    lemma_regroup(
        qt::atom_bytes(qt::TAG_MDHD, mdhd),
        qt::atom_bytes(qt::TAG_HDLR, hdlr),
        qt::atom_bytes(qt::TAG_MINF, minf),
        end,
        end,
    );
    lemma_mdhd(spec.duration(), o1);
    let o2 = qt::mdhd_read(mdhd, o1).0;
    lemma_walk_atom(qt::TAG_MDHD, mdhd, after_mdhd, o1, 2);
    lemma_walk_atom(qt::TAG_HDLR, hdlr, after_hdlr, o2, 2);
    lemma_walk_atom(qt::TAG_MINF, minf, end, o2, 2);
    lemma_walk_end(qt::walked(minf, o2, 3).0, 2);
    // minf and stbl.
    lemma_minf(spec, o2);
    lemma_stbl(spec, o2);
    assert(qt::walked(spec.stbl_body(), o2, 4).0 == parsed_track(spec));
}

// ----------------------------------------------------------- the samples
/// The samples of a track, where the header says they are.
pub open spec fn track_samples(spec: qt::TrackSpec) -> Seq<qt::Sample> {
    Seq::new(
        spec.sample_sizes@.len(),
        |i: int|
            qt::Sample {
                offset: qt::offset_of(spec.sample_sizes@, i) as u64,
                size: spec.sample_sizes@[i],
            },
    )
}

proof fn lemma_samples_from(spec: qt::TrackSpec, chunk: int)
    requires
        spec.fits(),
        spec.sample_sizes@.len() <= u32::MAX,
        0 <= chunk <= spec.sample_sizes@.len(),
    ensures
        qt::samples_from(parsed_track(spec), chunk, chunk) == Ok::<Seq<qt::Sample>, qt::Fault>(
            track_samples(spec).skip(chunk),
        ),
    decreases spec.sample_sizes@.len() - chunk,
{
    let p = parsed_track(spec);
    let all = track_samples(spec);
    let sizes = spec.sample_sizes@;
    if chunk == sizes.len() {
        assert(all.skip(chunk) =~= Seq::empty());
    } else {
        lemma_samples_from(spec, chunk + 1);
        qt::lemma_total_prefix(sizes, chunk);
        qt::lemma_total_prefix(sizes, chunk + 1);
        assert(qt::row_for(p.stsc, chunk + 1, 0) == 0);
        let at = qt::offset_of(sizes, chunk);
        assert(0 <= at && at + sizes[chunk] <= u64::MAX);
        assert(p.offsets[chunk] == at);
        let one = seq![qt::Sample { offset: at as u64, size: sizes[chunk] }];
        assert(qt::chunk_samples(p.sizes, chunk + 1, at + sizes[chunk], 0) == Ok::<
            Seq<qt::Sample>,
            qt::Fault,
        >(Seq::empty()));
        assert(one + Seq::<qt::Sample>::empty() =~= one);
        assert(qt::chunk_samples(p.sizes, chunk, at, 1) == Ok::<Seq<qt::Sample>, qt::Fault>(one));
        assert(one + all.skip(chunk + 1) =~= all.skip(chunk));
    }
}

// ------------------------------------------------------------- the top level
proof fn lemma_atom_words(file: Seq<u8>, at: int, kind: u32, body: Seq<u8>)
    requires
        0 <= at,
        body.len() + 8 <= u32::MAX,
        at + 8 + body.len() <= file.len(),
        file.subrange(at, at + 8 + body.len()) == qt::atom_bytes(kind, body),
    ensures
        qt::be32_at(file, at) == body.len() + 8,
        qt::be32_at(file, at + 4) == kind,
        file.subrange(at + 8, at + 8 + body.len()) == body,
{
    reveal(qt::atom_bytes);
    let size = (body.len() + 8) as u32;
    let a = file.subrange(at, at + 8 + body.len());
    assert(file.subrange(at, at + 4) =~= a.subrange(0, 4));
    assert(file.subrange(at + 4, at + 4 + 4) =~= a.subrange(4, 8));
    assert(a.subrange(0, 4) =~= qt::be32_bytes(size));
    assert(a.subrange(4, 8) =~= qt::be32_bytes(kind));
    lemma_word(file, at, size);
    lemma_word(file, at + 4, kind);
    let end = 8 + body.len() as int;
    assert(a.subrange(8, end) =~= body);
    assert(file.subrange(at + 8, at + 8 + body.len()) =~= a.subrange(8, end));
}

#[verifier::spinoff_prover]
proof fn lemma_scan_atom(file: Seq<u8>, at: int, kind: u32, body: Seq<u8>, top: qt::TopView)
    requires
        0 <= at,
        body.len() + 8 <= u32::MAX,
        at + 8 + body.len() <= file.len(),
        file.subrange(at, at + 8 + body.len()) == qt::atom_bytes(kind, body),
    ensures
        qt::scanned(file, at, top) == qt::entered(file, at, top, kind, body.len() as int + 8, 8),
        file.subrange(at + 8, at + 8 + body.len()) == body,
{
    lemma_atom_words(file, at, kind, body);
}

/// The words of an `mdat` header.
proof fn lemma_mdat_words(file: Seq<u8>, at: int, payload: int)
    requires
        0 <= at,
        0 <= payload,
        payload + 16 <= u64::MAX,
        file.len() == at + qt::mdat_head_size(payload) + payload,
        file.subrange(at, at + qt::mdat_head_size(payload)) == qt::mdat_head(payload),
    ensures
        qt::be32_at(file, at + 4) == qt::TAG_MDAT,
        qt::mdat_head_size(payload) == 16 ==> qt::be32_at(file, at) == 1 && qt::be64_at(
            file,
            at + 8,
        ) == payload + 16,
        qt::mdat_head_size(payload) == 8 ==> qt::be32_at(file, at) == payload + 8,
{
    let head = qt::mdat_head_size(payload);
    let h = file.subrange(at, at + head);
    assert(file.subrange(at, at + 4) =~= h.subrange(0, 4));
    assert(file.subrange(at + 4, at + 4 + 4) =~= h.subrange(4, 8));
    assert(h.subrange(4, 8) =~= qt::be32_bytes(qt::TAG_MDAT));
    lemma_word(file, at + 4, qt::TAG_MDAT);
    if head == 16 {
        assert(h.subrange(0, 4) =~= qt::be32_bytes(1));
        lemma_word(file, at, 1);
        assert(file.subrange(at + 8, at + 8 + 8) =~= h.subrange(8, 16));
        assert(h.subrange(8, 16) =~= qt::be64_bytes((payload + 16) as u64));
        lemma_long(file, at + 8, (payload + 16) as u64);
    } else {
        assert(h.subrange(0, 4) =~= qt::be32_bytes((payload + 8) as u32));
        lemma_word(file, at, (payload + 8) as u32);
    }
}

/// An `mdat` that runs to the end of the file is the last atom.
proof fn lemma_enter_mdat(file: Seq<u8>, at: int, size: int, head: int, top: qt::TopView)
    requires
        0 <= at,
        8 <= head <= size,
        file.len() == at + size,
    ensures
        qt::entered(file, at, top, qt::TAG_MDAT, size, head) == Ok::<qt::TopView, qt::Fault>(
            qt::TopView { mdat_at: Some(at), ..top },
        ),
{
    let after = qt::TopView { mdat_at: Some(at), ..top };
    assert(qt::scanned(file, at + size, after) == Ok::<qt::TopView, qt::Fault>(after));
}

#[verifier::spinoff_prover]
proof fn lemma_scan_mdat(file: Seq<u8>, at: int, payload: int, top: qt::TopView)
    requires
        0 <= at,
        0 <= payload,
        payload + 16 <= u64::MAX,
        file.len() == at + qt::mdat_head_size(payload) + payload,
        file.subrange(at, at + qt::mdat_head_size(payload)) == qt::mdat_head(payload),
    ensures
        qt::scanned(file, at, top) == Ok::<qt::TopView, qt::Fault>(
            qt::TopView { mdat_at: Some(at), ..top },
        ),
{
    lemma_mdat_words(file, at, payload);
    let head = qt::mdat_head_size(payload);
    lemma_enter_mdat(file, at, payload + head, head, top);
}

proof fn lemma_ftyp()
    ensures
        qt::ftyp_body().len() == 12,
        qt::ftyp_body().subrange(0, 4) == qt::be32_bytes(qt::TAG_QT),
{
    assert(qt::ftyp_body().subrange(0, 4) =~= qt::be32_bytes(qt::TAG_QT));
}

proof fn lemma_mdat_head_len(payload: int)
    ensures
        qt::mdat_head(payload).len() == qt::mdat_head_size(payload),
{
}

proof fn lemma_layout(a: Seq<u8>, b: Seq<u8>, c: Seq<u8>, d: Seq<u8>)
    ensures
        ({
            let file = Seq::<u8>::empty() + a + b + c + d;
            let (i, j, k) = (
                a.len() as int,
                a.len() + b.len() as int,
                a.len() + b.len() + c.len() as int,
            );
            &&& file.len() == k + d.len()
            &&& file.subrange(0, i) == a
            &&& file.subrange(i, j) == b
            &&& file.subrange(j, k) == c
        }),
{
    let file = Seq::<u8>::empty() + a + b + c + d;
    let (i, j, k) = (
        a.len() as int,
        a.len() + b.len() as int,
        a.len() + b.len() + c.len() as int,
    );
    assert(file.subrange(0, i) =~= a);
    assert(file.subrange(i, j) =~= b);
    assert(file.subrange(j, k) =~= c);
}

proof fn lemma_enter_ftyp(file: Seq<u8>, top: qt::TopView)
    requires
        file.len() >= 20,
    ensures
        qt::entered(file, 0, top, qt::TAG_FTYP, 20, 8) == qt::scanned(
            file,
            20,
            qt::TopView { major_brand: file.subrange(8, 12), ..top },
        ),
{
}

proof fn lemma_enter_moov(file: Seq<u8>, at: int, moov: Seq<u8>, top: qt::TopView)
    requires
        0 <= at,
        moov.len() <= qt::MAX_MOOV,
        at + 8 + moov.len() <= file.len(),
        file.subrange(at + 8, at + 8 + moov.len()) == moov,
    ensures
        qt::entered(file, at, top, qt::TAG_MOOV, moov.len() as int + 8, 8) == qt::scanned(
            file,
            at + 8 + moov.len(),
            qt::TopView { moov: Some(moov), moov_at: Some(at), ..top },
        ),
{
    assert(at + (moov.len() as int + 8) == at + 8 + moov.len());
}

/// The top level of a written file: the brand, the whole `moov`, and where
/// the payload starts.
proof fn lemma_scan_movie(moov: Seq<u8>, payload: Seq<u8>, file: Seq<u8>)
    requires
        moov.len() <= qt::MAX_MOOV,
        payload.len() + 16 <= u64::MAX,
        file == Seq::<u8>::empty() + qt::atom_bytes(qt::TAG_FTYP, qt::ftyp_body())
            + qt::atom_bytes(qt::TAG_MOOV, moov) + qt::mdat_head(payload.len() as int) + payload,
    ensures
        qt::scanned(file, 0, qt::top_start()) == Ok::<qt::TopView, qt::Fault>(
            qt::TopView {
                major_brand: qt::be32_bytes(qt::TAG_QT),
                moov: Some(moov),
                moov_at: Some(20),
                mdat_at: Some(28 + moov.len() as int),
            },
        ),
{
    let ftyp = qt::ftyp_body();
    let p = payload.len() as int;
    lemma_atom_len(qt::TAG_FTYP, ftyp);
    lemma_atom_len(qt::TAG_MOOV, moov);
    let a1 = qt::atom_bytes(qt::TAG_FTYP, ftyp);
    let a2 = qt::atom_bytes(qt::TAG_MOOV, moov);
    let head = qt::mdat_head(p);
    lemma_ftyp();
    lemma_mdat_head_len(p);
    lemma_layout(a1, a2, head, payload);
    let at = 28 + moov.len() as int;
    let top0 = qt::top_start();
    lemma_scan_atom(file, 0, qt::TAG_FTYP, ftyp, top0);
    assert(file.subrange(8, 12) =~= ftyp.subrange(0, 4)) by {
        assert(file.subrange(8, 12) =~= file.subrange(8, 20).subrange(0, 4));
    }
    lemma_enter_ftyp(file, top0);
    let top1 = qt::TopView { major_brand: qt::be32_bytes(qt::TAG_QT), ..top0 };
    lemma_scan_atom(file, 20, qt::TAG_MOOV, moov, top1);
    lemma_enter_moov(file, 20, moov, top1);
    let top2 = qt::TopView { moov: Some(moov), moov_at: Some(20), ..top1 };
    lemma_scan_mdat(file, at, p, top2);
}

/// A movie reads back as the track it was written from.
///
/// For every track of at least one sample whose sizes fit the 32-bit size
/// table and whose `moov` is one the reader accepts, and for every payload
/// of the promised length, the reader finds the brand, the millisecond
/// timescale, ONE duration for every frame, the frame size (held to the
/// format's 16 bits), the rotation, `jpeg` samples exactly where the plan
/// put them, 64-bit offsets, and `moov` ahead of `mdat`.
pub proof fn lemma_movie_reads_back(spec: qt::TrackSpec, payload: Seq<u8>)
    requires
        spec.fits(),
        1 <= spec.sample_sizes@.len(),
        forall|i: int|
            0 <= i < spec.sample_sizes@.len() ==> spec.sample_sizes@[i] <= u32::MAX,
        599 + 12 * spec.sample_sizes@.len() <= qt::MAX_MOOV,
        payload.len() == spec.payload(),
    ensures
        qt::movie_of(qt::header_bytes(spec) + payload) == Ok::<qt::MovieView, qt::Fault>(
            qt::MovieView {
                major_brand: qt::be32_bytes(qt::TAG_QT),
                timescale: qt::TIMESCALE,
                sample_ms: spec.sample_ms,
                stts_entries: 1,
                width: qt::sat16(spec.width as int) as u32,
                height: qt::sat16(spec.height as int) as u32,
                sample_width: qt::sat16(spec.width as int) as u32,
                sample_height: qt::sat16(spec.height as int) as u32,
                matrix: qt::matrix_of(spec.orientation),
                format: qt::be32_bytes(qt::TAG_JPEG),
                samples: track_samples(spec),
                co64: true,
                moov_before_mdat: true,
            },
        ),
{
    let file = qt::header_bytes(spec) + payload;
    lemma_body_sizes(spec);
    lemma_scan_movie(spec.moov_body(), payload, file);
    lemma_moov(spec);
    lemma_samples_from(spec, 0);
    assert(track_samples(spec).skip(0) =~= track_samples(spec));
    assert(qt::samples_of(parsed_track(spec)) == Ok::<Seq<qt::Sample>, qt::Fault>(
        track_samples(spec),
    ));
}

/// The samples follow each other without a gap, from the end of the header
/// to the end of the file.
pub proof fn lemma_samples_are_back_to_back(spec: qt::TrackSpec, i: int)
    requires
        0 <= i < spec.sample_sizes@.len(),
    ensures
        qt::offset_of(spec.sample_sizes@, 0) == qt::header_bytes(spec).len(),
        qt::offset_of(spec.sample_sizes@, i) + spec.sample_sizes@[i] == qt::offset_of(
            spec.sample_sizes@,
            i + 1,
        ),
        qt::offset_of(spec.sample_sizes@, spec.sample_sizes@.len() as int)
            == qt::header_bytes(spec).len() + spec.payload(),
{
    lemma_header_size(spec);
    qt::lemma_total_prefix(spec.sample_sizes@, i);
    assert(spec.sample_sizes@.take(0) =~= Seq::empty());
    assert(spec.sample_sizes@.take(spec.sample_sizes@.len() as int) =~= spec.sample_sizes@);
}

} // verus!
