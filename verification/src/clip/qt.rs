//! The QuickTime container: a Motion JPEG muxer and the reader that proves
//! what it wrote.
//!
//! ```text
//! ftyp                          major brand `qt  `
//! moov                          BEFORE the payload, so the file plays
//!  └ mvhd                       while it is still being transferred
//!  └ trak
//!     └ tkhd                    display size + the rotation matrix
//!     └ mdia
//!        └ mdhd                 timescale 1000 (milliseconds)
//!        └ hdlr  `vide`
//!        └ minf
//!           └ vmhd
//!           └ hdlr  `url `
//!           └ dinf/dref         self-contained: the samples are in here
//!           └ stbl
//!              └ stsd  `jpeg`   one sample description, Motion JPEG
//!              └ stts           one entry: every frame is on screen for
//!              └ stsc           the same time; one sample per chunk
//!              └ stsz           per-sample sizes
//!              └ co64           64-BIT offsets, always
//! mdat                          the untouched camera JPEGs, back to back
//! ```
//!
//! `moov` comes first, which is possible only because every sample size is
//! known before a byte is written. Offsets are always 64-bit, so the offset
//! table has one shape.
//!
//! The bytes are described by the spec functions in the first part of this
//! file ([`header_bytes`]) and the reader by [`movie_of`];
//! [`lemma_movie_reads_back`] joins the two.
use vstd::prelude::*;

verus! {

/// Movie and media timescale: 1000 ticks per second, so a duration in
/// ticks IS a duration in milliseconds.
pub const TIMESCALE: u32 = 1000;

// --- fixed atom sizes ------------------------------------------------------
//
// Every atom in the header except `stsz` and `co64` has a size that does
// not depend on the number of frames, so the whole header can be measured
// before it is built.
const FTYP: u64 = 20;

const MVHD: u64 = 108;

const TKHD: u64 = 92;

const MDHD: u64 = 32;

/// `hdlr` for the media handler, name "VideoHandler".
const HDLR_MEDIA: u64 = 45;

/// `hdlr` for the data handler, name "DataHandler".
const HDLR_DATA: u64 = 44;

const VMHD: u64 = 20;

const DREF: u64 = 28;

const DINF: u64 = 8 + DREF;

const STSD: u64 = 102;

const STTS: u64 = 24;

const STSC: u64 = 28;

/// `stsz` and `co64` without their per-sample rows.
const STSZ_FIXED: u64 = 20;

const CO64_FIXED: u64 = 16;

/// An atom header is 8 bytes; `mdat` grows to 16 when the payload needs a
/// 64-bit size (the `largesize` form).
const ATOM: u64 = 8;

const MDAT_LARGE: u64 = 16;

// --- four-character codes, as the big-endian number they spell -------------
/// `ftyp`
pub const TAG_FTYP: u32 = 0x6674_7970;

/// `qt  `
pub const TAG_QT: u32 = 0x7174_2020;

/// `moov`
pub const TAG_MOOV: u32 = 0x6d6f_6f76;

/// `mdat`
pub const TAG_MDAT: u32 = 0x6d64_6174;

/// `mvhd`
pub const TAG_MVHD: u32 = 0x6d76_6864;

/// `trak`
pub const TAG_TRAK: u32 = 0x7472_616b;

/// `tkhd`
pub const TAG_TKHD: u32 = 0x746b_6864;

/// `mdia`
pub const TAG_MDIA: u32 = 0x6d64_6961;

/// `mdhd`
pub const TAG_MDHD: u32 = 0x6d64_6864;

/// `hdlr`
pub const TAG_HDLR: u32 = 0x6864_6c72;

/// `mhlr`, a media handler
pub const TAG_MHLR: u32 = 0x6d68_6c72;

/// `vide`, for video
pub const TAG_VIDE: u32 = 0x7669_6465;

/// `dhlr`, a data handler
pub const TAG_DHLR: u32 = 0x6468_6c72;

/// `url `
pub const TAG_URL: u32 = 0x7572_6c20;

/// `minf`
pub const TAG_MINF: u32 = 0x6d69_6e66;

/// `vmhd`
pub const TAG_VMHD: u32 = 0x766d_6864;

/// `dinf`
pub const TAG_DINF: u32 = 0x6469_6e66;

/// `dref`
pub const TAG_DREF: u32 = 0x6472_6566;

/// `edts`
pub const TAG_EDTS: u32 = 0x6564_7473;

/// `stbl`
pub const TAG_STBL: u32 = 0x7374_626c;

/// `stsd`
pub const TAG_STSD: u32 = 0x7374_7364;

/// `jpeg`
pub const TAG_JPEG: u32 = 0x6a70_6567;

/// `stts`
pub const TAG_STTS: u32 = 0x7374_7473;

/// `stsc`
pub const TAG_STSC: u32 = 0x7374_7363;

/// `stsz`
pub const TAG_STSZ: u32 = 0x7374_737a;

/// `stco`
pub const TAG_STCO: u32 = 0x7374_636f;

/// `co64`
pub const TAG_CO64: u32 = 0x636f_3634;

// ---------------------------------------------------------- the byte model
/// The bytes of a 16-bit number, big end first.
pub open spec fn be16_bytes(v: u16) -> Seq<u8> {
    seq![(v / 0x100) as u8, (v % 0x100) as u8]
}

/// The bytes of a 32-bit number, big end first.
pub open spec fn be32_bytes(v: u32) -> Seq<u8> {
    seq![
        (v / 0x100_0000) as u8,
        (v / 0x1_0000 % 0x100) as u8,
        (v / 0x100 % 0x100) as u8,
        (v % 0x100) as u8,
    ]
}

/// The bytes of a 64-bit number, big end first.
pub open spec fn be64_bytes(v: u64) -> Seq<u8> {
    be32_bytes((v / 0x1_0000_0000) as u32) + be32_bytes((v % 0x1_0000_0000) as u32)
}

/// The two's-complement reading of a signed 32-bit number.
pub open spec fn twos(v: i32) -> u32 {
    if v >= 0 {
        v as u32
    } else {
        (v + 0x1_0000_0000) as u32
    }
}

/// The signed number that a 32-bit word stands for.
pub open spec fn signed(v: u32) -> i32 {
    if v < 0x8000_0000 {
        v as i32
    } else {
        (v - 0x1_0000_0000) as i32
    }
}

/// `n` zero bytes.
pub open spec fn zero_bytes(n: nat) -> Seq<u8> {
    Seq::new(n, |i: int| 0u8)
}

/// An atom: its own total size (modulo 2^32, the width of the field), its
/// four-character code, its body.
#[verifier::opaque]
pub open spec fn atom_bytes(kind: u32, body: Seq<u8>) -> Seq<u8> {
    Seq::<u8>::empty() + be32_bytes(((body.len() + 8) % 0x1_0000_0000) as u32) + be32_bytes(kind)
        + body
}

/// The nine words of a display matrix.
pub open spec fn matrix_bytes(m: Seq<i32>) -> Seq<u8>
    decreases m.len(),
{
    if m.len() == 0 {
        Seq::empty()
    } else {
        matrix_bytes(m.drop_last()) + be32_bytes(twos(m.last()))
    }
}

// ------------------------------------------------------------- the track
/// The description of the one video track this module writes.
#[derive(Clone, Debug, PartialEq, Eq)]
pub struct TrackSpec {
    /// Frame size, in pixels, of every sample. Not the DISPLAY size: a
    /// portrait frame is stored in sensor orientation and turned by the
    /// matrix (see [`display_matrix`]).
    pub width: u32,
    pub height: u32,
    /// EXIF orientation, already reduced to an unmirrored rotation
    /// (1, 3, 6, 8).
    pub orientation: u16,
    /// How long each frame is on screen, in milliseconds.
    pub sample_ms: u32,
    /// Every sample's size in bytes, in playback order.
    pub sample_sizes: Vec<u64>,
}

/// The sum of a list of sizes.
pub open spec fn total(sizes: Seq<u64>) -> int
    decreases sizes.len(),
{
    if sizes.len() == 0 {
        0
    } else {
        total(sizes.drop_last()) + sizes.last()
    }
}

pub(crate) proof fn lemma_total_prefix(sizes: Seq<u64>, k: int)
    requires
        0 <= k <= sizes.len(),
    ensures
        0 <= total(sizes.take(k)) <= total(sizes),
        k < sizes.len() ==> total(sizes.take(k + 1)) == total(sizes.take(k)) + sizes[k],
    decreases sizes.len() - k,
{
    lemma_total_nonneg(sizes.take(k));
    if k < sizes.len() {
        assert(sizes.take(k + 1).drop_last() =~= sizes.take(k));
        lemma_total_prefix(sizes, k + 1);
    } else {
        assert(sizes.take(k) =~= sizes);
    }
}

proof fn lemma_total_nonneg(sizes: Seq<u64>)
    ensures
        0 <= total(sizes),
    decreases sizes.len(),
{
    if sizes.len() > 0 {
        lemma_total_nonneg(sizes.drop_last());
    }
}

impl TrackSpec {
    /// The bytes of all samples together.
    pub open spec fn payload(&self) -> int {
        total(self.sample_sizes@)
    }

    /// Every number of the header fits the 64 bits it is computed in.
    pub open spec fn fits(&self) -> bool {
        &&& header_size(self.sample_sizes@.len() as int, self.payload()) + self.payload()
            <= u64::MAX
        &&& self.sample_sizes@.len() * self.sample_ms <= u64::MAX
    }

    pub fn sample_bytes(&self) -> (sum: u64)
        requires
            self.payload() <= u64::MAX,
        ensures
            sum == self.payload(),
    {
        let mut sum: u64 = 0;
        let mut i: usize = 0;
        while i < self.sample_sizes.len()
            invariant
                i <= self.sample_sizes@.len(),
                sum == total(self.sample_sizes@.take(i as int)),
                self.payload() <= u64::MAX,
            decreases self.sample_sizes@.len() - i,
        {
            proof {
                lemma_total_prefix(self.sample_sizes@, i as int);
                lemma_total_prefix(self.sample_sizes@, i + 1);
            }
            sum = sum + self.sample_sizes[i];
            i = i + 1;
        }
        assert(self.sample_sizes@.take(i as int) =~= self.sample_sizes@);
        sum
    }

    pub fn duration_ms(&self) -> (ms: u64)
        requires
            self.sample_sizes@.len() * self.sample_ms <= u64::MAX,
        ensures
            ms == self.sample_sizes@.len() * self.sample_ms,
    {
        self.sample_sizes.len() as u64 * self.sample_ms as u64
    }
}

/// The size of the `mdat` header that a payload needs.
pub open spec fn mdat_head_size(payload: int) -> int {
    if payload + 8 > u32::MAX {
        16
    } else {
        8
    }
}

/// Bytes before the first sample: 627 fixed ones, 12 per sample, and the
/// `mdat` header.
pub open spec fn header_size(samples: int, payload: int) -> int {
    627 + 12 * samples + mdat_head_size(payload)
}

/// Does this payload need `mdat`'s 64-bit `largesize` header? The 32-bit
/// header stays the normal case; the large form appears only when the
/// payload genuinely cannot be described in 32 bits.
fn mdat_header_len(payload: u64) -> (len: u64)
    requires
        payload + 8 <= u64::MAX,
    ensures
        len == mdat_head_size(payload as int),
{
    if payload + ATOM > u32::MAX as u64 {
        MDAT_LARGE
    } else {
        ATOM
    }
}

/// Bytes before the first sample: `ftyp` + `moov` + the `mdat` header.
pub fn header_len(samples: usize, payload: u64) -> (len: u64)
    requires
        payload + 8 <= u64::MAX,
        header_size(samples as int, payload as int) <= u64::MAX,
    ensures
        len == header_size(samples as int, payload as int),
{
    let n: u64 = samples as u64;
    let stbl: u64 = ATOM + STSD + STTS + STSC + (STSZ_FIXED + 4 * n) + (CO64_FIXED + 8 * n);
    let minf: u64 = ATOM + VMHD + HDLR_DATA + DINF + stbl;
    let mdia: u64 = ATOM + MDHD + HDLR_MEDIA + minf;
    let trak: u64 = ATOM + TKHD + mdia;
    let moov: u64 = ATOM + MVHD + trak;
    FTYP + moov + mdat_header_len(payload)
}

/// Where sample `i` of a track starts in the finished file.
pub open spec fn offset_of(sizes: Seq<u64>, i: int) -> int {
    header_size(sizes.len() as int, total(sizes)) + total(sizes.take(i))
}

/// Where each sample lands in the finished file, in playback order.
pub fn sample_offsets(spec: &TrackSpec) -> (offsets: Vec<u64>)
    requires
        header_size(spec.sample_sizes@.len() as int, spec.payload()) + spec.payload() <= u64::MAX,
    ensures
        offsets@.len() == spec.sample_sizes@.len(),
        forall|i: int|
            0 <= i < offsets@.len() ==> #[trigger] offsets@[i] == offset_of(spec.sample_sizes@, i),
{
    proof {
        lemma_total_nonneg(spec.sample_sizes@);
    }
    let mut at: u64 = header_len(spec.sample_sizes.len(), spec.sample_bytes());
    let mut offsets: Vec<u64> = Vec::new();
    let mut i: usize = 0;
    assert(spec.sample_sizes@.take(0) =~= Seq::empty());
    while i < spec.sample_sizes.len()
        invariant
            i <= spec.sample_sizes@.len(),
            offsets@.len() == i,
            header_size(spec.sample_sizes@.len() as int, spec.payload()) + spec.payload()
                <= u64::MAX,
            at == offset_of(spec.sample_sizes@, i as int),
            forall|j: int|
                0 <= j < i ==> #[trigger] offsets@[j] == offset_of(spec.sample_sizes@, j),
        decreases spec.sample_sizes@.len() - i,
    {
        proof {
            lemma_total_prefix(spec.sample_sizes@, i as int);
            lemma_total_prefix(spec.sample_sizes@, i + 1);
        }
        offsets.push(at);
        at = at + spec.sample_sizes[i];
        i = i + 1;
    }
    offsets
}

/// 1.0 in 16.16 fixed point.
const MATRIX_ONE: i32 = 0x0001_0000;

/// 1.0 in 2.30 fixed point.
const MATRIX_W: i32 = 0x4000_0000;

/// The display matrix of an EXIF orientation: the rotation it asks for, and
/// "as stored" for anything unrecognised.
pub open spec fn matrix_of(orientation: u16) -> Seq<i32> {
    let one = 0x0001_0000i32;
    let minus = -0x0001_0000i32;
    let w = 0x4000_0000i32;
    if orientation == 3 {
        seq![minus, 0, 0, 0, minus, 0, 0, 0, w]
    } else if orientation == 6 {
        seq![0, one, 0, minus, 0, 0, 0, 0, w]
    } else if orientation == 8 {
        seq![0, minus, 0, one, 0, 0, 0, 0, w]
    } else {
        seq![one, 0, 0, 0, one, 0, 0, 0, w]
    }
}

/// The `tkhd` display matrix for an (unmirrored) EXIF orientation.
///
/// Pixels are never rotated — that would be a re-encode — so the rotation
/// lives here. The nine values are QuickTime's 3x3 transform: `a b u / c d v
/// / x y w`, with a, b, c, d, x, y in 16.16 fixed point and u, v, w in 2.30.
pub fn display_matrix(orientation: u16) -> (m: [i32; 9])
    ensures
        m@ == matrix_of(orientation),
{
    let m: [i32; 9] = match orientation {
        // 180°.
        3 => [-MATRIX_ONE, 0, 0, 0, -MATRIX_ONE, 0, 0, 0, MATRIX_W],
        // 90° clockwise (EXIF 6: the sensor's top edge is on the right).
        6 => [0, MATRIX_ONE, 0, -MATRIX_ONE, 0, 0, 0, 0, MATRIX_W],
        // 270° clockwise (EXIF 8).
        8 => [0, -MATRIX_ONE, 0, MATRIX_ONE, 0, 0, 0, 0, MATRIX_W],
        // 1, and anything unrecognised: as stored.
        _ => [MATRIX_ONE, 0, 0, 0, MATRIX_ONE, 0, 0, 0, MATRIX_W],
    };
    assert(m@ =~= matrix_of(orientation));
    m
}

// ------------------------------------------------------------- the header
/// A number held to the width of a 32-bit field, saturating.
pub open spec fn sat32(v: int) -> u32 {
    if v > u32::MAX {
        u32::MAX
    } else {
        v as u32
    }
}

/// A number held to the width of a 16-bit field, saturating.
pub open spec fn sat16(v: int) -> u16 {
    if v > u16::MAX {
        u16::MAX
    } else {
        v as u16
    }
}

/// A QuickTime counted string: one length byte, then the text.
pub open spec fn counted_bytes(text: Seq<char>) -> Seq<u8> {
    let bytes = vstd::utf8::encode_utf8(text);
    seq![(bytes.len() % 256) as u8] + bytes
}

pub open spec fn ftyp_body() -> Seq<u8> {
    Seq::<u8>::empty() + be32_bytes(TAG_QT) + be32_bytes(0x200) + be32_bytes(TAG_QT)
}

pub open spec fn mvhd_body(duration: u32) -> Seq<u8> {
    Seq::<u8>::empty() + be32_bytes(0) + be32_bytes(0) + be32_bytes(0) + be32_bytes(TIMESCALE)
        + be32_bytes(duration) + be32_bytes(0x0001_0000) + be16_bytes(0x0100) + zero_bytes(10)
        + matrix_bytes(matrix_of(1)) + zero_bytes(24) + be32_bytes(2)
}

pub open spec fn tkhd_body(duration: u32, orientation: u16, width: u32, height: u32) -> Seq<u8> {
    Seq::<u8>::empty() + be32_bytes(3) + be32_bytes(0) + be32_bytes(0) + be32_bytes(1)
        + be32_bytes(0) + be32_bytes(duration) + zero_bytes(8) + be16_bytes(0) + be16_bytes(0)
        + be16_bytes(0) + be16_bytes(0) + matrix_bytes(matrix_of(orientation)) + be32_bytes(
        (sat16(width as int) * 0x1_0000) as u32,
    ) + be32_bytes((sat16(height as int) * 0x1_0000) as u32)
}

pub open spec fn mdhd_body(duration: u32) -> Seq<u8> {
    Seq::<u8>::empty() + be32_bytes(0) + be32_bytes(0) + be32_bytes(0) + be32_bytes(TIMESCALE)
        + be32_bytes(duration) + be16_bytes(0x7fff) + be16_bytes(0)
}

pub open spec fn hdlr_body(class: u32, subclass: u32, name: Seq<char>) -> Seq<u8> {
    Seq::<u8>::empty() + be32_bytes(0) + be32_bytes(class) + be32_bytes(subclass) + zero_bytes(12)
        + counted_bytes(name)
}

pub open spec fn vmhd_body() -> Seq<u8> {
    Seq::<u8>::empty() + be32_bytes(1) + be16_bytes(0) + zero_bytes(6)
}

pub open spec fn dref_body() -> Seq<u8> {
    Seq::<u8>::empty() + be32_bytes(0) + be32_bytes(1) + atom_bytes(
        TAG_URL,
        Seq::<u8>::empty() + be32_bytes(1),
    )
}

pub open spec fn jpeg_body(width: u32, height: u32) -> Seq<u8> {
    Seq::<u8>::empty() + zero_bytes(6) + be16_bytes(1) + be16_bytes(0) + be16_bytes(0)
        + be32_bytes(0) + be32_bytes(512) + be32_bytes(512) + be16_bytes(sat16(width as int))
        + be16_bytes(sat16(height as int)) + be32_bytes(0x0048_0000) + be32_bytes(0x0048_0000)
        + be32_bytes(0) + be16_bytes(1) + zero_bytes(32) + be16_bytes(24) + be16_bytes(0xffff)
}

pub open spec fn stsd_body(width: u32, height: u32) -> Seq<u8> {
    Seq::<u8>::empty() + be32_bytes(0) + be32_bytes(1) + atom_bytes(
        TAG_JPEG,
        jpeg_body(width, height),
    )
}

pub open spec fn stts_body(samples: int, sample_ms: u32) -> Seq<u8> {
    Seq::<u8>::empty() + be32_bytes(0) + be32_bytes(1) + be32_bytes(sat32(samples)) + be32_bytes(
        sample_ms,
    )
}

pub open spec fn stsc_body() -> Seq<u8> {
    Seq::<u8>::empty() + be32_bytes(0) + be32_bytes(1) + be32_bytes(1) + be32_bytes(1)
        + be32_bytes(1)
}

/// The size table's rows: one saturated 32-bit word per sample.
pub open spec fn size_rows(sizes: Seq<u64>) -> Seq<u8>
    decreases sizes.len(),
{
    if sizes.len() == 0 {
        Seq::empty()
    } else {
        size_rows(sizes.drop_last()) + be32_bytes(sat32(sizes.last() as int))
    }
}

pub open spec fn stsz_body(sizes: Seq<u64>) -> Seq<u8> {
    Seq::<u8>::empty() + be32_bytes(0) + be32_bytes(0) + be32_bytes(sat32(sizes.len() as int))
        + size_rows(sizes)
}

/// The offset table's rows: one 64-bit word per chunk.
pub open spec fn offset_rows(offsets: Seq<u64>) -> Seq<u8>
    decreases offsets.len(),
{
    if offsets.len() == 0 {
        Seq::empty()
    } else {
        offset_rows(offsets.drop_last()) + be64_bytes(offsets.last())
    }
}

/// Where every sample of a track starts.
pub open spec fn offsets_of(sizes: Seq<u64>) -> Seq<u64> {
    Seq::new(sizes.len(), |i: int| offset_of(sizes, i) as u64)
}

pub open spec fn co64_body(sizes: Seq<u64>) -> Seq<u8> {
    Seq::<u8>::empty() + be32_bytes(0) + be32_bytes(sat32(sizes.len() as int)) + offset_rows(
        offsets_of(sizes),
    )
}

impl TrackSpec {
    pub open spec fn duration(&self) -> u32 {
        sat32((self.sample_sizes@.len() * self.sample_ms) as int)
    }

    pub open spec fn stbl_body(&self) -> Seq<u8> {
        Seq::<u8>::empty() + atom_bytes(TAG_STSD, stsd_body(self.width, self.height)) + atom_bytes(
            TAG_STTS,
            stts_body(self.sample_sizes@.len() as int, self.sample_ms),
        ) + atom_bytes(TAG_STSC, stsc_body()) + atom_bytes(TAG_STSZ, stsz_body(self.sample_sizes@))
            + atom_bytes(TAG_CO64, co64_body(self.sample_sizes@))
    }

    pub open spec fn minf_body(&self) -> Seq<u8> {
        Seq::<u8>::empty() + atom_bytes(TAG_VMHD, vmhd_body()) + atom_bytes(
            TAG_HDLR,
            hdlr_body(TAG_DHLR, TAG_URL, "DataHandler"@),
        ) + atom_bytes(TAG_DINF, Seq::<u8>::empty() + atom_bytes(TAG_DREF, dref_body()))
            + atom_bytes(TAG_STBL, self.stbl_body())
    }

    pub open spec fn mdia_body(&self) -> Seq<u8> {
        Seq::<u8>::empty() + atom_bytes(TAG_MDHD, mdhd_body(self.duration())) + atom_bytes(
            TAG_HDLR,
            hdlr_body(TAG_MHLR, TAG_VIDE, "VideoHandler"@),
        ) + atom_bytes(TAG_MINF, self.minf_body())
    }

    pub open spec fn trak_body(&self) -> Seq<u8> {
        Seq::<u8>::empty() + atom_bytes(
            TAG_TKHD,
            tkhd_body(self.duration(), self.orientation, self.width, self.height),
        ) + atom_bytes(TAG_MDIA, self.mdia_body())
    }

    pub open spec fn moov_body(&self) -> Seq<u8> {
        Seq::<u8>::empty() + atom_bytes(TAG_MVHD, mvhd_body(self.duration())) + atom_bytes(
            TAG_TRAK,
            self.trak_body(),
        )
    }
}

/// The `mdat` header: the 32-bit form when the payload fits it, the
/// `largesize` form when it does not.
pub open spec fn mdat_head(payload: int) -> Seq<u8> {
    if mdat_head_size(payload) == 16 {
        be32_bytes(1) + be32_bytes(TAG_MDAT) + be64_bytes((payload + 16) as u64)
    } else {
        be32_bytes((payload + 8) as u32) + be32_bytes(TAG_MDAT)
    }
}

/// Everything before the first sample.
pub open spec fn header_bytes(spec: TrackSpec) -> Seq<u8> {
    Seq::<u8>::empty() + atom_bytes(TAG_FTYP, ftyp_body()) + atom_bytes(TAG_MOOV, spec.moov_body())
        + mdat_head(spec.payload())
}

// ------------------------------------------------------------------- writer
/// A growable buffer of big-endian fields and atoms.
struct Builder(Vec<u8>);

impl Builder {
    spec fn bytes(&self) -> Seq<u8> {
        self.0@
    }

    fn new() -> (b: Builder)
        ensures
            b.bytes() == Seq::<u8>::empty(),
    {
        Builder(Vec::new())
    }

    fn u16(&mut self, v: u16)
        ensures
            final(self).bytes() == old(self).bytes() + be16_bytes(v),
    {
        self.0.push((v / 0x100) as u8);
        self.0.push((v % 0x100) as u8);
        assert(self.bytes() =~= old(self).bytes() + be16_bytes(v));
    }

    fn u32(&mut self, v: u32)
        ensures
            final(self).bytes() == old(self).bytes() + be32_bytes(v),
    {
        self.0.push((v / 0x100_0000) as u8);
        self.0.push((v / 0x1_0000 % 0x100) as u8);
        self.0.push((v / 0x100 % 0x100) as u8);
        self.0.push((v % 0x100) as u8);
        assert(self.bytes() =~= old(self).bytes() + be32_bytes(v));
    }

    fn i32(&mut self, v: i32)
        ensures
            final(self).bytes() == old(self).bytes() + be32_bytes(twos(v)),
    {
        if v >= 0 {
            self.u32(v as u32);
        } else {
            self.u32((v as i64 + 0x1_0000_0000) as u32);
        }
    }

    fn u64(&mut self, v: u64)
        ensures
            final(self).bytes() == old(self).bytes() + be64_bytes(v),
    {
        self.u32((v / 0x1_0000_0000) as u32);
        self.u32((v % 0x1_0000_0000) as u32);
        assert(self.bytes() =~= old(self).bytes() + be64_bytes(v));
    }

    fn raw(&mut self, b: &[u8])
        ensures
            final(self).bytes() == old(self).bytes() + b@,
    {
        self.0.extend_from_slice(b);
    }

    fn zeros(&mut self, n: usize)
        ensures
            final(self).bytes() == old(self).bytes() + zero_bytes(n as nat),
    {
        let mut i: usize = 0;
        while i < n
            invariant
                i <= n,
                self.bytes() == old(self).bytes() + zero_bytes(i as nat),
            decreases n - i,
        {
            self.0.push(0);
            i = i + 1;
            assert(self.bytes() =~= old(self).bytes() + zero_bytes(i as nat));
        }
    }

    /// Version byte + 24 flag bits, the head of every "full" atom.
    fn full(&mut self, version: u8, flags: u32)
        ensures
            final(self).bytes() == old(self).bytes() + be32_bytes(
                (version * 0x100_0000 + flags % 0x100_0000) as u32,
            ),
    {
        self.u32(version as u32 * 0x100_0000 + flags % 0x100_0000);
    }

    /// A counted string. The two handler names are the only ones this module
    /// writes, and both are far shorter than the length byte allows.
    fn counted(&mut self, text: &str)
        ensures
            final(self).bytes() == old(self).bytes() + counted_bytes(text@),
    {
        let bytes = text.as_bytes();
        self.0.push((bytes.len() % 256) as u8);
        self.raw(bytes);
        assert(self.bytes() =~= old(self).bytes() + counted_bytes(text@));
    }

    /// One atom around a finished body.
    fn atom(&mut self, kind: u32, body: &Builder)
        ensures
            final(self).bytes() == old(self).bytes() + atom_bytes(kind, body.bytes()),
    {
        let size: u32 = ((body.0.len() as u128 + 8) % 0x1_0000_0000) as u32;
        self.u32(size);
        self.u32(kind);
        self.raw(body.0.as_slice());
        reveal(atom_bytes);
        assert(self.bytes() =~= old(self).bytes() + atom_bytes(kind, body.bytes()));
    }

    fn matrix(&mut self, m: &[i32; 9])
        ensures
            final(self).bytes() == old(self).bytes() + matrix_bytes(m@),
    {
        let mut i: usize = 0;
        assert(m@.take(0) =~= Seq::empty());
        assert(self.bytes() =~= old(self).bytes() + matrix_bytes(m@.take(0)));
        while i < 9
            invariant
                i <= 9,
                self.bytes() == old(self).bytes() + matrix_bytes(m@.take(i as int)),
            decreases 9 - i,
        {
            self.i32(m[i]);
            proof {
                assert(m@.take(i + 1).drop_last() =~= m@.take(i as int));
                assert(self.bytes() =~= old(self).bytes() + matrix_bytes(m@.take(i + 1)));
            }
            i = i + 1;
        }
        assert(m@.take(9) =~= m@);
    }
}

/// A duration that has to fit a 32-bit field. Saturating rather than
/// wrapping: an absurd duration should show as "very long", never as
/// "zero-length".
pub fn ticks32(ms: u64) -> (t: u32)
    ensures
        t == sat32(ms as int),
{
    if ms > u32::MAX as u64 {
        u32::MAX
    } else {
        ms as u32
    }
}

/// A sample count in the 32-bit field the format gives it, saturating like
/// [`ticks32`].
pub fn sample_count(n: usize) -> (c: u32)
    ensures
        c == sat32(n as int),
{
    if n as u64 > u32::MAX as u64 {
        u32::MAX
    } else {
        n as u32
    }
}

/// A pixel count in the format's 16-bit field, saturating.
pub fn short(px: u32) -> (s: u16)
    ensures
        s == sat16(px as int),
{
    if px > u16::MAX as u32 {
        u16::MAX
    } else {
        px as u16
    }
}

/// Pixels as QuickTime's 16.16 fixed point, saturating at the 16-bit
/// integer part the format has room for.
pub fn fixed16(px: u32) -> (f: u32)
    ensures
        f == sat16(px as int) * 0x1_0000,
{
    short(px) as u32 * 0x1_0000
}

fn write_mvhd(duration: u32) -> (b: Builder)
    ensures
        b.bytes() == mvhd_body(duration),
{
    let mut b = Builder::new();
    b.full(0, 0);
    b.u32(0);  // creation time: not recorded
    b.u32(0);  // modification time
    b.u32(TIMESCALE);
    b.u32(duration);
    b.u32(0x0001_0000);  // rate 1.0
    b.u16(0x0100);  // volume 1.0 (no audio track, but the field is)
    b.zeros(10);  // reserved
    b.matrix(&display_matrix(1));  // the MOVIE matrix stays identity; the track turns
    b.zeros(24);  // pre_defined
    b.u32(2);  // next track id
    b
}

fn write_tkhd(spec: &TrackSpec, duration: u32) -> (b: Builder)
    ensures
        b.bytes() == tkhd_body(duration, spec.orientation, spec.width, spec.height),
{
    let mut b = Builder::new();
    b.full(0, 3);  // enabled | in movie
    b.u32(0);  // creation time
    b.u32(0);  // modification time
    b.u32(1);  // track id
    b.u32(0);  // reserved
    b.u32(duration);
    b.zeros(8);  // reserved
    b.u16(0);  // layer
    b.u16(0);  // alternate group
    b.u16(0);  // volume: silent, this is video
    b.u16(0);  // reserved
    b.matrix(&display_matrix(spec.orientation));
    b.u32(fixed16(spec.width));
    b.u32(fixed16(spec.height));
    b
}

fn write_mdhd(duration: u32) -> (b: Builder)
    ensures
        b.bytes() == mdhd_body(duration),
{
    let mut b = Builder::new();
    b.full(0, 0);
    b.u32(0);  // creation time
    b.u32(0);  // modification time
    b.u32(TIMESCALE);
    b.u32(duration);
    b.u16(0x7fff);  // language: unspecified
    b.u16(0);  // quality
    b
}

fn write_hdlr(class: u32, subclass: u32, name: &str) -> (b: Builder)
    ensures
        b.bytes() == hdlr_body(class, subclass, name@),
{
    let mut b = Builder::new();
    b.full(0, 0);
    b.u32(class);
    b.u32(subclass);
    b.zeros(12);  // manufacturer, flags, flags mask
    b.counted(name);
    b
}

fn write_vmhd() -> (b: Builder)
    ensures
        b.bytes() == vmhd_body(),
{
    let mut b = Builder::new();
    b.full(0, 1);  // the flag QuickTime requires here
    b.u16(0);  // graphics mode: copy
    b.zeros(6);  // opcolor
    b
}

fn write_dref() -> (b: Builder)
    ensures
        b.bytes() == dref_body(),
{
    let mut ourselves = Builder::new();
    ourselves.full(0, 1);
    let mut b = Builder::new();
    b.full(0, 0);
    b.u32(1);  // one data reference...
    b.atom(TAG_URL, &ourselves);  // ...ourselves
    b
}

fn write_stsd(width: u32, height: u32) -> (b: Builder)
    ensures
        b.bytes() == stsd_body(width, height),
{
    let mut j = Builder::new();
    j.zeros(6);  // reserved
    j.u16(1);  // data reference index
    j.u16(0);  // version
    j.u16(0);  // revision
    j.u32(0);  // vendor
    j.u32(512);  // temporal quality
    j.u32(512);  // spatial quality
    j.u16(short(width));
    j.u16(short(height));
    j.u32(0x0048_0000);  // 72 dpi horizontal
    j.u32(0x0048_0000);  // 72 dpi vertical
    j.u32(0);  // data size
    j.u16(1);  // frames per sample
    j.zeros(32);  // compressor name: none
    j.u16(24);  // depth
    j.u16(0xffff);  // colour table: none (-1)
    let mut b = Builder::new();
    b.full(0, 0);
    b.u32(1);  // one sample description
    b.atom(TAG_JPEG, &j);
    b
}

fn write_stts(n: usize, sample_ms: u32) -> (b: Builder)
    ensures
        b.bytes() == stts_body(n as int, sample_ms),
{
    let mut b = Builder::new();
    b.full(0, 0);
    b.u32(1);  // ONE entry: every frame lasts the same
    b.u32(sample_count(n));
    b.u32(sample_ms);
    b
}

fn write_stsc() -> (b: Builder)
    ensures
        b.bytes() == stsc_body(),
{
    let mut b = Builder::new();
    b.full(0, 0);
    b.u32(1);  // one entry: one sample per chunk...
    b.u32(1);  // ...starting at chunk 1
    b.u32(1);
    b.u32(1);  // sample description index
    b
}

fn write_stsz(sizes: &Vec<u64>) -> (b: Builder)
    ensures
        b.bytes() == stsz_body(sizes@),
{
    let mut b = Builder::new();
    b.full(0, 0);
    b.u32(0);  // 0 = sizes differ, they follow
    b.u32(sample_count(sizes.len()));
    let ghost fixed = b.bytes();
    let mut i: usize = 0;
    assert(sizes@.take(0) =~= Seq::empty());
    assert(b.bytes() =~= fixed + size_rows(sizes@.take(0)));
    while i < sizes.len()
        invariant
            i <= sizes@.len(),
            b.bytes() == fixed + size_rows(sizes@.take(i as int)),
        decreases sizes@.len() - i,
    {
        b.u32(ticks32(sizes[i]));
        proof {
            assert(sizes@.take(i + 1).drop_last() =~= sizes@.take(i as int));
            assert(b.bytes() =~= fixed + size_rows(sizes@.take(i + 1)));
        }
        i = i + 1;
    }
    assert(sizes@.take(i as int) =~= sizes@);
    b
}

fn write_co64(sizes: &Vec<u64>, offsets: &Vec<u64>) -> (b: Builder)
    requires
        offsets@ == offsets_of(sizes@),
    ensures
        b.bytes() == co64_body(sizes@),
{
    let mut b = Builder::new();
    b.full(0, 0);
    b.u32(sample_count(sizes.len()));
    let ghost fixed = b.bytes();
    let mut i: usize = 0;
    assert(offsets@.take(0) =~= Seq::empty());
    assert(b.bytes() =~= fixed + offset_rows(offsets@.take(0)));
    while i < offsets.len()
        invariant
            i <= offsets@.len(),
            b.bytes() == fixed + offset_rows(offsets@.take(i as int)),
        decreases offsets@.len() - i,
    {
        b.u64(offsets[i]);
        proof {
            assert(offsets@.take(i + 1).drop_last() =~= offsets@.take(i as int));
            assert(b.bytes() =~= fixed + offset_rows(offsets@.take(i + 1)));
        }
        i = i + 1;
    }
    assert(offsets@.take(i as int) =~= offsets@);
    b
}

/// Write `ftyp`, the whole `moov`, and the `mdat` header — everything
/// before the first sample — behind what `w` holds. The samples follow back
/// to back, in the order of `spec.sample_sizes`, and the file is complete.
pub fn write_header(w: &mut Vec<u8>, spec: &TrackSpec)
    requires
        spec.fits(),
    ensures
        final(w)@ == old(w)@ + header_bytes(*spec),
{
    let n: usize = spec.sample_sizes.len();
    proof {
        lemma_total_nonneg(spec.sample_sizes@);
    }
    let payload: u64 = spec.sample_bytes();
    let duration: u32 = ticks32(spec.duration_ms());
    let offsets = sample_offsets(spec);
    proof {
        assert forall|i: int| 0 <= i < n implies 0 <= #[trigger] offset_of(spec.sample_sizes@, i)
            <= u64::MAX by {
            lemma_total_prefix(spec.sample_sizes@, i);
        }
        assert(offsets@ =~= offsets_of(spec.sample_sizes@));
    }

    let mut stbl = Builder::new();
    stbl.atom(TAG_STSD, &write_stsd(spec.width, spec.height));
    stbl.atom(TAG_STTS, &write_stts(n, spec.sample_ms));
    stbl.atom(TAG_STSC, &write_stsc());
    stbl.atom(TAG_STSZ, &write_stsz(&spec.sample_sizes));
    stbl.atom(TAG_CO64, &write_co64(&spec.sample_sizes, &offsets));

    let mut dinf = Builder::new();
    dinf.atom(TAG_DREF, &write_dref());

    let mut minf = Builder::new();
    minf.atom(TAG_VMHD, &write_vmhd());
    minf.atom(TAG_HDLR, &write_hdlr(TAG_DHLR, TAG_URL, "DataHandler"));
    minf.atom(TAG_DINF, &dinf);
    minf.atom(TAG_STBL, &stbl);

    let mut mdia = Builder::new();
    mdia.atom(TAG_MDHD, &write_mdhd(duration));
    mdia.atom(TAG_HDLR, &write_hdlr(TAG_MHLR, TAG_VIDE, "VideoHandler"));
    mdia.atom(TAG_MINF, &minf);

    let mut trak = Builder::new();
    trak.atom(TAG_TKHD, &write_tkhd(spec, duration));
    trak.atom(TAG_MDIA, &mdia);

    let mut moov = Builder::new();
    moov.atom(TAG_MVHD, &write_mvhd(duration));
    moov.atom(TAG_TRAK, &trak);

    let mut ftyp = Builder::new();
    ftyp.u32(TAG_QT);  // major brand
    ftyp.u32(0x0000_0200);  // minor version
    ftyp.u32(TAG_QT);  // the one compatible brand

    let mut head = Builder::new();
    if mdat_header_len(payload) == MDAT_LARGE {
        head.u32(1);  // "the real size is 64 bits, after the type"
        head.u32(TAG_MDAT);
        head.u64(payload + MDAT_LARGE);
    } else {
        head.u32((payload + ATOM) as u32);
        head.u32(TAG_MDAT);
    }
    assert(head.bytes() =~= mdat_head(spec.payload()));

    let mut b = Builder::new();
    b.atom(TAG_FTYP, &ftyp);
    b.atom(TAG_MOOV, &moov);
    b.raw(head.0.as_slice());
    w.extend_from_slice(b.0.as_slice());
}

// ------------------------------------------------------------------- reader
/// Why a file is not a movie this reader understands.
///
/// The reader exists to VERIFY, not to play: every export re-parses its own
/// finished file and checks that the index describes exactly the samples
/// that were written. It survives hostile input: nothing is allocated from
/// a count the file claims until the file is known to be long enough to
/// hold that many entries, atom sizes below their own header are rejected,
/// and nesting is depth-limited.
#[derive(Debug)]
pub enum QtError {
    Io(String),
    Malformed(&'static str),
}

/// What a [`QtError`] says.
pub ghost enum Fault {
    Io(Seq<char>),
    Malformed(Seq<char>),
}

impl View for QtError {
    type V = Fault;

    open spec fn view(&self) -> Fault {
        match self {
            QtError::Io(text) => Fault::Io(text@),
            QtError::Malformed(text) => Fault::Malformed(text@),
        }
    }
}

/// A fault in words.
pub open spec fn fault_words(f: Fault) -> Seq<char> {
    match f {
        Fault::Io(t) => "read error: "@ + t,
        Fault::Malformed(t) => "not a QuickTime movie: "@ + t,
    }
}

impl QtError {
    /// The message a report shows.
    pub fn text(&self) -> (s: String)
        ensures
            s@ == fault_words(self@),
    {
        let mut s = String::new();
        match self {
            QtError::Io(t) => {
                s.append("read error: ");
                s.append(t.as_str());
            },
            QtError::Malformed(t) => {
                s.append("not a QuickTime movie: ");
                s.append(t);
            },
        }
        s
    }
}

#[derive(Clone, Copy, Debug, PartialEq, Eq, Structural)]
pub struct Sample {
    pub offset: u64,
    pub size: u64,
}

#[derive(Clone, Debug)]
pub struct Movie {
    pub major_brand: [u8; 4],
    /// The media timescale, in ticks per second.
    pub timescale: u32,
    /// How long each sample is on screen, in media ticks (milliseconds,
    /// at this module's timescale).
    pub sample_ms: u32,
    /// How many entries the time-to-sample table has. One means a
    /// constant frame rate; this module never writes anything else.
    pub stts_entries: usize,
    /// The track's display size from `tkhd` (integer part).
    pub width: u32,
    pub height: u32,
    /// The stored frame size from the sample description.
    pub sample_width: u32,
    pub sample_height: u32,
    /// The `tkhd` display matrix.
    pub matrix: [i32; 9],
    /// The sample description's format — `jpeg` for Motion JPEG.
    pub format: [u8; 4],
    pub samples: Vec<Sample>,
    /// True when the offsets came from `co64` rather than `stco`.
    pub co64: bool,
    /// True when `moov` is ahead of `mdat`, i.e. the file plays while it
    /// is still being copied.
    pub moov_before_mdat: bool,
}

/// The model of a [`Movie`].
pub ghost struct MovieView {
    pub major_brand: Seq<u8>,
    pub timescale: u32,
    pub sample_ms: u32,
    pub stts_entries: int,
    pub width: u32,
    pub height: u32,
    pub sample_width: u32,
    pub sample_height: u32,
    pub matrix: Seq<i32>,
    pub format: Seq<u8>,
    pub samples: Seq<Sample>,
    pub co64: bool,
    pub moov_before_mdat: bool,
}

impl View for Movie {
    type V = MovieView;

    open spec fn view(&self) -> MovieView {
        MovieView {
            major_brand: self.major_brand@,
            timescale: self.timescale,
            sample_ms: self.sample_ms,
            stts_entries: self.stts_entries as int,
            width: self.width,
            height: self.height,
            sample_width: self.sample_width,
            sample_height: self.sample_height,
            matrix: self.matrix@,
            format: self.format@,
            samples: self.samples@,
            co64: self.co64,
            moov_before_mdat: self.moov_before_mdat,
        }
    }
}

/// The biggest `moov` this reader will hold in memory.
pub const MAX_MOOV: u64 = 0x400_0000;

/// How deep atoms may nest before the reader gives up. The layout this
/// module writes is six deep (moov/trak/mdia/minf/stbl/stsd/jpeg).
pub const MAX_DEPTH: usize = 16;

/// Cap on a UNIFORM sample-size table's claimed count — the one table
/// whose length the file does not bound.
pub const MAX_UNIFORM_SAMPLES: usize = 0x100_0000;

/// What the atoms inside a `moov` said.
#[derive(Clone, Debug)]
pub struct Parsed {
    pub timescale: Option<u32>,
    pub sample_delta: Option<u32>,
    pub stts_entries: usize,
    pub width: u32,
    pub height: u32,
    pub sample_width: u32,
    pub sample_height: u32,
    pub matrix: [i32; 9],
    pub format: Option<[u8; 4]>,
    pub sizes: Vec<u64>,
    pub offsets: Vec<u64>,
    /// (first_chunk, samples_per_chunk) rows.
    pub stsc: Vec<(u32, u32)>,
    pub co64: bool,
}

/// The model of [`Parsed`].
#[verifier::ext_equal]
pub ghost struct ParsedView {
    pub timescale: Option<u32>,
    pub sample_delta: Option<u32>,
    pub stts_entries: int,
    pub width: u32,
    pub height: u32,
    pub sample_width: u32,
    pub sample_height: u32,
    pub matrix: Seq<i32>,
    pub format: Option<Seq<u8>>,
    pub sizes: Seq<u64>,
    pub offsets: Seq<u64>,
    pub stsc: Seq<(u32, u32)>,
    pub co64: bool,
}

impl View for Parsed {
    type V = ParsedView;

    open spec fn view(&self) -> ParsedView {
        ParsedView {
            timescale: self.timescale,
            sample_delta: self.sample_delta,
            stts_entries: self.stts_entries as int,
            width: self.width,
            height: self.height,
            sample_width: self.sample_width,
            sample_height: self.sample_height,
            matrix: self.matrix@,
            format: match self.format {
                Some(f) => Some(f@),
                None => None,
            },
            sizes: self.sizes@,
            offsets: self.offsets@,
            stsc: self.stsc@,
            co64: self.co64,
        }
    }
}

/// Nothing read yet.
pub open spec fn blank() -> ParsedView {
    ParsedView {
        timescale: None,
        sample_delta: None,
        stts_entries: 0,
        width: 0,
        height: 0,
        sample_width: 0,
        sample_height: 0,
        matrix: Seq::new(9, |i: int| 0i32),
        format: None,
        sizes: Seq::empty(),
        offsets: Seq::empty(),
        stsc: Seq::empty(),
        co64: false,
    }
}

impl Default for Parsed {
    fn default() -> (p: Parsed)
        ensures
            p@ == blank(),
    {
        let p = Parsed {
            timescale: None,
            sample_delta: None,
            stts_entries: 0,
            width: 0,
            height: 0,
            sample_width: 0,
            sample_height: 0,
            matrix: [0, 0, 0, 0, 0, 0, 0, 0, 0],
            format: None,
            sizes: Vec::new(),
            offsets: Vec::new(),
            stsc: Vec::new(),
            co64: false,
        };
        assert(p@ =~= blank());
        p
    }
}

// --------------------------------------------------- the model of the reader
/// The 16-bit number that stands at `at`.
pub open spec fn be16_at(s: Seq<u8>, at: int) -> u16 {
    (s[at] * 0x100 + s[at + 1]) as u16
}

/// The 32-bit number that stands at `at`.
pub open spec fn be32_at(s: Seq<u8>, at: int) -> u32 {
    (s[at] * 0x100_0000 + s[at + 1] * 0x1_0000 + s[at + 2] * 0x100 + s[at + 3]) as u32
}

/// The 64-bit number that stands at `at`.
pub open spec fn be64_at(s: Seq<u8>, at: int) -> u64 {
    (be32_at(s, at) * 0x1_0000_0000 + be32_at(s, at + 4)) as u64
}

/// What is wrong with reading `width` bytes at `at`, if anything.
pub open spec fn field_fault(s: Seq<u8>, at: int, width: int) -> Option<Fault> {
    if at + width > usize::MAX {
        Some(Fault::Malformed("offset overflow"@))
    } else if at + width > s.len() {
        Some(Fault::Malformed("atom ends mid-field"@))
    } else {
        None
    }
}

/// What a parse leaves: the state after it, and what stopped it.
pub type Step = (ParsedView, Option<Fault>);

pub open spec fn mid_field() -> Option<Fault> {
    Some(Fault::Malformed("atom ends mid-field"@))
}

/// `tkhd`: the display matrix and size. Version 1 has wider time fields in
/// front of them.
pub open spec fn tkhd_read(body: Seq<u8>, out: ParsedView) -> Step {
    let at = if body.len() > 0 && body[0] == 1 {
        52int
    } else {
        40int
    };
    let turned = ParsedView {
        matrix: Seq::new(
            9,
            |i: int|
                if at + 4 * i + 4 <= body.len() {
                    signed(be32_at(body, at + 4 * i))
                } else {
                    out.matrix[i]
                },
        ),
        ..out
    };
    let wide = ParsedView { width: (be32_at(body, at + 36) / 0x1_0000) as u32, ..turned };
    if body.len() == 0 {
        (out, Some(Fault::Malformed("empty tkhd"@)))
    } else if at + 40 > body.len() {
        (turned, mid_field())
    } else if at + 44 > body.len() {
        (wide, mid_field())
    } else {
        (ParsedView { height: (be32_at(body, at + 40) / 0x1_0000) as u32, ..wide }, None)
    }
}

/// `mdhd`: the media timescale.
pub open spec fn mdhd_read(body: Seq<u8>, out: ParsedView) -> Step {
    let at = if body.len() > 0 && body[0] == 1 {
        20int
    } else {
        12int
    };
    if body.len() == 0 {
        (out, Some(Fault::Malformed("empty mdhd"@)))
    } else if at + 4 > body.len() {
        (out, mid_field())
    } else {
        (ParsedView { timescale: Some(be32_at(body, at)), ..out }, None)
    }
}

/// `stsd`: the format and the stored size of the first sample description.
pub open spec fn stsd_read(body: Seq<u8>, out: ParsedView) -> Step {
    let named = ParsedView { format: Some(body.subrange(12, 16)), ..out };
    let wide = ParsedView { sample_width: be16_at(body, 40) as u32, ..named };
    if body.len() < 8 {
        (out, mid_field())
    } else if be32_at(body, 4) == 0 {
        (out, Some(Fault::Malformed("no sample description entries"@)))
    } else if body.len() < 16 {
        (out, Some(Fault::Malformed("sample description ends early"@)))
    } else if body.len() < 42 {
        (named, mid_field())
    } else if body.len() < 44 {
        (wide, mid_field())
    } else {
        (ParsedView { sample_height: be16_at(body, 42) as u32, ..wide }, None)
    }
}

/// Does a table body have room for the entries it claims?
pub open spec fn has_room(body: Seq<u8>, header: int, each: int, claimed: int) -> bool {
    claimed <= (if body.len() > header {
        body.len() - header
    } else {
        0
    }) / each
}

pub open spec fn overclaimed() -> Option<Fault> {
    Some(Fault::Malformed("a sample table claims more entries than it contains"@))
}

/// `stts`: how many entries, and the first one's duration.
pub open spec fn stts_read(body: Seq<u8>, out: ParsedView) -> Step {
    let count = be32_at(body, 4);
    if body.len() < 8 {
        (out, mid_field())
    } else if !has_room(body, 8, 8, count as int) {
        (out, overclaimed())
    } else {
        (
            ParsedView {
                stts_entries: count as int,
                sample_delta: if count > 0 {
                    Some(be32_at(body, 12))
                } else {
                    out.sample_delta
                },
                ..out
            },
            None,
        )
    }
}

/// `stsc`: the sample-to-chunk rows.
pub open spec fn stsc_read(body: Seq<u8>, out: ParsedView) -> Step {
    let count = be32_at(body, 4);
    if body.len() < 8 {
        (out, mid_field())
    } else if !has_room(body, 8, 12, count as int) {
        (out, overclaimed())
    } else {
        (
            ParsedView {
                stsc: Seq::new(
                    count as nat,
                    |i: int| (be32_at(body, 8 + 12 * i), be32_at(body, 12 + 12 * i)),
                ),
                ..out
            },
            None,
        )
    }
}

/// `stsz`: one size for every sample, or a table of them.
pub open spec fn stsz_read(body: Seq<u8>, out: ParsedView) -> Step {
    let uniform = be32_at(body, 4);
    let claimed = be32_at(body, 8);
    if body.len() < 12 {
        (out, mid_field())
    } else if uniform != 0 {
        if claimed > MAX_UNIFORM_SAMPLES {
            (
                out,
                Some(
                    Fault::Malformed(
                        "a uniform sample-size table claims an implausible number of samples"@,
                    ),
                ),
            )
        } else {
            (ParsedView { sizes: Seq::new(claimed as nat, |i: int| uniform as u64), ..out }, None)
        }
    } else if !has_room(body, 12, 4, claimed as int) {
        (out, overclaimed())
    } else {
        (
            ParsedView {
                sizes: Seq::new(claimed as nat, |i: int| be32_at(body, 12 + 4 * i) as u64),
                ..out
            },
            None,
        )
    }
}

/// `stco` and `co64`: the chunk offsets, 4 or 8 bytes each.
pub open spec fn offsets_read(body: Seq<u8>, out: ParsedView, each: int) -> Step {
    let count = be32_at(body, 4);
    if body.len() < 8 {
        (out, mid_field())
    } else if !has_room(body, 8, each, count as int) {
        (out, overclaimed())
    } else {
        (
            ParsedView {
                co64: each == 8,
                offsets: Seq::new(
                    count as nat,
                    |i: int|
                        if each == 8 {
                            be64_at(body, 8 + 8 * i)
                        } else {
                            be32_at(body, 8 + each * i) as u64
                        },
                ),
                ..out
            },
            None,
        )
    }
}

/// Container atoms whose children have to be walked.
pub open spec fn is_container(kind: u32) -> bool {
    kind == TAG_TRAK || kind == TAG_MDIA || kind == TAG_MINF || kind == TAG_STBL || kind == TAG_DINF
        || kind == TAG_EDTS
}

/// What an atom that is no container adds.
pub open spec fn leaf_read(kind: u32, body: Seq<u8>, out: ParsedView) -> Step {
    if kind == TAG_TKHD {
        tkhd_read(body, out)
    } else if kind == TAG_MDHD {
        mdhd_read(body, out)
    } else if kind == TAG_STSD {
        stsd_read(body, out)
    } else if kind == TAG_STTS {
        stts_read(body, out)
    } else if kind == TAG_STSC {
        stsc_read(body, out)
    } else if kind == TAG_STSZ {
        stsz_read(body, out)
    } else if kind == TAG_STCO {
        offsets_read(body, out, 4)
    } else if kind == TAG_CO64 {
        offsets_read(body, out, 8)
    } else {
        (out, None)
    }
}

/// The atoms of a buffer, one after the other, containers walked into.
pub open spec fn walked(buf: Seq<u8>, out: ParsedView, depth: nat) -> Step
    decreases 17 - depth, buf.len(),
{
    if depth > MAX_DEPTH {
        (out, Some(Fault::Malformed("atoms nested too deeply"@)))
    } else if buf.len() < 8 {
        (out, None)
    } else {
        let size = be32_at(buf, 0);
        let kind = be32_at(buf, 4);
        if size < 8 || size > buf.len() {
            (out, Some(Fault::Malformed("child atom size does not fit its parent"@)))
        } else {
            let body = buf.subrange(8, size as int);
            let visited = if is_container(kind) {
                walked(body, out, depth + 1)
            } else {
                leaf_read(kind, body, out)
            };
            if visited.1 is Some {
                visited
            } else {
                walked(buf.skip(size as int), visited.0, depth)
            }
        }
    }
}

/// The sample-to-chunk row that holds for a chunk (chunks count from 1):
/// rows are in force from their first chunk on, read in table order.
pub open spec fn row_for(stsc: Seq<(u32, u32)>, chunk: int, row: int) -> int
    decreases stsc.len() - row,
{
    if 0 <= row && row + 1 < stsc.len() && stsc[row + 1].0 <= chunk {
        row_for(stsc, chunk, row + 1)
    } else {
        row
    }
}

/// `count` samples from `next` on, back to back from `at`.
pub open spec fn chunk_samples(sizes: Seq<u64>, next: int, at: int, count: int) -> Result<
    Seq<Sample>,
    Fault,
>
    decreases count,
{
    if count <= 0 {
        Ok(Seq::empty())
    } else if next < 0 || next >= sizes.len() {
        Err(
            Fault::Malformed(
                "the chunk table describes more samples than the size table"@,
            ),
        )
    } else if at + sizes[next] > u64::MAX {
        Err(Fault::Malformed("sample runs past 2^64"@))
    } else {
        match chunk_samples(sizes, next + 1, at + sizes[next], count - 1) {
            Ok(rest) => Ok(seq![Sample { offset: at as u64, size: sizes[next] }] + rest),
            Err(e) => Err(e),
        }
    }
}

/// The samples of the chunks from `chunk` on (counted from 0), whose first
/// sample is number `next`.
pub open spec fn samples_from(p: ParsedView, chunk: int, next: int) -> Result<Seq<Sample>, Fault>
    decreases p.offsets.len() - chunk,
{
    if chunk < 0 || chunk >= p.offsets.len() {
        Ok(Seq::empty())
    } else {
        let row = p.stsc[row_for(p.stsc, chunk + 1, 0)];
        if row.0 > chunk + 1 {
            Err(Fault::Malformed("sample-to-chunk table starts late"@))
        } else {
            match chunk_samples(p.sizes, next, p.offsets[chunk] as int, row.1 as int) {
                Err(e) => Err(e),
                Ok(here) => match samples_from(p, chunk + 1, next + row.1) {
                    Err(e) => Err(e),
                    Ok(rest) => Ok(here + rest),
                },
            }
        }
    }
}

/// The flat sample list that the four tables describe, in playback order.
pub open spec fn samples_of(p: ParsedView) -> Result<Seq<Sample>, Fault> {
    if p.stsc.len() == 0 || p.offsets.len() == 0 {
        Err(Fault::Malformed("no sample tables"@))
    } else {
        samples_from(p, 0, 0)
    }
}

// ------------------------------------------------------ the reader's steps
/// The outcome of a fallible read, as the model has it.
pub open spec fn result_fault<T>(r: Result<T, QtError>) -> Option<Fault> {
    match r {
        Ok(_) => None,
        Err(e) => Some(e@),
    }
}

pub fn be32(buf: &[u8], at: usize) -> (r: Result<u32, QtError>)
    ensures
        result_fault(r) == field_fault(buf@, at as int, 4),
        r matches Ok(v) ==> v == be32_at(buf@, at as int),
{
    if at > usize::MAX - 4 {
        return Err(QtError::Malformed("offset overflow"));
    }
    if at + 4 > buf.len() {
        return Err(QtError::Malformed("atom ends mid-field"));
    }
    Ok(
        buf[at] as u32 * 0x100_0000 + buf[at + 1] as u32 * 0x1_0000 + buf[at + 2] as u32 * 0x100
            + buf[at + 3] as u32,
    )
}

pub fn be64(buf: &[u8], at: usize) -> (r: Result<u64, QtError>)
    ensures
        result_fault(r) == field_fault(buf@, at as int, 8),
        r matches Ok(v) ==> v == be64_at(buf@, at as int),
{
    if at > usize::MAX - 8 {
        return Err(QtError::Malformed("offset overflow"));
    }
    if at + 8 > buf.len() {
        return Err(QtError::Malformed("atom ends mid-field"));
    }
    let high: u32 = be32(buf, at)?;
    let low: u32 = be32(buf, at + 4)?;
    Ok(high as u64 * 0x1_0000_0000 + low as u64)
}

pub fn be16(buf: &[u8], at: usize) -> (r: Result<u16, QtError>)
    ensures
        result_fault(r) == field_fault(buf@, at as int, 2),
        r matches Ok(v) ==> v == be16_at(buf@, at as int),
{
    if at > usize::MAX - 2 {
        return Err(QtError::Malformed("offset overflow"));
    }
    if at + 2 > buf.len() {
        return Err(QtError::Malformed("atom ends mid-field"));
    }
    Ok(buf[at] as u16 * 0x100 + buf[at + 1] as u16)
}

/// How many entries of `each` bytes a table body can really hold. The
/// count in the file is a claim; this is the fact.
pub fn entry_count(body: &[u8], header: usize, each: usize, claimed: u32) -> (r: Result<
    usize,
    QtError,
>)
    requires
        each > 0,
    ensures
        result_fault(r) == if has_room(body@, header as int, each as int, claimed as int) {
            None
        } else {
            overclaimed()
        },
        r matches Ok(n) ==> n == claimed,
{
    let room: usize = if body.len() > header {
        (body.len() - header) / each
    } else {
        0
    };
    proof {
        assert(0int / (each as int) == 0) by (nonlinear_arith)
            requires
                each > 0,
        ;
    }
    let claimed: usize = claimed as usize;
    if claimed > room {
        return Err(QtError::Malformed("a sample table claims more entries than it contains"));
    }
    Ok(claimed)
}

/// A table with room for its entries holds them all.
proof fn lemma_room(body: Seq<u8>, header: int, each: int, claimed: int)
    requires
        has_room(body, header, each, claimed),
        each > 0,
        claimed > 0,
    ensures
        header + each * claimed <= body.len(),
{
    let room = if body.len() > header {
        body.len() - header
    } else {
        0
    };
    assert(room / each * each <= room && (room > 0 || room / each == 0)) by (nonlinear_arith)
        requires
            each > 0,
            room >= 0,
    ;
    assert(each * claimed <= room / each * each) by (nonlinear_arith)
        requires
            claimed <= room / each,
            each > 0,
    ;
}

fn word_signed(v: u32) -> (s: i32)
    ensures
        s == signed(v),
{
    if v < 0x8000_0000 {
        v as i32
    } else {
        (v as i64 - 0x1_0000_0000) as i32
    }
}

pub fn parse_tkhd(body: &[u8], out: &mut Parsed) -> (r: Result<(), QtError>)
    ensures
        (final(out)@, result_fault(r)) == tkhd_read(body@, old(out)@),
{
    if body.len() == 0 {
        return Err(QtError::Malformed("empty tkhd"));
    }
    let matrix_at: usize = if body[0] == 1 {
        52
    } else {
        40
    };
    let mut i: usize = 0;
    while i < 9
        invariant
            i <= 9,
            body@.len() > 0,
            matrix_at == if body@[0] == 1 {
                52int
            } else {
                40int
            },
            matrix_at + 4 * i <= body@.len() || i == 0,
            out@ =~= (ParsedView {
                matrix: Seq::new(
                    9,
                    |k: int|
                        if k < i {
                            signed(be32_at(body@, matrix_at + 4 * k))
                        } else {
                            old(out)@.matrix[k]
                        },
                ),
                ..old(out)@
            }),
        decreases 9 - i,
    {
        match be32(body, matrix_at + i * 4) {
            Ok(v) => {
                out.matrix[i] = word_signed(v);
            },
            Err(e) => {
                assert(out@ =~= tkhd_read(body@, old(out)@).0);
                return Err(e);
            },
        }
        i = i + 1;
    }
    let ghost turned = out@;
    assert(turned.matrix =~= Seq::new(
        9,
        |k: int|
            if matrix_at + 4 * k + 4 <= body@.len() {
                signed(be32_at(body@, matrix_at + 4 * k))
            } else {
                old(out)@.matrix[k]
            },
    ));
    let w: u32 = be32(body, matrix_at + 36)?;
    out.width = w / 0x1_0000;
    let h: u32 = be32(body, matrix_at + 40)?;
    out.height = h / 0x1_0000;
    Ok(())
}

pub fn parse_mdhd(body: &[u8], out: &mut Parsed) -> (r: Result<(), QtError>)
    ensures
        (final(out)@, result_fault(r)) == mdhd_read(body@, old(out)@),
{
    if body.len() == 0 {
        return Err(QtError::Malformed("empty mdhd"));
    }
    let at: usize = if body[0] == 1 {
        20
    } else {
        12
    };
    let timescale: u32 = be32(body, at)?;
    out.timescale = Some(timescale);
    Ok(())
}

fn four_bytes(body: &[u8], at: usize) -> (b: [u8; 4])
    requires
        at + 4 <= body@.len(),
    ensures
        b@ == body@.subrange(at as int, at + 4),
{
    let b: [u8; 4] = [body[at], body[at + 1], body[at + 2], body[at + 3]];
    assert(b@ =~= body@.subrange(at as int, at + 4));
    b
}

pub fn parse_stsd(body: &[u8], out: &mut Parsed) -> (r: Result<(), QtError>)
    ensures
        (final(out)@, result_fault(r)) == stsd_read(body@, old(out)@),
{
    // full header (4) + entry count (4), then the first entry: size (4),
    // format (4), reserved (6), data reference index (2), and — for a
    // visual entry — 16 more bytes before the stored dimensions.
    let entries: u32 = be32(body, 4)?;
    if entries == 0 {
        return Err(QtError::Malformed("no sample description entries"));
    }
    if body.len() < 16 {
        return Err(QtError::Malformed("sample description ends early"));
    }
    out.format = Some(four_bytes(body, 12));
    let w: u16 = be16(body, 40)?;
    out.sample_width = w as u32;
    let h: u16 = be16(body, 42)?;
    out.sample_height = h as u32;
    Ok(())
}

pub fn parse_stts(body: &[u8], out: &mut Parsed) -> (r: Result<(), QtError>)
    ensures
        (final(out)@, result_fault(r)) == stts_read(body@, old(out)@),
{
    let claimed: u32 = be32(body, 4)?;
    let count: usize = entry_count(body, 8, 8, claimed)?;
    out.stts_entries = count;
    if count > 0 {
        let delta: u32 = be32(body, 12)?;
        out.sample_delta = Some(delta);
    }
    Ok(())
}

pub fn parse_stsc(body: &[u8], out: &mut Parsed) -> (r: Result<(), QtError>)
    ensures
        (final(out)@, result_fault(r)) == stsc_read(body@, old(out)@),
{
    let claimed: u32 = be32(body, 4)?;
    let count: usize = entry_count(body, 8, 12, claimed)?;
    let mut rows: Vec<(u32, u32)> = Vec::new();
    proof {
        if count > 0 {
            lemma_room(body@, 8, 12, count as int);
        }
    }
    let mut i: usize = 0;
    while i < count
        invariant
            i <= count,
            count > 0 ==> 8 + 12 * count <= body.len(),
            rows@ =~= Seq::new(
                i as nat,
                |k: int| (be32_at(body@, 8 + 12 * k), be32_at(body@, 12 + 12 * k)),
            ),
            out@ == old(out)@,
        decreases count - i,
    {
        let at: usize = 8 + i * 12;
        let first: u32 = be32(body, at)?;
        let per_chunk: u32 = be32(body, at + 4)?;
        rows.push((first, per_chunk));
        i = i + 1;
    }
    out.stsc = rows;
    assert(out@ =~= stsc_read(body@, old(out)@).0);
    Ok(())
}

pub fn parse_stsz(body: &[u8], out: &mut Parsed) -> (r: Result<(), QtError>)
    ensures
        (final(out)@, result_fault(r)) == stsz_read(body@, old(out)@),
{
    if body.len() < 8 {
        return Err(QtError::Malformed("atom ends mid-field"));
    }
    let uniform: u32 = be32(body, 4)?;
    let claimed: u32 = be32(body, 8)?;
    let mut sizes: Vec<u64> = Vec::new();
    let mut i: usize = 0;
    if uniform != 0 {
        // Every sample the same size: NO table follows, so the atom's own
        // length says nothing about the count and it has to be bounded by
        // hand.
        if claimed as usize > MAX_UNIFORM_SAMPLES {
            return Err(
                QtError::Malformed(
                    "a uniform sample-size table claims an implausible number of samples",
                ),
            );
        }
        while i < claimed as usize
            invariant
                i <= claimed,
                sizes@ =~= Seq::new(i as nat, |k: int| uniform as u64),
            decreases claimed - i,
        {
            sizes.push(uniform as u64);
            i = i + 1;
        }
    } else {
        let count: usize = entry_count(body, 12, 4, claimed)?;
        while i < count
            invariant
                i <= count,
                count > 0 ==> 12 + 4 * count <= body.len(),
                sizes@ =~= Seq::new(i as nat, |k: int| be32_at(body@, 12 + 4 * k) as u64),
                out@ == old(out)@,
            decreases count - i,
        {
            let size: u32 = be32(body, 12 + i * 4)?;
            sizes.push(size as u64);
            i = i + 1;
        }
    }
    out.sizes = sizes;
    assert(out@ =~= stsz_read(body@, old(out)@).0);
    Ok(())
}

pub fn parse_offsets(body: &[u8], out: &mut Parsed, each: usize) -> (r: Result<(), QtError>)
    requires
        each == 4 || each == 8,
    ensures
        (final(out)@, result_fault(r)) == offsets_read(body@, old(out)@, each as int),
{
    let claimed: u32 = be32(body, 4)?;
    let count: usize = entry_count(body, 8, each, claimed)?;
    let mut offsets: Vec<u64> = Vec::new();
    proof {
        if count > 0 {
            lemma_room(body@, 8, each as int, count as int);
        }
    }
    let mut i: usize = 0;
    while i < count
        invariant
            i <= count,
            each == 4 || each == 8,
            count > 0 ==> 8 + each * count <= body.len(),
            offsets@ =~= Seq::new(
                i as nat,
                |k: int|
                    if each == 8 {
                        be64_at(body@, 8 + 8 * k)
                    } else {
                        be32_at(body@, 8 + each * k) as u64
                    },
            ),
            out@ == old(out)@,
        decreases count - i,
    {
        if each == 8 {
            let at: u64 = be64(body, 8 + i * 8)?;
            offsets.push(at);
        } else {
            let at: u32 = be32(body, 8 + i * 4)?;
            offsets.push(at as u64);
        }
        i = i + 1;
    }
    out.co64 = each == 8;
    out.offsets = offsets;
    assert(out@ =~= offsets_read(body@, old(out)@, each as int).0);
    Ok(())
}

fn container(kind: u32) -> (b: bool)
    ensures
        b == is_container(kind),
{
    kind == TAG_TRAK || kind == TAG_MDIA || kind == TAG_MINF || kind == TAG_STBL || kind == TAG_DINF
        || kind == TAG_EDTS
}

fn parse_leaf(kind: u32, body: &[u8], out: &mut Parsed) -> (r: Result<(), QtError>)
    ensures
        (final(out)@, result_fault(r)) == leaf_read(kind, body@, old(out)@),
{
    if kind == TAG_TKHD {
        parse_tkhd(body, out)
    } else if kind == TAG_MDHD {
        parse_mdhd(body, out)
    } else if kind == TAG_STSD {
        parse_stsd(body, out)
    } else if kind == TAG_STTS {
        parse_stts(body, out)
    } else if kind == TAG_STSC {
        parse_stsc(body, out)
    } else if kind == TAG_STSZ {
        parse_stsz(body, out)
    } else if kind == TAG_STCO {
        parse_offsets(body, out, 4)
    } else if kind == TAG_CO64 {
        parse_offsets(body, out, 8)
    } else {
        Ok(())
    }
}

/// Walk the atoms of a buffer, into the containers among them.
pub fn walk(buf: &[u8], out: &mut Parsed, depth: usize) -> (r: Result<(), QtError>)
    ensures
        (final(out)@, result_fault(r)) == walked(buf@, old(out)@, depth as nat),
    decreases if depth <= 17 {
        17 - depth
    } else {
        0
    },
{
    if depth > MAX_DEPTH {
        return Err(QtError::Malformed("atoms nested too deeply"));
    }
    let mut at: usize = 0;
    assert(buf@.skip(0) =~= buf@);
    while at < buf.len() && 8 <= buf.len() - at
        invariant
            at <= buf@.len(),
            depth <= MAX_DEPTH,
            walked(buf@, old(out)@, depth as nat) == walked(
                buf@.skip(at as int),
                out@,
                depth as nat,
            ),
        decreases buf@.len() - at,
    {
        let ghost rest = buf@.skip(at as int);
        let size: usize = be32(buf, at)? as usize;
        let kind: u32 = be32(buf, at + 4)?;
        assert(size == be32_at(rest, 0));
        assert(kind == be32_at(rest, 4));
        // Inside a moov every atom carries a real 32-bit size; the 0 and 1
        // forms are for top-level boxes and would make this loop spin.
        if size < 8 || size > buf.len() - at {
            return Err(QtError::Malformed("child atom size does not fit its parent"));
        }
        let body = vstd::slice::slice_subrange(buf, at + 8, at + size);
        assert(body@ =~= rest.subrange(8, size as int));
        if container(kind) {
            walk(body, out, depth + 1)?;
        } else {
            parse_leaf(kind, body, out)?;
        }
        at = at + size;
        assert(rest.skip(size as int) =~= buf@.skip(at as int));
    }
    assert(buf@.skip(at as int).len() < 8);
    Ok(())
}

/// A list of samples in front of what follows, unless that failed.
pub open spec fn followed_by(head: Seq<Sample>, rest: Result<Seq<Sample>, Fault>) -> Result<
    Seq<Sample>,
    Fault,
> {
    match rest {
        Ok(tail) => Ok(head + tail),
        Err(e) => Err(e),
    }
}

/// The row in force only moves forward as chunks are counted up.
proof fn lemma_row_forward(stsc: Seq<(u32, u32)>, chunk: int, later: int, row: int)
    requires
        0 <= row < stsc.len(),
        chunk <= later,
    ensures
        row <= row_for(stsc, chunk, row) < stsc.len(),
        row_for(stsc, later, row_for(stsc, chunk, row)) == row_for(stsc, later, row),
    decreases stsc.len() - row,
{
    if row + 1 < stsc.len() && stsc[row + 1].0 <= chunk {
        lemma_row_forward(stsc, chunk, later, row + 1);
    }
}

impl Parsed {
    /// Turn the four tables into a flat sample list, in playback order.
    ///
    /// The general case is a walk over chunks; this module always writes
    /// one sample per chunk, but the reader does the real thing so that a
    /// file written differently is READ correctly rather than silently
    /// mis-verified. The sample-to-chunk table is a RUN-LENGTH list and its
    /// cursor only ever moves forward.
    pub fn build_samples(&self) -> (r: Result<Vec<Sample>, QtError>)
        requires
            self.offsets@.len() <= u32::MAX,
        ensures
            match r {
                Ok(v) => samples_of(self@) == Ok::<Seq<Sample>, Fault>(v@),
                Err(e) => samples_of(self@) == Err::<Seq<Sample>, Fault>(e@),
            },
    {
        if self.stsc.len() == 0 || self.offsets.len() == 0 {
            return Err(QtError::Malformed("no sample tables"));
        }
        let ghost p = self@;
        let mut samples: Vec<Sample> = Vec::new();
        let mut next: usize = 0;  // index into `sizes`
        let mut row: usize = 0;
        let mut chunk_index: usize = 0;
        assert(followed_by(samples@, samples_from(p, 0, 0)) == samples_of(p)) by {
            match samples_from(p, 0, 0) {
                Ok(tail) => assert(samples@ + tail =~= tail),
                Err(_) => {},
            }
        }
        while chunk_index < self.offsets.len()
            invariant
                p == self@,
                p.stsc.len() > 0,
                p.offsets.len() <= u32::MAX,
                chunk_index <= p.offsets.len(),
                next <= p.sizes.len(),
                row < p.stsc.len(),
                forall|later: int|
                    chunk_index <= later ==> #[trigger] row_for(p.stsc, later, 0) == row_for(
                        p.stsc,
                        later,
                        row as int,
                    ),
                followed_by(samples@, samples_from(p, chunk_index as int, next as int))
                    == samples_of(p),
            decreases p.offsets.len() - chunk_index,
        {
            let chunk: u32 = chunk_index as u32 + 1;
            let ghost held = row_for(p.stsc, chunk as int, 0);
            while row < self.stsc.len() - 1 && self.stsc[row + 1].0 <= chunk
                invariant
                    p == self@,
                    row < p.stsc.len(),
                    row_for(p.stsc, chunk as int, row as int) == held,
                    forall|later: int|
                        chunk <= later ==> #[trigger] row_for(p.stsc, later, 0) == row_for(
                            p.stsc,
                            later,
                            row as int,
                        ),
                decreases p.stsc.len() - row,
            {
                row = row + 1;
            }
            assert(row == held);
            let (first, per_chunk) = self.stsc[row];
            if first > chunk {
                return Err(QtError::Malformed("sample-to-chunk table starts late"));
            }
            let mut at: u64 = self.offsets[chunk_index];
            let mut k: u32 = 0;
            let ghost before = samples@;
            let ghost start = next as int;
            let ghost here = chunk_samples(p.sizes, start, at as int, per_chunk as int);
            assert(followed_by(
                Seq::empty(),
                chunk_samples(p.sizes, next as int, at as int, per_chunk - k),
            ) == here) by {
                match here {
                    Ok(tail) => assert(Seq::<Sample>::empty() + tail =~= tail),
                    Err(_) => {},
                }
            }
            assert(samples@.skip(before.len() as int) =~= Seq::empty());
            while k < per_chunk
                invariant
                    p == self@,
                    k <= per_chunk,
                    start + k == next,
                    next <= p.sizes.len(),
                    samples@.len() >= before.len(),
                    samples@.take(before.len() as int) == before,
                    followed_by(
                        samples@.skip(before.len() as int),
                        chunk_samples(p.sizes, next as int, at as int, per_chunk - k),
                    ) == here,
                    here is Err ==> samples_of(p) == Err::<Seq<Sample>, Fault>(here->Err_0),
                decreases per_chunk - k,
            {
                if next >= self.sizes.len() {
                    return Err(
                        QtError::Malformed(
                            "the chunk table describes more samples than the size table",
                        ),
                    );
                }
                let size: u64 = self.sizes[next];
                let ghost had = samples@;
                let ghost sample = Sample { offset: at, size: size };
                samples.push(Sample { offset: at, size });
                assert(samples@.take(before.len() as int) =~= before);
                match at.checked_add(size) {
                    Some(end) => {
                        proof {
                            let rest = chunk_samples(
                                p.sizes,
                                next + 1,
                                end as int,
                                per_chunk - k - 1,
                            );
                            match rest {
                                Ok(tail) => {
                                    assert(had.skip(before.len() as int) + (seq![sample] + tail)
                                        =~= samples@.skip(before.len() as int) + tail);
                                },
                                Err(_) => {},
                            }
                        }
                        at = end;
                    },
                    None => {
                        return Err(QtError::Malformed("sample runs past 2^64"));
                    },
                }
                next = next + 1;
                k = k + 1;
            }
            proof {
                let rest = samples_from(p, chunk_index + 1, next as int);
                assert(here == Ok::<Seq<Sample>, Fault>(samples@.skip(before.len() as int))) by {
                    assert(samples@.skip(before.len() as int) + Seq::<Sample>::empty()
                        =~= samples@.skip(before.len() as int));
                }
                assert(samples@ =~= before + samples@.skip(before.len() as int));
                match rest {
                    Ok(tail) => {
                        assert(before + (samples@.skip(before.len() as int) + tail) =~= samples@
                            + tail);
                    },
                    Err(_) => {},
                }
            }
            chunk_index = chunk_index + 1;
        }
        assert(samples@ + Seq::<Sample>::empty() =~= samples@);
        Ok(samples)
    }
}

// --------------------------------------------------------- the top-level scan
/// What the top-level atoms of a file said.
pub ghost struct TopView {
    pub major_brand: Seq<u8>,
    pub moov: Option<Seq<u8>>,
    pub moov_at: Option<int>,
    pub mdat_at: Option<int>,
}

/// A read that the file ends in the middle of.
pub open spec fn short_read() -> Fault {
    Fault::Io("failed to fill whole buffer"@)
}

/// The top-level atoms from `at` on.
pub open spec fn scanned(file: Seq<u8>, at: int, top: TopView) -> Result<TopView, Fault>
    decreases file.len() - at, 1int,
{
    if at < 0 || at + 8 > file.len() {
        Ok(top)
    } else {
        let short = be32_at(file, at);
        let kind = be32_at(file, at + 4);
        if short == 1 {
            if at + 16 > file.len() {
                Err(short_read())
            } else {
                // The `largesize` form: a 64-bit size follows the type.
                entered(file, at, top, kind, be64_at(file, at + 8) as int, 16)
            }
        } else if short == 0 {
            // "to the end of the file"
            entered(file, at, top, kind, file.len() - at, 8)
        } else {
            entered(file, at, top, kind, short as int, 8)
        }
    }
}

/// One top-level atom of `size` bytes, whose header takes `head` of them,
/// and what follows it.
pub open spec fn entered(
    file: Seq<u8>,
    at: int,
    top: TopView,
    kind: u32,
    size: int,
    head: int,
) -> Result<TopView, Fault>
    decreases file.len() - at, 0int,
{
    if at < 0 || head < 8 || size < head || at + size > file.len() {
        Err(Fault::Malformed("atom size runs past the end of the file"@))
    } else if kind == TAG_FTYP && size >= 12 {
        if at + head + 4 > file.len() {
            Err(short_read())
        } else {
            scanned(
                file,
                at + size,
                TopView { major_brand: file.subrange(at + head, at + head + 4), ..top },
            )
        }
    } else if kind == TAG_MOOV {
        if size - head > MAX_MOOV {
            Err(Fault::Malformed("moov is implausibly large"@))
        } else {
            scanned(
                file,
                at + size,
                TopView {
                    moov: Some(file.subrange(at + head, at + size)),
                    moov_at: Some(at),
                    ..top
                },
            )
        }
    } else if kind == TAG_MDAT {
        scanned(file, at + size, TopView { mdat_at: Some(at), ..top })
    } else {
        scanned(file, at + size, top)
    }
}

/// Before the first atom.
pub open spec fn top_start() -> TopView {
    TopView {
        major_brand: seq![0u8, 0u8, 0u8, 0u8],
        moov: None,
        moov_at: None,
        mdat_at: None,
    }
}

/// The movie that the top-level atoms describe.
pub open spec fn movie_from(top: TopView) -> Result<MovieView, Fault> {
    match top.moov {
        None => Err(Fault::Malformed("no moov"@)),
        Some(moov) => {
            let (m, fault) = walked(moov, blank(), 0);
            if fault is Some {
                Err(fault->0)
            } else {
                match samples_of(m) {
                    Err(e) => Err(e),
                    Ok(samples) => if m.timescale is None {
                        Err(Fault::Malformed("no mdhd"@))
                    } else if m.sample_delta is None {
                        Err(Fault::Malformed("no stts"@))
                    } else if m.format is None {
                        Err(Fault::Malformed("no sample description"@))
                    } else {
                        Ok(
                            MovieView {
                                major_brand: top.major_brand,
                                timescale: m.timescale->0,
                                sample_ms: m.sample_delta->0,
                                stts_entries: m.stts_entries,
                                width: m.width,
                                height: m.height,
                                sample_width: m.sample_width,
                                sample_height: m.sample_height,
                                matrix: m.matrix,
                                format: m.format->0,
                                samples,
                                co64: m.co64,
                                moov_before_mdat: top.moov_at is Some && top.mdat_at is Some
                                    && top.moov_at->0 < top.mdat_at->0,
                            },
                        )
                    },
                }
            }
        },
    }
}

/// The movie that a whole file holds.
pub open spec fn movie_of(file: Seq<u8>) -> Result<MovieView, Fault> {
    match scanned(file, 0, top_start()) {
        Err(e) => Err(e),
        Ok(top) => movie_from(top),
    }
}

/// An offset table has no more rows than its 32-bit count can say.
proof fn lemma_walked_offsets(buf: Seq<u8>, out: ParsedView, depth: nat)
    requires
        out.offsets.len() <= u32::MAX,
    ensures
        walked(buf, out, depth).0.offsets.len() <= u32::MAX,
    decreases 17 - depth, buf.len(),
{
    if depth <= MAX_DEPTH && buf.len() >= 8 {
        let size = be32_at(buf, 0);
        let kind = be32_at(buf, 4);
        if 8 <= size <= buf.len() {
            let body = buf.subrange(8, size as int);
            if is_container(kind) {
                lemma_walked_offsets(body, out, depth + 1);
                lemma_walked_offsets(
                    buf.skip(size as int),
                    walked(body, out, depth + 1).0,
                    depth,
                );
            } else {
                lemma_walked_offsets(
                    buf.skip(size as int),
                    leaf_read(kind, body, out).0,
                    depth,
                );
            }
        }
    }
}

/// Where a [`Scan`] stands inside an atom.
#[derive(Clone, Copy, Debug)]
pub enum Phase {
    /// At an atom's first 8 bytes, or at the end of the file.
    Head,
    /// At the 64-bit size behind an atom's type.
    Large { kind: u32 },
    /// At the body of an `ftyp` of `size` bytes.
    Brand { size: u64, head: u64 },
    /// At the body of a `moov` of `size` bytes.
    Moov { size: u64, head: u64 },
}

/// The top-level walk over a file, without the reads: [`Scan::want`] says
/// which bytes come next, [`Scan::feed`] takes them. The payload is stepped
/// over and never asked for.
#[derive(Debug)]
pub struct Scan {
    end: u64,
    at: u64,
    phase: Phase,
    major_brand: [u8; 4],
    moov: Option<Vec<u8>>,
    moov_at: Option<u64>,
    mdat_at: Option<u64>,
}

impl Scan {
    /// The scan stands inside the file.
    pub closed spec fn wf(&self) -> bool {
        &&& self.at <= self.end
        &&& match self.phase {
            Phase::Head => true,
            Phase::Large { kind } => self.at + 8 <= self.end,
            Phase::Brand { size, head } => {
                &&& head == 8 || head == 16
                &&& head <= size
                &&& size >= 12
                &&& self.at + size <= self.end
            },
            Phase::Moov { size, head } => {
                &&& head == 8 || head == 16
                &&& head <= size
                &&& size - head <= MAX_MOOV
                &&& self.at + size <= self.end
            },
        }
    }

    /// The length of the scanned file.
    pub closed spec fn length(&self) -> int {
        self.end as int
    }

    /// What has been found so far.
    pub closed spec fn top(&self) -> TopView {
        TopView {
            major_brand: self.major_brand@,
            moov: match self.moov {
                Some(m) => Some(m@),
                None => None,
            },
            moov_at: match self.moov_at {
                Some(at) => Some(at as int),
                None => None,
            },
            mdat_at: match self.mdat_at {
                Some(at) => Some(at as int),
                None => None,
            },
        }
    }

    /// What the rest of `file` will add to this scan.
    pub closed spec fn outlook(&self, file: Seq<u8>) -> Result<TopView, Fault> {
        let at = self.at as int;
        match self.phase {
            Phase::Head => scanned(file, at, self.top()),
            Phase::Large { kind } => if at + 16 > file.len() {
                Err(short_read())
            } else {
                entered(file, at, self.top(), kind, be64_at(file, at + 8) as int, 16)
            },
            Phase::Brand { size, head } => entered(
                file,
                at,
                self.top(),
                TAG_FTYP,
                size as int,
                head as int,
            ),
            Phase::Moov { size, head } => entered(
                file,
                at,
                self.top(),
                TAG_MOOV,
                size as int,
                head as int,
            ),
        }
    }

    /// Does this scan still need bytes?
    pub closed spec fn wants(&self) -> bool {
        !(self.phase is Head) || self.at + 8 <= self.end
    }

    /// Where the bytes stand that this scan needs next.
    pub closed spec fn wants_at(&self) -> int {
        match self.phase {
            Phase::Head => self.at as int,
            Phase::Large { kind } => self.at + 8,
            Phase::Brand { size, head } => self.at + head,
            Phase::Moov { size, head } => self.at + head,
        }
    }

    /// How many bytes this scan needs next.
    pub closed spec fn wants_len(&self) -> int {
        match self.phase {
            Phase::Head => 8,
            Phase::Large { kind } => 8,
            Phase::Brand { size, head } => 4,
            Phase::Moov { size, head } => size - head,
        }
    }

    /// Steps that are left at most.
    pub closed spec fn budget(&self) -> int {
        3 * (self.end - self.at) + match self.phase {
            Phase::Head => 2,
            Phase::Large { .. } => 1,
            _ => 0int,
        }
    }

    /// A scan of a file of `end` bytes, at its start.
    pub fn new(end: u64) -> (s: Scan)
        ensures
            s.wf(),
            s.length() == end,
            forall|file: Seq<u8>| #[trigger] s.outlook(file) == scanned(file, 0, top_start()),
    {
        let brand: [u8; 4] = [0, 0, 0, 0];
        assert(brand@ =~= seq![0u8, 0u8, 0u8, 0u8]);
        Scan {
            end,
            at: 0,
            phase: Phase::Head,
            major_brand: brand,
            moov: None,
            moov_at: None,
            mdat_at: None,
        }
    }

    /// The bytes to read next, as an offset and a count; nothing once every
    /// top-level atom has been seen.
    pub fn want(&self) -> (w: Option<(u64, u64)>)
        requires
            self.wf(),
        ensures
            match w {
                Some((offset, len)) => self.wants() && offset == self.wants_at() && len
                    == self.wants_len() && len <= MAX_MOOV,
                None => !self.wants(),
            },
            // Asking past the end is a file that stops short.
            forall|file: Seq<u8>|
                file.len() == self.length() && w is Some && self.wants_at() + self.wants_len()
                    > file.len() ==> #[trigger] self.outlook(file) == Err::<TopView, Fault>(
                    short_read(),
                ),
            // Wanting nothing is being done.
            forall|file: Seq<u8>|
                file.len() == self.length() && w is None ==> #[trigger] self.outlook(file) == Ok::<
                    TopView,
                    Fault,
                >(self.top()),
    {
        match self.phase {
            Phase::Head => {
                if 8 <= self.end - self.at {
                    Some((self.at, 8))
                } else {
                    None
                }
            },
            Phase::Large { kind: _ } => Some((self.at + 8, 8)),
            Phase::Brand { size: _, head } => Some((self.at + head, 4)),
            Phase::Moov { size, head } => Some((self.at + head, size - head)),
        }
    }

    /// One atom's type and size are known: check them, and go to its body
    /// or step over it.
    fn enter(&mut self, kind: u32, size: u64, head: u64) -> (r: Result<(), QtError>)
        requires
            old(self).at + 8 <= old(self).end,
            head == 8 || head == 16,
        ensures
            final(self).end == old(self).end,
            r is Ok ==> final(self).wf() && final(self).budget() <= 3 * (old(self).end
                - old(self).at),
            forall|file: Seq<u8>|
                file.len() == old(self).end ==> match r {
                    Ok(_) => #[trigger] entered(
                        file,
                        old(self).at as int,
                        old(self).top(),
                        kind,
                        size as int,
                        head as int,
                    ) == final(self).outlook(file),
                    Err(e) => entered(
                        file,
                        old(self).at as int,
                        old(self).top(),
                        kind,
                        size as int,
                        head as int,
                    ) == Err::<TopView, Fault>(e@),
                },
    {
        if size < head || size > self.end - self.at {
            return Err(QtError::Malformed("atom size runs past the end of the file"));
        }
        if kind == TAG_FTYP && size >= 12 {
            self.phase = Phase::Brand { size, head };
            return Ok(());
        }
        if kind == TAG_MOOV {
            if size - head > MAX_MOOV {
                return Err(QtError::Malformed("moov is implausibly large"));
            }
            self.phase = Phase::Moov { size, head };
            return Ok(());
        }
        if kind == TAG_MDAT {
            self.mdat_at = Some(self.at);
        }
        self.at = self.at + size;
        self.phase = Phase::Head;
        Ok(())
    }

    /// The first 8 bytes of an atom.
    fn feed_head(&mut self, bytes: &[u8]) -> (r: Result<(), QtError>)
        requires
            old(self).phase is Head,
            old(self).wf(),
            old(self).wants(),
            bytes@.len() == old(self).wants_len(),
            old(self).wants_at() + old(self).wants_len() <= old(self).length(),
        ensures
            final(self).length() == old(self).length(),
            r is Ok ==> final(self).wf() && 0 <= final(self).budget() < old(self).budget(),
            forall|file: Seq<u8>|
                file.len() == old(self).length() && file.subrange(
                    old(self).wants_at(),
                    old(self).wants_at() + old(self).wants_len(),
                ) == bytes@ ==> match r {
                    Ok(_) => #[trigger] old(self).outlook(file) == final(self).outlook(file),
                    Err(e) => old(self).outlook(file) == Err::<TopView, Fault>(e@),
                },
    {
        let ghost before = *self;
        let short: u32 = be32(bytes, 0)?;
        let kind: u32 = be32(bytes, 4)?;
        assert forall|file: Seq<u8>|
            file.len() == before.length() && #[trigger] file.subrange(
                before.at as int,
                before.at + 8,
            ) == bytes@ implies be32_at(file, before.at as int) == short && be32_at(
            file,
            before.at + 4,
        ) == kind by {
            let piece = file.subrange(before.at as int, before.at + 8);
            assert(be32_at(piece, 0) == be32_at(file, before.at as int));
            assert(be32_at(piece, 4) == be32_at(file, before.at + 4));
        }
        if short == 1 {
            self.phase = Phase::Large { kind };
            assert forall|file: Seq<u8>|
                file.len() == before.length() && #[trigger] file.subrange(
                    before.at as int,
                    before.at + 8,
                ) == bytes@ implies before.outlook(file) == self.outlook(file) by {}
            return Ok(());
        }
        let size: u64 = if short == 0 {
            self.end - self.at
        } else {
            short as u64
        };
        assert forall|file: Seq<u8>|
            file.len() == before.length() && #[trigger] file.subrange(
                before.at as int,
                before.at + 8,
            ) == bytes@ implies before.outlook(file) == entered(
            file,
            before.at as int,
            before.top(),
            kind,
            size as int,
            8,
        ) by {}
        self.enter(kind, size, 8)
    }

    /// The 64-bit size of an atom.
    fn feed_large(&mut self, bytes: &[u8], kind: u32) -> (r: Result<(), QtError>)
        requires
            old(self).phase == (Phase::Large { kind }),
            old(self).wf(),
            old(self).wants(),
            bytes@.len() == old(self).wants_len(),
            old(self).wants_at() + old(self).wants_len() <= old(self).length(),
        ensures
            final(self).length() == old(self).length(),
            r is Ok ==> final(self).wf() && 0 <= final(self).budget() < old(self).budget(),
            forall|file: Seq<u8>|
                file.len() == old(self).length() && file.subrange(
                    old(self).wants_at(),
                    old(self).wants_at() + old(self).wants_len(),
                ) == bytes@ ==> match r {
                    Ok(_) => #[trigger] old(self).outlook(file) == final(self).outlook(file),
                    Err(e) => old(self).outlook(file) == Err::<TopView, Fault>(e@),
                },
    {
        let ghost before = *self;
        let size: u64 = be64(bytes, 0)?;
        assert forall|file: Seq<u8>|
            file.len() == before.length() && #[trigger] file.subrange(
                before.at + 8,
                before.at + 8 + 8,
            ) == bytes@ implies be64_at(file, before.at + 8) == size by {
            let piece = file.subrange(before.at + 8, before.at + 8 + 8);
            assert(be32_at(piece, 0) == be32_at(file, before.at + 8));
            assert(be32_at(piece, 4) == be32_at(file, before.at + 8 + 4));
        }
        self.enter(kind, size, 16)
    }

    /// The major brand.
    fn feed_brand(&mut self, bytes: &[u8], size: u64, head: u64) -> (r: Result<(), QtError>)
        requires
            old(self).phase == (Phase::Brand { size, head }),
            old(self).wf(),
            old(self).wants(),
            bytes@.len() == old(self).wants_len(),
            old(self).wants_at() + old(self).wants_len() <= old(self).length(),
        ensures
            final(self).length() == old(self).length(),
            r is Ok ==> final(self).wf() && 0 <= final(self).budget() < old(self).budget(),
            forall|file: Seq<u8>|
                file.len() == old(self).length() && file.subrange(
                    old(self).wants_at(),
                    old(self).wants_at() + old(self).wants_len(),
                ) == bytes@ ==> match r {
                    Ok(_) => #[trigger] old(self).outlook(file) == final(self).outlook(file),
                    Err(e) => old(self).outlook(file) == Err::<TopView, Fault>(e@),
                },
    {
        self.major_brand = four_bytes(bytes, 0);
        assert(bytes@.subrange(0, 4) =~= bytes@);
        self.at = self.at + size;
        self.phase = Phase::Head;
        Ok(())
    }

    /// The whole `moov`.
    fn feed_moov(&mut self, bytes: &[u8], size: u64, head: u64) -> (r: Result<(), QtError>)
        requires
            old(self).phase == (Phase::Moov { size, head }),
            old(self).wf(),
            old(self).wants(),
            bytes@.len() == old(self).wants_len(),
            old(self).wants_at() + old(self).wants_len() <= old(self).length(),
        ensures
            final(self).length() == old(self).length(),
            r is Ok ==> final(self).wf() && 0 <= final(self).budget() < old(self).budget(),
            forall|file: Seq<u8>|
                file.len() == old(self).length() && file.subrange(
                    old(self).wants_at(),
                    old(self).wants_at() + old(self).wants_len(),
                ) == bytes@ ==> match r {
                    Ok(_) => #[trigger] old(self).outlook(file) == final(self).outlook(file),
                    Err(e) => old(self).outlook(file) == Err::<TopView, Fault>(e@),
                },
    {
        let mut moov: Vec<u8> = Vec::new();
        moov.extend_from_slice(bytes);
        assert(moov@ =~= bytes@);
        self.moov = Some(moov);
        self.moov_at = Some(self.at);
        self.at = self.at + size;
        self.phase = Phase::Head;
        Ok(())
    }

    /// Take the bytes that [`Scan::want`] asked for. Whatever the file is: if
    /// these are its bytes, it will turn out as it did before, or the error
    /// says why it fails.
    pub fn feed(&mut self, bytes: &[u8]) -> (r: Result<(), QtError>)
        requires
            old(self).wf(),
            old(self).wants(),
            bytes@.len() == old(self).wants_len(),
            old(self).wants_at() + old(self).wants_len() <= old(self).length(),
        ensures
            final(self).length() == old(self).length(),
            r is Ok ==> final(self).wf() && 0 <= final(self).budget() < old(self).budget(),
            forall|file: Seq<u8>|
                file.len() == old(self).length() && file.subrange(
                    old(self).wants_at(),
                    old(self).wants_at() + old(self).wants_len(),
                ) == bytes@ ==> match r {
                    Ok(_) => #[trigger] old(self).outlook(file) == final(self).outlook(file),
                    Err(e) => old(self).outlook(file) == Err::<TopView, Fault>(e@),
                },
    {
        match self.phase {
            Phase::Head => self.feed_head(bytes),
            Phase::Large { kind } => self.feed_large(bytes, kind),
            Phase::Brand { size, head } => self.feed_brand(bytes, size, head),
            Phase::Moov { size, head } => self.feed_moov(bytes, size, head),
        }
    }

    /// The movie that the atoms seen so far describe.
    pub fn finish(&self) -> (r: Result<Movie, QtError>)
        ensures
            match r {
                Ok(m) => movie_from(self.top()) == Ok::<MovieView, Fault>(m@),
                Err(e) => movie_from(self.top()) == Err::<MovieView, Fault>(e@),
            },
    {
        let moov = match &self.moov {
            Some(m) => m,
            None => {
                return Err(QtError::Malformed("no moov"));
            },
        };
        let mut m = Parsed::default();
        proof {
            lemma_walked_offsets(moov@, m@, 0);
        }
        walk(moov.as_slice(), &mut m, 0)?;
        let samples = m.build_samples()?;
        let timescale: u32 = match m.timescale {
            Some(t) => t,
            None => {
                return Err(QtError::Malformed("no mdhd"));
            },
        };
        let sample_ms: u32 = match m.sample_delta {
            Some(d) => d,
            None => {
                return Err(QtError::Malformed("no stts"));
            },
        };
        let format: [u8; 4] = match m.format {
            Some(f) => f,
            None => {
                return Err(QtError::Malformed("no sample description"));
            },
        };
        let moov_before_mdat: bool = match (self.moov_at, self.mdat_at) {
            (Some(moov_at), Some(mdat_at)) => moov_at < mdat_at,
            _ => false,
        };
        Ok(
            Movie {
                major_brand: self.major_brand,
                timescale,
                sample_ms,
                stts_entries: m.stts_entries,
                width: m.width,
                height: m.height,
                sample_width: m.sample_width,
                sample_height: m.sample_height,
                matrix: m.matrix,
                format,
                samples,
                co64: m.co64,
                moov_before_mdat,
            },
        )
    }
}

/// Parse the header of a QuickTime movie that is held in memory.
pub fn read_movie(file: &[u8]) -> (r: Result<Movie, QtError>)
    ensures
        match r {
            Ok(m) => movie_of(file@) == Ok::<MovieView, Fault>(m@),
            Err(e) => movie_of(file@) == Err::<MovieView, Fault>(e@),
        },
{
    let mut scan = Scan::new(file.len() as u64);
    let ghost whole = scanned(file@, 0, top_start());
    loop
        invariant
            scan.wf(),
            scan.length() == file@.len(),
            scan.outlook(file@) == whole,
            whole == scanned(file@, 0, top_start()),
        ensures
            whole == Ok::<TopView, Fault>(scan.top()),
        decreases scan.budget(),
    {
        match scan.want() {
            None => {
                break;
            },
            Some((offset, len)) => {
                if len > file.len() as u64 || offset > file.len() as u64 - len {
                    return Err(QtError::Io("failed to fill whole buffer".to_string()));
                }
                let piece = vstd::slice::slice_subrange(
                    file,
                    offset as usize,
                    (offset + len) as usize,
                );
                scan.feed(piece)?;
            },
        }
    }
    scan.finish()
}

} // verus!
