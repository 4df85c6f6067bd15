//! EXIF summary: the few metadata fields the culling workflow needs.
//!
//! Capture times are kept in EXIF string form (`"YYYY:MM:DD HH:MM:SS"`): the
//! format is fixed-width and zero-padded, so lexicographic order equals
//! chronological order and no calendar math is needed for sorting.
use crate::text;
use vstd::prelude::*;
use vstd::string::*;

pub mod laws;

verus! {

/// Why a file has no summary.
#[derive(Debug)]
pub enum ExifError {
    Open(String),
    Metadata(String),
}

impl ExifError {
    /// The message a report shows.
    pub fn text(&self) -> (s: String)
        ensures
            s@ == match self {
                ExifError::Open(t) => "cannot open RAW file: "@ + t@,
                ExifError::Metadata(t) => "cannot decode RAW metadata: "@ + t@,
            },
    {
        let mut s = String::new();
        match self {
            ExifError::Open(t) => {
                s.append("cannot open RAW file: ");
                s.append(t.as_str());
            },
            ExifError::Metadata(t) => {
                s.append("cannot decode RAW metadata: ");
                s.append(t.as_str());
            },
        }
        s
    }
}

/// Camera identity and capture time of one image.
#[derive(Debug, PartialEq, Eq)]
pub struct ExifSummary {
    pub camera_make: Option<String>,
    pub camera_model: Option<String>,
    pub serial_number: Option<String>,
    /// EXIF `DateTimeOriginal`, e.g. `"2021:04:05 17:41:23"`.
    pub capture_time: Option<String>,
    /// EXIF `SubSecTimeOriginal`: fractional-second digits, e.g. `"57"`.
    pub subsec: Option<String>,
    /// Sony burst sequence: None = tag absent / non-Sony; Some(0) = declared
    /// single (normal drive); Some(n>=1) = 1-based position in a continuous
    /// burst.
    pub sequence_number: Option<u32>,
}

impl Clone for ExifSummary {
    fn clone(&self) -> (s: ExifSummary)
        ensures
            s == *self,
    {
        ExifSummary {
            camera_make: text::copy_opt(&self.camera_make),
            camera_model: text::copy_opt(&self.camera_model),
            serial_number: text::copy_opt(&self.serial_number),
            capture_time: text::copy_opt(&self.capture_time),
            subsec: text::copy_opt(&self.subsec),
            sequence_number: self.sequence_number,
        }
    }
}

impl Default for ExifSummary {
    fn default() -> (s: ExifSummary)
        ensures
            s == (ExifSummary {
                camera_make: None,
                camera_model: None,
                serial_number: None,
                capture_time: None,
                subsec: None,
                sequence_number: None,
            }),
    {
        ExifSummary {
            camera_make: None,
            camera_model: None,
            serial_number: None,
            capture_time: None,
            subsec: None,
            sequence_number: None,
        }
    }
}

pub open spec fn is_digit(c: char) -> bool {
    '0' <= c <= '9'
}

/// The first `k` digits among some characters.
pub open spec fn first_digits(s: Seq<char>, k: int) -> Seq<char>
    decreases s.len(),
{
    if s.len() == 0 || k <= 0 {
        Seq::empty()
    } else if is_digit(s[0]) {
        seq![s[0]] + first_digits(s.drop_first(), k - 1)
    } else {
        first_digits(s.drop_first(), k)
    }
}

/// Subseconds as exactly three digits: the first three there are, zeros
/// behind them.
pub open spec fn millis_of(subsec: Seq<char>) -> Seq<char> {
    let d = first_digits(subsec, 3);
    d + Seq::new((3 - d.len()) as nat, |i: int| '0')
}

/// Capture time plus subseconds normalized to three digits.
pub open spec fn sort_key_of(time: Seq<char>, subsec: Option<Seq<char>>) -> Seq<char> {
    time + "."@ + millis_of(
        match subsec {
            Some(s) => s,
            None => Seq::empty(),
        },
    )
}

proof fn lemma_first_digits_len(s: Seq<char>, k: int)
    requires
        k >= 0,
    ensures
        first_digits(s, k).len() <= k,
        forall|i: int|
            0 <= i < first_digits(s, k).len() ==> is_digit(#[trigger] first_digits(s, k)[i]),
    decreases s.len(),
{
    if s.len() > 0 && k > 0 {
        if is_digit(s[0]) {
            lemma_first_digits_len(s.drop_first(), k - 1);
        } else {
            lemma_first_digits_len(s.drop_first(), k);
        }
    }
}

/// The normalized subseconds are three digits, whatever the tag held.
pub proof fn lemma_millis_are_three_digits(subsec: Seq<char>)
    ensures
        millis_of(subsec).len() == 3,
        forall|i: int| 0 <= i < 3 ==> is_digit(#[trigger] millis_of(subsec)[i]),
{
    lemma_first_digits_len(subsec, 3);
}

impl ExifSummary {
    /// The model of [`ExifSummary::sort_key`].
    pub open spec fn key(&self) -> Option<Seq<char>> {
        match self.capture_time {
            Some(t) => Some(sort_key_of(t@, text::opt_text(self.subsec))),
            None => None,
        }
    }

    /// Chronologically ordered sort key: capture time plus subseconds
    /// normalized to exactly three digits (`"2021:04:05 17:41:23.570"`).
    /// `None` when the image has no capture time.
    pub fn sort_key(&self) -> (k: Option<String>)
        ensures
            text::opt_text(k) == self.key(),
    {
        let time = match &self.capture_time {
            Some(t) => t,
            None => {
                return None;
            },
        };
        let mut key = time.clone();
        key.append(".");
        let ghost head = key@;
        let mut n: usize = 0;
        let ghost sub: Seq<char> = match text::opt_text(self.subsec) {
            Some(s) => s,
            None => Seq::empty(),
        };
        if let Some(subsec) = &self.subsec {
            let chars = text::chars_of(subsec.as_str());
            let mut i: usize = 0;
            assert(chars@.skip(0) =~= chars@);
            assert(Seq::<char>::empty() + first_digits(chars@, 3) =~= first_digits(chars@, 3));
            assert(key@.skip(head.len() as int) =~= Seq::empty());
            while i < chars.len() && n < 3
                invariant
                    i <= chars@.len(),
                    n <= 3,
                    chars@ == sub,
                    key@.len() == head.len() + n,
                    key@.take(head.len() as int) == head,
                    first_digits(sub, 3) == key@.skip(head.len() as int) + first_digits(
                        chars@.skip(i as int),
                        3 - n,
                    ),
                decreases chars@.len() - i,
            {
                let c = chars[i];
                let ghost rest = chars@.skip(i as int);
                let ghost was = key@;
                assert(rest.drop_first() =~= chars@.skip(i + 1));
                if '0' <= c && c <= '9' {
                    key.push(c);
                    n = n + 1;
                    assert(key@.take(head.len() as int) =~= head);
                    assert(was.skip(head.len() as int) + (seq![c] + first_digits(
                        chars@.skip(i + 1),
                        3 - n,
                    )) =~= key@.skip(head.len() as int) + first_digits(
                        chars@.skip(i + 1),
                        3 - n,
                    ));
                }
                i = i + 1;
            }
            assert(first_digits(chars@.skip(i as int), 3 - n) =~= Seq::empty());
            assert(key@.skip(head.len() as int) =~= first_digits(sub, 3));
        }
        assert(key@.skip(head.len() as int) =~= first_digits(sub, 3));
        assert(key@.take(head.len() as int) =~= head);
        let ghost digits = key@.skip(head.len() as int);
        let ghost given = n as int;
        assert(key@ =~= head + digits + Seq::new(0, |i: int| '0'));
        while n < 3
            invariant
                given <= n <= 3,
                key@ == head + digits + Seq::new((n - given) as nat, |i: int| '0'),
            decreases 3 - n,
        {
            key.push('0');
            n = n + 1;
            assert(key@ =~= head + digits + Seq::new((n - given) as nat, |i: int| '0'));
        }
        assert(key@ =~= head + millis_of(sub));
        Some(key)
    }
}

pub open spec fn lower(c: char) -> char {
    if 'A' <= c <= 'Z' {
        ((c as u32 + 32) as u32) as char
    } else {
        c
    }
}

/// ASCII case-insensitive equality.
pub open spec fn ascii_fold_eq(a: Seq<char>, b: Seq<char>) -> bool {
    a.len() == b.len() && forall|i: int| 0 <= i < a.len() ==> lower(#[trigger] a[i]) == lower(b[i])
}

fn lower_char(c: char) -> (l: char)
    ensures
        l == lower(c),
{
    match c {
        'A' => 'a',
        'B' => 'b',
        'C' => 'c',
        'D' => 'd',
        'E' => 'e',
        'F' => 'f',
        'G' => 'g',
        'H' => 'h',
        'I' => 'i',
        'J' => 'j',
        'K' => 'k',
        'L' => 'l',
        'M' => 'm',
        'N' => 'n',
        'O' => 'o',
        'P' => 'p',
        'Q' => 'q',
        'R' => 'r',
        'S' => 's',
        'T' => 't',
        'U' => 'u',
        'V' => 'v',
        'W' => 'w',
        'X' => 'x',
        'Y' => 'y',
        'Z' => 'z',
        _ => c,
    }
}

/// Are these equal but for the case of ASCII letters?
pub fn eq_ignore_ascii_case(a: &str, b: &str) -> (r: bool)
    ensures
        r == ascii_fold_eq(a@, b@),
{
    let x = text::chars_of(a);
    let y = text::chars_of(b);
    if x.len() != y.len() {
        return false;
    }
    let mut i: usize = 0;
    while i < x.len()
        invariant
            i <= x@.len(),
            x@.len() == y@.len(),
            x@ == a@,
            y@ == b@,
            forall|j: int| 0 <= j < i ==> lower(#[trigger] x@[j]) == lower(y@[j]),
        decreases x@.len() - i,
    {
        if lower_char(x[i]) != lower_char(y[i]) {
            return false;
        }
        i = i + 1;
    }
    true
}

/// Vendor-name normalization: the all-caps IFD spelling becomes the
/// conventional one. Unknown makes pass through untouched.
pub fn normalize_make(make: &str) -> (s: String)
    ensures
        s@ == conventional_make(make@),
{
    if eq_ignore_ascii_case(make, "sony") {
        "Sony".to_string()
    } else {
        make.to_string()
    }
}

// ------------------------------------------------------------- the summary
/// The fields that a walk over one file's EXIF tables found.
#[derive(Debug, Clone, PartialEq, Eq)]
pub struct ExifFields {
    pub make: Option<String>,
    pub model: Option<String>,
    pub serial: Option<String>,
    pub date_time_original: Option<String>,
    pub subsec_original: Option<String>,
}

/// The fields that a RAW decoder gave.
#[derive(Debug, Clone, PartialEq, Eq)]
pub struct DecodedFields {
    pub make: String,
    pub model: String,
    pub serial_number: Option<String>,
    pub date_time_original: Option<String>,
    pub sub_sec_time_original: Option<String>,
}

/// What was read from one file.
#[derive(Debug)]
pub enum Extracted {
    /// The file could not be opened.
    CannotOpen(String),
    /// A JPEG: the fields of its APP1 block, where it has a sound one.
    Jpeg(Option<ExifFields>),
    /// A TIFF-shaped RAW, with the burst sequence of its maker note.
    Tiff(ExifFields, Option<u32>),
    /// Another container, which no decoder takes.
    CannotDecode(String),
    /// Another container, and what its decoder gave.
    Decoded(DecodedFields),
}

/// The model of an [`ExifSummary`].
pub ghost struct SummaryView {
    pub camera_make: Option<Seq<char>>,
    pub camera_model: Option<Seq<char>>,
    pub serial_number: Option<Seq<char>>,
    pub capture_time: Option<Seq<char>>,
    pub subsec: Option<Seq<char>>,
    pub sequence_number: Option<u32>,
}

impl View for ExifSummary {
    type V = SummaryView;

    open spec fn view(&self) -> SummaryView {
        SummaryView {
            camera_make: text::opt_text(self.camera_make),
            camera_model: text::opt_text(self.camera_model),
            serial_number: text::opt_text(self.serial_number),
            capture_time: text::opt_text(self.capture_time),
            subsec: text::opt_text(self.subsec),
            sequence_number: self.sequence_number,
        }
    }
}

/// A maker's name in its conventional spelling.
pub open spec fn conventional_make(make: Seq<char>) -> Seq<char> {
    if ascii_fold_eq(make, "sony"@) {
        "Sony"@
    } else {
        make
    }
}

/// A text, where it is more than white space.
pub open spec fn non_empty_of(s: Option<Seq<char>>) -> Option<Seq<char>> {
    match s {
        Some(t) => if text::is_blank(t) {
            None
        } else {
            Some(t)
        },
        None => None,
    }
}

/// The summary of what the EXIF tables held.
pub open spec fn summary_of(f: ExifFields, make: Option<Seq<char>>, seq: Option<u32>) -> SummaryView {
    SummaryView {
        camera_make: make,
        camera_model: text::opt_text(f.model),
        serial_number: text::opt_text(f.serial),
        capture_time: text::opt_text(f.date_time_original),
        subsec: text::opt_text(f.subsec_original),
        sequence_number: seq,
    }
}

/// The summary of a file about which nothing is known.
pub open spec fn empty_summary() -> SummaryView {
    SummaryView {
        camera_make: None,
        camera_model: None,
        serial_number: None,
        capture_time: None,
        subsec: None,
        sequence_number: None,
    }
}

fn non_empty(s: Option<String>) -> (r: Option<String>)
    ensures
        text::opt_text(r) == non_empty_of(text::opt_text(s)),
{
    match s {
        Some(t) => if text::blank(t.as_str()) {
            None
        } else {
            Some(t)
        },
        None => None,
    }
}

/// The EXIF summary of one file, from what was read of it: of a RAW, or of
/// a bare JPEG.
///
/// An absent or unsound APP1 block degrades to an empty summary (no capture
/// time → filename-order sort). The maker of a TIFF-shaped RAW gets its
/// conventional spelling; what a decoder leaves blank is absent.
pub fn read_exif_summary(found: Extracted) -> (r: Result<ExifSummary, ExifError>)
    ensures
        match found {
            Extracted::CannotOpen(e) => r is Err && r->Err_0 == ExifError::Open(e),
            Extracted::CannotDecode(e) => r is Err && r->Err_0 == ExifError::Metadata(e),
            Extracted::Jpeg(None) => r is Ok && r->Ok_0@ == empty_summary(),
            Extracted::Jpeg(Some(f)) => r is Ok && r->Ok_0@ == summary_of(
                f,
                text::opt_text(f.make),
                None,
            ),
            Extracted::Tiff(f, seq) => r is Ok && r->Ok_0@ == summary_of(
                f,
                match f.make {
                    Some(m) => Some(conventional_make(m@)),
                    None => None,
                },
                seq,
            ),
            Extracted::Decoded(d) => r is Ok && r->Ok_0@ == (SummaryView {
                camera_make: non_empty_of(Some(d.make@)),
                camera_model: non_empty_of(Some(d.model@)),
                serial_number: non_empty_of(text::opt_text(d.serial_number)),
                capture_time: non_empty_of(text::opt_text(d.date_time_original)),
                subsec: non_empty_of(text::opt_text(d.sub_sec_time_original)),
                sequence_number: None,
            }),
        },
{
    match found {
        Extracted::CannotOpen(e) => Err(ExifError::Open(e)),
        Extracted::CannotDecode(e) => Err(ExifError::Metadata(e)),
        Extracted::Jpeg(fields) => match fields {
            None => Ok(ExifSummary::default()),
            Some(f) => Ok(
                ExifSummary {
                    camera_make: f.make,
                    camera_model: f.model,
                    serial_number: f.serial,
                    capture_time: f.date_time_original,
                    subsec: f.subsec_original,
                    sequence_number: None,
                },
            ),
        },
        Extracted::Tiff(f, sequence_number) => {
            let camera_make = match &f.make {
                Some(m) => Some(normalize_make(m.as_str())),
                None => None,
            };
            Ok(
                ExifSummary {
                    camera_make,
                    camera_model: f.model,
                    serial_number: f.serial,
                    capture_time: f.date_time_original,
                    subsec: f.subsec_original,
                    sequence_number,
                },
            )
        },
        Extracted::Decoded(d) => Ok(
            ExifSummary {
                camera_make: non_empty(Some(d.make)),
                camera_model: non_empty(Some(d.model)),
                serial_number: non_empty(d.serial_number),
                capture_time: non_empty(d.date_time_original),
                subsec: non_empty(d.sub_sec_time_original),
                sequence_number: None,
            },
        ),
    }
}

} // verus!
