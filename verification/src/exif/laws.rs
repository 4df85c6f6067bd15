//! What the capture metadata of an image is read as, said of the characters
//! themselves.
use crate::exif;
use crate::text;
use vstd::prelude::*;

verus! {

/// Subseconds of digits alone are cut to three, or get zeros behind them up to
/// three.
pub proof fn lemma_millis_of_digits(s: Seq<char>)
    requires
        text::all_digits(s),
    ensures
        s.len() >= 3 ==> exif::millis_of(s) == s.take(3),
        s.len() == 2 ==> exif::millis_of(s) == s.push('0'),
        s.len() == 1 ==> exif::millis_of(s) == s.push('0').push('0'),
        s.len() == 0 ==> exif::millis_of(s) == seq!['0', '0', '0'],
{
    lemma_first_of_digits(s, 3);
    let d = exif::first_digits(s, 3);
    if s.len() >= 3 {
        assert(exif::millis_of(s) =~= s.take(3));
    } else {
        assert(d =~= s);
        if s.len() == 2 {
            assert(exif::millis_of(s) =~= s.push('0'));
        } else if s.len() == 1 {
            assert(exif::millis_of(s) =~= s.push('0').push('0'));
        } else {
            assert(exif::millis_of(s) =~= seq!['0', '0', '0']);
        }
    }
}

proof fn lemma_first_of_digits(s: Seq<char>, k: int)
    requires
        text::all_digits(s),
        0 <= k,
    ensures
        exif::first_digits(s, k) == if s.len() >= k {
            s.take(k)
        } else {
            s
        },
    decreases s.len(),
{
    let want = if s.len() >= k {
        s.take(k)
    } else {
        s
    };
    if s.len() > 0 && k > 0 {
        let rest = s.drop_first();
        assert(text::is_digit_char(s[0]));
        assert forall|i: int| 0 <= i < rest.len() implies text::is_digit_char(
            #[trigger] rest[i],
        ) by {
            assert(text::is_digit_char(s[i + 1]));
        }
        lemma_first_of_digits(rest, k - 1);
        assert(exif::first_digits(s, k) =~= want);
    } else {
        assert(exif::first_digits(s, k) =~= want);
    }
}

/// What is no digit is passed over.
pub proof fn lemma_millis_pass_over(a: Seq<char>, c: char, b: Seq<char>)
    requires
        !text::is_digit_char(c),
    ensures
        exif::millis_of(a + seq![c] + b) == exif::millis_of(a + b),
{
    lemma_first_pass_over(a, c, b, 3);
}

proof fn lemma_first_pass_over(a: Seq<char>, c: char, b: Seq<char>, k: int)
    requires
        !text::is_digit_char(c),
    ensures
        exif::first_digits(a + seq![c] + b, k) == exif::first_digits(a + b, k),
    decreases a.len(),
{
    let with = a + seq![c] + b;
    if a.len() > 0 {
        let rest = a.drop_first();
        assert(with.drop_first() =~= rest + seq![c] + b);
        assert((a + b).drop_first() =~= rest + b);
        assert(with[0] == a[0] && (a + b)[0] == a[0]);
        lemma_first_pass_over(rest, c, b, k);
        lemma_first_pass_over(rest, c, b, k - 1);
    } else {
        assert(with.drop_first() =~= b);
        assert(a + b =~= b);
        assert(with[0] == c);
    }
}

/// The key of an image is its capture time, a dot, and the three digits;
/// without a capture time there is none.
pub proof fn lemma_key_of_an_image(e: exif::ExifSummary)
    ensures
        e.capture_time is None <==> e.key() is None,
        e.capture_time is Some ==> e.key() == Some(
            e.capture_time->0@ + "."@ + exif::millis_of(
                match e.subsec {
                    Some(s) => s@,
                    None => Seq::empty(),
                },
            ),
        ),
{
}

/// Texts are the same but for case exactly where every character is the same,
/// or one is the capital of the other among the 26 letters.
pub proof fn lemma_same_but_for_case(a: Seq<char>, b: Seq<char>)
    ensures
        exif::ascii_fold_eq(a, b) <==> a.len() == b.len() && forall|i: int|
            0 <= i < a.len() ==> {
                ||| #[trigger] a[i] == b[i]
                ||| 'A' <= a[i] <= 'Z' && b[i] as int == a[i] as int + 32
                ||| 'A' <= b[i] <= 'Z' && a[i] as int == b[i] as int + 32
            },
{
    assert forall|x: char, y: char| exif::lower(x) == exif::lower(y) <==> {
        ||| x == y
        ||| 'A' <= x <= 'Z' && y as int == x as int + 32
        ||| 'A' <= y <= 'Z' && x as int == y as int + 32
    } by {
        if 'A' <= x <= 'Z' {
            assert(exif::lower(x) as int == x as int + 32);
        }
        if 'A' <= y <= 'Z' {
            assert(exif::lower(y) as int == y as int + 32);
        }
    }
    if exif::ascii_fold_eq(a, b) {
        assert forall|i: int| 0 <= i < a.len() implies {
            ||| #[trigger] a[i] == b[i]
            ||| 'A' <= a[i] <= 'Z' && b[i] as int == a[i] as int + 32
            ||| 'A' <= b[i] <= 'Z' && a[i] as int == b[i] as int + 32
        } by {
            assert(exif::lower(a[i]) == exif::lower(b[i]));
        }
    }
}

/// "Sony" is spelled so however the file spells it; every other maker is left
/// as it is.
pub proof fn lemma_makers(make: Seq<char>)
    ensures
        exif::ascii_fold_eq(make, "sony"@) ==> exif::conventional_make(make) == "Sony"@,
        !exif::ascii_fold_eq(make, "sony"@) ==> exif::conventional_make(make) == make,
{
}

/// A field of nothing but whitespace is absent; any other is kept whole.
pub proof fn lemma_blank_fields_are_absent(s: Seq<char>)
    ensures
        text::all_space(s) ==> exif::non_empty_of(Some(s)) is None,
        !text::all_space(s) ==> exif::non_empty_of(Some(s)) == Some(s),
        exif::non_empty_of(None) is None,
{
}

/// A summary has each field from the tag of that name, and two files that
/// differ in one of them have different summaries; that of a file about which
/// nothing is known has none.
pub proof fn lemma_a_summary_keeps_the_fields(
    f: exif::ExifFields,
    make: Option<Seq<char>>,
    number: Option<u32>,
)
    ensures
        ({
            let s = exif::summary_of(f, make, number);
            &&& s.camera_make == make
            &&& s.camera_model == text::opt_text(f.model)
            &&& s.serial_number == text::opt_text(f.serial)
            &&& s.capture_time == text::opt_text(f.date_time_original)
            &&& s.subsec == text::opt_text(f.subsec_original)
            &&& s.sequence_number == number
            &&& s == exif::empty_summary() <==> make is None && f.model is None && f.serial is None
                && f.date_time_original is None && f.subsec_original is None && number is None
        }),
{
}

} // verus!
