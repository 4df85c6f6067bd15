//! What sort keys promise: `"YYYY:MM:DD HH:MM:SS.mmm"` is fixed-width and
//! zero-padded, so the order of the texts is the order of the instants, and
//! a key can be read back to its instant.
use crate::burst;
use crate::civil;
use crate::exif;
use crate::iptc;
use crate::text;
use vstd::prelude::*;

verus! {

/// A date and a time of day, to the second.
pub ghost struct Stamp {
    pub year: int,
    pub month: int,
    pub day: int,
    pub hour: int,
    pub minute: int,
    pub second: int,
}

/// A number in exactly `w` digits.
pub open spec fn fixed(n: int, w: nat) -> Seq<char>
    decreases w,
{
    if w == 0 {
        Seq::empty()
    } else {
        fixed(n / 10, (w - 1) as nat).push(text::digit(n % 10))
    }
}

impl Stamp {
    /// A real date of four digits, and a real time.
    pub open spec fn wf(self) -> bool {
        &&& 0 <= self.year <= 9999
        &&& civil::is_date(self.year, self.month, self.day)
        &&& 0 <= self.hour < 24
        &&& 0 <= self.minute < 60
        &&& 0 <= self.second < 60
    }

    /// The form in which EXIF has it: `"2021:04:05 17:41:23"`.
    pub open spec fn written(self) -> Seq<char> {
        fixed(self.year, 4) + seq![':'] + fixed(self.month, 2) + seq![':'] + fixed(self.day, 2)
            + seq![' '] + fixed(self.hour, 2) + seq![':'] + fixed(self.minute, 2) + seq![':']
            + fixed(self.second, 2)
    }

    /// The instant, in milliseconds since 1970, with these milliseconds.
    pub open spec fn instant(self, ms: int) -> int {
        burst::clock_ms(
            self.year,
            self.month,
            self.day,
            self.hour,
            self.minute,
            self.second,
            ms,
        )
    }

    /// The sort key of an image taken then.
    pub open spec fn sort_key(self, subsec: Option<Seq<char>>) -> Seq<char> {
        exif::sort_key_of(self.written(), subsec)
    }
}

/// The milliseconds that an EXIF subsecond tag stands for.
pub open spec fn millis(subsec: Option<Seq<char>>) -> Seq<char> {
    exif::millis_of(
        match subsec {
            Some(s) => s,
            None => Seq::empty(),
        },
    )
}

// ------------------------------------------------------------------ digits
proof fn lemma_digit(d: int)
    requires
        0 <= d <= 9,
    ensures
        text::is_digit_char(text::digit(d)),
        text::digit(d) as int - '0' as int == d,
{
}

spec fn power10(w: nat) -> int
    decreases w,
{
    if w == 0 {
        1
    } else {
        10 * power10((w - 1) as nat)
    }
}

proof fn lemma_fixed(n: int, w: nat)
    requires
        0 <= n < power10(w),
    ensures
        fixed(n, w).len() == w,
        text::all_digits(fixed(n, w)),
        text::digits_value(fixed(n, w)) == n,
    decreases w,
{
    if w > 0 {
        lemma_fixed(n / 10, (w - 1) as nat);
        lemma_digit(n % 10);
        let s = fixed(n, w);
        assert(s.drop_last() =~= fixed(n / 10, (w - 1) as nat));
    }
}

proof fn lemma_powers()
    ensures
        power10(2) == 100,
        power10(3) == 1000,
        power10(4) == 10000,
{
    assert(power10(0) == 1);
    assert(power10(1) == 10);
    assert(power10(2) == 100);
    assert(power10(3) == 1000);
    assert(power10(4) == 10000);
}

proof fn lemma_number(s: Seq<char>)
    requires
        s.len() > 0,
        text::all_digits(s),
        0 <= text::digits_value(s) <= i64::MAX,
    ensures
        text::int_of(s) == Some(text::digits_value(s) as i64),
{
    assert(text::is_digit_char(s[0]));
}

// --------------------------------------------------------------- the order
/// The bytes of a text that is all ASCII.
spec fn bytes(s: Seq<char>) -> Seq<u8> {
    Seq::new(s.len(), |i: int| s[i] as u8)
}

spec fn plain_le(a: Seq<char>, b: Seq<char>) -> bool {
    text::bytes_le(bytes(a), bytes(b))
}

proof fn lemma_plain(a: Seq<char>, b: Seq<char>)
    requires
        vstd::utf8::is_ascii_chars(a),
        vstd::utf8::is_ascii_chars(b),
    ensures
        text::text_le(a, b) == plain_le(a, b),
{
    vstd::utf8::is_ascii_chars_encode_utf8(a);
    vstd::utf8::is_ascii_chars_encode_utf8(b);
    assert(vstd::utf8::encode_utf8(a) =~= bytes(a));
    assert(vstd::utf8::encode_utf8(b) =~= bytes(b));
}

proof fn lemma_le_of_joined(a: Seq<u8>, b: Seq<u8>, c: Seq<u8>, d: Seq<u8>)
    requires
        a.len() == b.len(),
    ensures
        text::bytes_le(a + c, b + d) == if a == b {
            text::bytes_le(c, d)
        } else {
            text::bytes_le(a, b)
        },
    decreases a.len(),
{
    if a.len() == 0 {
        assert(a + c =~= c);
        assert(b + d =~= d);
        assert(a =~= b);
    } else if a[0] == b[0] {
        assert((a + c).drop_first() =~= a.drop_first() + c);
        assert((b + d).drop_first() =~= b.drop_first() + d);
        lemma_le_of_joined(a.drop_first(), b.drop_first(), c, d);
        assert(a =~= seq![a[0]] + a.drop_first());
        assert(b =~= seq![b[0]] + b.drop_first());
    }
}

proof fn lemma_digits_order(a: Seq<char>, b: Seq<char>)
    requires
        a.len() == b.len(),
        text::all_digits(a),
        text::all_digits(b),
    ensures
        plain_le(a, b) == (text::digits_value(a) <= text::digits_value(b)),
        (a == b) == (text::digits_value(a) == text::digits_value(b)),
        (bytes(a) == bytes(b)) == (a == b),
    decreases a.len(),
{
    if a.len() == 0 {
        assert(a =~= b);
    } else {
        let fa = a.drop_last();
        let fb = b.drop_last();
        assert forall|i: int| 0 <= i < fa.len() implies text::is_digit_char(#[trigger] fa[i]) by {
            assert(text::is_digit_char(a[i]));
        }
        assert forall|i: int| 0 <= i < fb.len() implies text::is_digit_char(#[trigger] fb[i]) by {
            assert(text::is_digit_char(b[i]));
        }
        lemma_digits_order(fa, fb);
        let la = seq![a.last()];
        let lb = seq![b.last()];
        assert(text::is_digit_char(a.last()) && text::is_digit_char(b.last()));
        assert(bytes(a) =~= bytes(fa) + bytes(la));
        assert(bytes(b) =~= bytes(fb) + bytes(lb));
        lemma_le_of_joined(bytes(fa), bytes(fb), bytes(la), bytes(lb));
        assert(bytes(la).drop_first() =~= Seq::empty());
        assert(bytes(lb).drop_first() =~= Seq::empty());
        assert(text::bytes_le(Seq::<u8>::empty(), Seq::<u8>::empty()));
        assert(text::bytes_le(bytes(la), bytes(lb)) == (a.last() <= b.last()));
        assert(a =~= fa.push(a.last()));
        assert(b =~= fb.push(b.last()));
        assert(bytes(a) == bytes(b) ==> bytes(fa) =~= bytes(a).drop_last() && bytes(fb)
            =~= bytes(b).drop_last() && bytes(a).last() == bytes(b).last());
    }
}

/// Texts that begin with a number of the same width, and go on with the
/// same character, are ordered by the number, and then by the rest.
proof fn lemma_field_order(
    a: Seq<char>,
    b: Seq<char>,
    sep: Seq<char>,
    ra: Seq<char>,
    rb: Seq<char>,
)
    requires
        a.len() == b.len(),
        text::all_digits(a),
        text::all_digits(b),
    ensures
        plain_le(a + sep + ra, b + sep + rb) == if text::digits_value(a) == text::digits_value(b) {
            plain_le(ra, rb)
        } else {
            text::digits_value(a) < text::digits_value(b)
        },
{
    lemma_digits_order(a, b);
    assert(bytes(a + sep + ra) =~= bytes(a) + (bytes(sep) + bytes(ra)));
    assert(bytes(b + sep + rb) =~= bytes(b) + (bytes(sep) + bytes(rb)));
    lemma_le_of_joined(bytes(a), bytes(b), bytes(sep) + bytes(ra), bytes(sep) + bytes(rb));
    lemma_le_of_joined(bytes(sep), bytes(sep), bytes(ra), bytes(rb));
}

/// The key, field by field from the front.
spec fn after_second(ms: Seq<char>, s: Stamp) -> Seq<char> {
    fixed(s.second, 2) + seq!['.'] + ms
}

spec fn after_minute(ms: Seq<char>, s: Stamp) -> Seq<char> {
    fixed(s.minute, 2) + seq![':'] + after_second(ms, s)
}

spec fn after_hour(ms: Seq<char>, s: Stamp) -> Seq<char> {
    fixed(s.hour, 2) + seq![':'] + after_minute(ms, s)
}

spec fn after_day(ms: Seq<char>, s: Stamp) -> Seq<char> {
    fixed(s.day, 2) + seq![' '] + after_hour(ms, s)
}

spec fn after_month(ms: Seq<char>, s: Stamp) -> Seq<char> {
    fixed(s.month, 2) + seq![':'] + after_day(ms, s)
}

spec fn after_year(ms: Seq<char>, s: Stamp) -> Seq<char> {
    fixed(s.year, 4) + seq![':'] + after_month(ms, s)
}

proof fn lemma_fields(s: Stamp)
    requires
        s.wf(),
    ensures
        fixed(s.year, 4).len() == 4,
        fixed(s.month, 2).len() == 2,
        fixed(s.day, 2).len() == 2,
        fixed(s.hour, 2).len() == 2,
        fixed(s.minute, 2).len() == 2,
        fixed(s.second, 2).len() == 2,
        text::all_digits(fixed(s.year, 4)),
        text::all_digits(fixed(s.month, 2)),
        text::all_digits(fixed(s.day, 2)),
        text::all_digits(fixed(s.hour, 2)),
        text::all_digits(fixed(s.minute, 2)),
        text::all_digits(fixed(s.second, 2)),
        text::digits_value(fixed(s.year, 4)) == s.year,
        text::digits_value(fixed(s.month, 2)) == s.month,
        text::digits_value(fixed(s.day, 2)) == s.day,
        text::digits_value(fixed(s.hour, 2)) == s.hour,
        text::digits_value(fixed(s.minute, 2)) == s.minute,
        text::digits_value(fixed(s.second, 2)) == s.second,
{
    lemma_powers();
    lemma_fixed(s.year, 4);
    lemma_fixed(s.month, 2);
    lemma_fixed(s.day, 2);
    lemma_fixed(s.hour, 2);
    lemma_fixed(s.minute, 2);
    lemma_fixed(s.second, 2);
}

proof fn lemma_key_shape(s: Stamp, subsec: Option<Seq<char>>)
    requires
        s.wf(),
    ensures
        s.sort_key(subsec) == after_year(millis(subsec), s),
        s.sort_key(subsec).len() == 23,
        millis(subsec).len() == 3,
        text::all_digits(millis(subsec)),
        vstd::utf8::is_ascii_chars(s.sort_key(subsec)),
{
    lemma_fields(s);
    let ms = millis(subsec);
    exif::lemma_millis_are_three_digits(
        match subsec {
            Some(t) => t,
            None => Seq::empty(),
        },
    );
    assert forall|i: int| 0 <= i < ms.len() implies text::is_digit_char(#[trigger] ms[i]) by {
        assert(exif::is_digit(ms[i]));
    }
    reveal_strlit(".");
    assert("."@ =~= seq!['.']);
    let key = s.sort_key(subsec);
    assert(key =~= after_year(ms, s));
    let (y, mo, d, h, mi, se) = (
        fixed(s.year, 4),
        fixed(s.month, 2),
        fixed(s.day, 2),
        fixed(s.hour, 2),
        fixed(s.minute, 2),
        fixed(s.second, 2),
    );
    assert forall|i: int| 0 <= i < key.len() implies '\0' <= #[trigger] key[i] <= '\u{7f}' by {
        if i < 4 {
            assert(key[i] == y[i] && text::is_digit_char(y[i]));
        } else if 5 <= i < 7 {
            assert(key[i] == mo[i - 5] && text::is_digit_char(mo[i - 5]));
        } else if 8 <= i < 10 {
            assert(key[i] == d[i - 8] && text::is_digit_char(d[i - 8]));
        } else if 11 <= i < 13 {
            assert(key[i] == h[i - 11] && text::is_digit_char(h[i - 11]));
        } else if 14 <= i < 16 {
            assert(key[i] == mi[i - 14] && text::is_digit_char(mi[i - 14]));
        } else if 17 <= i < 19 {
            assert(key[i] == se[i - 17] && text::is_digit_char(se[i - 17]));
        } else if 20 <= i {
            assert(key[i] == ms[i - 20] && text::is_digit_char(ms[i - 20]));
        }
    }
}

/// Earlier in the year, or in an earlier year, is earlier on the clock.
proof fn lemma_dates_in_order(a: Stamp, b: Stamp)
    requires
        a.wf(),
        b.wf(),
        a.year < b.year || (a.year == b.year && (a.month < b.month || (a.month == b.month && a.day
            < b.day))),
    ensures
        civil::days_from_civil(a.year, a.month, a.day) < civil::days_from_civil(
            b.year,
            b.month,
            b.day,
        ),
{
    if a.year < b.year {
        lemma_to_the_end_of_the_year(a.year, a.month, a.day);
        lemma_years_in_order(a.year, b.year);
        if b.month > 1 {
            lemma_months_in_order(b.year, 1, b.month);
        }
    } else if a.month < b.month {
        lemma_months_in_order(a.year, a.month, b.month);
    }
}

proof fn lemma_months_in_order(y: int, m: int, n: int)
    requires
        1 <= m < n <= 12,
    ensures
        civil::days_from_civil(y, m, civil::days_in_month(y, m)) < civil::days_from_civil(y, n, 1),
    decreases n - m,
{
    civil::lemma_days_are_consecutive(y, m, civil::days_in_month(y, m));
    if m + 1 < n {
        lemma_months_in_order(y, m + 1, n);
    }
}

proof fn lemma_to_the_end_of_the_year(y: int, m: int, d: int)
    requires
        civil::is_date(y, m, d),
    ensures
        civil::days_from_civil(y, m, d) <= civil::days_from_civil(y, 12, 31),
{
    if m < 12 {
        lemma_months_in_order(y, m, 12);
    }
}

proof fn lemma_years_in_order(y: int, z: int)
    requires
        y < z,
    ensures
        civil::days_from_civil(y, 12, 31) < civil::days_from_civil(z, 1, 1),
    decreases z - y,
{
    civil::lemma_days_are_consecutive(y, 12, 31);
    if y + 1 < z {
        lemma_years_in_order(y + 1, z);
        lemma_to_the_end_of_the_year(y + 1, 1, 1);
    }
}

/// Lexicographic order of sort keys is chronological order: of two images
/// with a real capture time, the key of one is not after the key of the
/// other exactly where its instant is not.
pub proof fn lemma_keys_order_chronologically(
    a: Stamp,
    sub_a: Option<Seq<char>>,
    b: Stamp,
    sub_b: Option<Seq<char>>,
)
    requires
        a.wf(),
        b.wf(),
    ensures
        text::text_le(a.sort_key(sub_a), b.sort_key(sub_b)) <==> a.instant(
            text::digits_value(millis(sub_a)),
        ) <= b.instant(text::digits_value(millis(sub_b))),
{
    let ma = millis(sub_a);
    let mb = millis(sub_b);
    lemma_key_shape(a, sub_a);
    lemma_key_shape(b, sub_b);
    lemma_plain(a.sort_key(sub_a), b.sort_key(sub_b));
    lemma_fields(a);
    lemma_fields(b);
    lemma_digits_order(ma, mb);
    lemma_field_order(fixed(a.second, 2), fixed(b.second, 2), seq!['.'], ma, mb);
    lemma_field_order(
        fixed(a.minute, 2),
        fixed(b.minute, 2),
        seq![':'],
        after_second(ma, a),
        after_second(mb, b),
    );
    lemma_field_order(
        fixed(a.hour, 2),
        fixed(b.hour, 2),
        seq![':'],
        after_minute(ma, a),
        after_minute(mb, b),
    );
    lemma_field_order(
        fixed(a.day, 2),
        fixed(b.day, 2),
        seq![' '],
        after_hour(ma, a),
        after_hour(mb, b),
    );
    lemma_field_order(
        fixed(a.month, 2),
        fixed(b.month, 2),
        seq![':'],
        after_day(ma, a),
        after_day(mb, b),
    );
    lemma_field_order(
        fixed(a.year, 4),
        fixed(b.year, 4),
        seq![':'],
        after_month(ma, a),
        after_month(mb, b),
    );
    lemma_three_digits(ma);
    lemma_three_digits(mb);
    let same_date = a.year == b.year && a.month == b.month && a.day == b.day;
    if !same_date {
        if a.year < b.year || (a.year == b.year && (a.month < b.month || (a.month == b.month
            && a.day < b.day))) {
            lemma_dates_in_order(a, b);
        } else {
            lemma_dates_in_order(b, a);
        }
    }
}

proof fn lemma_three_digits(s: Seq<char>)
    requires
        s.len() == 3,
        text::all_digits(s),
    ensures
        0 <= text::digits_value(s) <= 999,
{
    let t = s.drop_last();
    let u = t.drop_last();
    assert(u.drop_last() =~= Seq::empty());
    assert(text::is_digit_char(s[0]) && text::is_digit_char(s[1]) && text::is_digit_char(s[2]));
    assert(text::digits_value(u.drop_last()) == 0);
    assert(text::digits_value(u) == s[0] as int - '0' as int);
    assert(text::digits_value(t) == text::digits_value(u) * 10 + (s[1] as int - '0' as int));
}

// ------------------------------------------------------------ reading back
/// Three numbers between colons are those numbers.
proof fn lemma_three_numbers(a: Seq<char>, b: Seq<char>, c: Seq<char>)
    requires
        a.len() > 0,
        b.len() > 0,
        c.len() > 0,
        text::all_digits(a),
        text::all_digits(b),
        text::all_digits(c),
        0 <= text::digits_value(a) <= i64::MAX,
        0 <= text::digits_value(b) <= i64::MAX,
        0 <= text::digits_value(c) <= i64::MAX,
    ensures
        burst::three_numbers(a + seq![':'] + b + seq![':'] + c) == Some(
            (
                text::digits_value(a) as i64,
                text::digits_value(b) as i64,
                text::digits_value(c) as i64,
            ),
        ),
{
    let s = a + seq![':'] + b + seq![':'] + c;
    let r = b + seq![':'] + c;
    lemma_colon_at(a, seq![':'] + b + seq![':'] + c, s);
    assert(s.take(a.len() as int) =~= a);
    assert(s.skip(a.len() as int + 1) =~= r);
    lemma_colon_at(b, seq![':'] + c, r);
    assert(r.take(b.len() as int) =~= b);
    assert(r.skip(b.len() as int + 1) =~= c);
    lemma_colon_at(c, Seq::empty(), c);
    assert(c.take(c.len() as int) =~= c);
    assert(text::piece(s, 0) == Some(a));
    assert(text::piece(r, 0) == Some(b));
    assert(text::piece(c, 0) == Some(c));
    assert(text::piece(s, 1) == text::piece(r, 0));
    assert(text::piece(r, 1) == text::piece(c, 0));
    assert(text::piece(s, 2) == text::piece(r, 1));
    lemma_number(a);
    lemma_number(b);
    lemma_number(c);
}

proof fn lemma_colon_at(a: Seq<char>, rest: Seq<char>, s: Seq<char>)
    requires
        text::all_digits(a),
        s =~= a + rest,
        rest.len() > 0 ==> rest[0] == ':',
    ensures
        text::find(s, ':') == a.len(),
{
    assert forall|i: int| 0 <= i < a.len() implies #[trigger] s[i] != ':' by {
        assert(text::is_digit_char(a[i]));
    }
    if rest.len() > 0 {
        assert(s[a.len() as int] == rest[0]);
    }
    text::lemma_find_is(s, ':', a.len() as int);
}

/// Days of the years that four digits can write.
proof fn lemma_days_range(s: Stamp)
    requires
        s.wf(),
    ensures
        -800_000 <= civil::days_from_civil(s.year, s.month, s.day) <= 3_000_000,
{
    let ya = civil::march_year(s.year, s.month);
    let era = ya / 400;
    let yoe = ya - era * 400;
    assert(-1 <= era <= 24);
    assert(0 <= yoe < 400);
    assert(0 <= civil::month_start(s.month) <= 337) by {
        assert(s.month == 1 || s.month == 2 || s.month == 3 || s.month == 4 || s.month == 5
            || s.month == 6 || s.month == 7 || s.month == 8 || s.month == 9 || s.month == 10
            || s.month == 11 || s.month == 12);
    }
}

/// A sort key can be read back: of an image with a real capture time, it
/// gives the instant to the millisecond.
pub proof fn lemma_key_reads_back(s: Stamp, subsec: Option<Seq<char>>)
    requires
        s.wf(),
    ensures
        burst::reading_of(s.sort_key(subsec)) == burst::KeyReading::At(
            s.instant(text::digits_value(millis(subsec))) as i64,
        ),
        i64::MIN <= s.instant(text::digits_value(millis(subsec))) <= i64::MAX,
{
    let key = s.sort_key(subsec);
    let ms = millis(subsec);
    lemma_key_shape(s, subsec);
    lemma_fields(s);
    lemma_three_digits(ms);
    let (y, mo, d, h, mi, se) = (
        fixed(s.year, 4),
        fixed(s.month, 2),
        fixed(s.day, 2),
        fixed(s.hour, 2),
        fixed(s.minute, 2),
        fixed(s.second, 2),
    );
    // The date ends at the space.
    let date = y + seq![':'] + mo + seq![':'] + d;
    let time = h + seq![':'] + mi + seq![':'] + se + seq!['.'] + ms;
    assert(key =~= date + seq![' '] + time);
    assert forall|i: int| 0 <= i < 10 implies #[trigger] key[i] != ' ' by {
        if i < 4 {
            assert(key[i] == y[i] && text::is_digit_char(y[i]));
        } else if 5 <= i < 7 {
            assert(key[i] == mo[i - 5] && text::is_digit_char(mo[i - 5]));
        } else if 8 <= i < 10 {
            assert(key[i] == d[i - 8] && text::is_digit_char(d[i - 8]));
        }
    }
    text::lemma_find_is(key, ' ', 10);
    assert(key.take(10) =~= date);
    assert(key.skip(11) =~= time);
    // The seconds end at the dot.
    let clock = h + seq![':'] + mi + seq![':'] + se;
    assert forall|i: int| 0 <= i < 8 implies #[trigger] time[i] != '.' by {
        if i < 2 {
            assert(time[i] == h[i] && text::is_digit_char(h[i]));
        } else if 3 <= i < 5 {
            assert(time[i] == mi[i - 3] && text::is_digit_char(mi[i - 3]));
        } else if 6 <= i < 8 {
            assert(time[i] == se[i - 6] && text::is_digit_char(se[i - 6]));
        }
    }
    text::lemma_find_is(time, '.', 8);
    assert(time.take(8) =~= clock);
    assert(time.skip(9) =~= ms);
    lemma_three_numbers(y, mo, d);
    lemma_three_numbers(h, mi, se);
    assert(ms.take(3) =~= ms);
    assert(vstd::utf8::is_ascii_chars(ms)) by {
        assert forall|i: int| 0 <= i < ms.len() implies '\0' <= #[trigger] ms[i] <= '\u{7f}' by {
            assert(text::is_digit_char(ms[i]));
        }
    }
    vstd::utf8::is_ascii_chars_encode_utf8(ms);
    lemma_number(ms);
    assert(vstd::utf8::is_char_boundary(vstd::utf8::encode_utf8(ms), 3)) by {
        vstd::utf8::encode_utf8_valid_utf8(ms);
        vstd::utf8::is_char_boundary_start_end_of_seq(vstd::utf8::encode_utf8(ms));
    }
    lemma_days_range(s);
}

// ------------------------------------------------- modification times
/// The date and the time of day of an instant, in seconds since 1970.
pub open spec fn stamp_of(secs: int) -> Stamp {
    let (year, month, day) = civil::date_of(secs / 86400);
    let sod = secs % 86400;
    Stamp { year, month, day, hour: sod / 3600, minute: sod / 60 % 60, second: sod % 60 }
}

/// The sort key made of a date `YYYY-MM-DD` and a time `HHMMSS`.
pub open spec fn key_from(date: Seq<char>, time: Seq<char>) -> Seq<char> {
    date.subrange(0, 4) + seq![':'] + date.subrange(5, 7) + seq![':'] + date.subrange(8, 10)
        + seq![' '] + time.subrange(0, 2) + seq![':'] + time.subrange(2, 4) + seq![':']
        + time.subrange(4, 6) + seq!['.', '0', '0', '0']
}

proof fn lemma_padded_is_fixed(n: int, w: nat)
    requires
        0 <= n < power10(w),
        w >= 1,
    ensures
        text::zero_padded(text::decimal(n), w as int) == fixed(n, w),
        1 <= text::decimal(n).len() <= w,
    decreases w,
{
    let d = text::decimal(n);
    if w == 1 {
        assert(power10(0) == 1);
        assert(fixed(n, 1) =~= fixed(n / 10, 0).push(text::digit(n)));
        assert(text::zero_padded(d, 1) =~= fixed(n, 1));
    } else {
        lemma_padded_is_fixed(n / 10, (w - 1) as nat);
        if n < 10 {
            assert(text::decimal(n / 10) == seq![text::digit(0)]);
            assert(text::digit(0) == '0');
            assert(text::zero_padded(d, w as int) =~= text::zero_padded(
                text::decimal(n / 10),
                w - 1,
            ).push(text::digit(n)));
        } else {
            assert(text::zero_padded(d, w as int) =~= text::zero_padded(
                text::decimal(n / 10),
                w - 1,
            ).push(text::digit(n % 10)));
        }
    }
}

/// Before the year 10000 a date has four digits for its year.
proof fn lemma_stamp_of(secs: int)
    requires
        0 <= secs < 253_402_300_800,
    ensures
        stamp_of(secs).wf(),
        stamp_of(secs).instant(0) == secs * 1000,
{
    let days = secs / 86400;
    let (y, m, d) = civil::date_of(days);
    civil::lemma_date_of_day(days);
    assert(0 <= days < 2_932_897);
    civil::lemma_year_of_era_range((days + 719468) % 146097);
    assert(0 <= y <= 10000);
    if y == 10000 {
        assert(m <= 2);
        assert(civil::march_year(y, m) == 9999);
        assert(m == 1 || m == 2);
        assert(civil::month_start(m) >= 306);
        assert(civil::days_from_civil(y, m, d) >= 2_932_897);
    }
    let sod = secs % 86400;
    assert(sod == (sod / 3600) * 3600 + (sod / 60 % 60) * 60 + sod % 60);
}

/// A modification time reads back: of the UTC date and time that templates
/// write for it, the sort key says the same instant, in milliseconds. It
/// holds of every second before the year 10000.
pub proof fn lemma_mtime_reads_back(secs: int)
    requires
        0 <= secs < 253_402_300_800,
    ensures
        burst::reading_of(key_from(iptc::utc_date(secs), iptc::utc_time(secs)))
            == burst::KeyReading::At((secs * 1000) as i64),
{
    let s = stamp_of(secs);
    lemma_stamp_of(secs);
    lemma_powers();
    lemma_padded_is_fixed(s.year, 4);
    lemma_padded_is_fixed(s.month, 2);
    lemma_padded_is_fixed(s.day, 2);
    lemma_padded_is_fixed(s.hour, 2);
    lemma_padded_is_fixed(s.minute, 2);
    lemma_padded_is_fixed(s.second, 2);
    lemma_fixed(s.year, 4);
    lemma_fixed(s.month, 2);
    lemma_fixed(s.day, 2);
    lemma_fixed(s.hour, 2);
    lemma_fixed(s.minute, 2);
    lemma_fixed(s.second, 2);
    reveal_strlit("-");
    let date = iptc::utc_date(secs);
    let time = iptc::utc_time(secs);
    assert(date.subrange(0, 4) =~= fixed(s.year, 4));
    assert(date.subrange(5, 7) =~= fixed(s.month, 2));
    assert(date.subrange(8, 10) =~= fixed(s.day, 2));
    assert(time.subrange(0, 2) =~= fixed(s.hour, 2));
    assert(time.subrange(2, 4) =~= fixed(s.minute, 2));
    assert(time.subrange(4, 6) =~= fixed(s.second, 2));
    lemma_key_shape(s, None);
    lemma_no_millis();
    assert(key_from(date, time) =~= s.sort_key(None));
    lemma_key_reads_back(s, None);
}

/// No subseconds are no milliseconds.
proof fn lemma_no_millis()
    ensures
        millis(None) == seq!['0', '0', '0'],
        text::digits_value(millis(None)) == 0,
{
    let z = seq!['0', '0', '0'];
    assert(millis(None) =~= z);
    lemma_powers();
    lemma_fixed(0, 3);
    assert(fixed(0, 0) =~= Seq::empty());
    assert(fixed(0, 1) =~= seq!['0']);
    assert(fixed(0, 2) =~= seq!['0', '0']);
    assert(fixed(0, 3) =~= z);
}

} // verus!
