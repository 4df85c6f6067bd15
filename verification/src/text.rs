//! Text as the rest of the library needs it: a string as its characters,
//! the byte order of names, decimal numbers.
use vstd::prelude::*;
use vstd::string::*;

verus! {

/// `String::push` of std: the character is appended to the end of the
/// string, which is otherwise unchanged.
pub assume_specification[ String::push ](s: &mut String, c: char)
    ensures
        final(s)@ == old(s)@.push(c),
;

/// The characters of a string.
pub fn chars_of(s: &str) -> (v: Vec<char>)
    ensures
        v@ == s@,
{
    let mut v: Vec<char> = Vec::new();
    for c in it: s.chars()
        invariant
            v@ == it.seq().take(it.index() as int),
            it.seq() == s@,
    {
        v.push(c);
        assert(v@ =~= it.seq().take(it.index() + 1));
    }
    assert(v@ =~= s@);
    v
}

/// The string of some characters.
pub fn string_of(v: &Vec<char>) -> (s: String)
    ensures
        s@ == v@,
{
    let mut s = String::new();
    let mut i: usize = 0;
    while i < v.len()
        invariant
            i <= v@.len(),
            s@ == v@.take(i as int),
        decreases v@.len() - i,
    {
        s.push(v[i]);
        i = i + 1;
        assert(s@ =~= v@.take(i as int));
    }
    assert(s@ =~= v@);
    s
}

/// Some of the characters of a string, as a string.
pub fn slice_of(v: &Vec<char>, from: usize, to: usize) -> (s: String)
    requires
        from <= to <= v@.len(),
    ensures
        s@ == v@.subrange(from as int, to as int),
{
    let mut s = String::new();
    let mut i: usize = from;
    while i < to
        invariant
            from <= i <= to <= v@.len(),
            s@ == v@.subrange(from as int, i as int),
        decreases to - i,
    {
        s.push(v[i]);
        i = i + 1;
        assert(s@ =~= v@.subrange(from as int, i as int));
    }
    s
}

// ------------------------------------------------------------ plain values
/// The text of an optional string.
pub open spec fn opt_text(s: Option<String>) -> Option<Seq<char>> {
    match s {
        Some(t) => Some(t@),
        None => None,
    }
}

/// A copy of an optional string.
pub fn copy_opt(s: &Option<String>) -> (r: Option<String>)
    ensures
        r == *s,
{
    match s {
        Some(t) => Some(t.clone()),
        None => None,
    }
}

/// The texts of some strings.
pub open spec fn texts(v: Seq<String>) -> Seq<Seq<char>> {
    Seq::new(v.len(), |i: int| v[i]@)
}

/// Copies of some strings.
pub fn copy_strings(v: &Vec<String>) -> (r: Vec<String>)
    ensures
        texts(r@) == texts(v@),
{
    let mut r: Vec<String> = Vec::new();
    let mut i: usize = 0;
    while i < v.len()
        invariant
            i <= v@.len(),
            r@.len() == i,
            forall|j: int| 0 <= j < i ==> (#[trigger] r@[j])@ == v@[j]@,
        decreases v@.len() - i,
    {
        r.push(v[i].clone());
        i = i + 1;
    }
    assert(texts(r@) =~= texts(v@));
    r
}

// ------------------------------------------------------------ the byte order
/// Lexicographic order of byte strings: "not after".
pub open spec fn bytes_le(a: Seq<u8>, b: Seq<u8>) -> bool
    decreases a.len(),
{
    if a.len() == 0 {
        true
    } else if b.len() == 0 {
        false
    } else if a[0] != b[0] {
        a[0] < b[0]
    } else {
        bytes_le(a.drop_first(), b.drop_first())
    }
}

/// The order of strings: that of their UTF-8 bytes.
pub open spec fn text_le(a: Seq<char>, b: Seq<char>) -> bool {
    bytes_le(vstd::utf8::encode_utf8(a), vstd::utf8::encode_utf8(b))
}

pub proof fn lemma_bytes_le_total(a: Seq<u8>, b: Seq<u8>)
    ensures
        bytes_le(a, b) || bytes_le(b, a),
    decreases a.len(),
{
    if a.len() > 0 && b.len() > 0 && a[0] == b[0] {
        lemma_bytes_le_total(a.drop_first(), b.drop_first());
    }
}

pub proof fn lemma_bytes_le_trans(a: Seq<u8>, b: Seq<u8>, c: Seq<u8>)
    requires
        bytes_le(a, b),
        bytes_le(b, c),
    ensures
        bytes_le(a, c),
    decreases a.len(),
{
    if a.len() > 0 && b.len() > 0 && c.len() > 0 && a[0] == b[0] && b[0] == c[0] {
        lemma_bytes_le_trans(a.drop_first(), b.drop_first(), c.drop_first());
    }
}

pub proof fn lemma_bytes_le_antisym(a: Seq<u8>, b: Seq<u8>)
    requires
        bytes_le(a, b),
        bytes_le(b, a),
    ensures
        a == b,
    decreases a.len(),
{
    if a.len() > 0 && b.len() > 0 {
        lemma_bytes_le_antisym(a.drop_first(), b.drop_first());
        assert(a =~= seq![a[0]] + a.drop_first());
        assert(b =~= seq![b[0]] + b.drop_first());
    } else {
        assert(a =~= b);
    }
}

/// The order of strings is total, transitive, and equal only for the same
/// text.
pub proof fn lemma_text_le(a: Seq<char>, b: Seq<char>, c: Seq<char>)
    ensures
        text_le(a, b) || text_le(b, a),
        text_le(a, b) && text_le(b, c) ==> text_le(a, c),
        text_le(a, b) && text_le(b, a) ==> a == b,
{
    let (x, y, z) = (
        vstd::utf8::encode_utf8(a),
        vstd::utf8::encode_utf8(b),
        vstd::utf8::encode_utf8(c),
    );
    lemma_bytes_le_total(x, y);
    if bytes_le(x, y) && bytes_le(y, z) {
        lemma_bytes_le_trans(x, y, z);
    }
    if bytes_le(x, y) && bytes_le(y, x) {
        lemma_bytes_le_antisym(x, y);
        lemma_encoding_is_injective(a, b);
    }
}

pub proof fn lemma_encoding_is_injective(a: Seq<char>, b: Seq<char>)
    requires
        vstd::utf8::encode_utf8(a) == vstd::utf8::encode_utf8(b),
    ensures
        a == b,
{
    vstd::utf8::encode_utf8_decode_utf8(a);
    vstd::utf8::encode_utf8_decode_utf8(b);
}

proof fn lemma_first_byte_decides(x: Seq<u8>, y: Seq<u8>, k: int)
    requires
        0 <= k <= x.len(),
        k <= y.len(),
        forall|i: int| 0 <= i < k ==> #[trigger] x[i] == y[i],
        k == x.len() || k == y.len() || x[k] != y[k],
    ensures
        bytes_le(x, y) == (k == x.len() || (k < y.len() && x[k] < y[k])),
    decreases k,
{
    if k > 0 {
        let (a, b) = (x.drop_first(), y.drop_first());
        assert(x[0] == y[0]);
        assert forall|i: int| 0 <= i < k - 1 implies #[trigger] a[i] == b[i] by {
            assert(x[i + 1] == y[i + 1]);
        }
        lemma_first_byte_decides(a, b, k - 1);
    }
}

/// The first byte in which two texts differ decides their order, and a text
/// stands before all that it begins.
pub proof fn lemma_first_difference_decides(a: Seq<char>, b: Seq<char>, k: int)
    requires
        ({
            let (x, y) = (vstd::utf8::encode_utf8(a), vstd::utf8::encode_utf8(b));
            &&& 0 <= k <= x.len()
            &&& k <= y.len()
            &&& forall|i: int| 0 <= i < k ==> #[trigger] x[i] == y[i]
            &&& k == x.len() || k == y.len() || x[k] != y[k]
        }),
    ensures
        ({
            let (x, y) = (vstd::utf8::encode_utf8(a), vstd::utf8::encode_utf8(b));
            text_le(a, b) <==> k == x.len() || (k < y.len() && x[k] < y[k])
        }),
{
    lemma_first_byte_decides(vstd::utf8::encode_utf8(a), vstd::utf8::encode_utf8(b), k);
}

/// Is `a` not after `b` in the order of strings?
pub fn not_after(a: &str, b: &str) -> (r: bool)
    ensures
        r == text_le(a@, b@),
{
    let x = a.as_bytes();
    let y = b.as_bytes();
    let mut i: usize = 0;
    assert(x@.skip(0) =~= x@);
    assert(y@.skip(0) =~= y@);
    while i < x.len() && i < y.len() && x[i] == y[i]
        invariant
            i <= x@.len(),
            i <= y@.len(),
            bytes_le(x@, y@) == bytes_le(x@.skip(i as int), y@.skip(i as int)),
        decreases x@.len() - i,
    {
        assert(x@.skip(i as int).drop_first() =~= x@.skip(i + 1));
        assert(y@.skip(i as int).drop_first() =~= y@.skip(i + 1));
        i = i + 1;
    }
    if i == x.len() {
        true
    } else if i == y.len() {
        false
    } else {
        x[i] < y[i]
    }
}

/// Are these the same text?
pub fn same(a: &str, b: &str) -> (r: bool)
    ensures
        r == (a@ == b@),
{
    let x = a.as_bytes();
    let y = b.as_bytes();
    if x.len() != y.len() {
        return false;
    }
    let mut i: usize = 0;
    while i < x.len()
        invariant
            i <= x@.len(),
            x@.len() == y@.len(),
            x@ == vstd::utf8::encode_utf8(a@),
            y@ == vstd::utf8::encode_utf8(b@),
            x@.take(i as int) == y@.take(i as int),
        decreases x@.len() - i,
    {
        if x[i] != y[i] {
            return false;
        }
        assert(x@.take(i + 1) =~= x@.take(i as int).push(x@[i as int]));
        assert(y@.take(i + 1) =~= y@.take(i as int).push(y@[i as int]));
        i = i + 1;
    }
    assert(x@ =~= x@.take(i as int));
    assert(y@ =~= y@.take(i as int));
    proof {
        lemma_encoding_is_injective(a@, b@);
    }
    true
}

// --------------------------------------------------------------- decimals
/// The character of a digit.
pub open spec fn digit(d: int) -> char {
    if d == 0 {
        '0'
    } else if d == 1 {
        '1'
    } else if d == 2 {
        '2'
    } else if d == 3 {
        '3'
    } else if d == 4 {
        '4'
    } else if d == 5 {
        '5'
    } else if d == 6 {
        '6'
    } else if d == 7 {
        '7'
    } else if d == 8 {
        '8'
    } else {
        '9'
    }
}

pub fn digit_char(d: u8) -> (c: char)
    requires
        d <= 9,
    ensures
        c == digit(d as int),
{
    match d {
        0 => '0',
        1 => '1',
        2 => '2',
        3 => '3',
        4 => '4',
        5 => '5',
        6 => '6',
        7 => '7',
        8 => '8',
        _ => '9',
    }
}

/// A number in decimal, without leading zeros.
pub open spec fn decimal(n: int) -> Seq<char>
    decreases n,
{
    if n < 10 {
        seq![digit(n)]
    } else {
        decimal(n / 10).push(digit(n % 10))
    }
}

/// A number in decimal.
pub fn decimal_of(n: u64) -> (s: String)
    ensures
        s@ == decimal(n as int),
    decreases n,
{
    if n < 10 {
        let mut s = String::new();
        s.push(digit_char(n as u8));
        assert(s@ =~= decimal(n as int));
        s
    } else {
        let mut s = decimal_of(n / 10);
        s.push(digit_char((n % 10) as u8));
        s
    }
}

/// A text with zeros in front, up to a width.
pub open spec fn zero_padded(s: Seq<char>, width: int) -> Seq<char> {
    Seq::new(
        if width > s.len() {
            (width - s.len()) as nat
        } else {
            0
        },
        |i: int| '0',
    ) + s
}

/// A number in decimal, with zeros in front up to a width.
pub fn padded_decimal(n: u64, width: usize) -> (s: String)
    ensures
        s@ == zero_padded(decimal(n as int), width as int),
{
    let digits = decimal_of(n);
    let len: usize = digits.as_str().unicode_len();
    let mut s = String::new();
    let mut i: usize = 0;
    let zeros: usize = if width > len {
        width - len
    } else {
        0
    };
    while i < zeros
        invariant
            i <= zeros,
            s@ == Seq::new(i as nat, |j: int| '0'),
        decreases zeros - i,
    {
        s.push('0');
        i = i + 1;
        assert(s@ =~= Seq::new(i as nat, |j: int| '0'));
    }
    s.append(digits.as_str());
    s
}

/// A signed number in decimal.
pub open spec fn signed_decimal(n: int) -> Seq<char> {
    if n < 0 {
        seq!['-'] + decimal(-n)
    } else {
        decimal(n)
    }
}

/// A signed number in decimal.
pub fn signed_decimal_of(n: i64) -> (s: String)
    ensures
        s@ == signed_decimal(n as int),
{
    if n < 0 {
        let mut s = String::new();
        s.push('-');
        let size: u64 = (-(n as i128)) as u64;
        s.append(decimal_of(size).as_str());
        assert(s@ =~= signed_decimal(n as int));
        s
    } else {
        decimal_of(n as u64)
    }
}

// ------------------------------------------------------- pieces and numbers
/// The position of the first `c`, or the length where there is none.
pub open spec fn find(s: Seq<char>, c: char) -> int
    decreases s.len(),
{
    if s.len() == 0 {
        0
    } else if s[0] == c {
        0
    } else {
        1 + find(s.drop_first(), c)
    }
}

pub proof fn lemma_find(s: Seq<char>, c: char)
    ensures
        0 <= find(s, c) <= s.len(),
        forall|i: int| 0 <= i < find(s, c) ==> #[trigger] s[i] != c,
        find(s, c) < s.len() ==> s[find(s, c)] == c,
    decreases s.len(),
{
    if s.len() > 0 && s[0] != c {
        let rest = s.drop_first();
        lemma_find(rest, c);
        assert forall|i: int| 0 <= i < find(s, c) implies #[trigger] s[i] != c by {
            if i > 0 {
                assert(rest[i - 1] == s[i]);
            }
        }
    }
}

/// A position with nothing like it in front is the first.
pub proof fn lemma_find_is(s: Seq<char>, c: char, k: int)
    requires
        0 <= k <= s.len(),
        forall|i: int| 0 <= i < k ==> #[trigger] s[i] != c,
        k < s.len() ==> s[k] == c,
    ensures
        find(s, c) == k,
{
    lemma_find(s, c);
    let f = find(s, c);
    if f < k {
        assert(s[f] == c);
    }
    if k < f {
        assert(s[k] == c);
    }
}

/// A text cut at the first `c`: what stands before it, and what stands
/// behind it where there is one.
pub fn cut(v: &Vec<char>, c: char) -> (r: (Vec<char>, Option<Vec<char>>))
    ensures
        r.0@ == v@.take(find(v@, c)),
        match r.1 {
            Some(rest) => find(v@, c) < v@.len() && rest@ == v@.skip(find(v@, c) + 1),
            None => find(v@, c) == v@.len(),
        },
{
    let mut head: Vec<char> = Vec::new();
    let mut i: usize = 0;
    while i < v.len() && v[i] != c
        invariant
            i <= v@.len(),
            head@ == v@.take(i as int),
            forall|j: int| 0 <= j < i ==> #[trigger] v@[j] != c,
        decreases v@.len() - i,
    {
        head.push(v[i]);
        i = i + 1;
        assert(head@ =~= v@.take(i as int));
    }
    proof {
        lemma_find_is(v@, c, i as int);
    }
    if i == v.len() {
        return (head, None);
    }
    let mut rest: Vec<char> = Vec::new();
    let ghost f = i as int;
    let mut j: usize = i + 1;
    while j < v.len()
        invariant
            0 <= f,
            f + 1 <= j <= v@.len(),
            rest@ == v@.subrange(f + 1, j as int),
        decreases v@.len() - j,
    {
        rest.push(v[j]);
        j = j + 1;
        assert(rest@ =~= v@.subrange(f + 1, j as int));
    }
    assert(rest@ =~= v@.skip(f + 1));
    (head, Some(rest))
}

/// The `k`-th piece between colons.
pub open spec fn piece(s: Seq<char>, k: nat) -> Option<Seq<char>>
    decreases k,
{
    let i = find(s, ':');
    if k == 0 {
        Some(s.take(i))
    } else if i >= s.len() {
        None
    } else {
        piece(s.skip(i + 1), (k - 1) as nat)
    }
}

pub open spec fn is_digit_char(c: char) -> bool {
    '0' <= c <= '9'
}

pub open spec fn all_digits(s: Seq<char>) -> bool {
    forall|i: int| 0 <= i < s.len() ==> is_digit_char(#[trigger] s[i])
}

/// The number that some digits spell.
pub open spec fn digits_value(s: Seq<char>) -> int
    decreases s.len(),
{
    if s.len() == 0 {
        0
    } else {
        digits_value(s.drop_last()) * 10 + (s.last() as int - '0' as int)
    }
}

/// The digits of a signed number, without the sign.
pub open spec fn unsigned_part(s: Seq<char>) -> Seq<char> {
    if s.len() > 0 && (s[0] == '-' || s[0] == '+') {
        s.skip(1)
    } else {
        s
    }
}

/// The number that a text spells: an optional sign and at least one digit,
/// within 64 bits.
pub open spec fn int_of(s: Seq<char>) -> Option<i64> {
    let body = unsigned_part(s);
    let n = if s.len() > 0 && s[0] == '-' {
        -digits_value(body)
    } else {
        digits_value(body)
    };
    if body.len() > 0 && all_digits(body) && i64::MIN <= n <= i64::MAX {
        Some(n as i64)
    } else {
        None
    }
}

proof fn lemma_value_grows(s: Seq<char>, k: int)
    requires
        all_digits(s),
        0 <= k <= s.len(),
    ensures
        0 <= digits_value(s.take(k)) <= digits_value(s),
        k < s.len() ==> digits_value(s.take(k + 1)) == digits_value(s.take(k)) * 10 + (s[k] as int
            - '0' as int),
    decreases s.len() - k,
{
    if k < s.len() {
        lemma_value_grows(s, k + 1);
        assert(s.take(k + 1).drop_last() =~= s.take(k));
        lemma_value_nonneg(s.take(k));
        assert(is_digit_char(s[k]));
    } else {
        assert(s.take(k) =~= s);
        lemma_value_nonneg(s);
    }
}

proof fn lemma_value_nonneg(s: Seq<char>)
    requires
        all_digits(s),
    ensures
        0 <= digits_value(s),
    decreases s.len(),
{
    if s.len() > 0 {
        lemma_value_nonneg(s.drop_last());
        assert(is_digit_char(s.last()));
    }
}

/// Read a signed 64-bit number.
pub fn parse_i64(v: &Vec<char>) -> (r: Option<i64>)
    ensures
        r == int_of(v@),
{
    let negative: bool = v.len() > 0 && v[0] == '-';
    let start: usize = if v.len() > 0 && (v[0] == '-' || v[0] == '+') {
        1
    } else {
        0
    };
    let ghost body = unsigned_part(v@);
    assert(body =~= v@.skip(start as int));
    if v.len() == start {
        return None;
    }
    // First the shape, then the value: a long number is still a number.
    let mut i: usize = start;
    while i < v.len()
        invariant
            start <= i <= v@.len(),
            body == v@.skip(start as int),
            body == unsigned_part(v@),
            forall|j: int| 0 <= j < i - start ==> is_digit_char(#[trigger] body[j]),
        decreases v@.len() - i,
    {
        if !('0' <= v[i] && v[i] <= '9') {
            assert(!is_digit_char(body[i - start]));
            return None;
        }
        i = i + 1;
    }
    let mut acc: i128 = 0;
    let mut k: usize = start;
    assert(body.take(0) =~= Seq::empty());
    while k < v.len()
        invariant
            start <= k <= v@.len(),
            v@.len() > start,
            body == v@.skip(start as int),
            body == unsigned_part(v@),
            all_digits(body),
            negative == (v@[0] == '-'),
            0 <= acc <= 0x8000_0000_0000_0000,
            acc == digits_value(body.take(k - start)),
        decreases v@.len() - k,
    {
        let d: i128 = v[k] as u32 as i128 - '0' as u32 as i128;
        proof {
            lemma_value_grows(body, k - start);
            lemma_value_grows(body, k - start + 1);
            assert(is_digit_char(body[k - start]));
        }
        acc = acc * 10 + d;
        if acc > 0x8000_0000_0000_0000 {
            return None;
        }
        k = k + 1;
    }
    assert(body.take(k - start) =~= body);
    let n: i128 = if negative {
        -acc
    } else {
        acc
    };
    if n > 0x7fff_ffff_ffff_ffff {
        return None;
    }
    Some(n as i64)
}

// ------------------------------------------------------------- whitespace
/// The characters with the Unicode property `White_Space`.
pub open spec fn is_space(c: char) -> bool {
    let n = c as u32;
    ||| 0x09 <= n <= 0x0d
    ||| n == 0x20
    ||| n == 0x85
    ||| n == 0xa0
    ||| n == 0x1680
    ||| 0x2000 <= n <= 0x200a
    ||| n == 0x2028
    ||| n == 0x2029
    ||| n == 0x202f
    ||| n == 0x205f
    ||| n == 0x3000
}

pub fn space(c: char) -> (b: bool)
    ensures
        b == is_space(c),
{
    let n: u32 = c as u32;
    (0x09 <= n && n <= 0x0d) || n == 0x20 || n == 0x85 || n == 0xa0 || n == 0x1680 || (0x2000 <= n
        && n <= 0x200a) || n == 0x2028 || n == 0x2029 || n == 0x202f || n == 0x205f || n == 0x3000
}

/// A text without the whitespace at its start.
pub open spec fn trim_start(s: Seq<char>) -> Seq<char>
    decreases s.len(),
{
    if s.len() > 0 && is_space(s[0]) {
        trim_start(s.drop_first())
    } else {
        s
    }
}

/// A text without the whitespace at its end.
pub open spec fn trim_end(s: Seq<char>) -> Seq<char>
    decreases s.len(),
{
    if s.len() > 0 && is_space(s.last()) {
        trim_end(s.drop_last())
    } else {
        s
    }
}

/// A text without the whitespace around it.
pub open spec fn trimmed(s: Seq<char>) -> Seq<char> {
    trim_end(trim_start(s))
}

/// Nothing but whitespace.
pub open spec fn is_blank(s: Seq<char>) -> bool {
    forall|i: int| 0 <= i < s.len() ==> is_space(#[trigger] s[i])
}

/// A text is blank exactly when nothing is left of it after trimming.
pub proof fn lemma_blank_is_trimmed_away(s: Seq<char>)
    ensures
        is_blank(s) <==> trimmed(s).len() == 0,
{
    lemma_trim_start(s);
    lemma_trim_end(trim_start(s));
    let t = trim_start(s);
    if trimmed(s).len() == 0 {
        if t.len() > 0 {
            assert(!is_space(t[0]));
        }
    }
}

proof fn lemma_trim_start(s: Seq<char>)
    ensures
        trim_start(s).len() == 0 <==> is_blank(s),
        trim_start(s).len() > 0 ==> !is_space(trim_start(s)[0]),
    decreases s.len(),
{
    if s.len() > 0 && is_space(s[0]) {
        let rest = s.drop_first();
        lemma_trim_start(rest);
        if is_blank(rest) {
            assert forall|i: int| 0 <= i < s.len() implies is_space(#[trigger] s[i]) by {
                if i > 0 {
                    assert(rest[i - 1] == s[i]);
                }
            }
        }
        if is_blank(s) {
            assert forall|i: int| 0 <= i < rest.len() implies is_space(#[trigger] rest[i]) by {
                assert(rest[i] == s[i + 1]);
            }
        }
    } else if s.len() > 0 {
        assert(!is_blank(s));
    }
}

proof fn lemma_trim_end(s: Seq<char>)
    ensures
        trim_end(s).len() == 0 ==> is_blank(s),
    decreases s.len(),
{
    if s.len() > 0 && is_space(s.last()) {
        let rest = s.drop_last();
        lemma_trim_end(rest);
        if trim_end(s).len() == 0 {
            assert forall|i: int| 0 <= i < s.len() implies is_space(#[trigger] s[i]) by {
                if i < rest.len() {
                    assert(rest[i] == s[i]);
                }
            }
        }
    }
}

/// Is this nothing but whitespace?
pub fn blank(s: &str) -> (b: bool)
    ensures
        b == is_blank(s@),
{
    let v = chars_of(s);
    let mut i: usize = 0;
    while i < v.len()
        invariant
            i <= v@.len(),
            v@ == s@,
            forall|j: int| 0 <= j < i ==> is_space(#[trigger] v@[j]),
        decreases v@.len() - i,
    {
        if !space(v[i]) {
            return false;
        }
        i = i + 1;
    }
    true
}

/// The characters of a text, without the whitespace around it.
pub fn trimmed_chars(v: &Vec<char>) -> (t: Vec<char>)
    ensures
        t@ == trimmed(v@),
{
    let mut from: usize = 0;
    assert(v@.skip(0) =~= v@);
    while from < v.len() && space(v[from])
        invariant
            from <= v@.len(),
            trim_start(v@) == trim_start(v@.skip(from as int)),
        decreases v@.len() - from,
    {
        assert(v@.skip(from as int).drop_first() =~= v@.skip(from + 1));
        from = from + 1;
    }
    let ghost t = trim_start(v@);
    assert(t =~= v@.skip(from as int));
    let mut to: usize = v.len();
    assert(v@.subrange(from as int, to as int) =~= t);
    while to > from && space(v[to - 1])
        invariant
            from <= to <= v@.len(),
            trim_end(t) == trim_end(v@.subrange(from as int, to as int)),
        decreases to,
    {
        let ghost part = v@.subrange(from as int, to as int);
        assert(part.drop_last() =~= v@.subrange(from as int, to - 1));
        assert(part.last() == v@[to - 1]);
        to = to - 1;
    }
    let ghost part = v@.subrange(from as int, to as int);
    assert(part.len() > 0 ==> part.last() == v@[to - 1]);
    let mut out: Vec<char> = Vec::new();
    let mut i: usize = from;
    while i < to
        invariant
            from <= i <= to <= v@.len(),
            out@ == v@.subrange(from as int, i as int),
        decreases to - i,
    {
        out.push(v[i]);
        i = i + 1;
        assert(out@ =~= v@.subrange(from as int, i as int));
    }
    out
}

/// A text with every stretch of whitespace made one blank, and none around
/// it.
pub open spec fn squeezed(s: Seq<char>) -> Seq<char>
    decreases s.len(),
{
    if s.len() == 0 {
        Seq::empty()
    } else {
        let front = squeezed(s.drop_last());
        if is_space(s.last()) {
            front
        } else if front.len() > 0 && is_space(s[s.len() - 2]) {
            front.push(' ').push(s.last())
        } else {
            front.push(s.last())
        }
    }
}

/// A text with every stretch of whitespace made one blank, and none around
/// it.
pub fn squeeze(s: &str) -> (r: String)
    ensures
        r@ == squeezed(s@),
{
    let v = chars_of(s);
    let mut out = String::new();
    let mut empty: bool = true;
    let mut i: usize = 0;
    assert(v@.take(0) =~= Seq::empty());
    while i < v.len()
        invariant
            i <= v@.len(),
            v@ == s@,
            out@ == squeezed(v@.take(i as int)),
            empty == (out@.len() == 0),
        decreases v@.len() - i,
    {
        let c = v[i];
        let ghost t = v@.take(i + 1);
        assert(t.drop_last() =~= v@.take(i as int));
        assert(t.last() == c);
        if !space(c) {
            if !empty && i > 0 && space(v[i - 1]) {
                out.push(' ');
            }
            proof {
                if i == 0 {
                    assert(v@.take(0) =~= Seq::empty());
                } else {
                    assert(t[t.len() - 2] == v@[i - 1]);
                }
            }
            out.push(c);
            empty = false;
        }
        i = i + 1;
    }
    assert(v@.take(i as int) =~= v@);
    out
}

// -------------------------------------------------------------- file names
/// The position of the last `c`, or -1 where there is none.
pub open spec fn rfind(s: Seq<char>, c: char) -> int
    decreases s.len(),
{
    if s.len() == 0 {
        -1
    } else if s.last() == c {
        s.len() - 1
    } else {
        rfind(s.drop_last(), c)
    }
}

proof fn lemma_rfind_range(s: Seq<char>, c: char)
    ensures
        -1 <= rfind(s, c) < s.len(),
    decreases s.len(),
{
    if s.len() > 0 && s.last() != c {
        lemma_rfind_range(s.drop_last(), c);
    }
}

/// A file name without its extension. A name that is all extension keeps
/// its whole self.
pub open spec fn stem_of(name: Seq<char>) -> Seq<char> {
    if rfind(name, '.') > 0 {
        name.take(rfind(name, '.'))
    } else {
        name
    }
}

/// The extension of a file name.
pub open spec fn ext_of(name: Seq<char>) -> Option<Seq<char>> {
    if rfind(name, '.') > 0 {
        Some(name.skip(rfind(name, '.') + 1))
    } else {
        None
    }
}

/// A file name, cut into its stem and its extension.
pub fn split_name(name: &str) -> (r: (String, Option<String>))
    ensures
        r.0@ == stem_of(name@),
        match r.1 {
            Some(e) => ext_of(name@) == Some(e@),
            None => ext_of(name@) is None,
        },
{
    let v = chars_of(name);
    let mut i: usize = v.len();
    assert(v@.take(i as int) =~= v@);
    while i > 0 && v[i - 1] != '.'
        invariant
            i <= v@.len(),
            v@ == name@,
            rfind(v@, '.') == rfind(v@.take(i as int), '.'),
        decreases i,
    {
        let ghost t = v@.take(i as int);
        assert(t.drop_last() =~= v@.take(i - 1));
        assert(t.last() == v@[i - 1]);
        i = i - 1;
    }
    proof {
        if i > 0 {
            assert(v@.take(i as int).last() == '.');
            assert(rfind(v@, '.') == i - 1);
        } else {
            assert(v@.take(0).len() == 0);
        }
    }
    if i <= 1 {
        return (name.to_string(), None);
    }
    let stem = slice_of(&v, 0, i - 1);
    let ext = slice_of(&v, i, v.len());
    assert(stem@ =~= v@.take(i - 1));
    assert(ext@ =~= v@.skip(i as int));
    (stem, Some(ext))
}

// -------------------------------------------------------------------- laws
/// What stands behind the last dot of a name is its extension, and what
/// stands before it is the stem; a dot at the very front counts for nothing.
pub proof fn lemma_last_dot(stem: Seq<char>, ext: Seq<char>)
    requires
        !ext.contains('.'),
    ensures
        stem.len() > 0 ==> stem_of(stem + seq!['.'] + ext) == stem && ext_of(
            stem + seq!['.'] + ext,
        ) == Some(ext),
        stem.len() == 0 ==> stem_of(stem + seq!['.'] + ext) == stem + seq!['.'] + ext && ext_of(
            stem + seq!['.'] + ext,
        ) is None,
        rfind(stem + seq!['.'] + ext, '.') == stem.len(),
    decreases ext.len(),
{
    let name = stem + seq!['.'] + ext;
    if ext.len() == 0 {
        assert(name.last() == '.');
    } else {
        let less = ext.drop_last();
        assert(ext.contains(ext.last()));
        assert(!less.contains('.')) by {
            if less.contains('.') {
                let i = choose|i: int| 0 <= i < less.len() && less[i] == '.';
                assert(ext[i] == '.');
            }
        }
        lemma_last_dot(stem, less);
        assert(name.drop_last() =~= stem + seq!['.'] + less);
        assert(name.last() == ext.last());
    }
    assert(name.take(stem.len() as int) =~= stem);
    assert(name.skip(stem.len() as int + 1) =~= ext);
}

/// A name without a dot has no extension.
pub proof fn lemma_no_dot(name: Seq<char>)
    requires
        !name.contains('.'),
    ensures
        stem_of(name) == name,
        ext_of(name) is None,
        rfind(name, '.') == -1,
    decreases name.len(),
{
    if name.len() > 0 {
        let less = name.drop_last();
        assert(name.contains(name.last()));
        assert(!less.contains('.')) by {
            if less.contains('.') {
                let i = choose|i: int| 0 <= i < less.len() && less[i] == '.';
                assert(name[i] == '.');
            }
        }
        lemma_no_dot(less);
    }
}

/// Only whitespace.
pub open spec fn all_space(s: Seq<char>) -> bool {
    forall|i: int| 0 <= i < s.len() ==> is_space(#[trigger] s[i])
}

proof fn lemma_trim_start_of(a: Seq<char>, t: Seq<char>)
    requires
        all_space(a),
        t.len() > 0 ==> !is_space(t[0]),
    ensures
        trim_start(a + t) == t,
    decreases a.len(),
{
    if a.len() > 0 {
        let rest = a.drop_first();
        assert(is_space(a[0]));
        assert forall|i: int| 0 <= i < rest.len() implies is_space(#[trigger] rest[i]) by {
            assert(is_space(a[i + 1]));
        }
        assert((a + t).drop_first() =~= rest + t);
        lemma_trim_start_of(rest, t);
    } else {
        assert(a + t =~= t);
    }
}

proof fn lemma_trim_end_of(t: Seq<char>, b: Seq<char>)
    requires
        all_space(b),
        t.len() > 0 ==> !is_space(t.last()),
    ensures
        trim_end(t + b) == t,
    decreases b.len(),
{
    if b.len() > 0 {
        let rest = b.drop_last();
        assert(is_space(b[b.len() - 1]));
        assert forall|i: int| 0 <= i < rest.len() implies is_space(#[trigger] rest[i]) by {
            assert(is_space(b[i]));
        }
        assert((t + b).drop_last() =~= t + rest);
        assert((t + b).last() == b.last());
        lemma_trim_end_of(t, rest);
    } else {
        assert(t + b =~= t);
    }
}

/// Trimming takes the whitespace around a text, and nothing of the text.
pub proof fn lemma_trimmed_of(a: Seq<char>, t: Seq<char>, b: Seq<char>)
    requires
        all_space(a),
        all_space(b),
        t.len() > 0 ==> !is_space(t[0]) && !is_space(t.last()),
    ensures
        trimmed(a + t + b) == t,
{
    if t.len() > 0 {
        assert(a + t + b =~= a + (t + b));
        lemma_trim_start_of(a, t + b);
        lemma_trim_end_of(t, b);
    } else {
        let ab = a + b;
        assert(all_space(ab)) by {
            assert forall|i: int| 0 <= i < ab.len() implies is_space(#[trigger] ab[i]) by {
                if i < a.len() {
                    assert(is_space(a[i]));
                } else {
                    assert(is_space(b[i - a.len()]));
                }
            }
        }
        assert(a + t + b =~= ab + t);
        lemma_trim_start_of(ab, t);
        assert(t =~= Seq::empty());
    }
}

proof fn lemma_squeezed_away(s: Seq<char>)
    ensures
        squeezed(s).len() == 0 <==> all_space(s),
    decreases s.len(),
{
    if s.len() > 0 {
        let front = s.drop_last();
        lemma_squeezed_away(front);
        if all_space(s) {
            assert forall|i: int| 0 <= i < front.len() implies is_space(#[trigger] front[i]) by {
                assert(is_space(s[i]));
            }
            assert(is_space(s[s.len() - 1]));
        }
        if squeezed(s).len() == 0 {
            assert forall|i: int| 0 <= i < s.len() implies is_space(#[trigger] s[i]) by {
                if i < front.len() {
                    assert(is_space(front[i]));
                }
            }
        }
    }
}

/// A word stays as it is, and whitespace between two texts becomes one blank
/// between what they are squeezed to; around a text it goes.
pub proof fn lemma_squeezed_words(a: Seq<char>, gap: Seq<char>, b: Seq<char>)
    requires
        gap.len() > 0,
        all_space(gap),
    ensures
        squeezed(a + gap + b) == if squeezed(a).len() == 0 {
            squeezed(b)
        } else if squeezed(b).len() == 0 {
            squeezed(a)
        } else {
            squeezed(a) + seq![' '] + squeezed(b)
        },
    decreases gap.len() + b.len(),
{
    let s = a + gap + b;
    lemma_squeezed_away(b);
    if b.len() == 0 {
        assert(s =~= a + gap);
        assert(squeezed(b) =~= Seq::empty());
        lemma_squeezed_tail(a, gap);
    } else {
        let less = b.drop_last();
        let c = b.last();
        lemma_squeezed_words(a, gap, less);
        lemma_squeezed_away(less);
        assert(s.drop_last() =~= a + gap + less);
        assert(s.last() == c);
        if less.len() > 0 {
            assert(s[s.len() - 2] == less.last());
            assert(b[b.len() - 2] == less.last());
            if squeezed(less).len() == 0 {
                assert(is_space(less[less.len() - 1]));
            }
        } else {
            assert(s[s.len() - 2] == gap.last());
            assert(is_space(gap[gap.len() - 1]));
            assert(squeezed(less) =~= Seq::empty());
        }
        assert(squeezed(s) =~= if squeezed(a).len() == 0 {
            squeezed(b)
        } else if squeezed(b).len() == 0 {
            squeezed(a)
        } else {
            squeezed(a) + seq![' '] + squeezed(b)
        });
    }
}

proof fn lemma_squeezed_tail(a: Seq<char>, gap: Seq<char>)
    requires
        all_space(gap),
    ensures
        squeezed(a + gap) == squeezed(a),
    decreases gap.len(),
{
    if gap.len() > 0 {
        let less = gap.drop_last();
        assert forall|i: int| 0 <= i < less.len() implies is_space(#[trigger] less[i]) by {
            assert(is_space(gap[i]));
        }
        assert(is_space(gap[gap.len() - 1]));
        lemma_squeezed_tail(a, less);
        assert((a + gap).drop_last() =~= a + less);
    } else {
        assert(a + gap =~= a);
    }
}

/// A text without whitespace stays as it is.
pub proof fn lemma_squeezed_word(word: Seq<char>)
    requires
        forall|i: int| 0 <= i < word.len() ==> !is_space(#[trigger] word[i]),
    ensures
        squeezed(word) == word,
    decreases word.len(),
{
    if word.len() > 0 {
        let front = word.drop_last();
        assert forall|i: int| 0 <= i < front.len() implies !is_space(#[trigger] front[i]) by {
            assert(!is_space(word[i]));
        }
        lemma_squeezed_word(front);
        assert(!is_space(word[word.len() - 1]));
        if word.len() > 1 {
            assert(!is_space(word[word.len() - 2]));
        }
        assert(front.push(word.last()) =~= word);
    } else {
        assert(squeezed(word) =~= word);
    }
}

/// A number is written in digits, and the first is no zero, but for 0 itself.
pub proof fn lemma_decimal_digits(n: int)
    requires
        0 <= n,
    ensures
        decimal(n).len() > 0,
        all_digits(decimal(n)),
        digits_value(decimal(n)) == n,
        n > 0 ==> decimal(n)[0] != '0',
        n == 0 ==> decimal(n) == seq!['0'],
    decreases n,
{
    if n >= 10 {
        lemma_decimal_digits(n / 10);
        let front = decimal(n / 10);
        assert(decimal(n).drop_last() =~= front);
        assert(digit(n % 10) as int - '0' as int == n % 10);
        assert forall|i: int| 0 <= i < decimal(n).len() implies is_digit_char(
            #[trigger] decimal(n)[i],
        ) by {
            if i < front.len() {
                assert(is_digit_char(front[i]));
            }
        }
        assert(decimal(n)[0] == front[0]);
    } else {
        assert(decimal(n).drop_last() =~= Seq::empty());
        assert(digits_value(Seq::<char>::empty()) == 0);
        assert(digit(n) as int - '0' as int == n);
        assert(decimal(n).last() == digit(n));
    }
}

/// Zeros in front change no number, and bring it to the width where it is
/// shorter.
pub proof fn lemma_padding(n: int, width: int)
    requires
        0 <= n,
    ensures
        all_digits(zero_padded(decimal(n), width)),
        digits_value(zero_padded(decimal(n), width)) == n,
        zero_padded(decimal(n), width).len() == if width > decimal(n).len() {
            width
        } else {
            decimal(n).len() as int
        },
{
    lemma_decimal_digits(n);
    let s = decimal(n);
    let zeros = Seq::new(
        if width > s.len() {
            (width - s.len()) as nat
        } else {
            0
        },
        |i: int| '0',
    );
    lemma_zeros_in_front(zeros, s);
    let padded = zero_padded(s, width);
    assert forall|i: int| 0 <= i < padded.len() implies is_digit_char(#[trigger] padded[i]) by {
        if i >= zeros.len() {
            assert(is_digit_char(s[i - zeros.len()]));
        }
    }
}

proof fn lemma_zeros_in_front(zeros: Seq<char>, s: Seq<char>)
    requires
        forall|i: int| 0 <= i < zeros.len() ==> #[trigger] zeros[i] == '0',
    ensures
        digits_value(zeros + s) == digits_value(s),
    decreases zeros.len() + s.len(),
{
    let all = zeros + s;
    if s.len() > 0 {
        lemma_zeros_in_front(zeros, s.drop_last());
        assert(all.drop_last() =~= zeros + s.drop_last());
    } else if zeros.len() > 0 {
        let less = zeros.drop_last();
        assert forall|i: int| 0 <= i < less.len() implies #[trigger] less[i] == '0' by {
            assert(zeros[i] == '0');
        }
        lemma_zeros_in_front(less, s);
        assert(all.drop_last() =~= less + s);
        assert(zeros[zeros.len() - 1] == '0');
        assert(digits_value(s) == 0);
    } else {
        assert(all =~= s);
    }
}

/// A number that was written is read again, with a plus in front of it too;
/// a text that is no number, or too large a one, is not read at all.
pub proof fn lemma_numbers_are_read(n: i64)
    ensures
        int_of(signed_decimal(n as int)) == Some(n),
        n >= 0 ==> int_of(seq!['+'] + decimal(n as int)) == Some(n),
        int_of(Seq::empty()) is None,
        forall|s: Seq<char>|
            #[trigger] int_of(s) is Some ==> forall|i: int|
                0 <= i < s.len() ==> is_digit_char(#[trigger] s[i]) || (i == 0 && s.len() > 1 && (
                s[0] == '-' || s[0] == '+')),
{
    let size = if n < 0 {
        -(n as int)
    } else {
        n as int
    };
    lemma_decimal_digits(size);
    let d = decimal(size);
    assert(is_digit_char(d[0]));
    let minus = seq!['-'] + d;
    let plus = seq!['+'] + d;
    assert(minus.skip(1) =~= d);
    assert(plus.skip(1) =~= d);
    assert forall|s: Seq<char>| #[trigger] int_of(s) is Some implies forall|i: int|
        0 <= i < s.len() ==> is_digit_char(#[trigger] s[i]) || (i == 0 && s.len() > 1 && (s[0]
            == '-' || s[0] == '+')) by {
        let body = unsigned_part(s);
        assert forall|i: int| 0 <= i < s.len() implies is_digit_char(#[trigger] s[i]) || (i == 0
            && s.len() > 1 && (s[0] == '-' || s[0] == '+')) by {
            if body.len() == s.len() {
                assert(is_digit_char(body[i]));
            } else if i > 0 {
                assert(is_digit_char(body[i - 1]));
            }
        }
    }
}

} // verus!
