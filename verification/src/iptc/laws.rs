//! What templates do to captions and keywords, said of the templates' own
//! text.
use crate::iptc;
use crate::iptc::{ExpandContext, IptcFault, IptcView};
use crate::order;
use crate::text;
use vstd::prelude::*;

verus! {

// ------------------------------------------------------------ the variables
/// Text without braces is copied.
pub proof fn lemma_plain_text_is_copied(
    field: Seq<char>,
    plain: Seq<char>,
    rest: Seq<char>,
    ctx: ExpandContext,
    seq: int,
    width: int,
)
    requires
        !plain.contains('{'),
        !plain.contains('}'),
    ensures
        iptc::expanded(field, plain + rest, ctx, seq, width) == match iptc::expanded(
            field,
            rest,
            ctx,
            seq,
            width,
        ) {
            Ok(tail) => Ok::<Seq<char>, IptcFault>(plain + tail),
            Err(e) => Err(e),
        },
        iptc::expanded(field, plain, ctx, seq, width) == Ok::<Seq<char>, IptcFault>(plain),
    decreases plain.len(),
{
    if plain.len() > 0 {
        let less = plain.drop_first();
        assert(plain.contains(plain[0]));
        assert(!less.contains('{') && !less.contains('}')) by {
            if less.contains('{') {
                let i = choose|i: int| 0 <= i < less.len() && less[i] == '{';
                assert(plain[i + 1] == '{');
            }
            if less.contains('}') {
                let i = choose|i: int| 0 <= i < less.len() && less[i] == '}';
                assert(plain[i + 1] == '}');
            }
        }
        lemma_plain_text_is_copied(field, less, rest, ctx, seq, width);
        assert((plain + rest).skip(1) =~= less + rest);
        assert(plain.skip(1) =~= less);
        assert(seq![plain[0]] + less =~= plain);
        match iptc::expanded(field, rest, ctx, seq, width) {
            Ok(tail) => {
                assert(seq![plain[0]] + (less + tail) =~= plain + tail);
            },
            Err(_) => {},
        }
    } else {
        assert(plain + rest =~= rest);
        match iptc::expanded(field, rest, ctx, seq, width) {
            Ok(tail) => {
                assert(plain + tail =~= tail);
            },
            Err(_) => {},
        }
        assert(plain =~= Seq::empty());
    }
}

/// A doubled brace is a brace, and a closing one alone is one too.
pub proof fn lemma_literal_braces(
    field: Seq<char>,
    rest: Seq<char>,
    ctx: ExpandContext,
    seq: int,
    width: int,
)
    ensures
        ({
            let tail = iptc::expanded(field, rest, ctx, seq, width);
            let with = |c: char|
                match tail {
                    Ok(t) => Ok::<Seq<char>, IptcFault>(seq![c] + t),
                    Err(e) => Err(e),
                };
            &&& iptc::expanded(field, seq!['{', '{'] + rest, ctx, seq, width) == with('{')
            &&& iptc::expanded(field, seq!['}', '}'] + rest, ctx, seq, width) == with('}')
            &&& rest.len() == 0 || rest[0] != '}' ==> iptc::expanded(
                field,
                seq!['}'] + rest,
                ctx,
                seq,
                width,
            ) == with('}')
        }),
{
    assert((seq!['{', '{'] + rest).skip(2) =~= rest);
    assert((seq!['}', '}'] + rest).skip(2) =~= rest);
    assert((seq!['}'] + rest).skip(1) =~= rest);
}

/// A text with every brace doubled.
pub open spec fn doubled(s: Seq<char>) -> Seq<char>
    decreases s.len(),
{
    if s.len() == 0 {
        Seq::empty()
    } else if s[0] == '{' || s[0] == '}' {
        seq![s[0], s[0]] + doubled(s.drop_first())
    } else {
        seq![s[0]] + doubled(s.drop_first())
    }
}

/// A text whose braces are doubled expands to the text.
pub proof fn lemma_doubled_braces_read_back(
    field: Seq<char>,
    s: Seq<char>,
    ctx: ExpandContext,
    seq: int,
    width: int,
)
    ensures
        iptc::expanded(field, doubled(s), ctx, seq, width) == Ok::<Seq<char>, IptcFault>(s),
    decreases s.len(),
{
    if s.len() == 0 {
        assert(s =~= Seq::empty());
    } else {
        let rest = s.drop_first();
        let tail = doubled(rest);
        lemma_doubled_braces_read_back(field, rest, ctx, seq, width);
        assert(seq![s[0]] + rest =~= s);
        if s[0] == '{' || s[0] == '}' {
            assert((seq![s[0], s[0]] + tail).skip(2) =~= tail);
        } else {
            assert((seq![s[0]] + tail).skip(1) =~= tail);
        }
    }
}

/// A variable is replaced by its value, or by its error; what follows it is
/// expanded for itself.
pub proof fn lemma_variable_is_replaced(
    field: Seq<char>,
    var: Seq<char>,
    rest: Seq<char>,
    ctx: ExpandContext,
    seq: int,
    width: int,
)
    requires
        !var.contains('}'),
        var.len() > 0 ==> var[0] != '{',
    ensures
        iptc::expanded(field, seq!['{'] + var + seq!['}'] + rest, ctx, seq, width) == match (
            iptc::variable_value(field, var, ctx, seq, width),
            iptc::expanded(field, rest, ctx, seq, width),
        ) {
            (Ok(v), Ok(tail)) => Ok::<Seq<char>, IptcFault>(v + tail),
            (Err(e), _) => Err(e),
            (_, Err(e)) => Err(e),
        },
{
    let s = seq!['{'] + var + seq!['}'] + rest;
    let inner = var + seq!['}'] + rest;
    assert(s.skip(1) =~= inner);
    assert forall|i: int| 0 <= i < var.len() implies #[trigger] inner[i] != '}' by {
        assert(var.contains(var[i]));
    }
    text::lemma_find_is(inner, '}', var.len() as int);
    assert(inner.take(var.len() as int) =~= var);
    assert(inner.skip(var.len() as int + 1) =~= rest);
    assert(s[0] == '{');
    assert(s[1] != '{');
}

/// A brace that is opened and not closed is an error of its field.
pub proof fn lemma_unclosed_brace(
    field: Seq<char>,
    rest: Seq<char>,
    ctx: ExpandContext,
    seq: int,
    width: int,
)
    requires
        !rest.contains('}'),
        rest.len() > 0 ==> rest[0] != '{',
    ensures
        iptc::expanded(field, seq!['{'] + rest, ctx, seq, width) == Err::<Seq<char>, IptcFault>(
            IptcFault::UnclosedBrace { field },
        ),
{
    let s = seq!['{'] + rest;
    assert(s.skip(1) =~= rest);
    assert forall|i: int| 0 <= i < rest.len() implies #[trigger] rest[i] != '}' by {
        assert(rest.contains(rest[i]));
    }
    text::lemma_find_is(rest, '}', rest.len() as int);
}

/// What the variables stand for: the image's date, time, name, camera and
/// extension, and its number in the batch; `seq:` with a width from 1 to 32
/// pads to it, with anything else is an error of its own, and every other name
/// is unknown.
pub proof fn lemma_variables(
    field: Seq<char>,
    other: Seq<char>,
    arg: Seq<char>,
    ctx: ExpandContext,
    seq: int,
    width: int,
)
    requires
        other != "date"@ && other != "time"@ && other != "filename"@,
        other != "camera"@ && other != "ext"@ && other != "seq"@,
        !(other.len() >= 4 && other.take(4) == "seq:"@),
    ensures
        ({
            let value = |var: Seq<char>| iptc::variable_value(field, var, ctx, seq, width);
            let number = |w: int| Ok::<Seq<char>, IptcFault>(
                text::zero_padded(text::decimal(seq), w),
            );
            &&& value("date"@) == Ok::<Seq<char>, IptcFault>(ctx.date@)
            &&& value("time"@) == Ok::<Seq<char>, IptcFault>(ctx.time@)
            &&& value("filename"@) == Ok::<Seq<char>, IptcFault>(ctx.filename_stem@)
            &&& value("camera"@) == Ok::<Seq<char>, IptcFault>(ctx.camera@)
            &&& value("ext"@) == Ok::<Seq<char>, IptcFault>(ctx.ext_upper@)
            &&& value("seq"@) == number(width)
            &&& value("seq:"@ + arg) == match iptc::seq_width(arg) {
                Some(w) => number(w),
                None => Err(IptcFault::BadSeqWidth { field, width: arg }),
            }
            &&& value(other) == Err::<Seq<char>, IptcFault>(
                IptcFault::UnknownVariable { field, variable: other },
            )
        }),
{
    reveal_strlit("date");
    reveal_strlit("time");
    reveal_strlit("filename");
    reveal_strlit("camera");
    reveal_strlit("ext");
    reveal_strlit("seq");
    reveal_strlit("seq:");
    assert("time"@[0] != "date"@[0]);
    assert("filename"@.len() != "date"@.len());
    assert("camera"@.len() != "date"@.len());
    assert("ext"@.len() != "date"@.len());
    assert("seq"@.len() != "date"@.len());
    assert("seq"@[0] != "ext"@[0]);
    let sized = "seq:"@ + arg;
    assert(sized[0] == 's' && sized[1] == 'e' && sized[2] == 'q' && sized[3] == ':');
    assert(sized.skip(4) =~= arg);
    assert(sized != "date"@) by {
        assert("date"@[0] == 'd');
    }
    assert(sized != "time"@) by {
        assert("time"@[0] == 't');
    }
    assert(sized != "filename"@) by {
        assert("filename"@[0] == 'f');
    }
    assert(sized != "camera"@) by {
        assert("camera"@[0] == 'c');
    }
    assert(sized != "ext"@);
    assert(sized != "seq"@);
    if iptc::is_seq_with_width(other) {
        assert(other.take(4) =~= "seq:"@);
    }
}

/// A width is a number from 1 to 32 in digits, with a plus sign or without.
pub proof fn lemma_widths(n: int, other: Seq<char>, k: int)
    requires
        0 <= n,
        0 <= k < other.len(),
        !text::is_digit_char(other[k]),
        k == 0 ==> other[0] != '+',
    ensures
        iptc::seq_width(text::decimal(n)) == if 1 <= n <= 32 {
            Some(n)
        } else {
            None
        },
        iptc::seq_width(seq!['+'] + text::decimal(n)) == iptc::seq_width(text::decimal(n)),
        iptc::seq_width(other) is None,
        iptc::seq_width(Seq::empty()) is None,
        iptc::seq_width(seq!['+']) is None,
{
    text::lemma_decimal_digits(n);
    let d = text::decimal(n);
    assert(text::is_digit_char(d[0]));
    assert((seq!['+'] + d).skip(1) =~= d);
    assert(seq!['+'].skip(1) =~= Seq::empty());
    if other[0] == '+' {
        assert(other.skip(1)[k - 1] == other[k]);
    }
}

/// The number of an image in a batch is written with as many digits as the
/// batch's length has.
pub proof fn lemma_batch_width(len: int, seq: int)
    requires
        1 <= seq <= len,
    ensures
        text::zero_padded(text::decimal(seq), iptc::batch_width(len)).len() == text::decimal(
            len,
        ).len(),
        text::digits_value(text::zero_padded(text::decimal(seq), iptc::batch_width(len))) == seq,
        iptc::batch_width(0) == 1,
{
    text::lemma_padding(seq, iptc::batch_width(len));
    lemma_longer_numbers(seq, len);
    text::lemma_decimal_digits(1);
    assert(text::decimal(1).len() == 1);
}

proof fn lemma_longer_numbers(a: int, b: int)
    requires
        0 <= a <= b,
    ensures
        text::decimal(a).len() <= text::decimal(b).len(),
    decreases b,
{
    text::lemma_decimal_digits(b);
    if a >= 10 {
        lemma_longer_numbers(a / 10, b / 10);
    }
}

// -------------------------------------------------------------- the capture
proof fn lemma_digits_are_no_marks(s: Seq<char>, i: int)
    requires
        text::all_digits(s),
        0 <= i < s.len(),
    ensures
        s[i] != ':' && s[i] != ' ' && !text::is_space(s[i]),
{
    assert(text::is_digit_char(s[i]));
}

proof fn lemma_without_colons_of(a: Seq<char>, b: Seq<char>)
    ensures
        iptc::without_colons(a + b) == iptc::without_colons(a) + iptc::without_colons(b),
    decreases b.len(),
{
    if b.len() > 0 {
        lemma_without_colons_of(a, b.drop_last());
        assert((a + b).drop_last() =~= a + b.drop_last());
        assert((a + b).last() == b.last());
        let front = iptc::without_colons(a) + iptc::without_colons(b.drop_last());
        if b.last() != ':' {
            assert(front.push(b.last()) =~= iptc::without_colons(a) + iptc::without_colons(b));
        }
    } else {
        assert(a + b =~= a);
        assert(iptc::without_colons(a) + iptc::without_colons(b) =~= iptc::without_colons(a));
    }
}

proof fn lemma_digits_have_no_colons(s: Seq<char>)
    requires
        text::all_digits(s),
    ensures
        iptc::without_colons(s) == s,
        iptc::without_colons(s + seq![':']) == s,
    decreases s.len(),
{
    if s.len() > 0 {
        let front = s.drop_last();
        assert forall|i: int| 0 <= i < front.len() implies text::is_digit_char(
            #[trigger] front[i],
        ) by {
            assert(text::is_digit_char(s[i]));
        }
        lemma_digits_have_no_colons(front);
        lemma_digits_are_no_marks(s, s.len() - 1);
        assert(front.push(s.last()) =~= s);
    } else {
        assert(iptc::without_colons(s) =~= s);
    }
    assert((s + seq![':']).drop_last() =~= s);
}

/// An EXIF date `YYYY:MM:DD HH:MM:SS`, with whitespace around it or not, gives
/// the date with dashes and the time without colons, where year, month and day
/// are set; a clock that was never set gives nothing.
pub proof fn lemma_capture_is_read(
    before: Seq<char>,
    y: Seq<char>,
    m: Seq<char>,
    d: Seq<char>,
    h: Seq<char>,
    mi: Seq<char>,
    s: Seq<char>,
    after: Seq<char>,
)
    requires
        text::all_space(before) && text::all_space(after),
        y.len() == 4 && m.len() == 2 && d.len() == 2,
        h.len() == 2 && mi.len() == 2 && s.len() == 2,
        text::all_digits(y) && text::all_digits(m) && text::all_digits(d),
        text::all_digits(h) && text::all_digits(mi) && text::all_digits(s),
    ensures
        ({
            let date = y + seq![':'] + m + seq![':'] + d;
            let time = h + seq![':'] + mi + seq![':'] + s;
            let exif = before + (date + seq![' '] + time) + after;
            let set = |n: Seq<char>| exists|i: int| 0 <= i < n.len() && #[trigger] n[i] != '0';
            &&& set(y) && set(m) && set(d) ==> iptc::capture_of(exif) == Some(
                (y + "-"@ + m + "-"@ + d, h + mi + s),
            )
            &&& !set(y) || !set(m) || !set(d) ==> iptc::capture_of(exif) is None
        }),
{
    let date = y + seq![':'] + m + seq![':'] + d;
    let time = h + seq![':'] + mi + seq![':'] + s;
    let t = date + seq![' '] + time;
    let exif = before + t + after;
    lemma_digits_are_no_marks(y, 0);
    lemma_digits_are_no_marks(s, 1);
    assert(t[0] == y[0]);
    assert(t.last() == s[1]);
    text::lemma_trimmed_of(before, t, after);
    // The date ends at the space.
    assert forall|i: int| 0 <= i < 10 implies #[trigger] t[i] != ' ' by {
        if i < 4 {
            lemma_digits_are_no_marks(y, i);
            assert(t[i] == y[i]);
        } else if 5 <= i < 7 {
            lemma_digits_are_no_marks(m, i - 5);
            assert(t[i] == m[i - 5]);
        } else if 8 <= i {
            lemma_digits_are_no_marks(d, i - 8);
            assert(t[i] == d[i - 8]);
        }
    }
    assert(t[10] == ' ');
    text::lemma_find_is(t, ' ', 10);
    assert(t.take(10) =~= date);
    assert(t.skip(11) =~= time);
    // Its pieces.
    reveal_with_fuel(text::piece, 3);
    assert forall|i: int| 0 <= i < 4 implies #[trigger] date[i] != ':' by {
        lemma_digits_are_no_marks(y, i);
        assert(date[i] == y[i]);
    }
    assert(date[4] == ':');
    text::lemma_find_is(date, ':', 4);
    assert(date.take(4) =~= y);
    let rest = date.skip(5);
    assert(rest =~= m + seq![':'] + d);
    assert forall|i: int| 0 <= i < 2 implies #[trigger] rest[i] != ':' by {
        lemma_digits_are_no_marks(m, i);
        assert(rest[i] == m[i]);
    }
    assert(rest[2] == ':');
    text::lemma_find_is(rest, ':', 2);
    assert(rest.take(2) =~= m);
    let end = rest.skip(3);
    assert(end =~= d);
    assert forall|i: int| 0 <= i < 2 implies #[trigger] end[i] != ':' by {
        lemma_digits_are_no_marks(d, i);
    }
    text::lemma_find_is(end, ':', 2);
    assert(end.take(2) =~= d);
    // The time without its colons.
    lemma_digits_have_no_colons(h);
    lemma_digits_have_no_colons(mi);
    lemma_digits_have_no_colons(s);
    lemma_without_colons_of(h + seq![':'], mi + seq![':']);
    lemma_without_colons_of((h + seq![':']) + (mi + seq![':']), s);
    assert(time =~= (h + seq![':']) + (mi + seq![':']) + s);
    let clock = h + mi + s;
    assert(iptc::without_colons(time) =~= clock);
    assert forall|i: int| 0 <= i < 6 implies text::is_digit_char(#[trigger] clock[i]) by {
        if i < 2 {
            assert(text::is_digit_char(h[i]));
        } else if i < 4 {
            assert(text::is_digit_char(mi[i - 2]));
        } else {
            assert(text::is_digit_char(s[i - 4]));
        }
    }
}

// ------------------------------------------------------------- the keywords
/// A keyword that the union adds: not empty, and nothing of its case folding
/// is in the list or came in before it.
pub open spec fn is_new(
    list: Seq<Seq<char>>,
    incoming: Seq<Seq<char>>,
) -> spec_fn(int) -> bool {
    |i: int|
        {
            &&& incoming[i].len() > 0
            &&& forall|k: int|
                0 <= k < list.len() ==> iptc::folded(#[trigger] list[k]) != iptc::folded(
                    incoming[i],
                )
            &&& forall|k: int|
                0 <= k < i && (#[trigger] incoming[k]).len() > 0 ==> iptc::folded(incoming[k])
                    != iptc::folded(incoming[i])
        }
}

/// The union is the list as it was, and behind it the new keywords in the
/// order they came in, each as it was first spelled.
pub proof fn lemma_union_in_order(list: Seq<Seq<char>>, incoming: Seq<Seq<char>>, i: int)
    requires
        0 <= i < incoming.len(),
    ensures
        ({
            let all = iptc::union_of(list, incoming);
            let new = is_new(list, incoming);
            let n = list.len() as int;
            &&& all.len() == n + order::tally(incoming.len() as int, new)
            &&& all.take(n) == list
            &&& new(i) ==> all[n + order::tally(i, new)] == incoming[i]
        }),
{
    lemma_union_upto(list, incoming, incoming.len() as int);
    assert(incoming.take(incoming.len() as int) =~= incoming);
    iptc::lemma_union(list, incoming);
}

proof fn lemma_union_upto(list: Seq<Seq<char>>, incoming: Seq<Seq<char>>, n: int)
    requires
        0 <= n <= incoming.len(),
    ensures
        ({
            let all = iptc::union_of(list, incoming.take(n));
            let new = is_new(list, incoming);
            &&& all.len() == list.len() + order::tally(n, new)
            &&& forall|i: int|
                0 <= i < n && #[trigger] new(i) ==> all[list.len() as int + order::tally(i, new)]
                    == incoming[i]
        }),
    decreases n,
{
    let new = is_new(list, incoming);
    if n > 0 {
        lemma_union_upto(list, incoming, n - 1);
        let front = incoming.take(n - 1);
        assert(incoming.take(n).drop_last() =~= front);
        assert(incoming.take(n).last() == incoming[n - 1]);
        let sofar = iptc::union_of(list, front);
        let all = iptc::union_of(list, incoming.take(n));
        let kw = incoming[n - 1];
        lemma_known_is(list, front, kw);
        assert(new(n - 1) == (!iptc::known(sofar, kw) && kw.len() > 0)) by {
            if new(n - 1) {
                assert forall|k: int| 0 <= k < front.len() && (#[trigger] front[k]).len()
                    > 0 implies iptc::folded(front[k]) != iptc::folded(kw) by {
                    assert(incoming[k] == front[k]);
                }
            } else if kw.len() > 0 && !iptc::known(sofar, kw) {
                assert forall|k: int| 0 <= k < n - 1 && (#[trigger] incoming[k]).len()
                    > 0 implies iptc::folded(incoming[k]) != iptc::folded(kw) by {
                    assert(incoming[k] == front[k]);
                }
            }
        }
        assert forall|i: int| 0 <= i < n && #[trigger] new(i) implies all[list.len() as int
            + order::tally(i, new)] == incoming[i] by {
            if i < n - 1 {
                order::lemma_tally_is_short(new, i, n - 1);
                assert(sofar[list.len() as int + order::tally(i, new)] == incoming[i]);
            }
        }
    }
}

/// What a union knows: what the list knows, and what came in.
proof fn lemma_known_is(list: Seq<Seq<char>>, incoming: Seq<Seq<char>>, kw: Seq<char>)
    ensures
        iptc::known(iptc::union_of(list, incoming), kw) <==> (exists|k: int|
            0 <= k < list.len() && iptc::folded(#[trigger] list[k]) == iptc::folded(kw)) || (exists|
            k: int,
        |
            0 <= k < incoming.len() && (#[trigger] incoming[k]).len() > 0 && iptc::folded(
                incoming[k],
            ) == iptc::folded(kw)),
    decreases incoming.len(),
{
    let all = iptc::union_of(list, incoming);
    if incoming.len() > 0 {
        let front = incoming.drop_last();
        let last = incoming.last();
        let sofar = iptc::union_of(list, front);
        lemma_known_is(list, front, kw);
        lemma_known_is(list, front, last);
        if iptc::known(sofar, kw) {
            let j = choose|j: int|
                0 <= j < sofar.len() && iptc::folded(#[trigger] sofar[j]) == iptc::folded(kw);
            assert(all[j] == sofar[j]);
        }
        if exists|k: int|
            0 <= k < front.len() && (#[trigger] front[k]).len() > 0 && iptc::folded(front[k])
                == iptc::folded(kw) {
            let k = choose|k: int|
                0 <= k < front.len() && (#[trigger] front[k]).len() > 0 && iptc::folded(front[k])
                    == iptc::folded(kw);
            assert(incoming[k] == front[k]);
        }
        if exists|k: int|
            0 <= k < incoming.len() && (#[trigger] incoming[k]).len() > 0 && iptc::folded(
                incoming[k],
            ) == iptc::folded(kw) {
            let k = choose|k: int|
                0 <= k < incoming.len() && (#[trigger] incoming[k]).len() > 0 && iptc::folded(
                    incoming[k],
                ) == iptc::folded(kw);
            if k < front.len() {
                assert(front[k] == incoming[k]);
            } else if iptc::known(sofar, last) {
                let j = choose|j: int|
                    0 <= j < sofar.len() && iptc::folded(#[trigger] sofar[j]) == iptc::folded(last);
                assert(all[j] == sofar[j]);
            } else {
                assert(all[sofar.len() as int] == last);
            }
        }
        if iptc::known(all, kw) && !iptc::known(sofar, kw) {
            let j = choose|j: int|
                0 <= j < all.len() && iptc::folded(#[trigger] all[j]) == iptc::folded(kw);
            if j < sofar.len() {
                assert(all[j] == sofar[j]);
            } else {
                assert(all[j] == last);
                assert(incoming[front.len() as int] == last);
            }
        }
    }
}

// ---------------------------------------------------------------- the apply
/// An applied template, field by field: one that is absent leaves the image's
/// own, one of nothing but whitespace clears it, and any other puts its
/// expansion there, whatever was there before. Images are numbered from 1 in
/// their order, and each keyword joins the image's own.
pub proof fn lemma_apply(
    tpl: IptcView,
    images: Seq<IptcView>,
    ctxs: Seq<ExpandContext>,
    i: int,
    k: int,
)
    requires
        iptc::batch_after(tpl, images, ctxs, 0) is Ok,
        0 <= i < images.len(),
        0 <= k < 11,
        tpl.fields.len() == 11,
    ensures
        ({
            let after = iptc::batch_after(tpl, images, ctxs, 0)->Ok_0;
            let width = iptc::batch_width(images.len() as int);
            let words = iptc::keywords_after(tpl.keywords, ctxs[i], i + 1, width);
            &&& after.len() == images.len()
            &&& after[i].fields.len() == 11
            &&& tpl.fields[k] is None ==> after[i].fields[k] == images[i].fields[k]
            &&& tpl.fields[k] is Some && text::all_space(tpl.fields[k]->0)
                ==> after[i].fields[k] is None
            &&& tpl.fields[k] is Some && !text::all_space(tpl.fields[k]->0) ==> {
                &&& after[i].fields[k] is Some
                &&& iptc::expanded(
                    iptc::field_names()[k],
                    tpl.fields[k]->0,
                    ctxs[i],
                    i + 1,
                    width,
                ) == Ok::<Seq<char>, IptcFault>(after[i].fields[k]->0)
            }
            &&& words is Ok
            &&& after[i].keywords == iptc::union_of(images[i].keywords, words->Ok_0)
        }),
{
    lemma_batch_at(tpl, images, ctxs, 0, i);
    let width = iptc::batch_width(images.len() as int);
    lemma_no_field_fails(tpl, ctxs[i], i + 1, width, 0, k);
    if tpl.fields[k] is Some {
        lemma_blank_is_all_space(tpl.fields[k]->0);
    }
}

proof fn lemma_blank_is_all_space(s: Seq<char>)
    ensures
        text::is_blank(s) <==> text::all_space(s),
{
}

proof fn lemma_batch_at(
    tpl: IptcView,
    images: Seq<IptcView>,
    ctxs: Seq<ExpandContext>,
    from: int,
    i: int,
)
    requires
        0 <= from <= i < images.len(),
        iptc::batch_after(tpl, images, ctxs, from) is Ok,
    ensures
        iptc::batch_after(tpl, images, ctxs, from)->Ok_0.len() == images.len() - from,
        iptc::image_after(
            tpl,
            images[i],
            ctxs[i],
            i + 1,
            iptc::batch_width(images.len() as int),
        ) == Ok::<IptcView, IptcFault>(iptc::batch_after(tpl, images, ctxs, from)->Ok_0[i - from]),
    decreases images.len() - from,
{
    iptc::lemma_batch_length(tpl, images, ctxs, from);
    if from < i {
        lemma_batch_at(tpl, images, ctxs, from + 1, i);
    }
}

proof fn lemma_no_field_fails(
    tpl: IptcView,
    ctx: ExpandContext,
    seq: int,
    width: int,
    from: int,
    k: int,
)
    requires
        0 <= from <= k < 11,
        iptc::fields_fault(tpl, ctx, seq, width, from) is None,
    ensures
        iptc::field_after(iptc::field_names()[k], tpl.fields[k], None, ctx, seq, width) is Ok,
    decreases k - from,
{
    if from < k {
        lemma_no_field_fails(tpl, ctx, seq, width, from + 1, k);
    }
}

/// What a template asks to be expanded for an image: field `k` from 0 on where
/// it is not blank, then the keywords.
pub open spec fn asked(
    tpl: IptcView,
    ctx: ExpandContext,
    seq: int,
    width: int,
    k: int,
) -> Option<Result<Seq<char>, IptcFault>> {
    if 0 <= k < 11 {
        match tpl.fields[k] {
            Some(t) => if text::all_space(t) {
                None
            } else {
                Some(iptc::expanded(iptc::field_names()[k], t, ctx, seq, width))
            },
            None => None,
        }
    } else {
        Some(iptc::expanded("keywords"@, tpl.keywords[k - 11], ctx, seq, width))
    }
}

/// An apply succeeds exactly where everything it asks for expands, and
/// otherwise is refused for the first thing that does not: of the first image,
/// of the first field, keywords last.
pub proof fn lemma_apply_fails_as_a_whole(
    tpl: IptcView,
    images: Seq<IptcView>,
    ctxs: Seq<ExpandContext>,
    i: int,
    k: int,
)
    requires
        tpl.fields.len() == 11,
        0 <= i < images.len(),
        0 <= k < 11 + tpl.keywords.len(),
    ensures
        ({
            let r = iptc::batch_after(tpl, images, ctxs, 0);
            let width = iptc::batch_width(images.len() as int);
            let what = |j: int, l: int| asked(tpl, ctxs[j], j + 1, width, l);
            let fails = |j: int, l: int| what(j, l) is Some && what(j, l)->0 is Err;
            &&& r is Ok ==> !fails(i, k)
            &&& fails(i, k) && (forall|l: int| 0 <= l < k ==> !#[trigger] fails(i, l)) && (forall|
                j: int,
                l: int,
            |
                0 <= j < i && 0 <= l < 11 + tpl.keywords.len() ==> !#[trigger] fails(j, l)) ==> r
                == Err::<Seq<IptcView>, IptcFault>(what(i, k)->0->Err_0)
            &&& (forall|j: int, l: int|
                0 <= j < images.len() && 0 <= l < 11 + tpl.keywords.len() ==> !#[trigger] fails(
                    j,
                    l,
                )) ==> r is Ok
        }),
{
    let r = iptc::batch_after(tpl, images, ctxs, 0);
    let width = iptc::batch_width(images.len() as int);
    let what = |j: int, l: int| asked(tpl, ctxs[j], j + 1, width, l);
    let fails = |j: int, l: int| what(j, l) is Some && what(j, l)->0 is Err;
    let total = 11 + tpl.keywords.len() as int;
    assert forall|j: int| 0 <= j < images.len() && (forall|l: int|
        0 <= l < total ==> !#[trigger] fails(j, l)) implies (#[trigger] iptc::image_after(
        tpl,
        images[j],
        ctxs[j],
        j + 1,
        width,
    )) is Ok by {
        assert forall|l: int| 0 <= l < total implies !#[trigger] fault_at(
            tpl,
            ctxs[j],
            j + 1,
            width,
            l,
        ) by {
            assert(!fails(j, l));
        }
        lemma_image_without_faults(tpl, images[j], ctxs[j], j + 1, width);
    }
    if r is Ok {
        lemma_batch_at(tpl, images, ctxs, 0, i);
        if fails(i, k) {
            lemma_image_with_a_fault(tpl, images[i], ctxs[i], i + 1, width, k);
        }
    }
    if fails(i, k) && (forall|l: int| 0 <= l < k ==> !#[trigger] fails(i, l)) && (forall|
        j: int,
        l: int,
    |
        0 <= j < i && 0 <= l < total ==> !#[trigger] fails(j, l)) {
        assert forall|l: int| 0 <= l < k implies !#[trigger] fault_at(tpl, ctxs[i], i + 1, width, l) by {
            assert(!fails(i, l));
        }
        lemma_first_fault_of_an_image(tpl, images[i], ctxs[i], i + 1, width, k);
        lemma_first_fault_of_a_batch(tpl, images, ctxs, 0, i);
    }
    if forall|j: int, l: int|
        0 <= j < images.len() && 0 <= l < total ==> !#[trigger] fails(j, l) {
        lemma_batch_without_faults(tpl, images, ctxs, 0);
    }
}

spec fn fault_at(tpl: IptcView, ctx: ExpandContext, seq: int, width: int, k: int) -> bool {
    asked(tpl, ctx, seq, width, k) is Some && asked(tpl, ctx, seq, width, k)->0 is Err
}

proof fn lemma_fields_fault_is(
    tpl: IptcView,
    ctx: ExpandContext,
    seq: int,
    width: int,
    from: int,
    k: int,
)
    requires
        0 <= from <= k <= 11,
        forall|l: int| from <= l < k ==> !#[trigger] fault_at(tpl, ctx, seq, width, l),
    ensures
        k == 11 ==> iptc::fields_fault(tpl, ctx, seq, width, from) is None,
        k < 11 && fault_at(tpl, ctx, seq, width, k) ==> iptc::fields_fault(
            tpl,
            ctx,
            seq,
            width,
            from,
        ) == Some(asked(tpl, ctx, seq, width, k)->0->Err_0),
    decreases k - from,
{
    if from < 11 {
        if tpl.fields[from] is Some {
            lemma_blank_is_all_space(tpl.fields[from]->0);
        }
    }
    if from < k {
        assert(!fault_at(tpl, ctx, seq, width, from));
        lemma_fields_fault_is(tpl, ctx, seq, width, from + 1, k);
    }
}

proof fn lemma_keywords_fault_is(
    tpl: IptcView,
    ctx: ExpandContext,
    seq: int,
    width: int,
    n: int,
    k: int,
)
    requires
        0 <= k <= n <= tpl.keywords.len(),
        forall|l: int| 11 <= l < 11 + k ==> !#[trigger] fault_at(tpl, ctx, seq, width, l),
    ensures
        k == n ==> iptc::keywords_after(tpl.keywords.take(n), ctx, seq, width) is Ok,
        k < n && fault_at(tpl, ctx, seq, width, 11 + k) ==> iptc::keywords_after(
            tpl.keywords.take(n),
            ctx,
            seq,
            width,
        ) == Err::<Seq<Seq<char>>, IptcFault>(asked(tpl, ctx, seq, width, 11 + k)->0->Err_0),
    decreases n,
{
    if n > 0 {
        let words = tpl.keywords.take(n);
        assert(words.drop_last() =~= tpl.keywords.take(n - 1));
        assert(words.last() == tpl.keywords[n - 1]);
        if k == n {
            assert(!fault_at(tpl, ctx, seq, width, 11 + (n - 1)));
            lemma_keywords_fault_is(tpl, ctx, seq, width, n - 1, n - 1);
        } else {
            lemma_keywords_fault_is(tpl, ctx, seq, width, n - 1, k);
        }
    }
}

proof fn lemma_image_without_faults(
    tpl: IptcView,
    image: IptcView,
    ctx: ExpandContext,
    seq: int,
    width: int,
)
    requires
        forall|l: int| 0 <= l < 11 + tpl.keywords.len() ==> !#[trigger] fault_at(tpl, ctx, seq, width, l),
    ensures
        iptc::image_after(tpl, image, ctx, seq, width) is Ok,
{
    let n = tpl.keywords.len() as int;
    lemma_fields_fault_is(tpl, ctx, seq, width, 0, 11);
    lemma_keywords_fault_is(tpl, ctx, seq, width, n, n);
    assert(tpl.keywords.take(n) =~= tpl.keywords);
}

proof fn lemma_first_fault_of_an_image(
    tpl: IptcView,
    image: IptcView,
    ctx: ExpandContext,
    seq: int,
    width: int,
    k: int,
)
    requires
        0 <= k < 11 + tpl.keywords.len(),
        fault_at(tpl, ctx, seq, width, k),
        forall|l: int| 0 <= l < k ==> !#[trigger] fault_at(tpl, ctx, seq, width, l),
    ensures
        iptc::image_after(tpl, image, ctx, seq, width) == Err::<IptcView, IptcFault>(
            asked(tpl, ctx, seq, width, k)->0->Err_0,
        ),
{
    let n = tpl.keywords.len() as int;
    if k < 11 {
        lemma_fields_fault_is(tpl, ctx, seq, width, 0, k);
    } else {
        lemma_fields_fault_is(tpl, ctx, seq, width, 0, 11);
        lemma_keywords_fault_is(tpl, ctx, seq, width, n, k - 11);
        assert(tpl.keywords.take(n) =~= tpl.keywords);
    }
}

proof fn lemma_image_with_a_fault(
    tpl: IptcView,
    image: IptcView,
    ctx: ExpandContext,
    seq: int,
    width: int,
    k: int,
)
    requires
        0 <= k < 11 + tpl.keywords.len(),
        fault_at(tpl, ctx, seq, width, k),
    ensures
        iptc::image_after(tpl, image, ctx, seq, width) is Err,
    decreases k,
{
    if exists|l: int| 0 <= l < k && #[trigger] fault_at(tpl, ctx, seq, width, l) {
        let l = choose|l: int| 0 <= l < k && #[trigger] fault_at(tpl, ctx, seq, width, l);
        lemma_image_with_a_fault(tpl, image, ctx, seq, width, l);
    } else {
        lemma_first_fault_of_an_image(tpl, image, ctx, seq, width, k);
    }
}

proof fn lemma_first_fault_of_a_batch(
    tpl: IptcView,
    images: Seq<IptcView>,
    ctxs: Seq<ExpandContext>,
    from: int,
    i: int,
)
    requires
        0 <= from <= i < images.len(),
        ({
            let width = iptc::batch_width(images.len() as int);
            &&& iptc::image_after(tpl, images[i], ctxs[i], i + 1, width) is Err
            &&& forall|j: int|
                from <= j < i ==> (#[trigger] iptc::image_after(
                    tpl,
                    images[j],
                    ctxs[j],
                    j + 1,
                    width,
                )) is Ok
        }),
    ensures
        iptc::batch_after(tpl, images, ctxs, from) == Err::<Seq<IptcView>, IptcFault>(
            iptc::image_after(
                tpl,
                images[i],
                ctxs[i],
                i + 1,
                iptc::batch_width(images.len() as int),
            )->Err_0,
        ),
    decreases i - from,
{
    let width = iptc::batch_width(images.len() as int);
    if from < i {
        assert(iptc::image_after(tpl, images[from], ctxs[from], from + 1, width) is Ok);
        lemma_first_fault_of_a_batch(tpl, images, ctxs, from + 1, i);
    }
}

proof fn lemma_batch_without_faults(
    tpl: IptcView,
    images: Seq<IptcView>,
    ctxs: Seq<ExpandContext>,
    from: int,
)
    requires
        0 <= from <= images.len(),
        forall|j: int|
            from <= j < images.len() ==> (#[trigger] iptc::image_after(
                tpl,
                images[j],
                ctxs[j],
                j + 1,
                iptc::batch_width(images.len() as int),
            )) is Ok,
    ensures
        iptc::batch_after(tpl, images, ctxs, from) is Ok,
    decreases images.len() - from,
{
    if from < images.len() {
        assert(iptc::image_after(
            tpl,
            images[from],
            ctxs[from],
            from + 1,
            iptc::batch_width(images.len() as int),
        ) is Ok);
        lemma_batch_without_faults(tpl, images, ctxs, from + 1);
    }
}

/// The expanded keywords of a template: as many as it has, each the expansion
/// of its own.
pub proof fn lemma_keywords_one_by_one(
    words: Seq<Seq<char>>,
    ctx: ExpandContext,
    seq: int,
    width: int,
    i: int,
)
    requires
        iptc::keywords_after(words, ctx, seq, width) is Ok,
        0 <= i < words.len(),
    ensures
        ({
            let out = iptc::keywords_after(words, ctx, seq, width)->Ok_0;
            &&& out.len() == words.len()
            &&& iptc::expanded("keywords"@, words[i], ctx, seq, width) == Ok::<
                Seq<char>,
                IptcFault,
            >(out[i])
        }),
    decreases words.len(),
{
    let front = words.drop_last();
    if i < front.len() {
        lemma_keywords_one_by_one(front, ctx, seq, width, i);
        assert(front[i] == words[i]);
    } else if front.len() > 0 {
        lemma_keywords_one_by_one(front, ctx, seq, width, 0);
    }
}

/// A revert puts back each stored image in its place, and leaves those that
/// were not stored; without anything stored it leaves all.
pub proof fn lemma_revert_puts_back(images: Seq<IptcView>, stored: Seq<IptcView>, i: int)
    requires
        0 <= i < images.len(),
    ensures
        iptc::reverted(images, Some(stored)).len() == images.len(),
        i < stored.len() ==> iptc::reverted(images, Some(stored))[i] == stored[i],
        i >= stored.len() ==> iptc::reverted(images, Some(stored))[i] == images[i],
        iptc::reverted(images, None) == images,
{
}

// -------------------------------------------------------- the templates file
/// The entries that are templates.
pub open spec fn is_template(
    entries: Seq<(Seq<char>, Result<IptcView, Seq<char>>)>,
) -> spec_fn(int) -> bool {
    |i: int| entries[i].1 is Ok
}

/// The entries that are not.
pub open spec fn is_no_template(
    entries: Seq<(Seq<char>, Result<IptcView, Seq<char>>)>,
) -> spec_fn(int) -> bool {
    |i: int| entries[i].1 is Err
}

/// Every entry that is a template loads, under its own name; every other one
/// is reported, with its name and reason; both in the order of the file.
pub proof fn lemma_every_entry_counts(
    entries: Seq<(Seq<char>, Result<IptcView, Seq<char>>)>,
    i: int,
)
    requires
        0 <= i < entries.len(),
    ensures
        ({
            let good = iptc::good_entries(entries);
            let bad = iptc::bad_entries(entries);
            let yes = is_template(entries);
            let no = is_no_template(entries);
            &&& good.len() == order::tally(entries.len() as int, yes)
            &&& bad.len() == order::tally(entries.len() as int, no)
            &&& entries[i].1 is Ok ==> good[order::tally(i, yes) as int] == (
                entries[i].0,
                entries[i].1->Ok_0,
            )
            &&& entries[i].1 is Err ==> bad[order::tally(i, no) as int] == "template '"@
                + entries[i].0 + "': "@ + entries[i].1->Err_0
        }),
    decreases entries.len(),
{
    let n = entries.len() as int;
    let front = entries.drop_last();
    let yes = is_template(entries);
    let no = is_no_template(entries);
    let yes_f = is_template(front);
    let no_f = is_no_template(front);
    order::lemma_tally_same(n - 1, yes_f, yes);
    order::lemma_tally_same(n - 1, no_f, no);
    assert(yes(n - 1) == (entries.last().1 is Ok));
    assert(no(n - 1) == (entries.last().1 is Err));
    if i < n - 1 {
        lemma_every_entry_counts(front, i);
        order::lemma_tally_same(i, yes_f, yes);
        order::lemma_tally_same(i, no_f, no);
        assert(front[i] == entries[i]);
        if yes(i) {
            order::lemma_tally_is_short(yes, i, n - 1);
        } else {
            order::lemma_tally_is_short(no, i, n - 1);
        }
    } else if n - 1 > 0 {
        lemma_every_entry_counts(front, 0);
    } else {
        assert(iptc::good_entries(front).len() == 0);
        assert(iptc::bad_entries(front).len() == 0);
    }
    let good = iptc::good_entries(front);
    let bad = iptc::bad_entries(front);
    assert(good.len() == order::tally(n - 1, yes));
    assert(bad.len() == order::tally(n - 1, no));
}

/// A template's warnings: one for each field of nothing but whitespace, in the
/// order of the fields, and none else.
pub proof fn lemma_blank_fields_are_warned_of(name: Seq<char>, tpl: IptcView, n: int)
    requires
        0 <= n <= 11,
        tpl.fields.len() == 11,
    ensures
        ({
            let warnings = iptc::blank_warnings(name, tpl, n);
            let clears = |k: int| tpl.fields[k] is Some && text::all_space(tpl.fields[k]->0);
            &&& warnings.len() == order::tally(n, clears)
            &&& forall|k: int|
                0 <= k < n && #[trigger] clears(k) ==> warnings[order::tally(k, clears) as int]
                    == "template '"@ + name + "': empty '"@ + iptc::field_names()[k]
                    + "' CLEARS that field on every image it is applied to"@
        }),
    decreases n,
{
    let clears = |k: int| tpl.fields[k] is Some && text::all_space(tpl.fields[k]->0);
    if n > 0 {
        lemma_blank_fields_are_warned_of(name, tpl, n - 1);
        let front = iptc::blank_warnings(name, tpl, n - 1);
        let warnings = iptc::blank_warnings(name, tpl, n);
        if tpl.fields[n - 1] is Some {
            lemma_blank_is_all_space(tpl.fields[n - 1]->0);
        }
        assert forall|k: int| 0 <= k < n && #[trigger] clears(k) implies warnings[order::tally(
            k,
            clears,
        ) as int] == "template '"@ + name + "': empty '"@ + iptc::field_names()[k]
            + "' CLEARS that field on every image it is applied to"@ by {
            if k < n - 1 {
                order::lemma_tally_is_short(clears, k, n - 1);
                assert(front[order::tally(k, clears) as int] == warnings[order::tally(
                    k,
                    clears,
                ) as int]);
            }
        }
    }
}

/// The warnings of a file are those of its templates, one template after the
/// other.
pub proof fn lemma_warnings_of_a_file(
    entries: Seq<(Seq<char>, Result<IptcView, Seq<char>>)>,
    more: (Seq<char>, Result<IptcView, Seq<char>>),
)
    ensures
        iptc::entry_warnings(entries.push(more)) == iptc::entry_warnings(entries) + match more.1 {
            Ok(t) => iptc::blank_warnings(more.0, t, 11),
            Err(_) => Seq::empty(),
        },
        iptc::entry_warnings(Seq::empty()).len() == 0,
{
    assert(entries.push(more).drop_last() =~= entries);
}

} // verus!
