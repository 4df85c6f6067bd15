//! IPTC data model & templates.
//!
//! Pure model + expansion logic: the panel binds to [`IptcData`], saved
//! templates ("stationery pads") expand per-image variables at apply time,
//! and application is all-or-nothing per batch with a single-level revert.
use crate::civil;
use crate::text;
use vstd::prelude::*;
use vstd::string::*;

pub mod laws;

verus! {

// --------------------------------------------------------------- the model
/// The IPTC fields this library edits. All optional; `None` = "not set". In
/// TEMPLATES a field is three-valued: absent = preserve, empty-after-trim =
/// CLEAR on apply, non-empty = overwrite.
#[derive(Debug, PartialEq, Eq)]
pub struct IptcData {
    pub title: Option<String>,
    pub description: Option<String>,
    pub creator: Option<String>,
    pub rights: Option<String>,
    pub headline: Option<String>,
    pub city: Option<String>,
    pub country: Option<String>,
    pub credit: Option<String>,
    pub source: Option<String>,
    pub job_id: Option<String>,
    pub location: Option<String>,
    /// Ordered; deduplicated case-preservingly — the FIRST spelling wins,
    /// comparison is Unicode-casefolded.
    pub keywords: Vec<String>,
}

/// The model of [`IptcData`]: the eleven fields in the order of their
/// declaration, and the keywords.
#[verifier::ext_equal]
pub ghost struct IptcView {
    pub fields: Seq<Option<Seq<char>>>,
    pub keywords: Seq<Seq<char>>,
}

impl View for IptcData {
    type V = IptcView;

    open spec fn view(&self) -> IptcView {
        IptcView {
            fields: seq![
                text::opt_text(self.title),
                text::opt_text(self.description),
                text::opt_text(self.creator),
                text::opt_text(self.rights),
                text::opt_text(self.headline),
                text::opt_text(self.city),
                text::opt_text(self.country),
                text::opt_text(self.credit),
                text::opt_text(self.source),
                text::opt_text(self.job_id),
                text::opt_text(self.location),
            ],
            keywords: text::texts(self.keywords@),
        }
    }
}

impl Clone for IptcData {
    fn clone(&self) -> (r: IptcData)
        ensures
            r@ == self@,
    {
        let r = IptcData {
            title: text::copy_opt(&self.title),
            description: text::copy_opt(&self.description),
            creator: text::copy_opt(&self.creator),
            rights: text::copy_opt(&self.rights),
            headline: text::copy_opt(&self.headline),
            city: text::copy_opt(&self.city),
            country: text::copy_opt(&self.country),
            credit: text::copy_opt(&self.credit),
            source: text::copy_opt(&self.source),
            job_id: text::copy_opt(&self.job_id),
            location: text::copy_opt(&self.location),
            keywords: text::copy_strings(&self.keywords),
        };
        assert(r@ =~= self@);
        r
    }
}

impl Default for IptcData {
    fn default() -> (d: IptcData)
        ensures
            d@ == (IptcView {
                fields: Seq::new(11, |i: int| None::<Seq<char>>),
                keywords: Seq::empty(),
            }),
    {
        let d = IptcData {
            title: None,
            description: None,
            creator: None,
            rights: None,
            headline: None,
            city: None,
            country: None,
            credit: None,
            source: None,
            job_id: None,
            location: None,
            keywords: Vec::new(),
        };
        assert(d@ =~= (IptcView {
            fields: Seq::new(11, |i: int| None::<Seq<char>>),
            keywords: Seq::empty(),
        }));
        d
    }
}

/// A saved template: same fields as [`IptcData`], but values may contain
/// `{variables}` expanded per image at apply time.
#[derive(Clone, Debug, PartialEq, Eq)]
pub struct IptcTemplate {
    /// The template's name.
    pub name: String,
    pub title: Option<String>,
    pub description: Option<String>,
    pub creator: Option<String>,
    pub rights: Option<String>,
    pub headline: Option<String>,
    pub city: Option<String>,
    pub country: Option<String>,
    pub credit: Option<String>,
    pub source: Option<String>,
    pub job_id: Option<String>,
    pub location: Option<String>,
    pub keywords: Vec<String>,
}

impl View for IptcTemplate {
    type V = IptcView;

    open spec fn view(&self) -> IptcView {
        IptcView {
            fields: seq![
                text::opt_text(self.title),
                text::opt_text(self.description),
                text::opt_text(self.creator),
                text::opt_text(self.rights),
                text::opt_text(self.headline),
                text::opt_text(self.city),
                text::opt_text(self.country),
                text::opt_text(self.credit),
                text::opt_text(self.source),
                text::opt_text(self.job_id),
                text::opt_text(self.location),
            ],
            keywords: text::texts(self.keywords@),
        }
    }
}

impl Default for IptcTemplate {
    fn default() -> (t: IptcTemplate)
        ensures
            t.name@ == Seq::<char>::empty(),
            t@ == (IptcView {
                fields: Seq::new(11, |i: int| None::<Seq<char>>),
                keywords: Seq::empty(),
            }),
    {
        let t = IptcTemplate {
            name: String::new(),
            title: None,
            description: None,
            creator: None,
            rights: None,
            headline: None,
            city: None,
            country: None,
            credit: None,
            source: None,
            job_id: None,
            location: None,
            keywords: Vec::new(),
        };
        assert(t@ =~= (IptcView {
            fields: Seq::new(11, |i: int| None::<Seq<char>>),
            keywords: Seq::empty(),
        }));
        t
    }
}

/// The names of the eleven fields, in the order of their declaration.
pub open spec fn field_names() -> Seq<Seq<char>> {
    seq![
        "title"@,
        "description"@,
        "creator"@,
        "rights"@,
        "headline"@,
        "city"@,
        "country"@,
        "credit"@,
        "source"@,
        "job_id"@,
        "location"@,
    ]
}

/// Maximum `{seq:N}` padding width.
pub const SEQ_WIDTH_MAX: usize = 32;

/// Why a template cannot be used.
#[derive(Debug)]
pub enum IptcError {
    UnknownVariable { field: String, variable: String },
    UnclosedBrace { field: String },
    BadSeqWidth { field: String, width: String },
    Toml(String),
    Io(String),
}

/// What an [`IptcError`] says.
pub ghost enum IptcFault {
    UnknownVariable { field: Seq<char>, variable: Seq<char> },
    UnclosedBrace { field: Seq<char> },
    BadSeqWidth { field: Seq<char>, width: Seq<char> },
    Toml(Seq<char>),
    Io(Seq<char>),
}

impl View for IptcError {
    type V = IptcFault;

    open spec fn view(&self) -> IptcFault {
        match self {
            IptcError::UnknownVariable { field, variable } => IptcFault::UnknownVariable {
                field: field@,
                variable: variable@,
            },
            IptcError::UnclosedBrace { field } => IptcFault::UnclosedBrace { field: field@ },
            IptcError::BadSeqWidth { field, width } => IptcFault::BadSeqWidth {
                field: field@,
                width: width@,
            },
            IptcError::Toml(t) => IptcFault::Toml(t@),
            IptcError::Io(t) => IptcFault::Io(t@),
        }
    }
}

/// A fault in words.
pub open spec fn fault_words(f: IptcFault) -> Seq<char> {
    match f {
        IptcFault::UnknownVariable { field, variable } => "unknown variable {"@ + variable
            + "} in template field '"@ + field + "'"@,
        IptcFault::UnclosedBrace { field } => "unclosed '{' in template field '"@ + field
            + "' (escape literal braces as '{{')"@,
        IptcFault::BadSeqWidth { field, width } => "invalid {seq:"@ + width
            + "} in template field '"@ + field + "': the width must be 1..=32"@,
        IptcFault::Toml(t) => "templates file is not valid TOML: "@ + t,
        IptcFault::Io(t) => "templates I/O: "@ + t,
    }
}

impl IptcError {
    /// The message a report shows.
    pub fn text(&self) -> (s: String)
        ensures
            s@ == fault_words(self@),
    {
        match self {
            IptcError::UnknownVariable { field, variable } => {
                let mut s = "unknown variable {".to_string();
                s.append(variable.as_str());
                s.append("} in template field '");
                s.append(field.as_str());
                s.append("'");
                s
            },
            IptcError::UnclosedBrace { field } => {
                let mut s = "unclosed '{' in template field '".to_string();
                s.append(field.as_str());
                s.append("' (escape literal braces as '{{')");
                s
            },
            IptcError::BadSeqWidth { field, width } => {
                let mut s = "invalid {seq:".to_string();
                s.append(width.as_str());
                s.append("} in template field '");
                s.append(field.as_str());
                s.append("': the width must be 1..=32");
                s
            },
            IptcError::Toml(t) => {
                let mut s = "templates file is not valid TOML: ".to_string();
                s.append(t.as_str());
                s
            },
            IptcError::Io(t) => {
                let mut s = "templates I/O: ".to_string();
                s.append(t.as_str());
                s
            },
        }
    }
}

// ---------------------------------------------------------------- keywords
/// The Unicode default case folding of a text, as the `caseless` crate has
/// it.
pub uninterp spec fn folded(s: Seq<char>) -> Seq<char>;

/// `caseless::default_case_fold_str`: the default case folding of a text. It
/// depends on the text alone (a table of the crate, applied character by
/// character); what it is for a given text is not stated here.
#[verifier::external_body]
fn case_fold(s: &str) -> (r: String)
    ensures
        r@ == folded(s@),
{
    caseless::default_case_fold_str(s)
}

/// Is a keyword among these, whatever its case?
pub open spec fn known(list: Seq<Seq<char>>, kw: Seq<char>) -> bool {
    exists|i: int| 0 <= i < list.len() && folded(#[trigger] list[i]) == folded(kw)
}

/// The additive union: each new keyword goes to the end, unless it is empty
/// or already there in some case.
pub open spec fn union_of(list: Seq<Seq<char>>, incoming: Seq<Seq<char>>) -> Seq<Seq<char>>
    decreases incoming.len(),
{
    if incoming.len() == 0 {
        list
    } else {
        let sofar = union_of(list, incoming.drop_last());
        let kw = incoming.last();
        if known(sofar, kw) || kw.len() == 0 {
            sofar
        } else {
            sofar.push(kw)
        }
    }
}

/// Keywords, each with the key that it is compared by.
pub open spec fn keyed(words: Seq<Seq<char>>, keys: Seq<Seq<char>>) -> Seq<
    (Seq<char>, Seq<char>),
> {
    Seq::new(words.len(), |i: int| (words[i], keys[i]))
}

/// The keywords alone.
pub open spec fn words_of(list: Seq<(Seq<char>, Seq<char>)>) -> Seq<Seq<char>> {
    Seq::new(list.len(), |i: int| list[i].0)
}

pub open spec fn has_key(list: Seq<(Seq<char>, Seq<char>)>, key: Seq<char>) -> bool {
    exists|i: int| 0 <= i < list.len() && (#[trigger] list[i]).1 == key
}

/// The additive union by key: each new keyword goes to the end, unless it is
/// empty or its key is already there.
pub open spec fn merged(
    list: Seq<(Seq<char>, Seq<char>)>,
    incoming: Seq<(Seq<char>, Seq<char>)>,
) -> Seq<(Seq<char>, Seq<char>)>
    decreases incoming.len(),
{
    if incoming.len() == 0 {
        list
    } else {
        let sofar = merged(list, incoming.drop_last());
        let kw = incoming.last();
        if has_key(sofar, kw.1) || kw.0.len() == 0 {
            sofar
        } else {
            sofar.push(kw)
        }
    }
}

/// Each keyword with its case folding.
spec fn by_case(words: Seq<Seq<char>>) -> Seq<(Seq<char>, Seq<char>)> {
    Seq::new(words.len(), |i: int| (words[i], folded(words[i])))
}

proof fn lemma_merged_by_case(list: Seq<Seq<char>>, incoming: Seq<Seq<char>>)
    ensures
        merged(by_case(list), by_case(incoming)) == by_case(union_of(list, incoming)),
    decreases incoming.len(),
{
    if incoming.len() > 0 {
        let front = incoming.drop_last();
        let kw = incoming.last();
        lemma_merged_by_case(list, front);
        assert(by_case(incoming).drop_last() =~= by_case(front));
        assert(by_case(incoming).last() == (kw, folded(kw)));
        let u = union_of(list, front);
        if known(u, kw) {
            let i = choose|i: int| 0 <= i < u.len() && folded(#[trigger] u[i]) == folded(kw);
            assert(by_case(u)[i].1 == folded(kw));
        }
        if has_key(by_case(u), folded(kw)) {
            let i = choose|i: int|
                0 <= i < by_case(u).len() && (#[trigger] by_case(u)[i]).1 == folded(kw);
            assert(folded(u[i]) == folded(kw));
        }
        assert(by_case(u).push((kw, folded(kw))) =~= by_case(u.push(kw)));
    }
}

fn fold_all(words: &Vec<String>) -> (keys: Vec<String>)
    ensures
        keys@.len() == words@.len(),
        forall|i: int| 0 <= i < keys@.len() ==> (#[trigger] keys@[i])@ == folded(words@[i]@),
{
    let mut keys: Vec<String> = Vec::new();
    let mut i: usize = 0;
    while i < words.len()
        invariant
            i <= words@.len(),
            keys@.len() == i,
            forall|j: int| 0 <= j < i ==> (#[trigger] keys@[j])@ == folded(words@[j]@),
        decreases words@.len() - i,
    {
        keys.push(case_fold(words[i].as_str()));
        i = i + 1;
    }
    keys
}

impl IptcData {
    /// Additive keyword union (keyword apply never replaces).
    pub fn add_keywords(&mut self, incoming: Vec<String>)
        ensures
            final(self)@ == (IptcView {
                keywords: union_of(old(self)@.keywords, text::texts(incoming@)),
                ..old(self)@
            }),
    {
        let ghost before = self@;
        let own = fold_all(&self.keywords);
        let keys = fold_all(&incoming);
        proof {
            let list = before.keywords;
            let new = text::texts(incoming@);
            assert(keyed(list, text::texts(own@)) =~= by_case(list));
            assert(keyed(new, text::texts(keys@)) =~= by_case(new));
            lemma_merged_by_case(list, new);
            assert(words_of(by_case(union_of(list, new))) =~= union_of(list, new));
        }
        self.merge_keywords(own, incoming, keys);
    }

    /// The union of [`Self::add_keywords`], by keys that are given: `own`
    /// holds those of the keywords that are there, `keys` those of the
    /// incoming ones.
    pub fn merge_keywords(&mut self, own: Vec<String>, incoming: Vec<String>, keys: Vec<String>)
        requires
            own@.len() == old(self)@.keywords.len(),
            keys@.len() == incoming@.len(),
        ensures
            final(self)@ == (IptcView {
                keywords: words_of(
                    merged(
                        keyed(old(self)@.keywords, text::texts(own@)),
                        keyed(text::texts(incoming@), text::texts(keys@)),
                    ),
                ),
                ..old(self)@
            }),
    {
        let ghost before = self@;
        let ghost list = keyed(self@.keywords, text::texts(own@));
        let ghost new = keyed(text::texts(incoming@), text::texts(keys@));
        let mut own = own;
        let mut i: usize = 0;
        assert(new.take(0) =~= Seq::empty());
        while i < incoming.len()
            invariant
                i <= incoming@.len(),
                keys@.len() == incoming@.len(),
                own@.len() == self@.keywords.len(),
                new == keyed(text::texts(incoming@), text::texts(keys@)),
                self@.fields == before.fields,
                keyed(self@.keywords, text::texts(own@)) == merged(list, new.take(i as int)),
            decreases incoming@.len() - i,
        {
            let kw = &incoming[i];
            let key = &keys[i];
            let ghost sofar = keyed(self@.keywords, text::texts(own@));
            let mut found: bool = false;
            let mut k: usize = 0;
            while k < own.len()
                invariant
                    k <= own@.len(),
                    own@.len() == self@.keywords.len(),
                    sofar == keyed(self@.keywords, text::texts(own@)),
                    found == exists|j: int| 0 <= j < k && (#[trigger] sofar[j]).1 == key@,
                decreases own@.len() - k,
            {
                assert(sofar[k as int].1 == own@[k as int]@);
                if text::same(own[k].as_str(), key.as_str()) {
                    found = true;
                }
                k = k + 1;
            }
            proof {
                assert(new.take(i + 1).drop_last() =~= new.take(i as int));
                assert(new.take(i + 1).last() == (kw@, key@));
                assert(found == has_key(sofar, key@));
            }
            let empty: bool = kw.as_str().is_empty();
            if !found && !empty {
                self.keywords.push(kw.clone());
                own.push(key.clone());
                assert(keyed(self@.keywords, text::texts(own@)) =~= sofar.push((kw@, key@)));
            }
            i = i + 1;
        }
        proof {
            assert(new.take(i as int) =~= new);
            assert(words_of(keyed(self@.keywords, text::texts(own@))) =~= self@.keywords);
            assert(self@ =~= (IptcView { keywords: words_of(merged(list, new)), ..before }));
        }
    }
}

// --------------------------------------------------------------- variables
/// Per-image values the variables draw from. `seq`/batch width are supplied
/// by [`apply_template`] from the batch itself.
#[derive(Clone, Debug)]
pub struct ExpandContext {
    /// Capture date `YYYY-MM-DD` (EXIF DateTimeOriginal; mtime fallback —
    /// see [`ExpandContext::from_capture`]).
    pub date: String,
    /// Capture time `HHMMSS`.
    pub time: String,
    /// Original file stem, no extension.
    pub filename_stem: String,
    /// EXIF camera model, whitespace-normalized ("ILCE-1").
    pub camera: String,
    /// Original extension, uppercase ("ARW").
    pub ext_upper: String,
}

impl Default for ExpandContext {
    fn default() -> (c: ExpandContext)
        ensures
            c.date@ == Seq::<char>::empty(),
            c.time@ == Seq::<char>::empty(),
            c.filename_stem@ == Seq::<char>::empty(),
            c.camera@ == Seq::<char>::empty(),
            c.ext_upper@ == Seq::<char>::empty(),
    {
        ExpandContext {
            date: String::new(),
            time: String::new(),
            filename_stem: String::new(),
            camera: String::new(),
            ext_upper: String::new(),
        }
    }
}

/// The width that `{seq:N}` asks for: a number from 1 to 32.
pub open spec fn seq_width(arg: Seq<char>) -> Option<int> {
    let body = if arg.len() > 0 && arg[0] == '+' {
        arg.skip(1)
    } else {
        arg
    };
    if body.len() > 0 && text::all_digits(body) && 1 <= text::digits_value(body)
        <= SEQ_WIDTH_MAX {
        Some(text::digits_value(body))
    } else {
        None
    }
}

/// `seq:` in front of a width.
pub open spec fn is_seq_with_width(var: Seq<char>) -> bool {
    var.len() >= 4 && var[0] == 's' && var[1] == 'e' && var[2] == 'q' && var[3] == ':'
}

/// The value of one variable.
pub open spec fn variable_value(
    field: Seq<char>,
    var: Seq<char>,
    ctx: ExpandContext,
    seq: int,
    width: int,
) -> Result<Seq<char>, IptcFault> {
    if var == "date"@ {
        Ok(ctx.date@)
    } else if var == "time"@ {
        Ok(ctx.time@)
    } else if var == "filename"@ {
        Ok(ctx.filename_stem@)
    } else if var == "camera"@ {
        Ok(ctx.camera@)
    } else if var == "ext"@ {
        Ok(ctx.ext_upper@)
    } else if var == "seq"@ {
        Ok(text::zero_padded(text::decimal(seq), width))
    } else if is_seq_with_width(var) {
        match seq_width(var.skip(4)) {
            Some(n) => Ok(text::zero_padded(text::decimal(seq), n)),
            None => Err(IptcFault::BadSeqWidth { field, width: var.skip(4) }),
        }
    } else {
        Err(IptcFault::UnknownVariable { field, variable: var })
    }
}

/// A template text with its variables replaced, from the left.
pub open spec fn expanded(
    field: Seq<char>,
    s: Seq<char>,
    ctx: ExpandContext,
    seq: int,
    width: int,
) -> Result<Seq<char>, IptcFault>
    decreases s.len(),
{
    if s.len() == 0 {
        Ok(Seq::empty())
    } else if s[0] == '{' && s.len() > 1 && s[1] == '{' {
        in_front(seq!['{'], expanded(field, s.skip(2), ctx, seq, width))
    } else if s[0] == '}' && s.len() > 1 && s[1] == '}' {
        in_front(seq!['}'], expanded(field, s.skip(2), ctx, seq, width))
    } else if s[0] == '{' {
        let rest = s.skip(1);
        let end = text::find(rest, '}');
        if end < 0 || end >= rest.len() {
            Err(IptcFault::UnclosedBrace { field })
        } else {
            match variable_value(field, rest.take(end), ctx, seq, width) {
                Err(e) => Err(e),
                Ok(v) => in_front(v, expanded(field, rest.skip(end + 1), ctx, seq, width)),
            }
        }
    } else {
        in_front(seq![s[0]], expanded(field, s.skip(1), ctx, seq, width))
    }
}

/// A text in front of what follows, unless that failed.
pub open spec fn in_front(head: Seq<char>, rest: Result<Seq<char>, IptcFault>) -> Result<
    Seq<char>,
    IptcFault,
> {
    match rest {
        Ok(tail) => Ok(head + tail),
        Err(e) => Err(e),
    }
}

proof fn lemma_in_front(a: Seq<char>, b: Seq<char>, rest: Result<Seq<char>, IptcFault>)
    ensures
        in_front(a, in_front(b, rest)) == in_front(a + b, rest),
        in_front(Seq::empty(), rest) == rest,
{
    match rest {
        Ok(tail) => {
            assert(a + (b + tail) =~= a + b + tail);
            assert(Seq::<char>::empty() + tail =~= tail);
        },
        Err(_) => {},
    }
}

/// The width that `{seq}` pads to in a batch: that of the batch's length.
pub open spec fn batch_width(batch_len: int) -> int {
    text::decimal(
        if batch_len > 1 {
            batch_len
        } else {
            1
        },
    ).len() as int
}

/// The width that `{seq:N}` asks for, if it is one.
fn parse_width(arg: &Vec<char>) -> (r: Option<usize>)
    ensures
        match r {
            Some(n) => seq_width(arg@) == Some(n as int),
            None => seq_width(arg@) is None,
        },
{
    let from: usize = if arg.len() > 0 && arg[0] == '+' {
        1
    } else {
        0
    };
    let mut body: Vec<char> = Vec::new();
    let mut i: usize = from;
    while i < arg.len()
        invariant
            from <= i <= arg@.len(),
            body@ == arg@.subrange(from as int, i as int),
        decreases arg@.len() - i,
    {
        body.push(arg[i]);
        i = i + 1;
        assert(body@ =~= arg@.subrange(from as int, i as int));
    }
    assert(body@ =~= if arg@.len() > 0 && arg@[0] == '+' {
        arg@.skip(1)
    } else {
        arg@
    });
    // A second sign is no digit, so the number below is the body's own.
    if body.len() > 0 && (body[0] == '-' || body[0] == '+') {
        assert(!text::is_digit_char(body@[0]));
        return None;
    }
    match text::parse_i64(&body) {
        Some(n) => {
            if 1 <= n && n <= SEQ_WIDTH_MAX as i64 {
                Some(n as usize)
            } else {
                None
            }
        },
        None => None,
    }
}

fn variable(field: &str, var: &Vec<char>, ctx: &ExpandContext, seq: usize, width: usize) -> (r:
    Result<String, IptcError>)
    ensures
        match r {
            Ok(s) => variable_value(field@, var@, *ctx, seq as int, width as int) == Ok::<
                Seq<char>,
                IptcFault,
            >(s@),
            Err(e) => variable_value(field@, var@, *ctx, seq as int, width as int) == Err::<
                Seq<char>,
                IptcFault,
            >(e@),
        },
{
    let name = text::string_of(var);
    if text::same(name.as_str(), "date") {
        return Ok(ctx.date.clone());
    }
    if text::same(name.as_str(), "time") {
        return Ok(ctx.time.clone());
    }
    if text::same(name.as_str(), "filename") {
        return Ok(ctx.filename_stem.clone());
    }
    if text::same(name.as_str(), "camera") {
        return Ok(ctx.camera.clone());
    }
    if text::same(name.as_str(), "ext") {
        return Ok(ctx.ext_upper.clone());
    }
    if text::same(name.as_str(), "seq") {
        return Ok(text::padded_decimal(seq as u64, width));
    }
    if var.len() >= 4 && var[0] == 's' && var[1] == 'e' && var[2] == 'q' && var[3] == ':' {
        let arg_text = text::slice_of(var, 4, var.len());
        assert(arg_text@ =~= var@.skip(4));
        let arg = text::chars_of(arg_text.as_str());
        return match parse_width(&arg) {
            Some(n) => Ok(text::padded_decimal(seq as u64, n)),
            // A bad width is its own diagnosis, not an "unknown variable".
            None => Err(IptcError::BadSeqWidth { field: field.to_string(), width: arg_text }),
        };
    }
    Err(IptcError::UnknownVariable { field: field.to_string(), variable: name })
}

/// Expand one template field for one image. `seq` is 1-based; `batch_len`
/// sets the default zero-padding width (`{seq}` in a batch of 120 pads to
/// 3 digits); `{seq:N}` pads to N. Literal braces: `{{` / `}}`.
pub fn expand(
    field: &str,
    template: &str,
    ctx: &ExpandContext,
    seq: usize,
    batch_len: usize,
) -> (r: Result<String, IptcError>)
    ensures
        match r {
            Ok(s) => expanded(
                field@,
                template@,
                *ctx,
                seq as int,
                batch_width(batch_len as int),
            ) == Ok::<Seq<char>, IptcFault>(s@),
            Err(e) => expanded(
                field@,
                template@,
                *ctx,
                seq as int,
                batch_width(batch_len as int),
            ) == Err::<Seq<char>, IptcFault>(e@),
        },
{
    let longest: u64 = if batch_len > 1 {
        batch_len as u64
    } else {
        1
    };
    let width: usize = text::decimal_of(longest).as_str().unicode_len();
    let v = text::chars_of(template);
    let mut out = String::new();
    let mut i: usize = 0;
    let ghost whole = expanded(field@, v@, *ctx, seq as int, width as int);
    proof {
        assert(v@.skip(0) =~= v@);
        lemma_in_front(Seq::empty(), Seq::empty(), whole);
    }
    while i < v.len()
        invariant
            i <= v@.len(),
            whole == expanded(
                field@,
                template@,
                *ctx,
                seq as int,
                batch_width(batch_len as int),
            ),
            in_front(
                out@,
                expanded(field@, v@.skip(i as int), *ctx, seq as int, width as int),
            ) == whole,
        decreases v@.len() - i,
    {
        let c = v[i];
        let doubled: bool = i + 1 < v.len() && v[i + 1] == c;
        let ghost s = v@.skip(i as int);
        let ghost had = out@;
        assert(s[0] == c);
        assert(s.len() > 1 ==> s[1] == v@[i + 1]);
        if (c == '{' || c == '}') && doubled {
            assert(s.skip(2) =~= v@.skip(i + 2));
            proof {
                lemma_in_front(
                    had,
                    seq![c],
                    expanded(field@, s.skip(2), *ctx, seq as int, width as int),
                );
            }
            out.push(c);
            assert(out@ =~= had + seq![c]);
            i = i + 2;
        } else if c == '{' {
            let ghost rest = s.skip(1);
            assert(rest =~= v@.skip(i + 1));
            let mut var: Vec<char> = Vec::new();
            let mut j: usize = i + 1;
            while j < v.len() && v[j] != '}'
                invariant
                    i + 1 <= j <= v@.len(),
                    rest == v@.skip(i + 1),
                    var@ == v@.subrange(i + 1, j as int),
                    forall|k: int| 0 <= k < j - (i + 1) ==> #[trigger] rest[k] != '}',
                decreases v@.len() - j,
            {
                var.push(v[j]);
                assert(rest[j - (i + 1)] == v@[j as int]);
                j = j + 1;
                assert(var@ =~= v@.subrange(i + 1, j as int));
            }
            proof {
                text::lemma_find_is(rest, '}', j - (i + 1));
            }
            if j == v.len() {
                return Err(IptcError::UnclosedBrace { field: field.to_string() });
            }
            assert(var@ =~= rest.take(j - (i + 1)));
            match variable(field, &var, ctx, seq, width) {
                Ok(value) => {
                    proof {
                        let tail = rest.skip(j - (i + 1) + 1);
                        assert(tail =~= v@.skip(j + 1));
                        lemma_in_front(
                            had,
                            value@,
                            expanded(field@, tail, *ctx, seq as int, width as int),
                        );
                    }
                    out.append(value.as_str());
                },
                Err(e) => {
                    return Err(e);
                },
            }
            i = j + 1;
        } else {
            assert(s.skip(1) =~= v@.skip(i + 1));
            proof {
                lemma_in_front(
                    had,
                    seq![c],
                    expanded(field@, s.skip(1), *ctx, seq as int, width as int),
                );
            }
            out.push(c);
            assert(out@ =~= had + seq![c]);
            i = i + 1;
        }
    }
    assert(out@ + Seq::<char>::empty() =~= out@);
    Ok(out)
}

// ------------------------------------------------------------ the capture
/// What `str::to_uppercase` of std makes of a text.
pub uninterp spec fn uppercased(s: Seq<char>) -> Seq<char>;

/// The uppercase of an ASCII letter; any other character is its own.
pub open spec fn ascii_upper(c: char) -> char {
    if 'a' <= c <= 'z' {
        ((c as u32 - 32) as u32) as char
    } else {
        c
    }
}

/// `str::to_uppercase` of std: the Unicode uppercase of a text, which
/// depends on the text alone. Of an ASCII text it is the text with its
/// letters a to z in uppercase; what it is of other texts is not stated
/// here.
#[verifier::external_body]
fn uppercase(s: &str) -> (r: String)
    ensures
        r@ == uppercased(s@),
        vstd::utf8::is_ascii_chars(s@) ==> r@ == Seq::new(
            s@.len(),
            |i: int| ascii_upper(s@[i]),
        ),
{
    s.to_uppercase()
}

/// The extension of a file name; empty where it has none.
pub open spec fn extension_of(file_name: Seq<char>) -> Seq<char> {
    match text::ext_of(file_name) {
        Some(e) => e,
        None => Seq::empty(),
    }
}

/// Exactly `n` digits, not all zero.
pub open spec fn is_set_number(s: Seq<char>, n: int) -> bool {
    s.len() == n && text::all_digits(s) && exists|i: int| 0 <= i < s.len() && #[trigger] s[i] != '0'
}

/// A text without its colons.
pub open spec fn without_colons(s: Seq<char>) -> Seq<char>
    decreases s.len(),
{
    if s.len() == 0 {
        Seq::empty()
    } else if s.last() == ':' {
        without_colons(s.drop_last())
    } else {
        without_colons(s.drop_last()).push(s.last())
    }
}

/// The date `YYYY-MM-DD` and the time `HHMMSS` of an EXIF date. A clock that
/// was never set ("0000:00:00 00:00:00") has none.
pub open spec fn capture_of(exif: Seq<char>) -> Option<(Seq<char>, Seq<char>)> {
    let t = text::trimmed(exif);
    let sp = text::find(t, ' ');
    let date = t.take(sp);
    let time = without_colons(t.skip(sp + 1));
    match (text::piece(date, 0), text::piece(date, 1), text::piece(date, 2)) {
        (Some(y), Some(m), Some(d)) => if sp < t.len() && is_set_number(y, 4) && is_set_number(m, 2)
            && is_set_number(d, 2) && time.len() == 6 && text::all_digits(time) {
            Some((y + "-"@ + m + "-"@ + d, time))
        } else {
            None
        },
        _ => None,
    }
}

/// The UTC date `YYYY-MM-DD` of an instant, in seconds since the epoch.
pub open spec fn utc_date(secs: int) -> Seq<char> {
    let (y, m, d) = civil::date_of(secs / 86400);
    text::zero_padded(text::decimal(y), 4) + "-"@ + text::zero_padded(text::decimal(m), 2) + "-"@
        + text::zero_padded(text::decimal(d), 2)
}

/// The UTC time `HHMMSS` of an instant, in seconds since the epoch.
pub open spec fn utc_time(secs: int) -> Seq<char> {
    let sod = secs % 86400;
    text::zero_padded(text::decimal(sod / 3600), 2) + text::zero_padded(
        text::decimal(sod / 60 % 60),
        2,
    ) + text::zero_padded(text::decimal(sod % 60), 2)
}

fn set_number(v: &Vec<char>, n: usize) -> (b: bool)
    ensures
        b == is_set_number(v@, n as int),
{
    if v.len() != n {
        return false;
    }
    let mut i: usize = 0;
    let mut set: bool = false;
    while i < v.len()
        invariant
            i <= v@.len(),
            v@.len() == n,
            forall|j: int| 0 <= j < i ==> text::is_digit_char(#[trigger] v@[j]),
            set == exists|j: int| 0 <= j < i && #[trigger] v@[j] != '0',
        decreases v@.len() - i,
    {
        if !('0' <= v[i] && v[i] <= '9') {
            return false;
        }
        if v[i] != '0' {
            set = true;
        }
        i = i + 1;
    }
    set
}

fn drop_colons(v: &Vec<char>) -> (r: Vec<char>)
    ensures
        r@ == without_colons(v@),
{
    let mut r: Vec<char> = Vec::new();
    let mut i: usize = 0;
    assert(v@.take(0) =~= Seq::empty());
    while i < v.len()
        invariant
            i <= v@.len(),
            r@ == without_colons(v@.take(i as int)),
        decreases v@.len() - i,
    {
        assert(v@.take(i + 1).drop_last() =~= v@.take(i as int));
        if v[i] != ':' {
            r.push(v[i]);
        }
        i = i + 1;
    }
    assert(v@.take(i as int) =~= v@);
    r
}

fn digits_only(v: &Vec<char>) -> (b: bool)
    ensures
        b == text::all_digits(v@),
{
    let mut i: usize = 0;
    while i < v.len()
        invariant
            i <= v@.len(),
            forall|j: int| 0 <= j < i ==> text::is_digit_char(#[trigger] v@[j]),
        decreases v@.len() - i,
    {
        if !('0' <= v[i] && v[i] <= '9') {
            return false;
        }
        i = i + 1;
    }
    true
}

fn parse_capture(exif: &str) -> (r: Option<(String, String)>)
    ensures
        match r {
            Some((date, time)) => capture_of(exif@) == Some((date@, time@)),
            None => capture_of(exif@) is None,
        },
{
    reveal_with_fuel(text::piece, 3);
    let t = text::trimmed_chars(&text::chars_of(exif));
    let (date, clock) = text::cut(&t, ' ');
    let clock = clock?;
    let (y, rest) = text::cut(&date, ':');
    let rest = rest?;
    let (m, rest) = text::cut(&rest, ':');
    let rest = rest?;
    let (d, _) = text::cut(&rest, ':');
    if !set_number(&y, 4) || !set_number(&m, 2) || !set_number(&d, 2) {
        return None;
    }
    let time = drop_colons(&clock);
    if time.len() != 6 || !digits_only(&time) {
        return None;
    }
    let mut s = text::string_of(&y);
    s.append("-");
    s.append(text::string_of(&m).as_str());
    s.append("-");
    s.append(text::string_of(&d).as_str());
    Some((s, text::string_of(&time)))
}

/// UTC calendar date/time of an instant (seconds since the epoch), exact for
/// all of them.
pub fn mtime_date_time(secs: u64) -> (r: (String, String))
    requires
        secs <= i64::MAX,
    ensures
        r.0@ == utc_date(secs as int),
        r.1@ == utc_time(secs as int),
{
    let days: u64 = secs / 86_400;
    let sod: u64 = secs % 86_400;
    let z: u64 = days + 719_468;
    let era: u64 = z / 146_097;
    let doe: u64 = z % 146_097;
    proof {
        civil::lemma_date_of_day(days as int);
        civil::lemma_year_of_era_range(doe as int);
    }
    let yoe: u64 = (doe - doe / 1460 + doe / 36_524 - doe / 146_096) / 365;
    let y: u64 = yoe + era * 400;
    let doy: u64 = doe - (365 * yoe + yoe / 4 - yoe / 100);
    let mp: u64 = (5 * doy + 2) / 153;
    let d: u64 = doy - (153 * mp + 2) / 5 + 1;
    let m: u64 = if mp < 10 {
        mp + 3
    } else {
        mp - 9
    };
    let y: u64 = if m <= 2 {
        y + 1
    } else {
        y
    };
    assert(civil::date_of(days as int) == (y as int, m as int, d as int));
    let mut date = text::padded_decimal(y, 4);
    date.append("-");
    date.append(text::padded_decimal(m, 2).as_str());
    date.append("-");
    date.append(text::padded_decimal(d, 2).as_str());
    let mut time = text::padded_decimal(sod / 3600, 2);
    time.append(text::padded_decimal((sod / 60) % 60, 2).as_str());
    time.append(text::padded_decimal(sod % 60, 2).as_str());
    (date, time)
}

impl ExpandContext {
    /// Build date/time from an EXIF `DateTimeOriginal` ("YYYY:MM:DD
    /// HH:MM:SS"), falling back to the file's modification time (UTC, in
    /// seconds since the epoch) when absent or malformed.
    pub fn from_capture(
        exif_datetime: Option<&str>,
        mtime_secs: u64,
        file_name: &str,
        camera: Option<&str>,
    ) -> (c: ExpandContext)
        requires
            mtime_secs <= i64::MAX,
        ensures
            ({
                let parsed = match exif_datetime {
                    Some(dt) => capture_of(dt@),
                    None => None,
                };
                match parsed {
                    Some((date, time)) => c.date@ == date && c.time@ == time,
                    None => c.date@ == utc_date(mtime_secs as int) && c.time@ == utc_time(
                        mtime_secs as int,
                    ),
                }
            }),
            c.filename_stem@ == text::stem_of(file_name@),
            c.camera@ == match camera {
                Some(m) => text::squeezed(m@),
                None => Seq::empty(),
            },
            c.ext_upper@ == uppercased(extension_of(file_name@)),
            vstd::utf8::is_ascii_chars(extension_of(file_name@)) ==> c.ext_upper@ == Seq::new(
                extension_of(file_name@).len(),
                |i: int| ascii_upper(extension_of(file_name@)[i]),
            ),
    {
        let parsed = match exif_datetime {
            Some(dt) => parse_capture(dt),
            None => None,
        };
        let (date, time) = match parsed {
            Some(p) => p,
            None => mtime_date_time(mtime_secs),
        };
        let (stem, ext) = text::split_name(file_name);
        let ext = match ext {
            Some(e) => e,
            None => String::new(),
        };
        let camera = match camera {
            Some(m) => text::squeeze(m),
            None => String::new(),
        };
        ExpandContext { date, time, filename_stem: stem, camera, ext_upper: uppercase(ext.as_str()) }
    }
}

// ------------------------------------------------------------------- apply
/// What a template field makes of an image's field: absent preserves, blank
/// clears, anything else overwrites.
pub open spec fn field_after(
    name: Seq<char>,
    tpl: Option<Seq<char>>,
    was: Option<Seq<char>>,
    ctx: ExpandContext,
    seq: int,
    width: int,
) -> Result<Option<Seq<char>>, IptcFault> {
    match tpl {
        None => Ok(was),
        Some(t) => if text::is_blank(t) {
            Ok(None)
        } else {
            match expanded(name, t, ctx, seq, width) {
                Ok(v) => Ok(Some(v)),
                Err(e) => Err(e),
            }
        },
    }
}

/// The first field from `k` on that cannot be expanded.
pub open spec fn fields_fault(
    tpl: IptcView,
    ctx: ExpandContext,
    seq: int,
    width: int,
    k: int,
) -> Option<IptcFault>
    decreases 11 - k,
{
    if k < 0 || k >= 11 {
        None
    } else {
        match field_after(field_names()[k], tpl.fields[k], None, ctx, seq, width) {
            Err(e) => Some(e),
            Ok(_) => fields_fault(tpl, ctx, seq, width, k + 1),
        }
    }
}

/// The keywords of a template, expanded; the first that cannot be is the
/// error.
pub open spec fn keywords_after(
    keywords: Seq<Seq<char>>,
    ctx: ExpandContext,
    seq: int,
    width: int,
) -> Result<Seq<Seq<char>>, IptcFault>
    decreases keywords.len(),
{
    if keywords.len() == 0 {
        Ok(Seq::empty())
    } else {
        match keywords_after(keywords.drop_last(), ctx, seq, width) {
            Err(e) => Err(e),
            Ok(front) => match expanded("keywords"@, keywords.last(), ctx, seq, width) {
                Err(e) => Err(e),
                Ok(kw) => Ok(front.push(kw)),
            },
        }
    }
}

/// One image after a template.
pub open spec fn image_after(
    tpl: IptcView,
    image: IptcView,
    ctx: ExpandContext,
    seq: int,
    width: int,
) -> Result<IptcView, IptcFault> {
    match fields_fault(tpl, ctx, seq, width, 0) {
        Some(e) => Err(e),
        None => match keywords_after(tpl.keywords, ctx, seq, width) {
            Err(e) => Err(e),
            Ok(kws) => Ok(
                IptcView {
                    fields: Seq::new(
                        11,
                        |k: int|
                            field_after(
                                field_names()[k],
                                tpl.fields[k],
                                image.fields[k],
                                ctx,
                                seq,
                                width,
                            )->Ok_0,
                    ),
                    keywords: union_of(image.keywords, kws),
                },
            ),
        },
    }
}

/// The images of a batch from `i` on, after a template: all of them, or the
/// first error.
pub open spec fn batch_after(
    tpl: IptcView,
    images: Seq<IptcView>,
    ctxs: Seq<ExpandContext>,
    i: int,
) -> Result<Seq<IptcView>, IptcFault>
    decreases images.len() - i,
{
    if i < 0 || i >= images.len() {
        Ok(Seq::empty())
    } else {
        match image_after(tpl, images[i], ctxs[i], i + 1, batch_width(images.len() as int)) {
            Err(e) => Err(e),
            Ok(image) => match batch_after(tpl, images, ctxs, i + 1) {
                Err(e) => Err(e),
                Ok(rest) => Ok(seq![image] + rest),
            },
        }
    }
}

/// The models of some images.
pub open spec fn views(images: Seq<IptcData>) -> Seq<IptcView> {
    Seq::new(images.len(), |i: int| images[i]@)
}

fn plan_field(
    name: &str,
    tpl: &Option<String>,
    was: &Option<String>,
    ctx: &ExpandContext,
    seq: usize,
    batch_len: usize,
) -> (r: Result<Option<String>, IptcError>)
    ensures
        ({
            let after = field_after(
                name@,
                text::opt_text(*tpl),
                text::opt_text(*was),
                *ctx,
                seq as int,
                batch_width(batch_len as int),
            );
            match r {
                Ok(v) => after == Ok::<Option<Seq<char>>, IptcFault>(text::opt_text(v)),
                Err(e) => after == Err::<Option<Seq<char>>, IptcFault>(e@),
            }
        }),
{
    match tpl {
        None => Ok(text::copy_opt(was)),
        Some(raw) => {
            if text::blank(raw.as_str()) {
                Ok(None)
            } else {
                let v = expand(name, raw.as_str(), ctx, seq, batch_len)?;
                Ok(Some(v))
            }
        },
    }
}

fn plan_keywords(
    keywords: &Vec<String>,
    ctx: &ExpandContext,
    seq: usize,
    batch_len: usize,
) -> (r: Result<Vec<String>, IptcError>)
    ensures
        ({
            let after = keywords_after(
                text::texts(keywords@),
                *ctx,
                seq as int,
                batch_width(batch_len as int),
            );
            match r {
                Ok(v) => after == Ok::<Seq<Seq<char>>, IptcFault>(text::texts(v@)),
                Err(e) => after == Err::<Seq<Seq<char>>, IptcFault>(e@),
            }
        }),
{
    let ghost all = text::texts(keywords@);
    let ghost width = batch_width(batch_len as int);
    let mut out: Vec<String> = Vec::new();
    let mut i: usize = 0;
    assert(all.take(0) =~= Seq::empty());
    assert(text::texts(out@) =~= Seq::empty());
    while i < keywords.len()
        invariant
            i <= keywords@.len(),
            all == text::texts(keywords@),
            width == batch_width(batch_len as int),
            keywords_after(all.take(i as int), *ctx, seq as int, width) == Ok::<
                Seq<Seq<char>>,
                IptcFault,
            >(text::texts(out@)),
        decreases keywords@.len() - i,
    {
        let ghost had = text::texts(out@);
        proof {
            assert(all.take(i + 1).drop_last() =~= all.take(i as int));
            assert(all.take(i + 1).last() == keywords@[i as int]@);
        }
        match expand("keywords", keywords[i].as_str(), ctx, seq, batch_len) {
            Ok(kw) => {
                out.push(kw);
                assert(text::texts(out@) =~= had.push(kw@));
            },
            Err(e) => {
                proof {
                    lemma_keywords_fail(all, *ctx, seq as int, width, i + 1);
                }
                return Err(e);
            },
        }
        i = i + 1;
    }
    assert(all.take(i as int) =~= all);
    Ok(out)
}

/// An error among the first keywords is the error of them all.
proof fn lemma_keywords_fail(
    keywords: Seq<Seq<char>>,
    ctx: ExpandContext,
    seq: int,
    width: int,
    k: int,
)
    requires
        0 <= k <= keywords.len(),
        keywords_after(keywords.take(k), ctx, seq, width) is Err,
    ensures
        keywords_after(keywords, ctx, seq, width) == keywords_after(
            keywords.take(k),
            ctx,
            seq,
            width,
        ),
    decreases keywords.len() - k,
{
    if k < keywords.len() {
        assert(keywords.take(k + 1).drop_last() =~= keywords.take(k));
        lemma_keywords_fail(keywords, ctx, seq, width, k + 1);
    } else {
        assert(keywords.take(k) =~= keywords);
    }
}

fn plan_image(
    tpl: &IptcTemplate,
    image: &IptcData,
    ctx: &ExpandContext,
    seq: usize,
    batch_len: usize,
) -> (r: Result<IptcData, IptcError>)
    ensures
        ({
            let after = image_after(
                tpl@,
                image@,
                *ctx,
                seq as int,
                batch_width(batch_len as int),
            );
            match r {
                Ok(d) => after == Ok::<IptcView, IptcFault>(d@),
                Err(e) => after == Err::<IptcView, IptcFault>(e@),
            }
        }),
{
    reveal_with_fuel(fields_fault, 12);
    let title = plan_field("title", &tpl.title, &image.title, ctx, seq, batch_len)?;
    let description = plan_field("description", &tpl.description, &image.description, ctx, seq, batch_len)?;
    let creator = plan_field("creator", &tpl.creator, &image.creator, ctx, seq, batch_len)?;
    let rights = plan_field("rights", &tpl.rights, &image.rights, ctx, seq, batch_len)?;
    let headline = plan_field("headline", &tpl.headline, &image.headline, ctx, seq, batch_len)?;
    let city = plan_field("city", &tpl.city, &image.city, ctx, seq, batch_len)?;
    let country = plan_field("country", &tpl.country, &image.country, ctx, seq, batch_len)?;
    let credit = plan_field("credit", &tpl.credit, &image.credit, ctx, seq, batch_len)?;
    let source = plan_field("source", &tpl.source, &image.source, ctx, seq, batch_len)?;
    let job_id = plan_field("job_id", &tpl.job_id, &image.job_id, ctx, seq, batch_len)?;
    let location = plan_field("location", &tpl.location, &image.location, ctx, seq, batch_len)?;
    let keywords = plan_keywords(&tpl.keywords, ctx, seq, batch_len)?;
    let mut d = IptcData {
        title,
        description,
        creator,
        rights,
        headline,
        city,
        country,
        credit,
        source,
        job_id,
        location,
        keywords: text::copy_strings(&image.keywords),
    };
    let ghost fields = d@.fields;
    d.add_keywords(keywords);
    proof {
        let after = image_after(tpl@, image@, *ctx, seq as int, batch_width(batch_len as int));
        assert(after is Ok);
        assert(after->Ok_0.fields =~= fields);
    }
    Ok(d)
}

/// Apply a template to a batch: ABSENT fields preserve, fields that are
/// EMPTY AFTER TRIMMING clear, non-empty fields overwrite; keywords union
/// additively. ALL expansions run before ANY image is mutated. `images` and
/// `ctxs` are parallel, in the ACTIVE SORT ORDER (that order defines
/// `{seq}`). Returns the pre-apply snapshots for [`RevertSlot`].
pub fn apply_template(
    tpl: &IptcTemplate,
    images: &mut Vec<IptcData>,
    ctxs: &[ExpandContext],
) -> (r: Result<Vec<IptcData>, IptcError>)
    requires
        old(images)@.len() == ctxs@.len(),
    ensures
        ({
            let after = batch_after(tpl@, views(old(images)@), ctxs@, 0);
            match r {
                Ok(snapshots) => after == Ok::<Seq<IptcView>, IptcFault>(views(final(images)@))
                    && snapshots@ == old(images)@,
                Err(e) => after == Err::<Seq<IptcView>, IptcFault>(e@) && final(images)@ == old(
                    images,
                )@,
            }
        }),
{
    let n: usize = images.len();
    let ghost was = views(images@);
    let ghost whole = batch_after(tpl@, was, ctxs@, 0);
    let mut planned: Vec<IptcData> = Vec::new();
    let mut i: usize = 0;
    assert(whole == joined(views(planned@), batch_after(tpl@, was, ctxs@, 0))) by {
        match batch_after(tpl@, was, ctxs@, 0) {
            Ok(rest) => assert(views(planned@) + rest =~= rest),
            Err(_) => {},
        }
    }
    while i < n
        invariant
            n == images@.len(),
            n == ctxs@.len(),
            i <= n,
            images@ == old(images)@,
            was == views(images@),
            planned@.len() == i,
            whole == batch_after(tpl@, was, ctxs@, 0),
            whole == joined(views(planned@), batch_after(tpl@, was, ctxs@, i as int)),
        decreases n - i,
    {
        let ghost had = views(planned@);
        let image = plan_image(tpl, &images[i], &ctxs[i], i + 1, n)?;
        planned.push(image);
        proof {
            assert(views(planned@) =~= had.push(image@));
            match batch_after(tpl@, was, ctxs@, i + 1) {
                Ok(rest) => assert(had + (seq![image@] + rest) =~= views(planned@) + rest),
                Err(_) => {},
            }
        }
        i = i + 1;
    }
    assert(views(planned@) + Seq::<IptcView>::empty() =~= views(planned@));
    core::mem::swap(images, &mut planned);
    Ok(planned)
}

/// Some images in front of those that follow, unless that failed.
spec fn joined(head: Seq<IptcView>, rest: Result<Seq<IptcView>, IptcFault>) -> Result<
    Seq<IptcView>,
    IptcFault,
> {
    match rest {
        Ok(tail) => Ok(head + tail),
        Err(e) => Err(e),
    }
}

/// Single-level "Revert last apply": kept until the next apply; a second
/// revert is a no-op.
pub struct RevertSlot(Option<Vec<IptcData>>);

impl View for RevertSlot {
    type V = Option<Seq<IptcView>>;

    closed spec fn view(&self) -> Option<Seq<IptcView>> {
        match self.0 {
            Some(s) => Some(views(s@)),
            None => None,
        }
    }
}

impl Default for RevertSlot {
    fn default() -> (s: RevertSlot)
        ensures
            s@ is None,
    {
        RevertSlot(None)
    }
}

/// Images with the stored snapshots put back, as far as there are any.
pub open spec fn reverted(images: Seq<IptcView>, stored: Option<Seq<IptcView>>) -> Seq<IptcView> {
    match stored {
        None => images,
        Some(snap) => Seq::new(
            images.len(),
            |i: int|
                if i < snap.len() {
                    snap[i]
                } else {
                    images[i]
                },
        ),
    }
}

impl RevertSlot {
    /// Arm the slot with the snapshots of the batch just applied
    /// (replaces any previous level — single level only).
    pub fn store(&mut self, snapshots: Vec<IptcData>)
        ensures
            final(self)@ == Some(views(snapshots@)),
    {
        self.0 = Some(snapshots);
    }

    /// Restore the stored snapshots into `images` (parallel order as
    /// stored). Returns false (and does nothing) when already reverted.
    pub fn revert_into(&mut self, images: &mut Vec<IptcData>) -> (done: bool)
        ensures
            done == (old(self)@ is Some),
            final(self)@ is None,
            views(final(images)@) == reverted(views(old(images)@), old(self)@),
    {
        let ghost stored = self@;
        match self.0.take() {
            Some(snap) => {
                let ghost was = views(images@);
                let mut i: usize = 0;
                while i < images.len() && i < snap.len()
                    invariant
                        i <= images@.len(),
                        i <= snap@.len(),
                        images@.len() == was.len(),
                        was == views(old(images)@),
                        forall|j: int| 0 <= j < i ==> (#[trigger] images@[j])@ == snap@[j]@,
                        forall|j: int| i <= j < was.len() ==> (#[trigger] images@[j])@ == was[j],
                    decreases images@.len() - i,
                {
                    let s = snap[i].clone();
                    images.set(i, s);
                    i = i + 1;
                }
                assert(views(images@) =~= reverted(was, stored));
                true
            },
            None => false,
        }
    }
}

// ------------------------------------------------------------------- laws
/// Reverting undoes an apply, whatever the template: every image is as it
/// was, keywords and all. Reverting again changes nothing.
pub proof fn lemma_revert_undoes_apply(
    tpl: IptcView,
    images: Seq<IptcView>,
    ctxs: Seq<ExpandContext>,
)
    requires
        batch_after(tpl, images, ctxs, 0) is Ok,
    ensures
        reverted(batch_after(tpl, images, ctxs, 0)->Ok_0, Some(images)) == images,
        reverted(images, None) == images,
{
    lemma_batch_length(tpl, images, ctxs, 0);
    assert(reverted(batch_after(tpl, images, ctxs, 0)->Ok_0, Some(images)) =~= images);
}

/// An apply keeps the number of images.
pub proof fn lemma_batch_length(
    tpl: IptcView,
    images: Seq<IptcView>,
    ctxs: Seq<ExpandContext>,
    i: int,
)
    requires
        0 <= i <= images.len(),
        batch_after(tpl, images, ctxs, i) is Ok,
    ensures
        batch_after(tpl, images, ctxs, i)->Ok_0.len() == images.len() - i,
    decreases images.len() - i,
{
    if i < images.len() {
        lemma_batch_length(tpl, images, ctxs, i + 1);
    }
}

/// No two keywords of a list are the same but for case.
pub open spec fn no_repeats(list: Seq<Seq<char>>) -> bool {
    forall|i: int, j: int|
        0 <= i < j < list.len() ==> folded(#[trigger] list[i]) != folded(#[trigger] list[j])
}

/// The union keeps every keyword in its place and its spelling, adds no
/// keyword twice, and knows every keyword that was to be added.
pub proof fn lemma_union(list: Seq<Seq<char>>, incoming: Seq<Seq<char>>)
    ensures
        list.len() <= union_of(list, incoming).len(),
        union_of(list, incoming).take(list.len() as int) == list,
        no_repeats(list) ==> no_repeats(union_of(list, incoming)),
        forall|i: int|
            0 <= i < incoming.len() && (#[trigger] incoming[i]).len() > 0 ==> known(
                union_of(list, incoming),
                incoming[i],
            ),
    decreases incoming.len(),
{
    if incoming.len() == 0 {
        assert(list.take(list.len() as int) =~= list);
    } else {
        let front = incoming.drop_last();
        let kw = incoming.last();
        lemma_union(list, front);
        let sofar = union_of(list, front);
        let all = union_of(list, incoming);
        assert(all.take(list.len() as int) =~= sofar.take(list.len() as int));
        assert forall|i: int| 0 <= i < incoming.len() && (#[trigger] incoming[i]).len()
            > 0 implies known(all, incoming[i]) by {
            if i < front.len() {
                assert(front[i] == incoming[i]);
                let j = choose|j: int|
                    0 <= j < sofar.len() && folded(#[trigger] sofar[j]) == folded(incoming[i]);
                assert(all[j] == sofar[j]);
            } else if !known(sofar, kw) {
                assert(all[sofar.len() as int] == kw);
            }
        }
        if no_repeats(list) && all != sofar {
            assert forall|i: int, j: int| 0 <= i < j < all.len() implies folded(#[trigger] all[i])
                != folded(#[trigger] all[j]) by {
                assert(all[i] == sofar[i]);
                if j < sofar.len() {
                    assert(all[j] == sofar[j]);
                }
            }
        }
    }
}

// --------------------------------------------------------------- templates
/// Load result: templates that parsed, plus per-entry errors for the ones
/// that did not.
pub struct TemplateLoad {
    pub templates: Vec<IptcTemplate>,
    pub entry_errors: Vec<String>,
    /// Non-fatal load warnings: an empty-string field CLEARS on apply, and
    /// hand-edited files must hear about it BEFORE a stamp, not after.
    pub warnings: Vec<String>,
}

/// The contents of a templates file, as far as TOML knows them: one entry
/// per `[templates.<name>]` table, each a template or the reason why it is
/// none.
pub enum TemplatesFile {
    /// Not TOML.
    Invalid(String),
    /// No `templates` in it: valid, and empty.
    Absent,
    /// `templates` is something else than a table.
    NotATable,
    Entries(Vec<(String, Result<IptcTemplate, String>)>),
}

/// The warning about one blank field.
pub open spec fn blank_warning(name: Seq<char>, field: Seq<char>) -> Seq<char> {
    "template '"@ + name + "': empty '"@ + field
        + "' CLEARS that field on every image it is applied to"@
}

/// The warnings about the first `k` fields of a template.
pub open spec fn blank_warnings(name: Seq<char>, tpl: IptcView, k: int) -> Seq<Seq<char>>
    decreases k,
{
    if k <= 0 {
        Seq::empty()
    } else {
        let front = blank_warnings(name, tpl, k - 1);
        match tpl.fields[k - 1] {
            Some(t) => if text::is_blank(t) {
                front.push(blank_warning(name, field_names()[k - 1]))
            } else {
                front
            },
            None => front,
        }
    }
}

/// The names and models of some templates.
pub open spec fn template_views(v: Seq<IptcTemplate>) -> Seq<(Seq<char>, IptcView)> {
    Seq::new(v.len(), |i: int| (v[i].name@, v[i]@))
}

/// What an entry of the file is.
pub open spec fn entry_view(e: (String, Result<IptcTemplate, String>)) -> (
    Seq<char>,
    Result<IptcView, Seq<char>>,
) {
    (
        e.0@,
        match e.1 {
            Ok(t) => Ok(t@),
            Err(m) => Err(m@),
        },
    )
}

pub open spec fn entry_views(v: Seq<(String, Result<IptcTemplate, String>)>) -> Seq<
    (Seq<char>, Result<IptcView, Seq<char>>),
> {
    Seq::new(v.len(), |i: int| entry_view(v[i]))
}

/// The templates among some entries, in order.
pub open spec fn good_entries(
    e: Seq<(Seq<char>, Result<IptcView, Seq<char>>)>,
) -> Seq<(Seq<char>, IptcView)>
    decreases e.len(),
{
    if e.len() == 0 {
        Seq::empty()
    } else {
        match e.last().1 {
            Ok(t) => good_entries(e.drop_last()).push((e.last().0, t)),
            Err(_) => good_entries(e.drop_last()),
        }
    }
}

/// The complaints about the entries that are no templates, in order.
pub open spec fn bad_entries(e: Seq<(Seq<char>, Result<IptcView, Seq<char>>)>) -> Seq<Seq<char>>
    decreases e.len(),
{
    if e.len() == 0 {
        Seq::empty()
    } else {
        match e.last().1 {
            Ok(_) => bad_entries(e.drop_last()),
            Err(m) => bad_entries(e.drop_last()).push(
                "template '"@ + e.last().0 + "': "@ + m,
            ),
        }
    }
}

/// The warnings about the templates among some entries, in order.
pub open spec fn entry_warnings(
    e: Seq<(Seq<char>, Result<IptcView, Seq<char>>)>,
) -> Seq<Seq<char>>
    decreases e.len(),
{
    if e.len() == 0 {
        Seq::empty()
    } else {
        entry_warnings(e.drop_last()) + match e.last().1 {
            Ok(t) => blank_warnings(e.last().0, t, 11),
            Err(_) => Seq::empty(),
        }
    }
}

fn warn_blank(warnings: &mut Vec<String>, name: &str, field: &str, value: &Option<String>)
    ensures
        text::texts(final(warnings)@) == match text::opt_text(*value) {
            Some(t) => if text::is_blank(t) {
                text::texts(old(warnings)@).push(blank_warning(name@, field@))
            } else {
                text::texts(old(warnings)@)
            },
            None => text::texts(old(warnings)@),
        },
{
    if let Some(v) = value {
        if text::blank(v.as_str()) {
            let mut w = "template '".to_string();
            w.append(name);
            w.append("': empty '");
            w.append(field);
            w.append("' CLEARS that field on every image it is applied to");
            warnings.push(w);
            assert(text::texts(warnings@) =~= text::texts(old(warnings)@).push(
                blank_warning(name@, field@),
            ));
        }
    }
}

fn warn_all(warnings: &mut Vec<String>, name: &str, tpl: &IptcTemplate)
    ensures
        text::texts(final(warnings)@) == text::texts(old(warnings)@) + blank_warnings(
            name@,
            tpl@,
            11,
        ),
{
    reveal_with_fuel(blank_warnings, 12);
    let ghost had = text::texts(warnings@);
    warn_blank(warnings, name, "title", &tpl.title);
    assert(text::texts(warnings@) =~= had + blank_warnings(name@, tpl@, 1));
    warn_blank(warnings, name, "description", &tpl.description);
    assert(text::texts(warnings@) =~= had + blank_warnings(name@, tpl@, 2));
    warn_blank(warnings, name, "creator", &tpl.creator);
    assert(text::texts(warnings@) =~= had + blank_warnings(name@, tpl@, 3));
    warn_blank(warnings, name, "rights", &tpl.rights);
    assert(text::texts(warnings@) =~= had + blank_warnings(name@, tpl@, 4));
    warn_blank(warnings, name, "headline", &tpl.headline);
    assert(text::texts(warnings@) =~= had + blank_warnings(name@, tpl@, 5));
    warn_blank(warnings, name, "city", &tpl.city);
    assert(text::texts(warnings@) =~= had + blank_warnings(name@, tpl@, 6));
    warn_blank(warnings, name, "country", &tpl.country);
    assert(text::texts(warnings@) =~= had + blank_warnings(name@, tpl@, 7));
    warn_blank(warnings, name, "credit", &tpl.credit);
    assert(text::texts(warnings@) =~= had + blank_warnings(name@, tpl@, 8));
    warn_blank(warnings, name, "source", &tpl.source);
    assert(text::texts(warnings@) =~= had + blank_warnings(name@, tpl@, 9));
    warn_blank(warnings, name, "job_id", &tpl.job_id);
    assert(text::texts(warnings@) =~= had + blank_warnings(name@, tpl@, 10));
    warn_blank(warnings, name, "location", &tpl.location);
    assert(text::texts(warnings@) =~= had + blank_warnings(name@, tpl@, 11));
}

/// Sort the entries of a templates file: a corrupt entry is reported, the
/// others still load; a file that is no TOML is an error.
pub fn parse_templates(file: TemplatesFile) -> (r: Result<TemplateLoad, IptcError>)
    ensures
        match file {
            TemplatesFile::Invalid(t) => r is Err && r->Err_0@ == IptcFault::Toml(t@),
            TemplatesFile::NotATable => r is Err && r->Err_0@ == IptcFault::Toml(
                "'templates' must be a table"@,
            ),
            TemplatesFile::Absent => r is Ok && r->Ok_0.templates@.len() == 0
                && r->Ok_0.entry_errors@.len() == 0 && r->Ok_0.warnings@.len() == 0,
            TemplatesFile::Entries(entries) => {
                &&& r is Ok
                &&& template_views(r->Ok_0.templates@) == good_entries(entry_views(entries@))
                &&& text::texts(r->Ok_0.entry_errors@) == bad_entries(entry_views(entries@))
                &&& text::texts(r->Ok_0.warnings@) == entry_warnings(entry_views(entries@))
            },
        },
{
    let entries = match file {
        TemplatesFile::Invalid(t) => {
            return Err(IptcError::Toml(t));
        },
        TemplatesFile::NotATable => {
            return Err(IptcError::Toml("'templates' must be a table".to_string()));
        },
        TemplatesFile::Absent => {
            return Ok(
                TemplateLoad {
                    templates: Vec::new(),
                    entry_errors: Vec::new(),
                    warnings: Vec::new(),
                },
            );
        },
        TemplatesFile::Entries(e) => e,
    };
    let ghost all = entry_views(entries@);
    let mut templates: Vec<IptcTemplate> = Vec::new();
    let mut entry_errors: Vec<String> = Vec::new();
    let mut warnings: Vec<String> = Vec::new();
    assert(all.take(0) =~= Seq::empty());
    assert(template_views(templates@) =~= Seq::empty());
    assert(text::texts(entry_errors@) =~= Seq::empty());
    assert(text::texts(warnings@) =~= Seq::empty());
    for entry in it: entries
        invariant
            all == entry_views(it.seq()),
            template_views(templates@) == good_entries(all.take(it.index() as int)),
            text::texts(entry_errors@) == bad_entries(all.take(it.index() as int)),
            text::texts(warnings@) == entry_warnings(all.take(it.index() as int)),
    {
        let ghost k = it.index() as int;
        proof {
            assert(all.take(k + 1).drop_last() =~= all.take(k));
            assert(all.take(k + 1).last() == entry_view(entry));
        }
        let ghost had_t = template_views(templates@);
        let ghost had_e = text::texts(entry_errors@);
        let ghost had_w = text::texts(warnings@);
        let (name, value) = entry;
        match value {
            Ok(tpl) => {
                let mut tpl = tpl;
                let ghost v = tpl@;
                warn_all(&mut warnings, name.as_str(), &tpl);
                tpl.name = name;
                assert(tpl@ == v);
                templates.push(tpl);
                assert(template_views(templates@) =~= had_t.push((name@, v)));
            },
            Err(m) => {
                let mut e = "template '".to_string();
                e.append(name.as_str());
                e.append("': ");
                e.append(m.as_str());
                entry_errors.push(e);
                assert(text::texts(entry_errors@) =~= had_e.push(e@));
                assert(had_w + Seq::<Seq<char>>::empty() =~= had_w);
            },
        }
    }
    assert(all.take(all.len() as int) =~= all);
    Ok(TemplateLoad { templates, entry_errors, warnings })
}

} // verus!
