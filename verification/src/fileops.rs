//! Copy-picks engine: two-phase — an inspectable PLAN, then an EXECUTE with
//! BLAKE3 verification. Originals are never touched (copy, not move).
//!
//! COLLISION HANDLING, "the clash question": the disk decides, never the
//! session's memory. A plan is built with a [`ClashPolicy`]; the default
//! [`ClashPolicy::Ask`] only MARKS the names that are already occupied at
//! the destination (`PlanAction::Clash`) and refuses to run, so that one
//! question can be asked. The answer — overwrite everything, create copies,
//! or cancel — is a policy for the whole run, and the plan is rebuilt with
//! it.
//!
//! What is on disk comes in as plain answers: [`Planner::want`] names the
//! file that has to be looked up, [`Planner::answer`] takes what was found.
use crate::digest;
use crate::iptc;
use crate::text;
use vstd::prelude::*;
use vstd::string::*;

pub mod laws;

verus! {

/// What to do with destination names that are already occupied — the
/// user's answer to the clash question, as a policy for the whole run
/// rather than a per-file list.
#[derive(Clone, Copy, Debug, PartialEq, Eq, Structural)]
pub enum ClashPolicy {
    /// Build the plan, MARK every clashing image and count it, but resolve
    /// nothing.
    Ask,
    /// "Overwrite everything": clashing images are written in place.
    Overwrite,
    /// "Create copies": clashing images land under the first free numeric
    /// suffix, from `_1`, RAW and sidecar moving as a pair.
    CreateCopies,
}

#[derive(Clone, Copy, Debug, PartialEq, Eq, Structural)]
pub enum PlanAction {
    /// Copy RAW + sidecar to a destination pair that is FREE.
    Copy,
    /// As Copy, but the pair got a collision suffix (`_1`, `_2`, …) under
    /// [`ClashPolicy::CreateCopies`].
    CopyRenamed,
    /// The destination pair is occupied and the user answered "overwrite
    /// everything": this job MAY replace what is there — the only action
    /// allowed to.
    Replace,
    /// The destination pair is occupied and nothing has been decided yet
    /// ([`ClashPolicy::Ask`]). Never executed: it is the question.
    Clash,
}

/// One image's planned transfer.
#[derive(Clone, Debug, PartialEq, Eq)]
pub struct CopyJob {
    /// Session image id (badges + report wiring).
    pub id: usize,
    pub src_raw: String,
    /// The RAW's name in the destination folder.
    pub dst_raw: String,
    /// Present only when the source sidecar file exists.
    pub src_xmp: Option<String>,
    /// The sidecar's name in the destination folder.
    pub dst_xmp: String,
    pub action: PlanAction,
    /// The RAW's size.
    pub bytes: u64,
}

/// Why there is no plan.
#[derive(Debug)]
pub enum PlanError {
    DestEqualsSource,
    DestInsideSource,
    Template(iptc::IptcError),
    TemplateCollision { name: String, first: String, second: String },
    InsufficientSpace { needed: u64, free: u64 },
    Io(String),
}

/// What a [`PlanError`] says.
pub ghost enum PlanFault {
    DestEqualsSource,
    DestInsideSource,
    Template(iptc::IptcFault),
    TemplateCollision { name: Seq<char>, first: Seq<char>, second: Seq<char> },
    InsufficientSpace { needed: u64, free: u64 },
    Io(Seq<char>),
}

impl View for PlanError {
    type V = PlanFault;

    open spec fn view(&self) -> PlanFault {
        match self {
            PlanError::DestEqualsSource => PlanFault::DestEqualsSource,
            PlanError::DestInsideSource => PlanFault::DestInsideSource,
            PlanError::Template(e) => PlanFault::Template(e@),
            PlanError::TemplateCollision { name, first, second } => PlanFault::TemplateCollision {
                name: name@,
                first: first@,
                second: second@,
            },
            PlanError::InsufficientSpace { needed, free } => PlanFault::InsufficientSpace {
                needed: *needed,
                free: *free,
            },
            PlanError::Io(t) => PlanFault::Io(t@),
        }
    }
}

/// A fault in words.
pub open spec fn plan_fault_words(f: PlanFault) -> Seq<char> {
    match f {
        PlanFault::DestEqualsSource => "destination is the source folder itself"@,
        PlanFault::DestInsideSource => "destination is inside the source folder"@,
        PlanFault::Template(e) => "rename template: "@ + iptc::fault_words(e),
        PlanFault::TemplateCollision { name, first, second } => "template collision: '"@ + name
            + "' is produced by both "@ + first + " and "@ + second,
        PlanFault::InsufficientSpace { needed, free } => "not enough free space: need "@
            + text::decimal(needed as int) + " bytes, "@ + text::decimal(free as int)
            + " available"@,
        PlanFault::Io(t) => "I/O: "@ + t,
    }
}

impl PlanError {
    /// The message the dialog shows.
    pub fn text(&self) -> (s: String)
        ensures
            s@ == plan_fault_words(self@),
    {
        match self {
            PlanError::DestEqualsSource => "destination is the source folder itself".to_string(),
            PlanError::DestInsideSource => "destination is inside the source folder".to_string(),
            PlanError::Template(e) => {
                let mut s = "rename template: ".to_string();
                s.append(e.text().as_str());
                s
            },
            PlanError::TemplateCollision { name, first, second } => {
                let mut s = "template collision: '".to_string();
                s.append(name.as_str());
                s.append("' is produced by both ");
                s.append(first.as_str());
                s.append(" and ");
                s.append(second.as_str());
                s
            },
            PlanError::InsufficientSpace { needed, free } => {
                let mut s = "not enough free space: need ".to_string();
                s.append(text::decimal_of(*needed).as_str());
                s.append(" bytes, ");
                s.append(text::decimal_of(*free).as_str());
                s.append(" available");
                s
            },
            PlanError::Io(t) => {
                let mut s = "I/O: ".to_string();
                s.append(t.as_str());
                s
            },
        }
    }
}

/// The inspectable plan the dialog previews. `jobs` keep the input order
/// (= session sort order, the `{seq}` contract).
#[derive(Debug)]
pub struct CopyPlan {
    pub jobs: Vec<CopyJob>,
    /// Bytes that will be written under THIS policy (RAWs of every job that
    /// is not an unanswered `Clash`).
    pub total_bytes: u64,
    /// [`ClashPolicy::Ask`] only: the RAW bytes of the CLASHING images.
    pub clash_bytes: u64,
    /// None = "free space unknown", check skipped.
    pub free_bytes: Option<u64>,
    /// Images whose destination pair is occupied.
    pub clashes: usize,
    /// Of those, the ones where ONLY the sidecar name is taken.
    pub sidecar_only_clashes: usize,
    /// Jobs that took a `_k` suffix (`CreateCopies`).
    pub renamed: usize,
    /// Copied earlier this session but GONE from the destination. It decides
    /// nothing.
    pub recopied: usize,
}

impl Default for CopyPlan {
    /// The plan of nothing.
    fn default() -> (p: CopyPlan)
        ensures
            p.jobs@ == Seq::<CopyJob>::empty(),
            p.total_bytes == 0 && p.clash_bytes == 0 && p.free_bytes is None,
            p.clashes == 0 && p.sidecar_only_clashes == 0,
            p.renamed == 0 && p.recopied == 0,
    {
        CopyPlan {
            jobs: Vec::new(),
            total_bytes: 0,
            clash_bytes: 0,
            free_bytes: None,
            clashes: 0,
            sidecar_only_clashes: 0,
            renamed: 0,
            recopied: 0,
        }
    }
}

/// One picked image, in SESSION SORT ORDER.
pub struct PlanSource {
    pub id: usize,
    pub path: String,
    /// The file's name as it is on disk.
    pub name: String,
    pub size: u64,
    pub ctx: iptc::ExpandContext,
}

// ------------------------------------------------------------------- names
/// A name with a number: before the extension, or at the end where there is
/// none.
pub open spec fn suffixed_name(name: Seq<char>, k: int) -> Seq<char> {
    match text::ext_of(name) {
        Some(ext) => text::stem_of(name) + "_"@ + text::decimal(k) + "."@ + ext,
        None => name + "_"@ + text::decimal(k),
    }
}

/// `DSC01234.ARW` + 1 → `DSC01234_1.ARW` (suffix BEFORE the extension —
/// never `DSC01234.ARW_1`). Numbering starts at `_1`.
///
/// Public because the clash question shows the user the name a "keep
/// both" answer would produce.
pub fn suffixed(name: &str, k: usize) -> (s: String)
    ensures
        s@ == suffixed_name(name@, k as int),
{
    let (stem, ext) = text::split_name(name);
    let number = text::decimal_of(k as u64);
    match ext {
        Some(e) => {
            let mut s = stem;
            s.append("_");
            s.append(number.as_str());
            s.append(".");
            s.append(e.as_str());
            s
        },
        None => {
            let mut s = name.to_string();
            s.append("_");
            s.append(number.as_str());
            s
        },
    }
}

/// The sidecar's name for a RAW's name.
pub open spec fn xmp_name(raw: Seq<char>) -> Seq<char> {
    raw + ".xmp"@
}

/// The sidecar's file NAME for a RAW file name: `.xmp` is appended.
pub fn xmp_name_of(raw_name: &str) -> (s: String)
    ensures
        s@ == xmp_name(raw_name@),
{
    let mut s = raw_name.to_string();
    s.append(".xmp");
    s
}

/// Is `prefix` an initial part of `path`, component by component?
pub open spec fn is_inside(path: Seq<Seq<char>>, prefix: Seq<Seq<char>>) -> bool {
    prefix.len() <= path.len() && path.take(prefix.len() as int) == prefix
}

/// May a copy go to `dest`? Both folders are canonical paths, cut into their
/// components; `source` is the folder of the first picked image.
pub fn check_destination(dest: &Vec<String>, source: Option<&Vec<String>>) -> (r: Result<
    (),
    PlanError,
>)
    ensures
        match r {
            Ok(_) => source is None || !is_inside(text::texts(dest@), text::texts(source->0@)),
            Err(e) => source is Some && is_inside(text::texts(dest@), text::texts(source->0@))
                && e@ == if text::texts(dest@) == text::texts(source->0@) {
                PlanFault::DestEqualsSource
            } else {
                PlanFault::DestInsideSource
            },
        },
{
    let from = match source {
        Some(s) => s,
        None => {
            return Ok(());
        },
    };
    let ghost d = text::texts(dest@);
    let ghost s = text::texts(from@);
    if from.len() > dest.len() {
        return Ok(());
    }
    let mut i: usize = 0;
    while i < from.len()
        invariant
            i <= from@.len() <= dest@.len(),
            source == Some(from),
            d == text::texts(dest@),
            s == text::texts(from@),
            forall|j: int| 0 <= j < i ==> #[trigger] d[j] == s[j],
        decreases from@.len() - i,
    {
        if !text::same(dest[i].as_str(), from[i].as_str()) {
            assert(d[i as int] != s[i as int]);
            assert(d.take(s.len() as int)[i as int] == d[i as int]);
            return Ok(());
        }
        i = i + 1;
    }
    assert(d.take(s.len() as int) =~= s);
    if from.len() == dest.len() {
        assert(d =~= s);
        Err(PlanError::DestEqualsSource)
    } else {
        Err(PlanError::DestInsideSource)
    }
}

/// The destination names a template produces, before they are cleaned of
/// what a file name cannot hold: the original name without a template, or
/// the first image's error.
pub open spec fn names_from(
    sources: Seq<PlanSource>,
    template: Option<Seq<char>>,
    i: int,
) -> Result<Seq<Seq<char>>, iptc::IptcFault>
    decreases i,
{
    if i <= 0 {
        Ok(Seq::empty())
    } else {
        match names_from(sources, template, i - 1) {
            Err(e) => Err(e),
            Ok(front) => if template is None || text::is_blank(template->0) {
                Ok(front.push(sources[i - 1].name@))
            } else {
                match iptc::expanded(
                    "rename"@,
                    template->0,
                    sources[i - 1].ctx,
                    i,
                    iptc::batch_width(sources.len() as int),
                ) {
                    Err(e) => Err(e),
                    Ok(name) => Ok(front.push(name)),
                }
            },
        }
    }
}

proof fn lemma_names_fail(sources: Seq<PlanSource>, template: Option<Seq<char>>, k: int, i: int)
    requires
        0 <= k <= i,
        names_from(sources, template, k) is Err,
    ensures
        names_from(sources, template, i) == names_from(sources, template, k),
    decreases i - k,
{
    if k < i {
        lemma_names_fail(sources, template, k, i - 1);
    }
}

pub open spec fn opt_str(s: Option<&str>) -> Option<Seq<char>> {
    match s {
        Some(t) => Some(t@),
        None => None,
    }
}

/// Expand every destination name (all-or-nothing).
pub fn destination_names(sources: &Vec<PlanSource>, template: Option<&str>) -> (r: Result<
    Vec<String>,
    PlanError,
>)
    ensures
        ({
            let names = names_from(sources@, opt_str(template), sources@.len() as int);
            match r {
                Ok(v) => names == Ok::<Seq<Seq<char>>, iptc::IptcFault>(text::texts(v@)),
                Err(e) => names is Err && e@ == PlanFault::Template(names->Err_0),
            }
        }),
{
    let n: usize = sources.len();
    let original: bool = match template {
        None => true,
        Some(t) => text::blank(t),
    };
    let mut names: Vec<String> = Vec::new();
    let mut i: usize = 0;
    assert(text::texts(names@) =~= Seq::empty());
    while i < n
        invariant
            i <= n,
            n == sources@.len(),
            original == (template is None || text::is_blank(template->0@)),
            names_from(sources@, opt_str(template), i as int) == Ok::<
                Seq<Seq<char>>,
                iptc::IptcFault,
            >(text::texts(names@)),
        decreases n - i,
    {
        let s = &sources[i];
        let ghost had = text::texts(names@);
        if original {
            names.push(s.name.clone());
            assert(text::texts(names@) =~= had.push(s.name@));
        } else if let Some(t) = template {
            match iptc::expand("rename", t, &s.ctx, i + 1, n) {
                Ok(name) => {
                    names.push(name);
                    assert(text::texts(names@) =~= had.push(name@));
                },
                Err(e) => {
                    proof {
                        lemma_names_fail(sources@, opt_str(template), i + 1, n as int);
                    }
                    return Err(PlanError::Template(e));
                },
            }
        }
        i = i + 1;
    }
    Ok(names)
}

// ---------------------------------------------------------- the clash check
/// What was decided about one image's destination name.
#[derive(Clone, Debug)]
pub struct Decision {
    /// The name it will land under.
    pub name: String,
    pub action: PlanAction,
    /// The natural pair is occupied...
    pub clash: bool,
    /// ...and the RAW's name is part of it.
    pub raw_taken: bool,
}

/// What the destination holds: is there anything at all under this name?
pub type Disk = spec_fn(Seq<char>) -> bool;

/// The names that the first `i` decisions claim — RAW *and* sidecar.
pub open spec fn claimed(done: Seq<Decision>, i: int, name: Seq<char>) -> bool {
    exists|j: int|
        0 <= j < i && ((#[trigger] done[j]).name@ == name || xmp_name(done[j].name@) == name)
}

/// Is a name taken, on disk or by an earlier image of this plan?
pub open spec fn is_taken(disk: Disk, done: Seq<Decision>, i: int, name: Seq<char>) -> bool {
    disk(name) || claimed(done, i, name)
}

/// Is a pair free — the RAW's name and its sidecar's?
pub open spec fn pair_free(disk: Disk, done: Seq<Decision>, i: int, name: Seq<char>) -> bool {
    !is_taken(disk, done, i, name) && !is_taken(disk, done, i, xmp_name(name))
}

/// The decision about image `i`, given those before it: a free pair is
/// copied; an occupied one follows the answer. A suffix is the first whose
/// whole pair is free.
pub open spec fn decided(
    disk: Disk,
    policy: ClashPolicy,
    name: Seq<char>,
    done: Seq<Decision>,
    i: int,
) -> bool {
    let d = done[i];
    &&& d.raw_taken == is_taken(disk, done, i, name)
    &&& d.clash == !pair_free(disk, done, i, name)
    &&& if !d.clash {
        d.action == PlanAction::Copy && d.name@ == name
    } else {
        match policy {
            ClashPolicy::Ask => d.action == PlanAction::Clash && d.name@ == name,
            ClashPolicy::Overwrite => d.action == PlanAction::Replace && d.name@ == name,
            ClashPolicy::CreateCopies => d.action == PlanAction::CopyRenamed && exists|k: int|
                1 <= k && #[trigger] is_first_free(disk, done, i, name, k) && d.name@
                    == suffixed_name(name, k),
        }
    }
}

/// `k` is the first number whose pair is free.
pub open spec fn is_first_free(
    disk: Disk,
    done: Seq<Decision>,
    i: int,
    name: Seq<char>,
    k: int,
) -> bool {
    &&& pair_free(disk, done, i, suffixed_name(name, k))
    &&& forall|j: int|
        1 <= j < k ==> !pair_free(disk, done, i, #[trigger] suffixed_name(name, j))
}

/// Every image so far was decided as the disk and the answer say.
pub open spec fn all_decided(
    disk: Disk,
    policy: ClashPolicy,
    names: Seq<Seq<char>>,
    done: Seq<Decision>,
) -> bool {
    forall|i: int| 0 <= i < done.len() ==> #[trigger] decided(disk, policy, names[i], done, i)
}

/// Which name of an image is being looked up.
#[derive(Clone, Copy, Debug)]
pub enum Lookup {
    /// The RAW's own name.
    Raw,
    /// Its sidecar's.
    Sidecar { raw_taken: bool },
    /// The RAW's with number `k`.
    Suffix { raw_taken: bool, k: usize },
    /// Its sidecar's with number `k`.
    SuffixSidecar { raw_taken: bool, k: usize },
}

/// The clash check, on the FINAL names, without the disk: it asks about one
/// name at a time. Every name the plan claims counts as taken for the images
/// behind it: the pair is the unit, so a copy is never split across two
/// numbers and a RAW never lands beside a sidecar it does not own.
#[derive(Debug)]
pub struct Planner {
    policy: ClashPolicy,
    names: Vec<String>,
    done: Vec<Decision>,
    lookup: Lookup,
}

/// Images whose pair is free are copied.
pub open spec fn free_is_copied(done: Seq<Decision>) -> bool {
    forall|i: int|
        0 <= i < done.len() && !(#[trigger] done[i]).clash ==> done[i].action == PlanAction::Copy
}

/// The first image whose name an earlier one has already, and that earlier
/// one.
pub open spec fn is_collision(names: Seq<Seq<char>>, first: int, second: int) -> bool {
    &&& 0 <= first < second < names.len()
    &&& names[first] == names[second]
    &&& forall|i: int, j: int|
        0 <= i < j < second ==> #[trigger] names[i] != #[trigger] names[j]
}

pub open spec fn distinct(names: Seq<Seq<char>>) -> bool {
    forall|i: int, j: int|
        0 <= i < j < names.len() ==> #[trigger] names[i] != #[trigger] names[j]
}

/// One more decision was made, and this is it.
pub open spec fn is_decided_as(
    done: Seq<Decision>,
    more: Seq<Decision>,
    name: Seq<char>,
    action: PlanAction,
    clash: bool,
    raw_taken: bool,
) -> bool {
    &&& more.len() == done.len() + 1
    &&& more.drop_last() == done
    &&& more.last().name@ == name
    &&& more.last().action == action
    &&& more.last().clash == clash
    &&& more.last().raw_taken == raw_taken
}

/// What an answer makes of the decisions `done` and of the lookup for the
/// image of this name: `more` and `next`.
///
/// The RAW's name is followed by its sidecar's. If both are free, or the
/// answer to the question needs no other name, that decides the image.
/// Otherwise the numbers are tried from 1, RAW before sidecar: a taken name
/// goes on to the next number, and the first whose pair is free decides.
pub open spec fn is_answered(
    policy: ClashPolicy,
    name: Seq<char>,
    done: Seq<Decision>,
    lookup: Lookup,
    occupied: bool,
    more: Seq<Decision>,
    next: Lookup,
) -> bool {
    let i = done.len() as int;
    match lookup {
        Lookup::Raw => more == done && next == (Lookup::Sidecar {
            raw_taken: occupied || claimed(done, i, name),
        }),
        Lookup::Sidecar { raw_taken } => {
            let clash = raw_taken || occupied || claimed(done, i, xmp_name(name));
            if clash && policy == ClashPolicy::CreateCopies {
                more == done && next == (Lookup::Suffix { raw_taken, k: 1 })
            } else {
                let action = if !clash {
                    PlanAction::Copy
                } else if policy == ClashPolicy::Ask {
                    PlanAction::Clash
                } else {
                    PlanAction::Replace
                };
                next == Lookup::Raw && is_decided_as(done, more, name, action, clash, raw_taken)
            }
        },
        Lookup::Suffix { raw_taken, k } => {
            let candidate = suffixed_name(name, k as int);
            let taken = occupied || claimed(done, i, candidate) || claimed(
                done,
                i,
                xmp_name(candidate),
            );
            more == done && next == if taken {
                Lookup::Suffix { raw_taken, k: (k + 1) as usize }
            } else {
                Lookup::SuffixSidecar { raw_taken, k }
            }
        },
        Lookup::SuffixSidecar { raw_taken, k } => if occupied {
            more == done && next == (Lookup::Suffix { raw_taken, k: (k + 1) as usize })
        } else {
            next == Lookup::Raw && is_decided_as(
                done,
                more,
                suffixed_name(name, k as int),
                PlanAction::CopyRenamed,
                true,
                raw_taken,
            )
        },
    }
}

impl Planner {
    pub closed spec fn policy(&self) -> ClashPolicy {
        self.policy
    }

    /// The natural names of all images.
    pub closed spec fn names(&self) -> Seq<Seq<char>> {
        text::texts(self.names@)
    }

    /// What has been decided so far.
    pub closed spec fn done(&self) -> Seq<Decision> {
        self.done@
    }

    /// Which name of the first undecided image is being looked up.
    pub closed spec fn lookup(&self) -> Lookup {
        self.lookup
    }

    /// There are no more decisions than images, only a suffix search has a
    /// number, and what does not clash is copied.
    pub open spec fn wf(&self) -> bool {
        &&& self.done().len() <= self.names().len()
        &&& free_is_copied(self.done())
        &&& match self.lookup() {
            Lookup::Raw => true,
            Lookup::Sidecar { .. } => self.done().len() < self.names().len(),
            Lookup::Suffix { raw_taken, k } => self.done().len() < self.names().len() && 1 <= k
                && self.policy() == ClashPolicy::CreateCopies,
            Lookup::SuffixSidecar { raw_taken, k } => self.done().len() < self.names().len() && 1
                <= k && self.policy() == ClashPolicy::CreateCopies,
        }
    }

    /// The number of the suffix search can still go up.
    pub open spec fn can_count(&self) -> bool {
        match self.lookup() {
            Lookup::Suffix { raw_taken, k } => k < usize::MAX,
            Lookup::SuffixSidecar { raw_taken, k } => k < usize::MAX,
            _ => true,
        }
    }

    /// All that was decided and learned is what this disk says.
    pub open spec fn agrees(&self, disk: Disk) -> bool {
        let i = self.done().len() as int;
        let name = self.names()[i];
        let done = self.done();
        &&& all_decided(disk, self.policy(), self.names(), done)
        &&& match self.lookup() {
            Lookup::Raw => true,
            Lookup::Sidecar { raw_taken } => raw_taken == is_taken(disk, done, i, name),
            Lookup::Suffix { raw_taken, k } => {
                &&& raw_taken == is_taken(disk, done, i, name)
                &&& !pair_free(disk, done, i, name)
                &&& forall|j: int|
                    1 <= j < k ==> !pair_free(disk, done, i, #[trigger] suffixed_name(name, j))
            },
            Lookup::SuffixSidecar { raw_taken, k } => {
                &&& raw_taken == is_taken(disk, done, i, name)
                &&& !pair_free(disk, done, i, name)
                &&& forall|j: int|
                    1 <= j < k ==> !pair_free(disk, done, i, #[trigger] suffixed_name(name, j))
                &&& !is_taken(disk, done, i, suffixed_name(name, k as int))
                &&& !claimed(done, i, xmp_name(suffixed_name(name, k as int)))
            },
        }
    }

    /// The name that has to be looked up next, while any image is undecided.
    pub open spec fn wants(&self) -> Option<Seq<char>> {
        let i = self.done().len() as int;
        let name = self.names()[i];
        if i >= self.names().len() {
            None
        } else {
            Some(
                match self.lookup() {
                    Lookup::Raw => name,
                    Lookup::Sidecar { raw_taken } => xmp_name(name),
                    Lookup::Suffix { raw_taken, k } => suffixed_name(name, k as int),
                    Lookup::SuffixSidecar { raw_taken, k } => xmp_name(
                        suffixed_name(name, k as int),
                    ),
                },
            )
        }
    }

    /// Start with the final names of the images, in order. Two images of
    /// the same name are an error, not a question.
    pub fn new(sources: &Vec<PlanSource>, names: Vec<String>, policy: ClashPolicy) -> (r: Result<
        Planner,
        PlanError,
    >)
        requires
            sources@.len() == names@.len(),
        ensures
            match r {
                Ok(p) => {
                    &&& distinct(text::texts(names@))
                    &&& p.wf()
                    &&& p.policy() == policy
                    &&& p.names() == text::texts(names@)
                    &&& p.done().len() == 0
                    &&& p.lookup() == Lookup::Raw
                    &&& p.can_count()
                    &&& forall|disk: Disk| #[trigger] p.agrees(disk)
                },
                Err(e) => exists|first: int, second: int|
                    #[trigger] is_collision(text::texts(names@), first, second) && e@
                        == (PlanFault::TemplateCollision {
                        name: names@[second]@,
                        first: sources@[first].name@,
                        second: sources@[second].name@,
                    }),
            },
    {
        let ghost t = text::texts(names@);
        let mut i: usize = 0;
        while i < names.len()
            invariant
                i <= names@.len(),
                sources@.len() == names@.len(),
                t == text::texts(names@),
                forall|a: int, b: int| 0 <= a < b < i ==> #[trigger] t[a] != #[trigger] t[b],
            decreases names@.len() - i,
        {
            let mut j: usize = 0;
            while j < i
                invariant
                    j <= i < names@.len(),
                    sources@.len() == names@.len(),
                    t == text::texts(names@),
                    forall|a: int, b: int| 0 <= a < b < i ==> #[trigger] t[a] != #[trigger] t[b],
                    forall|a: int| 0 <= a < j ==> #[trigger] t[a] != t[i as int],
                decreases i - j,
            {
                if text::same(names[j].as_str(), names[i].as_str()) {
                    assert(is_collision(t, j as int, i as int));
                    return Err(
                        PlanError::TemplateCollision {
                            name: names[i].clone(),
                            first: sources[j].name.clone(),
                            second: sources[i].name.clone(),
                        },
                    );
                }
                j = j + 1;
            }
            i = i + 1;
        }
        Ok(Planner { policy, names, done: Vec::new(), lookup: Lookup::Raw })
    }

    /// The name to look up in the destination folder; nothing once every
    /// image is decided. Anything there counts: a file, a directory, a
    /// symlink, a broken one too.
    pub fn want(&self) -> (w: Option<String>)
        requires
            self.wf(),
        ensures
            text::opt_text(w) == self.wants(),
            w is None <==> self.done().len() == self.names().len(),
    {
        let i: usize = self.done.len();
        if i >= self.names.len() {
            return None;
        }
        let name = self.names[i].as_str();
        assert(self.names()[i as int] == name@);
        Some(
            match self.lookup {
                Lookup::Raw => name.to_string(),
                Lookup::Sidecar { raw_taken: _ } => xmp_name_of(name),
                Lookup::Suffix { raw_taken: _, k } => suffixed(name, k),
                Lookup::SuffixSidecar { raw_taken: _, k } => xmp_name_of(
                    suffixed(name, k).as_str(),
                ),
            },
        )
    }

    /// Is this name claimed by an image that is decided?
    fn is_claimed(&self, name: &str) -> (b: bool)
        ensures
            b == claimed(self.done@, self.done@.len() as int, name@),
    {
        let mut j: usize = 0;
        while j < self.done.len()
            invariant
                j <= self.done@.len(),
                forall|a: int|
                    0 <= a < j ==> (#[trigger] self.done@[a]).name@ != name@ && xmp_name(
                        self.done@[a].name@,
                    ) != name@,
            decreases self.done@.len() - j,
        {
            let other = self.done[j].name.as_str();
            if text::same(other, name) || text::same(xmp_name_of(other).as_str(), name) {
                return true;
            }
            j = j + 1;
        }
        false
    }

    fn decide(&mut self, name: String, action: PlanAction, clash: bool, raw_taken: bool)
        ensures
            final(self).policy == old(self).policy,
            final(self).names == old(self).names,
            final(self).lookup is Raw,
            final(self).done@ == old(self).done@.push(Decision { name, action, clash, raw_taken }),
    {
        self.done.push(Decision { name, action, clash, raw_taken });
        self.lookup = Lookup::Raw;
    }

    /// Take what was found under the name that [`Planner::want`] gave.
    pub fn answer(&mut self, occupied: bool)
        requires
            old(self).wf(),
            old(self).can_count(),
            old(self).wants() is Some,
        ensures
            final(self).wf(),
            final(self).policy() == old(self).policy(),
            final(self).names() == old(self).names(),
            is_answered(
                old(self).policy(),
                old(self).names()[old(self).done().len() as int],
                old(self).done(),
                old(self).lookup(),
                occupied,
                final(self).done(),
                final(self).lookup(),
            ),
            // Whatever the disk is: if this is its answer, what has been
            // decided is what it says.
            forall|disk: Disk|
                #[trigger] old(self).agrees(disk) && disk(old(self).wants()->0) == occupied
                    ==> final(self).agrees(disk),
    {
        let ghost before = *self;
        let i: usize = self.done.len();
        let name = self.names[i].clone();
        let ghost n = name@;
        assert(self.names()[i as int] == n);
        match self.lookup {
            Lookup::Raw => {
                let raw_taken: bool = occupied || self.is_claimed(name.as_str());
                self.lookup = Lookup::Sidecar { raw_taken };
            },
            Lookup::Sidecar { raw_taken } => {
                let xmp = xmp_name_of(name.as_str());
                let clash: bool = raw_taken || occupied || self.is_claimed(xmp.as_str());
                if !clash {
                    self.decide(name, PlanAction::Copy, false, raw_taken);
                } else {
                    match self.policy {
                        ClashPolicy::Ask => self.decide(name, PlanAction::Clash, true, raw_taken),
                        ClashPolicy::Overwrite => self.decide(
                            name,
                            PlanAction::Replace,
                            true,
                            raw_taken,
                        ),
                        ClashPolicy::CreateCopies => {
                            self.lookup = Lookup::Suffix { raw_taken, k: 1 };
                        },
                    }
                }
                proof {
                    if self.done@.len() > i {
                        assert(self.done@.take(i as int) =~= before.done@);
                        assert(self.done@.drop_last() =~= before.done@);
                    }
                    lemma_decide_step(before, *self, occupied);
                }
            },
            Lookup::Suffix { raw_taken, k } => {
                let candidate = suffixed(name.as_str(), k);
                let xmp = xmp_name_of(candidate.as_str());
                if occupied || self.is_claimed(candidate.as_str()) || self.is_claimed(
                    xmp.as_str(),
                ) {
                    self.lookup = Lookup::Suffix { raw_taken, k: k + 1 };
                } else {
                    self.lookup = Lookup::SuffixSidecar { raw_taken, k };
                }
            },
            Lookup::SuffixSidecar { raw_taken, k } => {
                if occupied {
                    self.lookup = Lookup::Suffix { raw_taken, k: k + 1 };
                } else {
                    let candidate = suffixed(name.as_str(), k);
                    self.decide(candidate, PlanAction::CopyRenamed, true, raw_taken);
                }
                proof {
                    if self.done@.len() > i {
                        assert(self.done@.take(i as int) =~= before.done@);
                        assert(self.done@.drop_last() =~= before.done@);
                    }
                    lemma_suffix_step(before, *self, occupied);
                }
            },
        }
    }
}

/// Claims of the first decisions do not change when one more is made.
proof fn lemma_claims_stay(done: Seq<Decision>, more: Seq<Decision>, i: int, name: Seq<char>)
    requires
        0 <= i <= done.len(),
        done.len() <= more.len(),
        more.take(done.len() as int) == done,
    ensures
        claimed(more, i, name) == claimed(done, i, name),
{
    assert forall|j: int| 0 <= j < i implies #[trigger] more[j] == done[j] by {
        assert(more.take(done.len() as int)[j] == more[j]);
    }
    if claimed(done, i, name) {
        let j = choose|j: int|
            0 <= j < i && ((#[trigger] done[j]).name@ == name || xmp_name(done[j].name@) == name);
        assert(more[j].name@ == name || xmp_name(more[j].name@) == name);
    }
    if claimed(more, i, name) {
        let j = choose|j: int|
            0 <= j < i && ((#[trigger] more[j]).name@ == name || xmp_name(more[j].name@) == name);
        assert(done[j].name@ == name || xmp_name(done[j].name@) == name);
    }
}

/// What was decided stays decided when one more decision is made.
proof fn lemma_decisions_stay(
    disk: Disk,
    policy: ClashPolicy,
    names: Seq<Seq<char>>,
    done: Seq<Decision>,
    d: Decision,
)
    requires
        all_decided(disk, policy, names, done),
        decided(disk, policy, names[done.len() as int], done.push(d), done.len() as int),
    ensures
        all_decided(disk, policy, names, done.push(d)),
{
    let more = done.push(d);
    assert(more.take(done.len() as int) =~= done);
    assert forall|i: int| 0 <= i < more.len() implies #[trigger] decided(
        disk,
        policy,
        names[i],
        more,
        i,
    ) by {
        if i < done.len() {
            let name = names[i];
            assert(decided(disk, policy, name, done, i));
            assert(more[i] == done[i]);
            assert forall|x: Seq<char>| #[trigger] claimed(more, i, x) == claimed(done, i, x) by {
                lemma_claims_stay(done, more, i, x);
            }
            assert forall|x: Seq<char>| #[trigger] pair_free(disk, more, i, x) == pair_free(
                disk,
                done,
                i,
                x,
            ) by {}
            assert(is_taken(disk, more, i, name) == is_taken(disk, done, i, name));
            if done[i].clash && policy == ClashPolicy::CreateCopies {
                let k = choose|k: int|
                    1 <= k && #[trigger] is_first_free(disk, done, i, name, k) && done[i].name@
                        == suffixed_name(name, k);
                assert(is_first_free(disk, more, i, name, k));
            }
        }
    }
}

proof fn lemma_decide_step(before: Planner, after: Planner, occupied: bool)
    requires
        before.wf(),
        before.lookup is Sidecar,
        after.policy == before.policy,
        after.names == before.names,
        ({
            let i = before.done@.len() as int;
            let name = before.names()[i];
            let raw_taken = before.lookup->Sidecar_raw_taken;
            let clash = raw_taken || occupied || claimed(before.done@, i, xmp_name(name));
            if clash && before.policy == ClashPolicy::CreateCopies {
                after.done == before.done && after.lookup == (Lookup::Suffix { raw_taken, k: 1 })
            } else {
                &&& after.lookup is Raw
                &&& after.done@.len() == i + 1
                &&& after.done@.take(i) == before.done@
                &&& after.done@[i].name@ == name
                &&& after.done@[i].clash == clash
                &&& after.done@[i].raw_taken == raw_taken
                &&& after.done@[i].action == if !clash {
                    PlanAction::Copy
                } else if before.policy == ClashPolicy::Ask {
                    PlanAction::Clash
                } else {
                    PlanAction::Replace
                }
            }
        }),
    ensures
        forall|disk: Disk|
            #[trigger] before.agrees(disk) && disk(before.wants()->0) == occupied
                ==> after.agrees(disk),
{
    let i = before.done@.len() as int;
    let name = before.names()[i];
    assert forall|disk: Disk|
        #[trigger] before.agrees(disk) && disk(before.wants()->0) == occupied implies after.agrees(
        disk,
    ) by {
        if after.lookup is Raw {
            let d = after.done@[i];
            assert(after.done@ =~= before.done@.push(d));
            assert forall|x: Seq<char>| #[trigger] claimed(after.done@, i, x) == claimed(
                before.done@,
                i,
                x,
            ) by {
                lemma_claims_stay(before.done@, after.done@, i, x);
            }
            assert(decided(disk, before.policy, name, after.done@, i));
            lemma_decisions_stay(disk, before.policy, before.names(), before.done@, d);
        }
    }
}

proof fn lemma_suffix_step(before: Planner, after: Planner, occupied: bool)
    requires
        before.wf(),
        before.lookup is SuffixSidecar,
        after.policy == before.policy,
        after.names == before.names,
        ({
            let i = before.done@.len() as int;
            let name = before.names()[i];
            let raw_taken = before.lookup->SuffixSidecar_raw_taken;
            let k = before.lookup->SuffixSidecar_k;
            if occupied {
                k < usize::MAX && after.done == before.done && after.lookup == (Lookup::Suffix {
                    raw_taken,
                    k: (k + 1) as usize,
                })
            } else {
                &&& after.lookup is Raw
                &&& after.done@.len() == i + 1
                &&& after.done@.take(i) == before.done@
                &&& after.done@[i].name@ == suffixed_name(name, k as int)
                &&& after.done@[i].clash
                &&& after.done@[i].raw_taken == raw_taken
                &&& after.done@[i].action == PlanAction::CopyRenamed
            }
        }),
    ensures
        forall|disk: Disk|
            #[trigger] before.agrees(disk) && disk(before.wants()->0) == occupied
                ==> after.agrees(disk),
{
    let i = before.done@.len() as int;
    let name = before.names()[i];
    let k = before.lookup->SuffixSidecar_k as int;
    assert forall|disk: Disk|
        #[trigger] before.agrees(disk) && disk(before.wants()->0) == occupied implies after.agrees(
        disk,
    ) by {
        if after.lookup is Raw {
            let d = after.done@[i];
            assert(after.done@ =~= before.done@.push(d));
            assert forall|x: Seq<char>| #[trigger] claimed(after.done@, i, x) == claimed(
                before.done@,
                i,
                x,
            ) by {
                lemma_claims_stay(before.done@, after.done@, i, x);
            }
            assert(is_first_free(disk, after.done@, i, name, k));
            assert(decided(disk, before.policy, name, after.done@, i));
            lemma_decisions_stay(disk, before.policy, before.names(), before.done@, d);
        }
    }
}

impl Planner {
    /// The decisions, once every image has one.
    pub fn decisions(&self) -> (d: &Vec<Decision>)
        ensures
            d@ == self.done(),
    {
        &self.done
    }
}

// ---------------------------------------------------------------- the plan
/// What is known about one picked image besides its destination name.
pub struct SourceFacts {
    /// Its sidecar file exists.
    pub has_sidecar: bool,
    /// For each copy of it that this session made, in order: did it land in
    /// THIS destination folder, and is it still there?
    pub landed: Vec<(bool, bool)>,
}

/// A copy landed here, and it is gone. The first one that landed here
/// decides.
pub open spec fn copy_gone(landed: Seq<(bool, bool)>) -> bool
    decreases landed.len(),
{
    if landed.len() == 0 {
        false
    } else if landed[0].0 {
        !landed[0].1
    } else {
        copy_gone(landed.drop_first())
    }
}

/// How many of the first `i` flags are set.
pub open spec fn count_set(flags: spec_fn(int) -> bool, i: int) -> nat
    decreases i,
{
    if i <= 0 {
        0
    } else {
        count_set(flags, i - 1) + if flags(i - 1) {
            1nat
        } else {
            0nat
        }
    }
}

/// The sizes of those among the first `i` images that are flagged.
pub open spec fn bytes_set(sources: Seq<PlanSource>, flags: spec_fn(int) -> bool, i: int) -> int
    decreases i,
{
    if i <= 0 {
        0
    } else {
        bytes_set(sources, flags, i - 1) + if flags(i - 1) {
            sources[i - 1].size as int
        } else {
            0
        }
    }
}

proof fn lemma_bytes_grow(sources: Seq<PlanSource>, flags: spec_fn(int) -> bool, i: int, n: int)
    requires
        i <= n,
    ensures
        0 <= bytes_set(sources, flags, i) <= bytes_set(sources, flags, n),
    decreases n - i, i,
{
    if i < n {
        lemma_bytes_grow(sources, flags, i, n - 1);
    } else if i > 0 {
        lemma_bytes_grow(sources, flags, i - 1, i - 1);
    }
}

proof fn lemma_bytes_less(
    sources: Seq<PlanSource>,
    few: spec_fn(int) -> bool,
    many: spec_fn(int) -> bool,
    i: int,
)
    requires
        forall|j: int| few(j) ==> #[trigger] many(j),
    ensures
        bytes_set(sources, few, i) <= bytes_set(sources, many, i),
    decreases i,
{
    if i > 0 {
        lemma_bytes_less(sources, few, many, i - 1);
        assert(few(i - 1) ==> many(i - 1));
    }
}

pub open spec fn is_written(done: Seq<Decision>) -> spec_fn(int) -> bool {
    |i: int| 0 <= i < done.len() && done[i].action != PlanAction::Clash
}

pub open spec fn is_asked(done: Seq<Decision>) -> spec_fn(int) -> bool {
    |i: int| 0 <= i < done.len() && done[i].action == PlanAction::Clash
}

pub open spec fn is_clash_free(done: Seq<Decision>) -> spec_fn(int) -> bool {
    |i: int| 0 <= i < done.len() && !done[i].clash
}

/// What must fit depends on the answer. Under "create copies" every
/// clashing image is a NEW file, so the whole total must fit. Before the
/// answer, and under "overwrite everything", only the CLASH-FREE total is
/// required.
pub open spec fn needed_bytes(
    sources: Seq<PlanSource>,
    done: Seq<Decision>,
    policy: ClashPolicy,
) -> int {
    if policy == ClashPolicy::CreateCopies {
        bytes_set(sources, is_written(done), done.len() as int)
    } else {
        bytes_set(sources, is_clash_free(done), done.len() as int)
    }
}

/// The job of one image.
pub open spec fn is_job(job: CopyJob, s: PlanSource, f: SourceFacts, d: Decision) -> bool {
    &&& job.id == s.id
    &&& job.src_raw@ == s.path@
    &&& job.dst_raw@ == d.name@
    &&& text::opt_text(job.src_xmp) == if f.has_sidecar {
        Some(xmp_name(s.path@))
    } else {
        None
    }
    &&& job.dst_xmp@ == xmp_name(d.name@)
    &&& job.action == d.action
    &&& job.bytes == s.size
}

fn is_gone(landed: &Vec<(bool, bool)>) -> (b: bool)
    ensures
        b == copy_gone(landed@),
{
    let mut i: usize = 0;
    assert(landed@.skip(0) =~= landed@);
    while i < landed.len()
        invariant
            i <= landed@.len(),
            copy_gone(landed@) == copy_gone(landed@.skip(i as int)),
        decreases landed@.len() - i,
    {
        let (here, exists_still) = landed[i];
        if here {
            return !exists_still;
        }
        assert(landed@.skip(i as int).drop_first() =~= landed@.skip(i + 1));
        i = i + 1;
    }
    false
}

/// The plan that these decisions make, or the refusal where what must fit
/// does not.
pub open spec fn is_plan(
    r: Result<CopyPlan, PlanError>,
    done: Seq<Decision>,
    policy: ClashPolicy,
    sources: Seq<PlanSource>,
    facts: Seq<SourceFacts>,
    free_bytes: Option<u64>,
) -> bool {
    let n = sources.len() as int;
    let needed = needed_bytes(sources, done, policy);
    match r {
        Err(e) => free_bytes is Some && needed > free_bytes->0 && e@
            == (PlanFault::InsufficientSpace { needed: needed as u64, free: free_bytes->0 }),
        Ok(p) => {
            &&& free_bytes is None || needed <= free_bytes->0
            &&& p.free_bytes == free_bytes
            &&& p.jobs@.len() == n
            &&& forall|i: int|
                0 <= i < n ==> is_job(#[trigger] p.jobs@[i], sources[i], facts[i], done[i])
            &&& p.total_bytes == bytes_set(sources, is_written(done), n)
            &&& p.clash_bytes == bytes_set(sources, is_asked(done), n)
            &&& p.clashes == count_set(|i: int| done[i].clash, n)
            &&& p.sidecar_only_clashes == count_set(
                |i: int| done[i].clash && !done[i].raw_taken,
                n,
            )
            &&& p.renamed == count_set(|i: int| done[i].action == PlanAction::CopyRenamed, n)
            &&& p.recopied == count_set(|i: int| copy_gone(facts[i].landed@), n)
        },
    }
}

/// Two jobs that do the same.
pub open spec fn same_job(a: CopyJob, b: CopyJob) -> bool {
    &&& a.id == b.id
    &&& a.src_raw@ == b.src_raw@
    &&& a.dst_raw@ == b.dst_raw@
    &&& text::opt_text(a.src_xmp) == text::opt_text(b.src_xmp)
    &&& a.dst_xmp@ == b.dst_xmp@
    &&& a.action == b.action
    &&& a.bytes == b.bytes
}

/// Session memory never decides what is copied. Two plans of the same images,
/// with the same decisions, files on the disk and free space, are refused
/// alike or do the same, whatever this session copied before; they may differ
/// in `recopied` alone.
pub proof fn lemma_session_memory_decides_nothing(
    done: Seq<Decision>,
    policy: ClashPolicy,
    sources: Seq<PlanSource>,
    facts: Seq<SourceFacts>,
    others: Seq<SourceFacts>,
    free_bytes: Option<u64>,
    r: Result<CopyPlan, PlanError>,
    s: Result<CopyPlan, PlanError>,
)
    requires
        facts.len() == sources.len(),
        others.len() == sources.len(),
        forall|i: int|
            0 <= i < facts.len() ==> (#[trigger] facts[i]).has_sidecar == others[i].has_sidecar,
        is_plan(r, done, policy, sources, facts, free_bytes),
        is_plan(s, done, policy, sources, others, free_bytes),
    ensures
        match (r, s) {
            (Err(a), Err(b)) => a@ == b@,
            (Ok(p), Ok(q)) => {
                &&& p.jobs@.len() == q.jobs@.len()
                &&& forall|i: int|
                    0 <= i < p.jobs@.len() ==> same_job(#[trigger] p.jobs@[i], q.jobs@[i])
                &&& p.total_bytes == q.total_bytes
                &&& p.clash_bytes == q.clash_bytes
                &&& p.free_bytes == q.free_bytes
                &&& p.clashes == q.clashes
                &&& p.sidecar_only_clashes == q.sidecar_only_clashes
                &&& p.renamed == q.renamed
            },
            _ => false,
        },
{
    if let (Ok(p), Ok(q)) = (r, s) {
        assert forall|i: int| 0 <= i < p.jobs@.len() implies same_job(
            #[trigger] p.jobs@[i],
            q.jobs@[i],
        ) by {
            assert(is_job(p.jobs@[i], sources[i], facts[i], done[i]));
            assert(is_job(q.jobs@[i], sources[i], others[i], done[i]));
        }
    }
}

/// Build the plan from the decisions. `free_bytes` is what the volume has
/// left, None when it does not say.
pub fn plan(
    planner: &Planner,
    sources: &Vec<PlanSource>,
    facts: &Vec<SourceFacts>,
    free_bytes: Option<u64>,
) -> (r: Result<CopyPlan, PlanError>)
    requires
        planner.wf(),
        planner.done().len() == sources@.len(),
        facts@.len() == sources@.len(),
        bytes_set(sources@, is_written(planner.done()), sources@.len() as int) <= u64::MAX,
        bytes_set(sources@, is_asked(planner.done()), sources@.len() as int) <= u64::MAX,
    ensures
        is_plan(r, planner.done(), planner.policy(), sources@, facts@, free_bytes),
{
    let n: usize = sources.len();
    let ghost done = planner.done();
    let ghost written = is_written(done);
    let ghost asked = is_asked(done);
    let ghost free = is_clash_free(done);
    let ghost clashing = |i: int| done[i].clash;
    let ghost sidecars = |i: int| done[i].clash && !done[i].raw_taken;
    let ghost suffixes = |i: int| done[i].action == PlanAction::CopyRenamed;
    let ghost gone = |i: int| copy_gone(facts@[i].landed@);
    let decisions = planner.decisions();
    let mut jobs: Vec<CopyJob> = Vec::new();
    let mut total_bytes: u64 = 0;
    let mut clash_bytes: u64 = 0;
    let mut clash_free_bytes: u64 = 0;
    let mut clashes: usize = 0;
    let mut sidecar_only: usize = 0;
    let mut renamed: usize = 0;
    let mut recopied: usize = 0;
    let mut i: usize = 0;
    while i < n
        invariant
            i <= n,
            n == sources@.len(),
            n == facts@.len(),
            n == done.len(),
            done == planner.done(),
            free_is_copied(done),
            decisions@ == done,
            written == is_written(done),
            asked == is_asked(done),
            free == is_clash_free(done),
            clashing == (|i: int| done[i].clash),
            sidecars == (|i: int| done[i].clash && !done[i].raw_taken),
            suffixes == (|i: int| done[i].action == PlanAction::CopyRenamed),
            gone == (|i: int| copy_gone(facts@[i].landed@)),
            bytes_set(sources@, written, n as int) <= u64::MAX,
            bytes_set(sources@, asked, n as int) <= u64::MAX,
            jobs@.len() == i,
            forall|j: int|
                0 <= j < i ==> is_job(#[trigger] jobs@[j], sources@[j], facts@[j], done[j]),
            total_bytes == bytes_set(sources@, written, i as int),
            clash_bytes == bytes_set(sources@, asked, i as int),
            clash_free_bytes == bytes_set(sources@, free, i as int),
            clashes == count_set(clashing, i as int),
            sidecar_only == count_set(sidecars, i as int),
            renamed == count_set(suffixes, i as int),
            recopied == count_set(gone, i as int),
            clashes <= i,
            sidecar_only <= i,
            renamed <= i,
            recopied <= i,
        decreases n - i,
    {
        let s = &sources[i];
        let d = &decisions[i];
        proof {
            lemma_bytes_grow(sources@, written, i + 1, n as int);
            lemma_bytes_grow(sources@, asked, i + 1, n as int);
            assert forall|j: int| free(j) implies #[trigger] written(j) by {}
            lemma_bytes_less(sources@, free, written, i + 1);
        }
        if d.clash {
            clashes = clashes + 1;
            if !d.raw_taken {
                sidecar_only = sidecar_only + 1;
            }
        }
        if d.action == PlanAction::CopyRenamed {
            renamed = renamed + 1;
        }
        if is_gone(&facts[i].landed) {
            recopied = recopied + 1;
        }
        if d.action == PlanAction::Clash {
            clash_bytes = clash_bytes + s.size;
        } else {
            total_bytes = total_bytes + s.size;
        }
        if !d.clash {
            clash_free_bytes = clash_free_bytes + s.size;
        }
        let src_xmp = if facts[i].has_sidecar {
            Some(xmp_name_of(s.path.as_str()))
        } else {
            None
        };
        jobs.push(
            CopyJob {
                id: s.id,
                src_raw: s.path.clone(),
                dst_raw: d.name.clone(),
                src_xmp,
                dst_xmp: xmp_name_of(d.name.as_str()),
                action: d.action,
                bytes: s.size,
            },
        );
        i = i + 1;
    }
    let needed: u64 = match planner.policy {
        ClashPolicy::CreateCopies => total_bytes,
        _ => clash_free_bytes,
    };
    if let Some(f) = free_bytes {
        if needed > f {
            return Err(PlanError::InsufficientSpace { needed, free: f });
        }
    }
    Ok(
        CopyPlan {
            jobs,
            total_bytes,
            clash_bytes,
            free_bytes,
            clashes,
            sidecar_only_clashes: sidecar_only,
            renamed,
            recopied,
        },
    )
}

// -------------------------------------------------------- the session memory
/// One copy that landed.
#[derive(Debug, Clone)]
pub struct LandedCopy {
    pub id: usize,
    pub path: String,
    /// Re-checked by [`SessionCopies::refresh`]: false once the file is
    /// found missing.
    pub present: bool,
}

/// What this session copied WHERE: the RAW path(s) each image landed at,
/// one per destination folder, in the order they landed.
///
/// READS ONLY: the grid's ✓ copied badge and the "copied earlier but gone"
/// note. It has no say in what is copied. A copy counts only while it is
/// still on disk.
#[derive(Debug, Clone)]
pub struct SessionCopies {
    landed: Vec<LandedCopy>,
}

/// The model of one landed copy: image, path, still there.
pub open spec fn landed_views(v: Seq<LandedCopy>) -> Seq<(usize, Seq<char>, bool)> {
    Seq::new(v.len(), |i: int| (v[i].id, v[i].path@, v[i].present))
}

impl View for SessionCopies {
    type V = Seq<(usize, Seq<char>, bool)>;

    closed spec fn view(&self) -> Seq<(usize, Seq<char>, bool)> {
        landed_views(self.landed@)
    }
}

impl Default for SessionCopies {
    fn default() -> (s: SessionCopies)
        ensures
            s@ == Seq::<(usize, Seq<char>, bool)>::empty(),
    {
        let s = SessionCopies { landed: Vec::new() };
        assert(s@ =~= Seq::empty());
        s
    }
}

/// The copies of other images, and those of this one in other folders.
pub open spec fn kept_copies(
    all: Seq<(usize, Seq<char>, bool)>,
    id: usize,
    same_folder: Seq<bool>,
) -> Seq<(usize, Seq<char>, bool)>
    decreases all.len(),
{
    if all.len() == 0 {
        Seq::empty()
    } else {
        let front = kept_copies(all.drop_last(), id, same_folder);
        let k = all.len() - 1;
        if all[k].0 == id && same_folder[k] {
            front
        } else {
            front.push(all[k])
        }
    }
}

/// The paths of one image's copies, in the order they landed.
pub open spec fn paths_of(all: Seq<(usize, Seq<char>, bool)>, id: usize) -> Seq<Seq<char>>
    decreases all.len(),
{
    if all.len() == 0 {
        Seq::empty()
    } else if all.last().0 == id {
        paths_of(all.drop_last(), id).push(all.last().1)
    } else {
        paths_of(all.drop_last(), id)
    }
}

impl SessionCopies {
    /// Every copy, in the order they landed.
    pub fn entries(&self) -> (e: &Vec<LandedCopy>)
        ensures
            landed_views(e@) == self@,
    {
        &self.landed
    }

    /// A RAW finished a verified copy and landed at `path`. Replaces an
    /// earlier entry in the same folder (a re-copy after a hand deletion
    /// supersedes the gone one); other folders' entries are kept.
    /// `same_folder` says of each entry whether it lies in the folder of
    /// `path`, however either is spelled.
    pub fn record(&mut self, id: usize, path: String, same_folder: &Vec<bool>)
        requires
            same_folder@.len() == old(self)@.len(),
        ensures
            final(self)@ == kept_copies(old(self)@, id, same_folder@).push((id, path@, true)),
    {
        let ghost all = self@;
        let mut kept: Vec<LandedCopy> = Vec::new();
        let mut i: usize = 0;
        assert(all.take(0) =~= Seq::empty());
        assert(landed_views(kept@) =~= Seq::empty());
        while i < self.landed.len()
            invariant
                i <= self.landed@.len(),
                all == landed_views(self.landed@),
                same_folder@.len() == all.len(),
                landed_views(kept@) == kept_copies(all.take(i as int), id, same_folder@),
            decreases self.landed@.len() - i,
        {
            let e = &self.landed[i];
            let ghost had = landed_views(kept@);
            assert(all.take(i + 1).drop_last() =~= all.take(i as int));
            assert(all.take(i + 1)[i as int] == (e.id, e.path@, e.present));
            if !(e.id == id && same_folder[i]) {
                kept.push(LandedCopy { id: e.id, path: e.path.clone(), present: e.present });
                assert(landed_views(kept@) =~= had.push((e.id, e.path@, e.present)));
            }
            i = i + 1;
        }
        assert(all.take(i as int) =~= all);
        let ghost had = landed_views(kept@);
        kept.push(LandedCopy { id, path, present: true });
        assert(landed_views(kept@) =~= had.push((id, path@, true)));
        self.landed = kept;
    }

    /// Take what a new look at every copy's path found, so
    /// [`SessionCopies::is_copied`] follows what is on disk.
    pub fn refresh(&mut self, there: &Vec<bool>)
        requires
            there@.len() == old(self)@.len(),
        ensures
            final(self)@ == Seq::new(
                old(self)@.len(),
                |i: int| (old(self)@[i].0, old(self)@[i].1, there@[i]),
            ),
    {
        let ghost all = self@;
        let mut fresh: Vec<LandedCopy> = Vec::new();
        let mut i: usize = 0;
        while i < self.landed.len()
            invariant
                i <= self.landed@.len(),
                all == landed_views(self.landed@),
                there@.len() == all.len(),
                fresh@.len() == i,
                forall|j: int|
                    0 <= j < i ==> (#[trigger] fresh@[j]).id == all[j].0 && fresh@[j].path@
                        == all[j].1 && fresh@[j].present == there@[j],
            decreases self.landed@.len() - i,
        {
            let e = &self.landed[i];
            fresh.push(LandedCopy { id: e.id, path: e.path.clone(), present: there[i] });
            i = i + 1;
        }
        self.landed = fresh;
        assert(self@ =~= Seq::new(all.len(), |i: int| (all[i].0, all[i].1, there@[i])));
    }

    /// Is a copy of `id` still there, in any destination? The grid badge.
    pub fn is_copied(&self, id: usize) -> (b: bool)
        ensures
            b == exists|i: int| 0 <= i < self@.len() && (#[trigger] self@[i]).0 == id && self@[i].2,
    {
        let mut i: usize = 0;
        while i < self.landed.len()
            invariant
                i <= self.landed@.len(),
                self@ == landed_views(self.landed@),
                forall|j: int| 0 <= j < i ==> !((#[trigger] self@[j]).0 == id && self@[j].2),
            decreases self.landed@.len() - i,
        {
            assert(self@[i as int].0 == self.landed@[i as int].id);
            if self.landed[i].id == id && self.landed[i].present {
                return true;
            }
            i = i + 1;
        }
        false
    }

    /// Every path `id` landed at this session, any destination.
    pub fn landed_paths(&self, id: usize) -> (paths: Vec<String>)
        ensures
            text::texts(paths@) == paths_of(self@, id),
    {
        let ghost all = self@;
        let mut paths: Vec<String> = Vec::new();
        let mut i: usize = 0;
        assert(all.take(0) =~= Seq::empty());
        assert(text::texts(paths@) =~= Seq::empty());
        while i < self.landed.len()
            invariant
                i <= self.landed@.len(),
                all == landed_views(self.landed@),
                text::texts(paths@) == paths_of(all.take(i as int), id),
            decreases self.landed@.len() - i,
        {
            let ghost had = text::texts(paths@);
            assert(all.take(i + 1).drop_last() =~= all.take(i as int));
            assert(all.take(i + 1).last() == (
                self.landed@[i as int].id,
                self.landed@[i as int].path@,
                self.landed@[i as int].present,
            ));
            if self.landed[i].id == id {
                paths.push(self.landed[i].path.clone());
                assert(text::texts(paths@) =~= had.push(self.landed@[i as int].path@));
            }
            i = i + 1;
        }
        assert(all.take(i as int) =~= all);
        paths
    }
}

// ----------------------------------------------------------------- execute
/// What a run says while it works.
#[derive(Debug)]
pub enum CopyEvent {
    /// Before each file (1-based index over plan jobs). `action` is what
    /// this job is about to do, so the progress line can say "checking" for
    /// an overwrite rather than claiming a transfer that may never happen.
    File { index: usize, total: usize, name: String, action: PlanAction },
    Failed { id: usize, name: String, reason: String },
    Finished(CopyReport),
}

/// What a run did.
#[derive(Debug, Clone)]
pub struct CopyReport {
    /// RAWs actually transferred and verified.
    pub copied: usize,
    /// Of those, the ones that landed under a `_k` name ("create copies").
    pub renamed: usize,
    /// Of those, the ones that replaced a file that was already there
    /// ("overwrite everything").
    pub replaced: usize,
    /// Clashing RAWs whose destination copy was already byte-identical to
    /// the source: BLAKE3-verified in place, not re-transferred.
    pub identical: usize,
    /// Sidecars rewritten ALONE, beside such an identical RAW.
    pub refreshed: usize,
    /// The first name that actually landed under a `_k` suffix.
    pub renamed_example: Option<String>,
    /// (name, reason)
    pub failed: Vec<(String, String)>,
    /// True iff every byte this run wrote or checked was BLAKE3-verified
    /// against the source stream — the "green light to format the card"
    /// sentence.
    pub all_verified: bool,
    pub cancelled: bool,
    /// Every id whose RAW is now at the destination because of this run —
    /// transferred or verified identical — with the name it landed under.
    pub landed: Vec<(usize, String)>,
}

/// The model of a [`CopyReport`].
#[verifier::ext_equal]
pub ghost struct ReportView {
    pub copied: int,
    pub renamed: int,
    pub replaced: int,
    pub identical: int,
    pub refreshed: int,
    pub renamed_example: Option<Seq<char>>,
    pub failed: Seq<(Seq<char>, Seq<char>)>,
    pub all_verified: bool,
    pub cancelled: bool,
    pub landed: Seq<(usize, Seq<char>)>,
}

pub open spec fn pair_views(v: Seq<(String, String)>) -> Seq<(Seq<char>, Seq<char>)> {
    Seq::new(v.len(), |i: int| (v[i].0@, v[i].1@))
}

pub open spec fn place_views(v: Seq<(usize, String)>) -> Seq<(usize, Seq<char>)> {
    Seq::new(v.len(), |i: int| (v[i].0, v[i].1@))
}

impl View for CopyReport {
    type V = ReportView;

    open spec fn view(&self) -> ReportView {
        ReportView {
            copied: self.copied as int,
            renamed: self.renamed as int,
            replaced: self.replaced as int,
            identical: self.identical as int,
            refreshed: self.refreshed as int,
            renamed_example: text::opt_text(self.renamed_example),
            failed: pair_views(self.failed@),
            all_verified: self.all_verified,
            cancelled: self.cancelled,
            landed: place_views(self.landed@),
        }
    }
}

/// A run that has done nothing yet.
pub open spec fn fresh_report() -> ReportView {
    ReportView {
        copied: 0,
        renamed: 0,
        replaced: 0,
        identical: 0,
        refreshed: 0,
        renamed_example: None,
        failed: Seq::empty(),
        all_verified: true,
        cancelled: false,
        landed: Seq::empty(),
    }
}

impl Default for CopyReport {
    /// The report of nothing: not even a verified run.
    fn default() -> (r: CopyReport)
        ensures
            r@ == (ReportView { all_verified: false, ..fresh_report() }),
    {
        let r = CopyReport {
            copied: 0,
            renamed: 0,
            replaced: 0,
            identical: 0,
            refreshed: 0,
            renamed_example: None,
            failed: Vec::new(),
            all_verified: false,
            cancelled: false,
            landed: Vec::new(),
        };
        assert(r@ =~= (ReportView { all_verified: false, ..fresh_report() }));
        r
    }
}

/// What an overwrite actually had to do.
#[derive(Clone, Copy, Debug, PartialEq, Eq, Structural)]
pub enum Replaced {
    /// The RAW crossed the wire (and replaced a file, if one was there).
    Transferred { existed: bool },
    /// The destination RAW was already byte-identical to the source —
    /// verified by hash, not re-transferred; `refreshed` says whether its
    /// sidecar had to be rewritten.
    AlreadyIdentical { refreshed: bool },
}

/// How one job went.
#[derive(Debug)]
pub enum JobResult {
    /// The pair was copied to a free name.
    Copied,
    /// The pair was overwritten.
    Overwritten(Replaced),
    /// It failed, for this reason.
    Failed(String),
}

/// What a [`JobResult`] says.
pub ghost enum ResultView {
    Copied,
    Overwritten(Replaced),
    Failed(Seq<char>),
}

impl View for JobResult {
    type V = ResultView;

    open spec fn view(&self) -> ResultView {
        match self {
            JobResult::Copied => ResultView::Copied,
            JobResult::Overwritten(r) => ResultView::Overwritten(*r),
            JobResult::Failed(why) => ResultView::Failed(why@),
        }
    }
}

/// The report after one more job.
pub open spec fn report_after(r: ReportView, job: CopyJob, result: ResultView) -> ReportView {
    let landed = r.landed.push((job.id, job.dst_raw@));
    match result {
        ResultView::Copied => ReportView {
            copied: r.copied + 1,
            renamed: if job.action == PlanAction::CopyRenamed {
                r.renamed + 1
            } else {
                r.renamed
            },
            renamed_example: if job.action == PlanAction::CopyRenamed && r.renamed_example is None {
                Some(job.dst_raw@)
            } else {
                r.renamed_example
            },
            landed,
            ..r
        },
        ResultView::Overwritten(Replaced::Transferred { existed }) => ReportView {
            copied: r.copied + 1,
            replaced: if existed {
                r.replaced + 1
            } else {
                r.replaced
            },
            landed,
            ..r
        },
        ResultView::Overwritten(Replaced::AlreadyIdentical { refreshed }) => ReportView {
            identical: r.identical + 1,
            refreshed: if refreshed {
                r.refreshed + 1
            } else {
                r.refreshed
            },
            landed,
            ..r
        },
        ResultView::Failed(why) => ReportView {
            all_verified: false,
            failed: r.failed.push((job.dst_raw@, why)),
            ..r
        },
    }
}

/// The report after the first `i` jobs.
pub open spec fn report_of(jobs: Seq<CopyJob>, results: Seq<ResultView>, i: int) -> ReportView
    decreases i,
{
    if i <= 0 {
        fresh_report()
    } else {
        report_after(report_of(jobs, results, i - 1), jobs[i - 1], results[i - 1])
    }
}

/// Does the plan still hold a question?
pub open spec fn has_question(jobs: Seq<CopyJob>) -> bool {
    exists|i: int| 0 <= i < jobs.len() && (#[trigger] jobs[i]).action == PlanAction::Clash
}

/// The report of a plan that was built before the answer: nothing was
/// copied.
pub open spec fn refused_report() -> ReportView {
    ReportView {
        all_verified: false,
        failed: seq![
            (
                "(the whole run)"@,
                "unanswered clash question: this plan was built before the answer and must not run"@,
            ),
        ],
        ..fresh_report()
    }
}

/// A run of a plan, without the copying: [`CopyRun::next`] says which job
/// comes, [`CopyRun::done`] takes how it went.
pub struct CopyRun {
    jobs: Vec<CopyJob>,
    next: usize,
    over: bool,
    report: CopyReport,
}

impl CopyRun {
    pub closed spec fn jobs(&self) -> Seq<CopyJob> {
        self.jobs@
    }

    /// How many jobs are done.
    pub closed spec fn at(&self) -> int {
        self.next as int
    }

    pub closed spec fn is_over(&self) -> bool {
        self.over
    }

    pub closed spec fn report(&self) -> ReportView {
        self.report@
    }

    /// The counts are no larger than the number of jobs done.
    pub closed spec fn wf(&self) -> bool {
        &&& self.next <= self.jobs@.len()
        &&& self.report.copied <= self.next
        &&& self.report.renamed <= self.next
        &&& self.report.replaced <= self.next
        &&& self.report.identical <= self.next
        &&& self.report.refreshed <= self.next
    }

    /// Start a run. A plan built before the question is a QUESTION, not an
    /// instruction: it copies nothing.
    pub fn start(plan: CopyPlan) -> (run: CopyRun)
        ensures
            run.wf(),
            run.jobs() == plan.jobs@,
            run.at() == 0,
            run.is_over() == has_question(plan.jobs@),
            run.report() == if has_question(plan.jobs@) {
                refused_report()
            } else {
                fresh_report()
            },
    {
        let jobs = plan.jobs;
        let mut question: bool = false;
        let mut i: usize = 0;
        while i < jobs.len()
            invariant
                i <= jobs@.len(),
                question == exists|j: int|
                    0 <= j < i && (#[trigger] jobs@[j]).action == PlanAction::Clash,
            decreases jobs@.len() - i,
        {
            if jobs[i].action == PlanAction::Clash {
                question = true;
            }
            i = i + 1;
        }
        let mut report = CopyReport {
            copied: 0,
            renamed: 0,
            replaced: 0,
            identical: 0,
            refreshed: 0,
            renamed_example: None,
            failed: Vec::new(),
            all_verified: true,
            cancelled: false,
            landed: Vec::new(),
        };
        assert(report@ =~= fresh_report());
        if question {
            report.all_verified = false;
            report.failed.push(
                (
                    "(the whole run)".to_string(),
                    "unanswered clash question: this plan was built before the answer and must not run".to_string(),
                ),
            );
            assert(report@ =~= refused_report());
        }
        CopyRun { jobs, next: 0, over: question, report }
    }

    /// The next job, unless the run is over. A cancel ends it between
    /// files; what was copied stays.
    pub fn next(&mut self, cancel: bool) -> (n: Option<usize>)
        requires
            old(self).wf(),
        ensures
            final(self).wf(),
            final(self).jobs() == old(self).jobs(),
            final(self).at() == old(self).at(),
            ({
                let more = !old(self).is_over() && old(self).at() < old(self).jobs().len();
                &&& n == if more && !cancel {
                    Some(old(self).at() as usize)
                } else {
                    None
                }
                &&& final(self).is_over() == n is None
                &&& final(self).report() == if more && cancel {
                    ReportView { cancelled: true, ..old(self).report() }
                } else {
                    old(self).report()
                }
            }),
    {
        if self.over || self.next >= self.jobs.len() {
            self.over = true;
            return None;
        }
        if cancel {
            self.report.cancelled = true;
            self.over = true;
            return None;
        }
        Some(self.next)
    }

    /// The job that [`CopyRun::next`] gave is done.
    pub fn done(&mut self, result: JobResult)
        requires
            old(self).wf(),
            !old(self).is_over(),
            old(self).at() < old(self).jobs().len(),
        ensures
            final(self).wf(),
            final(self).jobs() == old(self).jobs(),
            final(self).at() == old(self).at() + 1,
            !final(self).is_over(),
            final(self).report() == report_after(
                old(self).report(),
                old(self).jobs()[old(self).at()],
                result@,
            ),
    {
        let ghost before = self.report@;
        let i: usize = self.next;
        assert(i < self.jobs.len());
        let id: usize = self.jobs[i].id;
        let name = self.jobs[i].dst_raw.clone();
        let renamed: bool = self.jobs[i].action == PlanAction::CopyRenamed;
        let ghost job = self.jobs@[i as int];
        match result {
            JobResult::Copied => {
                self.report.copied = self.report.copied + 1;
                if renamed {
                    self.report.renamed = self.report.renamed + 1;
                    if self.report.renamed_example.is_none() {
                        self.report.renamed_example = Some(name.clone());
                    }
                }
                self.report.landed.push((id, name));
            },
            JobResult::Overwritten(Replaced::Transferred { existed }) => {
                self.report.copied = self.report.copied + 1;
                if existed {
                    self.report.replaced = self.report.replaced + 1;
                }
                self.report.landed.push((id, name));
            },
            JobResult::Overwritten(Replaced::AlreadyIdentical { refreshed }) => {
                self.report.identical = self.report.identical + 1;
                if refreshed {
                    self.report.refreshed = self.report.refreshed + 1;
                }
                self.report.landed.push((id, name));
            },
            JobResult::Failed(why) => {
                self.report.all_verified = false;
                self.report.failed.push((name, why));
            },
        }
        self.next = i + 1;
        assert(self.report@ =~= report_after(before, job, result@));
    }

    /// The report so far.
    pub fn finish(self) -> (r: CopyReport)
        ensures
            r@ == self.report(),
    {
        self.report
    }
}

/// Run a plan whose jobs go as `results` says. Where there are fewer results
/// than jobs, the run is cancelled before the next one.
pub fn run_plan(plan: CopyPlan, results: Vec<JobResult>) -> (r: CopyReport)
    requires
        results@.len() <= plan.jobs@.len(),
    ensures
        r@ == if has_question(plan.jobs@) {
            refused_report()
        } else {
            let all = report_of(
                plan.jobs@,
                result_views(results@),
                results@.len() as int,
            );
            if results@.len() < plan.jobs@.len() {
                ReportView { cancelled: true, ..all }
            } else {
                all
            }
        },
{
    let ghost jobs = plan.jobs@;
    let ghost views = result_views(results@);
    let n: usize = results.len();
    let mut run = CopyRun::start(plan);
    if run.over {
        return run.finish();
    }
    for result in it: results
        invariant
            run.wf(),
            !run.is_over(),
            run.jobs() == jobs,
            !has_question(jobs),
            n <= jobs.len(),
            it.seq().len() == n,
            run.at() == it.index(),
            views == result_views(it.seq()),
            run.report() == report_of(jobs, views, it.index() as int),
    {
        assert(views[it.index() as int] == result@);
        run.done(result);
    }
    let _ = run.next(true);
    run.finish()
}

pub open spec fn result_views(v: Seq<JobResult>) -> Seq<ResultView> {
    Seq::new(v.len(), |i: int| v[i]@)
}

// -------------------------------------------------------------- the copying
/// How the verified temp file becomes the final name.
#[derive(Clone, Copy, PartialEq, Eq, Debug, Structural)]
pub enum Commit {
    /// NOTHING is replaced unless the user answered "overwrite everything":
    /// a name that got occupied since the plan fails THIS file honestly
    /// instead of eating what is there.
    NoClobber,
    /// The user answered overwrite: replace in place, atomically.
    Replace,
}

/// What an overwrite of one image has to do.
#[derive(Clone, Copy, Debug, PartialEq, Eq, Structural)]
pub enum PairStep {
    /// Copy RAW and sidecar over what is there.
    Transfer { existed: bool },
    /// The RAW is there already; only its sidecar is rewritten.
    Refresh,
    /// Everything is there already.
    Nothing,
    /// The source cannot be read: this file fails, nothing is guessed.
    Unreadable,
}

/// Two files hash to the same digest, both of them being readable.
pub open spec fn same_file(a: Option<digest::Digest>, b: Option<digest::Digest>) -> bool {
    a is Some && b is Some && a->0@ == b->0@
}

/// What an overwrite of a pair has to do.
pub open spec fn pair_step(
    dst_raw: Option<digest::Digest>,
    src_raw: Option<digest::Digest>,
    has_sidecar: bool,
    dst_xmp: Option<digest::Digest>,
    src_xmp: Option<digest::Digest>,
) -> PairStep {
    if dst_raw is Some && src_raw is None {
        PairStep::Unreadable
    } else if !same_file(dst_raw, src_raw) {
        PairStep::Transfer { existed: dst_raw is Some }
    } else if has_sidecar && !same_file(dst_xmp, src_xmp) {
        PairStep::Refresh
    } else {
        PairStep::Nothing
    }
}

/// "Overwrite everything" for one image: replace what is at the destination
/// — unless it is already the same file, in which case only the sidecar can
/// have changed, and a 100 MB RAW must not cross the wire twice for a
/// caption. Each argument is the digest of a file, None where it cannot be
/// read; `src_raw` counts only where the destination has a RAW.
pub fn replace_pair(
    dst_raw: Option<digest::Digest>,
    src_raw: Option<digest::Digest>,
    has_sidecar: bool,
    dst_xmp: Option<digest::Digest>,
    src_xmp: Option<digest::Digest>,
) -> (s: PairStep)
    ensures
        s == pair_step(dst_raw, src_raw, has_sidecar, dst_xmp, src_xmp),
{
    if dst_raw.is_some() && src_raw.is_none() {
        return PairStep::Unreadable;
    }
    if !same_readable(&dst_raw, &src_raw) {
        return PairStep::Transfer { existed: dst_raw.is_some() };
    }
    if has_sidecar && !same_readable(&dst_xmp, &src_xmp) {
        PairStep::Refresh
    } else {
        PairStep::Nothing
    }
}

fn same_readable(a: &Option<digest::Digest>, b: &Option<digest::Digest>) -> (r: bool)
    ensures
        r == same_file(*a, *b),
{
    match (a, b) {
        (Some(x), Some(y)) => digest::same_digest(x, y),
        _ => false,
    }
}

/// The files one job copies, RAW first: (source path, destination name).
pub open spec fn files_of(job: CopyJob) -> Seq<(Seq<char>, Seq<char>)> {
    match text::opt_text(job.src_xmp) {
        Some(xmp) => seq![(job.src_raw@, job.dst_raw@), (xmp, job.dst_xmp@)],
        None => seq![(job.src_raw@, job.dst_raw@)],
    }
}

/// The files one job copies, RAW first: (source path, destination name).
pub fn copy_pair(job: &CopyJob) -> (files: Vec<(String, String)>)
    ensures
        pair_views(files@) == files_of(*job),
{
    let mut files: Vec<(String, String)> = Vec::new();
    files.push((job.src_raw.clone(), job.dst_raw.clone()));
    if let Some(xmp) = &job.src_xmp {
        files.push((xmp.clone(), job.dst_xmp.clone()));
    }
    assert(pair_views(files@) =~= files_of(*job));
    files
}

/// The verification pass: what the disk gives BACK must match what the
/// source stream said.
pub fn copy_verified(written: &digest::Digest, read_back: &digest::Digest) -> (r: Result<
    (),
    &'static str,
>)
    ensures
        match r {
            Ok(_) => written@ == read_back@,
            Err(why) => written@ != read_back@ && why@ == "BLAKE3 mismatch after copy"@,
        },
{
    if digest::same_digest(written, read_back) {
        Ok(())
    } else {
        Err("BLAKE3 mismatch after copy")
    }
}

/// What making the final name a second name of the temp file came to.
#[derive(Clone, Copy, Debug, PartialEq, Eq, Structural)]
pub enum LinkOutcome {
    Linked,
    /// The final name exists already.
    Exists,
    /// This filesystem has no such links.
    Unsupported,
}

/// How a verified temp file gets its final name.
#[derive(Clone, Copy, Debug, PartialEq, Eq, Structural)]
pub enum CommitStep {
    /// Rename the temp file, replacing what is there.
    Rename,
    /// Try to link; then see [`commit_linked`].
    Link,
    /// The link IS the file now: drop the temp name.
    DropTemp,
    /// Fail: something appeared at the destination.
    Appeared,
}

/// The first step of a commit.
pub open spec fn first_step(commit: Commit) -> CommitStep {
    if commit == Commit::Replace {
        CommitStep::Rename
    } else {
        CommitStep::Link
    }
}

/// The step after a link was tried.
pub open spec fn second_step(outcome: LinkOutcome, occupied: bool) -> CommitStep {
    match outcome {
        LinkOutcome::Linked => CommitStep::DropTemp,
        LinkOutcome::Exists => CommitStep::Appeared,
        LinkOutcome::Unsupported => if occupied {
            CommitStep::Appeared
        } else {
            CommitStep::Rename
        },
    }
}

/// The first step of the commit. A rename silently replaces an existing
/// file, so it is used ONLY for an answered overwrite.
pub fn commit_temp(commit: Commit) -> (s: CommitStep)
    ensures
        s == first_step(commit),
{
    if commit == Commit::Replace {
        CommitStep::Rename
    } else {
        CommitStep::Link
    }
}

/// The second step, after a link was tried: a name that exists already is
/// never replaced. `occupied` is what a look at the final name finds, asked
/// only on filesystems without links.
pub fn commit_linked(outcome: LinkOutcome, occupied: bool) -> (s: CommitStep)
    ensures
        s == second_step(outcome, occupied),
{
    match outcome {
        LinkOutcome::Linked => CommitStep::DropTemp,
        LinkOutcome::Exists => CommitStep::Appeared,
        LinkOutcome::Unsupported => {
            if occupied {
                CommitStep::Appeared
            } else {
                CommitStep::Rename
            }
        },
    }
}

/// The reason a file fails when its name was taken since the plan.
pub fn appeared_during_copy() -> (s: &'static str)
    ensures
        s@ == "a file appeared at the destination during the copy"@,
{
    "a file appeared at the destination during the copy"
}

// -------------------------------------------------------------------- laws
/// Nothing at the destination is replaced without the Overwrite answer:
/// whatever is copied goes to a pair of names that the disk has free, and an
/// occupied pair is a question under "ask" and moves to a free number under
/// "create copies".
pub proof fn lemma_nothing_is_replaced_unasked(
    disk: Disk,
    policy: ClashPolicy,
    names: Seq<Seq<char>>,
    done: Seq<Decision>,
    i: int,
)
    requires
        all_decided(disk, policy, names, done),
        0 <= i < done.len(),
    ensures
        done[i].action == PlanAction::Copy || done[i].action == PlanAction::CopyRenamed ==> !disk(
            done[i].name@,
        ) && !disk(xmp_name(done[i].name@)),
        done[i].action == PlanAction::Replace ==> policy == ClashPolicy::Overwrite,
        done[i].action == PlanAction::Clash ==> policy == ClashPolicy::Ask,
        done[i].action == PlanAction::CopyRenamed ==> policy == ClashPolicy::CreateCopies,
{
    assert(decided(disk, policy, names[i], done, i));
}

/// No two images of a plan write the same file: the pair that a later image
/// is copied to shares no name with the pair of an earlier one.
pub proof fn lemma_pairs_do_not_overlap(
    disk: Disk,
    policy: ClashPolicy,
    names: Seq<Seq<char>>,
    done: Seq<Decision>,
    i: int,
    j: int,
)
    requires
        all_decided(disk, policy, names, done),
        0 <= i < j < done.len(),
        done[j].action == PlanAction::Copy || done[j].action == PlanAction::CopyRenamed,
    ensures
        done[i].name@ != done[j].name@,
        xmp_name(done[i].name@) != done[j].name@,
        done[i].name@ != xmp_name(done[j].name@),
        xmp_name(done[i].name@) != xmp_name(done[j].name@),
{
    assert(decided(disk, policy, names[j], done, j));
    let n = done[j].name@;
    assert(pair_free(disk, done, j, n));
    if done[i].name@ == n || xmp_name(done[i].name@) == n {
        assert(claimed(done, j, n));
    }
    if done[i].name@ == xmp_name(n) || xmp_name(done[i].name@) == xmp_name(n) {
        assert(claimed(done, j, xmp_name(n)));
    }
}

/// A decimal says its number.
pub proof fn lemma_decimal_value(n: int)
    requires
        0 <= n,
    ensures
        text::digits_value(text::decimal(n)) == n,
        text::decimal(n).len() > 0,
    decreases n,
{
    if n >= 10 {
        lemma_decimal_value(n / 10);
        assert(text::decimal(n).drop_last() =~= text::decimal(n / 10));
        assert(text::digit(n % 10) as int - '0' as int == n % 10);
    } else {
        assert(text::decimal(n).drop_last() =~= Seq::empty());
        assert(text::digits_value(Seq::<char>::empty()) == 0);
        assert(text::digit(n) as int - '0' as int == n);
        assert(text::decimal(n).last() == text::digit(n));
    }
}

/// Different numbers make different names.
pub proof fn lemma_suffixes_differ(name: Seq<char>, j: int, k: int)
    requires
        0 <= j,
        0 <= k,
        suffixed_name(name, j) == suffixed_name(name, k),
    ensures
        j == k,
{
    let a = text::decimal(j);
    let b = text::decimal(k);
    lemma_decimal_value(j);
    lemma_decimal_value(k);
    match text::ext_of(name) {
        Some(ext) => {
            let front = text::stem_of(name) + "_"@;
            let back = "."@ + ext;
            assert(suffixed_name(name, j) =~= front + a + back);
            assert(suffixed_name(name, k) =~= front + b + back);
            assert(a.len() == b.len());
            assert(a =~= (front + a + back).subrange(
                front.len() as int,
                front.len() + a.len() as int,
            ));
            assert(b =~= (front + b + back).subrange(
                front.len() as int,
                front.len() + b.len() as int,
            ));
        },
        None => {
            let front = name + "_"@;
            assert(suffixed_name(name, j) =~= front + a);
            assert(suffixed_name(name, k) =~= front + b);
            assert(a =~= (front + a).skip(front.len() as int));
            assert(b =~= (front + b).skip(front.len() as int));
        },
    }
}

/// The green light is honest: it is on exactly while nothing failed, every
/// job either landed or failed, and what landed was copied or verified
/// identical.
pub proof fn lemma_report_adds_up(jobs: Seq<CopyJob>, results: Seq<ResultView>, i: int)
    requires
        0 <= i <= jobs.len(),
        i <= results.len(),
    ensures
        ({
            let r = report_of(jobs, results, i);
            &&& r.all_verified <==> r.failed.len() == 0
            &&& r.landed.len() == r.copied + r.identical
            &&& r.landed.len() + r.failed.len() == i
            &&& 0 <= r.renamed <= r.copied
            &&& 0 <= r.replaced <= r.copied
            &&& 0 <= r.refreshed <= r.identical
            &&& r.renamed_example is Some <==> r.renamed > 0
            &&& !r.cancelled
        }),
    decreases i,
{
    if i > 0 {
        lemma_report_adds_up(jobs, results, i - 1);
    }
}

/// A copy that was just recorded counts as copied, and other images' copies
/// are as they were.
pub proof fn lemma_record(
    all: Seq<(usize, Seq<char>, bool)>,
    id: usize,
    path: Seq<char>,
    same_folder: Seq<bool>,
    other: usize,
)
    requires
        other != id,
    ensures
        kept_copies(all, id, same_folder).push((id, path, true)).last() == (id, path, true),
        paths_of(kept_copies(all, id, same_folder).push((id, path, true)), other) == paths_of(
            all,
            other,
        ),
    decreases all.len(),
{
    let kept = kept_copies(all, id, same_folder);
    assert(kept.push((id, path, true)).drop_last() =~= kept);
    lemma_kept_others(all, id, same_folder, other);
}

proof fn lemma_kept_others(
    all: Seq<(usize, Seq<char>, bool)>,
    id: usize,
    same_folder: Seq<bool>,
    other: usize,
)
    requires
        other != id,
    ensures
        paths_of(kept_copies(all, id, same_folder), other) == paths_of(all, other),
    decreases all.len(),
{
    if all.len() > 0 {
        lemma_kept_others(all.drop_last(), id, same_folder, other);
        let front = kept_copies(all.drop_last(), id, same_folder);
        let kept = kept_copies(all, id, same_folder);
        if kept != front {
            assert(kept.drop_last() =~= front);
            assert(kept.last() == all.last());
        }
    }
}

} // verus!
