//! What a copy owes the photographs, said of the images, the disk and the
//! files themselves.
use crate::digest;
use crate::fileops;
use crate::fileops::{
    ClashPolicy, Commit, CommitStep, CopyJob, CopyPlan, Decision, Disk, LinkOutcome, PairStep,
    PlanAction, PlanError, PlanFault, PlanSource, Replaced, ResultView, SourceFacts,
};
use crate::iptc;
use crate::order;
use crate::text;
use vstd::prelude::*;

verus! {

// -------------------------------------------------------------- the sidecar
/// How many files the first `i` jobs copy.
pub open spec fn files_in(jobs: Seq<CopyJob>, i: int) -> nat
    decreases i,
{
    if i <= 0 {
        0
    } else {
        files_in(jobs, i - 1) + fileops::files_of(jobs[i - 1]).len()
    }
}

/// Whatever a job does with its names, the files it copies are the RAW and,
/// where the image has one, its sidecar: the file of the RAW's name with
/// `.xmp` behind it, which lands under the RAW's new name with `.xmp` behind
/// it.
pub proof fn lemma_the_sidecar_goes_along(
    p: CopyPlan,
    done: Seq<Decision>,
    policy: ClashPolicy,
    sources: Seq<PlanSource>,
    facts: Seq<SourceFacts>,
    free_bytes: Option<u64>,
    i: int,
)
    requires
        fileops::is_plan(Ok(p), done, policy, sources, facts, free_bytes),
        0 <= i < sources.len(),
    ensures
        ({
            let job = p.jobs@[i];
            let raw = (sources[i].path@, done[i].name@);
            let xmp = (sources[i].path@ + ".xmp"@, done[i].name@ + ".xmp"@);
            &&& p.jobs@.len() == sources.len()
            &&& job.src_xmp is Some <==> facts[i].has_sidecar
            &&& facts[i].has_sidecar ==> fileops::files_of(job) == seq![raw, xmp]
            &&& !facts[i].has_sidecar ==> fileops::files_of(job) == seq![raw]
            &&& job.id == sources[i].id
            &&& job.bytes == sources[i].size
            &&& job.action == done[i].action
        }),
{
    assert(fileops::is_job(p.jobs@[i], sources[i], facts[i], done[i]));
}

/// A plan copies as many files as there are images and sidecars.
pub proof fn lemma_files_of_a_plan(
    p: CopyPlan,
    done: Seq<Decision>,
    policy: ClashPolicy,
    sources: Seq<PlanSource>,
    facts: Seq<SourceFacts>,
    free_bytes: Option<u64>,
)
    requires
        fileops::is_plan(Ok(p), done, policy, sources, facts, free_bytes),
    ensures
        files_in(p.jobs@, p.jobs@.len() as int) == sources.len() + order::tally(
            sources.len() as int,
            |i: int| facts[i].has_sidecar,
        ),
{
    lemma_files_upto(p, done, policy, sources, facts, free_bytes, sources.len() as int);
}

proof fn lemma_files_upto(
    p: CopyPlan,
    done: Seq<Decision>,
    policy: ClashPolicy,
    sources: Seq<PlanSource>,
    facts: Seq<SourceFacts>,
    free_bytes: Option<u64>,
    i: int,
)
    requires
        fileops::is_plan(Ok(p), done, policy, sources, facts, free_bytes),
        0 <= i <= sources.len(),
    ensures
        files_in(p.jobs@, i) == i + order::tally(i, |i: int| facts[i].has_sidecar),
    decreases i,
{
    if i > 0 {
        lemma_files_upto(p, done, policy, sources, facts, free_bytes, i - 1);
        lemma_the_sidecar_goes_along(p, done, policy, sources, facts, free_bytes, i - 1);
    }
}

// ---------------------------------------------------------------- the names
/// An earlier image of the plan writes a file of this name, as its RAW or as
/// its sidecar.
pub open spec fn written_before(done: Seq<Decision>, i: int, name: Seq<char>) -> bool {
    exists|j: int|
        0 <= j < i && ((#[trigger] done[j]).name@ == name || done[j].name@ + ".xmp"@ == name)
}

/// Nothing stands in the way of a RAW of this name and of its sidecar.
pub open spec fn is_vacant(disk: Disk, done: Seq<Decision>, i: int, name: Seq<char>) -> bool {
    &&& !disk(name)
    &&& !disk(name + ".xmp"@)
    &&& !written_before(done, i, name)
    &&& !written_before(done, i, name + ".xmp"@)
}

/// An image whose two names are vacant is copied under its own name. Where
/// one of them is not, the answer decides: without one the image is a
/// question, "overwrite everything" replaces under the image's own name, and
/// "create copies" takes the lowest number from 1 on with which both names
/// are vacant.
pub proof fn lemma_the_answer_decides(
    disk: Disk,
    policy: ClashPolicy,
    names: Seq<Seq<char>>,
    done: Seq<Decision>,
    i: int,
)
    requires
        fileops::all_decided(disk, policy, names, done),
        0 <= i < done.len(),
    ensures
        ({
            let vacant = is_vacant(disk, done, i, names[i]);
            let d = done[i];
            &&& d.clash <==> !vacant
            &&& d.raw_taken <==> disk(names[i]) || written_before(done, i, names[i])
            &&& vacant ==> d.action == PlanAction::Copy && d.name@ == names[i]
            &&& !vacant && policy == ClashPolicy::Ask ==> d.action == PlanAction::Clash && d.name@
                == names[i]
            &&& !vacant && policy == ClashPolicy::Overwrite ==> d.action == PlanAction::Replace
                && d.name@ == names[i]
            &&& !vacant && policy == ClashPolicy::CreateCopies ==> d.action
                == PlanAction::CopyRenamed && exists|k: int|
                {
                    &&& 1 <= k
                    &&& d.name@ == #[trigger] fileops::suffixed_name(names[i], k)
                    &&& is_vacant(disk, done, i, d.name@)
                    &&& forall|j: int|
                        1 <= j < k ==> !is_vacant(
                            disk,
                            done,
                            i,
                            #[trigger] fileops::suffixed_name(names[i], j),
                        )
                }
        }),
{
    assert(fileops::decided(disk, policy, names[i], done, i));
    assert forall|x: Seq<char>| #[trigger] fileops::claimed(done, i, x) == written_before(
        done,
        i,
        x,
    ) by {
        if fileops::claimed(done, i, x) {
            let j = choose|j: int|
                0 <= j < i && ((#[trigger] done[j]).name@ == x || fileops::xmp_name(done[j].name@)
                    == x);
            assert(done[j].name@ == x || done[j].name@ + ".xmp"@ == x);
        }
        if written_before(done, i, x) {
            let j = choose|j: int|
                0 <= j < i && ((#[trigger] done[j]).name@ == x || done[j].name@ + ".xmp"@ == x);
            assert(done[j].name@ == x || fileops::xmp_name(done[j].name@) == x);
        }
    }
    assert forall|x: Seq<char>| #[trigger] fileops::pair_free(disk, done, i, x) == is_vacant(
        disk,
        done,
        i,
        x,
    ) by {
        assert(fileops::claimed(done, i, x) == written_before(done, i, x));
        assert(fileops::claimed(done, i, x + ".xmp"@) == written_before(done, i, x + ".xmp"@));
    }
    assert(fileops::claimed(done, i, names[i]) == written_before(done, i, names[i]));
    assert(fileops::pair_free(disk, done, i, names[i]) == is_vacant(disk, done, i, names[i]));
    if done[i].clash && policy == ClashPolicy::CreateCopies {
        let k = choose|k: int|
            1 <= k && #[trigger] fileops::is_first_free(disk, done, i, names[i], k)
                && done[i].name@ == fileops::suffixed_name(names[i], k);
        let name = fileops::suffixed_name(names[i], k);
        assert(fileops::pair_free(disk, done, i, name) == is_vacant(disk, done, i, name));
        assert forall|j: int| 1 <= j < k implies !is_vacant(
            disk,
            done,
            i,
            #[trigger] fileops::suffixed_name(names[i], j),
        ) by {
            let other = fileops::suffixed_name(names[i], j);
            assert(fileops::pair_free(disk, done, i, other) == is_vacant(disk, done, i, other));
        }
    }
}

/// A number goes between the name and the extension, behind an underscore;
/// where there is no extension, at the end. A name that only begins with a
/// dot has none.
pub proof fn lemma_where_the_number_goes(stem: Seq<char>, ext: Seq<char>, k: int)
    requires
        !ext.contains('.'),
    ensures
        stem.len() > 0 ==> fileops::suffixed_name(stem + "."@ + ext, k) == stem + "_"@
            + text::decimal(k) + "."@ + ext,
        fileops::suffixed_name(ext, k) == ext + "_"@ + text::decimal(k),
        fileops::suffixed_name("."@ + ext, k) == "."@ + ext + "_"@ + text::decimal(k),
{
    reveal_strlit(".");
    assert("."@ =~= seq!['.']);
    text::lemma_last_dot(stem, ext);
    text::lemma_last_dot(Seq::empty(), ext);
    text::lemma_no_dot(ext);
    assert(Seq::<char>::empty() + "."@ + ext =~= "."@ + ext);
    let name = stem + "."@ + ext;
    assert(name.take(stem.len() as int) =~= stem);
    assert(name.skip(stem.len() as int + 1) =~= ext);
}

/// The destination names are the images' own in their order without a rename
/// template, or with a blank one. With a template each is the template's
/// expansion for its image, numbered from 1; the first that cannot be expanded
/// is the error of the whole.
pub proof fn lemma_destination_names(
    sources: Seq<PlanSource>,
    template: Option<Seq<char>>,
    i: int,
    n: int,
)
    requires
        0 <= i < n <= sources.len(),
    ensures
        ({
            let r = fileops::names_from(sources, template, n);
            let width = iptc::batch_width(sources.len() as int);
            let one = |j: int|
                iptc::expanded("rename"@, template->0, sources[j].ctx, j + 1, width);
            let plain = template is None || text::is_blank(template->0);
            &&& plain ==> r is Ok && r->Ok_0.len() == n && r->Ok_0[i] == sources[i].name@
            &&& !plain && r is Ok ==> r->Ok_0.len() == n && one(i) == Ok::<
                Seq<char>,
                iptc::IptcFault,
            >(r->Ok_0[i])
            &&& !plain && one(i) is Err && (forall|j: int| 0 <= j < i ==> (#[trigger] one(j)) is Ok)
                ==> r == Err::<Seq<Seq<char>>, iptc::IptcFault>(one(i)->Err_0)
            &&& !plain && r is Err ==> exists|j: int| 0 <= j < n && (#[trigger] one(j)) is Err
        }),
    decreases n,
{
    let width = iptc::batch_width(sources.len() as int);
    let one = |j: int| iptc::expanded("rename"@, template->0, sources[j].ctx, j + 1, width);
    let plain = template is None || text::is_blank(template->0);
    if n - 1 > i {
        lemma_destination_names(sources, template, i, n - 1);
    } else if n - 1 > 0 {
        lemma_destination_names(sources, template, 0, n - 1);
    }
    if !plain {
        let front = fileops::names_from(sources, template, n - 1);
        let r = fileops::names_from(sources, template, n);
        assert(n - 1 == 0 ==> front is Ok && front->Ok_0.len() == 0);
        if front is Ok && one(n - 1) is Err {
            assert(one(n - 1) is Err);
        }
        if r is Err && front is Err {
            let j = choose|j: int| 0 <= j < n - 1 && (#[trigger] one(j)) is Err;
            assert(one(j) is Err);
        }
        if i == n - 1 && one(i) is Err && (forall|j: int|
            0 <= j < i ==> (#[trigger] one(j)) is Ok) {
            assert(front is Ok) by {
                if front is Err {
                    let j = choose|j: int| 0 <= j < n - 1 && (#[trigger] one(j)) is Err;
                    assert(one(j) is Ok);
                }
            }
        }
    }
}

// --------------------------------------------------------------- the totals
/// The sizes of the first `i` images of which a test holds, together.
pub open spec fn size_of_those(
    sources: Seq<PlanSource>,
    test: spec_fn(int) -> bool,
    i: int,
) -> int
    decreases i,
{
    if i <= 0 {
        0
    } else if test(i - 1) {
        size_of_those(sources, test, i - 1) + sources[i - 1].size
    } else {
        size_of_those(sources, test, i - 1)
    }
}

proof fn lemma_bytes_are_sizes(
    sources: Seq<PlanSource>,
    flags: spec_fn(int) -> bool,
    test: spec_fn(int) -> bool,
    i: int,
)
    requires
        forall|j: int| 0 <= j < i ==> #[trigger] flags(j) == test(j),
    ensures
        fileops::bytes_set(sources, flags, i) == size_of_those(sources, test, i),
    decreases i,
{
    if i > 0 {
        lemma_bytes_are_sizes(sources, flags, test, i - 1);
        assert(flags(i - 1) == test(i - 1));
    }
}

proof fn lemma_flags_are_tallied(
    flags: spec_fn(int) -> bool,
    test: spec_fn(int) -> bool,
    i: int,
)
    requires
        forall|j: int| 0 <= j < i ==> #[trigger] flags(j) == test(j),
    ensures
        fileops::count_set(flags, i) == order::tally(i, test),
    decreases i,
{
    if i > 0 {
        lemma_flags_are_tallied(flags, test, i - 1);
        assert(flags(i - 1) == test(i - 1));
    }
}

/// What a plan sums up, of its jobs: the bytes it writes are those of every
/// job that is not a question, the rest are the question's; clashes are the
/// jobs that are not plain copies, renamed those that moved to a number, and
/// sidecar-only clashes those whose RAW name was vacant.
pub proof fn lemma_a_plan_sums_up(
    p: CopyPlan,
    disk: Disk,
    names: Seq<Seq<char>>,
    done: Seq<Decision>,
    policy: ClashPolicy,
    sources: Seq<PlanSource>,
    facts: Seq<SourceFacts>,
    free_bytes: Option<u64>,
)
    requires
        fileops::is_plan(Ok(p), done, policy, sources, facts, free_bytes),
        fileops::all_decided(disk, policy, names, done),
        done.len() == sources.len(),
    ensures
        ({
            let n = sources.len() as int;
            &&& p.free_bytes == free_bytes
            &&& p.total_bytes == size_of_those(
                sources,
                |i: int| p.jobs@[i].action != PlanAction::Clash,
                n,
            )
            &&& p.total_bytes + p.clash_bytes == size_of_those(sources, |i: int| true, n)
            &&& policy != ClashPolicy::Ask ==> p.clash_bytes == 0
            &&& p.clashes == order::tally(n, |i: int| p.jobs@[i].action != PlanAction::Copy)
            &&& p.renamed == order::tally(n, |i: int| p.jobs@[i].action == PlanAction::CopyRenamed)
            &&& p.sidecar_only_clashes == order::tally(
                n,
                |i: int|
                    p.jobs@[i].action != PlanAction::Copy && !disk(names[i]) && !written_before(
                        done,
                        i,
                        names[i],
                    ),
            )
        }),
{
    let n = sources.len() as int;
    assert forall|i: int| 0 <= i < n implies (#[trigger] p.jobs@[i]).action == done[i].action
        && done[i].clash == (done[i].action != PlanAction::Copy) && done[i].raw_taken == (disk(
        names[i],
    ) || written_before(done, i, names[i])) by {
        assert(fileops::is_job(p.jobs@[i], sources[i], facts[i], done[i]));
        lemma_the_answer_decides(disk, policy, names, done, i);
    }
    let written = |i: int| p.jobs@[i].action != PlanAction::Clash;
    let asked = |i: int| p.jobs@[i].action == PlanAction::Clash;
    lemma_bytes_are_sizes(sources, fileops::is_written(done), written, n);
    lemma_bytes_are_sizes(sources, fileops::is_asked(done), asked, n);
    lemma_sizes_split(sources, written, asked, n);
    if policy != ClashPolicy::Ask {
        assert forall|i: int| 0 <= i < n implies !#[trigger] asked(i) by {
            lemma_the_answer_decides(disk, policy, names, done, i);
        }
        lemma_no_sizes(sources, asked, n);
    }
    lemma_flags_are_tallied(
        |i: int| done[i].clash,
        |i: int| p.jobs@[i].action != PlanAction::Copy,
        n,
    );
    lemma_flags_are_tallied(
        |i: int| done[i].action == PlanAction::CopyRenamed,
        |i: int| p.jobs@[i].action == PlanAction::CopyRenamed,
        n,
    );
    let only = |i: int| done[i].clash && !done[i].raw_taken;
    let test = |i: int|
        p.jobs@[i].action != PlanAction::Copy && !disk(names[i]) && !written_before(
            done,
            i,
            names[i],
        );
    assert forall|i: int| 0 <= i < n implies #[trigger] only(i) == test(i) by {
        assert(p.jobs@[i].action == done[i].action);
    }
    lemma_flags_are_tallied(only, test, n);
}

proof fn lemma_sizes_split(
    sources: Seq<PlanSource>,
    a: spec_fn(int) -> bool,
    b: spec_fn(int) -> bool,
    i: int,
)
    requires
        forall|j: int| 0 <= j < i ==> #[trigger] a(j) == !b(j),
    ensures
        size_of_those(sources, a, i) + size_of_those(sources, b, i) == size_of_those(
            sources,
            |i: int| true,
            i,
        ),
    decreases i,
{
    if i > 0 {
        lemma_sizes_split(sources, a, b, i - 1);
        assert(a(i - 1) == !b(i - 1));
    }
}

proof fn lemma_no_sizes(sources: Seq<PlanSource>, test: spec_fn(int) -> bool, i: int)
    requires
        forall|j: int| 0 <= j < i ==> !#[trigger] test(j),
    ensures
        size_of_those(sources, test, i) == 0,
    decreases i,
{
    if i > 0 {
        lemma_no_sizes(sources, test, i - 1);
        assert(!test(i - 1));
    }
}

/// A plan is refused exactly where the volume says how much is free and it is
/// less than what must fit: everything under "create copies", and otherwise
/// the images whose names are vacant.
pub proof fn lemma_what_must_fit(
    r: Result<CopyPlan, PlanError>,
    disk: Disk,
    names: Seq<Seq<char>>,
    done: Seq<Decision>,
    policy: ClashPolicy,
    sources: Seq<PlanSource>,
    facts: Seq<SourceFacts>,
    free_bytes: Option<u64>,
)
    requires
        fileops::is_plan(r, done, policy, sources, facts, free_bytes),
        fileops::all_decided(disk, policy, names, done),
        done.len() == sources.len(),
        size_of_those(sources, |i: int| true, sources.len() as int) <= u64::MAX,
    ensures
        ({
            let n = sources.len() as int;
            let needed = if policy == ClashPolicy::CreateCopies {
                size_of_those(sources, |i: int| true, n)
            } else {
                size_of_those(sources, |i: int| is_vacant(disk, done, i, names[i]), n)
            };
            match r {
                Ok(_) => free_bytes is None || needed <= free_bytes->0,
                Err(e) => {
                    &&& free_bytes is Some
                    &&& needed > free_bytes->0
                    &&& e@ matches PlanFault::InsufficientSpace { needed: asked, free }
                    &&& asked == needed
                    &&& free == free_bytes->0
                },
            }
        }),
{
    let n = sources.len() as int;
    let vacant = |i: int| is_vacant(disk, done, i, names[i]);
    let taken = |i: int| !is_vacant(disk, done, i, names[i]);
    assert forall|i: int| 0 <= i < n implies #[trigger] fileops::is_clash_free(done)(i) == vacant(
        i,
    ) by {
        lemma_the_answer_decides(disk, policy, names, done, i);
    }
    lemma_bytes_are_sizes(sources, fileops::is_clash_free(done), vacant, n);
    lemma_sizes_split(sources, vacant, taken, n);
    lemma_sizes_are_not_negative(sources, vacant, n);
    lemma_sizes_are_not_negative(sources, taken, n);
    if policy == ClashPolicy::CreateCopies {
        let all = |i: int| true;
        assert forall|i: int| 0 <= i < n implies #[trigger] fileops::is_written(done)(i) == all(
            i,
        ) by {
            lemma_the_answer_decides(disk, policy, names, done, i);
        }
        lemma_bytes_are_sizes(sources, fileops::is_written(done), all, n);
    }
}

proof fn lemma_sizes_are_not_negative(
    sources: Seq<PlanSource>,
    test: spec_fn(int) -> bool,
    i: int,
)
    ensures
        0 <= size_of_those(sources, test, i),
    decreases i,
{
    if i > 0 {
        lemma_sizes_are_not_negative(sources, test, i - 1);
    }
}

/// The first copy of an image that landed in this folder decides whether it
/// counts as gone: it does where that one is no longer there.
pub proof fn lemma_the_first_landing_decides(landed: Seq<(bool, bool)>)
    ensures
        fileops::copy_gone(landed) <==> exists|k: int|
            {
                &&& 0 <= k < landed.len()
                &&& (#[trigger] landed[k]).0
                &&& !landed[k].1
                &&& forall|j: int| 0 <= j < k ==> !(#[trigger] landed[j]).0
            },
    decreases landed.len(),
{
    if landed.len() > 0 {
        let rest = landed.drop_first();
        lemma_the_first_landing_decides(rest);
        if landed[0].0 {
            if !landed[0].1 {
                assert(landed[0].0 && !landed[0].1);
            }
        } else {
            if fileops::copy_gone(rest) {
                let k = choose|k: int|
                    {
                        &&& 0 <= k < rest.len()
                        &&& (#[trigger] rest[k]).0
                        &&& !rest[k].1
                        &&& forall|j: int| 0 <= j < k ==> !(#[trigger] rest[j]).0
                    };
                assert(landed[k + 1] == rest[k]);
                assert forall|j: int| 0 <= j < k + 1 implies !(#[trigger] landed[j]).0 by {
                    if j > 0 {
                        assert(rest[j - 1] == landed[j]);
                    }
                }
            }
            if exists|k: int|
                {
                    &&& 0 <= k < landed.len()
                    &&& (#[trigger] landed[k]).0
                    &&& !landed[k].1
                    &&& forall|j: int| 0 <= j < k ==> !(#[trigger] landed[j]).0
                } {
                let k = choose|k: int|
                    {
                        &&& 0 <= k < landed.len()
                        &&& (#[trigger] landed[k]).0
                        &&& !landed[k].1
                        &&& forall|j: int| 0 <= j < k ==> !(#[trigger] landed[j]).0
                    };
                assert(rest[k - 1] == landed[k]);
                assert forall|j: int| 0 <= j < k - 1 implies !(#[trigger] rest[j]).0 by {
                    assert(landed[j + 1] == rest[j]);
                }
            }
        }
    }
}

/// The number of images that count as copied before but gone.
pub proof fn lemma_gone_copies_are_counted(
    p: CopyPlan,
    done: Seq<Decision>,
    policy: ClashPolicy,
    sources: Seq<PlanSource>,
    facts: Seq<SourceFacts>,
    free_bytes: Option<u64>,
)
    requires
        fileops::is_plan(Ok(p), done, policy, sources, facts, free_bytes),
    ensures
        p.recopied == order::tally(
            sources.len() as int,
            |i: int| fileops::copy_gone(facts[i].landed@),
        ),
{
    lemma_flags_are_tallied(
        |i: int| fileops::copy_gone(facts[i].landed@),
        |i: int| fileops::copy_gone(facts[i].landed@),
        sources.len() as int,
    );
}

// -------------------------------------------------------- the session memory
/// What is kept when a copy is recorded: all but the copies of the same image
/// in the same folder, in the order they had.
pub proof fn lemma_what_a_record_keeps(
    all: Seq<(usize, Seq<char>, bool)>,
    id: usize,
    same_folder: Seq<bool>,
    k: int,
)
    requires
        0 <= k < all.len(),
        same_folder.len() == all.len(),
    ensures
        ({
            let stays = |j: int| !(all[j].0 == id && same_folder[j]);
            let kept = fileops::kept_copies(all, id, same_folder);
            &&& kept.len() == order::tally(all.len() as int, stays)
            &&& stays(k) ==> order::tally(k, stays) < kept.len() && kept[order::tally(
                k,
                stays,
            ) as int] == all[k]
        }),
{
    lemma_kept_upto(all, id, same_folder, all.len() as int);
    assert(all.take(all.len() as int) =~= all);
    let stays = |j: int| !(all[j].0 == id && same_folder[j]);
    if stays(k) {
        order::lemma_tally_is_short(stays, k, all.len() as int);
    }
}

proof fn lemma_kept_upto(
    all: Seq<(usize, Seq<char>, bool)>,
    id: usize,
    same_folder: Seq<bool>,
    n: int,
)
    requires
        0 <= n <= all.len(),
    ensures
        ({
            let stays = |j: int| !(all[j].0 == id && same_folder[j]);
            let kept = fileops::kept_copies(all.take(n), id, same_folder);
            &&& kept.len() == order::tally(n, stays)
            &&& forall|k: int|
                0 <= k < n && #[trigger] stays(k) ==> kept[order::tally(k, stays) as int] == all[k]
        }),
    decreases n,
{
    let stays = |j: int| !(all[j].0 == id && same_folder[j]);
    if n > 0 {
        lemma_kept_upto(all, id, same_folder, n - 1);
        assert(all.take(n).drop_last() =~= all.take(n - 1));
        assert(all.take(n)[n - 1] == all[n - 1]);
        let front = fileops::kept_copies(all.take(n - 1), id, same_folder);
        let kept = fileops::kept_copies(all.take(n), id, same_folder);
        assert forall|k: int| 0 <= k < n && #[trigger] stays(k) implies kept[order::tally(
            k,
            stays,
        ) as int] == all[k] by {
            if k < n - 1 {
                order::lemma_tally_is_short(stays, k, n - 1);
                assert(front[order::tally(k, stays) as int] == all[k]);
            }
        }
    }
}

/// The paths of an image's copies: all of them, in the order they landed.
pub proof fn lemma_paths_in_order(all: Seq<(usize, Seq<char>, bool)>, id: usize, n: int)
    requires
        0 <= n <= all.len(),
    ensures
        ({
            let its = |j: int| all[j].0 == id;
            let paths = fileops::paths_of(all.take(n), id);
            &&& paths.len() == order::tally(n, its)
            &&& forall|k: int|
                0 <= k < n && #[trigger] its(k) ==> paths[order::tally(k, its) as int] == all[k].1
        }),
    decreases n,
{
    let its = |j: int| all[j].0 == id;
    if n > 0 {
        lemma_paths_in_order(all, id, n - 1);
        assert(all.take(n).drop_last() =~= all.take(n - 1));
        assert(all.take(n).last() == all[n - 1]);
        let front = fileops::paths_of(all.take(n - 1), id);
        let paths = fileops::paths_of(all.take(n), id);
        assert forall|k: int| 0 <= k < n && #[trigger] its(k) implies paths[order::tally(
            k,
            its,
        ) as int] == all[k].1 by {
            if k < n - 1 {
                order::lemma_tally_is_short(its, k, n - 1);
                assert(front[order::tally(k, its) as int] == all[k].1);
            }
        }
    }
}

// --------------------------------------------------------------- the report
/// A job that was carried out, in one way or the other.
pub open spec fn landed(r: ResultView) -> bool {
    !(r is Failed)
}

/// What a report counts: transfers, those of them that went to a number,
/// those that replaced a file, RAWs that were there already, and sidecars
/// rewritten beside them. It is verified exactly where nothing failed.
pub proof fn lemma_what_a_report_counts(jobs: Seq<CopyJob>, results: Seq<ResultView>, i: int)
    requires
        0 <= i <= jobs.len(),
        i <= results.len(),
    ensures
        ({
            let r = fileops::report_of(jobs, results, i);
            let transferred = |j: int|
                results[j] == ResultView::Copied || (results[j] is Overwritten
                    && results[j]->Overwritten_0 is Transferred);
            let renamed = |j: int|
                results[j] == ResultView::Copied && jobs[j].action == PlanAction::CopyRenamed;
            let replaced = |j: int|
                results[j] == ResultView::Overwritten(Replaced::Transferred { existed: true });
            let identical = |j: int|
                results[j] is Overwritten && results[j]->Overwritten_0 is AlreadyIdentical;
            let refreshed = |j: int|
                results[j] == ResultView::Overwritten(
                    Replaced::AlreadyIdentical { refreshed: true },
                );
            &&& r.copied == order::tally(i, transferred)
            &&& r.renamed == order::tally(i, renamed)
            &&& r.replaced == order::tally(i, replaced)
            &&& r.identical == order::tally(i, identical)
            &&& r.refreshed == order::tally(i, refreshed)
            &&& r.all_verified <==> forall|j: int| 0 <= j < i ==> landed(#[trigger] results[j])
            &&& !r.cancelled
        }),
    decreases i,
{
    if i > 0 {
        lemma_what_a_report_counts(jobs, results, i - 1);
        let r = fileops::report_of(jobs, results, i);
        let front = fileops::report_of(jobs, results, i - 1);
        if r.all_verified {
            assert forall|j: int| 0 <= j < i implies landed(#[trigger] results[j]) by {
                if j < i - 1 {
                    assert(landed(results[j]));
                }
            }
        } else if landed(results[i - 1]) {
            let j = choose|j: int| 0 <= j < i - 1 && !landed(#[trigger] results[j]);
            assert(!landed(results[j]));
        } else {
            assert(!landed(results[i - 1]));
        }
    }
}

/// The jobs that were carried out.
pub open spec fn carried_out(results: Seq<ResultView>) -> spec_fn(int) -> bool {
    |j: int| landed(results[j])
}

/// The jobs that failed.
pub open spec fn not_carried_out(results: Seq<ResultView>) -> spec_fn(int) -> bool {
    |j: int| !landed(results[j])
}

/// The jobs that were copied to a number.
pub open spec fn copied_renamed(
    jobs: Seq<CopyJob>,
    results: Seq<ResultView>,
) -> spec_fn(int) -> bool {
    |j: int| results[j] == ResultView::Copied && jobs[j].action == PlanAction::CopyRenamed
}

/// A report of no job is a fresh one; each job adds its own to it.
proof fn lemma_report_grows(jobs: Seq<CopyJob>, results: Seq<ResultView>, i: int)
    requires
        0 < i,
    ensures
        fileops::report_of(jobs, results, 0) == fileops::fresh_report(),
        fileops::report_of(jobs, results, i) == fileops::report_after(
            fileops::report_of(jobs, results, i - 1),
            jobs[i - 1],
            results[i - 1],
        ),
        forall|test: spec_fn(int) -> bool| #[trigger] order::tally(0, test) == 0,
        forall|test: spec_fn(int) -> bool| #[trigger]
            order::tally(i, test) == order::tally(i - 1, test) + if test(i - 1) {
                1nat
            } else {
                0nat
            },
{
}

/// A report lists every job that was carried out, with the name it landed
/// under, in the order of the jobs.
pub proof fn lemma_what_a_report_says_landed(
    jobs: Seq<CopyJob>,
    results: Seq<ResultView>,
    i: int,
    k: int,
)
    requires
        0 <= k < i <= jobs.len(),
        i <= results.len(),
    ensures
        ({
            let r = fileops::report_of(jobs, results, i);
            &&& r.landed.len() == order::tally(i, carried_out(results))
            &&& landed(results[k]) ==> r.landed[order::tally(k, carried_out(results)) as int] == (
                jobs[k].id,
                jobs[k].dst_raw@,
            )
        }),
    decreases i,
{
    let there = carried_out(results);
    let before = fileops::report_of(jobs, results, i - 1);
    let after = fileops::report_of(jobs, results, i);
    lemma_report_grows(jobs, results, i);
    assert(after.landed == if results[i - 1] is Failed {
        before.landed
    } else {
        before.landed.push((jobs[i - 1].id, jobs[i - 1].dst_raw@))
    });
    if i - 1 > k {
        lemma_what_a_report_says_landed(jobs, results, i - 1, k);
        if there(k) {
            order::lemma_tally_is_short(there, k, i - 1);
        }
    } else if i - 1 > 0 {
        lemma_what_a_report_says_landed(jobs, results, i - 1, 0);
    }
    assert(there(i - 1) == landed(results[i - 1]));
}

/// A report lists every job that failed, with its reason, in the order of the
/// jobs.
pub proof fn lemma_what_a_report_says_failed(
    jobs: Seq<CopyJob>,
    results: Seq<ResultView>,
    i: int,
    k: int,
)
    requires
        0 <= k < i <= jobs.len(),
        i <= results.len(),
    ensures
        ({
            let r = fileops::report_of(jobs, results, i);
            &&& r.failed.len() == order::tally(i, not_carried_out(results))
            &&& results[k] is Failed ==> r.failed[order::tally(
                k,
                not_carried_out(results),
            ) as int] == (jobs[k].dst_raw@, results[k]->Failed_0)
        }),
    decreases i,
{
    let gone = not_carried_out(results);
    let before = fileops::report_of(jobs, results, i - 1);
    let after = fileops::report_of(jobs, results, i);
    lemma_report_grows(jobs, results, i);
    assert(after.failed == if results[i - 1] is Failed {
        before.failed.push((jobs[i - 1].dst_raw@, results[i - 1]->Failed_0))
    } else {
        before.failed
    });
    if i - 1 > k {
        lemma_what_a_report_says_failed(jobs, results, i - 1, k);
        if gone(k) {
            order::lemma_tally_is_short(gone, k, i - 1);
        }
    } else if i - 1 > 0 {
        lemma_what_a_report_says_failed(jobs, results, i - 1, 0);
    }
    assert(gone(i - 1) == !landed(results[i - 1]));
}

/// The example of a renamed copy is the first one; without one there is none.
pub proof fn lemma_what_a_report_names(
    jobs: Seq<CopyJob>,
    results: Seq<ResultView>,
    i: int,
    k: int,
)
    requires
        0 <= k < i <= jobs.len(),
        i <= results.len(),
    ensures
        ({
            let r = fileops::report_of(jobs, results, i);
            let renamed = copied_renamed(jobs, results);
            &&& order::tally(i, renamed) == 0 <==> r.renamed_example is None
            &&& renamed(k) && order::tally(k, renamed) == 0 ==> r.renamed_example == Some(
                jobs[k].dst_raw@,
            )
        }),
    decreases i,
{
    let renamed = copied_renamed(jobs, results);
    let before = fileops::report_of(jobs, results, i - 1);
    let after = fileops::report_of(jobs, results, i);
    lemma_report_grows(jobs, results, i);
    assert(after.renamed_example == if renamed(i - 1) && before.renamed_example is None {
        Some(jobs[i - 1].dst_raw@)
    } else {
        before.renamed_example
    });
    if i - 1 > k {
        lemma_what_a_report_names(jobs, results, i - 1, k);
    } else if i - 1 > 0 {
        lemma_what_a_report_names(jobs, results, i - 1, 0);
    }
    assert(renamed(i - 1) == (results[i - 1] == ResultView::Copied && jobs[i - 1].action
        == PlanAction::CopyRenamed));
}

// ------------------------------------------------------------ the overwrite
/// An overwrite moves a RAW exactly where the destination's is not the same
/// file, rewrites only the sidecar exactly where the RAW is there already and
/// a sidecar's file is not, and touches nothing where all is there. It reports
/// a replacement exactly where a readable file was there, and gives up exactly
/// where there is one to hold the source against and the source cannot be
/// read.
pub proof fn lemma_an_overwrite_does_what_is_missing(
    dst_raw: Option<digest::Digest>,
    src_raw: Option<digest::Digest>,
    has_sidecar: bool,
    dst_xmp: Option<digest::Digest>,
    src_xmp: Option<digest::Digest>,
)
    ensures
        ({
            let step = fileops::pair_step(dst_raw, src_raw, has_sidecar, dst_xmp, src_xmp);
            let raw_there = dst_raw is Some && src_raw is Some && dst_raw->0@ == src_raw->0@;
            let xmp_there = dst_xmp is Some && src_xmp is Some && dst_xmp->0@ == src_xmp->0@;
            &&& step == PairStep::Unreadable <==> dst_raw is Some && src_raw is None
            &&& step is Transfer <==> !raw_there && !(dst_raw is Some && src_raw is None)
            &&& step is Transfer ==> step->existed == (dst_raw is Some)
            &&& step == PairStep::Refresh <==> raw_there && has_sidecar && !xmp_there
            &&& step == PairStep::Nothing <==> raw_there && (!has_sidecar || xmp_there)
        }),
{
}

/// A file that is there is renamed over only where the overwrite was answered;
/// without the answer a rename needs a filesystem without links and a vacant
/// name, and a name that is taken fails the file.
pub proof fn lemma_a_commit_replaces_nothing_unasked(
    commit: Commit,
    outcome: LinkOutcome,
    occupied: bool,
)
    ensures
        fileops::first_step(commit) == CommitStep::Rename <==> commit == Commit::Replace,
        fileops::first_step(commit) == CommitStep::Link <==> commit == Commit::NoClobber,
        fileops::second_step(outcome, occupied) == CommitStep::Rename <==> outcome
            == LinkOutcome::Unsupported && !occupied,
        fileops::second_step(outcome, occupied) == CommitStep::DropTemp <==> outcome
            == LinkOutcome::Linked,
        fileops::second_step(outcome, occupied) == CommitStep::Appeared <==> outcome
            == LinkOutcome::Exists || (outcome == LinkOutcome::Unsupported && occupied),
{
}

// --------------------------------------------------------------- the folder
/// A copy may not go to the folder it comes from, nor to any below it; it may
/// go to one that leaves its path before its end.
pub proof fn lemma_where_copies_may_not_go(
    source: Seq<Seq<char>>,
    below: Seq<Seq<char>>,
    other: Seq<Seq<char>>,
    k: int,
)
    ensures
        fileops::is_inside(source, source),
        fileops::is_inside(source + below, source),
        other.len() < source.len() ==> !fileops::is_inside(other, source),
        0 <= k < source.len() && k < other.len() && other[k] != source[k] ==> !fileops::is_inside(
            other,
            source,
        ),
{
    assert(source.take(source.len() as int) =~= source);
    assert((source + below).take(source.len() as int) =~= source);
    if 0 <= k < source.len() <= other.len() && other[k] != source[k] {
        assert(other.take(source.len() as int)[k] == other[k]);
    }
}

/// Two names that collide stop a plan, and it is the first pair that is named.
pub proof fn lemma_the_first_collision(names: Seq<Seq<char>>, i: int, j: int)
    requires
        0 <= i < j < names.len(),
        names[i] == names[j],
    ensures
        !fileops::distinct(names),
        forall|first: int, second: int| #[trigger]
            fileops::is_collision(names, first, second) ==> second <= j && names[first]
                == names[second],
        exists|first: int, second: int| #[trigger] fileops::is_collision(names, first, second),
    decreases j,
{
    if exists|a: int, b: int| 0 <= a < b < j && #[trigger] names[a] == #[trigger] names[b] {
        let (a, b) = choose|a: int, b: int|
            0 <= a < b < j && #[trigger] names[a] == #[trigger] names[b];
        lemma_the_first_collision(names, a, b);
    } else {
        assert(fileops::is_collision(names, i, j));
    }
    assert forall|first: int, second: int| #[trigger]
        fileops::is_collision(names, first, second) implies second <= j && names[first]
        == names[second] by {
        if second > j {
            assert(names[i] != names[j]);
        }
    }
}

/// A run that is refused has done nothing, and says so of the whole run; one
/// that has not begun has nothing to say.
pub proof fn lemma_a_refused_run()
    ensures
        ({
            let r = fileops::refused_report();
            &&& r.copied == 0 && r.renamed == 0 && r.replaced == 0
            &&& r.identical == 0 && r.refreshed == 0
            &&& r.landed.len() == 0
            &&& r.failed.len() == 1
            &&& !r.all_verified
            &&& !r.cancelled
        }),
        ({
            let r = fileops::fresh_report();
            &&& r.copied == 0 && r.renamed == 0 && r.replaced == 0
            &&& r.identical == 0 && r.refreshed == 0
            &&& r.landed.len() == 0
            &&& r.failed.len() == 0
            &&& r.all_verified
            &&& !r.cancelled
        }),
{
}

} // verus!
