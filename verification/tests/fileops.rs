use fastcull_core::digest;
use fastcull_core::fileops::{
    appeared_during_copy, check_destination, commit_linked, commit_temp, copy_pair, copy_verified,
    destination_names, plan, replace_pair, run_plan, suffixed, xmp_name_of, ClashPolicy, Commit,
    CommitStep, CopyJob, CopyPlan, CopyReport, CopyRun, JobResult, LinkOutcome, PairStep, PlanAction,
    PlanError, PlanSource, Planner, Replaced, SessionCopies, SourceFacts,
};
use fastcull_core::iptc::ExpandContext;
use std::collections::BTreeMap;

/// A folder in memory: names and what they hold.
type Folder = BTreeMap<String, Vec<u8>>;

fn folder(files: &[(&str, &[u8])]) -> Folder {
    files
        .iter()
        .map(|(n, b)| (n.to_string(), b.to_vec()))
        .collect()
}

fn sources(src: &Folder) -> Vec<PlanSource> {
    src.iter()
        .filter(|(n, _)| !n.ends_with(".xmp"))
        .enumerate()
        .map(|(i, (n, bytes))| PlanSource {
            id: i,
            path: n.clone(),
            name: n.clone(),
            size: bytes.len() as u64,
            ctx: ExpandContext {
                date: "2026-07-26".into(),
                time: "210000".into(),
                filename_stem: n.rsplit_once('.').map(|(s, _)| s).unwrap_or(n).into(),
                camera: "ILCE-1".into(),
                ext_upper: "ARW".into(),
            },
        })
        .collect()
}

fn planned(
    src: &Folder,
    dest: &Folder,
    template: Option<&str>,
    policy: ClashPolicy,
    free: Option<u64>,
) -> Result<CopyPlan, PlanError> {
    planned_of(&sources(src), src, dest, template, policy, free)
}

fn planned_of(
    sources: &Vec<PlanSource>,
    src: &Folder,
    dest: &Folder,
    template: Option<&str>,
    policy: ClashPolicy,
    free: Option<u64>,
) -> Result<CopyPlan, PlanError> {
    let names = destination_names(sources, template)?;
    let mut planner = Planner::new(sources, names, policy)?;
    while let Some(name) = planner.want() {
        planner.answer(dest.contains_key(&name));
    }
    let facts = sources
        .iter()
        .map(|s| SourceFacts {
            has_sidecar: src.contains_key(&xmp_name_of(&s.name)),
            landed: Vec::new(),
        })
        .collect();
    plan(&planner, sources, &facts, free)
}

fn sum(folder: &Folder, name: &str) -> Option<digest::Digest> {
    folder.get(name).map(|b| digest::digest_of(b))
}

/// Copy one file: into a temp that `tamper` may change, verified, then under
/// its name.
fn copy_file(
    bytes: &[u8],
    dest: &mut Folder,
    to: &str,
    commit: Commit,
    tamper: impl Fn(&mut Vec<u8>),
) -> Result<(), String> {
    let mut temp = bytes.to_vec();
    tamper(&mut temp);
    copy_verified(&digest::digest_of(bytes), &digest::digest_of(&temp))?;
    let step = match commit_temp(commit) {
        CommitStep::Link if dest.contains_key(to) => commit_linked(LinkOutcome::Exists, true),
        CommitStep::Link => commit_linked(LinkOutcome::Linked, false),
        other => other,
    };
    if step == CommitStep::Appeared {
        return Err(appeared_during_copy().to_string());
    }
    dest.insert(to.to_string(), temp);
    Ok(())
}

/// Copy the files of one job.
fn copy(src: &Folder, dest: &mut Folder, job: &CopyJob, commit: Commit) -> Result<(), String> {
    for (from, to) in copy_pair(job) {
        copy_file(src.get(&from).ok_or("gone")?, dest, &to, commit, |_| {})?;
    }
    Ok(())
}

/// Carry a plan out in memory, as far as `cancel_at` jobs.
fn run(src: &Folder, dest: &mut Folder, plan: CopyPlan, cancel_at: usize) -> CopyReport {
    let jobs = plan.jobs.clone();
    let mut run = CopyRun::start(plan);
    let mut done = 0;
    while let Some(i) = run.next(done >= cancel_at) {
        let job = &jobs[i];
        let result = if job.action == PlanAction::Replace {
            let has_sidecar = job.src_xmp.is_some();
            let step = replace_pair(
                sum(dest, &job.dst_raw),
                sum(src, &job.src_raw),
                has_sidecar,
                sum(dest, &job.dst_xmp),
                job.src_xmp.as_ref().and_then(|x| sum(src, x)),
            );
            match step {
                PairStep::Transfer { existed } => match copy(src, dest, job, Commit::Replace) {
                    Ok(()) => JobResult::Overwritten(Replaced::Transferred { existed }),
                    Err(e) => JobResult::Failed(e),
                },
                PairStep::Refresh => {
                    let xmp = src[job.src_xmp.as_ref().unwrap()].clone();
                    dest.insert(job.dst_xmp.clone(), xmp);
                    JobResult::Overwritten(Replaced::AlreadyIdentical { refreshed: true })
                }
                PairStep::Nothing => {
                    JobResult::Overwritten(Replaced::AlreadyIdentical { refreshed: false })
                }
                PairStep::Unreadable => JobResult::Failed("unreadable".to_string()),
            }
        } else {
            match copy(src, dest, job, Commit::NoClobber) {
                Ok(()) => JobResult::Copied,
                Err(e) => JobResult::Failed(e),
            }
        };
        run.done(result);
        done += 1;
    }
    run.finish()
}

#[test]
fn plan_templates_seq_and_rejects_collisions() {
    let src = folder(&[("a.ARW", b"aa"), ("b.ARW", b"bb")]);
    let dest = Folder::new();
    let p = planned(&src, &dest, Some("{date}_{seq}.{ext}"), ClashPolicy::Ask, None).unwrap();
    assert_eq!(p.jobs[0].dst_raw, "2026-07-26_1.ARW");
    assert_eq!(p.jobs[1].dst_raw, "2026-07-26_2.ARW");
    assert_eq!(
        p.jobs[1].dst_xmp, "2026-07-26_2.ARW.xmp",
        "sidecar lockstep on the RENAMED name"
    );
    let err = planned(&src, &dest, Some("same.{ext}"), ClashPolicy::Ask, None).unwrap_err();
    assert!(matches!(err, PlanError::TemplateCollision { .. }));
    assert!(err.text().contains("same.ARW"), "{}", err.text());
    let err = planned(&src, &dest, Some("{bogus}"), ClashPolicy::Ask, None).unwrap_err();
    assert!(matches!(err, PlanError::Template(_)));
}

fn path(components: &[&str]) -> Vec<String> {
    components.iter().map(|c| c.to_string()).collect()
}

#[test]
fn plan_rejects_dest_inside_or_equal_to_source() {
    let src = path(&["/", "shoot", "src"]);
    assert!(matches!(
        check_destination(&src, Some(&src)),
        Err(PlanError::DestEqualsSource)
    ));
    assert!(matches!(
        check_destination(&path(&["/", "shoot", "src", "selects"]), Some(&src)),
        Err(PlanError::DestInsideSource)
    ));
    assert!(check_destination(&path(&["/", "shoot", "src2"]), Some(&src)).is_ok());
    assert!(check_destination(&path(&["/", "shoot"]), Some(&src)).is_ok());
    assert!(check_destination(&src, None).is_ok());
}

#[test]
fn ask_marks_the_clashes_and_counts_their_bytes_apart() {
    let src = folder(&[("a.ARW", b"aaaa"), ("b.ARW", b"bb")]);
    let dest = folder(&[("a.ARW", b"another body's frame")]);
    let p = planned(&src, &dest, None, ClashPolicy::Ask, None).unwrap();
    assert_eq!(p.jobs[0].action, PlanAction::Clash);
    assert_eq!(p.jobs[1].action, PlanAction::Copy);
    assert_eq!((p.clashes, p.sidecar_only_clashes), (1, 0));
    assert_eq!(
        (p.total_bytes, p.clash_bytes),
        (2, 4),
        "the clash-free total and the cost of the clashing half are separate"
    );
    assert_eq!(p.renamed, 0, "Ask resolves nothing");
}

#[test]
fn create_copies_suffixes_from_1_and_moves_the_whole_pair() {
    let src = folder(&[("a.ARW", b"aaaa")]);
    let mut dest = folder(&[("a.ARW", b"foreign")]);
    let copies = ClashPolicy::CreateCopies;
    let p = planned(&src, &dest, None, copies, None).unwrap();
    assert_eq!(p.jobs[0].action, PlanAction::CopyRenamed);
    assert_eq!(p.jobs[0].dst_raw, "a_1.ARW");
    assert_eq!(p.jobs[0].dst_xmp, "a_1.ARW.xmp");
    assert_eq!((p.renamed, p.clashes), (1, 1));

    dest.insert("a_1.ARW.xmp".to_string(), b"<orphan/>".to_vec());
    let p = planned(&src, &dest, None, copies, None).unwrap();
    assert_eq!(p.jobs[0].dst_raw, "a_2.ARW");
    assert_eq!(p.jobs[0].dst_xmp, "a_2.ARW.xmp");

    dest.insert("a_2.ARW".to_string(), b"foreign2".to_vec());
    let pair = folder(&[("a.ARW", b"aaaa"), ("a_3.ARW", b"cc")]);
    let p = planned(&pair, &dest, None, copies, None).unwrap();
    assert_eq!(p.jobs[0].dst_raw, "a_3.ARW");
    assert_eq!(p.jobs[1].dst_raw, "a_3_1.ARW");
    assert_eq!(p.jobs[1].action, PlanAction::CopyRenamed);

    let report = run(&pair, &mut dest, p, usize::MAX);
    assert_eq!((report.copied, report.renamed), (2, 2));
    assert_eq!(report.renamed_example.as_deref(), Some("a_3.ARW"));
    assert_eq!(dest["a.ARW"], b"foreign", "what was there is untouched");
    assert_eq!(dest["a_3.ARW"], b"aaaa");
    assert_eq!(dest["a_3_1.ARW"], b"cc");
}

#[test]
fn overwrite_replaces_a_differing_file_and_only_refreshes_an_identical_one() {
    let mut src = folder(&[("a.ARW", b"aaaa"), ("a.ARW.xmp", b"<pick/>")]);
    let mut dest = folder(&[("a.ARW", b"old")]);
    let overwrite = |src: &Folder, dest: &mut Folder| {
        let p = planned(src, dest, None, ClashPolicy::Overwrite, None).unwrap();
        assert_eq!(p.jobs[0].action, PlanAction::Replace);
        assert_eq!(p.jobs[0].dst_raw, "a.ARW", "replaced IN PLACE");
        run(src, dest, p, usize::MAX)
    };
    let report = overwrite(&src, &mut dest);
    assert_eq!((report.copied, report.replaced, report.identical), (1, 1, 0));
    assert!(report.all_verified);
    assert_eq!(dest["a.ARW"], b"aaaa");
    assert_eq!(dest["a.ARW.xmp"], b"<pick/>", "the sidecar came with it");

    let report = overwrite(&src, &mut dest);
    assert_eq!((report.copied, report.identical, report.refreshed), (0, 1, 0));
    assert_eq!(report.landed, vec![(0, "a.ARW".to_string())]);
    assert!(report.all_verified);

    src.insert("a.ARW.xmp".to_string(), b"<xmp>fresh caption</xmp>".to_vec());
    let report = overwrite(&src, &mut dest);
    assert_eq!((report.copied, report.identical, report.refreshed), (0, 1, 1));
    assert_eq!(dest["a.ARW.xmp"], b"<xmp>fresh caption</xmp>");
}

#[test]
fn the_clash_check_sees_templated_names_and_never_reflows_seq() {
    let src = folder(&[("a.ARW", b"aaaa"), ("b.ARW", b"bb")]);
    let dest = folder(&[("2026-07-26_1.ARW", b"foreign"), ("b.ARW", b"irrelevant")]);
    let template = Some("{date}_{seq}.{ext}");
    let p = planned(&src, &dest, template, ClashPolicy::Ask, None).unwrap();
    assert_eq!(
        (p.jobs[0].action, p.jobs[1].action),
        (PlanAction::Clash, PlanAction::Copy)
    );
    let p = planned(&src, &dest, template, ClashPolicy::CreateCopies, None).unwrap();
    assert_eq!(p.jobs[0].dst_raw, "2026-07-26_1_1.ARW");
    assert_eq!(p.jobs[1].dst_raw, "2026-07-26_2.ARW");
}

#[test]
fn a_sidecar_left_behind_is_a_clash_the_answers_resolve_both_ways() {
    let src = folder(&[("a.ARW", b"aaaa"), ("a.ARW.xmp", b"<new/>")]);
    let dest = folder(&[("a.ARW.xmp", b"<left behind/>")]);
    let p = planned(&src, &dest, None, ClashPolicy::Ask, None).unwrap();
    assert_eq!((p.clashes, p.sidecar_only_clashes), (1, 1));
    let mut kept = dest.clone();
    let p = planned(&src, &dest, None, ClashPolicy::CreateCopies, None).unwrap();
    run(&src, &mut kept, p, usize::MAX);
    assert_eq!(kept["a.ARW.xmp"], b"<left behind/>");
    assert_eq!(kept["a_1.ARW"], b"aaaa");
    let mut over = dest.clone();
    let p = planned(&src, &dest, None, ClashPolicy::Overwrite, None).unwrap();
    let report = run(&src, &mut over, p, usize::MAX);
    assert_eq!((report.copied, report.replaced), (1, 0), "no RAW was there");
    assert_eq!(over["a.ARW.xmp"], b"<new/>");
}

#[test]
fn execute_refuses_a_plan_built_before_the_answer() {
    let src = folder(&[("a.ARW", b"aaaa"), ("b.ARW", b"bb")]);
    let mut dest = folder(&[("a.ARW", b"foreign")]);
    let p = planned(&src, &dest, None, ClashPolicy::Ask, None).unwrap();
    let report = run(&src, &mut dest, p, usize::MAX);
    assert_eq!((report.copied, report.all_verified), (0, false));
    assert_eq!(report.failed.len(), 1);
    assert_eq!(dest.len(), 1, "not one file was copied");
}

#[test]
fn a_name_taken_after_the_plan_fails_that_file_alone() {
    let src = folder(&[("a.ARW", b"aaaa"), ("b.ARW", b"bb")]);
    let mut dest = Folder::new();
    let p = planned(&src, &dest, None, ClashPolicy::Ask, None).unwrap();
    dest.insert("a.ARW".to_string(), b"latecomer".to_vec());
    let report = run(&src, &mut dest, p, usize::MAX);
    assert_eq!(report.copied, 1);
    assert_eq!(
        report.failed,
        vec![(
            "a.ARW".to_string(),
            "a file appeared at the destination during the copy".to_string()
        )]
    );
    assert_eq!(dest["a.ARW"], b"latecomer");
    assert_eq!(dest["b.ARW"], b"bb");
    assert!(!report.all_verified);
}

#[test]
fn the_free_space_check_follows_the_answer() {
    let src = folder(&[("a.ARW", b"aaaa"), ("b.ARW", b"bb")]);
    let dest = folder(&[("a.ARW", b"foreign")]);
    let mut sources = sources(&src);
    // `a` clashes and is (claimed to be) bigger than any disk.
    sources[0].size = u64::MAX / 2;
    let free = Some(1_000_000);
    for policy in [ClashPolicy::Ask, ClashPolicy::Overwrite] {
        let p = planned_of(&sources, &src, &dest, None, policy, free)
            .unwrap_or_else(|e| panic!("{policy:?} must not error on space: {e:?}"));
        assert_eq!(p.free_bytes, free);
    }
    assert!(matches!(
        planned_of(&sources, &src, &dest, None, ClashPolicy::CreateCopies, free),
        Err(PlanError::InsufficientSpace { .. })
    ));
    // A CLASH-FREE file that does not fit blocks every answer.
    sources[0].size = 4;
    sources[1].size = u64::MAX / 2;
    for policy in [
        ClashPolicy::Ask,
        ClashPolicy::Overwrite,
        ClashPolicy::CreateCopies,
    ] {
        assert!(
            matches!(
                planned_of(&sources, &src, &dest, None, policy, free),
                Err(PlanError::InsufficientSpace { .. })
            ),
            "{policy:?} must refuse when even the clash-free total does not fit"
        );
    }
    // To the byte.
    assert!(planned(&src, &dest, None, ClashPolicy::Ask, Some(2)).is_ok());
    match planned(&src, &dest, None, ClashPolicy::Overwrite, Some(1)) {
        Err(PlanError::InsufficientSpace { needed, free }) => assert_eq!((needed, free), (2, 1)),
        _ => panic!("two bytes do not fit into one"),
    }
    match planned(&src, &dest, None, ClashPolicy::CreateCopies, Some(5)) {
        Err(PlanError::InsufficientSpace { needed, free }) => assert_eq!((needed, free), (6, 5)),
        _ => panic!("six bytes do not fit into five"),
    }
    let p = planned(&src, &dest, None, ClashPolicy::CreateCopies, Some(6)).unwrap();
    assert_eq!((p.total_bytes, p.free_bytes), (6, Some(6)));
}

#[test]
fn execute_copies_verifies_and_isolates_failures() {
    let mut src = folder(&[
        ("good.ARW", &[7; 100_000]),
        ("good.ARW.xmp", b"picked"),
        ("bad.ARW", b"unreadable"),
    ]);
    let mut sources = sources(&src);
    sources.reverse();
    sources[0].id = 0;
    sources[1].id = 1;
    assert_eq!((&*sources[0].name, &*sources[1].name), ("good.ARW", "bad.ARW"));
    let mut dest = Folder::new();
    let p = planned_of(&sources, &src, &dest, None, ClashPolicy::Ask, None).unwrap();
    src.remove("bad.ARW");
    let report = run(&src, &mut dest, p, usize::MAX);
    assert_eq!(report.copied, 1);
    assert_eq!(report.landed, vec![(0, "good.ARW".to_string())]);
    assert_eq!(report.failed, vec![("bad.ARW".to_string(), "gone".to_string())]);
    assert!(!report.all_verified);
    assert_eq!(dest["good.ARW"], vec![7; 100_000]);
    assert_eq!(dest.keys().collect::<Vec<_>>(), ["good.ARW", "good.ARW.xmp"]);
}

#[test]
fn copy_verified_detects_corruption_and_cleans_up() {
    let written = digest::digest_of(b"the bytes of the source");
    let mut stream = digest::Stream::new();
    stream.update(b"the bytes ");
    stream.update(b"of the source");
    assert!(copy_verified(&written, &stream.finalize()).is_ok());
    let corrupt = digest::digest_of(b"the bytes of the sourcE");
    assert_eq!(
        copy_verified(&written, &corrupt),
        Err("BLAKE3 mismatch after copy")
    );
    // The happy path round-trips.
    let mut dest = Folder::new();
    let src = [3u8; 4096];
    copy_file(&src, &mut dest, "d.bin", Commit::NoClobber, |_| {}).unwrap();
    assert_eq!(dest["d.bin"], src);
    // Bytes that change between the write and the re-read leave nothing
    // under the final name, and do not destroy what is there.
    let spoil = |temp: &mut Vec<u8>| temp.extend_from_slice(b"CORRUPT");
    let err = copy_file(&src, &mut dest, "d2.bin", Commit::NoClobber, spoil).unwrap_err();
    assert!(err.contains("BLAKE3 mismatch"), "{err}");
    assert!(!dest.contains_key("d2.bin"), "no file under the final name");
    dest.insert("d2.bin".to_string(), b"the good copy".to_vec());
    let err = copy_file(&src, &mut dest, "d2.bin", Commit::Replace, spoil).unwrap_err();
    assert!(err.contains("BLAKE3 mismatch"), "{err}");
    assert_eq!(dest["d2.bin"], b"the good copy");
}

#[test]
fn cancel_between_files_keeps_finished_copies() {
    let src = folder(&[("a.ARW", b"aaaa"), ("b.ARW", b"bb"), ("c.ARW", b"cc")]);
    let mut dest = Folder::new();
    let p = planned(&src, &dest, None, ClashPolicy::Ask, None).unwrap();
    let report = run(&src, &mut dest, p, 1);
    assert!(report.cancelled);
    assert_eq!(report.copied, 1);
    assert_eq!(dest.len(), 1);
}

#[test]
fn session_copies_are_remembered_per_destination_for_the_badge() {
    let mut copies = SessionCopies::default();
    assert!(!copies.is_copied(0));
    copies.record(0, "/out/a.ARW".to_string(), &vec![]);
    copies.record(0, "/other/a.ARW".to_string(), &vec![false]);
    copies.record(1, "/out/b.ARW".to_string(), &vec![false, false]);
    assert!(copies.is_copied(0) && copies.is_copied(1) && !copies.is_copied(2));
    assert_eq!(copies.landed_paths(0), vec!["/out/a.ARW", "/other/a.ARW"]);
    copies.refresh(&vec![false, true, false]);
    assert!(copies.is_copied(0), "one of its two copies is still there");
    assert!(!copies.is_copied(1));
    copies.refresh(&vec![false, false, true]);
    assert!(!copies.is_copied(0) && copies.is_copied(1));
}

#[test]
fn record_supersedes_the_entry_of_a_re_spelled_folder() {
    let mut copies = SessionCopies::default();
    copies.record(0, "/out/a.ARW".to_string(), &vec![]);
    copies.record(0, "/OUT/a.ARW".to_string(), &vec![true]);
    assert_eq!(copies.landed_paths(0), vec!["/OUT/a.ARW"]);
    assert_eq!(copies.entries().len(), 1);
}

#[test]
fn a_hand_deleted_copy_goes_out_again_with_no_question() {
    let src = folder(&[("a.ARW", b"aaaa")]);
    let sources = sources(&src);
    let names = destination_names(&sources, None).unwrap();
    let mut planner = Planner::new(&sources, names, ClashPolicy::Ask).unwrap();
    while planner.want().is_some() {
        planner.answer(false);
    }
    let facts = vec![SourceFacts {
        has_sidecar: false,
        landed: vec![(true, false)],
    }];
    let p = plan(&planner, &sources, &facts, None).unwrap();
    assert_eq!(p.jobs[0].action, PlanAction::Copy);
    assert_eq!((p.clashes, p.recopied), (0, 1));
}

#[test]
fn a_report_adds_up() {
    let src = folder(&[("a.ARW", b"aaaa"), ("b.ARW", b"bb"), ("c.ARW", b"cc")]);
    let p = planned(&src, &Folder::new(), None, ClashPolicy::Ask, None).unwrap();
    let report = run_plan(
        p,
        vec![
            JobResult::Copied,
            JobResult::Failed("disk full".to_string()),
            JobResult::Overwritten(Replaced::AlreadyIdentical { refreshed: true }),
        ],
    );
    assert_eq!((report.copied, report.identical, report.refreshed), (1, 1, 1));
    assert_eq!(report.failed.len(), 1);
    assert_eq!(report.landed.len(), 2);
}

#[test]
fn suffixes_go_before_the_extension() {
    assert_eq!(suffixed("a.ARW", 1), "a_1.ARW");
    assert_eq!(suffixed("noext", 12), "noext_12");
    assert_ne!(suffixed("a.ARW", 1), suffixed("a.ARW", 11));
    assert_eq!(xmp_name_of("a.ARW"), "a.ARW.xmp");
}

#[test]
fn a_commit_without_links_looks_first() {
    assert_eq!(commit_temp(Commit::Replace), CommitStep::Rename);
    assert_eq!(commit_temp(Commit::NoClobber), CommitStep::Link);
    assert_eq!(
        commit_linked(LinkOutcome::Unsupported, true),
        CommitStep::Appeared
    );
    assert_eq!(
        commit_linked(LinkOutcome::Unsupported, false),
        CommitStep::Rename
    );
}

#[test]
fn plan_faults_say_what_is_wrong() {
    for (fault, words) in [
        (
            PlanError::DestEqualsSource,
            "destination is the source folder itself",
        ),
        (
            PlanError::DestInsideSource,
            "destination is inside the source folder",
        ),
        (
            PlanError::TemplateCollision {
                name: "x.ARW".into(),
                first: "a.ARW".into(),
                second: "b.ARW".into(),
            },
            "template collision: 'x.ARW' is produced by both a.ARW and b.ARW",
        ),
        (
            PlanError::InsufficientSpace { needed: 7, free: 5 },
            "not enough free space: need 7 bytes, 5 available",
        ),
        (PlanError::Io("no such folder".into()), "I/O: no such folder"),
    ] {
        assert_eq!(fault.text(), words);
    }
}

#[test]
fn the_digest_is_blake3() {
    // The published value for no input at all.
    assert_eq!(
        digest::digest_of(b"")[..4],
        [0xaf, 0x13, 0x49, 0xb9],
        "the hash of nothing"
    );
}

#[test]
fn what_was_copied_before_changes_no_job() {
    let src = folder(&[("a.ARW", b"aa"), ("a.ARW.xmp", b"x"), ("b.ARW", b"bb")]);
    let dest = folder(&[("b.ARW", b"old")]);
    let sources = sources(&src);
    let plans: Vec<CopyPlan> = [vec![], vec![(true, false)], vec![(true, true), (false, false)]]
        .into_iter()
        .map(|landed: Vec<(bool, bool)>| {
            let names = destination_names(&sources, None).unwrap();
            let mut planner = Planner::new(&sources, names, ClashPolicy::CreateCopies).unwrap();
            while let Some(name) = planner.want() {
                planner.answer(dest.contains_key(&name));
            }
            let facts = sources
                .iter()
                .map(|s| SourceFacts {
                    has_sidecar: src.contains_key(&xmp_name_of(&s.name)),
                    landed: landed.clone(),
                })
                .collect();
            plan(&planner, &sources, &facts, Some(1_000)).unwrap()
        })
        .collect();
    assert_eq!(
        plans.iter().map(|p| p.recopied).collect::<Vec<_>>(),
        [0, 2, 0]
    );
    for p in &plans {
        assert_eq!(format!("{:?}", p.jobs), format!("{:?}", plans[0].jobs));
        assert_eq!(
            (p.total_bytes, p.clash_bytes, p.free_bytes, p.clashes, p.renamed),
            (4, 0, Some(1_000), 1, 1)
        );
    }
}
