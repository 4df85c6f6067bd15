use fastcull_core::clip::qt;
use fastcull_core::clip::{
    cadence, candidate_name, capture_order, check_bytes, check_index, check_place, clip_name,
    did_not_parse, file_bytes, fps_text, gap_text, numbers_fit, plan_with_free, planned_name, refusal, run_plan_with, scope, scope_len,
    skipped_text, track_spec, unavailable_reason, unmirrored, write_stage, write_step, Cadence,
    CadenceSource, ClipAction, ClipError, ClipPlan, ClipReport, ClipSource, Destination, Probe,
    SkipReason, Skipped, WriteStage, WriteStep, Written, MAX_NAME_BYTES, MAX_SAMPLE_MS,
    MIN_SAMPLE_MS,
};
use fastcull_core::digest;
use fastcull_core::fileops::{ClashPolicy, Commit};

fn timed(times: &[Option<i64>], has_subsec: bool) -> Vec<ClipSource> {
    times
        .iter()
        .enumerate()
        .map(|(i, t)| ClipSource {
            id: i,
            path: format!("f{i:04}.ARW"),
            name: format!("f{i:04}.ARW"),
            time_ms: *t,
            has_subsec,
        })
        .collect()
}

#[test]
fn the_median_gap_is_the_frame_duration() {
    let times: Vec<Option<i64>> = (0..30).map(|i| Some(1000 + i * 100 / 3)).collect();
    let c = cadence(&timed(&times, true));
    assert_eq!(c.sample_ms, 33);
    assert_eq!(c.source, CadenceSource::Measured);
    assert_eq!(c.text(), "30.3 fps");
}

#[test]
fn a_pause_between_two_bursts_does_not_stretch_every_frame() {
    let mut t = 0i64;
    let mut times = Vec::new();
    for i in 0..30 {
        if i == 15 {
            t += 4000;
        } else if i > 0 {
            t += 33;
        }
        times.push(Some(t));
    }
    let c = cadence(&timed(&times, true));
    assert_eq!(c.sample_ms, 33, "the median ignores the one long gap");
    assert_eq!(c.source, CadenceSource::Measured);
}

#[test]
fn one_second_granularity_falls_back_to_fifteen_fps() {
    let times: Vec<Option<i64>> = (0..10).map(|i| Some(i * 1000)).collect();
    let c = cadence(&timed(&times, false));
    assert_eq!((c.sample_ms, c.source), (67, CadenceSource::NoTiming));
    assert_eq!(c.text(), "timing not in the files — assumed 15 fps");
    let none = cadence(&timed(&[None, None, None], true));
    assert_eq!(none.source, CadenceSource::NoTiming);
}

#[test]
fn implausible_gaps_are_clamped_and_said_so() {
    let fast = cadence(&timed(&[Some(0), Some(3), Some(6), Some(9)], true));
    assert_eq!(fast.sample_ms, MIN_SAMPLE_MS);
    assert_eq!(fast.source, CadenceSource::Clamped { median_ms: 3 });
    assert_eq!(fast.text(), "gaps of 3 ms — clamped to 111.1 fps");

    let slow = cadence(&timed(&[Some(0), Some(4000), Some(8000)], true));
    assert_eq!(slow.sample_ms, MAX_SAMPLE_MS);
    assert_eq!(slow.source, CadenceSource::Clamped { median_ms: 4000 });
    assert_eq!(slow.text(), "gaps of 4.0 s — clamped to 10 fps");
}

#[test]
fn only_millisecond_pairs_measure_a_gap() {
    let mut frames = timed(&[Some(0), Some(33), Some(66), Some(1066)], true);
    frames[3].has_subsec = false;
    let c = cadence(&frames);
    assert_eq!(c.sample_ms, 33, "the 1000 ms pair does not vote");
}

#[test]
fn the_cadence_only_explains_itself_when_it_had_to() {
    let measured = Cadence {
        sample_ms: 33,
        source: CadenceSource::Measured,
    };
    assert_eq!(measured.text(), "30.3 fps");
    for c in [
        Cadence {
            sample_ms: 67,
            source: CadenceSource::NoTiming,
        },
        Cadence {
            sample_ms: 100,
            source: CadenceSource::Clamped { median_ms: 5000 },
        },
    ] {
        assert!(
            c.text().contains("assumed 15 fps") || c.text().contains("clamped"),
            "a fallback cadence must say so: {}",
            c.text()
        );
    }
}

#[test]
fn the_scope_is_the_selection_or_the_burst_under_the_cursor() {
    let groups = vec![
        Some(0),
        Some(0),
        Some(0),
        Some(0),
        None,
        Some(1),
        Some(1),
        Some(1),
    ];
    assert_eq!(scope(&[], 1, &groups), vec![0, 1, 2, 3]);
    assert_eq!(scope(&[], 6, &groups), vec![5, 6, 7]);
    assert!(scope(&[], 4, &groups).is_empty());
    assert_eq!(
        unavailable_reason(0),
        Some("select frames or stand in a burst")
    );
    assert_eq!(scope(&[2, 3, 5], 1, &groups), vec![2, 3, 5]);
    assert_eq!(scope(&[2], 1, &groups), vec![2]);
    assert!(unavailable_reason(1).is_some_and(|r| r.contains("not a video")));
    assert_eq!(unavailable_reason(2), None);
    assert!(scope(&[], 99, &groups).is_empty());
}

#[test]
fn the_scope_and_its_count_agree() {
    let groups = vec![Some(0), Some(0), Some(0), None, Some(1), Some(1)];
    for cursor in 0..groups.len() {
        let burst = groups[cursor]
            .map(|g| groups.iter().filter(|x| **x == Some(g)).count())
            .unwrap_or(0);
        assert_eq!(
            scope(&[], cursor, &groups).len(),
            scope_len(0, burst),
            "cursor {cursor}"
        );
    }
    for selected in [vec![1usize], vec![1, 2], vec![0, 1, 4, 5]] {
        assert_eq!(
            scope(&selected, 0, &groups).len(),
            scope_len(selected.len(), 3)
        );
    }
}

#[test]
fn capture_order_sorts_by_time_then_name_then_the_untimed() {
    let sources = vec![
        ClipSource {
            id: 0,
            path: "z.ARW".into(),
            name: "z.ARW".into(),
            time_ms: Some(200),
            has_subsec: true,
        },
        ClipSource {
            id: 1,
            path: "n.ARW".into(),
            name: "n.ARW".into(),
            time_ms: None,
            has_subsec: false,
        },
        ClipSource {
            id: 2,
            path: "b.ARW".into(),
            name: "b.ARW".into(),
            time_ms: Some(100),
            has_subsec: true,
        },
        ClipSource {
            id: 3,
            path: "a.ARW".into(),
            name: "a.ARW".into(),
            time_ms: Some(100),
            has_subsec: true,
        },
    ];
    let names: Vec<String> = capture_order(&sources)
        .iter()
        .map(|s| s.name.clone())
        .collect();
    assert_eq!(names, ["a.ARW", "b.ARW", "z.ARW", "n.ARW"]);
}

#[test]
fn the_name_is_the_frame_range() {
    assert_eq!(
        clip_name("DSC05010.ARW", "DSC05039.ARW"),
        "DSC05010-DSC05039.mov"
    );
    assert_eq!(clip_name("a.ARW", "a.NEF"), "a.mov");
    assert_eq!(clip_name(".hidden", "b.ARW"), ".hidden-b.mov");
}

#[test]
fn skips_are_grouped_by_reason_biggest_first() {
    let s = |id, reason| Skipped {
        id,
        name: format!("f{id}.ARW"),
        reason,
    };
    let text = skipped_text(&[
        s(0, SkipReason::NoPreview),
        s(
            1,
            SkipReason::Size {
                width: 5616,
                height: 3744,
            },
        ),
        s(
            2,
            SkipReason::Size {
                width: 5616,
                height: 3744,
            },
        ),
    ]);
    assert_eq!(
        text,
        "skipped — 2 frames: different size (5616×3744) · 1 frame: no usable embedded JPEG"
    );
    assert!(skipped_text(&[]).is_empty());
}

#[test]
fn mirrored_orientations_degrade_to_their_rotation() {
    assert_eq!(unmirrored(2), 1);
    assert_eq!(unmirrored(4), 3);
    assert_eq!(unmirrored(5), 8);
    assert_eq!(unmirrored(7), 6);
    for straight in [1, 3, 6, 8] {
        assert_eq!(unmirrored(straight), straight);
    }
    assert_eq!(unmirrored(99), 1, "a corrupt tag reads as 'as stored'");
}

#[test]
fn the_header_size_follows_the_sample_count() {
    assert_eq!(qt::header_len(3, 1000), 627 + 36 + 8);
    assert_eq!(qt::header_len(30, 1000), 627 + 360 + 8);
    let big = u64::from(u32::MAX);
    assert_eq!(qt::header_len(3, big), 627 + 36 + 16);
    assert_eq!(qt::header_len(3, big - 8), 627 + 36 + 8);
}

#[test]
fn the_green_light_is_only_for_a_run_that_earned_it() {
    let landed = ClipReport {
        frames: 3,
        path: Some("x.mov".to_string()),
        all_verified: true,
        ..Default::default()
    };
    assert!(landed.earned_the_green_light());
    for spoiled in [
        ClipReport {
            cancelled: true,
            ..landed.clone()
        },
        ClipReport {
            failed: Some("disk full".into()),
            ..landed.clone()
        },
        ClipReport {
            all_verified: false,
            ..landed.clone()
        },
        ClipReport {
            path: None,
            ..landed.clone()
        },
        ClipReport {
            frames: 0,
            ..landed.clone()
        },
    ] {
        assert!(
            !spoiled.earned_the_green_light(),
            "green light over {spoiled:?}"
        );
    }
}

fn source(id: usize, name: &str, time_ms: Option<i64>, has_subsec: bool) -> ClipSource {
    ClipSource {
        id,
        path: format!("/shoot/{name}"),
        name: name.to_string(),
        time_ms,
        has_subsec,
    }
}

fn probe(width: u32, height: u32, orientation: u16, len: u64) -> Option<Probe> {
    Some(Probe {
        offset: 100,
        len,
        width,
        height,
        orientation,
    })
}

/// An empty destination.
const FREE: Destination = Destination {
    blocked: false,
    taken: 0,
};

/// The three frames of a 30 fps burst.
fn burst() -> (Vec<ClipSource>, Vec<Option<Probe>>) {
    (
        vec![
            source(0, "a.ARW", Some(0), true),
            source(1, "b.ARW", Some(33), true),
            source(2, "c.ARW", Some(66), true),
        ],
        vec![
            probe(400, 300, 1, 500),
            probe(400, 300, 1, 640),
            probe(400, 300, 1, 480),
        ],
    )
}

fn plan(sources: &[ClipSource], probes: &Vec<Option<Probe>>, policy: ClashPolicy) -> ClipPlan {
    plan_with_free(sources, probes, FREE, policy, Some(u64::MAX)).unwrap()
}

fn names(plan: &ClipPlan) -> Vec<&str> {
    plan.frames.iter().map(|f| f.name.as_str()).collect()
}

#[test]
fn the_plan_is_in_capture_order_and_names_the_range() {
    let sources = vec![
        source(0, "c.ARW", Some(2066), true),
        source(1, "a.ARW", Some(2000), true),
        source(2, "b.ARW", Some(2033), true),
    ];
    let probes = vec![
        probe(400, 300, 1, 600),
        probe(400, 300, 1, 500),
        probe(400, 300, 1, 550),
    ];
    let p = plan(&sources, &probes, ClashPolicy::Ask);
    assert_eq!(names(&p), ["a.ARW", "b.ARW", "c.ARW"]);
    assert_eq!(p.file_name(), "a-c.mov");
    assert_eq!(p.dst, "a-c.mov");
    assert_eq!(planned_name(&sources, &probes).as_deref(), Some("a-c.mov"));
    assert_eq!(p.action, ClipAction::Write);
    assert_eq!((p.width, p.height), (400, 300));
    assert_eq!(p.orientation, 1);
    assert_eq!(p.sample_bytes, 500 + 550 + 600);
    assert_eq!(
        p.total_bytes,
        p.sample_bytes + qt::header_len(3, p.sample_bytes),
        "the size the dialog quotes is the size the file will have"
    );
    assert_eq!(p.cadence.sample_ms, 33);
    assert!(p.skipped.is_empty());
}

#[test]
fn frames_that_cannot_share_the_track_are_skipped_and_reported() {
    let sources = vec![
        source(0, "a.ARW", Some(0), true),
        source(1, "b.ARW", Some(33), true),
        source(2, "c.ARW", Some(66), true),
        source(3, "d.ARW", Some(99), true),
        source(4, "e.ARW", Some(132), true),
        source(5, "f.ARW", Some(165), true),
    ];
    let probes = vec![
        probe(400, 300, 1, 500),
        probe(380, 285, 1, 500),
        probe(400, 300, 6, 500),
        None,
        None,
        probe(400, 300, 1, 500),
    ];
    let p = plan(&sources, &probes, ClashPolicy::Ask);
    assert_eq!(names(&p), ["a.ARW", "f.ARW"]);
    assert_eq!(p.skipped.len(), 4);
    let text = p.skipped_text();
    assert!(text.contains("different size (380×285)"), "{text}");
    assert!(text.contains("different orientation (EXIF 6)"), "{text}");
    assert!(text.contains("2 frames: no usable embedded JPEG"), "{text}");
}

#[test]
fn the_name_names_only_frames_that_are_in_the_file() {
    let sources = vec![
        source(0, "a.ARW", Some(0), true),
        source(1, "b.ARW", Some(33), true),
        source(2, "c.ARW", Some(66), true),
        source(3, "d.ARW", Some(99), true),
    ];
    let probes = vec![None, probe(400, 300, 1, 500), probe(400, 300, 1, 500), None];
    let p = plan(&sources, &probes, ClashPolicy::Ask);
    assert_eq!(p.file_name(), "b-c.mov", "a.ARW and d.ARW are not in it");
}

#[test]
fn the_first_usable_frame_sets_the_track() {
    let (sources, _) = burst();
    let probes = vec![None, probe(400, 300, 6, 500), probe(400, 300, 6, 500)];
    let p = plan(&sources, &probes, ClashPolicy::Ask);
    assert_eq!(p.frames.len(), 2);
    assert_eq!(p.orientation, 6, "the portrait pair set the matrix");
    assert_eq!((p.width, p.height), (400, 300), "sensor orientation");
}

#[test]
fn a_mirrored_frame_is_kept_degraded_and_counted() {
    let (sources, _) = burst();
    let probes = vec![probe(400, 300, 6, 500), probe(400, 300, 7, 500)];
    let p = plan(&sources[..2], &probes, ClashPolicy::Ask);
    assert_eq!(p.frames.len(), 2, "7 and 6 are the same rotation");
    assert_eq!(p.orientation, 6);
    assert_eq!(p.mirrored, 1);
    assert!(p.skipped.is_empty());
}

#[test]
fn fewer_than_two_frames_refuses_at_plan_time() {
    let (sources, _) = burst();
    let one = plan_with_free(
        &sources[..1],
        &vec![probe(400, 300, 1, 500)],
        FREE,
        ClashPolicy::Ask,
        None,
    );
    assert!(matches!(one, Err(ClipError::TooFewFrames { kept: 1, .. })));
    let mismatched = vec![probe(400, 300, 1, 500), probe(380, 285, 1, 500)];
    match plan_with_free(&sources[..2], &mismatched, FREE, ClashPolicy::Ask, None) {
        Err(e) => {
            assert_eq!(e.text(), "a video needs at least 2 frames; 1 would be left");
            match e {
                ClipError::TooFewFrames { kept: 1, skipped } => assert_eq!(
                    skipped_text(&skipped),
                    "skipped — 1 frame: different size (380×285)"
                ),
                other => panic!("expected a refusal naming the reason, got {other:?}"),
            }
        }
        Ok(_) => panic!("one frame is no video"),
    }
    assert_eq!(planned_name(&sources[..2], &mismatched), None);
}

#[test]
fn a_destination_that_is_not_a_folder_refuses_at_plan_time() {
    let (sources, probes) = burst();
    let blocked = Destination {
        blocked: true,
        taken: 0,
    };
    let r = plan_with_free(&sources, &probes, blocked, ClashPolicy::Ask, None);
    match r {
        Err(e) => assert_eq!(e.text(), "the destination is not a folder"),
        Ok(_) => panic!("not a folder"),
    }
}

#[test]
fn a_taken_name_raises_the_question_and_each_answer_lands_somewhere_else() {
    let (sources, probes) = burst();
    let with = |taken: usize, policy: ClashPolicy| {
        let dest = Destination {
            blocked: false,
            taken,
        };
        plan_with_free(&sources, &probes, dest, policy, None).unwrap()
    };
    let free = with(0, ClashPolicy::Ask);
    assert_eq!(free.action, ClipAction::Write);
    assert!(free.keep_both_example.is_none());

    let asked = with(1, ClashPolicy::Ask);
    assert_eq!(asked.action, ClipAction::Clash);
    assert_eq!(asked.keep_both_example.as_deref(), Some("a-c_1.mov"));
    assert_eq!(asked.dst, "a-c.mov");

    let kept = with(1, ClashPolicy::CreateCopies);
    assert_eq!(kept.action, ClipAction::WriteRenamed);
    assert_eq!(kept.dst, "a-c_1.mov");

    let over = with(1, ClashPolicy::Overwrite);
    assert_eq!(over.action, ClipAction::Replace);
    assert_eq!(over.dst, "a-c.mov");

    let again = with(2, ClashPolicy::Ask);
    assert_eq!(again.keep_both_example.as_deref(), Some("a-c_2.mov"));
    assert_eq!(candidate_name("a-c.mov", 0), "a-c.mov");
    assert_eq!(candidate_name("a-c.mov", 2), "a-c_2.mov");
}

#[test]
fn an_impossible_name_refuses_before_anything_is_written() {
    let long = "L".repeat(130);
    let sources = vec![
        source(0, &format!("{long}a.ARW"), Some(0), true),
        source(1, &format!("{long}b.ARW"), Some(33), true),
    ];
    let probes = vec![probe(400, 300, 1, 500), probe(400, 300, 1, 500)];
    match plan_with_free(&sources, &probes, FREE, ClashPolicy::Ask, None) {
        Err(ClipError::NameTooLong { len, name }) => {
            assert!(len > MAX_NAME_BYTES);
            assert_eq!(len, 131 + 1 + 131 + 4);
            assert_eq!(
                ClipError::NameTooLong { len, name: name.clone() }.text(),
                format!("the file name would be {len} bytes long, which no filesystem accepts: {name}")
            );
        }
        other => panic!("expected a refusal, got {other:?}"),
    }
}

#[test]
fn a_destination_that_cannot_hold_the_file_refuses_at_plan_time() {
    let (sources, probes) = burst();
    let with = |free| plan_with_free(&sources, &probes, FREE, ClashPolicy::Ask, free);
    let sized = with(Some(u64::MAX)).unwrap();
    let need = sized.total_bytes;
    assert!(need > 1000, "samples plus header");
    assert!(with(Some(need)).is_ok());
    for free in [need - 1, sized.sample_bytes] {
        match with(Some(free)) {
            Err(ClipError::InsufficientSpace { needed, free: f }) => {
                assert_eq!((needed, f), (need, free));
                assert_eq!(
                    ClipError::InsufficientSpace { needed, free: f }.text(),
                    format!("not enough free space: need {need} bytes, {free} available")
                );
            }
            other => panic!("expected an insufficient-space refusal, got {other:?}"),
        }
    }
    assert_eq!(with(None).unwrap().free_bytes, None);
}

#[test]
fn two_interleaved_bodies_merge_in_capture_order_and_clamp() {
    let mut sources = Vec::new();
    let mut probes = Vec::new();
    for i in 0..6usize {
        let t = i as i64 * 100;
        sources.push(source(i * 2, &format!("A{i:02}.ARW"), Some(t), true));
        sources.push(source(i * 2 + 1, &format!("B{i:02}.ARW"), Some(t + 3), true));
        probes.push(probe(400, 300, 1, 500));
        probes.push(probe(400, 300, 1, 500));
    }
    let p = plan(&sources, &probes, ClashPolicy::Ask);
    assert_eq!(&names(&p)[..4], ["A00.ARW", "B00.ARW", "A01.ARW", "B01.ARW"]);
    assert!(matches!(p.cadence.source, CadenceSource::Clamped { .. }));
    assert_eq!(p.cadence.sample_ms, MIN_SAMPLE_MS);
    assert!(p.cadence.text().contains("clamped"), "{}", p.cadence.text());
}

/// The sample bytes of a plan's frames: each its own value.
fn samples(plan: &ClipPlan) -> Vec<Vec<u8>> {
    plan.frames
        .iter()
        .enumerate()
        .map(|(i, f)| vec![i as u8 + 1; f.len as usize])
        .collect()
}

/// Write a plan into memory, step by step, and read it back. `tamper` may
/// change what is on the disk before the verify pass; `cancel_at` asks to
/// stop from that frame on.
fn run_tampered(
    plan: &ClipPlan,
    tamper: impl Fn(&mut Vec<u8>),
    cancel_at: Option<usize>,
) -> (ClipReport, Vec<String>, Option<Vec<u8>>) {
    let mut events = Vec::new();
    if refusal(plan).is_some() {
        return (run_plan_with(plan, Ok(Written::Cancelled)), events, None);
    }
    let payload = samples(plan);
    let mut file = Vec::new();
    qt::write_header(&mut file, &track_spec(plan));
    let mut sums = Vec::new();
    let mut movie = None;
    let mut stage = WriteStage::Copied(0);
    loop {
        let cancelled = match (cancel_at, stage) {
            (Some(n), WriteStage::Copied(i)) => i >= n,
            _ => false,
        };
        let step = write_step(plan, stage, cancelled);
        match step {
            WriteStep::Copy(i) => {
                let total = plan.frames.len();
                events.push(format!("{}/{total} {}", i + 1, plan.frames[i].name));
                file.extend_from_slice(&payload[i]);
                sums.push(digest::digest_of(&payload[i]));
            }
            WriteStep::Sync => tamper(&mut file),
            WriteStep::Verify => {
                events.push("verifying".to_string());
                match read_index(plan, &file) {
                    Ok(m) => movie = Some(m),
                    Err(e) => return (run_plan_with(plan, Err(e)), events, None),
                }
            }
            WriteStep::Check(i) => {
                if let Err(e) = check_sample(plan, &file, movie.as_ref().unwrap(), i, &sums[i]) {
                    return (run_plan_with(plan, Err(e)), events, None);
                }
            }
            WriteStep::Commit(_) => {}
            WriteStep::Done => break,
            WriteStep::Abandon => {
                return (run_plan_with(plan, Ok(Written::Cancelled)), events, None);
            }
        }
        stage = write_stage(plan, stage, step);
    }
    let bytes = file.len() as u64;
    let report = run_plan_with(plan, Ok(Written::Committed { bytes }));
    (report, events, Some(file))
}

fn read_index(plan: &ClipPlan, file: &[u8]) -> Result<qt::Movie, String> {
    let movie = qt::read_movie(file).map_err(|e| did_not_parse(&e))?;
    check_index(&movie, plan)?;
    Ok(movie)
}

fn check_sample(
    plan: &ClipPlan,
    file: &[u8],
    movie: &qt::Movie,
    i: usize,
    sum: &digest::Digest,
) -> Result<(), String> {
    check_place(movie, plan, i)?;
    let at = movie.samples[i].offset as usize;
    let found = digest::digest_of(&file[at..at + movie.samples[i].size as usize]);
    check_bytes(plan, i, &found, sum)
}

#[test]
fn an_export_lands_one_file_that_reads_back_as_planned() {
    let (sources, probes) = burst();
    let plan = plan(&sources, &probes, ClashPolicy::Ask);
    let (report, events, file) = run_tampered(&plan, |_| {}, None);
    assert_eq!(report.failed, None, "{report:?}");
    assert_eq!(report.frames, 3);
    assert!(report.all_verified && report.earned_the_green_light());
    assert_eq!(report.path.as_deref(), Some("a-c.mov"));
    assert_eq!(report.name, "a-c.mov");
    assert_eq!(report.duration_ms, 99);
    assert_eq!(report.cadence.map(|c| c.sample_ms), Some(33));
    assert!(!report.replaced && !report.cancelled);
    assert_eq!(events, ["1/3 a.ARW", "2/3 b.ARW", "3/3 c.ARW", "verifying"]);
    let bytes = file.unwrap();
    let movie = qt::read_movie(&bytes).unwrap();
    assert_eq!(movie.samples.len(), 3);
    assert!(movie.co64 && movie.moov_before_mdat);
    assert_eq!(&movie.format, b"jpeg");
    assert_eq!(movie.sample_ms, 33);
    assert_eq!((movie.width, movie.height), (400, 300));
    assert_eq!(bytes.len() as u64, plan.total_bytes, "the quoted size");
    for (i, (sample, want)) in movie.samples.iter().zip(samples(&plan)).enumerate() {
        let at = sample.offset as usize;
        assert_eq!(&bytes[at..at + sample.size as usize], &want[..], "sample {i}");
    }
}

#[test]
fn a_byte_that_changed_on_the_way_to_disk_is_caught() {
    let (sources, probes) = burst();
    let plan = plan(&sources, &probes, ClashPolicy::Ask);
    let flip = |bytes: &mut Vec<u8>| {
        let at = bytes.len() - 700;
        bytes[at] ^= 0xFF;
    };
    let (report, _, file) = run_tampered(&plan, flip, None);
    let reason = report.failed.clone().expect("the tamper must be caught");
    assert!(
        reason.contains("does not match the bytes read from"),
        "the failure must name what went wrong: {reason}"
    );
    assert!(!report.all_verified && !report.earned_the_green_light());
    assert_eq!(report.frames, 0);
    assert_eq!(report.path, None);
    assert!(file.is_none());
}

#[test]
fn a_moov_that_stopped_describing_the_samples_is_caught() {
    let (sources, probes) = burst();
    let plan = plan(&sources, &probes, ClashPolicy::Ask);
    let shorten = |bytes: &mut Vec<u8>| {
        let at = bytes.windows(4).position(|w| w == b"stsz").unwrap();
        let size_at = at + 4 + 8 + 4;
        let claimed = u32::from_be_bytes(bytes[size_at..size_at + 4].try_into().unwrap());
        bytes[size_at..size_at + 4].copy_from_slice(&(claimed - 1).to_be_bytes());
    };
    let (report, _, _) = run_tampered(&plan, shorten, None);
    assert!(report.failed.is_some(), "a lying index must be caught");
    assert!(!report.earned_the_green_light());
}

#[test]
fn a_file_that_is_no_movie_is_caught() {
    let (sources, probes) = burst();
    let plan = plan(&sources, &probes, ClashPolicy::Ask);
    let (report, _, _) = run_tampered(&plan, |bytes: &mut Vec<u8>| bytes.truncate(30), None);
    assert!(report.failed.is_some());
}

#[test]
fn a_cancelled_export_leaves_nothing_behind() {
    let (sources, probes) = burst();
    let plan = plan(&sources, &probes, ClashPolicy::Ask);
    let (report, events, file) = run_tampered(&plan, |_| {}, Some(0));
    assert!(report.cancelled && report.failed.is_none());
    assert_eq!(report.path, None);
    assert!(!report.earned_the_green_light());
    assert!(events.is_empty() && file.is_none());
    // Past the last frame the file is complete, and only the commit is left out.
    let (report, events, _) = run_tampered(&plan, |_| {}, Some(2));
    assert!(report.cancelled);
    assert_eq!(events, ["1/3 a.ARW", "2/3 b.ARW"]);
}

#[test]
fn an_unanswered_clash_question_writes_nothing() {
    let (sources, probes) = burst();
    let dest = Destination {
        blocked: false,
        taken: 1,
    };
    let plan = plan_with_free(&sources, &probes, dest, ClashPolicy::Ask, None).unwrap();
    assert_eq!(plan.action, ClipAction::Clash);
    let (report, events, _) = run_tampered(&plan, |_| {}, None);
    assert_eq!(
        report.failed.as_deref(),
        Some("unanswered clash question: this plan was built before the answer and must not run")
    );
    assert!(!report.earned_the_green_light());
    assert!(events.is_empty(), "not one frame may be read: {events:?}");
}

#[test]
fn only_the_overwrite_answer_replaces() {
    let (sources, probes) = burst();
    let dest = Destination {
        blocked: false,
        taken: 1,
    };
    for (policy, commit) in [
        (ClashPolicy::CreateCopies, Commit::NoClobber),
        (ClashPolicy::Overwrite, Commit::Replace),
    ] {
        let plan = plan_with_free(&sources, &probes, dest, policy, None).unwrap();
        assert_eq!(
            write_step(&plan, WriteStage::Checked(plan.frames.len()), false),
            WriteStep::Commit(commit)
        );
        let (report, _, _) = run_tampered(&plan, |_| {}, None);
        assert!(report.earned_the_green_light());
        assert_eq!(report.replaced, policy == ClashPolicy::Overwrite);
    }
}

#[test]
fn the_report_carries_the_plans_skips_and_cadence() {
    let sources = vec![
        source(0, "a.ARW", None, false),
        source(1, "b.ARW", None, false),
        source(2, "c.ARW", None, false),
    ];
    let probes = vec![
        probe(400, 300, 1, 500),
        probe(380, 285, 1, 500),
        probe(400, 300, 2, 500),
    ];
    let plan = plan(&sources, &probes, ClashPolicy::Ask);
    assert_eq!(plan.cadence.source, CadenceSource::NoTiming);
    let (report, _, _) = run_tampered(&plan, |_| {}, None);
    assert!(report.earned_the_green_light());
    assert_eq!(report.frames, 2);
    assert_eq!(report.mirrored, 1, "c.ARW was orientation 2");
    assert_eq!(report.skipped.len(), 1);
    assert_eq!(
        skipped_text(&report.skipped),
        "skipped — 1 frame: different size (380×285)"
    );
    assert!(
        report
            .cadence
            .map(|c| c.text())
            .is_some_and(|t| t.contains("assumed 15 fps")),
        "the report must repeat the plan's own words about the cadence"
    );
}

#[test]
fn names_with_spaces_and_unicode_survive_into_the_file_name() {
    assert_eq!(clip_name("são joão 1.ARW", "são joão 2.ARW"), "são joão 1-são joão 2.mov");
}

#[test]
fn rates_and_gaps_are_written_to_a_tenth() {
    assert_eq!(fps_text(33), "30.3");
    assert_eq!(fps_text(100), "10");
    assert_eq!(fps_text(9), "111.1");
    assert_eq!(gap_text(3), "3 ms");
    assert_eq!(gap_text(4000), "4.0 s");
    assert_eq!(file_bytes(1650, 3), 1650 + qt::header_len(3, 1650));
}

#[test]
fn a_cancel_between_the_checks_abandons_the_file() {
    let (sources, probes) = burst();
    let plan = plan(&sources, &probes, ClashPolicy::Ask);
    assert_eq!(
        write_step(&plan, WriteStage::Checked(1), false),
        WriteStep::Check(1)
    );
    assert_eq!(
        write_step(&plan, WriteStage::Checked(1), true),
        WriteStep::Abandon
    );
    assert_eq!(
        write_step(&plan, WriteStage::Checked(plan.frames.len()), true),
        WriteStep::Abandon
    );
    let report = run_plan_with(&plan, Ok(Written::Cancelled));
    assert!(!report.earned_the_green_light());
    assert_eq!((report.path, report.frames), (None, 0));
}

#[test]
fn a_corrupt_orientation_is_no_mirror() {
    let sources: Vec<ClipSource> = ["a.ARW", "b.ARW", "c.ARW", "d.ARW", "e.ARW"]
        .iter()
        .enumerate()
        .map(|(i, name)| source(i, name, Some(i as i64 * 33), true))
        .collect();
    let tags = [1, 0, 9, 99, 2];
    let probes: Vec<Option<Probe>> = tags.iter().map(|&o| probe(400, 300, o, 500)).collect();
    let p = plan(&sources, &probes, ClashPolicy::Ask);
    assert_eq!(p.frames.len(), 5, "each of them shows as stored");
    assert_eq!(p.mirrored, 1, "orientation 2 alone is mirrored");
}

#[test]
fn a_preview_that_cannot_be_sized_is_no_frame() {
    let sources: Vec<ClipSource> = ["a.ARW", "b.ARW", "c.ARW", "d.ARW", "e.ARW"]
        .iter()
        .enumerate()
        .map(|(i, name)| source(i, name, Some(i as i64 * 33), true))
        .collect();
    let probes = vec![
        probe(0, 300, 1, 500),
        probe(400, 300, 1, 500),
        probe(400, 0, 1, 500),
        probe(400, 300, 1, 0),
        probe(400, 300, 1, 500),
    ];
    let p = plan(&sources, &probes, ClashPolicy::Ask);
    assert_eq!(names(&p), ["b.ARW", "e.ARW"]);
    assert_eq!((p.width, p.height), (400, 300));
    assert_eq!(p.skipped.len(), 3);
    assert!(p.skipped.iter().all(|s| s.reason == SkipReason::NoPreview));
}

#[test]
fn numbers_that_do_not_fit_are_told_beforehand() {
    let mut sources = vec![
        source(0, "a.ARW", Some(0), true),
        source(1, "b.ARW", Some(33), true),
    ];
    let mut probes = vec![probe(400, 300, 1, 500), probe(400, 300, 1, 500)];
    assert!(numbers_fit(&sources, &probes));
    probes[1] = probe(400, 300, 1, u64::MAX - 1000);
    assert!(!numbers_fit(&sources, &probes), "the header does not fit");
    probes[1] = probe(800, 300, 1, u64::MAX);
    assert!(numbers_fit(&sources, &probes), "a skipped frame has no weight");
    probes[1] = probe(400, 300, 1, 500);
    sources[0].time_ms = Some(i64::MIN);
    sources[1].time_ms = Some(i64::MAX);
    assert!(!numbers_fit(&sources, &probes), "the gap does not fit");
    sources[1].has_subsec = false;
    assert!(numbers_fit(&sources, &probes), "no gap is measured");
}

#[test]
fn the_quoted_size_is_where_the_last_sample_ends() {
    let (sources, probes) = burst();
    let plan = plan(&sources, &probes, ClashPolicy::Ask);
    let spec = track_spec(&plan);
    let offsets = qt::sample_offsets(&spec);
    let mut header = Vec::new();
    qt::write_header(&mut header, &spec);
    let quoted = file_bytes(spec.sample_bytes(), spec.sample_sizes.len());
    assert_eq!(quoted, offsets.last().unwrap() + spec.sample_sizes.last().unwrap());
    assert_eq!(quoted, header.len() as u64 + spec.sample_bytes());
}
