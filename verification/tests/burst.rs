use fastcull_core::burst::{group, next_boundary, parse_sort_key_ms, BurstConfig, FrameMeta};
use fastcull_core::exif::ExifSummary;
use fastcull_core::iptc::mtime_date_time;

fn sony(t: i64, seq: u32) -> FrameMeta {
    FrameMeta {
        time_ms: Some(t),
        has_subsec: true,
        camera: Some("A1#123".into()),
        seq: Some(seq),
    }
}

fn generic(t: i64, subsec: bool, cam: &str) -> FrameMeta {
    FrameMeta {
        time_ms: Some(t),
        has_subsec: subsec,
        camera: Some(cam.into()),
        seq: None,
    }
}

#[test]
fn sort_key_ms_differences_are_exact() {
    let a = parse_sort_key_ms("2021:04:05 17:41:23.570").unwrap();
    let b = parse_sort_key_ms("2021:04:05 17:41:23.620").unwrap();
    assert_eq!(b - a, 50);
    let x = parse_sort_key_ms("2021:04:30 23:59:59.900").unwrap();
    let y = parse_sort_key_ms("2021:05:01 00:00:00.100").unwrap();
    assert_eq!(y - x, 200);
    assert!(parse_sort_key_ms("garbage").is_none());
}

#[test]
fn singles_never_group_and_a1_burst_is_one_group() {
    let mut frames = vec![sony(0, 0)];
    for i in 0..20 {
        frames.push(sony(10_000 + i * 50, (i + 1) as u32));
    }
    frames.push(sony(60_000, 0));
    let g = group(&frames, &BurstConfig::default());
    assert_eq!(g.group[0], None);
    assert_eq!(g.group[21], None);
    assert!(g.group[1..21].iter().all(|x| *x == Some(0)));
    assert_eq!(g.size, vec![20]);
    assert!(g.is_group_start(1));
    assert!(!g.is_group_start(2));
    assert_eq!(g.position_in_group(7), Some((7, 20)));
}

#[test]
fn pause_splits_and_seq_reset_splits() {
    let frames = vec![sony(0, 1), sony(50, 2), sony(750, 3), sony(800, 4)];
    let g = group(&frames, &BurstConfig::default());
    assert_eq!(g.size, vec![2, 2]);
    assert_ne!(g.group[1], g.group[2]);
    let mut frames = Vec::new();
    for i in 0..8 {
        frames.push(sony(i * 50, (i + 1) as u32));
    }
    for i in 0..5 {
        frames.push(sony(700 + i * 50, (i + 1) as u32));
    }
    let g = group(&frames, &BurstConfig::default());
    assert_eq!(g.size, vec![8, 5], "reset must split: {:?}", g.group);
}

#[test]
fn generic_path_min_run_and_mixed_bodies() {
    let two = vec![generic(0, true, "X"), generic(100, true, "X")];
    assert_eq!(
        group(&two, &BurstConfig::default()).size,
        Vec::<usize>::new()
    );
    let three = vec![
        generic(0, true, "X"),
        generic(100, true, "X"),
        generic(200, true, "X"),
    ];
    assert_eq!(group(&three, &BurstConfig::default()).size, vec![3]);
    let mixed = vec![
        generic(0, true, "X"),
        generic(50, true, "Y"),
        generic(100, true, "X"),
        generic(150, true, "Y"),
    ];
    assert_eq!(
        group(&mixed, &BurstConfig::default()).size,
        Vec::<usize>::new()
    );
}

#[test]
fn no_subsec_whole_second_steps_stay_one_group() {
    let frames = vec![
        generic(1000, false, "X"),
        generic(1000, false, "X"),
        generic(2000, false, "X"),
        generic(3000, false, "X"),
        generic(5000, false, "X"),
        generic(6000, false, "X"),
        generic(7000, false, "X"),
    ];
    let g = group(&frames, &BurstConfig::default());
    assert_eq!(g.size, vec![4, 3], "2 s step splits: {:?}", g.group);
}

#[test]
fn boundary_navigation_over_groups_and_singles() {
    let gmap = [Some(0), Some(0), Some(0), None, Some(1), Some(1), None];
    let gof = |i: usize| gmap[i];
    assert_eq!(next_boundary(1, 7, gof, true), 3);
    assert_eq!(next_boundary(3, 7, gof, true), 4);
    assert_eq!(next_boundary(4, 7, gof, true), 6);
    assert_eq!(next_boundary(6, 7, gof, true), 6);
    assert_eq!(next_boundary(5, 7, gof, false), 4);
    assert_eq!(next_boundary(4, 7, gof, false), 3);
    assert_eq!(next_boundary(3, 7, gof, false), 0);
    assert_eq!(next_boundary(2, 7, gof, false), 0);
    assert_eq!(next_boundary(0, 7, gof, false), 0);
    assert_eq!(next_boundary(0, 0, gof, true), 0);
}

#[test]
fn interleaved_bodies_group_independently() {
    let frames: Vec<FrameMeta> = (0..6)
        .map(|i| generic(i * 25, true, if i % 2 == 0 { "X" } else { "Y" }))
        .collect();
    let g = group(&frames, &BurstConfig::default());
    assert_eq!(g.size, vec![3, 3], "each body forms its own group");
    assert_eq!(
        g.group,
        vec![Some(0), Some(1), Some(0), Some(1), Some(0), Some(1)]
    );
    assert!(g.is_group_start(0) && g.is_group_start(1));
    assert!(!g.is_group_start(2) && !g.is_group_start(3));
    assert_eq!(g.position_in_group(4), Some((3, 3)));
    assert_eq!(g.positions()[3], Some((2, 3)));

    let two = |t: i64, cam: &str, seq: u32| FrameMeta {
        time_ms: Some(t),
        has_subsec: true,
        camera: Some(cam.into()),
        seq: Some(seq),
    };
    let frames = vec![
        two(0, "A", 1),
        two(10, "B", 1),
        two(50, "A", 2),
        two(60, "B", 2),
        two(100, "A", 3),
        two(110, "B", 3),
    ];
    let g = group(&frames, &BurstConfig::default());
    assert_eq!(g.size, vec![3, 3], "sequence numbers per body");
}

#[test]
fn boundary_navigation_with_interleaved_groups() {
    let gmap = [Some(0), Some(1), Some(0), Some(1), Some(0), Some(1)];
    let gof = |i: usize| gmap[i];
    assert_eq!(next_boundary(4, 6, gof, false), 0);
    assert_eq!(next_boundary(3, 6, gof, false), 1);
    assert_eq!(next_boundary(1, 6, gof, false), 0);
}

#[test]
fn sparse_singles_produce_zero_groups() {
    let frames = vec![sony(0, 0), sony(27_000, 0), sony(42_000, 0)];
    assert_eq!(
        group(&frames, &BurstConfig::default()).size,
        Vec::<usize>::new()
    );
}

#[test]
fn sequential_two_bodies_form_two_groups() {
    let frames = vec![
        generic(0, true, "X"),
        generic(50, true, "X"),
        generic(100, true, "X"),
        generic(150, true, "Y"),
        generic(200, true, "Y"),
        generic(250, true, "Y"),
    ];
    let g = group(&frames, &BurstConfig::default());
    assert_eq!(g.size, vec![3, 3]);
    assert_eq!(
        g.group,
        vec![Some(0), Some(0), Some(0), Some(1), Some(1), Some(1)]
    );
}

#[test]
fn no_timestamp_frames_split_their_own_body() {
    let no_time = FrameMeta {
        time_ms: None,
        has_subsec: false,
        camera: Some("X".into()),
        seq: None,
    };
    let frames = vec![
        generic(0, true, "X"),
        generic(50, true, "X"),
        no_time.clone(),
        generic(100, true, "X"),
        generic(150, true, "X"),
    ];
    let g = group(&frames, &BurstConfig::default());
    assert_eq!(g.size, Vec::<usize>::new(), "{:?}", g.group);
    assert!(g.group.iter().all(|x| x.is_none()));
    let frames = vec![no_time.clone(), no_time.clone(), no_time];
    assert_eq!(
        group(&frames, &BurstConfig::default()).size,
        Vec::<usize>::new()
    );
}

#[test]
fn identityless_frame_mid_burst_bridges() {
    let no_cam = FrameMeta {
        time_ms: Some(75),
        has_subsec: true,
        camera: None,
        seq: None,
    };
    let frames = vec![
        generic(0, true, "X"),
        generic(50, true, "X"),
        no_cam,
        generic(100, true, "X"),
    ];
    let g = group(&frames, &BurstConfig::default());
    assert_eq!(g.size, vec![3], "X bridges over the no-EXIF frame");
    assert_eq!(g.group, vec![Some(0), Some(0), None, Some(0)]);
}

#[test]
fn sony_body_interleaved_with_generic_body() {
    let a1 = |t: i64, seq: u32| FrameMeta {
        time_ms: Some(t),
        has_subsec: true,
        camera: Some("A1#1".into()),
        seq: Some(seq),
    };
    let frames = vec![
        a1(0, 1),
        generic(25, true, "Z9"),
        a1(50, 2),
        generic(75, true, "Z9"),
        a1(100, 3),
        generic(125, true, "Z9"),
        a1(150, 4),
        generic(175, true, "Z9"),
    ];
    let g = group(&frames, &BurstConfig::default());
    assert_eq!(g.size, vec![4, 4], "{:?}", g.group);
    assert_eq!(g.group[0], g.group[2]);
    assert_eq!(g.group[1], g.group[3]);
    assert_ne!(g.group[0], g.group[1]);
}

#[test]
fn duplicate_seq_numbers_never_group() {
    let frames = vec![sony(0, 1), sony(50, 1), sony(100, 1)];
    assert_eq!(
        group(&frames, &BurstConfig::default()).size,
        Vec::<usize>::new()
    );
}

#[test]
fn seq_gaps_group_and_degenerate_inputs_are_inert() {
    let frames = vec![sony(0, 1), sony(50, 2), sony(100, 4)];
    assert_eq!(group(&frames, &BurstConfig::default()).size, vec![3]);
    assert_eq!(
        group(&[], &BurstConfig::default()).size,
        Vec::<usize>::new()
    );
    let one = vec![sony(0, 5)];
    assert_eq!(
        group(&one, &BurstConfig::default()).size,
        Vec::<usize>::new()
    );
}

#[test]
fn many_interleaved_bodies_stress() {
    let mut frames = Vec::new();
    for i in 0..80i64 {
        let body = format!("B{}", i % 4);
        frames.push(generic(i * 5, true, &body));
    }
    let g = group(&frames, &BurstConfig::default());
    assert_eq!(g.size, vec![20; 4]);
    let pos = g.positions();
    assert_eq!(pos[0], Some((1, 20)));
    assert_eq!(pos[79], Some((20, 20)));
    assert!(g.is_group_start(0) && g.is_group_start(3));
    assert!(!g.is_group_start(4));
}

#[test]
fn a_frame_is_read_from_its_summary() {
    let summary = ExifSummary {
        camera_make: Some("Sony".into()),
        camera_model: Some("ILCE-1".into()),
        serial_number: Some("123".into()),
        capture_time: Some("1970:01:01 00:00:01".into()),
        subsec: Some("57".into()),
        sequence_number: Some(4),
    };
    let frame = FrameMeta::from_summary(&summary);
    assert_eq!(frame.time_ms, Some(1570));
    assert!(frame.has_subsec);
    assert_eq!(frame.seq, Some(4));
    assert!(frame.camera.is_some());
    let nothing = FrameMeta::from_summary(&ExifSummary::default());
    assert_eq!((nothing.time_ms, nothing.seq), (None, None));
}

#[test]
fn places_in_a_group_are_counted_from_one() {
    let mut frames = vec![sony(0, 0)];
    for i in 0..3 {
        frames.push(sony(10_000 + i * 50, (i + 1) as u32));
    }
    let g = group(&frames, &BurstConfig::default());
    assert!(g.is_group_start(1) && !g.is_group_start(0) && !g.is_group_start(2));
    assert_eq!(g.position_in_group(2), Some((2, 3)));
    assert_eq!(g.position_in_group(0), None);
}

#[test]
fn a_frame_that_cannot_join_is_in_no_group_at_all() {
    let cfg = BurstConfig {
        max_gap_ms: 600,
        min_run: 1,
    };
    let g = group(&[FrameMeta::default()], &cfg);
    assert_eq!(g.group, vec![None]);
    assert!(g.size.is_empty());
    // Declared singles neither; a frame with a time is a run of one.
    let g = group(&[sony(0, 0), generic(5_000, true, "B"), sony(9_000, 0)], &cfg);
    assert_eq!(g.group, vec![None, Some(0), None]);
    assert_eq!(g.size, vec![1]);
}

#[test]
fn one_bodys_frames_group_as_they_do_alone() {
    let mut frames = Vec::new();
    for i in 0..12 {
        frames.push(generic(i * 400, true, "A"));
        if i % 3 == 0 {
            frames.push(generic(i * 400 + 50, true, "B"));
        }
        if i == 6 {
            frames.push(FrameMeta::default());
        }
    }
    let cfg = BurstConfig::default();
    let all = group(&frames, &cfg);
    for body in [Some("A"), Some("B"), None] {
        let idx: Vec<usize> = (0..frames.len())
            .filter(|&i| frames[i].camera.as_deref() == body)
            .collect();
        let sub: Vec<FrameMeta> = idx.iter().map(|&i| frames[i].clone()).collect();
        let alone = group(&sub, &cfg);
        for a in 0..idx.len() {
            assert_eq!(alone.group[a].is_none(), all.group[idx[a]].is_none());
            for b in 0..idx.len() {
                assert_eq!(
                    alone.group[a] == alone.group[b],
                    all.group[idx[a]] == all.group[idx[b]]
                );
            }
            assert_eq!(
                alone.group[a].map(|g| alone.size[g]),
                all.group[idx[a]].map(|g| all.size[g])
            );
        }
    }
}

#[test]
fn a_modification_time_reads_back_from_its_key() {
    for secs in [0, 59, 86_399, 951_782_400, 1_753_400_000, 4_107_542_399, 253_402_300_799] {
        let (d, h) = mtime_date_time(secs);
        let key = format!(
            "{}:{}:{} {}:{}:{}.000",
            &d[0..4],
            &d[5..7],
            &d[8..10],
            &h[0..2],
            &h[2..4],
            &h[4..6]
        );
        assert_eq!(parse_sort_key_ms(&key), Some(secs as i64 * 1000), "{key}");
    }
}
