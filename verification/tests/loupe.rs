use fastcull_core::loupe::{
    apply_view, decode_oriented, evict_to_budget, focus_plan, in_transit, is_top_rung, land,
    next_job, note_best, note_focus, orient_decoded, publish, revive_deferred, rungs_of, ring_ids, schedule, serves, transit_request, Climb, FullImage,
    Ladder, LadderError, LoupeState, Origin, Rung, Slot, FOCUS_DEBOUNCE, MID_RUNG_MAX_LONG, MID_RUNG_TARGET, PREFETCH,
    SETTLE_DEBOUNCE, TRANSIT_AHEAD, TRANSIT_BEHIND,
};
use std::sync::Arc;

/// A moment, in nanoseconds, that leaves room before it.
const START: u64 = 10_000_000_000;

/// The most pixels that a stream may claim here.
const MAX_PIXELS: u64 = 256_000_000;

const UPSCALE_THRESHOLD: f32 = 1.25;

fn ms(n: u64) -> u64 {
    n * 1_000_000
}

/// A gray JPEG stream of this size, in colour.
fn encoded(width: u16, height: u16) -> Vec<u8> {
    let pixels = vec![128u8; usize::from(width) * usize::from(height) * 3];
    let mut out = Vec::new();
    jpeg_encoder::Encoder::new(&mut out, 90)
        .encode(&pixels, width, height, jpeg_encoder::ColorType::Rgb)
        .unwrap();
    out
}

/// Where a marker's segment begins, past the two bytes of the marker.
fn segment(jpeg: &[u8], marker: u8) -> usize {
    let mut at = 2;
    loop {
        assert_eq!(jpeg[at], 0xff);
        if jpeg[at + 1] == marker {
            return at + 2;
        }
        at += 2 + usize::from(jpeg[at + 2]) * 256 + usize::from(jpeg[at + 3]);
    }
}

/// Let the frame header claim another size.
fn patch_sof_dims(jpeg: &mut [u8], width: u16, height: u16) {
    let at = segment(jpeg, 0xc0);
    jpeg[at + 3..at + 5].copy_from_slice(&height.to_be_bytes());
    jpeg[at + 5..at + 7].copy_from_slice(&width.to_be_bytes());
}

/// The headers, and so many bytes of the scan.
fn truncate_scan(jpeg: &[u8], keep: usize) -> Vec<u8> {
    let at = segment(jpeg, 0xda);
    let header = usize::from(jpeg[at]) * 256 + usize::from(jpeg[at + 1]);
    jpeg[..at + header + keep].to_vec()
}

/// The scan reaches an end-of-image marker.
fn terminated(jpeg: &[u8]) -> bool {
    jpeg.windows(2).any(|w| w == [0xff, 0xd9])
}

/// The decoder, asked for RGB, into a buffer of so many bytes.
fn fill(jpeg: &[u8], n: usize) -> Result<Vec<u8>, String> {
    let options = zune_jpeg::zune_core::options::DecoderOptions::default()
        .jpeg_set_out_colorspace(zune_jpeg::zune_core::colorspace::ColorSpace::RGB)
        .set_max_width(usize::MAX)
        .set_max_height(usize::MAX);
    let mut buffer = vec![0; n];
    zune_jpeg::JpegDecoder::new_with_options(jpeg, options)
        .decode_into(&mut buffer)
        .map_err(|e| e.to_string())?;
    Ok(buffer)
}

fn decode(jpeg: &[u8], orientation: u16) -> Result<(Vec<u8>, u32, u32), String> {
    decode_oriented(jpeg, orientation, MAX_PIXELS, terminated(jpeg), fill)
}

#[test]
fn schedule_polarity_and_deferred_merge() {
    let mut st = LoupeState::default();
    assert!(schedule(&mut st, 7, 1616, 1, Origin::Grid));
    assert!(schedule(&mut st, 3, 8640, 2, Origin::Focus));
    assert_eq!(st.queue, vec![(7, 1616, false), (3, 8640, true)]);

    assert!(!schedule(&mut st, 3, 1616, 3, Origin::Grid));
    assert_eq!(st.queue, vec![(7, 1616, false), (3, 8640, true)]);

    assert!(schedule(&mut st, 7, 8640, 4, Origin::Focus));
    assert_eq!(st.queue, vec![(3, 8640, true), (7, 8640, true)]);

    st.in_flight.push(5);
    assert!(!schedule(&mut st, 5, 8640, 5, Origin::Focus));
    assert!(!schedule(&mut st, 5, 1616, 6, Origin::Grid));
    assert_eq!(st.deferred.get(&5), Some(&8640));
    assert_eq!(st.queue.len(), 2, "an in-flight index is never queued");

    st.failed.insert(9);
    assert!(!schedule(&mut st, 9, 1616, 7, Origin::Focus));
    assert_eq!(st.queue.len(), 2);
}

#[test]
fn top_rung_boundary() {
    assert!(!is_top_rung(MID_RUNG_MAX_LONG, false));
    assert!(is_top_rung(MID_RUNG_MAX_LONG + 1, false));
    assert!(is_top_rung(640, true));
}

#[test]
fn transit_tracks_held_keys_and_decays_on_release() {
    let t0 = START;
    let mut st = LoupeState::default();

    note_focus(&mut st, 0, u32::MAX, t0);
    assert!(!in_transit(&st, t0), "the first focus is never transit");

    let mut t = t0;
    for i in 1..=5 {
        t += ms(120);
        note_focus(&mut st, i, u32::MAX, t);
        assert!(in_transit(&st, t), "a held key at 120 ms must be transit");
    }
    assert!(
        in_transit(&st, t + SETTLE_DEBOUNCE - ms(1)),
        "still transit just before the settle"
    );
    assert!(
        !in_transit(&st, t + SETTLE_DEBOUNCE),
        "settled once the debounce elapses"
    );
    assert!(
        in_transit(&st, t + ms(100)),
        "100 ms after the last key is still mid-hold at any normal repeat \
         rate; settling that eagerly would fire a sharp decode between \
         every two frames of a held arrow"
    );
    assert!(
        !in_transit(&st, t + ms(200)),
        "200 ms after release the user has stopped and is WAITING — the \
         settle is paid on every stop and is pure latency before the \
         sharp decode even starts"
    );

    let mut st = LoupeState::default();
    let mut t = t0;
    note_focus(&mut st, 0, u32::MAX, t);
    for i in 1..=4 {
        t += ms(400);
        note_focus(&mut st, i, u32::MAX, t);
        assert!(!in_transit(&st, t), "a 400 ms tap must not be transit");
    }
}

#[test]
fn a_settled_frame_climbs_even_though_transit_only_asked_for_the_mid() {
    let now = START;
    let mut state = stable_focus_state(4);
    state.desired_long = 8640;
    state.last_index_change = Some(now - SETTLE_DEBOUNCE);
    state.cache.insert(
        4,
        (
            FullImage {
                rgb: Arc::new(vec![0u8; 3]),
                width: MID_RUNG_TARGET,
                height: 1080,
            },
            0,
        ),
    );
    assert!(state.queue.is_empty(), "transit queued nothing sharp");
    assert_eq!(
        next_job(&mut state, true, now),
        Slot::Job(4, 8640),
        "a settled frame short of the app's target must climb"
    );

    let mut state = stable_focus_state(4);
    state.desired_long = 8640;
    state.last_index_change = Some(now);
    state.cache.insert(
        4,
        (
            FullImage {
                rgb: Arc::new(vec![0u8; 3]),
                width: MID_RUNG_TARGET,
                height: 1080,
            },
            0,
        ),
    );
    assert_eq!(
        next_job(&mut state, true, now),
        Slot::Wait,
        "no sharp decode while the user is still moving"
    );

    let mut state = stable_focus_state(4);
    state.desired_long = 8640;
    state.last_index_change = Some(now - SETTLE_DEBOUNCE);
    state.in_flight.push(4);
    assert_eq!(
        next_job(&mut state, true, now),
        Slot::Wait,
        "the settle must not duplicate a job already in flight"
    );
    assert!(
        state.queue.is_empty(),
        "and must not leave a duplicate queued either: {:?}",
        state.queue
    );

    let mut state = stable_focus_state(4);
    state.desired_long = 8640;
    state.last_index_change = Some(now - SETTLE_DEBOUNCE);
    state.cache.insert(
        4,
        (
            FullImage {
                rgb: Arc::new(vec![0u8; 3]),
                width: 8640,
                height: 5760,
            },
            0,
        ),
    );
    assert_eq!(
        next_job(&mut state, true, now),
        Slot::Wait,
        "a frame that already serves the target must not be re-queued"
    );
}

#[test]
fn the_settle_guarantee_does_not_disturb_the_lru_order() {
    let now = START;
    let mut state = stable_focus_state(4);
    state.desired_long = 8640;
    state.last_index_change = Some(now - SETTLE_DEBOUNCE);
    state.cache.insert(
        4,
        (
            FullImage {
                rgb: Arc::new(vec![0u8; 3]),
                width: 8640,
                height: 5760,
            },
            77,
        ),
    );
    assert_eq!(next_job(&mut state, true, now), Slot::Wait);
    assert_eq!(
        state.cache.get(&4).map(|(_, s)| *s),
        Some(77),
        "the settle poll must not restamp the frame it merely inspected"
    );
}

#[test]
fn transit_ring_leans_in_the_direction_of_travel() {
    let count = 1000;
    let (_, lo, hi) = focus_plan(true, true, 500, u32::MAX, count);
    assert_eq!(
        (hi - 500, 500 - lo),
        (TRANSIT_AHEAD, TRANSIT_BEHIND),
        "a forward ring must lean forward"
    );
    assert!(
        hi - 500 > 500 - lo,
        "a symmetric transit ring prefetches frames the user is moving \
         AWAY from: ahead {} vs behind {}",
        hi - 500,
        500 - lo
    );
    let (_, lo, hi) = focus_plan(true, false, 499, u32::MAX, count);
    assert_eq!(
        (499 - lo, hi - 499),
        (TRANSIT_AHEAD, TRANSIT_BEHIND),
        "arrowing back must re-lean backward immediately"
    );
    let (req, lo, hi) = focus_plan(false, true, 500, 8640, count);
    assert_eq!((500 - lo, hi - 500), (PREFETCH, PREFETCH));
    assert_eq!(req, 8640, "a settled frame must ask for full quality");
    assert!(
        focus_plan(true, true, 500, 8640, count).0 < req,
        "transit must ask for LESS than settled, or it is not transit"
    );
    let (_, lo, hi) = focus_plan(true, true, 0, u32::MAX, 3);
    assert_eq!((lo, hi), (0, 2), "ring clamps at the start of the folder");
    let (_, lo, hi) = focus_plan(true, true, 2, u32::MAX, 3);
    assert_eq!((lo, hi), (0, 2), "ring clamps at the end of the folder");
}

#[test]
fn transit_request_is_served_by_the_mid_rung() {
    let mid = FullImage {
        rgb: Arc::new(vec![0u8; 3]),
        width: 1616,
        height: 1080,
    };
    let request = transit_request(8640);
    assert!(
        serves(&mid, request),
        "the mid rung must satisfy the transit request, or transit still \
         climbs to full-res: mid 1616 covers {} px, asked for {request}",
        (1616.0 * UPSCALE_THRESHOLD) as u32
    );
    assert!(
        !serves(&mid, MID_RUNG_MAX_LONG),
        "MID_RUNG_MAX_LONG is NOT served by a 1616 mid"
    );
}

#[test]
fn the_prefetch_ring_walks_view_order_not_id_order() {
    let view = [0usize, 3, 6, 9, 1, 4, 7, 2, 5, 8];
    let mut state = LoupeState::default();
    apply_view(&mut state, &view, 10);
    let fpos = state.pos_of(9).expect("id 9 is in the view");
    assert_eq!(fpos, 3);
    let (_, lo, hi) = focus_plan(false, true, fpos, u32::MAX, state.ring_len(10));
    let ids = ring_ids(&state, fpos, lo, hi);
    let mut sorted = ids.clone();
    sorted.sort_unstable();
    assert_eq!(
        sorted,
        vec![1, 3, 4, 6],
        "the ring must hold the VIEW neighbors of id 9, not its id \
         neighbors: got {ids:?}"
    );
    assert_eq!(
        {
            let mut tail = ids[2..].to_vec();
            tail.sort_unstable();
            tail
        },
        vec![1, 6],
        "nearest view neighbors must be popped first: got {ids:?}"
    );
    let state = LoupeState::default();
    let mut ids = ring_ids(&state, 9, 7, 11);
    ids.sort_unstable();
    assert_eq!(ids, vec![7, 8, 10, 11], "no view = identity order");
}

#[test]
fn travel_direction_is_latched_in_view_positions() {
    let view = [0usize, 3, 6, 9, 1, 4, 7, 2, 5, 8];
    let t0 = START;
    let mut st = LoupeState::default();
    apply_view(&mut st, &view, 10);
    note_focus(&mut st, 9, u32::MAX, t0);
    note_focus(&mut st, 1, u32::MAX, t0 + ms(120));
    assert!(
        st.travel_forward,
        "pos 3 -> pos 4 is forward travel although the id fell 9 -> 1"
    );
    note_focus(&mut st, 6, u32::MAX, t0 + ms(240));
    assert!(
        !st.travel_forward,
        "pos 4 -> pos 2 is backward although the id rose 1 -> 6"
    );
}

#[test]
fn deferred_revival_ring_follows_view_order() {
    let view = [0usize, 3, 6, 9, 1, 4, 7, 2, 5, 8];
    let mut state = stable_focus_state(9);
    apply_view(&mut state, &view, 10);
    assert!(
        revive_deferred(&mut state, 1, u32::MAX, 1),
        "id 1 is the focused frame's direct VIEW neighbor (pos 4)"
    );
    state.queue.clear();
    assert!(
        !revive_deferred(&mut state, 8, u32::MAX, 1),
        "id 8 neighbors 9 in id space but sits at view pos 9 — a \
         stranger the ring must not revive"
    );
    assert!(state.queue.is_empty(), "nothing may be re-queued");
}

fn stable_focus_state(index: usize) -> LoupeState {
    LoupeState {
        focused: Some(index),
        focused_at: Some(START - FOCUS_DEBOUNCE * 2),
        focused_target: u32::MAX,
        ..Default::default()
    }
}

#[test]
fn stale_deferred_upgrade_is_dropped_not_revived() {
    let mut state = stable_focus_state(4);
    assert!(
        !revive_deferred(&mut state, 0, u32::MAX, 1),
        "index 0 is outside the ring of focus 4"
    );
    assert!(state.queue.is_empty(), "nothing may be re-queued");
    assert!(revive_deferred(&mut state, 4 - PREFETCH, u32::MAX, 1));
    assert!(!revive_deferred(&mut state, 4 - PREFETCH - 1, u32::MAX, 1));
    state.focused = None;
    assert!(!revive_deferred(&mut state, 0, u32::MAX, 2));
}

#[test]
fn focused_deferred_upgrade_revives_at_top_priority() {
    let mut state = stable_focus_state(4);
    state.queue.push((6, 1000, true));
    assert!(revive_deferred(&mut state, 4, u32::MAX, 1));
    assert_eq!(state.queue.last(), Some(&(4, u32::MAX, true)));
}

#[test]
fn ring_neighbor_deferred_upgrade_never_outranks_the_focused_frame() {
    let mut state = stable_focus_state(4);
    state.queue.push((4, u32::MAX, true));
    assert!(revive_deferred(&mut state, 5, u32::MAX, 1));
    assert_eq!(
        state.queue.last(),
        Some(&(4, u32::MAX, true)),
        "the focused frame stays first in line"
    );
    assert_eq!(state.queue.first(), Some(&(5, u32::MAX, true)));
}

#[test]
fn failed_or_sufficient_deferred_upgrades_stay_dead() {
    let mut state = stable_focus_state(4);
    state.failed.insert(4);
    assert!(!revive_deferred(&mut state, 4, u32::MAX, 1));
    let mut state = stable_focus_state(4);
    let img = FullImage {
        rgb: Arc::new(vec![0; 3]),
        width: 100,
        height: 100,
    };
    state.cache.insert(4, (img, 0));
    state.best_long.insert(4, 100);
    assert!(!revive_deferred(&mut state, 4, u32::MAX, 1));
}

#[test]
fn target_escalation_rearms_the_debounce() {
    let now = START;
    let mut state = stable_focus_state(0);
    state.focused_target = 1900;
    note_focus(&mut state, 0, u32::MAX, now);
    state.queue.push((0, u32::MAX, true));
    match next_job(&mut state, true, now) {
        Slot::WaitFor(_) => {}
        other => panic!("escalated climb taken without debounce: {other:?}"),
    }
    note_focus(
        &mut state,
        0,
        u32::MAX,
        now + ms(100),
    );
    assert_eq!(
        next_job(&mut state, true, now + FOCUS_DEBOUNCE),
        Slot::Job(0, u32::MAX)
    );
    let mut state = stable_focus_state(3);
    note_focus(&mut state, 3, 1000, now);
    state.queue.push((3, 1000, true));
    assert_eq!(next_job(&mut state, true, now), Slot::Job(3, 1000));
}

#[test]
fn reserved_worker_takes_only_the_stable_focused_job() {
    let now = START;
    let mut state = stable_focus_state(4);
    state.queue.push((2, u32::MAX, true));
    state.queue.push((4, u32::MAX, true));
    state.queue.push((5, u32::MAX, true));
    assert_eq!(next_job(&mut state, true, now), Slot::Job(4, u32::MAX));
    assert!(state.in_flight.contains(&4));
    assert_eq!(next_job(&mut state, true, now), Slot::Wait);
    assert_eq!(
        state.queue.len(),
        2,
        "backlog untouched by the reserved worker"
    );
    assert_eq!(next_job(&mut state, false, now), Slot::Job(5, u32::MAX));
}

#[test]
fn reserved_worker_debounces_a_fresh_focus() {
    let now = START;
    let mut state = stable_focus_state(2);
    state.focused_at = Some(now);
    state.queue.push((2, u32::MAX, true));
    match next_job(&mut state, true, now) {
        Slot::WaitFor(d) => assert!(d <= FOCUS_DEBOUNCE, "timed wait bounded"),
        other => panic!("fresh focus must not be taken: {other:?}"),
    }
    assert_eq!(state.queue.len(), 1, "entry left for the backlog workers");
    assert_eq!(
        next_job(&mut state, true, now + FOCUS_DEBOUNCE),
        Slot::Job(2, u32::MAX)
    );
}

#[test]
fn reserved_worker_waits_without_a_focus() {
    let now = START;
    let mut state = LoupeState::default();
    state.queue.push((0, u32::MAX, true));
    assert_eq!(next_job(&mut state, true, now), Slot::Wait);
    assert_eq!(state.queue.len(), 1);
}

#[test]
fn next_job_skips_entries_already_served() {
    let now = START;
    let mut state = stable_focus_state(0);
    let img = FullImage {
        rgb: Arc::new(vec![0; 3]),
        width: 100,
        height: 100,
    };
    state.cache.insert(0, (img, 0));
    state.best_long.insert(0, 100);
    state.queue.push((0, u32::MAX, true));
    assert_eq!(
        next_job(&mut state, false, now),
        Slot::Wait,
        "served entry consumed, no job"
    );
    assert!(state.queue.is_empty());
    assert!(state.in_flight.is_empty());
}

#[test]
fn decode_oriented_rejects_implausible_header_dimensions() {
    let mut jpeg = encoded(64, 64);
    patch_sof_dims(&mut jpeg, 30000, 30000);
    let hostile = truncate_scan(&jpeg, 16);
    assert!(hostile.len() < 1024, "the attack fits in under a KB");
    for orientation in [1u16, 6] {
        let err = decode(&hostile, orientation)
            .expect_err("a 900 MP header claim must never allocate");
        assert!(
            err.contains("implausible"),
            "the reason must name the cause: {err}"
        );
    }
    let mut with_eoi = encoded(64, 64);
    patch_sof_dims(&mut with_eoi, 30000, 30000);
    assert!(decode(&with_eoi, 1)
        .expect_err("hostile dims with a valid EOI")
        .contains("implausible"));
}

#[test]
fn decode_oriented_rejects_a_truncated_scan() {
    let intact = encoded(64, 64);
    let truncated = truncate_scan(&intact, 16);
    let err = decode(&truncated, 1).expect_err("truncated scan must fail");
    assert!(err.contains("truncated"), "reason names the cause: {err}");
}

#[test]
fn decode_oriented_still_accepts_intact_streams() {
    let jpeg = encoded(64, 48);
    let (rgb, w, h) = decode(&jpeg, 1).expect("intact stream decodes");
    assert_eq!((w, h), (64, 48));
    assert_eq!(rgb.len(), 64 * 48 * 3);
    let (_, w, h) = decode(&jpeg, 6).expect("transpose path decodes");
    assert_eq!((w, h), (48, 64), "orientation 6 swaps the sides");
}

#[test]
fn the_decoder_sees_the_stream_and_the_room_and_no_refused_stream() {
    let jpeg = encoded(64, 48);
    let asked = std::cell::Cell::new(0);
    let decoder = |bytes: &[u8], n: usize| {
        assert_eq!((bytes, n), (&jpeg[..], 64 * 48 * 3));
        asked.set(asked.get() + 1);
        Ok(vec![7; n])
    };
    let shown = decode_oriented(&jpeg, 8, MAX_PIXELS, true, decoder).unwrap();
    assert_eq!(shown, (vec![7; 64 * 48 * 3], 48, 64));
    assert_eq!(asked.get(), 1);
    assert!(decode_oriented(&jpeg, 1, MAX_PIXELS, false, decoder).is_err());
    assert!(decode_oriented(&jpeg, 1, 64 * 48 - 1, true, decoder).is_err());
    assert!(decode_oriented(b"no picture", 1, MAX_PIXELS, true, decoder).is_err());
    assert_eq!(asked.get(), 1, "a refused stream is not decoded");
    assert_eq!(
        decode_oriented(&jpeg, 1, MAX_PIXELS, true, |_, _| Err("bad data".into())),
        Err("decode: bad data".to_string())
    );
    assert_eq!(
        orient_decoded(Err("bad data".into()), 64, 48, 1),
        Err("decode: bad data".to_string())
    );
}

#[test]
fn a_half_turn_reverses_the_pixels() {
    let mut pixels = Vec::new();
    for y in 0..16u8 {
        for x in 0..24u8 {
            pixels.extend_from_slice(&[10 * x, 15 * y, 90]);
        }
    }
    let mut jpeg = Vec::new();
    jpeg_encoder::Encoder::new(&mut jpeg, 90)
        .encode(&pixels, 24, 16, jpeg_encoder::ColorType::Rgb)
        .unwrap();
    let (rgb, w, h) = decode(&jpeg, 1).unwrap();
    assert_eq!(rgb, fill(&jpeg, 24 * 16 * 3).unwrap());
    let (turned, tw, th) = decode(&jpeg, 3).unwrap();
    assert_eq!((tw, th), (w, h));
    let reversed: Vec<u8> = rgb.chunks(3).rev().flatten().copied().collect();
    assert_eq!(turned, reversed);
    assert_ne!(turned, rgb);
    assert_eq!(orient_decoded(Ok(rgb), w, h, 3), Ok((reversed, w, h)));
}

#[test]
fn a_stream_with_odd_headers_is_handed_to_the_decoder() {
    // A stuffed zero and fill bytes between two segments.
    let jpeg = encoded(32, 24);
    let at = segment(&jpeg, 0xdb) - 2;
    for odd in [&[0xff, 0xff][..], &[0xff, 0x00][..]] {
        let mut other = jpeg[..at].to_vec();
        other.extend_from_slice(odd);
        other.extend_from_slice(&jpeg[at..]);
        assert_eq!(decode(&other, 1), decode(&jpeg, 1));
    }
}

#[test]
fn eviction_keeps_newest_and_at_least_one() {
    let mut state = LoupeState::default();
    for i in 0..4usize {
        let img = FullImage {
            rgb: Arc::new(vec![0; 100]),
            width: 10,
            height: 10,
        };
        state.cached_bytes += 100;
        state.cache.insert(i, (img, i as u64));
    }
    evict_to_budget(&mut state, 250);
    assert!(state.cache.len() <= 2 && state.cache.contains_key(&3));
    evict_to_budget(&mut state, 0);
    assert_eq!(state.cache.len(), 1, "never evicts the last image");
}

fn image(width: u32, height: u32, bytes: usize) -> FullImage {
    FullImage {
        rgb: Arc::new(vec![0; bytes]),
        width,
        height,
    }
}

fn rung(width: u32, height: u32, len: u64) -> Rung {
    Rung {
        offset: 8,
        len,
        width,
        height,
    }
}

#[test]
fn truncated_full_rung_keeps_the_good_mid_and_no_failed_badge() {
    let mid = encoded(640, 400);
    let full = truncate_scan(&encoded(2000, 1500), 64);
    let rungs = rungs_of(
        Some(rung(640, 400, mid.len() as u64)),
        Some(rung(2000, 1500, full.len() as u64)),
    );
    let mut state = LoupeState::default();
    let mut ladder = Ladder::start(0, rungs, 8640, 0, false);
    assert!(matches!(
        ladder.next(None),
        Climb::Decode {
            rung: 0,
            terminal: false
        }
    ));
    let (rgb, w, h) = decode(&mid, 1).unwrap();
    assert_eq!((w, h), (640, 400), "the mid is shown");
    let shown = FullImage {
        rgb: Arc::new(rgb),
        width: w,
        height: h,
    };
    publish(&mut state, 0, shown, 1, usize::MAX);
    assert!(!ladder.published(), "the mid does not serve 8640 pixels");
    assert!(matches!(
        ladder.next(None),
        Climb::Decode {
            rung: 1,
            terminal: true
        }
    ));
    let reason = decode(&full, 1).unwrap_err();
    match ladder.broken(reason) {
        Climb::Done { best: Some(long) } => note_best(&mut state, 0, long),
        other => panic!("a good mid must survive a truncated full rung, got {other:?}"),
    }
    assert!(!land(&mut state, 0, false, 2));
    assert_eq!(state.best_long.get(&0).copied(), Some(640));
    assert!(!state.failed.contains(&0));
}

#[test]
fn a_ladder_without_rungs_fails_and_a_broken_first_rung_says_why() {
    let mut none = Ladder::start(0, rungs_of(None, None), 1000, 0, false);
    assert!(matches!(
        none.next(None),
        Climb::Failed(LadderError::NoUsablePreview)
    ));
    let one = rungs_of(Some(rung(640, 400, 9)), Some(rung(640, 400, 9)));
    assert_eq!(one.len(), 1, "the same preview is one rung");
    let mut ladder = Ladder::start(0, one, 1000, 0, false);
    assert!(matches!(
        ladder.next(None),
        Climb::Decode {
            rung: 0,
            terminal: true
        }
    ));
    match ladder.broken("bad huffman code".to_string()) {
        Climb::Failed(LadderError::Decode(e)) => assert_eq!(e, "bad huffman code"),
        other => panic!("expected a failure, got {other:?}"),
    }
    let flat = rungs_of(Some(rung(0, 0, 9)), None);
    let mut ladder = Ladder::start(0, flat, 1000, 0, false);
    assert!(matches!(
        ladder.next(None),
        Climb::Failed(LadderError::NoDecodablePreview)
    ));
}

#[test]
fn the_reserved_lane_abandons_a_frame_that_lost_the_focus() {
    let rungs = rungs_of(Some(rung(640, 400, 9)), Some(rung(2000, 1500, 9)));
    let mut ladder = Ladder::start(4, rungs, 8640, 0, true);
    assert!(matches!(ladder.next(Some(4)), Climb::Decode { rung: 0, .. }));
    assert!(!ladder.published());
    assert!(matches!(ladder.next(Some(5)), Climb::Done { best: None }));
}

#[test]
fn a_focus_queues_the_ring_and_the_focused_frame_on_top() {
    let mut st = LoupeState::default();
    st.focus(5, 8640, 100, 1, START);
    assert_eq!(st.queue.last(), Some(&(5, 8640, true)));
    let mut ids: Vec<usize> = st.queue.iter().map(|e| e.0).collect();
    ids.sort_unstable();
    assert_eq!(ids, vec![3, 4, 5, 6, 7]);
    assert_eq!(st.focused, Some(5));
    // One beyond the folder asks for nothing.
    let mut st = LoupeState::default();
    st.focus(100, 8640, 100, 1, START);
    assert!(st.queue.is_empty());
}

#[test]
fn grid_wants_are_queued_below_the_focus() {
    let mut st = LoupeState::default();
    st.focus(0, 8640, 1, 1, START);
    assert!(st.want(&[2, 3], 1616, 10, 2));
    assert_eq!(st.queue.last(), Some(&(0, 8640, true)));
    // Each call defines the visible set: what scrolled past is culled.
    assert!(st.want(&[3, 4, 10], 1616, 10, 3));
    let mut ids: Vec<usize> = st.queue.iter().map(|e| e.0).collect();
    ids.sort_unstable();
    assert_eq!(ids, vec![0, 3, 4]);
}

#[test]
fn the_focused_frame_survives_any_budget() {
    let mut st = LoupeState {
        focused: Some(0),
        ..Default::default()
    };
    publish(&mut st, 0, image(10, 10, 300), 1, 1000);
    publish(&mut st, 1, image(10, 10, 300), 2, 1000);
    publish(&mut st, 2, image(10, 10, 300), 3, 500);
    assert!(st.peek(0).is_some(), "never evicted while it is looked at");
    assert_eq!(
        st.cached_bytes,
        st.cache.values().map(|(i, _)| i.rgb.len()).sum::<usize>()
    );
}

#[test]
fn a_view_is_a_bijection_of_what_it_holds() {
    let mut st = LoupeState::default();
    st.set_view(&[4, 2, 0], 5);
    assert_eq!(st.ring_len(5), 3);
    for (pos, id) in [4, 2, 0].into_iter().enumerate() {
        assert_eq!(st.pos_of(id), Some(pos));
        assert_eq!(st.id_at(pos), Some(id));
    }
    assert_eq!(st.pos_of(1), None, "filtered out");
    assert_eq!(st.id_at(3), None);
}
