use fastcull_core::pipeline::{
    encode_thumb, fit_long_edge, jpeg_dimensions, pool_cap, thumb_of_decoded, thumb_source,
    PoolController, PoolState, Priority, QueueState, POOL_MIN_READERS,
};

fn ms(n: u64) -> u64 {
    n * 1_000_000
}

fn secs(n: u64) -> u64 {
    ms(n * 1000)
}

/// A JPEG stream of this size, in colour: a ramp, so that no two lines agree.
fn encoded(width: u16, height: u16) -> Vec<u8> {
    let mut pixels = Vec::new();
    for y in 0..height {
        for x in 0..width {
            pixels.extend_from_slice(&[(x % 256) as u8, (y % 256) as u8, 90]);
        }
    }
    let mut out = Vec::new();
    jpeg_encoder::Encoder::new(&mut out, 90)
        .encode(&pixels, width, height, jpeg_encoder::ColorType::Rgb)
        .unwrap();
    out
}

/// The decoder, asked for RGB.
fn decode(jpeg: &[u8]) -> Result<Vec<u8>, String> {
    let options = zune_jpeg::zune_core::options::DecoderOptions::default()
        .jpeg_set_out_colorspace(zune_jpeg::zune_core::colorspace::ColorSpace::RGB);
    zune_jpeg::JpegDecoder::new_with_options(jpeg, options)
        .decode()
        .map_err(|e| e.to_string())
}

fn make_grid_thumb(
    preview: &[u8],
    orientation: u16,
    terminated: bool,
) -> Result<(Vec<u8>, u32, u32), String> {
    fastcull_core::pipeline::make_grid_thumb(preview, orientation, terminated, decode)
}

/// The headers, and so many bytes of the scan.
fn truncate_scan(jpeg: &[u8], keep: usize) -> Vec<u8> {
    let at = jpeg.windows(2).position(|w| w == [0xff, 0xda]).unwrap() + 2;
    let header = usize::from(jpeg[at]) * 256 + usize::from(jpeg[at + 1]);
    jpeg[..at + header + keep].to_vec()
}

#[test]
fn fit_long_edge_preserves_aspect() {
    assert_eq!(fit_long_edge(1616, 1080, 320), (320, 213));
    assert_eq!(fit_long_edge(1080, 1616, 320), (213, 320));
    assert_eq!(fit_long_edge(100, 50, 320), (100, 50));
    assert_eq!(fit_long_edge(8640, 2, 320), (320, 1));
}

#[test]
fn truncated_bare_jpeg_yields_failed_not_a_blank_thumb() {
    let intact = encoded(320, 200);
    let err = make_grid_thumb(&truncate_scan(&intact, 64), 1, false)
        .expect_err("truncated scan must fail the thumb");
    assert!(err.contains("truncated"), "reason names the cause: {err}");
    make_grid_thumb(&intact, 1, true).expect("intact stream still thumbs");
}

#[test]
fn a_thumb_is_a_jpeg_of_the_fitted_size() {
    let (thumb, w, h) = make_grid_thumb(&encoded(640, 400), 1, true).unwrap();
    assert_eq!((w, h), (320, 200));
    assert_eq!(jpeg_dimensions(&thumb), Some((320, 200)));
    assert_eq!(&thumb[..2], &[0xff, 0xd8]);
    assert_eq!(&thumb[thumb.len() - 2..], &[0xff, 0xd9]);
    // A quarter turn swaps the sides.
    let (thumb, w, h) = make_grid_thumb(&encoded(640, 400), 6, true).unwrap();
    assert_eq!((w, h), (200, 320));
    assert_eq!(jpeg_dimensions(&thumb), Some((200, 320)));
    // A small preview is not enlarged.
    let (_, w, h) = make_grid_thumb(&encoded(64, 48), 1, true).unwrap();
    assert_eq!((w, h), (64, 48));
}

#[test]
fn a_thumb_shows_what_the_preview_shows() {
    // Left half black, right half white: so is the thumb, after a decode.
    let mut pixels = Vec::new();
    for _ in 0..400 {
        for x in 0..640 {
            pixels.extend_from_slice(if x < 320 { &[0; 3] } else { &[255; 3] });
        }
    }
    let mut preview = Vec::new();
    jpeg_encoder::Encoder::new(&mut preview, 90)
        .encode(&pixels, 640, 400, jpeg_encoder::ColorType::Rgb)
        .unwrap();
    let (thumb, w, _) = make_grid_thumb(&preview, 1, true).unwrap();
    let shown = zune_jpeg::JpegDecoder::new(&thumb[..]).decode().unwrap();
    let at = |x: usize, y: usize| shown[3 * (y * w as usize + x)];
    assert!(at(10, 100) < 30 && at(300, 100) > 225);
    // Turned half around, the halves change places.
    let (thumb, w, _) = make_grid_thumb(&preview, 3, true).unwrap();
    let shown = zune_jpeg::JpegDecoder::new(&thumb[..]).decode().unwrap();
    let at = |x: usize, y: usize| shown[3 * (y * w as usize + x)];
    assert!(at(10, 100) > 225 && at(300, 100) < 30);
}

#[test]
fn a_gray_preview_becomes_a_thumb() {
    let ramp: Vec<u8> = (0..40 * 30).map(|i| (i % 40 * 6) as u8).collect();
    let mut gray = Vec::new();
    jpeg_encoder::Encoder::new(&mut gray, 90)
        .encode(&ramp, 40, 30, jpeg_encoder::ColorType::Luma)
        .unwrap();
    let plain = decode(&gray).unwrap();
    assert_eq!(plain.len(), 40 * 30, "one byte to a pixel");
    let (thumb, w, h) = make_grid_thumb(&gray, 3, true).unwrap();
    assert_eq!((w, h), (40, 30));
    // The half-turned pixels, each three times.
    let turned: Vec<u8> = plain.iter().rev().flat_map(|&v| [v, v, v]).collect();
    let source = thumb_source(plain, 40, 30, 3);
    assert_eq!(source.pixels, turned);
    assert_eq!(encode_thumb(&turned, 40, 30), Ok((thumb, 40, 30)));
}

#[test]
fn a_cmyk_preview_becomes_a_thumb() {
    let mut cmyk = Vec::new();
    jpeg_encoder::Encoder::new(&mut cmyk, 90)
        .encode(&vec![60; 48 * 32 * 4], 48, 32, jpeg_encoder::ColorType::Cmyk)
        .unwrap();
    let (_, w, h) = make_grid_thumb(&cmyk, 1, true).unwrap();
    assert_eq!((w, h), (48, 32));
}

#[test]
fn a_small_thumb_is_the_turned_preview_encoded_again() {
    let jpeg = encoded(24, 16);
    let reversed: Vec<u8> = decode(&jpeg)
        .unwrap()
        .chunks(3)
        .rev()
        .flatten()
        .copied()
        .collect();
    let mut out = Vec::new();
    jpeg_encoder::Encoder::new(&mut out, 80)
        .encode(&reversed, 24, 16, jpeg_encoder::ColorType::Rgb)
        .unwrap();
    assert_eq!(make_grid_thumb(&jpeg, 3, true), Ok((out, 24, 16)));
    let err = encode_thumb(&reversed[1..], 24, 16).unwrap_err();
    assert!(err.starts_with("encode: "), "{err}");
    assert!(encode_thumb(&[], 0, 16).is_err());
}

#[test]
fn the_decoder_sees_the_preview_and_no_refused_preview() {
    let jpeg = encoded(24, 16);
    let asked = std::cell::Cell::new(0);
    let made = |preview: &[u8], terminated: bool, answer: Result<Vec<u8>, String>| {
        fastcull_core::pipeline::make_grid_thumb(preview, 1, terminated, |bytes: &[u8]| {
            assert_eq!(bytes, &jpeg[..]);
            asked.set(asked.get() + 1);
            answer.clone()
        })
    };
    assert_eq!(
        made(&jpeg, true, Err("bad data".into())),
        Err("decode: bad data".to_string())
    );
    assert!(made(&jpeg, true, Ok(vec![9; 24 * 16 * 3])).is_ok());
    assert_eq!(
        made(&jpeg, true, Ok(vec![9; 24 * 16 * 2])),
        Err("resize input: Size of buffer is smaller than required".to_string())
    );
    assert_eq!(asked.get(), 3);
    assert!(made(&jpeg, false, Ok(Vec::new())).is_err());
    assert!(made(b"no picture at all", true, Ok(Vec::new())).is_err());
    assert_eq!(asked.get(), 3, "a refused preview is not decoded");
    assert_eq!(
        thumb_of_decoded(Ok(vec![9; 5]), 24, 16, 6),
        Err("resize input: Size of buffer is smaller than required".to_string())
    );
}

#[test]
fn what_is_no_jpeg_is_refused_by_the_decoder() {
    let err = make_grid_thumb(b"no picture at all", 1, true).unwrap_err();
    assert!(err.starts_with("decode: "), "{err}");
    assert_eq!(jpeg_dimensions(b"no picture at all"), None);
    assert_eq!(jpeg_dimensions(&encoded(48, 64)), Some((48, 64)));
}

#[test]
fn queue_pops_promoted_jobs_first() {
    let mut state = QueueState::start(100);
    state.promote(&[90, 91, 92, 93, 94], Priority::Visible);
    state.promote(&[10, 11], Priority::Prefetch);
    let mut order = Vec::new();
    while let Some((index, _)) = state.take_next() {
        order.push(index);
    }
    assert_eq!(order.len(), 100, "each job exactly once");
    assert_eq!(&order[0..5], &[90, 91, 92, 93, 94], "visible first");
    assert_eq!(&order[5..7], &[10, 11], "prefetch second");
    assert_eq!(&order[7..10], &[0, 1, 2]);
    assert!(order[7..].windows(2).all(|w| w[0] < w[1]));
}

#[test]
fn a_promotion_never_lowers_and_a_taken_job_is_not_queued_again() {
    let mut state = QueueState::start(3);
    state.promote(&[2], Priority::Visible);
    state.promote(&[2], Priority::Prefetch);
    assert_eq!(state.take_next(), Some((2, Priority::Visible.number())));
    // In flight, and beyond the folder: neither is queued.
    state.promote(&[2, 9], Priority::Visible);
    assert_eq!(state.take_next(), Some((0, Priority::Background.number())));
    state.finish(2);
    state.promote(&[2], Priority::Visible);
    assert_eq!(state.take_next(), Some((1, Priority::Background.number())));
    assert_eq!(state.take_next(), None);
}

#[test]
fn the_visible_window_goes_first() {
    let mut state = QueueState::start(10);
    state.set_visible(4, 6);
    let order: Vec<usize> = (0..10).map(|_| state.take_next().unwrap().0).collect();
    assert_eq!(order, vec![4, 5, 0, 1, 2, 3, 6, 7, 8, 9]);
}

fn test_controller(cap: usize) -> PoolController {
    PoolController {
        limit: POOL_MIN_READERS,
        floor: POOL_MIN_READERS,
        cap,
        grow_below: ms(200),
        shrink_above: ms(500),
    }
}

#[test]
fn controller_override_caps_and_pins() {
    let c = PoolController::with_override(Some(1), 8);
    assert_eq!((c.limit, c.floor, c.cap), (1, 1, 1), "N=1 pins one reader");
    let c = PoolController::with_override(Some(4), 8);
    assert_eq!((c.limit, c.floor, c.cap), (4, 4, 4), "N=4 is a fixed gate");
    let c = PoolController::with_override(Some(6), 8);
    assert_eq!((c.limit, c.floor, c.cap), (4, 4, 6), "N>4 caps growth only");
    let c = PoolController::with_override(None, 8);
    assert_eq!((c.limit, c.floor), (4, 4));
    assert_eq!(c.cap, pool_cap(8));
}

#[test]
fn controller_starts_at_floor_and_clamps_both_ends() {
    let mut c = test_controller(6);
    assert_eq!(c.limit, POOL_MIN_READERS, "initial limit is the proven 4");
    for expected in [5, 6, 6] {
        c.grow_one();
        assert_eq!(c.limit, expected);
    }
    let mut c = test_controller(32);
    c.limit = 32;
    for expected in [16, 8, 4, 4] {
        c.shrink_halve();
        assert_eq!(c.limit, expected);
    }
}

#[test]
fn pool_cap_is_at_least_the_floor() {
    for cores in [0, 1, 2, 4, 8, 64] {
        assert!(pool_cap(cores) >= POOL_MIN_READERS);
        assert_eq!(
            PoolController::with_override(None, cores).limit,
            POOL_MIN_READERS
        );
    }
}

/// A pool under a clock of its own.
struct Pool {
    state: PoolState,
    now: u64,
}

impl Pool {
    fn new(grow_below: u64, shrink_above: u64) -> Pool {
        let mut controller = PoolController::with_override(None, 32);
        controller.grow_below = grow_below;
        controller.shrink_above = shrink_above;
        Pool {
            state: PoolState::new(controller),
            now: secs(1000),
        }
    }

    fn sleep(&mut self, time: u64) {
        self.now += time;
    }

    fn acquire(&mut self, priority: u8, sampled: bool) -> (u64, u64) {
        let ticket = self.state.enqueue(priority);
        assert!(self.state.try_acquire(ticket, sampled, self.now));
        (ticket.1, self.now)
    }

    fn release(&mut self, read: (u64, u64)) {
        self.state.release(read.0, read.1, self.now);
    }

    fn limit(&self) -> usize {
        self.state.controller.limit
    }
}

#[test]
fn pool_warm_probe_cannot_outvote_stuck_read() {
    let mut pool = Pool::new(ms(150), secs(60));
    let stuck = pool.acquire(0, false);
    pool.sleep(ms(300));
    let warm = pool.acquire(0, true);
    pool.release(warm);
    assert_eq!(
        pool.limit(),
        POOL_MIN_READERS,
        "growth must be vetoed while any read is stuck"
    );
    pool.release(stuck);
    let warm = pool.acquire(0, true);
    pool.release(warm);
    assert_eq!(pool.limit(), POOL_MIN_READERS + 1);
}

#[test]
fn pool_dead_band_holds() {
    let mut pool = Pool::new(ms(1), secs(60));
    let probe = pool.acquire(0, true);
    pool.sleep(ms(150));
    pool.release(probe);
    assert_eq!(pool.limit(), POOL_MIN_READERS);
}

#[test]
fn pool_concurrency_never_exceeds_limit() {
    let mut pool = Pool::new(ms(200), ms(500));
    pool.state.controller.limit = 2;
    let tickets: Vec<(u8, u64)> = (0..8)
        .map(|_| pool.state.enqueue(Priority::Background.number()))
        .collect();
    let mut reading: Vec<(u64, u64)> = Vec::new();
    let mut max_seen = 0;
    for &ticket in &tickets {
        while !pool.state.try_acquire(ticket, false, pool.now) {
            let done = reading.remove(0);
            pool.release(done);
        }
        reading.push((ticket.1, pool.now));
        max_seen = max_seen.max(reading.len());
        pool.sleep(ms(2));
    }
    assert_eq!(max_seen, 2);
    assert_eq!(pool.limit(), 2, "no probes ran; limit must not move");
}

#[test]
fn pool_releases_highest_priority_waiter_first() {
    let mut pool = Pool::new(ms(200), secs(60));
    pool.state.controller.limit = 1;
    let held = pool.acquire(Priority::Background.number(), false);
    let background = pool.state.enqueue(Priority::Background.number());
    let visible = pool.state.enqueue(Priority::Visible.number());
    assert!(!pool.state.try_acquire(visible, false, pool.now), "no slot");
    pool.release(held);
    assert!(!pool.state.try_acquire(background, false, pool.now));
    assert!(pool.state.try_acquire(visible, false, pool.now));
    pool.release((visible.1, pool.now));
    assert!(pool.state.try_acquire(background, false, pool.now));
}

#[test]
fn pool_probe_grows_shrinks_and_excludes_large_reads() {
    let mut pool = Pool::new(ms(150), secs(60));
    pool.state.controller.limit = 2;
    let probe = pool.acquire(0, true);
    pool.release(probe);
    assert_eq!(pool.limit(), 3);
    let large = pool.acquire(0, true);
    pool.state.set_bytes(large.0, 3 * 1024 * 1024);
    pool.release(large);
    assert_eq!(pool.limit(), 3, "large read must not be sampled");
    let exif = pool.acquire(0, false);
    pool.release(exif);
    assert_eq!(pool.limit(), 3);
    let probe = pool.acquire(0, true);
    let other = pool.acquire(0, true);
    pool.release(other);
    assert_eq!(pool.limit(), 3);
    pool.release(probe);
    assert_eq!(pool.limit(), 4);
}

#[test]
fn pool_large_probe_never_stall_shrinks() {
    let mut pool = Pool::new(ms(1), ms(150));
    pool.state.controller.limit = 16;
    let probe = pool.acquire(0, true);
    pool.state.set_bytes(probe.0, 3 * 1024 * 1024);
    pool.sleep(ms(300));
    let touch = pool.acquire(0, false);
    pool.release(touch);
    assert_eq!(pool.limit(), 16, "excluded probe must not stall-shrink");
    pool.release(probe);
    assert_eq!(
        pool.limit(),
        16,
        "excluded probe must not shrink on completion"
    );
}

#[test]
fn pool_slow_completion_shrinks_without_other_touches() {
    let mut pool = Pool::new(ms(1), ms(150));
    pool.state.controller.limit = 16;
    let probe = pool.acquire(0, true);
    pool.sleep(ms(300));
    pool.release(probe);
    assert_eq!(pool.limit(), 8, "slow completion must halve");
}

#[test]
fn pool_stalled_probe_shrinks_once() {
    let mut pool = Pool::new(ms(1), ms(150));
    pool.state.controller.limit = 16;
    let probe = pool.acquire(0, true);
    pool.sleep(ms(300));
    let touch = pool.acquire(0, false);
    pool.release(touch);
    assert_eq!(pool.limit(), 8, "stall must halve before completion");
    pool.release(probe);
    assert_eq!(pool.limit(), 8, "one shrink per window");
}
