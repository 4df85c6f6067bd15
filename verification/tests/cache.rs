use fastcull_core::cache::{
    database_files, mtime_nanos, over_cap, row_key, schema_check, BusyRetry, CacheError,
    CachedPreview, DbKind, SCHEMA_VERSION,
};
use fastcull_core::exif::ExifSummary;
use fastcull_core::catalog::PickState;
use fastcull_core::iptc::IptcData;
use fastcull_core::pipeline::job::{JobRun, Work};
use fastcull_core::pipeline::{cached_events, exif_for_cache, thumb_event, SessionEvent};

#[test]
fn busy_retry_retries_then_succeeds() {
    let mut calls = 0;
    let mut retry = BusyRetry::new();
    let result: Result<i32, DbKind> = loop {
        calls += 1;
        let outcome = if calls < 3 {
            Err(DbKind::DatabaseBusy)
        } else {
            Ok(42)
        };
        match outcome {
            Ok(v) => break Ok(v),
            Err(kind) => {
                if retry.failed(kind).is_none() {
                    break Err(kind);
                }
            }
        }
    };
    assert_eq!(result.unwrap(), 42);
    assert_eq!(calls, 3);
}

#[test]
fn a_busy_database_is_given_up_in_the_end() {
    let mut retry = BusyRetry::new();
    let mut waits = Vec::new();
    while let Some(ms) = retry.failed(DbKind::DatabaseBusy) {
        waits.push(ms);
    }
    assert_eq!(waits.len(), 5);
    assert!(waits.windows(2).all(|w| w[0] <= w[1]));
    let mut retry = BusyRetry::new();
    assert!(retry.failed(DbKind::DatabaseLocked).is_some());
    assert_eq!(retry.failed(DbKind::Other), None, "no other failure is retried");
}

#[test]
fn a_fresh_file_gets_its_schema_and_a_strange_one_is_refused() {
    assert!(matches!(schema_check(0), Ok(true)));
    assert!(matches!(schema_check(SCHEMA_VERSION), Ok(false)));
    assert!(matches!(
        schema_check(99),
        Err(CacheError::SchemaMismatch { found: 99 })
    ));
    assert!(CacheError::SchemaMismatch { found: 99 }.text().contains("99"));
}

#[test]
fn only_a_file_that_cannot_be_a_cache_is_thrown_away() {
    let db = |kind| CacheError::Db(kind, "x".to_string());
    assert!(db(DbKind::NotADatabase).file_is_unusable());
    assert!(db(DbKind::DatabaseCorrupt).file_is_unusable());
    assert!(CacheError::SchemaMismatch { found: 1 }.file_is_unusable());
    assert!(!db(DbKind::DatabaseBusy).file_is_unusable());
    assert!(!db(DbKind::Other).file_is_unusable());
    assert!(!CacheError::Io("disk".to_string()).file_is_unusable());
    assert!(!CacheError::Serialize("json".to_string()).file_is_unusable());
}

#[test]
fn a_database_is_three_files() {
    assert_eq!(
        database_files("/c/cache.db"),
        vec!["/c/cache.db", "/c/cache.db-wal", "/c/cache.db-shm"]
    );
}

#[test]
fn keys_tell_files_apart() {
    let a = row_key("/p/a.ARW", 4, Some(17)).unwrap();
    assert_eq!((a.path.as_str(), a.size, a.mtime_ns), ("/p/a.ARW", 4, 17));
    assert!(row_key("/p/a.ARW", 4, None).is_none(), "no mtime, no row");
    assert_eq!(row_key("/p/a.ARW", 4, Some(18)).unwrap().mtime_ns, 18);
    assert_eq!(mtime_nanos(Some(-5)), None, "before 1970");
    assert_eq!(mtime_nanos(Some(i128::from(i64::MAX))), Some(i64::MAX));
    assert_eq!(mtime_nanos(Some(i128::from(i64::MAX) + 1)), None);
}

#[test]
fn the_cap_is_exceeded_by_one_byte() {
    assert!(!over_cap(100, 100));
    assert!(over_cap(101, 100));
}

#[test]
fn a_hit_gives_both_events_and_an_unreadable_thumb_none() {
    let mut thumb = Vec::new();
    jpeg_encoder::Encoder::new(&mut thumb, 80)
        .encode(&[9; 30 * 20 * 3], 30, 20, jpeg_encoder::ColorType::Rgb)
        .unwrap();
    let hit = CachedPreview {
        exif: ExifSummary::default(),
        thumb_jpeg: thumb.clone(),
    };
    let (metadata, ready) = cached_events(7, hit).unwrap();
    assert_eq!(
        metadata,
        SessionEvent::MetadataReady {
            index: 7,
            exif: ExifSummary::default(),
            from_cache: true,
        }
    );
    assert_eq!(
        ready,
        SessionEvent::ThumbReady {
            index: 7,
            thumb_jpeg: thumb,
            width: 30,
            height: 20,
            from_cache: true,
        }
    );
    let broken = CachedPreview {
        exif: ExifSummary::default(),
        thumb_jpeg: b"not a jpeg".to_vec(),
    };
    assert!(cached_events(7, broken).is_none());
}

#[test]
fn a_thumb_is_an_event_and_so_is_its_failure() {
    assert_eq!(
        thumb_event(3, Ok((vec![1, 2], 10, 20))),
        SessionEvent::ThumbReady {
            index: 3,
            thumb_jpeg: vec![1, 2],
            width: 10,
            height: 20,
            from_cache: false,
        }
    );
    assert_eq!(
        thumb_event(3, Err("no preview".to_string())),
        SessionEvent::Failed {
            index: 3,
            reason: "no preview".to_string(),
        }
    );
    assert_eq!(exif_for_cache(None), ExifSummary::default());
}

fn tiny_jpeg() -> Vec<u8> {
    let mut out = Vec::new();
    jpeg_encoder::Encoder::new(&mut out, 80)
        .encode(&[9; 30 * 20 * 3], 30, 20, jpeg_encoder::ColorType::Rgb)
        .unwrap();
    out
}

#[test]
fn a_cached_image_is_never_read() {
    let mut run = JobRun::start(5);
    assert_eq!(run.at, Work::Sidecar);
    let events = run.sidecar(Some((PickState::Picked, IptcData::default())));
    assert!(matches!(
        events[..],
        [SessionEvent::Sidecar {
            index: 5,
            pick: PickState::Picked,
            ..
        }]
    ));
    assert_eq!(run.at, Work::Cache);
    let events = run.cache(Some(CachedPreview {
        exif: ExifSummary::default(),
        thumb_jpeg: tiny_jpeg(),
    }));
    assert_eq!(events.len(), 2);
    assert_eq!(run.at, Work::Done);
}

#[test]
fn an_image_without_metadata_still_gets_its_thumb() {
    let mut run = JobRun::start(5);
    assert!(run.sidecar(None).is_empty());
    let broken = CachedPreview {
        exif: ExifSummary::default(),
        thumb_jpeg: b"not a jpeg".to_vec(),
    };
    assert!(run.cache(Some(broken)).is_empty());
    assert_eq!(run.at, Work::Exif);
    assert!(run.summary(None).is_empty());
    let (event, cached) = run.thumb(Ok((tiny_jpeg(), 30, 20)));
    assert!(matches!(event, SessionEvent::ThumbReady { index: 5, .. }));
    assert_eq!(cached, Some(ExifSummary::default()));
    assert_eq!(run.at, Work::Done);
}

#[test]
fn an_image_without_a_thumb_fails_once_and_is_not_cached() {
    let exif = ExifSummary {
        camera_model: Some("ILCE-1".into()),
        ..Default::default()
    };
    let mut run = JobRun::start(5);
    run.sidecar(None);
    run.cache(None);
    assert_eq!(
        run.summary(Some(exif.clone())),
        vec![SessionEvent::MetadataReady {
            index: 5,
            exif,
            from_cache: false,
        }]
    );
    let (event, cached) = run.thumb(Err("no preview".into()));
    assert_eq!(
        event,
        SessionEvent::Failed {
            index: 5,
            reason: "no preview".into(),
        }
    );
    assert_eq!(cached, None);
}
