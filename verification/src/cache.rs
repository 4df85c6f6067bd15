//! The rules of the preview cache: thumbs and EXIF summaries keyed by (path,
//! size, modification time), so reopening a folder paints without touching a
//! single RAW file.
//!
//! The cache is *only* a cache: a corrupt or schema-incompatible database is
//! deleted and recreated. Losing it costs a re-extraction pass, never data.
//! Records with no readable modification time are simply not cached: a key
//! that cannot detect staleness is worse than no cache.
use crate::exif::ExifSummary;
use crate::text;
use vstd::prelude::*;
use vstd::string::*;

verus! {

/// The version of the schema and of the meaning of stored data.
pub const SCHEMA_VERSION: i32 = 2;

/// Default size cap for stored thumbnails: 2 GiB.
pub const DEFAULT_CAP_BYTES: u64 = 0x8000_0000;

/// How many rows one round of eviction takes.
pub const EVICTION_ROUND: usize = 64;

/// How often an operation on a busy database is tried again.
pub const BUSY_RETRIES: u32 = 5;

/// What a database failure is about, as far as the cache cares.
#[derive(Debug, Clone, Copy, PartialEq, Eq, Structural)]
pub enum DbKind {
    NotADatabase,
    DatabaseCorrupt,
    DatabaseBusy,
    DatabaseLocked,
    Other,
}

/// Why the cache cannot be used.
#[derive(Debug)]
pub enum CacheError {
    Db(DbKind, String),
    Io(String),
    SchemaMismatch { found: i32 },
    Serialize(String),
}

impl CacheError {
    /// The message a log shows.
    pub fn text(&self) -> (s: String)
        ensures
            s@ == match self {
                CacheError::Db(_, t) => "cache database error: "@ + t@,
                CacheError::Io(t) => "cache path error: "@ + t@,
                CacheError::SchemaMismatch { found } => "cache schema version "@
                    + text::signed_decimal(*found as int) + " unsupported (expected 2)"@,
                CacheError::Serialize(t) => "cannot serialize EXIF for cache: "@ + t@,
            },
    {
        let mut s = String::new();
        match self {
            CacheError::Db(_, t) => {
                s.append("cache database error: ");
                s.append(t.as_str());
            },
            CacheError::Io(t) => {
                s.append("cache path error: ");
                s.append(t.as_str());
            },
            CacheError::SchemaMismatch { found } => {
                s.append("cache schema version ");
                s.append(text::signed_decimal_of(*found as i64).as_str());
                s.append(" unsupported (expected 2)");
            },
            CacheError::Serialize(t) => {
                s.append("cannot serialize EXIF for cache: ");
                s.append(t.as_str());
            },
        }
        s
    }

    /// True only for errors that mean the FILE itself is unusable (corrupt
    /// or incompatible) — the cases where deleting and recreating is
    /// correct. Lock contention is emphatically not in this set: deleting a
    /// healthy, merely-locked database under another live connection loses
    /// data.
    pub fn file_is_unusable(&self) -> (r: bool)
        ensures
            r == match self {
                CacheError::SchemaMismatch { .. } => true,
                CacheError::Db(kind, _) => *kind == DbKind::NotADatabase || *kind
                    == DbKind::DatabaseCorrupt,
                _ => false,
            },
    {
        match self {
            CacheError::SchemaMismatch { found: _ } => true,
            CacheError::Db(kind, _) => {
                *kind == DbKind::NotADatabase || *kind == DbKind::DatabaseCorrupt
            },
            CacheError::Io(_) => false,
            CacheError::Serialize(_) => false,
        }
    }
}

/// One cache hit.
#[derive(Debug, Clone, PartialEq, Eq)]
pub struct CachedPreview {
    pub exif: ExifSummary,
    pub thumb_jpeg: Vec<u8>,
}

/// What the version of an opened file says: does it still need its schema?
/// A fresh file has version 0; any other version than this one is refused.
pub fn schema_check(version: i32) -> (r: Result<bool, CacheError>)
    ensures
        match r {
            Ok(fresh) => (version == 0 || version == 2) && fresh == (version == 0),
            Err(e) => version != 0 && version != 2 && e == (CacheError::SchemaMismatch {
                found: version,
            }),
        },
{
    if version != 0 && version != SCHEMA_VERSION {
        return Err(CacheError::SchemaMismatch { found: version });
    }
    Ok(version == 0)
}

/// The files of a database: itself, and the two beside it. A stale log next
/// to a fresh database would replay old frames into it.
pub fn database_files(path: &str) -> (files: Vec<String>)
    ensures
        text::texts(files@) == seq![path@, path@ + "-wal"@, path@ + "-shm"@],
{
    let mut files: Vec<String> = Vec::new();
    files.push(path.to_string());
    let mut wal = path.to_string();
    wal.append("-wal");
    files.push(wal);
    let mut shm = path.to_string();
    shm.append("-shm");
    files.push(shm);
    assert(text::texts(files@) =~= seq![path@, path@ + "-wal"@, path@ + "-shm"@]);
    files
}

/// The modification time as the key stores it: 64-bit nanoseconds since
/// 1970, where it is in that range.
pub fn mtime_nanos(mtime: Option<i128>) -> (r: Option<i64>)
    ensures
        match mtime {
            Some(ns) => if 0 <= ns <= i64::MAX {
                r == Some(ns as i64)
            } else {
                r is None
            },
            None => r is None,
        },
{
    match mtime {
        Some(ns) => if ns >= 0 && ns <= i64::MAX as i128 {
            Some(ns as i64)
        } else {
            None
        },
        None => None,
    }
}

/// The key of a row.
#[derive(Debug, Clone)]
pub struct RowKey {
    pub path: String,
    /// The size, in the database's signed 64 bits.
    pub size: i64,
    pub mtime_ns: i64,
}

/// The model of a [`RowKey`].
pub open spec fn key_of(path: Seq<char>, size: u64, mtime: i128) -> (Seq<char>, i64, i64) {
    (path, size as i64, mtime as i64)
}

/// The key under which a file's preview is stored and looked up, where it
/// has one: without a modification time nothing is stored, and every lookup
/// misses.
pub fn row_key(path: &str, size: u64, mtime: Option<i128>) -> (r: Option<RowKey>)
    ensures
        match r {
            Some(k) => mtime is Some && 0 <= mtime->0 <= i64::MAX && (k.path@, k.size, k.mtime_ns)
                == key_of(path@, size, mtime->0),
            None => mtime is None || !(0 <= mtime->0 <= i64::MAX),
        },
{
    match mtime_nanos(mtime) {
        Some(mtime_ns) => Some(RowKey { path: path.to_string(), size: size as i64, mtime_ns }),
        None => None,
    }
}

/// A row answers only for the file it was stored for: two keys are the same
/// only where path, size AND modification time all are.
pub proof fn lemma_keys_tell_files_apart(
    path: Seq<char>,
    size: u64,
    mtime: i128,
    other_path: Seq<char>,
    other_size: u64,
    other_mtime: i128,
)
    requires
        0 <= mtime <= i64::MAX,
        0 <= other_mtime <= i64::MAX,
        key_of(path, size, mtime) == key_of(other_path, other_size, other_mtime),
    ensures
        path == other_path,
        size == other_size,
        mtime == other_mtime,
{
    assert(size as i64 == other_size as i64 ==> size == other_size) by (bit_vector);
}

/// What to do about a failed attempt.
pub open spec fn retry_after(attempt: u32, kind: DbKind) -> Option<u64> {
    if attempt < 5 && (kind == DbKind::DatabaseBusy || kind == DbKind::DatabaseLocked) {
        Some((50 * (attempt + 1)) as u64)
    } else {
        None
    }
}

/// Bounded retry for lock contention beyond the busy timeout: a cache must
/// degrade to waiting, not to errors.
#[derive(Debug, Clone, Copy, PartialEq, Eq, Structural)]
pub struct BusyRetry {
    pub attempt: u32,
}

impl BusyRetry {
    pub fn new() -> (r: BusyRetry)
        ensures
            r.attempt == 0,
    {
        BusyRetry { attempt: 0 }
    }

    /// An attempt failed: the milliseconds to wait before the next, or
    /// `None` where the failure stands.
    pub fn failed(&mut self, kind: DbKind) -> (wait_ms: Option<u64>)
        ensures
            wait_ms == retry_after(old(self).attempt, kind),
            final(self).attempt == old(self).attempt + if wait_ms is Some {
                1int
            } else {
                0
            },
    {
        if self.attempt < BUSY_RETRIES && (kind == DbKind::DatabaseBusy || kind
            == DbKind::DatabaseLocked) {
            self.attempt = self.attempt + 1;
            Some(50 * self.attempt as u64)
        } else {
            None
        }
    }
}

/// Is another round of eviction due? `total` is the stored bytes, as the
/// database sums them.
pub fn over_cap(total: i64, cap_bytes: u64) -> (r: bool)
    requires
        total >= 0,
    ensures
        r == (total > cap_bytes),
{
    total as u64 > cap_bytes
}

// -------------------------------------------------------------------- laws
/// A busy or locked database is tried five times more, after 50 ms and then
/// 50 ms longer each time; nothing else is tried again.
pub proof fn lemma_retries(attempt: u32, kind: DbKind)
    ensures
        retry_after(attempt, kind) is Some <==> attempt <= 4 && (kind == DbKind::DatabaseBusy || kind
            == DbKind::DatabaseLocked),
        retry_after(attempt, kind) is Some ==> retry_after(attempt, kind)->0 == 50 + 50 * attempt,
{
}

/// A key holds the path, the size and the time as they are, wherever they fit
/// the database's integers.
pub proof fn lemma_key_holds_the_file(path: Seq<char>, size: u64, mtime: i128)
    requires
        size <= i64::MAX,
        0 <= mtime <= i64::MAX,
    ensures
        key_of(path, size, mtime).0 == path,
        key_of(path, size, mtime).1 == size,
        key_of(path, size, mtime).2 == mtime,
{
}

} // verus!
