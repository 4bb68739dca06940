//! The disk tier of the cache: one embedded row store keyed by canonical
//! root path, size-bounded and age-bounded. What SQLite does with each
//! statement cannot be seen from here, so every statement sits behind a
//! thin trusted call; the decisions around them — when a row is still
//! valid, how many rows to evict, which rows have aged out — are verified
//! with exact contracts, and the stored bytes go through the verified
//! codec.
use vstd::prelude::*;

verus! {

use crate::codec::{decode_scan_result, encode_scan_result};
use crate::item::ScanResult;
use crate::pathutil::chars_of;
use crate::pathutil::string_of;
use rusqlite::OptionalExtension;

/// Seconds after which an untouched row ages out: seven days.
pub const TTL_SECONDS: i64 = 604800;

/// The default size bound of the disk tier, in mebibytes.
pub const DEFAULT_MAX_SIZE_MB: usize = 500;

#[verifier::external_type_specification]
#[verifier::external_body]
pub struct ExConnection(rusqlite::Connection);

/// Relies on `rusqlite::Connection::open`: opens or creates the
/// database file at `path`.
#[verifier::external_body]
fn db_open(path: &String) -> Option<rusqlite::Connection> {
    rusqlite::Connection::open(path.as_str()).ok()
}

/// Relies on `rusqlite::Connection::open_in_memory`: a private,
/// non-persistent database, as throwaway engines use.
#[verifier::external_body]
fn db_open_in_memory() -> Option<rusqlite::Connection> {
    rusqlite::Connection::open_in_memory().ok()
}

/// Relies on `rusqlite::Connection::execute` to create the cache table
/// if it is missing.
#[verifier::external_body]
fn db_create_table(conn: &rusqlite::Connection) -> bool {
    conn.execute(
        "CREATE TABLE IF NOT EXISTS scan_cache (
            path TEXT PRIMARY KEY,
            data BLOB NOT NULL,
            dir_mtime INTEGER NOT NULL,
            created_at INTEGER NOT NULL,
            size INTEGER NOT NULL,
            item_count INTEGER NOT NULL
        )",
        [],
    ).is_ok()
}

/// Relies on `rusqlite::Connection::execute` to index rows by age.
#[verifier::external_body]
fn db_create_index(conn: &rusqlite::Connection) -> bool {
    conn.execute("CREATE INDEX IF NOT EXISTS idx_created_at ON scan_cache(created_at)", []).is_ok()
}

/// Relies on `rusqlite::Connection::query_row`: the stored bytes and
/// recorded root modification time for one path, if a row exists.
#[verifier::external_body]
fn db_get_row(conn: &rusqlite::Connection, path: &String) -> Option<(Vec<u8>, i64)> {
    conn.query_row(
        "SELECT data, dir_mtime FROM scan_cache WHERE path = ?1",
        [path.as_str()],
        |row| Ok((row.get::<_, Vec<u8>>(0)?, row.get::<_, i64>(1)?)),
    ).optional().ok().flatten()
}

/// Relies on `rusqlite::Connection::execute`: stamps a row's
/// `created_at`, the recency witness of the disk tier.
#[verifier::external_body]
fn db_touch_row(conn: &rusqlite::Connection, path: &String, now: i64) -> bool {
    conn.execute(
        "UPDATE scan_cache SET created_at = ?1 WHERE path = ?2",
        (now, path.as_str()),
    ).is_ok()
}

/// Relies on `rusqlite::Connection::execute`: inserts or replaces the
/// row for one path.
#[verifier::external_body]
fn db_upsert_row(
    conn: &rusqlite::Connection,
    path: &String,
    data: &Vec<u8>,
    dir_mtime: i64,
    created_at: i64,
    size: i64,
    item_count: i64,
) -> bool {
    conn.execute(
        "INSERT OR REPLACE INTO scan_cache (path, data, dir_mtime, created_at, size, item_count)
         VALUES (?1, ?2, ?3, ?4, ?5, ?6)",
        (path.as_str(), data, dir_mtime, created_at, size, item_count),
    ).is_ok()
}

/// Relies on `rusqlite::Connection::execute`: deletes every row older
/// than the cutoff.
#[verifier::external_body]
fn db_delete_older_than(conn: &rusqlite::Connection, cutoff: i64) -> bool {
    conn.execute("DELETE FROM scan_cache WHERE created_at < ?1", (cutoff,)).is_ok()
}

/// Relies on `rusqlite::Connection::execute`: deletes the `limit`
/// oldest rows by `created_at`.
#[verifier::external_body]
fn db_delete_oldest(conn: &rusqlite::Connection, limit: i64) -> bool {
    conn.execute(
        "DELETE FROM scan_cache WHERE path IN (
            SELECT path FROM scan_cache ORDER BY created_at ASC LIMIT ?1
        )",
        (limit,)
    ).is_ok()
}

/// Relies on `rusqlite::Connection::execute`: removes every row.
#[verifier::external_body]
fn db_delete_all(conn: &rusqlite::Connection) -> bool {
    conn.execute("DELETE FROM scan_cache", []).is_ok()
}

/// Relies on `rusqlite::Connection::query_row`: how many rows the store
/// holds and their summed stored size.
#[verifier::external_body]
fn db_count_and_size(conn: &rusqlite::Connection) -> (i64, i64) {
    conn.query_row(
        "SELECT COUNT(*), COALESCE(SUM(size), 0) FROM scan_cache",
        [],
        |row| Ok((row.get(0)?, row.get(1)?)),
    ).unwrap_or((0, 0))
}

/// Relies on `rusqlite::Connection::query_row`: the oldest row's
/// `created_at`, if any row exists.
#[verifier::external_body]
fn db_oldest_created(conn: &rusqlite::Connection) -> Option<i64> {
    conn.query_row("SELECT MIN(created_at) FROM scan_cache", [], |row| row.get(0))
        .optional()
        .ok()
        .flatten()
}

/// Relies on `rusqlite::Connection::execute`: deletes the row for
/// `path` and every row matching the LIKE pattern, with `!` as the
/// pattern's escape character.
#[verifier::external_body]
fn db_delete_prefixed(conn: &rusqlite::Connection, path: &String, pattern: &String) -> bool {
    conn.execute(
        "DELETE FROM scan_cache WHERE path = ?1 OR path LIKE ?2 ESCAPE '!'",
        (path.as_str(), pattern.as_str()),
    ).is_ok()
}

/// A string as a literal LIKE fragment: each `%`, `_` or `!` is
/// preceded by the `!` escape character.
pub open spec fn like_escape(s: Seq<char>) -> Seq<char>
    decreases s.len(),
{
    if s.len() == 0 {
        Seq::empty()
    } else {
        like_escape(s.drop_last()) + (if s.last() == '%' || s.last() == '_' || s.last() == '!' {
            seq!['!', s.last()]
        } else {
            seq![s.last()]
        })
    }
}

/// A disk row answers for a probed root exactly when the modification
/// time it recorded is at least the probed one.
pub fn disk_hit_valid(cached_mtime: i64, probed_mtime: i64) -> (r: bool)
    ensures
        r == (cached_mtime >= probed_mtime),
{
    cached_mtime >= probed_mtime
}

/// How many rows an over-full store sheds: the overshoot plus a
/// quarter of the bound, in mebibytes rounded up, and at least one row.
pub open spec fn spec_rows_to_evict(current_total: int, new_size: int, max_bytes: int) -> int {
    let excess = current_total + new_size - max_bytes + max_bytes / 4;
    if excess <= 0 {
        1
    } else {
        (excess + 1048575) / 1048576
    }
}

/// The row budget the eviction pass deletes, computed without overflow.
pub fn rows_to_evict(current_total: i64, new_size: i64, max_bytes: i64) -> (r: i64)
    requires
        0 <= current_total,
        0 <= new_size,
        0 <= max_bytes,
    ensures
        r == spec_rows_to_evict(current_total as int, new_size as int, max_bytes as int),
{
    let excess: i128 = current_total as i128 + new_size as i128 - max_bytes as i128 + (max_bytes
        / 4) as i128;
    if excess <= 0 {
        1
    } else {
        ((excess + 1048575) / 1048576) as i64
    }
}

/// True when writing `new_size` more bytes would push the store over
/// its bound.
pub fn needs_cleanup(current_total: i64, new_size: i64, max_bytes: i64) -> (r: bool)
    requires
        0 <= current_total,
        0 <= new_size,
    ensures
        r == (current_total + new_size > max_bytes),
{
    let sum: i128 = current_total as i128 + new_size as i128;
    sum > max_bytes as i128
}

/// The age cutoff: rows last touched before `now` minus the time to
/// live have expired.
pub fn ttl_cutoff(now: i64) -> (r: i64)
    ensures
        r == (if now as int - TTL_SECONDS >= i64::MIN {
            now as int - TTL_SECONDS
        } else {
            i64::MIN as int
        }),
{
    if now >= i64::MIN + TTL_SECONDS {
        now - TTL_SECONDS
    } else {
        i64::MIN
    }
}

/// Statistics of the disk tier.
pub struct CacheStats {
    pub entry_count: usize,
    pub total_size_bytes: u64,
    pub total_size_mb: u64,
    pub max_size_mb: usize,
    pub oldest_entry_timestamp: Option<i64>,
}

/// The disk cache: one SQLite database of encoded scan results.
pub struct DiskCache {
    conn: rusqlite::Connection,
    max_size_mb: usize,
}

impl DiskCache {
    pub closed spec fn spec_max_size_mb(&self) -> usize {
        self.max_size_mb
    }

    /// Opens (or creates) the store at `path` and drops rows that aged
    /// out. `now` is the current epoch second.
    pub fn new(path: &String, now: i64) -> (r: Option<DiskCache>)
        ensures
            r matches Some(c) ==> c.spec_max_size_mb() == DEFAULT_MAX_SIZE_MB,
    {
        let conn = match db_open(path) {
            Some(c) => c,
            None => {
                return None;
            },
        };
        if !db_create_table(&conn) {
            return None;
        }
        db_create_index(&conn);
        let cache = DiskCache { conn, max_size_mb: DEFAULT_MAX_SIZE_MB };
        cache.cleanup_old_entries(now);
        Some(cache)
    }

    /// A throwaway in-memory store, for engines built in tests.
    pub fn open_in_memory() -> (r: Option<DiskCache>)
        ensures
            r matches Some(c) ==> c.spec_max_size_mb() == DEFAULT_MAX_SIZE_MB,
    {
        let conn = match db_open_in_memory() {
            Some(c) => c,
            None => {
                return None;
            },
        };
        if !db_create_table(&conn) {
            return None;
        }
        db_create_index(&conn);
        Some(DiskCache { conn, max_size_mb: DEFAULT_MAX_SIZE_MB })
    }

    /// Looks a root up. Whatever row the store returned, the answer is
    /// accepted only if its recorded modification time is at least the
    /// probed one, and the returned result decodes from the stored
    /// bytes; a hit refreshes the row's age stamp.
    pub fn get(&self, path: &String, dir_mtime: i64, now: i64) -> (r: Option<ScanResult>)
        ensures
            r matches Some(res) ==> res.perf_metrics is None,
    {
        match db_get_row(&self.conn, path) {
            Some((data, cached_mtime)) => {
                if disk_hit_valid(cached_mtime, dir_mtime) {
                    db_touch_row(&self.conn, path, now);
                    decode_scan_result(&data)
                } else {
                    None
                }
            },
            None => None,
        }
    }

    /// Writes a result's encoding under its root path, shedding the
    /// oldest rows first when the store would overflow. The write is
    /// advisory: a `false` return leaves the scan unaffected. What is
    /// handed to the store is pinned by the codec: the row's bytes are
    /// `enc_result` of the given result, its size that encoding's
    /// length, its count the item count; a row too large for the
    /// store's integer columns is refused outright.
    pub fn insert(&self, path: &String, result: &ScanResult, dir_mtime: i64, now: i64) -> (ok:
        bool)
        ensures
            ok ==> crate::codec::enc_result(*result).len() <= i64::MAX && result.items@.len()
                <= i64::MAX,
            (crate::codec::enc_result(*result).len() > i64::MAX || result.items@.len()
                > i64::MAX) ==> !ok,
    {
        let data = encode_scan_result(result);
        if data.len() > i64::MAX as usize || result.items.len() > i64::MAX as usize {
            return false;
        }
        let size = data.len() as i64;
        let item_count = result.items.len() as i64;
        self.maybe_cleanup(size);
        db_upsert_row(&self.conn, path, &data, dir_mtime, now, size, item_count)
    }

    /// Re-derives the stored total and sheds the oldest rows when the
    /// new row would push it over the bound.
    fn maybe_cleanup(&self, new_size: i64)
        requires
            0 <= new_size,
    {
        let (_, total) = db_count_and_size(&self.conn);
        let total = if total < 0 {
            0
        } else {
            total
        };
        proof {
            assert((self.max_size_mb as u128) * 1048576 < u128::MAX) by (nonlinear_arith)
                requires
                    self.max_size_mb as u128 <= u64::MAX as u128,
            ;
        }
        let max_bytes_wide: u128 = (self.max_size_mb as u128) * 1048576;
        let max_bytes: i64 = if max_bytes_wide > i64::MAX as u128 {
            i64::MAX
        } else {
            max_bytes_wide as i64
        };
        if needs_cleanup(total, new_size, max_bytes) {
            let limit = rows_to_evict(total, new_size, max_bytes);
            db_delete_oldest(&self.conn, limit);
        }
    }

    /// Drops rows whose age stamp lies before the cutoff.
    pub fn cleanup_old_entries(&self, now: i64) -> (ok: bool) {
        db_delete_older_than(&self.conn, ttl_cutoff(now))
    }

    /// Removes every row.
    pub fn clear(&self) -> (ok: bool) {
        db_delete_all(&self.conn)
    }

    /// The store's statistics; the mebibyte figure is the byte total
    /// divided down.
    pub fn get_stats(&self) -> (r: CacheStats)
        ensures
            r.max_size_mb == self.spec_max_size_mb(),
            r.total_size_mb == r.total_size_bytes / 1048576,
    {
        let (count, total) = db_count_and_size(&self.conn);
        let count_u: usize = if count < 0 {
            0
        } else if count as u64 > usize::MAX as u64 {
            usize::MAX
        } else {
            count as usize
        };
        let total_u: u64 = if total < 0 {
            0
        } else {
            total as u64
        };
        CacheStats {
            entry_count: count_u,
            total_size_bytes: total_u,
            total_size_mb: total_u / 1048576,
            max_size_mb: self.max_size_mb,
            oldest_entry_timestamp: db_oldest_created(&self.conn),
        }
    }

    /// Removes the row for `path` and, through a LIKE pattern built
    /// from it, every row whose path starts with it. The pattern
    /// escapes the LIKE wildcards, so a key containing `%` or `_`
    /// matches only as a plain string prefix.
    pub fn invalidate(&self, path: &String) -> (ok: bool) {
        let cs = chars_of(path.as_str());
        let mut pattern: Vec<char> = Vec::new();
        let mut i: usize = 0;
        while i < cs.len()
            invariant
                cs@ == path@,
                i <= cs.len(),
                pattern@ == like_escape(path@.subrange(0, i as int)),
            decreases cs.len() - i,
        {
            proof {
                assert(path@.subrange(0, i + 1).drop_last() =~= path@.subrange(0, i as int));
                assert(path@.subrange(0, i + 1).last() == path@[i as int]);
            }
            let c = cs[i];
            if c == '%' || c == '_' || c == '!' {
                pattern.push('!');
            }
            pattern.push(c);
            proof {
                assert(pattern@ =~= like_escape(path@.subrange(0, i + 1)));
            }
            i = i + 1;
        }
        pattern.push('%');
        let pattern_str = string_of(&pattern);
        proof {
            assert(path@.subrange(0, path@.len() as int) =~= path@);
            assert(pattern_str@ == like_escape(path@) + seq!['%']);
        }
        db_delete_prefixed(&self.conn, path, &pattern_str)
    }
}

} // verus!
