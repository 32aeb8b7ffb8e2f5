//! The SQLite cache's schema. The cache is not the source of truth: `files`
//! is a path index of the collection and `meta` holds libopenmpt-parsed
//! enrichment keyed by content hash, so both can be rebuilt from the
//! filesystem and losing the database only costs a rescan. The connection
//! itself lives in the application.

use vstd::prelude::*;

verus! {

/// Informational schema marker, written to `user_version`. Migrations don't
/// gate on it: the schema is declarative and idempotent and runs every boot.
pub const SCHEMA_VERSION: i64 = 1;

/// The declarative schema. `files` rows persist between scans so a cached
/// content hash can be reused when (size, mtime) are unchanged; `grp` (not
/// `group`, a SQL keyword) is the first path segment under the root. `meta`
/// is keyed by content hash so it survives a file being moved or renamed.
pub const SCHEMA: &'static str = "
CREATE TABLE IF NOT EXISTS files (
  rel_path     TEXT PRIMARY KEY,
  grp          TEXT NOT NULL,
  artist       TEXT,
  filename     TEXT NOT NULL,
  ext          TEXT NOT NULL,
  size         INTEGER NOT NULL,
  mtime        INTEGER NOT NULL,
  content_hash TEXT NOT NULL
);
CREATE INDEX IF NOT EXISTS idx_files_hash ON files(content_hash);
CREATE INDEX IF NOT EXISTS idx_files_grp ON files(grp);

CREATE TABLE IF NOT EXISTS meta (
  content_hash TEXT PRIMARY KEY,
  title        TEXT,
  type_long    TEXT,
  tracker      TEXT,
  duration     REAL,
  channels     INTEGER,
  instruments  INTEGER,
  samples      INTEGER,
  n_orders     INTEGER,
  n_patterns   INTEGER,
  updated_at   TEXT NOT NULL
);
";

/// The declarative schema, for callers that hold a raw connection (the
/// scanner's tests, the server's migration).
pub fn schema_sql() -> (res: &'static str)
    ensures
        res@ == SCHEMA@,
{
    SCHEMA
}

/// Whether the server scans on boot: only when the index is empty (or its
/// row count could not be read). A normal restart serves the persisted index
/// at once; a rescan is asked for explicitly.
pub fn needs_initial_scan(track_count: Option<i64>) -> (res: bool)
    ensures
        res == (match track_count {
            Some(n) => n == 0,
            None => true,
        }),
{
    match track_count {
        Some(n) => n == 0,
        None => true,
    }
}

} // verus!
