//! The records of the index and the values that cross its interface.

use vstd::prelude::*;

verus! {

/// The schema version that this implementation understands.
pub const DB_SCHEMA_VERSION: i32 = 1;

/// The quiet period, in milliseconds, after which pending changes are applied.
pub const DEBOUNCE_WINDOW_MILLIS: u64 = 700;

/// The number of records after which a batch of upserts is handed on.
pub const UPSERT_BATCH_SIZE: usize = 256;

/// The largest number of hits that one search returns.
pub const MAX_SEARCH_LIMIT: usize = 1000;

/// Why an operation of the engine failed.
#[derive(Debug)]
pub enum EngineError {
    /// A requested root does not exist or is not a directory.
    Validation { path: String },
    /// The store refused a change.
    Storage { reason: String },
    /// A background worker is gone, so a command or reply cannot be delivered.
    Channel,
    /// The stored schema is newer than this implementation supports.
    SchemaTooNew { found: i32, supported: i32 },
}

pub type EngineResult<T> = Result<T, EngineError>;

/// The order in which hits of equal standing are returned.
#[derive(Clone, Copy, Debug, Default)]
pub enum SearchSort {
    /// Newest modification first, then by normalised name.
    #[default]
    ModifiedDesc,
    /// By normalised name, then newest modification first.
    NameAsc,
}

/// A search: free text, filters, a limit and a sort mode.
#[derive(Clone, Debug)]
pub struct SearchRequest {
    pub query: String,
    pub root_id: Option<i64>,
    pub root_path: Option<String>,
    pub parent_dir: Option<String>,
    pub modified_after: Option<i64>,
    pub modified_before: Option<i64>,
    pub size_min: Option<i64>,
    pub size_max: Option<i64>,
    pub limit: usize,
    pub sort: SearchSort,
}

impl Default for SearchRequest {
    fn default() -> (r: Self)
        ensures
            r.query@.len() == 0,
            r.root_id is None,
            r.root_path is None,
            r.parent_dir is None,
            r.modified_after is None,
            r.modified_before is None,
            r.size_min is None,
            r.size_max is None,
            r.limit == 100,
            r.sort is ModifiedDesc,
    {
        Self {
            query: String::new(),
            root_id: None,
            root_path: None,
            parent_dir: None,
            modified_after: None,
            modified_before: None,
            size_min: None,
            size_max: None,
            limit: 100,
            sort: SearchSort::ModifiedDesc,
        }
    }
}

/// One result of a search.
#[derive(Clone, Debug)]
pub struct SearchHit {
    pub path: String,
    pub file_name: String,
    pub size_bytes: i64,
    pub modified_time: i64,
    pub root_id: i64,
    pub parent_dir: String,
}

/// A watched top-level directory.
#[derive(Clone, Debug)]
pub struct RootEntry {
    pub root_id: i64,
    pub root_path: String,
    pub is_enabled: bool,
    pub last_scan_time: Option<i64>,
}

/// One indexed media file.
#[derive(Clone, Debug)]
pub struct FileRecord {
    pub path: String,
    pub root_id: i64,
    pub file_name: String,
    pub file_name_norm: String,
    pub parent_dir: String,
    pub size_bytes: i64,
    pub modified_time: i64,
    pub created_time: Option<i64>,
    pub last_indexed_time: i64,
}

/// An enabled root as the scanner and the watcher see it.
#[derive(Clone, Debug)]
pub struct WatchedRoot {
    pub root_id: i64,
    pub root_path: String,
}

/// A copy of a root entry.
pub fn clone_root(r: &RootEntry) -> (c: RootEntry)
    ensures
        c == *r,
{
    RootEntry {
        root_id: r.root_id,
        root_path: r.root_path.clone(),
        is_enabled: r.is_enabled,
        last_scan_time: r.last_scan_time,
    }
}

/// A copy of a file record.
pub fn clone_record(f: &FileRecord) -> (c: FileRecord)
    ensures
        c == *f,
{
    FileRecord {
        path: f.path.clone(),
        root_id: f.root_id,
        file_name: f.file_name.clone(),
        file_name_norm: f.file_name_norm.clone(),
        parent_dir: f.parent_dir.clone(),
        size_bytes: f.size_bytes,
        modified_time: f.modified_time,
        created_time: f.created_time,
        last_indexed_time: f.last_indexed_time,
    }
}

/// The hit that reports a file record.
pub open spec fn hit_of(f: FileRecord) -> SearchHit {
    SearchHit {
        path: f.path,
        file_name: f.file_name,
        size_bytes: f.size_bytes,
        modified_time: f.modified_time,
        root_id: f.root_id,
        parent_dir: f.parent_dir,
    }
}

/// The hit that reports `f`.
pub fn make_hit(f: &FileRecord) -> (h: SearchHit)
    ensures
        h == hit_of(*f),
{
    SearchHit {
        path: f.path.clone(),
        file_name: f.file_name.clone(),
        size_bytes: f.size_bytes,
        modified_time: f.modified_time,
        root_id: f.root_id,
        parent_dir: f.parent_dir.clone(),
    }
}

} // verus!
