//! The scanner's decisions: which entries of a directory walk become
//! records, what a record holds, how records are batched into commands, and
//! which root a path belongs to.

use crate::index::WriteCommand;
use crate::normalize::{is_mp4_path, is_tracked_path, normalize_for_search, normalized};
use crate::pathkey::{
    file_name_of, parent_of, path_file_name, path_parent, path_starts_with, path_under,
};
use crate::records::{FileRecord, WatchedRoot, UPSERT_BATCH_SIZE};
use vstd::prelude::*;
use vstd::utf8::encode_utf8;

verus! {

/// What the file system reports of a path.
#[derive(Clone, Copy, Debug)]
pub struct FileMeta {
    /// Whether the path is a regular file.
    pub is_file: bool,
    /// The size in bytes.
    pub len: u64,
    /// The time of the last modification in seconds since the epoch, if the
    /// platform reports one.
    pub modified: Option<i64>,
    /// The time of creation in seconds since the epoch, if the platform
    /// reports one.
    pub created: Option<i64>,
}

/// One entry of a directory walk.
#[derive(Clone, Debug)]
pub struct WalkEntry {
    /// The text of the entry's path.
    pub path: String,
    /// Whether the walk saw a regular file.
    pub is_file: bool,
    /// What the file system reports of the path; `None` if it could not be
    /// read.
    pub meta: Option<FileMeta>,
}

/// Whether a path with the metadata `meta` can be recorded: it is a regular
/// file and its path has a last component.
pub open spec fn recordable(path: Seq<char>, meta: FileMeta) -> bool {
    meta.is_file && file_name_of(path) is Some
}

/// Whether `rec` is the record of the path `path` with the metadata `meta`
/// under the root `root_id`, stamped with `marker`.
pub open spec fn describes(
    rec: FileRecord,
    root_id: i64,
    path: Seq<char>,
    meta: FileMeta,
    marker: i64,
) -> bool {
    &&& rec.path@ == path
    &&& rec.root_id == root_id
    &&& file_name_of(path) == Some(rec.file_name@)
    &&& rec.file_name_norm@ == normalized(rec.file_name@)
    &&& rec.parent_dir@ == match parent_of(path) {
        Some(p) => p,
        None => Seq::<char>::empty(),
    }
    &&& rec.size_bytes == meta.len as i64
    &&& rec.modified_time == match meta.modified {
        Some(t) => t,
        None => 0i64,
    }
    &&& rec.created_time == meta.created
    &&& rec.last_indexed_time == marker
}

/// Builds the record of a file from its path and metadata. There is none
/// for what is not a regular file, nor for a path without a last component.
pub fn build_record_from_path(root_id: i64, path: &str, meta: &FileMeta, marker: i64) -> (r:
    Option<FileRecord>)
    ensures
        r is Some <==> recordable(path@, *meta),
        r matches Some(rec) ==> describes(rec, root_id, path@, *meta, marker),
{
    if !meta.is_file {
        return None;
    }
    let file_name = match path_file_name(path) {
        Some(name) => name,
        None => {
            return None;
        },
    };
    let parent_dir = match path_parent(path) {
        Some(p) => p,
        None => String::new(),
    };
    let modified_time: i64 = match meta.modified {
        Some(t) => t,
        None => 0,
    };
    let file_name_norm = normalize_for_search(file_name.as_str());
    Some(
        FileRecord {
            path: path.to_owned(),
            root_id,
            file_name,
            file_name_norm,
            parent_dir,
            size_bytes: meta.len as i64,
            modified_time,
            created_time: meta.created,
            last_indexed_time: marker,
        },
    )
}

/// The length of a path's text in bytes, as a machine word.
pub open spec fn byte_len(p: Seq<char>) -> int {
    (encode_utf8(p).len() as usize) as int
}

/// Whether the root at position `i` is the owner of `path`: it contains the
/// path, no root has a longer path that contains it, and it is the first of
/// those with the longest.
pub open spec fn owns(roots: Seq<WatchedRoot>, i: int, path: Seq<char>) -> bool {
    &&& 0 <= i < roots.len()
    &&& path_under(path, roots[i].root_path@)
    &&& forall|j: int|
        0 <= j < roots.len() && path_under(path, (#[trigger] roots[j]).root_path@) ==> byte_len(
            roots[j].root_path@,
        ) <= byte_len(roots[i].root_path@)
    &&& forall|j: int|
        0 <= j < i && path_under(path, (#[trigger] roots[j]).root_path@) ==> byte_len(
            roots[j].root_path@,
        ) < byte_len(roots[i].root_path@)
}

/// Whether some root contains `path`.
pub open spec fn has_owner(roots: Seq<WatchedRoot>, path: Seq<char>) -> bool {
    exists|i: int| 0 <= i < roots.len() && path_under(path, (#[trigger] roots[i]).root_path@)
}

/// The root that a path belongs to: the root with the longest path that
/// contains it, the first of them if several are as long.
pub fn find_root_id_for_path(path: &str, roots: &Vec<WatchedRoot>) -> (r: Option<i64>)
    ensures
        r is Some <==> has_owner(roots@, path@),
        r matches Some(id) ==> exists|i: int| owns(roots@, i, path@) && roots[i].root_id == id,
{
    let mut best: Option<(usize, usize)> = None;
    let mut k: usize = 0;
    while k < roots.len()
        invariant
            k <= roots.len(),
            best is None ==> forall|j: int|
                0 <= j < k ==> !path_under(path@, (#[trigger] roots[j]).root_path@),
            best matches Some((len, at)) ==> {
                &&& at < k
                &&& len == byte_len(roots[at as int].root_path@)
                &&& path_under(path@, roots[at as int].root_path@)
                &&& forall|j: int|
                    0 <= j < k && path_under(path@, (#[trigger] roots[j]).root_path@) ==> byte_len(
                        roots[j].root_path@,
                    ) <= len
                &&& forall|j: int|
                    0 <= j < at && path_under(path@, (#[trigger] roots[j]).root_path@)
                        ==> byte_len(roots[j].root_path@) < len
            },
        decreases roots.len() - k,
    {
        if path_starts_with(path, roots[k].root_path.as_str()) {
            let len: usize = roots[k].root_path.as_str().len();
            match best {
                Some((best_len, _)) if best_len >= len => {},
                _ => {
                    best = Some((len, k));
                },
            }
        }
        k += 1;
    }
    match best {
        Some((_, at)) => {
            assert(owns(roots@, at as int, path@));
            Some(roots[at].root_id)
        },
        None => None,
    }
}

/// The records that a sequence of commands upserts, in order.
pub open spec fn upserted_records(cmds: Seq<WriteCommand>) -> Seq<FileRecord>
    decreases cmds.len(),
{
    if cmds.len() == 0 {
        Seq::empty()
    } else {
        upserted_records(cmds.drop_last()) + match cmds.last() {
            WriteCommand::UpsertFiles { files } => files@,
            _ => Seq::empty(),
        }
    }
}

/// Whether `cmds` are batches of upserts: each holds at least one record
/// and at most `UPSERT_BATCH_SIZE`, and each but the last is full.
pub open spec fn are_batches(cmds: Seq<WriteCommand>) -> bool {
    forall|c: int|
        0 <= c < cmds.len() ==> (#[trigger] cmds[c] matches WriteCommand::UpsertFiles { files }
            && 1 <= files@.len() <= UPSERT_BATCH_SIZE && (c < cmds.len() - 1 ==> files@.len()
            == UPSERT_BATCH_SIZE))
}

/// Hands the batch on as one upsert command and leaves it empty. An empty
/// batch gives no command.
pub fn flush_upsert_batch(batch: &mut Vec<FileRecord>, out: &mut Vec<WriteCommand>)
    ensures
        final(batch)@.len() == 0,
        old(batch)@.len() == 0 ==> final(out)@ == old(out)@,
        old(batch)@.len() > 0 ==> final(out)@.len() == old(out)@.len() + 1 && final(out)@.drop_last() == old(out)@ && (final(out)@.last() matches WriteCommand::UpsertFiles {
            files,
        } && files@ == old(batch)@),
{
    if batch.len() == 0 {
        return ;
    }
    let mut files: Vec<FileRecord> = Vec::new();
    core::mem::swap(batch, &mut files);
    out.push(WriteCommand::UpsertFiles { files });
    assert(out@.drop_last() =~= old(out)@);
}

/// Hands the batch on once it holds `UPSERT_BATCH_SIZE` records.
pub fn flush_upsert_batch_if_full(batch: &mut Vec<FileRecord>, out: &mut Vec<WriteCommand>)
    ensures
        old(batch)@.len() < UPSERT_BATCH_SIZE ==> final(batch)@ == old(batch)@ && final(out)@
            == old(out)@,
        old(batch)@.len() >= UPSERT_BATCH_SIZE ==> final(batch)@.len() == 0 && final(out)@.len()
            == old(out)@.len() + 1 && final(out)@.drop_last() == old(out)@ && (final(out)@.last() matches WriteCommand::UpsertFiles { files } && files@ == old(batch)@),
{
    if batch.len() < UPSERT_BATCH_SIZE {
        return ;
    }
    flush_upsert_batch(batch, out)
}

/// The root under which an entry is recorded: the given one, or else the
/// root that owns the entry's path.
pub open spec fn entry_has_root(e: WalkEntry, fixed: Option<i64>, roots: Seq<WatchedRoot>) -> bool {
    fixed is Some || has_owner(roots, e.path@)
}

/// Whether a walk entry becomes a record: the walk saw a regular file of the
/// tracked type, a root takes it, and its metadata could be read and is
/// that of a regular file.
pub open spec fn yields_record(e: WalkEntry, fixed: Option<i64>, roots: Seq<WatchedRoot>) -> bool {
    &&& e.is_file
    &&& is_tracked_path(e.path@)
    &&& entry_has_root(e, fixed, roots)
    &&& e.meta matches Some(m) && recordable(e.path@, m)
}

/// The entries that become records.
pub open spec fn yielding(fixed: Option<i64>, roots: Seq<WatchedRoot>) -> spec_fn(WalkEntry) -> bool {
    |e: WalkEntry| yields_record(e, fixed, roots)
}

/// Whether `rec` is the record of the entry `e`.
pub open spec fn records_entry(
    rec: FileRecord,
    e: WalkEntry,
    fixed: Option<i64>,
    roots: Seq<WatchedRoot>,
    marker: i64,
) -> bool {
    &&& e.meta matches Some(m) && describes(rec, rec.root_id, e.path@, m, marker)
    &&& match fixed {
        Some(id) => rec.root_id == id,
        None => exists|i: int| owns(roots, i, e.path@) && roots[i].root_id == rec.root_id,
    }
}

/// Whether `recs` are the records of the entries of `entries` that become
/// records, in the order of the walk.
pub open spec fn records_of_walk(
    recs: Seq<FileRecord>,
    entries: Seq<WalkEntry>,
    fixed: Option<i64>,
    roots: Seq<WatchedRoot>,
    marker: i64,
) -> bool {
    &&& recs.len() == entries.filter(yielding(fixed, roots)).len()
    &&& forall|k: int|
        0 <= k < recs.len() ==> records_entry(
            #[trigger] recs[k],
            entries.filter(yielding(fixed, roots))[k],
            fixed,
            roots,
            marker,
        )
}

/// Turns the entries of a walk into batches of upserts. With `fixed` every
/// record goes under that root; without it, under the root that owns its
/// path.
fn index_entries(
    entries: &Vec<WalkEntry>,
    fixed: Option<i64>,
    roots: &Vec<WatchedRoot>,
    marker: i64,
) -> (out: Vec<WriteCommand>)
    ensures
        are_batches(out@),
        records_of_walk(upserted_records(out@), entries@, fixed, roots@, marker),
{
    let mut out: Vec<WriteCommand> = Vec::new();
    let mut batch: Vec<FileRecord> = Vec::new();
    let ghost keep = yielding(fixed, roots@);
    let mut i: usize = 0;
    assert(entries@.take(0).filter(keep) =~= Seq::<WalkEntry>::empty()) by {
        reveal(Seq::filter);
    }
    while i < entries.len()
        invariant
            i <= entries.len(),
            keep == yielding(fixed, roots@),
            batch@.len() < UPSERT_BATCH_SIZE,
            forall|c: int|
                0 <= c < out@.len() ==> (#[trigger] out@[c] matches WriteCommand::UpsertFiles {
                    files,
                } && files@.len() == UPSERT_BATCH_SIZE),
            (upserted_records(out@) + batch@).len() == entries@.take(i as int).filter(keep).len(),
            forall|k: int|
                0 <= k < (upserted_records(out@) + batch@).len() ==> records_entry(
                    #[trigger] (upserted_records(out@) + batch@)[k],
                    entries@.take(i as int).filter(keep)[k],
                    fixed,
                    roots@,
                    marker,
                ),
        decreases entries.len() - i,
    {
        let e = &entries[i];
        let ghost done = upserted_records(out@) + batch@;
        let ghost seen = entries@.take(i as int).filter(keep);
        proof {
            entries@.take(i as int).lemma_filter_push(*e, keep);
            assert(entries@.take(i + 1) =~= entries@.take(i as int).push(*e));
        }
        let mut added = false;
        if e.is_file && is_mp4_path(e.path.as_str()) {
            let root = match fixed {
                Some(id) => Some(id),
                None => find_root_id_for_path(e.path.as_str(), roots),
            };
            if let Some(root_id) = root {
                if let Some(meta) = &e.meta {
                    if let Some(record) = build_record_from_path(
                        root_id,
                        e.path.as_str(),
                        meta,
                        marker,
                    ) {
                        assert(records_entry(record, *e, fixed, roots@, marker));
                        batch.push(record);
                        added = true;
                    }
                }
            }
        }
        proof {
            let now = upserted_records(out@) + batch@;
            if added {
                assert(keep(*e));
                assert(now =~= done.push(batch@.last()));
                assert forall|k: int| 0 <= k < now.len() implies records_entry(
                    #[trigger] now[k],
                    entries@.take(i + 1).filter(keep)[k],
                    fixed,
                    roots@,
                    marker,
                ) by {
                    if k < done.len() {
                        assert(now[k] == done[k]);
                        assert(entries@.take(i + 1).filter(keep)[k] == seen[k]);
                    }
                }
            } else {
                assert(!keep(*e));
                assert(now =~= done);
            }
        }
        let ghost before_out = out@;
        let ghost before_batch = batch@;
        flush_upsert_batch_if_full(&mut batch, &mut out);
        proof {
            if before_batch.len() >= UPSERT_BATCH_SIZE {
                assert(out@.drop_last() == before_out);
                assert(upserted_records(out@) == upserted_records(before_out) + before_batch);
                assert(upserted_records(out@) + batch@ =~= upserted_records(before_out)
                    + before_batch);
                assert forall|c: int| 0 <= c < out@.len() implies (
                #[trigger] out@[c] matches WriteCommand::UpsertFiles { files } && files@.len()
                    == UPSERT_BATCH_SIZE) by {
                    if c < before_out.len() {
                        assert(out@[c] == before_out[c]);
                    }
                }
            }
        }
        i += 1;
    }
    assert(entries@.take(entries.len() as int) =~= entries@);
    let ghost before_out = out@;
    let ghost before_batch = batch@;
    flush_upsert_batch(&mut batch, &mut out);
    proof {
        if before_batch.len() > 0 {
            assert(out@.drop_last() == before_out);
            assert(upserted_records(out@) == upserted_records(before_out) + before_batch);
            assert forall|c: int| 0 <= c < out@.len() implies (
            #[trigger] out@[c] matches WriteCommand::UpsertFiles { files } && 1 <= files@.len()
                <= UPSERT_BATCH_SIZE && (c < out@.len() - 1 ==> files@.len()
                == UPSERT_BATCH_SIZE)) by {
                if c < before_out.len() {
                    assert(out@[c] == before_out[c]);
                }
            }
        } else {
            assert(upserted_records(out@) + before_batch =~= upserted_records(out@));
        }
    }
    out
}

/// Whether `cmds` are the commands of a full scan of the root `root_id`:
/// batches of upserts with the records of the walk, then the command that
/// ends the scan.
pub open spec fn is_full_scan(
    cmds: Seq<WriteCommand>,
    root_id: i64,
    entries: Seq<WalkEntry>,
    marker: i64,
    finished_at: i64,
) -> bool {
    &&& cmds.len() >= 1
    &&& cmds.last() matches WriteCommand::FinalizeScan { root_id: id, marker: m, finished_at: t }
        && id == root_id && m == marker && t == finished_at
    &&& are_batches(cmds.drop_last())
    &&& records_of_walk(
        upserted_records(cmds.drop_last()),
        entries,
        Some(root_id),
        Seq::empty(),
        marker,
    )
}

/// The commands of a full scan of a root. A root that is not on disk gives
/// no command at all. Otherwise every regular file of the tracked type that
/// the walk found is recorded with the marker, in batches, and a last
/// command ends the scan.
pub fn scan_root(
    root_id: i64,
    root_exists: bool,
    entries: &Vec<WalkEntry>,
    marker: i64,
    finished_at: i64,
) -> (cmds: Vec<WriteCommand>)
    ensures
        !root_exists ==> cmds@.len() == 0,
        root_exists ==> is_full_scan(cmds@, root_id, entries@, marker, finished_at),
{
    if !root_exists {
        return Vec::new();
    }
    let none: Vec<WatchedRoot> = Vec::new();
    let mut cmds = index_entries(entries, Some(root_id), &none, marker);
    let ghost batches = cmds@;
    cmds.push(WriteCommand::FinalizeScan { root_id, marker, finished_at });
    assert(cmds@.drop_last() =~= batches);
    cmds
}

/// The commands that index what lies under a directory that appeared: every
/// regular file of the tracked type that the walk found and that a root
/// owns is recorded with the marker, in batches.
pub fn upsert_directory(entries: &Vec<WalkEntry>, roots: &Vec<WatchedRoot>, marker: i64) -> (cmds:
    Vec<WriteCommand>)
    ensures
        are_batches(cmds@),
        records_of_walk(upserted_records(cmds@), entries@, None, roots@, marker),
{
    index_entries(entries, None, roots, marker)
}

} // verus!
