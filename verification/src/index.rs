//! The index itself: the roots and the files that it holds, and the meaning
//! of each mutation. Every change of the index is one `WriteCommand`; a
//! command either applies as a whole or leaves the index as it was.

use crate::records::{EngineError, EngineResult, FileRecord, RootEntry};
use crate::normalize::{normalize_for_search, normalized};
use crate::pathkey::is_path_separator;
use crate::text::{chars_of, has_prefix, starts_with};
use vstd::prelude::*;

verus! {

/// What an index holds.
pub struct IndexView {
    /// The roots, in the order in which they were added.
    pub roots: Seq<RootEntry>,
    /// The files, in the order in which their paths were first indexed.
    pub files: Seq<FileRecord>,
    /// The largest root id handed out so far; 0 before the first.
    pub last_root_id: int,
}

/// Whether `roots` holds a root with the id `id`.
pub open spec fn has_root_id(roots: Seq<RootEntry>, id: i64) -> bool {
    exists|i: int| 0 <= i < roots.len() && (#[trigger] roots[i]).root_id == id
}

/// Whether `roots` holds a root with the path `p`.
pub open spec fn has_root_path(roots: Seq<RootEntry>, p: Seq<char>) -> bool {
    exists|i: int| 0 <= i < roots.len() && (#[trigger] roots[i]).root_path@ == p
}

/// The position in `roots` of the root with the path `p`.
pub open spec fn root_position(roots: Seq<RootEntry>, p: Seq<char>) -> int {
    choose|i: int| 0 <= i < roots.len() && (#[trigger] roots[i]).root_path@ == p
}

/// Whether `files` holds a record for the path `p`.
pub open spec fn has_path(files: Seq<FileRecord>, p: Seq<char>) -> bool {
    exists|i: int| 0 <= i < files.len() && (#[trigger] files[i]).path@ == p
}

/// The position in `files` of the record for the path `p`.
pub open spec fn path_position(files: Seq<FileRecord>, p: Seq<char>) -> int {
    choose|i: int| 0 <= i < files.len() && (#[trigger] files[i]).path@ == p
}

/// No two records of `files` have the same path.
pub open spec fn distinct_paths(files: Seq<FileRecord>) -> bool {
    forall|i: int, j: int|
        0 <= i < j < files.len() ==> (#[trigger] files[i]).path@ != (#[trigger] files[j]).path@
}

/// No two roots have the same id, nor the same path.
pub open spec fn distinct_roots(roots: Seq<RootEntry>) -> bool {
    forall|i: int, j: int|
        0 <= i < j < roots.len() ==> (#[trigger] roots[i]).root_id != (#[trigger] roots[j]).root_id
            && roots[i].root_path@ != roots[j].root_path@
}

/// The normalised name of every record of `files` is the normalised form of
/// its name.
pub open spec fn names_normalised(files: Seq<FileRecord>) -> bool {
    forall|i: int|
        0 <= i < files.len() ==> (#[trigger] files[i]).file_name_norm@ == normalized(
            files[i].file_name@,
        )
}

/// Every record of `files` belongs to a root of `roots`.
pub open spec fn files_have_roots(files: Seq<FileRecord>, roots: Seq<RootEntry>) -> bool {
    forall|i: int| 0 <= i < files.len() ==> has_root_id(roots, (#[trigger] files[i]).root_id)
}

impl IndexView {
    /// The invariant of the index: root paths and root ids are unique, every
    /// id was handed out, file paths are unique, every file belongs to a
    /// root that is there, and every file is found under the normalised form
    /// of its name.
    pub open spec fn wf(self) -> bool {
        &&& 0 <= self.last_root_id <= i64::MAX
        &&& forall|i: int|
            0 <= i < self.roots.len() ==> 1 <= (#[trigger] self.roots[i]).root_id
                <= self.last_root_id
        &&& distinct_roots(self.roots)
        &&& distinct_paths(self.files)
        &&& files_have_roots(self.files, self.roots)
        &&& names_normalised(self.files)
    }
}

/// The root `r`, enabled.
pub open spec fn enabled(r: RootEntry) -> RootEntry {
    RootEntry {
        root_id: r.root_id,
        root_path: r.root_path,
        is_enabled: true,
        last_scan_time: r.last_scan_time,
    }
}

/// A root that was just added under the id `id`.
pub open spec fn fresh_root(id: i64, path: String) -> RootEntry {
    RootEntry { root_id: id, root_path: path, is_enabled: true, last_scan_time: None }
}

/// The root `r` after a scan of the root `id` that finished at `finished_at`.
pub open spec fn scanned(r: RootEntry, id: i64, finished_at: i64) -> RootEntry {
    if r.root_id == id {
        RootEntry {
            root_id: r.root_id,
            root_path: r.root_path,
            is_enabled: r.is_enabled,
            last_scan_time: Some(finished_at),
        }
    } else {
        r
    }
}

/// The roots other than the root `id`.
pub open spec fn other_root(id: i64) -> spec_fn(RootEntry) -> bool {
    |r: RootEntry| r.root_id != id
}

/// The files of roots other than the root `id`.
pub open spec fn outside_root(id: i64) -> spec_fn(FileRecord) -> bool {
    |f: FileRecord| f.root_id != id
}

/// Whether `p` is one of `paths`.
pub open spec fn listed(paths: Seq<String>, p: Seq<char>) -> bool {
    exists|i: int| 0 <= i < paths.len() && (#[trigger] paths[i])@ == p
}

/// The files whose path is none of `paths`.
pub open spec fn not_listed(paths: Seq<String>) -> spec_fn(FileRecord) -> bool {
    |f: FileRecord| !listed(paths, f.path@)
}

/// Whether `path` lies below `prefix`: it starts with the prefix, followed
/// by a separator of path components.
pub open spec fn lies_under(path: Seq<char>, prefix: Seq<char>) -> bool {
    prefix.len() < path.len() && has_prefix(path, prefix) && is_path_separator(
        path[prefix.len() as int],
    )
}

/// Whether `path` is `prefix` itself or lies below it.
pub open spec fn at_or_under(path: Seq<char>, prefix: Seq<char>) -> bool {
    path == prefix || lies_under(path, prefix)
}

/// Whether `p` is at or under one of `prefixes`.
pub open spec fn under_any(prefixes: Seq<String>, p: Seq<char>) -> bool {
    exists|i: int| 0 <= i < prefixes.len() && at_or_under(p, (#[trigger] prefixes[i])@)
}

/// The files that are at or under none of `prefixes`.
pub open spec fn not_under(prefixes: Seq<String>) -> spec_fn(FileRecord) -> bool {
    |f: FileRecord| !under_any(prefixes, f.path@)
}

/// Whether a scan of the root `id` with the marker `marker` did not see `f`:
/// the file is of that root and carries an older marker.
pub open spec fn is_stale(f: FileRecord, id: i64, marker: i64) -> bool {
    f.root_id == id && f.last_indexed_time < marker
}

/// The files that a scan of the root `id` with the marker `marker` keeps.
pub open spec fn not_stale(id: i64, marker: i64) -> spec_fn(FileRecord) -> bool {
    |f: FileRecord| !is_stale(f, id, marker)
}

/// `files` after one record is inserted, or replaces the record of its path.
pub open spec fn upsert_one(files: Seq<FileRecord>, rec: FileRecord) -> Seq<FileRecord> {
    if has_path(files, rec.path@) {
        files.update(path_position(files, rec.path@), rec)
    } else {
        files.push(rec)
    }
}

/// `files` after the records of `batch` are upserted one after the other.
pub open spec fn upsert_all(files: Seq<FileRecord>, batch: Seq<FileRecord>) -> Seq<FileRecord>
    decreases batch.len(),
{
    if batch.len() == 0 {
        files
    } else {
        upsert_one(upsert_all(files, batch.drop_last()), batch.last())
    }
}

/// Whether every record of `batch` names a root of `roots`.
pub open spec fn batch_has_roots(batch: Seq<FileRecord>, roots: Seq<RootEntry>) -> bool {
    forall|k: int| 0 <= k < batch.len() ==> has_root_id(roots, (#[trigger] batch[k]).root_id)
}

/// A change of the index.
#[derive(Clone, Debug)]
pub enum WriteCommand {
    /// Adds a root, or enables the one that has this path.
    AddOrEnableRoot { root_path: String },
    /// Removes a root and all its files.
    RemoveRoot { root_id: i64 },
    /// Inserts records, or replaces those of the same path.
    UpsertFiles { files: Vec<FileRecord> },
    /// Deletes the records of exactly these paths.
    DeletePaths { paths: Vec<String> },
    /// Deletes the records at or under these paths.
    DeleteByPrefixes { prefixes: Vec<String> },
    /// Ends a full scan: deletes the records of the root that the scan did
    /// not see, and notes when the scan finished.
    FinalizeScan { root_id: i64, marker: i64, finished_at: i64 },
    /// Ends the writer; changes nothing.
    Shutdown,
}

/// What a command answers.
#[derive(Clone, Copy, Debug)]
pub enum WriteReply {
    /// The id of the root that was added or enabled.
    RootId(i64),
    /// The change was applied.
    Done,
}

/// The index after `cmd` was applied to `before`, where the command applies.
pub open spec fn applied(before: IndexView, cmd: WriteCommand) -> IndexView {
    match cmd {
        WriteCommand::AddOrEnableRoot { root_path } => {
            if has_root_path(before.roots, root_path@) {
                let at = root_position(before.roots, root_path@);
                IndexView {
                    roots: before.roots.update(at, enabled(before.roots[at])),
                    files: before.files,
                    last_root_id: before.last_root_id,
                }
            } else {
                IndexView {
                    roots: before.roots.push(
                        fresh_root((before.last_root_id + 1) as i64, root_path),
                    ),
                    files: before.files,
                    last_root_id: before.last_root_id + 1,
                }
            }
        },
        WriteCommand::RemoveRoot { root_id } => IndexView {
            roots: before.roots.filter(other_root(root_id)),
            files: before.files.filter(outside_root(root_id)),
            last_root_id: before.last_root_id,
        },
        WriteCommand::UpsertFiles { files } => IndexView {
            roots: before.roots,
            files: upsert_all(before.files, files@),
            last_root_id: before.last_root_id,
        },
        WriteCommand::DeletePaths { paths } => IndexView {
            roots: before.roots,
            files: before.files.filter(not_listed(paths@)),
            last_root_id: before.last_root_id,
        },
        WriteCommand::DeleteByPrefixes { prefixes } => IndexView {
            roots: before.roots,
            files: before.files.filter(not_under(prefixes@)),
            last_root_id: before.last_root_id,
        },
        WriteCommand::FinalizeScan { root_id, marker, finished_at } => IndexView {
            roots: Seq::new(
                before.roots.len(),
                |i: int| scanned(before.roots[i], root_id, finished_at),
            ),
            files: before.files.filter(not_stale(root_id, marker)),
            last_root_id: before.last_root_id,
        },
        WriteCommand::Shutdown => before,
    }
}

/// Whether `cmd` applies to `before`. A new root needs an id that was never
/// handed out; a batch of records applies only if each names a root that is
/// there and carries the normalised form of its name.
pub open spec fn applies(before: IndexView, cmd: WriteCommand) -> bool {
    match cmd {
        WriteCommand::AddOrEnableRoot { root_path } => has_root_path(before.roots, root_path@)
            || before.last_root_id < i64::MAX,
        WriteCommand::UpsertFiles { files } => batch_has_roots(files@, before.roots)
            && names_normalised(files@),
        _ => true,
    }
}

/// What `cmd` answers when it applies to `before`.
pub open spec fn reply_of(before: IndexView, cmd: WriteCommand) -> WriteReply {
    match cmd {
        WriteCommand::AddOrEnableRoot { root_path } => {
            if has_root_path(before.roots, root_path@) {
                WriteReply::RootId(
                    before.roots[root_position(before.roots, root_path@)].root_id,
                )
            } else {
                WriteReply::RootId((before.last_root_id + 1) as i64)
            }
        },
        _ => WriteReply::Done,
    }
}


/// Filtering keeps paths distinct and keeps every record with a root.
pub proof fn lemma_filter_files(
    files: Seq<FileRecord>,
    keep: spec_fn(FileRecord) -> bool,
    roots: Seq<RootEntry>,
)
    requires
        distinct_paths(files),
    ensures
        distinct_paths(files.filter(keep)),
        files_have_roots(files, roots) ==> files_have_roots(files.filter(keep), roots),
        forall|k: int|
            0 <= k < files.filter(keep).len() ==> keep(#[trigger] files.filter(keep)[k])
                && has_path(files, files.filter(keep)[k].path@) && files.contains(
                files.filter(keep)[k],
            ),
    decreases files.len(),
{
    reveal(Seq::filter);
    if files.len() > 0 {
        let rest = files.drop_last();
        let last = files.last();
        lemma_filter_files(rest, keep, roots);
        let sub = rest.filter(keep);
        let out = files.filter(keep);
        assert forall|k: int| 0 <= k < out.len() implies keep(#[trigger] out[k]) && has_path(
            files,
            out[k].path@,
        ) && files.contains(out[k]) by {
            if k < sub.len() {
                assert(out[k] == sub[k]);
                assert(has_path(rest, sub[k].path@));
                let i = choose|i: int| 0 <= i < rest.len() && (#[trigger] rest[i]).path@ == sub[k].path@;
                assert(files[i].path@ == out[k].path@);
                assert(rest.contains(sub[k]));
                let j = choose|j: int| 0 <= j < rest.len() && rest[j] == sub[k];
                assert(files[j] == out[k]);
            } else {
                assert(out[k] == last);
                assert(files[files.len() - 1].path@ == out[k].path@);
                assert(files[files.len() - 1] == out[k]);
            }
        }
        assert forall|i: int, j: int| 0 <= i < j < out.len() implies (#[trigger] out[i]).path@ != (
        #[trigger] out[j]).path@ by {
            if j < sub.len() {
                assert(out[i] == sub[i] && out[j] == sub[j]);
            } else {
                assert(out[j] == last);
                assert(out[i] == sub[i]);
                assert(has_path(rest, sub[i].path@));
                let a = choose|a: int| 0 <= a < rest.len() && (#[trigger] rest[a]).path@ == sub[i].path@;
                assert(files[a].path@ != files[files.len() - 1].path@);
            }
        }
        if files_have_roots(files, roots) {
            assert forall|k: int| 0 <= k < out.len() implies has_root_id(
                roots,
                (#[trigger] out[k]).root_id,
            ) by {
                assert(files.contains(out[k]));
                let j = choose|j: int| 0 <= j < files.len() && files[j] == out[k];
                assert(has_root_id(roots, files[j].root_id));
            }
        }
    }
}

/// A record that filtering keeps is still there, and one that it drops is
/// gone, where paths are distinct.
pub proof fn lemma_filter_paths(
    files: Seq<FileRecord>,
    keep: spec_fn(FileRecord) -> bool,
    i: int,
)
    requires
        distinct_paths(files),
        0 <= i < files.len(),
    ensures
        keep(files[i]) ==> files.filter(keep).contains(files[i]),
        !keep(files[i]) ==> !has_path(files.filter(keep), files[i].path@),
{
    if keep(files[i]) {
        files.lemma_filter_contains(keep, i);
    }
    lemma_filter_files(files, keep, Seq::empty());
    let out = files.filter(keep);
    if !keep(files[i]) && has_path(out, files[i].path@) {
        let k = choose|k: int| 0 <= k < out.len() && (#[trigger] out[k]).path@ == files[i].path@;
        assert(files.contains(out[k]));
        let j = choose|j: int| 0 <= j < files.len() && files[j] == out[k];
        assert(keep(out[k]));
        if j < i {
            assert(files[j].path@ != files[i].path@);
        } else if i < j {
            assert(files[i].path@ != files[j].path@);
        }
    }
}

/// Filtering keeps every record under the normalised form of its name.
pub proof fn lemma_filter_normalised(files: Seq<FileRecord>, keep: spec_fn(FileRecord) -> bool)
    requires
        names_normalised(files),
    ensures
        names_normalised(files.filter(keep)),
{
    let out = files.filter(keep);
    assert forall|k: int| 0 <= k < out.len() implies (#[trigger] out[k]).file_name_norm@
        == normalized(out[k].file_name@) by {
        assert(out.contains(out[k]));
        files.lemma_filter_contains_rev(keep, out[k]);
        let j = choose|j: int| 0 <= j < files.len() && files[j] == out[k];
        assert(files[j].file_name_norm@ == normalized(files[j].file_name@));
    }
}

/// The index: roots and files, with the counter that root ids come from.
pub struct Index {
    roots: Vec<RootEntry>,
    files: Vec<FileRecord>,
    last_root_id: i64,
}

impl View for Index {
    type V = IndexView;

    closed spec fn view(&self) -> IndexView {
        IndexView { roots: self.roots@, files: self.files@, last_root_id: self.last_root_id as int }
    }
}

/// The position in `roots` of the root with the path `p`, if there is one.
pub fn find_root_by_path(roots: &Vec<RootEntry>, p: &String) -> (r: Option<usize>)
    ensures
        match r {
            Some(i) => i < roots.len() && roots[i as int].root_path@ == p@,
            None => !has_root_path(roots@, p@),
        },
{
    let mut i: usize = 0;
    while i < roots.len()
        invariant
            i <= roots.len(),
            forall|k: int| 0 <= k < i ==> (#[trigger] roots[k]).root_path@ != p@,
        decreases roots.len() - i,
    {
        if roots[i].root_path == *p {
            return Some(i);
        }
        i += 1;
    }
    None
}

/// The position in `roots` of the root with the id `id`, if there is one.
pub fn find_root_by_id(roots: &Vec<RootEntry>, id: i64) -> (r: Option<usize>)
    ensures
        match r {
            Some(i) => i < roots.len() && roots[i as int].root_id == id,
            None => !has_root_id(roots@, id),
        },
{
    let mut i: usize = 0;
    while i < roots.len()
        invariant
            i <= roots.len(),
            forall|k: int| 0 <= k < i ==> (#[trigger] roots[k]).root_id != id,
        decreases roots.len() - i,
    {
        if roots[i].root_id == id {
            return Some(i);
        }
        i += 1;
    }
    None
}

/// The position in `files` of the record for the path `p`, if there is one.
pub fn find_path(files: &Vec<FileRecord>, p: &String) -> (r: Option<usize>)
    ensures
        match r {
            Some(i) => i < files.len() && files[i as int].path@ == p@,
            None => !has_path(files@, p@),
        },
{
    let mut i: usize = 0;
    while i < files.len()
        invariant
            i <= files.len(),
            forall|k: int| 0 <= k < i ==> (#[trigger] files[k]).path@ != p@,
        decreases files.len() - i,
    {
        if files[i].path == *p {
            return Some(i);
        }
        i += 1;
    }
    None
}

/// Whether `p` is one of `paths`.
pub fn is_listed(paths: &Vec<String>, p: &String) -> (r: bool)
    ensures
        r == listed(paths@, p@),
{
    let mut i: usize = 0;
    while i < paths.len()
        invariant
            i <= paths.len(),
            forall|k: int| 0 <= k < i ==> (#[trigger] paths[k])@ != p@,
        decreases paths.len() - i,
    {
        if paths[i] == *p {
            return true;
        }
        i += 1;
    }
    false
}

/// Whether `path` is `prefix` itself or lies below it.
pub fn is_at_or_under(path: &String, prefix: &String) -> (r: bool)
    ensures
        r == at_or_under(path@, prefix@),
{
    if *path == *prefix {
        return true;
    }
    let p = chars_of(path.as_str());
    let lead = chars_of(prefix.as_str());
    lead.len() < p.len() && starts_with(&p, &lead) && std::path::is_separator(p[lead.len()])
}

/// Whether `p` is at or under one of `prefixes`.
pub fn is_under_any(prefixes: &Vec<String>, p: &String) -> (r: bool)
    ensures
        r == under_any(prefixes@, p@),
{
    let mut i: usize = 0;
    while i < prefixes.len()
        invariant
            i <= prefixes.len(),
            forall|k: int| 0 <= k < i ==> !at_or_under(p@, (#[trigger] prefixes[k])@),
        decreases prefixes.len() - i,
    {
        if is_at_or_under(p, &prefixes[i]) {
            return true;
        }
        i += 1;
    }
    false
}

/// Whether every record of `batch` names a root of `roots`.
pub fn batch_names_known_roots(batch: &Vec<FileRecord>, roots: &Vec<RootEntry>) -> (r: bool)
    ensures
        r == batch_has_roots(batch@, roots@),
{
    let mut k: usize = 0;
    while k < batch.len()
        invariant
            k <= batch.len(),
            forall|j: int| 0 <= j < k ==> has_root_id(roots@, (#[trigger] batch[j]).root_id),
        decreases batch.len() - k,
    {
        if find_root_by_id(roots, batch[k].root_id).is_none() {
            return false;
        }
        k += 1;
    }
    true
}


/// Upserting one record keeps paths distinct and keeps every record with a
/// root, if the new record names a root.
pub proof fn lemma_upsert_one(files: Seq<FileRecord>, rec: FileRecord, roots: Seq<RootEntry>)
    requires
        distinct_paths(files),
    ensures
        distinct_paths(upsert_one(files, rec)),
        has_path(upsert_one(files, rec), rec.path@),
        files_have_roots(files, roots) && has_root_id(roots, rec.root_id) ==> files_have_roots(
            upsert_one(files, rec),
            roots,
        ),
        forall|p: Seq<char>| has_path(files, p) ==> has_path(upsert_one(files, rec), p),
{
    let out = upsert_one(files, rec);
    if has_path(files, rec.path@) {
        let at = path_position(files, rec.path@);
        assert(out[at].path@ == rec.path@);
        assert forall|i: int, j: int| 0 <= i < j < out.len() implies (#[trigger] out[i]).path@ != (
        #[trigger] out[j]).path@ by {
            assert(out[i].path@ == files[i].path@);
            assert(out[j].path@ == files[j].path@);
        }
        assert forall|p: Seq<char>| has_path(files, p) implies has_path(out, p) by {
            let i = choose|i: int| 0 <= i < files.len() && (#[trigger] files[i]).path@ == p;
            assert(out[i].path@ == p);
        }
        if files_have_roots(files, roots) && has_root_id(roots, rec.root_id) {
            assert forall|i: int| 0 <= i < out.len() implies has_root_id(
                roots,
                (#[trigger] out[i]).root_id,
            ) by {
                if i != at {
                    assert(out[i] == files[i]);
                }
            }
        }
    } else {
        assert(out[out.len() - 1].path@ == rec.path@);
        assert forall|i: int, j: int| 0 <= i < j < out.len() implies (#[trigger] out[i]).path@ != (
        #[trigger] out[j]).path@ by {
            assert(out[i] == files[i]);
            if j < files.len() {
                assert(out[j] == files[j]);
            }
        }
        assert forall|p: Seq<char>| has_path(files, p) implies has_path(out, p) by {
            let i = choose|i: int| 0 <= i < files.len() && (#[trigger] files[i]).path@ == p;
            assert(out[i].path@ == p);
        }
        if files_have_roots(files, roots) && has_root_id(roots, rec.root_id) {
            assert forall|i: int| 0 <= i < out.len() implies has_root_id(
                roots,
                (#[trigger] out[i]).root_id,
            ) by {
                if i < files.len() {
                    assert(out[i] == files[i]);
                }
            }
        }
    }
}

/// Upserting a batch keeps paths distinct and keeps every record with a
/// root, if every record of the batch names a root.
pub proof fn lemma_upsert_all(files: Seq<FileRecord>, batch: Seq<FileRecord>, roots: Seq<RootEntry>)
    requires
        distinct_paths(files),
    ensures
        distinct_paths(upsert_all(files, batch)),
        files_have_roots(files, roots) && batch_has_roots(batch, roots) ==> files_have_roots(
            upsert_all(files, batch),
            roots,
        ),
    decreases batch.len(),
{
    if batch.len() > 0 {
        lemma_upsert_all(files, batch.drop_last(), roots);
        lemma_upsert_one(upsert_all(files, batch.drop_last()), batch.last(), roots);
        if batch_has_roots(batch, roots) {
            assert forall|k: int| 0 <= k < batch.drop_last().len() implies has_root_id(
                roots,
                (#[trigger] batch.drop_last()[k]).root_id,
            ) by {
                assert(batch.drop_last()[k] == batch[k]);
            }
            assert(batch.last() == batch[batch.len() - 1]);
        }
    }
}

/// Every record of the index after a batch was upserted is a record of the
/// batch or a record that the index held before, at its place.
pub proof fn lemma_upsert_origin(files: Seq<FileRecord>, batch: Seq<FileRecord>, j: int)
    requires
        0 <= j < upsert_all(files, batch).len(),
    ensures
        batch.contains(upsert_all(files, batch)[j]) || (j < files.len() && upsert_all(
            files,
            batch,
        )[j] == files[j]),
    decreases batch.len(),
{
    if batch.len() > 0 {
        let init = batch.drop_last();
        let last = batch.last();
        let mid = upsert_all(files, init);
        let out = upsert_all(files, batch);
        assert(batch[batch.len() - 1] == last);
        if has_path(mid, last.path@) {
            let at = path_position(mid, last.path@);
            if j != at {
                assert(out[j] == mid[j]);
                lemma_upsert_origin(files, init, j);
                if init.contains(mid[j]) {
                    let k = choose|k: int| 0 <= k < init.len() && init[k] == mid[j];
                    assert(batch[k] == mid[j]);
                }
            }
        } else {
            if j < mid.len() {
                assert(out[j] == mid[j]);
                lemma_upsert_origin(files, init, j);
                if init.contains(mid[j]) {
                    let k = choose|k: int| 0 <= k < init.len() && init[k] == mid[j];
                    assert(batch[k] == mid[j]);
                }
            }
        }
    }
}

/// Upserting records that carry the normalised form of their name keeps
/// every record under the normalised form of its name.
pub proof fn lemma_upsert_normalised(files: Seq<FileRecord>, batch: Seq<FileRecord>)
    requires
        names_normalised(files),
        names_normalised(batch),
    ensures
        names_normalised(upsert_all(files, batch)),
{
    let out = upsert_all(files, batch);
    assert forall|j: int| 0 <= j < out.len() implies (#[trigger] out[j]).file_name_norm@
        == normalized(out[j].file_name@) by {
        lemma_upsert_origin(files, batch, j);
        if batch.contains(out[j]) {
            let k = choose|k: int| 0 <= k < batch.len() && batch[k] == out[j];
            assert(batch[k].file_name_norm@ == normalized(batch[k].file_name@));
        } else {
            assert(files[j].file_name_norm@ == normalized(files[j].file_name@));
        }
    }
}

/// Whether every record of `batch` carries the normalised form of its name.
pub fn batch_is_normalised(batch: &Vec<FileRecord>) -> (r: bool)
    ensures
        r == names_normalised(batch@),
{
    let mut k: usize = 0;
    while k < batch.len()
        invariant
            k <= batch.len(),
            forall|j: int|
                0 <= j < k ==> (#[trigger] batch@[j]).file_name_norm@ == normalized(
                    batch@[j].file_name@,
                ),
        decreases batch.len() - k,
    {
        let want = normalize_for_search(batch[k].file_name.as_str());
        if !(want == batch[k].file_name_norm) {
            return false;
        }
        k += 1;
    }
    true
}

impl Index {
    /// An index without roots and without files.
    pub fn new() -> (idx: Index)
        ensures
            idx@.wf(),
            idx@.roots.len() == 0,
            idx@.files.len() == 0,
            idx@.last_root_id == 0,
    {
        Index { roots: Vec::new(), files: Vec::new(), last_root_id: 0 }
    }

    /// The roots, in the order in which they were added.
    pub fn roots(&self) -> (r: &Vec<RootEntry>)
        ensures
            r@ == self@.roots,
    {
        &self.roots
    }

    /// The files, in the order in which their paths were first indexed.
    pub fn files(&self) -> (r: &Vec<FileRecord>)
        ensures
            r@ == self@.files,
    {
        &self.files
    }

    /// The largest root id handed out so far.
    pub fn last_root_id(&self) -> (r: i64)
        ensures
            r == self@.last_root_id,
    {
        self.last_root_id
    }

    fn add_or_enable_root(&mut self, root_path: String) -> (res: EngineResult<WriteReply>)
        requires
            old(self)@.wf(),
        ensures
            final(self)@.wf(),
            applies(old(self)@, WriteCommand::AddOrEnableRoot { root_path }) ==> (res matches Ok(
                reply,
            ) && reply == reply_of(old(self)@, WriteCommand::AddOrEnableRoot { root_path })
                && final(self)@ == applied(
                old(self)@,
                WriteCommand::AddOrEnableRoot { root_path },
            )),
            !applies(old(self)@, WriteCommand::AddOrEnableRoot { root_path }) ==> (res matches Err(
                EngineError::Storage { .. },
            ) && final(self)@ == old(self)@),
    {
        match find_root_by_path(&self.roots, &root_path) {
            Some(at) => {
                let ghost want = root_position(self.roots@, root_path@);
                assert(want == at) by {
                    if want < at {
                        assert(self.roots@[want].root_path@ != self.roots@[at as int].root_path@);
                    } else if at < want {
                        assert(self.roots@[at as int].root_path@ != self.roots@[want].root_path@);
                    }
                }
                let id = self.roots[at].root_id;
                let entry = RootEntry {
                    root_id: id,
                    root_path: self.roots[at].root_path.clone(),
                    is_enabled: true,
                    last_scan_time: self.roots[at].last_scan_time,
                };
                let ghost before = self.roots@;
                self.roots.set(at, entry);
                proof {
                    let after = self.roots@;
                    assert forall|i: int, j: int| 0 <= i < j < after.len() implies (
                    #[trigger] after[i]).root_id != (#[trigger] after[j]).root_id
                        && after[i].root_path@ != after[j].root_path@ by {
                        assert(after[i].root_id == before[i].root_id);
                        assert(after[j].root_id == before[j].root_id);
                        assert(after[i].root_path@ == before[i].root_path@);
                        assert(after[j].root_path@ == before[j].root_path@);
                    }
                    assert forall|i: int| 0 <= i < after.len() implies 1 <= (
                    #[trigger] after[i]).root_id <= self.last_root_id by {
                        assert(after[i].root_id == before[i].root_id);
                    }
                    assert forall|i: int| 0 <= i < self.files@.len() implies has_root_id(
                        after,
                        (#[trigger] self.files@[i]).root_id,
                    ) by {
                        let k = choose|k: int|
                            0 <= k < before.len() && (#[trigger] before[k]).root_id
                                == self.files@[i].root_id;
                        assert(after[k].root_id == before[k].root_id);
                    }
                }
                Ok(WriteReply::RootId(id))
            },
            None => {
                if self.last_root_id == i64::MAX {
                    return Err(
                        EngineError::Storage { reason: "no root id is left".to_owned() },
                    );
                }
                let id: i64 = self.last_root_id + 1;
                let ghost before = self.roots@;
                self.roots.push(
                    RootEntry { root_id: id, root_path, is_enabled: true, last_scan_time: None },
                );
                self.last_root_id = id;
                proof {
                    let after = self.roots@;
                    assert forall|i: int, j: int| 0 <= i < j < after.len() implies (
                    #[trigger] after[i]).root_id != (#[trigger] after[j]).root_id
                        && after[i].root_path@ != after[j].root_path@ by {
                        assert(after[i] == before[i]);
                        if j < before.len() {
                            assert(after[j] == before[j]);
                        }
                    }
                    assert forall|i: int| 0 <= i < after.len() implies 1 <= (
                    #[trigger] after[i]).root_id <= self.last_root_id by {
                        if i < before.len() {
                            assert(after[i] == before[i]);
                        }
                    }
                    assert forall|i: int| 0 <= i < self.files@.len() implies has_root_id(
                        after,
                        (#[trigger] self.files@[i]).root_id,
                    ) by {
                        let k = choose|k: int|
                            0 <= k < before.len() && (#[trigger] before[k]).root_id
                                == self.files@[i].root_id;
                        assert(after[k] == before[k]);
                    }
                }
                Ok(WriteReply::RootId(id))
            },
        }
    }
}


/// Removing a root with its files keeps the index well formed.
pub proof fn lemma_remove_root(before: IndexView, id: i64)
    requires
        before.wf(),
    ensures
        applied(before, WriteCommand::RemoveRoot { root_id: id }).wf(),
        !has_root_id(applied(before, WriteCommand::RemoveRoot { root_id: id }).roots, id),
{
    let roots = before.roots.filter(other_root(id));
    let files = before.files.filter(outside_root(id));
    lemma_filter_files(before.files, outside_root(id), before.roots);
    lemma_filter_normalised(before.files, outside_root(id));
    lemma_filter_roots(before.roots, other_root(id));
    assert forall|i: int| 0 <= i < roots.len() implies 1 <= (#[trigger] roots[i]).root_id
        <= before.last_root_id by {
        assert(before.roots.contains(roots[i]));
        let j = choose|j: int| 0 <= j < before.roots.len() && before.roots[j] == roots[i];
        assert(1 <= before.roots[j].root_id);
    }
    assert forall|i: int| 0 <= i < files.len() implies has_root_id(
        roots,
        (#[trigger] files[i]).root_id,
    ) by {
        assert(outside_root(id)(files[i]));
        assert(has_root_id(before.roots, files[i].root_id));
        let k = choose|k: int|
            0 <= k < before.roots.len() && (#[trigger] before.roots[k]).root_id == files[i].root_id;
        assert(other_root(id)(before.roots[k]));
        before.roots.lemma_filter_contains(other_root(id), k);
        let m = choose|m: int| 0 <= m < roots.len() && roots[m] == before.roots[k];
        assert(roots[m].root_id == files[i].root_id);
    }
    if has_root_id(roots, id) {
        let m = choose|m: int| 0 <= m < roots.len() && (#[trigger] roots[m]).root_id == id;
        assert(other_root(id)(roots[m]));
    }
}

/// Filtering keeps roots distinct, and keeps only roots that were there.
pub proof fn lemma_filter_roots(roots: Seq<RootEntry>, keep: spec_fn(RootEntry) -> bool)
    requires
        distinct_roots(roots),
    ensures
        distinct_roots(roots.filter(keep)),
        forall|k: int|
            0 <= k < roots.filter(keep).len() ==> keep(#[trigger] roots.filter(keep)[k])
                && roots.contains(roots.filter(keep)[k]),
    decreases roots.len(),
{
    reveal(Seq::filter);
    if roots.len() > 0 {
        let rest = roots.drop_last();
        let last = roots.last();
        lemma_filter_roots(rest, keep);
        let sub = rest.filter(keep);
        let out = roots.filter(keep);
        assert forall|k: int| 0 <= k < out.len() implies keep(#[trigger] out[k]) && roots.contains(
            out[k],
        ) by {
            if k < sub.len() {
                assert(out[k] == sub[k]);
                assert(rest.contains(sub[k]));
                let j = choose|j: int| 0 <= j < rest.len() && rest[j] == sub[k];
                assert(roots[j] == out[k]);
            } else {
                assert(roots[roots.len() - 1] == out[k]);
            }
        }
        assert forall|i: int, j: int| 0 <= i < j < out.len() implies (#[trigger] out[i]).root_id != (
        #[trigger] out[j]).root_id && out[i].root_path@ != out[j].root_path@ by {
            if j < sub.len() {
                assert(out[i] == sub[i] && out[j] == sub[j]);
            } else {
                assert(out[j] == last);
                assert(out[i] == sub[i]);
                assert(rest.contains(sub[i]));
                let a = choose|a: int| 0 <= a < rest.len() && rest[a] == sub[i];
                assert(roots[a].root_id != roots[roots.len() - 1].root_id);
            }
        }
    }
}

/// The end of a scan keeps the index well formed.
pub proof fn lemma_finalize(before: IndexView, id: i64, marker: i64, finished_at: i64)
    requires
        before.wf(),
    ensures
        applied(
            before,
            WriteCommand::FinalizeScan { root_id: id, marker, finished_at },
        ).wf(),
{
    let after = applied(before, WriteCommand::FinalizeScan { root_id: id, marker, finished_at });
    lemma_filter_files(before.files, not_stale(id, marker), before.roots);
    lemma_filter_normalised(before.files, not_stale(id, marker));
    assert forall|i: int| 0 <= i < after.files.len() implies has_root_id(
        after.roots,
        (#[trigger] after.files[i]).root_id,
    ) by {
        assert(has_root_id(before.roots, after.files[i].root_id));
        let k = choose|k: int|
            0 <= k < before.roots.len() && (#[trigger] before.roots[k]).root_id
                == after.files[i].root_id;
        assert(after.roots[k].root_id == before.roots[k].root_id);
    }
    assert forall|i: int, j: int| 0 <= i < j < after.roots.len() implies (
    #[trigger] after.roots[i]).root_id != (#[trigger] after.roots[j]).root_id
        && after.roots[i].root_path@ != after.roots[j].root_path@ by {
        assert(after.roots[i].root_id == before.roots[i].root_id);
        assert(after.roots[j].root_id == before.roots[j].root_id);
        assert(after.roots[i].root_path@ == before.roots[i].root_path@);
        assert(after.roots[j].root_path@ == before.roots[j].root_path@);
    }
    assert forall|i: int| 0 <= i < after.roots.len() implies 1 <= (
    #[trigger] after.roots[i]).root_id <= after.last_root_id by {
        assert(after.roots[i].root_id == before.roots[i].root_id);
    }
}

impl Index {
    fn remove_root(&mut self, id: i64)
        requires
            old(self)@.wf(),
        ensures
            final(self)@.wf(),
            final(self)@ == applied(old(self)@, WriteCommand::RemoveRoot { root_id: id }),
    {
        proof {
            lemma_remove_root(self@, id);
        }
        let ghost old_roots = self.roots@;
        let ghost old_files = self.files@;
        let mut roots: Vec<RootEntry> = Vec::new();
        core::mem::swap(&mut self.roots, &mut roots);
        let mut files: Vec<FileRecord> = Vec::new();
        core::mem::swap(&mut self.files, &mut files);
        for r in it: roots
            invariant
                it.seq() == old_roots,
                self.roots@ == old_roots.take(it.index() as int).filter(other_root(id)),
                self.files@.len() == 0,
                self.last_root_id == old(self).last_root_id,
        {
            proof {
                old_roots.take(it.index() as int).lemma_filter_push(r, other_root(id));
                assert(old_roots.take(it.index() + 1) =~= old_roots.take(it.index() as int).push(r));
            }
            if r.root_id != id {
                self.roots.push(r);
            }
        }
        assert(old_roots.take(old_roots.len() as int) =~= old_roots);
        for f in it: files
            invariant
                it.seq() == old_files,
                self.files@ == old_files.take(it.index() as int).filter(outside_root(id)),
                self.roots@ == old_roots.filter(other_root(id)),
                self.last_root_id == old(self).last_root_id,
        {
            proof {
                old_files.take(it.index() as int).lemma_filter_push(f, outside_root(id));
                assert(old_files.take(it.index() + 1) =~= old_files.take(it.index() as int).push(f));
            }
            if f.root_id != id {
                self.files.push(f);
            }
        }
        assert(old_files.take(old_files.len() as int) =~= old_files);
    }

    fn delete_paths(&mut self, paths: &Vec<String>)
        requires
            old(self)@.wf(),
        ensures
            final(self)@.wf(),
            final(self)@.roots == old(self)@.roots,
            final(self)@.last_root_id == old(self)@.last_root_id,
            final(self)@.files == old(self)@.files.filter(not_listed(paths@)),
    {
        proof {
            lemma_filter_files(self.files@, not_listed(paths@), self.roots@);
            lemma_filter_normalised(self.files@, not_listed(paths@));
        }
        let ghost old_files = self.files@;
        let mut files: Vec<FileRecord> = Vec::new();
        core::mem::swap(&mut self.files, &mut files);
        for f in it: files
            invariant
                it.seq() == old_files,
                self.files@ == old_files.take(it.index() as int).filter(not_listed(paths@)),
                self.roots@ == old(self).roots@,
                self.last_root_id == old(self).last_root_id,
        {
            proof {
                old_files.take(it.index() as int).lemma_filter_push(f, not_listed(paths@));
                assert(old_files.take(it.index() + 1) =~= old_files.take(it.index() as int).push(f));
            }
            if !is_listed(paths, &f.path) {
                self.files.push(f);
            }
        }
        assert(old_files.take(old_files.len() as int) =~= old_files);
    }

    fn delete_by_prefixes(&mut self, prefixes: &Vec<String>)
        requires
            old(self)@.wf(),
        ensures
            final(self)@.wf(),
            final(self)@.roots == old(self)@.roots,
            final(self)@.last_root_id == old(self)@.last_root_id,
            final(self)@.files == old(self)@.files.filter(not_under(prefixes@)),
    {
        proof {
            lemma_filter_files(self.files@, not_under(prefixes@), self.roots@);
            lemma_filter_normalised(self.files@, not_under(prefixes@));
        }
        let ghost old_files = self.files@;
        let mut files: Vec<FileRecord> = Vec::new();
        core::mem::swap(&mut self.files, &mut files);
        for f in it: files
            invariant
                it.seq() == old_files,
                self.files@ == old_files.take(it.index() as int).filter(not_under(prefixes@)),
                self.roots@ == old(self).roots@,
                self.last_root_id == old(self).last_root_id,
        {
            proof {
                old_files.take(it.index() as int).lemma_filter_push(f, not_under(prefixes@));
                assert(old_files.take(it.index() + 1) =~= old_files.take(it.index() as int).push(f));
            }
            if !is_under_any(prefixes, &f.path) {
                self.files.push(f);
            }
        }
        assert(old_files.take(old_files.len() as int) =~= old_files);
    }

    fn finalize_scan(&mut self, id: i64, marker: i64, finished_at: i64)
        requires
            old(self)@.wf(),
        ensures
            final(self)@.wf(),
            final(self)@ == applied(
                old(self)@,
                WriteCommand::FinalizeScan { root_id: id, marker, finished_at },
            ),
    {
        proof {
            lemma_finalize(self@, id, marker, finished_at);
        }
        let ghost old_roots = self.roots@;
        let ghost old_files = self.files@;
        let mut files: Vec<FileRecord> = Vec::new();
        core::mem::swap(&mut self.files, &mut files);
        for f in it: files
            invariant
                it.seq() == old_files,
                self.files@ == old_files.take(it.index() as int).filter(not_stale(id, marker)),
                self.roots@ == old_roots,
                self.last_root_id == old(self).last_root_id,
        {
            proof {
                old_files.take(it.index() as int).lemma_filter_push(f, not_stale(id, marker));
                assert(old_files.take(it.index() + 1) =~= old_files.take(it.index() as int).push(f));
            }
            if !(f.root_id == id && f.last_indexed_time < marker) {
                self.files.push(f);
            }
        }
        assert(old_files.take(old_files.len() as int) =~= old_files);
        let mut i: usize = 0;
        while i < self.roots.len()
            invariant
                i <= self.roots.len(),
                self.roots@.len() == old_roots.len(),
                forall|k: int| 0 <= k < i ==> self.roots@[k] == scanned(old_roots[k], id, finished_at),
                forall|k: int| i <= k < old_roots.len() ==> self.roots@[k] == old_roots[k],
                self.files@ == old_files.filter(not_stale(id, marker)),
                self.last_root_id == old(self).last_root_id,
            decreases self.roots.len() - i,
        {
            if self.roots[i].root_id == id {
                let entry = RootEntry {
                    root_id: self.roots[i].root_id,
                    root_path: self.roots[i].root_path.clone(),
                    is_enabled: self.roots[i].is_enabled,
                    last_scan_time: Some(finished_at),
                };
                self.roots.set(i, entry);
            }
            i += 1;
        }
        assert(self.roots@ =~= Seq::new(
            old_roots.len(),
            |k: int| scanned(old_roots[k], id, finished_at),
        ));
    }

    fn upsert_one(&mut self, rec: FileRecord)
        requires
            distinct_paths(old(self)@.files),
        ensures
            final(self)@.files == upsert_one(old(self)@.files, rec),
            final(self)@.roots == old(self)@.roots,
            final(self)@.last_root_id == old(self)@.last_root_id,
    {
        match find_path(&self.files, &rec.path) {
            Some(at) => {
                let ghost want = path_position(self.files@, rec.path@);
                assert(want == at) by {
                    if want < at {
                        assert(self.files@[want].path@ != self.files@[at as int].path@);
                    } else if at < want {
                        assert(self.files@[at as int].path@ != self.files@[want].path@);
                    }
                }
                self.files.set(at, rec);
            },
            None => {
                self.files.push(rec);
            },
        }
    }

    fn upsert_files(&mut self, batch: Vec<FileRecord>)
        requires
            old(self)@.wf(),
            batch_has_roots(batch@, old(self)@.roots),
            names_normalised(batch@),
        ensures
            final(self)@.wf(),
            final(self)@ == applied(old(self)@, WriteCommand::UpsertFiles { files: batch }),
    {
        let ghost old_files = self.files@;
        let ghost all = batch@;
        proof {
            lemma_upsert_all(old_files, all, self.roots@);
            lemma_upsert_normalised(old_files, all);
        }
        for rec in it: batch
            invariant
                it.seq() == all,
                distinct_paths(old_files),
                self.files@ == upsert_all(old_files, all.take(it.index() as int)),
                self.roots@ == old(self).roots@,
                self.last_root_id == old(self).last_root_id,
        {
            proof {
                lemma_upsert_all(old_files, all.take(it.index() as int), self.roots@);
                assert(all.take(it.index() + 1).drop_last() =~= all.take(it.index() as int));
                assert(all.take(it.index() + 1).last() == rec);
            }
            self.upsert_one(rec);
        }
        assert(all.take(all.len() as int) =~= all);
    }
}

/// Applies one command to the index. A command that does not apply fails
/// with a storage error and leaves the index as it was.
pub fn apply_write_command(index: &mut Index, cmd: WriteCommand) -> (res: EngineResult<WriteReply>)
    requires
        old(index)@.wf(),
    ensures
        final(index)@.wf(),
        applies(old(index)@, cmd) ==> (res matches Ok(reply) && reply == reply_of(old(index)@, cmd)
            && final(index)@ == applied(old(index)@, cmd)),
        !applies(old(index)@, cmd) ==> (res matches Err(EngineError::Storage { .. })
            && final(index)@ == old(index)@),
{
    match cmd {
        WriteCommand::AddOrEnableRoot { root_path } => index.add_or_enable_root(root_path),
        WriteCommand::RemoveRoot { root_id } => {
            index.remove_root(root_id);
            Ok(WriteReply::Done)
        },
        WriteCommand::UpsertFiles { files } => {
            if !batch_names_known_roots(&files, &index.roots) {
                return Err(
                    EngineError::Storage { reason: "a record names no root".to_owned() },
                );
            }
            if !batch_is_normalised(&files) {
                return Err(
                    EngineError::Storage {
                        reason: "a record does not carry its normalised name".to_owned(),
                    },
                );
            }
            index.upsert_files(files);
            Ok(WriteReply::Done)
        },
        WriteCommand::DeletePaths { paths } => {
            index.delete_paths(&paths);
            Ok(WriteReply::Done)
        },
        WriteCommand::DeleteByPrefixes { prefixes } => {
            index.delete_by_prefixes(&prefixes);
            Ok(WriteReply::Done)
        },
        WriteCommand::FinalizeScan { root_id, marker, finished_at } => {
            index.finalize_scan(root_id, marker, finished_at);
            Ok(WriteReply::Done)
        },
        WriteCommand::Shutdown => Ok(WriteReply::Done),
    }
}


/// The index that holds exactly these parts.
pub open spec fn index_of(roots: Seq<RootEntry>, files: Seq<FileRecord>, last_root_id: i64) -> IndexView {
    IndexView { roots, files, last_root_id: last_root_id as int }
}

/// Whether every root id lies between 1 and `last`.
fn ids_in_range(roots: &Vec<RootEntry>, last: i64) -> (r: bool)
    ensures
        r == (forall|i: int| 0 <= i < roots@.len() ==> 1 <= (#[trigger] roots@[i]).root_id <= last),
{
    let mut i: usize = 0;
    while i < roots.len()
        invariant
            i <= roots.len(),
            forall|k: int| 0 <= k < i ==> 1 <= (#[trigger] roots@[k]).root_id <= last,
        decreases roots.len() - i,
    {
        if roots[i].root_id < 1 || roots[i].root_id > last {
            return false;
        }
        i += 1;
    }
    true
}

/// Whether no two roots have the same id, nor the same path.
fn roots_are_distinct(roots: &Vec<RootEntry>) -> (r: bool)
    ensures
        r == distinct_roots(roots@),
{
    let mut j: usize = 0;
    while j < roots.len()
        invariant
            j <= roots.len(),
            forall|a: int, b: int|
                0 <= a < b < j ==> (#[trigger] roots@[a]).root_id != (#[trigger] roots@[b]).root_id
                    && roots@[a].root_path@ != roots@[b].root_path@,
        decreases roots.len() - j,
    {
        let mut i: usize = 0;
        while i < j
            invariant
                i <= j < roots.len(),
                forall|a: int|
                    0 <= a < i ==> (#[trigger] roots@[a]).root_id != roots@[j as int].root_id
                        && roots@[a].root_path@ != roots@[j as int].root_path@,
            decreases j - i,
        {
            if roots[i].root_id == roots[j].root_id || roots[i].root_path == roots[j].root_path {
                return false;
            }
            i += 1;
        }
        j += 1;
    }
    true
}

/// Whether no two records have the same path.
fn paths_are_distinct(files: &Vec<FileRecord>) -> (r: bool)
    ensures
        r == distinct_paths(files@),
{
    let mut j: usize = 0;
    while j < files.len()
        invariant
            j <= files.len(),
            forall|a: int, b: int|
                0 <= a < b < j ==> (#[trigger] files@[a]).path@ != (#[trigger] files@[b]).path@,
        decreases files.len() - j,
    {
        let mut i: usize = 0;
        while i < j
            invariant
                i <= j < files.len(),
                forall|a: int| 0 <= a < i ==> (#[trigger] files@[a]).path@ != files@[j as int].path@,
            decreases j - i,
        {
            if files[i].path == files[j].path {
                return false;
            }
            i += 1;
        }
        j += 1;
    }
    true
}

impl Index {
    /// The index that holds these roots and files, if they make a well
    /// formed index; `last_root_id` is the largest root id that was ever
    /// handed out.
    pub fn from_parts(roots: Vec<RootEntry>, files: Vec<FileRecord>, last_root_id: i64) -> (r:
        Option<Index>)
        ensures
            r is Some <==> index_of(roots@, files@, last_root_id).wf(),
            r matches Some(idx) ==> idx@ == index_of(roots@, files@, last_root_id),
    {
        if last_root_id < 0 {
            return None;
        }
        if !ids_in_range(&roots, last_root_id) {
            return None;
        }
        if !roots_are_distinct(&roots) {
            return None;
        }
        if !paths_are_distinct(&files) {
            return None;
        }
        if !batch_names_known_roots(&files, &roots) {
            return None;
        }
        if !batch_is_normalised(&files) {
            return None;
        }
        Some(Index { roots, files, last_root_id })
    }
}

/// Upserting two batches one after the other is upserting them as one.
pub proof fn lemma_upsert_concat(files: Seq<FileRecord>, a: Seq<FileRecord>, b: Seq<FileRecord>)
    ensures
        upsert_all(upsert_all(files, a), b) == upsert_all(files, a + b),
    decreases b.len(),
{
    if b.len() == 0 {
        assert(a + b =~= a);
    } else {
        lemma_upsert_concat(files, a, b.drop_last());
        assert((a + b).drop_last() =~= a + b.drop_last());
        assert((a + b).last() == b.last());
    }
}

/// After a batch was upserted, the index holds a record for each path of
/// the batch and for each path that it held before, and for no other.
pub proof fn lemma_upsert_paths(files: Seq<FileRecord>, batch: Seq<FileRecord>, p: Seq<char>)
    requires
        distinct_paths(files),
    ensures
        has_path(upsert_all(files, batch), p) <==> (has_path(files, p) || has_path(batch, p)),
    decreases batch.len(),
{
    if batch.len() == 0 {
    } else {
        let init = batch.drop_last();
        let last = batch.last();
        let mid = upsert_all(files, init);
        lemma_upsert_paths(files, init, p);
        lemma_upsert_all(files, init, Seq::empty());
        lemma_upsert_one(mid, last, Seq::empty());
        let out = upsert_one(mid, last);
        if has_path(batch, p) {
            let k = choose|k: int| 0 <= k < batch.len() && (#[trigger] batch[k]).path@ == p;
            if k < init.len() {
                assert(init[k].path@ == p);
            }
        }
        if has_path(init, p) {
            let k = choose|k: int| 0 <= k < init.len() && (#[trigger] init[k]).path@ == p;
            assert(batch[k].path@ == p);
        }
        if last.path@ == p {
            assert(batch[batch.len() - 1].path@ == p);
        }
        if has_path(out, p) && !has_path(mid, p) && last.path@ != p {
            let i = choose|i: int| 0 <= i < out.len() && (#[trigger] out[i]).path@ == p;
            if has_path(mid, last.path@) {
                let at = path_position(mid, last.path@);
                if i != at {
                    assert(out[i] == mid[i]);
                }
            } else {
                if i < mid.len() {
                    assert(out[i] == mid[i]);
                }
            }
        }
    }
}

/// A record whose path is in no record of a batch is still there, as it
/// was, after the batch was upserted.
pub proof fn lemma_upsert_keeps(files: Seq<FileRecord>, batch: Seq<FileRecord>, i: int)
    requires
        distinct_paths(files),
        0 <= i < files.len(),
        !has_path(batch, files[i].path@),
    ensures
        i < upsert_all(files, batch).len(),
        upsert_all(files, batch)[i] == files[i],
        forall|k: int|
            0 <= k < files.len() ==> k < upsert_all(files, batch).len() && (
            #[trigger] upsert_all(files, batch)[k]).path@ == files[k].path@,
    decreases batch.len(),
{
    if batch.len() > 0 {
        let init = batch.drop_last();
        let last = batch.last();
        let mid = upsert_all(files, init);
        if has_path(init, files[i].path@) {
            let k = choose|k: int| 0 <= k < init.len() && (#[trigger] init[k]).path@ == files[i].path@;
            assert(batch[k].path@ == files[i].path@);
        }
        lemma_upsert_keeps(files, init, i);
        lemma_upsert_all(files, init, Seq::empty());
        assert(batch[batch.len() - 1].path@ != files[i].path@);
        let out = upsert_one(mid, last);
        if has_path(mid, last.path@) {
            let at = path_position(mid, last.path@);
            assert(at != i);
            assert forall|k: int| 0 <= k < files.len() implies k < out.len() && (
            #[trigger] out[k]).path@ == files[k].path@ by {
                assert(mid[k].path@ == files[k].path@);
            }
        } else {
            assert forall|k: int| 0 <= k < files.len() implies k < out.len() && (
            #[trigger] out[k]).path@ == files[k].path@ by {
                assert(mid[k].path@ == files[k].path@);
                assert(out[k] == mid[k]);
            }
        }
    }
}

/// A path that was deleted is not in the index: neither after a deletion
/// of exactly that path, nor after a deletion of what lies at or under it.
pub proof fn lemma_deleted_is_absent(before: IndexView, targets: Seq<String>, p: Seq<char>)
    requires
        distinct_paths(before.files),
        listed(targets, p),
    ensures
        !has_path(before.files.filter(not_listed(targets)), p),
        !has_path(before.files.filter(not_under(targets)), p),
{
    lemma_filter_files(before.files, not_listed(targets), before.roots);
    lemma_filter_files(before.files, not_under(targets), before.roots);
    let a = before.files.filter(not_listed(targets));
    if has_path(a, p) {
        let k = choose|k: int| 0 <= k < a.len() && (#[trigger] a[k]).path@ == p;
        assert(not_listed(targets)(a[k]));
    }
    let b = before.files.filter(not_under(targets));
    if has_path(b, p) {
        let k = choose|k: int| 0 <= k < b.len() && (#[trigger] b[k]).path@ == p;
        assert(not_under(targets)(b[k]));
        let t = choose|t: int| 0 <= t < targets.len() && (#[trigger] targets[t])@ == p;
        assert(at_or_under(b[k].path@, targets[t]@));
    }
}

/// After a root was removed, the index holds no file of it.
pub proof fn lemma_removed_root_has_no_files(before: IndexView, id: i64)
    requires
        before.wf(),
    ensures
        forall|k: int|
            0 <= k < applied(before, WriteCommand::RemoveRoot { root_id: id }).files.len() ==> (
            #[trigger] applied(before, WriteCommand::RemoveRoot { root_id: id }).files[k]).root_id
                != id,
{
    lemma_filter_files(before.files, outside_root(id), before.roots);
    let after = applied(before, WriteCommand::RemoveRoot { root_id: id }).files;
    assert forall|k: int| 0 <= k < after.len() implies (#[trigger] after[k]).root_id != id by {
        assert(outside_root(id)(after[k]));
    }
}

/// After a scan of a root ended, the index holds no file of that root with
/// a marker older than the scan's; every other file is there as before.
pub proof fn lemma_finalize_purges(before: IndexView, id: i64, marker: i64, finished_at: i64)
    requires
        before.wf(),
    ensures
        forall|k: int|
            #![trigger applied(before, WriteCommand::FinalizeScan { root_id: id, marker, finished_at }).files[k]]
            0 <= k < applied(
                before,
                WriteCommand::FinalizeScan { root_id: id, marker, finished_at },
            ).files.len() ==> !is_stale(
                applied(
                    before,
                    WriteCommand::FinalizeScan { root_id: id, marker, finished_at },
                ).files[k],
                id,
                marker,
            ),
        forall|i: int|
            0 <= i < before.files.len() && is_stale(#[trigger] before.files[i], id, marker)
                ==> !has_path(
                applied(
                    before,
                    WriteCommand::FinalizeScan { root_id: id, marker, finished_at },
                ).files,
                before.files[i].path@,
            ),
        forall|i: int|
            0 <= i < before.files.len() && !is_stale(#[trigger] before.files[i], id, marker)
                ==> applied(
                before,
                WriteCommand::FinalizeScan { root_id: id, marker, finished_at },
            ).files.contains(before.files[i]),
{
    let after = applied(before, WriteCommand::FinalizeScan { root_id: id, marker, finished_at }).files;
    lemma_filter_files(before.files, not_stale(id, marker), before.roots);
    assert forall|k: int| #![trigger after[k]] 0 <= k < after.len() implies !is_stale(
        after[k],
        id,
        marker,
    ) by {
        assert(not_stale(id, marker)(after[k]));
    }
    assert forall|i: int|
        0 <= i < before.files.len() && is_stale(
            #[trigger] before.files[i],
            id,
            marker,
        ) implies !has_path(after, before.files[i].path@) by {
        lemma_filter_paths(before.files, not_stale(id, marker), i);
    }
    assert forall|i: int|
        0 <= i < before.files.len() && !is_stale(
            #[trigger] before.files[i],
            id,
            marker,
        ) implies after.contains(before.files[i]) by {
        lemma_filter_paths(before.files, not_stale(id, marker), i);
    }
}

} // verus!
