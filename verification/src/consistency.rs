//! How the index and its searches follow the file system: what holds of the
//! index after a root was dropped, after a full scan, and after a change of
//! one path was applied.

use crate::engine::{
    add_commands, after_delete, apply_all, has_root, ids_suffice, is_dropped, is_new_key,
    lemma_roots_in_order, removal, roots_in_order, synced,
};
use crate::index::has_root_path;
use crate::index::{
    applied, distinct_paths, has_path, has_root_id, is_stale, lemma_filter_files, lemma_finalize, lemma_finalize_purges,
    lemma_upsert_all, lemma_upsert_concat, lemma_upsert_keeps, lemma_upsert_normalised,
    lemma_upsert_one, lemma_upsert_origin, lemma_upsert_paths, listed, not_listed, not_stale, not_under, outside_root, under_any,
    at_or_under, upsert_all,
    IndexView, WriteCommand,
};
use crate::normalize::normalized;
use crate::query::{
    clamped_limit, is_match, lemma_search_finds_all, lemma_search_no_repeats,
    lemma_search_only_matches, lemma_search_skips_root,
    passes_filters, root_admits, search_hits, selected, NamePattern,
    PathFilters,
};
use crate::records::{hit_of, FileRecord, RootEntry, SearchRequest};
use crate::text::has_substring;
use crate::scanner::{
    are_batches, is_full_scan, records_entry, records_of_walk, upserted_records, yielding,
    yields_record, WalkEntry,
};
use crate::watcher::{PathState, ProbedPath};
use vstd::prelude::*;

verus! {

/// Removals leave no file of a root that one of them removes.
pub proof fn lemma_removals_drop_files(idx: IndexView, roots: Seq<RootEntry>, m: int)
    requires
        0 <= m < roots.len(),
    ensures
        forall|k: int|
            0 <= k < apply_all(idx, roots.map_values(removal())).files.len() ==> (
            #[trigger] apply_all(idx, roots.map_values(removal())).files[k]).root_id
                != roots[m].root_id,
    decreases roots.len(),
{
    let cmds = roots.map_values(removal());
    let init = roots.drop_last();
    let last = roots.last();
    assert(cmds.drop_last() =~= init.map_values(removal()));
    assert(cmds.last() == WriteCommand::RemoveRoot { root_id: last.root_id });
    let before = apply_all(idx, init.map_values(removal()));
    let after = apply_all(idx, cmds);
    assert(after.files == before.files.filter(outside_root(last.root_id)));
    if m < roots.len() - 1 {
        lemma_removals_drop_files(idx, init, m);
        assert(init[m] == roots[m]);
    }
    assert forall|k: int| 0 <= k < after.files.len() implies (#[trigger] after.files[k]).root_id
        != roots[m].root_id by {
        before.files.lemma_filter_pred(outside_root(last.root_id), k);
        assert(outside_root(last.root_id)(after.files[k]));
        if m < roots.len() - 1 {
            assert(after.files.contains(after.files[k]));
            before.files.lemma_filter_contains_rev(outside_root(last.root_id), after.files[k]);
            let j = choose|j: int| 0 <= j < before.files.len() && before.files[j] == after.files[k];
            assert(before.files[j].root_id != roots[m].root_id);
        }
    }
}

/// After the root set was brought to `keys`, the index holds no file of a
/// root that was there before and whose path is none of `keys`.
pub proof fn lemma_sync_drops_files(before: IndexView, keys: Seq<String>, i: int)
    requires
        0 <= i < before.roots.len(),
        !listed(keys, before.roots[i].root_path@),
    ensures
        forall|k: int|
            0 <= k < synced(before, keys).files.len() ==> (#[trigger] synced(
                before,
                keys,
            ).files[k]).root_id != before.roots[i].root_id,
{
    let listing = roots_in_order(before.roots);
    let dropped = listing.filter(is_dropped(keys));
    lemma_roots_in_order(before.roots);
    assert(listing.contains(before.roots[i]));
    let a = choose|a: int| 0 <= a < listing.len() && listing[a] == before.roots[i];
    assert(is_dropped(keys)(listing[a]));
    listing.lemma_filter_contains(is_dropped(keys), a);
    let m = choose|m: int| 0 <= m < dropped.len() && dropped[m] == listing[a];
    lemma_removals_drop_files(apply_all(before, add_commands(keys)), dropped, m);
}

/// After a root was dropped from the root set, no search returns a file of
/// it.
pub proof fn lemma_dropped_root_is_not_found(
    before: IndexView,
    keys: Seq<String>,
    i: int,
    req: SearchRequest,
    filters: PathFilters,
)
    requires
        0 <= i < before.roots.len(),
        !listed(keys, before.roots[i].root_path@),
        distinct_paths(synced(before, keys).files),
    ensures
        forall|k: int|
            0 <= k < search_hits(synced(before, keys), req, filters).len() ==> (
            #[trigger] search_hits(synced(before, keys), req, filters)[k]).root_id
                != before.roots[i].root_id,
{
    lemma_sync_drops_files(before, keys, i);
    lemma_search_skips_root(synced(before, keys), req, filters, before.roots[i].root_id);
}

/// Applying batches of upserts is upserting all their records, in order.
pub proof fn lemma_apply_batches(idx: IndexView, cmds: Seq<WriteCommand>)
    requires
        are_batches(cmds),
    ensures
        apply_all(idx, cmds).roots == idx.roots,
        apply_all(idx, cmds).last_root_id == idx.last_root_id,
        apply_all(idx, cmds).files == upsert_all(idx.files, upserted_records(cmds)),
    decreases cmds.len(),
{
    if cmds.len() > 0 {
        let init = cmds.drop_last();
        assert forall|c: int| 0 <= c < init.len() implies (
        #[trigger] init[c] matches WriteCommand::UpsertFiles { files } && 1 <= files@.len()
            <= crate::records::UPSERT_BATCH_SIZE && (c < init.len() - 1 ==> files@.len()
            == crate::records::UPSERT_BATCH_SIZE)) by {
            assert(init[c] == cmds[c]);
        }
        lemma_apply_batches(idx, init);
        assert(cmds.last() == cmds[cmds.len() - 1]);
        match cmds.last() {
            WriteCommand::UpsertFiles { files } => {
                lemma_upsert_concat(idx.files, upserted_records(init), files@);
            },
            _ => {},
        }
    }
}

/// Whether an entry of the walk that becomes a record has the path `p`.
pub open spec fn in_walk(entries: Seq<WalkEntry>, root_id: i64, p: Seq<char>) -> bool {
    exists|e: int|
        0 <= e < entries.len() && yields_record(
            #[trigger] entries[e],
            Some(root_id),
            Seq::empty(),
        ) && entries[e].path@ == p
}

/// Whether no entry of the walk that becomes a record has the path `p`.
pub open spec fn not_in_walk(entries: Seq<WalkEntry>, root_id: i64, p: Seq<char>) -> bool {
    forall|e: int|
        0 <= e < entries.len() && yields_record(
            #[trigger] entries[e],
            Some(root_id),
            Seq::empty(),
        ) ==> entries[e].path@ != p
}

/// Every record of a walk has the path of an entry that becomes a record,
/// belongs to the scanned root and carries the marker of the scan.
pub proof fn lemma_walk_records(
    recs: Seq<FileRecord>,
    entries: Seq<WalkEntry>,
    root_id: i64,
    marker: i64,
    k: int,
) -> (e: int)
    requires
        records_of_walk(recs, entries, Some(root_id), Seq::empty(), marker),
        0 <= k < recs.len(),
    ensures
        0 <= e < entries.len(),
        yields_record(entries[e], Some(root_id), Seq::empty()),
        entries[e].path@ == recs[k].path@,
        recs[k].root_id == root_id,
        recs[k].last_indexed_time == marker,
        recs[k].file_name_norm@ == normalized(recs[k].file_name@),
{
    let keep = yielding(Some(root_id), Seq::empty());
    let picks = entries.filter(keep);
    assert(records_entry(recs[k], picks[k], Some(root_id), Seq::empty(), marker));
    entries.lemma_filter_pred(keep, k);
    assert(keep(picks[k]));
    assert(picks.contains(picks[k]));
    entries.lemma_filter_contains_rev(keep, picks[k]);
    let e = choose|e: int| 0 <= e < entries.len() && entries[e] == picks[k];
    e
}

/// A file of a root that a full scan of the root did not find again is
/// gone from the index when the scan has ended: the file carries the marker
/// of an earlier scan, the walk gives no record for its path, and the last
/// command of the scan purges it.
pub proof fn lemma_scan_purges_unseen(
    idx: IndexView,
    cmds: Seq<WriteCommand>,
    root_id: i64,
    entries: Seq<WalkEntry>,
    marker: i64,
    finished_at: i64,
    i: int,
)
    requires
        idx.wf(),
        has_root_id(idx.roots, root_id),
        is_full_scan(cmds, root_id, entries, marker, finished_at),
        0 <= i < idx.files.len(),
        is_stale(idx.files[i], root_id, marker),
        not_in_walk(entries, root_id, idx.files[i].path@),
    ensures
        apply_all(idx, cmds).wf(),
        !has_path(apply_all(idx, cmds).files, idx.files[i].path@),
{
    let batches = cmds.drop_last();
    let recs = upserted_records(batches);
    let mid = apply_all(idx, batches);
    lemma_apply_batches(idx, batches);
    assert forall|k: int| 0 <= k < recs.len() implies has_root_id(
        idx.roots,
        (#[trigger] recs[k]).root_id,
    ) && recs[k].path@ != idx.files[i].path@ && recs[k].file_name_norm@ == normalized(
        recs[k].file_name@,
    ) by {
        let e = lemma_walk_records(recs, entries, root_id, marker, k);
    }
    lemma_upsert_all(idx.files, recs, idx.roots);
    lemma_upsert_normalised(idx.files, recs);
    assert(mid.wf());
    if has_path(recs, idx.files[i].path@) {
        let k = choose|k: int| 0 <= k < recs.len() && (#[trigger] recs[k]).path@ == idx.files[i].path@;
    }
    lemma_upsert_keeps(idx.files, recs, i);
    assert(mid.files[i] == idx.files[i]);
    assert(cmds.last() == WriteCommand::FinalizeScan { root_id, marker, finished_at });
    lemma_finalize(mid, root_id, marker, finished_at);
    lemma_finalize_purges(mid, root_id, marker, finished_at);
}

/// A record of a batch, or one that took its place later in the batch, is
/// in the index after the batch was upserted.
pub proof fn lemma_upsert_holds_batch(files: Seq<FileRecord>, batch: Seq<FileRecord>, p: Seq<char>)
    requires
        distinct_paths(files),
        has_path(batch, p),
    ensures
        exists|k: int|
            0 <= k < batch.len() && (#[trigger] batch[k]).path@ == p && upsert_all(
                files,
                batch,
            ).contains(batch[k]),
    decreases batch.len(),
{
    let init = batch.drop_last();
    let last = batch.last();
    let mid = upsert_all(files, init);
    let out = upsert_all(files, batch);
    lemma_upsert_all(files, init, Seq::empty());
    lemma_upsert_one(mid, last, Seq::empty());
    if last.path@ == p {
        if has_path(mid, p) {
            let at = crate::index::path_position(mid, p);
            assert(out[at] == last);
        } else {
            assert(out[out.len() - 1] == last);
        }
        assert(batch[batch.len() - 1].path@ == p && out.contains(batch[batch.len() - 1]));
    } else {
        let k0 = choose|k: int| 0 <= k < batch.len() && (#[trigger] batch[k]).path@ == p;
        assert(init[k0].path@ == p);
        lemma_upsert_holds_batch(files, init, p);
        let k = choose|k: int|
            0 <= k < init.len() && (#[trigger] init[k]).path@ == p && mid.contains(init[k]);
        let j = choose|j: int| 0 <= j < mid.len() && mid[j] == init[k];
        if has_path(mid, last.path@) {
            let at = crate::index::path_position(mid, last.path@);
            assert(at != j);
            assert(out[j] == mid[j]);
        } else {
            assert(out[j] == mid[j]);
        }
        assert(batch[k].path@ == p && out.contains(batch[k]));
    }
}

/// Every file that a full scan found is in the index when the scan has
/// ended, under the scanned root.
pub proof fn lemma_scan_indexes_seen(
    idx: IndexView,
    cmds: Seq<WriteCommand>,
    root_id: i64,
    entries: Seq<WalkEntry>,
    marker: i64,
    finished_at: i64,
    e: int,
)
    requires
        idx.wf(),
        has_root_id(idx.roots, root_id),
        is_full_scan(cmds, root_id, entries, marker, finished_at),
        0 <= e < entries.len(),
        yields_record(entries[e], Some(root_id), Seq::empty()),
    ensures
        exists|k: int|
            0 <= k < apply_all(idx, cmds).files.len() && (#[trigger] apply_all(
                idx,
                cmds,
            ).files[k]).path@ == entries[e].path@ && apply_all(idx, cmds).files[k].root_id
                == root_id,
{
    let batches = cmds.drop_last();
    let recs = upserted_records(batches);
    let mid = apply_all(idx, batches);
    let keep = yielding(Some(root_id), Seq::empty());
    let picks = entries.filter(keep);
    lemma_apply_batches(idx, batches);
    assert(keep(entries[e]));
    entries.lemma_filter_contains(keep, e);
    let m = choose|m: int| 0 <= m < picks.len() && picks[m] == entries[e];
    assert(records_entry(recs[m], picks[m], Some(root_id), Seq::empty(), marker));
    assert(recs[m].path@ == entries[e].path@);
    lemma_upsert_holds_batch(idx.files, recs, entries[e].path@);
    let k = choose|k: int|
        0 <= k < recs.len() && (#[trigger] recs[k]).path@ == entries[e].path@ && mid.files.contains(
            recs[k],
        );
    let e2 = lemma_walk_records(recs, entries, root_id, marker, k);
    let j = choose|j: int| 0 <= j < mid.files.len() && mid.files[j] == recs[k];
    assert(cmds.last() == WriteCommand::FinalizeScan { root_id, marker, finished_at });
    assert forall|r: int| 0 <= r < recs.len() implies has_root_id(
        idx.roots,
        (#[trigger] recs[r]).root_id,
    ) && recs[r].file_name_norm@ == normalized(recs[r].file_name@) by {
        let e3 = lemma_walk_records(recs, entries, root_id, marker, r);
    }
    lemma_upsert_all(idx.files, recs, idx.roots);
    lemma_upsert_normalised(idx.files, recs);
    lemma_finalize_purges(mid, root_id, marker, finished_at);
    let after = apply_all(idx, cmds);
    assert(!is_stale(mid.files[j], root_id, marker));
    assert(after.files.contains(mid.files[j]));
    let k2 = choose|k2: int| 0 <= k2 < after.files.len() && after.files[k2] == mid.files[j];
    assert(after.files[k2].path@ == entries[e].path@);
}

/// What is left after the deletion at the old place of a change has no two
/// records of one path, and holds no record at the old place; where the old
/// place is gone or is a directory, it holds no record under it either.
pub proof fn lemma_after_delete(files: Seq<FileRecord>, old_path: ProbedPath, p: Seq<char>)
    requires
        distinct_paths(files),
    ensures
        distinct_paths(after_delete(files, Some(old_path))),
        !has_path(after_delete(files, Some(old_path)), old_path.path@),
        (old_path.state is Missing || old_path.state is Directory) && at_or_under(
            p,
            old_path.path@,
        ) ==> !has_path(after_delete(files, Some(old_path)), p),
{
    let targets = seq![old_path.path];
    let left = after_delete(files, Some(old_path));
    let exact = files.filter(not_listed(targets));
    assert(targets[0]@ == old_path.path@);
    assert(listed(targets, old_path.path@));
    assert(under_any(targets, old_path.path@));
    lemma_filter_files(files, not_listed(targets), Seq::empty());
    lemma_filter_files(files, not_under(targets), Seq::empty());
    lemma_filter_files(exact, not_under(targets), Seq::empty());
    if has_path(left, old_path.path@) {
        let k = choose|k: int| 0 <= k < left.len() && (#[trigger] left[k]).path@ == old_path.path@;
        match old_path.state {
            PathState::Directory { .. } => {
                assert(not_under(targets)(left[k]));
            },
            PathState::Missing => {
                assert(not_under(targets)(left[k]));
            },
            _ => {
                assert(not_listed(targets)(left[k]));
            },
        }
    }
    if (old_path.state is Missing || old_path.state is Directory) && at_or_under(
        p,
        old_path.path@,
    ) && has_path(left, p) {
        let k = choose|k: int| 0 <= k < left.len() && (#[trigger] left[k]).path@ == p;
        assert(under_any(targets, left[k].path@));
        assert(not_under(targets)(left[k]));
    }
}

/// After a change of a path was applied, the index holds nothing at the old
/// place, unless the new place is the same path.
pub proof fn lemma_change_clears_old_path(
    files: Seq<FileRecord>,
    old_path: ProbedPath,
    recs: Seq<FileRecord>,
)
    requires
        distinct_paths(files),
        !has_path(recs, old_path.path@),
    ensures
        !has_path(upsert_all(after_delete(files, Some(old_path)), recs), old_path.path@),
{
    lemma_after_delete(files, old_path, old_path.path@);
    lemma_upsert_paths(after_delete(files, Some(old_path)), recs, old_path.path@);
}

/// After a change was applied whose old place is gone, or is a directory,
/// the index holds nothing under the old place but what the new place gave:
/// a directory that was moved away takes all that lay in it along.
pub proof fn lemma_change_clears_below_old_path(
    files: Seq<FileRecord>,
    old_path: ProbedPath,
    recs: Seq<FileRecord>,
    p: Seq<char>,
)
    requires
        distinct_paths(files),
        old_path.state is Missing || old_path.state is Directory,
        at_or_under(p, old_path.path@),
        !has_path(recs, p),
    ensures
        !has_path(upsert_all(after_delete(files, Some(old_path)), recs), p),
{
    lemma_after_delete(files, old_path, p);
    lemma_upsert_paths(after_delete(files, Some(old_path)), recs, p);
}

/// After a change of a path was applied, the index holds a record for each
/// path that the new place gave a record for.
pub proof fn lemma_change_indexes_new_path(
    files: Seq<FileRecord>,
    old_path: Option<ProbedPath>,
    recs: Seq<FileRecord>,
    k: int,
)
    requires
        distinct_paths(files),
        0 <= k < recs.len(),
    ensures
        has_path(upsert_all(after_delete(files, old_path), recs), recs[k].path@),
{
    match old_path {
        Some(o) => {
            lemma_after_delete(files, o, recs[k].path@);
        },
        None => {},
    }
    lemma_upsert_paths(after_delete(files, old_path), recs, recs[k].path@);
}


/// Two filters that agree on every element of a sequence keep the same.
pub proof fn lemma_filter_same<T>(s: Seq<T>, p: spec_fn(T) -> bool, q: spec_fn(T) -> bool)
    requires
        forall|i: int| 0 <= i < s.len() ==> p(#[trigger] s[i]) == q(s[i]),
    ensures
        s.filter(p) == s.filter(q),
    decreases s.len(),
{
    reveal(Seq::filter);
    if s.len() > 0 {
        assert forall|i: int| 0 <= i < s.drop_last().len() implies p(
            #[trigger] s.drop_last()[i],
        ) == q(s.drop_last()[i]) by {
            assert(s.drop_last()[i] == s[i]);
        }
        lemma_filter_same(s.drop_last(), p, q);
        assert(s.last() == s[s.len() - 1]);
    }
}

/// Whether no two entries of a walk have the same path.
pub open spec fn distinct_entries(entries: Seq<WalkEntry>) -> bool {
    forall|a: int, b: int|
        0 <= a < b < entries.len() ==> (#[trigger] entries[a]).path@ != (#[trigger] entries[b]).path@
}

/// Filtering a walk that names no path twice gives one that names no path
/// twice.
pub proof fn lemma_filter_entries(entries: Seq<WalkEntry>, keep: spec_fn(WalkEntry) -> bool)
    requires
        distinct_entries(entries),
    ensures
        distinct_entries(entries.filter(keep)),
        forall|k: int|
            0 <= k < entries.filter(keep).len() ==> entries.contains(
                #[trigger] entries.filter(keep)[k],
            ),
    decreases entries.len(),
{
    reveal(Seq::filter);
    if entries.len() > 0 {
        let rest = entries.drop_last();
        let last = entries.last();
        assert forall|a: int, b: int| 0 <= a < b < rest.len() implies (#[trigger] rest[a]).path@ != (
        #[trigger] rest[b]).path@ by {
            assert(rest[a] == entries[a] && rest[b] == entries[b]);
        }
        lemma_filter_entries(rest, keep);
        let sub = rest.filter(keep);
        let out = entries.filter(keep);
        assert forall|k: int| 0 <= k < out.len() implies entries.contains(#[trigger] out[k]) by {
            if k < sub.len() {
                assert(out[k] == sub[k]);
                assert(rest.contains(sub[k]));
                let j = choose|j: int| 0 <= j < rest.len() && rest[j] == sub[k];
                assert(entries[j] == out[k]);
            } else {
                assert(entries[entries.len() - 1] == out[k]);
            }
        }
        assert forall|a: int, b: int| 0 <= a < b < out.len() implies (#[trigger] out[a]).path@ != (
        #[trigger] out[b]).path@ by {
            if b < sub.len() {
                assert(out[a] == sub[a] && out[b] == sub[b]);
            } else {
                assert(out[b] == last);
                assert(out[a] == sub[a]);
                assert(rest.contains(sub[a]));
                let j = choose|j: int| 0 <= j < rest.len() && rest[j] == sub[a];
                assert(entries[j].path@ != entries[entries.len() - 1].path@);
            }
        }
    }
}

/// The files of the root `id`.
pub open spec fn in_root(id: i64) -> spec_fn(FileRecord) -> bool {
    |f: FileRecord| f.root_id == id
}

/// The path of a record.
pub open spec fn path_of() -> spec_fn(FileRecord) -> Seq<char> {
    |f: FileRecord| f.path@
}

/// When a full scan of a root has ended, the index holds as many files of
/// the root as the walk found files to record, if the walk names no path
/// twice and every file of the root from before the scan carries an older
/// marker.
pub proof fn lemma_scan_count(
    idx: IndexView,
    cmds: Seq<WriteCommand>,
    root_id: i64,
    entries: Seq<WalkEntry>,
    marker: i64,
    finished_at: i64,
)
    requires
        idx.wf(),
        has_root_id(idx.roots, root_id),
        is_full_scan(cmds, root_id, entries, marker, finished_at),
        distinct_entries(entries),
        forall|i: int|
            0 <= i < idx.files.len() && (#[trigger] idx.files[i]).root_id == root_id
                ==> idx.files[i].last_indexed_time < marker,
    ensures
        apply_all(idx, cmds).wf(),
        apply_all(idx, cmds).files.filter(in_root(root_id)).len() == entries.filter(
            yielding(Some(root_id), Seq::empty()),
        ).len(),
        forall|k: int|
            0 <= k < apply_all(idx, cmds).files.len() && (#[trigger] apply_all(
                idx,
                cmds,
            ).files[k]).root_id == root_id ==> in_walk(
                entries,
                root_id,
                apply_all(idx, cmds).files[k].path@,
            ),
{
    let batches = cmds.drop_last();
    let recs = upserted_records(batches);
    let mid = apply_all(idx, batches);
    let after = apply_all(idx, cmds);
    let keep = yielding(Some(root_id), Seq::empty());
    let picks = entries.filter(keep);
    lemma_apply_batches(idx, batches);
    lemma_filter_entries(entries, keep);
    assert forall|k: int| 0 <= k < recs.len() implies has_root_id(
        idx.roots,
        (#[trigger] recs[k]).root_id,
    ) && recs[k].root_id == root_id && recs[k].last_indexed_time == marker && recs[k].path@
        == picks[k].path@ && recs[k].file_name_norm@ == normalized(recs[k].file_name@) by {
        let e = lemma_walk_records(recs, entries, root_id, marker, k);
        assert(records_entry(recs[k], picks[k], Some(root_id), Seq::empty(), marker));
    }
    lemma_upsert_all(idx.files, recs, idx.roots);
    lemma_upsert_normalised(idx.files, recs);
    assert(mid.wf());
    assert(cmds.last() == WriteCommand::FinalizeScan { root_id, marker, finished_at });
    lemma_finalize(mid, root_id, marker, finished_at);
    lemma_finalize_purges(mid, root_id, marker, finished_at);
    lemma_filter_files(mid.files, not_stale(root_id, marker), mid.roots);
    lemma_filter_files(after.files, in_root(root_id), after.roots);
    let a = after.files.filter(in_root(root_id));
    let pa = a.map_values(path_of());
    let pr = recs.map_values(path_of());
    assert(pa.no_duplicates()) by {
        assert forall|i: int, j: int|
            0 <= i < pa.len() && 0 <= j < pa.len() && i != j implies pa[i] != pa[j] by {
            if i < j {
                assert(a[i].path@ != a[j].path@);
            } else {
                assert(a[j].path@ != a[i].path@);
            }
        }
    }
    assert(pr.no_duplicates()) by {
        assert forall|i: int, j: int|
            0 <= i < pr.len() && 0 <= j < pr.len() && i != j implies pr[i] != pr[j] by {
            if i < j {
                assert(picks[i].path@ != picks[j].path@);
            } else {
                assert(picks[j].path@ != picks[i].path@);
            }
        }
    }
    assert forall|p: Seq<char>| pa.contains(p) implies pr.contains(p) by {
        let k = choose|k: int| 0 <= k < pa.len() && pa[k] == p;
        let f = a[k];
        assert(in_root(root_id)(f) && after.files.contains(f));
        after.files.lemma_filter_contains_rev(in_root(root_id), f);
        let m = choose|m: int| 0 <= m < after.files.len() && after.files[m] == f;
        assert(!is_stale(after.files[m], root_id, marker));
        assert(mid.files.contains(after.files[m]));
        let j = choose|j: int| 0 <= j < mid.files.len() && mid.files[j] == f;
        lemma_upsert_origin(idx.files, recs, j);
        if recs.contains(f) {
            let r = choose|r: int| 0 <= r < recs.len() && recs[r] == f;
            assert(pr[r] == p);
        } else {
            assert(idx.files[j] == f);
            assert(is_stale(f, root_id, marker));
        }
    }
    assert forall|p: Seq<char>| pr.contains(p) implies pa.contains(p) by {
        let k0 = choose|k: int| 0 <= k < pr.len() && pr[k] == p;
        assert(recs[k0].path@ == p);
        lemma_upsert_holds_batch(idx.files, recs, p);
        let k = choose|k: int|
            0 <= k < recs.len() && (#[trigger] recs[k]).path@ == p && mid.files.contains(recs[k]);
        let j = choose|j: int| 0 <= j < mid.files.len() && mid.files[j] == recs[k];
        assert(!is_stale(mid.files[j], root_id, marker));
        assert(after.files.contains(mid.files[j]));
        let m = choose|m: int| 0 <= m < after.files.len() && after.files[m] == mid.files[j];
        assert(in_root(root_id)(after.files[m]));
        after.files.lemma_filter_contains(in_root(root_id), m);
        let x = choose|x: int| 0 <= x < a.len() && a[x] == after.files[m];
        assert(pa[x] == p);
    }
    assert(pa.to_set() =~= pr.to_set());
    pa.unique_seq_to_set();
    pr.unique_seq_to_set();
    assert forall|k: int|
        0 <= k < after.files.len() && (#[trigger] after.files[k]).root_id
            == root_id implies in_walk(entries, root_id, after.files[k].path@) by {
        assert(in_root(root_id)(after.files[k]));
        after.files.lemma_filter_contains(in_root(root_id), k);
        let x = choose|x: int| 0 <= x < a.len() && a[x] == after.files[k];
        assert(pa[x] == after.files[k].path@);
        assert(pa.contains(after.files[k].path@));
        assert(pr.contains(after.files[k].path@));
        let m = choose|m: int| 0 <= m < pr.len() && pr[m] == after.files[k].path@;
        let e = lemma_walk_records(recs, entries, root_id, marker, m);
    }
}

/// Whether a request asks for all files of the root `root` and for nothing
/// else: a blank query, the root named by its id or by its path or by both,
/// no other filter.
pub open spec fn asks_for_root(req: SearchRequest, filters: PathFilters, root: RootEntry) -> bool {
    &&& normalized(req.query@).len() == 0
    &&& req.root_id is None || req.root_id == Some(root.root_id)
    &&& filters.root_path is None || filters.root_path == Some(root.root_path@)
    &&& req.root_id is Some || filters.root_path is Some
    &&& filters.parent_dir is None
    &&& req.modified_after is None
    &&& req.modified_before is None
    &&& req.size_min is None
    &&& req.size_max is None
}

/// After a full scan of an enabled root, a search for all files of the
/// root returns as many hits as the walk found files to record: the files
/// of the tracked type count, the others do not. This holds where the walk
/// names no path twice, every file of the root from before the scan carries
/// an older marker, and the limit of the search admits that many hits.
pub proof fn lemma_scan_then_search(
    idx: IndexView,
    cmds: Seq<WriteCommand>,
    r: int,
    entries: Seq<WalkEntry>,
    marker: i64,
    finished_at: i64,
    req: SearchRequest,
    filters: PathFilters,
)
    requires
        idx.wf(),
        0 <= r < idx.roots.len(),
        idx.roots[r].is_enabled,
        is_full_scan(cmds, idx.roots[r].root_id, entries, marker, finished_at),
        distinct_entries(entries),
        forall|i: int|
            0 <= i < idx.files.len() && (#[trigger] idx.files[i]).root_id == idx.roots[r].root_id
                ==> idx.files[i].last_indexed_time < marker,
        asks_for_root(req, filters, idx.roots[r]),
        entries.filter(yielding(Some(idx.roots[r].root_id), Seq::empty())).len() <= clamped_limit(
            req.limit,
        ),
    ensures
        search_hits(apply_all(idx, cmds), req, filters).len() == entries.filter(
            yielding(Some(idx.roots[r].root_id), Seq::empty()),
        ).len(),
        forall|k: int|
            0 <= k < search_hits(apply_all(idx, cmds), req, filters).len() ==> in_walk(
                entries,
                idx.roots[r].root_id,
                (#[trigger] search_hits(apply_all(idx, cmds), req, filters)[k]).path@,
            ),
        forall|a: int, b: int|
            0 <= a < b < search_hits(apply_all(idx, cmds), req, filters).len() ==> (
            #[trigger] search_hits(apply_all(idx, cmds), req, filters)[a]).path@ != (
            #[trigger] search_hits(apply_all(idx, cmds), req, filters)[b]).path@,
{
    let root_id = idx.roots[r].root_id;
    let batches = cmds.drop_last();
    let mid = apply_all(idx, batches);
    let after = apply_all(idx, cmds);
    assert(has_root_id(idx.roots, root_id));
    lemma_scan_count(idx, cmds, root_id, entries, marker, finished_at);
    lemma_apply_batches(idx, batches);
    assert(cmds.last() == WriteCommand::FinalizeScan { root_id, marker, finished_at });
    assert(after.roots[r].root_id == root_id && after.roots[r].is_enabled);
    assert(after.roots[r].root_path@ == idx.roots[r].root_path@);
    let want = selected(after.roots, req, filters, NamePattern::Any);
    assert forall|i: int| 0 <= i < after.files.len() implies want(#[trigger] after.files[i])
        == in_root(root_id)(after.files[i]) by {
        let f = after.files[i];
        if f.root_id == root_id {
            assert(root_admits(after.roots[r], f, filters));
            assert(passes_filters(f, after.roots, req, filters));
        }
        if want(f) && f.root_id != root_id {
            let k = choose|k: int|
                0 <= k < after.roots.len() && root_admits(#[trigger] after.roots[k], f, filters);
            assert(after.roots[k].root_path@ == after.roots[r].root_path@);
            if k < r {
                assert(after.roots[k].root_path@ != after.roots[r].root_path@);
            } else if r < k {
                assert(after.roots[r].root_path@ != after.roots[k].root_path@);
            }
        }
    }
    lemma_filter_same(after.files, want, in_root(root_id));
    lemma_search_finds_all(after, req, filters);
    lemma_search_no_repeats(after, req, filters);
    lemma_search_only_matches(after, req, filters);
    let hits = search_hits(after, req, filters);
    assert forall|k: int| 0 <= k < hits.len() implies in_walk(
        entries,
        root_id,
        (#[trigger] hits[k]).path@,
    ) by {
        assert(is_match(hits[k], after, req, filters));
        let i = choose|i: int|
            0 <= i < after.files.len() && hits[k] == hit_of(#[trigger] after.files[i])
                && passes_filters(after.files[i], after.roots, req, filters) && has_substring(
                after.files[i].file_name_norm@,
                normalized(req.query@),
            );
        assert(want(after.files[i]));
        assert(in_root(root_id)(after.files[i]));
    }
}

/// After the first full scan of an enabled root, of which the index held
/// no file, a search for all files of the root returns exactly as many hits
/// as the walk found regular files of the tracked type that could be
/// recorded, where the walk names no path twice and the limit of the search
/// admits that many hits.
pub proof fn lemma_first_scan_then_search(
    idx: IndexView,
    cmds: Seq<WriteCommand>,
    r: int,
    entries: Seq<WalkEntry>,
    marker: i64,
    finished_at: i64,
    req: SearchRequest,
    filters: PathFilters,
)
    requires
        idx.wf(),
        0 <= r < idx.roots.len(),
        idx.roots[r].is_enabled,
        forall|i: int|
            0 <= i < idx.files.len() ==> (#[trigger] idx.files[i]).root_id != idx.roots[r].root_id,
        is_full_scan(cmds, idx.roots[r].root_id, entries, marker, finished_at),
        distinct_entries(entries),
        asks_for_root(req, filters, idx.roots[r]),
        entries.filter(yielding(Some(idx.roots[r].root_id), Seq::empty())).len() <= clamped_limit(
            req.limit,
        ),
    ensures
        search_hits(apply_all(idx, cmds), req, filters).len() == entries.filter(
            yielding(Some(idx.roots[r].root_id), Seq::empty()),
        ).len(),
        forall|k: int|
            0 <= k < search_hits(apply_all(idx, cmds), req, filters).len() ==> in_walk(
                entries,
                idx.roots[r].root_id,
                (#[trigger] search_hits(apply_all(idx, cmds), req, filters)[k]).path@,
            ),
        forall|a: int, b: int|
            0 <= a < b < search_hits(apply_all(idx, cmds), req, filters).len() ==> (
            #[trigger] search_hits(apply_all(idx, cmds), req, filters)[a]).path@ != (
            #[trigger] search_hits(apply_all(idx, cmds), req, filters)[b]).path@,
{
    lemma_scan_then_search(idx, cmds, r, entries, marker, finished_at, req, filters);
}

/// Whether every root of `cur` is a root of `before`, with its id and its
/// path, or has an id that was handed out after `before`.
pub open spec fn old_or_newer(cur: Seq<RootEntry>, before: IndexView) -> bool {
    forall|i: int|
        0 <= i < cur.len() ==> has_root(
            before.roots,
            (#[trigger] cur[i]).root_id,
            cur[i].root_path@,
        ) || cur[i].root_id > before.last_root_id
}

/// Adding or enabling roots leaves the files as they are, keeps every path
/// that was a root's, and gives every root that is new an id that was
/// never handed out before.
pub proof fn lemma_adds(before: IndexView, keys: Seq<String>)
    requires
        before.wf(),
        ids_suffice(before, keys),
    ensures
        apply_all(before, add_commands(keys)).files == before.files,
        before.last_root_id <= apply_all(before, add_commands(keys)).last_root_id
            <= before.last_root_id + keys.filter(is_new_key(before.roots)).len(),
        forall|p: Seq<char>|
            has_root_path(before.roots, p) ==> #[trigger] has_root_path(
                apply_all(before, add_commands(keys)).roots,
                p,
            ),
        old_or_newer(apply_all(before, add_commands(keys)).roots, before),
    decreases keys.len(),
{
    let fresh = is_new_key(before.roots);
    let after = apply_all(before, add_commands(keys));
    if keys.len() == 0 {
        assert forall|i: int| 0 <= i < before.roots.len() implies has_root(
            before.roots,
            (#[trigger] before.roots[i]).root_id,
            before.roots[i].root_path@,
        ) by {}
    } else {
        let init = keys.drop_last();
        let k = keys.last();
        init.lemma_filter_push(k, fresh);
        assert(init.push(k) =~= keys);
        lemma_adds(before, init);
        assert(add_commands(keys).drop_last() =~= add_commands(init));
        assert(add_commands(keys).last() == WriteCommand::AddOrEnableRoot { root_path: k });
        let mid = apply_all(before, add_commands(init));
        if has_root_path(mid.roots, k@) {
            let at = crate::index::root_position(mid.roots, k@);
            assert forall|p: Seq<char>| has_root_path(before.roots, p) implies has_root_path(
                after.roots,
                p,
            ) by {
                assert(has_root_path(mid.roots, p));
                let i = choose|i: int|
                    0 <= i < mid.roots.len() && (#[trigger] mid.roots[i]).root_path@ == p;
                assert(after.roots[i].root_path@ == p);
            }
            assert forall|i: int| 0 <= i < after.roots.len() implies has_root(
                before.roots,
                (#[trigger] after.roots[i]).root_id,
                after.roots[i].root_path@,
            ) || after.roots[i].root_id > before.last_root_id by {
                assert(after.roots[i].root_id == mid.roots[i].root_id);
                assert(after.roots[i].root_path@ == mid.roots[i].root_path@);
            }
        } else {
            assert(fresh(k));
            assert forall|p: Seq<char>| has_root_path(before.roots, p) implies has_root_path(
                after.roots,
                p,
            ) by {
                assert(has_root_path(mid.roots, p));
                let i = choose|i: int|
                    0 <= i < mid.roots.len() && (#[trigger] mid.roots[i]).root_path@ == p;
                assert(after.roots[i] == mid.roots[i]);
            }
            assert forall|i: int| 0 <= i < after.roots.len() implies has_root(
                before.roots,
                (#[trigger] after.roots[i]).root_id,
                after.roots[i].root_path@,
            ) || after.roots[i].root_id > before.last_root_id by {
                if i < mid.roots.len() {
                    assert(after.roots[i] == mid.roots[i]);
                }
            }
        }
    }
}

/// Removing roots keeps only roots and files that were there.
pub proof fn lemma_removals_keep_only_old(idx: IndexView, roots: Seq<RootEntry>)
    ensures
        forall|i: int|
            0 <= i < apply_all(idx, roots.map_values(removal())).roots.len() ==> idx.roots.contains(
                #[trigger] apply_all(idx, roots.map_values(removal())).roots[i],
            ),
        forall|k: int|
            0 <= k < apply_all(idx, roots.map_values(removal())).files.len() ==> idx.files.contains(
                #[trigger] apply_all(idx, roots.map_values(removal())).files[k],
            ),
    decreases roots.len(),
{
    let cmds = roots.map_values(removal());
    let after = apply_all(idx, cmds);
    if roots.len() > 0 {
        let init = roots.drop_last();
        let last = roots.last();
        assert(cmds.drop_last() =~= init.map_values(removal()));
        assert(cmds.last() == WriteCommand::RemoveRoot { root_id: last.root_id });
        lemma_removals_keep_only_old(idx, init);
        let mid = apply_all(idx, init.map_values(removal()));
        assert forall|i: int| 0 <= i < after.roots.len() implies idx.roots.contains(
            #[trigger] after.roots[i],
        ) by {
            assert(after.roots.contains(after.roots[i]));
            mid.roots.lemma_filter_contains_rev(
                crate::index::other_root(last.root_id),
                after.roots[i],
            );
            let j = choose|j: int| 0 <= j < mid.roots.len() && mid.roots[j] == after.roots[i];
            assert(idx.roots.contains(mid.roots[j]));
        }
        assert forall|k: int| 0 <= k < after.files.len() implies idx.files.contains(
            #[trigger] after.files[k],
        ) by {
            assert(after.files.contains(after.files[k]));
            mid.files.lemma_filter_contains_rev(outside_root(last.root_id), after.files[k]);
            let j = choose|j: int| 0 <= j < mid.files.len() && mid.files[j] == after.files[k];
            assert(idx.files.contains(mid.files[j]));
        }
    } else {
        assert forall|i: int| 0 <= i < idx.roots.len() implies idx.roots.contains(
            #[trigger] idx.roots[i],
        ) by {}
        assert forall|k: int| 0 <= k < idx.files.len() implies idx.files.contains(
            #[trigger] idx.files[k],
        ) by {}
    }
}

/// After the root set was brought to `keys`, the index holds no file of a
/// root whose path was no root's before: a root that was just added is
/// empty until its first scan.
pub proof fn lemma_sync_adds_empty_root(before: IndexView, keys: Seq<String>, i: int)
    requires
        before.wf(),
        ids_suffice(before, keys),
        0 <= i < synced(before, keys).roots.len(),
        !has_root_path(before.roots, synced(before, keys).roots[i].root_path@),
    ensures
        forall|k: int|
            0 <= k < synced(before, keys).files.len() ==> (#[trigger] synced(
                before,
                keys,
            ).files[k]).root_id != synced(before, keys).roots[i].root_id,
{
    let mid = apply_all(before, add_commands(keys));
    let after = synced(before, keys);
    let dropped = roots_in_order(before.roots).filter(is_dropped(keys));
    lemma_adds(before, keys);
    lemma_removals_keep_only_old(mid, dropped);
    let root = after.roots[i];
    assert(mid.roots.contains(root));
    let m = choose|m: int| 0 <= m < mid.roots.len() && mid.roots[m] == root;
    if has_root(before.roots, root.root_id, root.root_path@) {
        let b = choose|b: int|
            0 <= b < before.roots.len() && (#[trigger] before.roots[b]).root_id == root.root_id
                && before.roots[b].root_path@ == root.root_path@;
        assert(has_root_path(before.roots, root.root_path@));
    }
    assert(root.root_id > before.last_root_id);
    assert forall|k: int| 0 <= k < after.files.len() implies (#[trigger] after.files[k]).root_id
        != root.root_id by {
        assert(mid.files.contains(after.files[k]));
        let j = choose|j: int| 0 <= j < before.files.len() && before.files[j] == after.files[k];
        assert(has_root_id(before.roots, before.files[j].root_id));
        let x = choose|x: int|
            0 <= x < before.roots.len() && (#[trigger] before.roots[x]).root_id
                == before.files[j].root_id;
        assert(before.roots[x].root_id <= before.last_root_id);
    }
}

} // verus!
