//! The watcher's decisions: how raw change events are buffered, when the
//! buffer is applied, and which commands a flush gives once the paths it
//! names were looked at on disk.

use crate::index::{is_listed, listed, WriteCommand};
use crate::normalize::{is_mp4_path, is_tracked_path};
use crate::records::{FileRecord, WatchedRoot, DEBOUNCE_WINDOW_MILLIS};
use crate::scanner::{
    are_batches, build_record_from_path, describes, find_root_id_for_path, has_owner, owns,
    recordable, records_of_walk, upsert_directory, upserted_records, FileMeta, WalkEntry,
};
use vstd::prelude::*;

verus! {

/// A change that the file system reported.
#[derive(Debug)]
pub struct WatchEvent {
    /// Whether the event is a change of name.
    pub is_rename: bool,
    /// The paths that the event names; for a move, the old path and then
    /// the new one.
    pub paths: Vec<String>,
}

/// The changes that wait for the next flush.
#[derive(Debug)]
pub struct PendingChanges {
    /// The paths that changed, each once.
    pub path_changes: Vec<String>,
    /// The moves that were reported with both paths: old, then new.
    pub moves: Vec<(String, String)>,
    /// The reading of the clock, in milliseconds, at the last event.
    pub last_change_at: Option<u64>,
}

/// `list` with `s` added at the end, unless it holds that text already.
pub open spec fn add_unique(list: Seq<String>, s: String) -> Seq<String> {
    if listed(list, s@) {
        list
    } else {
        list.push(s)
    }
}

/// `list` with the texts of `more` added one after the other, each only if
/// it is not there yet.
pub open spec fn add_all_unique(list: Seq<String>, more: Seq<String>) -> Seq<String>
    decreases more.len(),
{
    if more.len() == 0 {
        list
    } else {
        add_unique(add_all_unique(list, more.drop_last()), more.last())
    }
}

/// Adds `s` to `list` unless it holds that text already.
pub fn insert_unique(list: &mut Vec<String>, s: String)
    ensures
        final(list)@ == add_unique(old(list)@, s),
{
    if !is_listed(list, &s) {
        list.push(s);
    }
}

/// Whether an event is recorded as a move: a change of name that names
/// both paths.
pub open spec fn is_move(event: WatchEvent) -> bool {
    event.is_rename && event.paths@.len() >= 2
}

impl PendingChanges {
    /// Nothing pending.
    pub fn new() -> (p: PendingChanges)
        ensures
            p.path_changes@.len() == 0,
            p.moves@.len() == 0,
            p.last_change_at is None,
    {
        PendingChanges { path_changes: Vec::new(), moves: Vec::new(), last_change_at: None }
    }
}

/// Buffers one event. A move with both paths is kept as a pair; of every
/// other event the paths are added to the changed paths. `now` is the
/// clock's reading in milliseconds.
pub fn collect_pending_change(pending: &mut PendingChanges, event: &WatchEvent, now: u64)
    ensures
        final(pending).last_change_at == Some(now),
        is_move(*event) ==> final(pending).path_changes@ == old(pending).path_changes@ && final(pending).moves@ == old(pending).moves@.push((event.paths@[0], event.paths@[1])),
        !is_move(*event) ==> final(pending).moves@ == old(pending).moves@ && final(pending).path_changes@ == add_all_unique(old(pending).path_changes@, event.paths@),
{
    if event.is_rename && event.paths.len() >= 2 {
        pending.moves.push((event.paths[0].clone(), event.paths[1].clone()));
        pending.last_change_at = Some(now);
        return ;
    }
    let mut i: usize = 0;
    while i < event.paths.len()
        invariant
            i <= event.paths.len(),
            pending.moves@ == old(pending).moves@,
            pending.path_changes@ == add_all_unique(
                old(pending).path_changes@,
                event.paths@.take(i as int),
            ),
        decreases event.paths.len() - i,
    {
        insert_unique(&mut pending.path_changes, event.paths[i].clone());
        i += 1;
        assert(event.paths@.take(i as int).drop_last() =~= event.paths@.take(i - 1));
    }
    assert(event.paths@.take(event.paths.len() as int) =~= event.paths@);
    pending.last_change_at = Some(now);
}

/// The time from `then` to `now`, zero if the clock went back.
pub open spec fn elapsed_millis(now: u64, then: u64) -> int {
    if now >= then {
        now - then
    } else {
        0
    }
}

/// Whether the buffer is due: something is pending, and the last event is
/// at least the debounce window ago.
pub fn should_flush_pending(pending: &PendingChanges, now: u64) -> (r: bool)
    ensures
        r == ((pending.path_changes@.len() > 0 || pending.moves@.len() > 0) && (
        pending.last_change_at matches Some(t) && elapsed_millis(now, t)
            >= DEBOUNCE_WINDOW_MILLIS)),
{
    if pending.path_changes.len() == 0 && pending.moves.len() == 0 {
        return false;
    }
    match pending.last_change_at {
        Some(t) => {
            let elapsed: u64 = if now >= t {
                now - t
            } else {
                0
            };
            elapsed >= DEBOUNCE_WINDOW_MILLIS
        },
        None => false,
    }
}

/// The old paths of `moves`, in order.
pub open spec fn old_paths(moves: Seq<(String, String)>) -> Seq<String> {
    Seq::new(moves.len(), |i: int| moves[i].0)
}

/// The new paths of `moves`, in order.
pub open spec fn new_paths(moves: Seq<(String, String)>) -> Seq<String> {
    Seq::new(moves.len(), |i: int| moves[i].1)
}

/// The paths that a flush has to look at on disk.
#[derive(Debug)]
pub struct FlushPlan {
    /// The old paths of the moves.
    pub vanished: Vec<String>,
    /// The paths that may hold something new: the new paths of the moves and
    /// the changed paths, each once.
    pub changed: Vec<String>,
}

/// Empties the buffer and names the paths that the flush has to look at.
pub fn take_pending(pending: &mut PendingChanges) -> (plan: FlushPlan)
    ensures
        final(pending).path_changes@.len() == 0,
        final(pending).moves@.len() == 0,
        final(pending).last_change_at is None,
        plan.vanished@ == old_paths(old(pending).moves@),
        plan.changed@ == add_all_unique(
            add_all_unique(Seq::empty(), new_paths(old(pending).moves@)),
            old(pending).path_changes@,
        ),
{
    let mut moves: Vec<(String, String)> = Vec::new();
    core::mem::swap(&mut pending.moves, &mut moves);
    let mut paths: Vec<String> = Vec::new();
    core::mem::swap(&mut pending.path_changes, &mut paths);
    pending.last_change_at = None;
    let ghost all_moves = moves@;
    let ghost all_paths = paths@;
    let mut vanished: Vec<String> = Vec::new();
    let mut changed: Vec<String> = Vec::new();
    for m in it: moves
        invariant
            it.seq() == all_moves,
            vanished@ == old_paths(all_moves.take(it.index() as int)),
            changed@ == add_all_unique(Seq::empty(), new_paths(all_moves.take(it.index() as int))),
    {
        let (from, to) = m;
        proof {
            let n = it.index() as int;
            assert(new_paths(all_moves.take(n + 1)).drop_last() =~= new_paths(all_moves.take(n)));
            assert(new_paths(all_moves.take(n + 1)).last() == to);
            assert(old_paths(all_moves.take(n + 1)) =~= old_paths(all_moves.take(n)).push(from));
        }
        vanished.push(from);
        insert_unique(&mut changed, to);
    }
    assert(all_moves.take(all_moves.len() as int) =~= all_moves);
    let ghost base = changed@;
    for p in it: paths
        invariant
            it.seq() == all_paths,
            vanished@ == old_paths(all_moves),
            changed@ == add_all_unique(base, all_paths.take(it.index() as int)),
    {
        proof {
            let n = it.index() as int;
            assert(all_paths.take(n + 1).drop_last() =~= all_paths.take(n));
            assert(all_paths.take(n + 1).last() == p);
        }
        insert_unique(&mut changed, p);
    }
    assert(all_paths.take(all_paths.len() as int) =~= all_paths);
    FlushPlan { vanished, changed }
}

/// What was found at a path.
#[derive(Debug)]
pub enum PathState {
    /// Nothing is there.
    Missing,
    /// Something is there whose metadata could not be read.
    Unreadable,
    /// A directory, with the entries of a recursive walk of it.
    Directory { entries: Vec<WalkEntry> },
    /// Anything else, with its metadata.
    File { meta: FileMeta },
}

/// A path together with what was found there.
#[derive(Debug)]
pub struct ProbedPath {
    pub path: String,
    pub state: PathState,
}

/// The exact paths and the prefixes that are to be deleted.
pub struct DeleteTargets {
    pub paths: Seq<String>,
    pub prefixes: Seq<String>,
}

/// The targets with these exact paths and these prefixes.
pub open spec fn targets(paths: Seq<String>, prefixes: Seq<String>) -> DeleteTargets {
    DeleteTargets { paths, prefixes }
}

/// The targets after the path of `probe` was entered as one to delete. Of a
/// path that is gone nobody can tell whether it was a file or a directory,
/// so it is entered both as an exact path and as a prefix. A directory that
/// is there is entered as a prefix, anything else that is there as an exact
/// path.
pub open spec fn with_target(t: DeleteTargets, probe: ProbedPath) -> DeleteTargets {
    match probe.state {
        PathState::Directory { .. } => DeleteTargets {
            paths: t.paths,
            prefixes: add_unique(t.prefixes, probe.path),
        },
        PathState::Missing => DeleteTargets {
            paths: add_unique(t.paths, probe.path),
            prefixes: add_unique(t.prefixes, probe.path),
        },
        _ => DeleteTargets { paths: add_unique(t.paths, probe.path), prefixes: t.prefixes },
    }
}

/// Enters the path of `probe` among the paths to delete.
pub fn collect_delete_target(
    probe: &ProbedPath,
    delete_paths: &mut Vec<String>,
    delete_prefixes: &mut Vec<String>,
)
    ensures
        targets(final(delete_paths)@, final(delete_prefixes)@) == with_target(
            targets(old(delete_paths)@, old(delete_prefixes)@),
            *probe,
        ),
{
    match &probe.state {
        PathState::Directory { .. } => {
            insert_unique(delete_prefixes, probe.path.clone());
        },
        PathState::Missing => {
            insert_unique(delete_paths, probe.path.clone());
            insert_unique(delete_prefixes, probe.path.clone());
        },
        _ => {
            insert_unique(delete_paths, probe.path.clone());
        },
    }
}

/// The targets after each of `vanished` was entered.
pub open spec fn with_targets(t: DeleteTargets, vanished: Seq<ProbedPath>) -> DeleteTargets
    decreases vanished.len(),
{
    if vanished.len() == 0 {
        t
    } else {
        with_target(with_targets(t, vanished.drop_last()), vanished.last())
    }
}

/// The targets after each of `changed` that is gone was entered.
pub open spec fn with_missing(t: DeleteTargets, changed: Seq<ProbedPath>) -> DeleteTargets
    decreases changed.len(),
{
    if changed.len() == 0 {
        t
    } else {
        let before = with_missing(t, changed.drop_last());
        if changed.last().state is Missing {
            with_target(before, changed.last())
        } else {
            before
        }
    }
}

/// Whether a file at `path` with the metadata `meta` is indexed: it is of
/// the tracked type, a root owns it, and it can be recorded.
pub open spec fn file_is_indexed(path: Seq<char>, meta: FileMeta, roots: Seq<WatchedRoot>) -> bool {
    is_tracked_path(path) && has_owner(roots, path) && recordable(path, meta)
}

/// Whether `cmds` are the upserts that one changed path gives. A directory
/// gives the batches of its walk. A file that is indexed gives one command
/// with its one record, under the root that owns it. Anything else gives
/// nothing.
pub open spec fn is_upsert_of(
    cmds: Seq<WriteCommand>,
    probe: ProbedPath,
    roots: Seq<WatchedRoot>,
    marker: i64,
) -> bool {
    match probe.state {
        PathState::Directory { entries } => are_batches(cmds) && records_of_walk(
            upserted_records(cmds),
            entries@,
            None,
            roots,
            marker,
        ),
        PathState::File { meta } => if file_is_indexed(probe.path@, meta, roots) {
            cmds.len() == 1 && (cmds[0] matches WriteCommand::UpsertFiles { files } && files@.len()
                == 1 && describes(files@[0], files@[0].root_id, probe.path@, meta, marker)
                && exists|i: int| owns(roots, i, probe.path@) && roots[i].root_id == files@[0].root_id)
        } else {
            cmds.len() == 0
        },
        _ => cmds.len() == 0,
    }
}

/// The upserts that one changed path gives.
pub fn apply_upsert_change(probe: &ProbedPath, roots: &Vec<WatchedRoot>, marker: i64) -> (cmds:
    Vec<WriteCommand>)
    ensures
        is_upsert_of(cmds@, *probe, roots@, marker),
{
    match &probe.state {
        PathState::Directory { entries } => upsert_directory(entries, roots, marker),
        PathState::File { meta } => {
            let mut cmds: Vec<WriteCommand> = Vec::new();
            if !is_mp4_path(probe.path.as_str()) {
                return cmds;
            }
            let root_id = match find_root_id_for_path(probe.path.as_str(), roots) {
                Some(id) => id,
                None => {
                    return cmds;
                },
            };
            if let Some(record) = build_record_from_path(
                root_id,
                probe.path.as_str(),
                meta,
                marker,
            ) {
                let mut files: Vec<FileRecord> = Vec::new();
                files.push(record);
                cmds.push(WriteCommand::UpsertFiles { files });
            }
            cmds
        },
        _ => Vec::new(),
    }
}

/// Whether `cmds` are, one after the other, the upserts that the paths of
/// `changed` give.
pub open spec fn are_upserts_of(
    cmds: Seq<WriteCommand>,
    changed: Seq<ProbedPath>,
    roots: Seq<WatchedRoot>,
    marker: i64,
) -> bool
    decreases changed.len(),
{
    if changed.len() == 0 {
        cmds.len() == 0
    } else {
        exists|cut: int|
            #![trigger cmds.take(cut)]
            0 <= cut <= cmds.len() && are_upserts_of(
                cmds.take(cut),
                changed.drop_last(),
                roots,
                marker,
            ) && is_upsert_of(cmds.skip(cut), changed.last(), roots, marker)
    }
}

/// Whether `cmds` are the deletions of `t`: one command for the exact paths
/// if there are any, then one for the prefixes if there are any.
pub open spec fn are_deletes_of(cmds: Seq<WriteCommand>, t: DeleteTargets) -> bool {
    let n = (if t.paths.len() > 0 {
        1int
    } else {
        0int
    });
    let m = (if t.prefixes.len() > 0 {
        1int
    } else {
        0int
    });
    &&& cmds.len() == n + m
    &&& n == 1 ==> (cmds[0] matches WriteCommand::DeletePaths { paths } && paths@ == t.paths)
    &&& m == 1 ==> (cmds[n] matches WriteCommand::DeleteByPrefixes { prefixes } && prefixes@
        == t.prefixes)
}

/// What a flush deletes: the old paths of the moves, and the changed paths
/// that are gone.
pub open spec fn deletes_of_flush(vanished: Seq<ProbedPath>, changed: Seq<ProbedPath>) -> DeleteTargets {
    with_missing(with_targets(targets(Seq::empty(), Seq::empty()), vanished), changed)
}

/// Whether `cmds` are the commands of a flush: first the upserts of the
/// changed paths, then the deletions of the old paths of moves and of the
/// changed paths that are gone.
pub open spec fn is_flush_of(
    cmds: Seq<WriteCommand>,
    vanished: Seq<ProbedPath>,
    changed: Seq<ProbedPath>,
    roots: Seq<WatchedRoot>,
    marker: i64,
) -> bool {
    exists|cut: int|
        #![trigger cmds.take(cut)]
        0 <= cut <= cmds.len() && are_upserts_of(cmds.take(cut), changed, roots, marker)
            && are_deletes_of(cmds.skip(cut), deletes_of_flush(vanished, changed))
}

/// The commands of a flush. `vanished` holds the old paths of the moves and
/// `changed` the paths that may hold something new, each with what was
/// found there.
pub fn flush_pending_changes(
    vanished: &Vec<ProbedPath>,
    changed: &Vec<ProbedPath>,
    roots: &Vec<WatchedRoot>,
    marker: i64,
) -> (cmds: Vec<WriteCommand>)
    ensures
        is_flush_of(cmds@, vanished@, changed@, roots@, marker),
{
    let mut delete_paths: Vec<String> = Vec::new();
    let mut delete_prefixes: Vec<String> = Vec::new();
    let ghost start = targets(Seq::empty(), Seq::empty());
    let mut i: usize = 0;
    while i < vanished.len()
        invariant
            i <= vanished.len(),
            start == targets(Seq::empty(), Seq::empty()),
            targets(delete_paths@, delete_prefixes@) == with_targets(
                start,
                vanished@.take(i as int),
            ),
        decreases vanished.len() - i,
    {
        collect_delete_target(&vanished[i], &mut delete_paths, &mut delete_prefixes);
        i += 1;
        assert(vanished@.take(i as int).drop_last() =~= vanished@.take(i - 1));
    }
    assert(vanished@.take(vanished.len() as int) =~= vanished@);
    let ghost base = with_targets(start, vanished@);
    let mut cmds: Vec<WriteCommand> = Vec::new();
    let mut k: usize = 0;
    while k < changed.len()
        invariant
            k <= changed.len(),
            are_upserts_of(cmds@, changed@.take(k as int), roots@, marker),
            targets(delete_paths@, delete_prefixes@) == with_missing(
                base,
                changed@.take(k as int),
            ),
        decreases changed.len() - k,
    {
        let probe = &changed[k];
        let ghost before = cmds@;
        let mut more = apply_upsert_change(probe, roots, marker);
        let ghost added = more@;
        cmds.append(&mut more);
        if let PathState::Missing = &probe.state {
            collect_delete_target(probe, &mut delete_paths, &mut delete_prefixes);
        }
        k += 1;
        proof {
            assert(changed@.take(k as int).drop_last() =~= changed@.take(k - 1));
            assert(changed@.take(k as int).last() == *probe);
            let cut = before.len() as int;
            assert(cmds@.take(cut) =~= before);
            assert(cmds@.skip(cut) =~= added);
            assert(are_upserts_of(
                cmds@.take(cut),
                changed@.take(k as int).drop_last(),
                roots@,
                marker,
            ));
            assert(is_upsert_of(cmds@.skip(cut), changed@.take(k as int).last(), roots@, marker));
        }
    }
    assert(changed@.take(changed.len() as int) =~= changed@);
    let ghost ups = cmds@;
    let ghost found = targets(delete_paths@, delete_prefixes@);
    if delete_paths.len() > 0 {
        cmds.push(WriteCommand::DeletePaths { paths: delete_paths });
    }
    if delete_prefixes.len() > 0 {
        cmds.push(WriteCommand::DeleteByPrefixes { prefixes: delete_prefixes });
    }
    proof {
        assert(cmds@.take(ups.len() as int) =~= ups);
        let dels = cmds@.skip(ups.len() as int);
        assert(are_deletes_of(dels, found));
    }
    cmds
}

/// A root that was asked to be watched, with what came of it.
#[derive(Debug)]
pub struct WatchAttempt {
    pub root: WatchedRoot,
    /// Whether the root is on disk.
    pub on_disk: bool,
    /// Whether the watch on the root was set up.
    pub watched: bool,
}

/// The attempts that lead to a watched root.
pub open spec fn is_watched() -> spec_fn(WatchAttempt) -> bool {
    |a: WatchAttempt| a.on_disk && a.watched
}

/// Replaces the watched roots by those of `next` that are on disk and whose
/// watch was set up, in the order of `next`.
pub fn reset_watch_targets(current: &mut Vec<WatchedRoot>, next: Vec<WatchAttempt>)
    ensures
        final(current)@ == next@.filter(is_watched()).map_values(|a: WatchAttempt| a.root),
{
    current.clear();
    let ghost all = next@;
    assert(all.take(0).filter(is_watched()) =~= Seq::<WatchAttempt>::empty()) by {
        reveal(Seq::filter);
    }
    for attempt in it: next
        invariant
            it.seq() == all,
            current@ == all.take(it.index() as int).filter(is_watched()).map_values(
                |a: WatchAttempt| a.root,
            ),
    {
        proof {
            all.take(it.index() as int).lemma_filter_push(attempt, is_watched());
            assert(all.take(it.index() + 1) =~= all.take(it.index() as int).push(attempt));
        }
        if attempt.on_disk && attempt.watched {
            current.push(attempt.root);
            assert(current@ =~= all.take(it.index() + 1).filter(is_watched()).map_values(
                |a: WatchAttempt| a.root,
            ));
        }
    }
    assert(all.take(all.len() as int) =~= all);
}

} // verus!
