use vjdownloader::engine::{apply_delete_change, SearchEngine, RootCandidate};
use vjdownloader::index::WriteCommand;
use vjdownloader::normalize::{
    epoch_millis, epoch_secs, is_mp4_extension, is_mp4_path, normalize_parent_for_filter,
    normalize_root_path, path_to_key, system_time_to_epoch_secs,
};
use vjdownloader::records::{SearchRequest, WatchedRoot};
use vjdownloader::scanner::{flush_upsert_batch, flush_upsert_batch_if_full, FileMeta, WalkEntry};
use vjdownloader::text::trim;
use vjdownloader::watcher::{
    apply_upsert_change, collect_delete_target, collect_pending_change, flush_pending_changes,
    reset_watch_targets, should_flush_pending, take_pending, PathState, PendingChanges,
    ProbedPath, WatchAttempt, WatchEvent,
};
use vjdownloader::records::FileRecord;

fn event(is_rename: bool, paths: &[&str]) -> WatchEvent {
    WatchEvent { is_rename, paths: paths.iter().map(|p| p.to_string()).collect() }
}

fn meta(len: u64) -> FileMeta {
    FileMeta { is_file: true, len, modified: Some(10), created: None }
}

fn probe(path: &str, state: PathState) -> ProbedPath {
    ProbedPath { path: path.to_string(), state }
}

fn roots() -> Vec<WatchedRoot> {
    vec![
        WatchedRoot { root_id: 1, root_path: "/v".to_string() },
        WatchedRoot { root_id: 2, root_path: "/v/nested".to_string() },
    ]
}

#[test]
fn events_are_buffered_until_things_are_quiet() {
    let mut pending = PendingChanges::new();
    assert!(!should_flush_pending(&pending, 10_000));
    collect_pending_change(&mut pending, &event(false, &["/v/a.mp4", "/v/b.mp4", "/v/a.mp4"]), 1_000);
    collect_pending_change(&mut pending, &event(true, &["/v/old.mp4", "/v/new.mp4", "/v/extra"]), 1_200);
    collect_pending_change(&mut pending, &event(true, &["/v/single.mp4"]), 1_300);
    collect_pending_change(&mut pending, &event(false, &[]), 1_400);
    assert_eq!(pending.path_changes, vec!["/v/a.mp4", "/v/b.mp4", "/v/single.mp4"]);
    assert_eq!(pending.moves, vec![("/v/old.mp4".to_string(), "/v/new.mp4".to_string())]);
    assert_eq!(pending.last_change_at, Some(1_400));
    assert!(!should_flush_pending(&pending, 1_400));
    assert!(!should_flush_pending(&pending, 2_099));
    assert!(should_flush_pending(&pending, 2_100));
    assert!(!should_flush_pending(&pending, 100));

    let plan = take_pending(&mut pending);
    assert_eq!(plan.vanished, vec!["/v/old.mp4"]);
    assert_eq!(plan.changed, vec!["/v/new.mp4", "/v/a.mp4", "/v/b.mp4", "/v/single.mp4"]);
    assert!(pending.path_changes.is_empty() && pending.moves.is_empty());
    assert_eq!(pending.last_change_at, None);
    assert!(!should_flush_pending(&pending, 1_000_000));
}

#[test]
fn a_path_that_is_gone_is_deleted_both_ways() {
    let mut paths = Vec::new();
    let mut prefixes = Vec::new();
    collect_delete_target(&probe("/v/gone", PathState::Missing), &mut paths, &mut prefixes);
    collect_delete_target(&probe("/v/dir", PathState::Directory { entries: Vec::new() }), &mut paths, &mut prefixes);
    collect_delete_target(&probe("/v/file.mp4", PathState::File { meta: meta(1) }), &mut paths, &mut prefixes);
    collect_delete_target(&probe("/v/locked", PathState::Unreadable), &mut paths, &mut prefixes);
    collect_delete_target(&probe("/v/gone", PathState::Missing), &mut paths, &mut prefixes);
    assert_eq!(paths, vec!["/v/gone", "/v/file.mp4", "/v/locked"]);
    assert_eq!(prefixes, vec!["/v/gone", "/v/dir"]);
}

#[test]
fn a_flush_upserts_first_and_deletes_last() {
    let walked = vec![
        WalkEntry { path: "/v/nested/in.mp4".to_string(), is_file: true, meta: Some(meta(5)) },
        WalkEntry { path: "/v/nested/in.txt".to_string(), is_file: true, meta: Some(meta(5)) },
    ];
    let vanished = vec![probe("/v/old.mp4", PathState::Missing)];
    let changed = vec![
        probe("/v/new.mp4", PathState::File { meta: meta(7) }),
        probe("/v/note.txt", PathState::File { meta: meta(7) }),
        probe("/elsewhere/x.mp4", PathState::File { meta: meta(7) }),
        probe("/v/nested", PathState::Directory { entries: walked }),
        probe("/v/deleted.mp4", PathState::Missing),
        probe("/v/locked.mp4", PathState::Unreadable),
    ];
    let cmds = flush_pending_changes(&vanished, &changed, &roots(), 99);
    assert_eq!(cmds.len(), 4);
    match &cmds[0] {
        WriteCommand::UpsertFiles { files } => {
            assert_eq!(files.len(), 1);
            assert_eq!(files[0].path, "/v/new.mp4");
            assert_eq!(files[0].root_id, 1);
            assert_eq!(files[0].size_bytes, 7);
            assert_eq!(files[0].last_indexed_time, 99);
        }
        other => panic!("unexpected: {other:?}"),
    }
    match &cmds[1] {
        WriteCommand::UpsertFiles { files } => {
            assert_eq!(files.len(), 1);
            assert_eq!(files[0].path, "/v/nested/in.mp4");
            assert_eq!(files[0].root_id, 2);
        }
        other => panic!("unexpected: {other:?}"),
    }
    match &cmds[2] {
        WriteCommand::DeletePaths { paths } => assert_eq!(paths, &vec!["/v/old.mp4", "/v/deleted.mp4"]),
        other => panic!("unexpected: {other:?}"),
    }
    match &cmds[3] {
        WriteCommand::DeleteByPrefixes { prefixes } => {
            assert_eq!(prefixes, &vec!["/v/old.mp4", "/v/deleted.mp4"])
        }
        other => panic!("unexpected: {other:?}"),
    }
    assert!(flush_pending_changes(&Vec::new(), &Vec::new(), &roots(), 1).is_empty());
    assert!(apply_upsert_change(&probe("/v/x.mp4", PathState::Missing), &roots(), 1).is_empty());
}

#[test]
fn a_flush_keeps_the_index_in_step() {
    let mut engine = SearchEngine::new();
    engine
        .sync_roots(&vec![RootCandidate { path: "/v".to_string(), is_dir: true }])
        .expect("sync roots");
    let watched = engine.refresh_watcher_roots();
    let mut pending = PendingChanges::new();
    collect_pending_change(&mut pending, &event(false, &["/v/dir"]), 0);
    let _ = take_pending(&mut pending);
    let walked = vec![
        WalkEntry { path: "/v/dir/a.mp4".to_string(), is_file: true, meta: Some(meta(1)) },
        WalkEntry { path: "/v/dir/sub/b.mp4".to_string(), is_file: true, meta: Some(meta(1)) },
    ];
    let changed = vec![probe("/v/dir", PathState::Directory { entries: walked })];
    for cmd in flush_pending_changes(&Vec::new(), &changed, &watched, 5) {
        engine.apply(cmd).expect("applies");
    }
    assert_eq!(engine.search(&SearchRequest::default(), "/").len(), 2);

    let vanished = vec![probe("/v/dir", PathState::Missing)];
    let moved = vec![
        WalkEntry { path: "/v/moved/a.mp4".to_string(), is_file: true, meta: Some(meta(1)) },
    ];
    let changed = vec![probe("/v/moved", PathState::Directory { entries: moved })];
    for cmd in flush_pending_changes(&vanished, &changed, &watched, 6) {
        engine.apply(cmd).expect("applies");
    }
    let hits = engine.search(&SearchRequest::default(), "/");
    assert_eq!(hits.len(), 1);
    assert_eq!(hits[0].path, "/v/moved/a.mp4");
}

#[test]
fn a_directory_change_is_deleted_by_prefix() {
    let cmds = apply_delete_change(&probe("/v/dir", PathState::Directory { entries: Vec::new() }));
    assert_eq!(cmds.len(), 1);
    assert!(matches!(&cmds[0], WriteCommand::DeleteByPrefixes { prefixes } if prefixes == &vec!["/v/dir".to_string()]));
    let cmds = apply_delete_change(&probe("/v/f.mp4", PathState::File { meta: meta(1) }));
    assert_eq!(cmds.len(), 1);
    assert!(matches!(&cmds[0], WriteCommand::DeletePaths { paths } if paths == &vec!["/v/f.mp4".to_string()]));
    let cmds = apply_delete_change(&probe("/v/locked", PathState::Unreadable));
    assert_eq!(cmds.len(), 1);
    assert!(matches!(&cmds[0], WriteCommand::DeletePaths { paths } if paths == &vec!["/v/locked".to_string()]));
    let cmds = apply_delete_change(&probe("/v/gone", PathState::Missing));
    assert_eq!(cmds.len(), 2);
    assert!(matches!(&cmds[0], WriteCommand::DeletePaths { paths } if paths == &vec!["/v/gone".to_string()]));
    assert!(matches!(&cmds[1], WriteCommand::DeleteByPrefixes { prefixes } if prefixes == &vec!["/v/gone".to_string()]));
}

#[test]
fn only_roots_on_disk_with_a_watch_are_kept() {
    let mut current = vec![WatchedRoot { root_id: 9, root_path: "/old".to_string() }];
    let attempt = |id: i64, path: &str, on_disk: bool, watched: bool| WatchAttempt {
        root: WatchedRoot { root_id: id, root_path: path.to_string() },
        on_disk,
        watched,
    };
    reset_watch_targets(
        &mut current,
        vec![
            attempt(1, "/a", true, true),
            attempt(2, "/b", false, false),
            attempt(3, "/c", true, false),
            attempt(4, "/d", true, true),
        ],
    );
    let ids: Vec<i64> = current.iter().map(|r| r.root_id).collect();
    assert_eq!(ids, vec![1, 4]);
    reset_watch_targets(&mut current, Vec::new());
    assert!(current.is_empty());
}

#[test]
fn batches_are_handed_on_when_full() {
    let record = |i: usize| FileRecord {
        path: format!("/v/{i}.mp4"),
        root_id: 1,
        file_name: format!("{i}.mp4"),
        file_name_norm: format!("{i}.mp4"),
        parent_dir: "/v".to_string(),
        size_bytes: 0,
        modified_time: 0,
        created_time: None,
        last_indexed_time: 0,
    };
    let mut out = Vec::new();
    let mut batch: Vec<FileRecord> = Vec::new();
    flush_upsert_batch(&mut batch, &mut out);
    assert!(out.is_empty());
    for i in 0..255 {
        batch.push(record(i));
    }
    flush_upsert_batch_if_full(&mut batch, &mut out);
    assert!(out.is_empty());
    assert_eq!(batch.len(), 255);
    batch.push(record(255));
    flush_upsert_batch_if_full(&mut batch, &mut out);
    assert_eq!(out.len(), 1);
    assert!(batch.is_empty());
    batch.push(record(256));
    flush_upsert_batch(&mut batch, &mut out);
    assert_eq!(out.len(), 2);
    assert!(matches!(&out[1], WriteCommand::UpsertFiles { files } if files.len() == 1));
}

#[test]
fn paths_and_times_are_normalised() {
    assert!(is_mp4_path("/v/a.mp4"));
    assert!(is_mp4_path("/v/a.MP4"));
    assert!(is_mp4_path("/v/a.tar.Mp4"));
    assert!(!is_mp4_path("/v/a.mp4x"));
    assert!(!is_mp4_path("/v/mp4"));
    assert!(!is_mp4_path("/v/.mp4"));
    assert!(is_mp4_extension("mP4"));
    assert!(!is_mp4_extension("mp3"));
    assert_eq!(normalize_root_path("/abs", "/cwd"), "/abs");
    assert_eq!(normalize_root_path("rel", "/cwd"), "/cwd/rel");
    assert_eq!(normalize_parent_for_filter("  rel/dir ", "/cwd"), "/cwd/rel/dir");
    assert_eq!(path_to_key("/v/a.mp4"), "/v/a.mp4");
    assert_eq!(system_time_to_epoch_secs(Some(5)), 5);
    assert_eq!(system_time_to_epoch_secs(None), 0);
    assert_eq!(system_time_to_epoch_secs(Some(u64::MAX)), -1);
    assert_eq!(epoch_secs(Some(1_700_000_000)), 1_700_000_000);
    assert_eq!(epoch_millis(Some(1_700_000_000_123)), 1_700_000_000_123);
    assert_eq!(epoch_millis(None), 0);
    assert_eq!(epoch_millis(Some(u128::MAX)), -1);
    assert_eq!(trim("\u{2003}\n x y \u{a0}\t"), "x y");
    assert_eq!(trim(""), "");
}
