use vjdownloader::engine::{RootCandidate, SearchEngine};
use vjdownloader::index::{apply_write_command, Index, WriteCommand, WriteReply};
use vjdownloader::query::{run_search_query, FilterKeys, QueryPattern};
use vjdownloader::records::{
    EngineError, FileRecord, RootEntry, SearchHit, SearchRequest, SearchSort,
};
use vjdownloader::scanner::{
    build_record_from_path, find_root_id_for_path, scan_root, upsert_directory, FileMeta,
    WalkEntry,
};
use vjdownloader::records::WatchedRoot;
use vjdownloader::watcher::{PathState, ProbedPath};

fn dummy(path: &str, bytes: u64) -> WalkEntry {
    WalkEntry {
        path: path.to_string(),
        is_file: true,
        meta: Some(FileMeta { is_file: true, len: bytes, modified: Some(1_700_000_000), created: None }),
    }
}

fn dir_entry(path: &str) -> WalkEntry {
    WalkEntry {
        path: path.to_string(),
        is_file: false,
        meta: Some(FileMeta { is_file: false, len: 0, modified: Some(1_700_000_000), created: None }),
    }
}

fn file_probe(path: &str, bytes: u64) -> ProbedPath {
    ProbedPath {
        path: path.to_string(),
        state: PathState::File {
            meta: FileMeta { is_file: true, len: bytes, modified: Some(1_700_000_100), created: None },
        },
    }
}

fn missing_probe(path: &str) -> ProbedPath {
    ProbedPath { path: path.to_string(), state: PathState::Missing }
}

fn candidate(path: &str) -> RootCandidate {
    RootCandidate { path: path.to_string(), is_dir: true }
}

fn run_scans(engine: &mut SearchEngine, entries: &Vec<WalkEntry>, marker: i64) {
    for root in engine.reindex_all_async() {
        let under: Vec<WalkEntry> = entries
            .iter()
            .filter(|e| e.path.starts_with(&root.root_path))
            .map(|e| WalkEntry { path: e.path.clone(), is_file: e.is_file, meta: e.meta })
            .collect();
        for cmd in scan_root(root.root_id, true, &under, marker, marker / 1000) {
            engine.apply(cmd).expect("scan command applies");
        }
    }
}

fn query(text: &str, limit: usize) -> SearchRequest {
    SearchRequest { query: text.to_string(), limit, ..Default::default() }
}

fn names(hits: &Vec<SearchHit>) -> Vec<String> {
    hits.iter().map(|h| h.file_name.clone()).collect()
}

#[test]
fn indexes_and_searches_japanese_mp4() {
    let mut engine = SearchEngine::new();
    let root = "/data/videos";
    let entries = vec![
        dir_entry(root),
        dummy("/data/videos/旅行_沖縄.mp4", 64),
        dummy("/data/videos/会議録画_2026.mp4", 64),
        dummy("/data/videos/ignore.txt", 64),
    ];

    engine.sync_roots(&vec![candidate(root)]).expect("sync roots");
    run_scans(&mut engine, &entries, 350);

    let hits = engine.search(
        &SearchRequest { query: "旅行".to_string(), limit: 20, ..Default::default() },
        "/",
    );

    assert_eq!(hits.len(), 1);
    assert!(hits[0].file_name.contains("旅行_沖縄"));
}

#[test]
fn supports_metadata_filters() {
    let mut engine = SearchEngine::new();
    let root = "/data/videos";
    let entries = vec![dummy("/data/videos/small.mp4", 8), dummy("/data/videos/large.mp4", 8_192)];

    engine.sync_roots(&vec![candidate(root)]).expect("sync roots");
    run_scans(&mut engine, &entries, 350);

    let hits = engine.search(
        &SearchRequest {
            query: String::new(),
            size_min: Some(1_024),
            limit: 20,
            ..Default::default()
        },
        "/",
    );

    assert_eq!(hits.len(), 1);
    assert_eq!(hits[0].file_name, "large.mp4");
}

#[test]
fn applies_add_delete_rename_updates() {
    let mut engine = SearchEngine::new();
    let root = "/data/videos";
    engine.sync_roots(&vec![candidate(root)]).expect("sync roots");

    let added = "/data/videos/追加.mp4";
    engine.apply_path_change(&None, &Some(file_probe(added, 32)), 200);

    let mut hits = engine.search(
        &SearchRequest { query: "追加".to_string(), limit: 20, ..Default::default() },
        "/",
    );
    assert_eq!(hits.len(), 1);

    let renamed = "/data/videos/変更後.mp4";
    engine.apply_path_change(&Some(missing_probe(added)), &Some(file_probe(renamed, 32)), 320);

    hits = engine.search(
        &SearchRequest { query: "変更後".to_string(), limit: 20, ..Default::default() },
        "/",
    );
    assert_eq!(hits.len(), 1);
    let old_hits = engine.search(&query("追加", 20), "/");
    assert!(old_hits.is_empty());

    engine.apply_path_change(&Some(missing_probe(renamed)), &None, 440);

    hits = engine.search(
        &SearchRequest { query: "変更後".to_string(), limit: 20, ..Default::default() },
        "/",
    );
    assert!(hits.is_empty());
}

#[test]
fn searches_literal_percent_and_underscore() {
    let mut engine = SearchEngine::new();
    let root = "/data/videos";
    let entries = vec![dummy("/data/videos/100%_test.mp4", 64)];
    engine.sync_roots(&vec![candidate(root)]).expect("sync roots");
    run_scans(&mut engine, &entries, 350);

    let hits = engine.search(
        &SearchRequest { query: "100%_".to_string(), limit: 20, ..Default::default() },
        "/",
    );
    assert_eq!(hits.len(), 1);
    assert_eq!(hits[0].file_name, "100%_test.mp4");
}

#[test]
fn wildcard_characters_match_only_themselves() {
    let mut engine = SearchEngine::new();
    engine.sync_roots(&vec![candidate("/v")]).expect("sync roots");
    let entries = vec![
        dummy("/v/100%_test.mp4", 1),
        dummy("/v/100x_test.mp4", 1),
        dummy("/v/1000_test.mp4", 1),
        dummy("/v/a\\b.mp4", 1),
    ];
    run_scans(&mut engine, &entries, 10);
    assert_eq!(names(&engine.search(&query("100%_", 20), "/")), vec!["100%_test.mp4"]);
    assert_eq!(names(&engine.search(&query("%", 20), "/")), vec!["100%_test.mp4"]);
    assert_eq!(names(&engine.search(&query("a\\b", 20), "/")), vec!["a\\b.mp4"]);
    assert_eq!(engine.search(&query("_", 20), "/").len(), 3);
}

#[test]
fn scan_counts_only_files_of_the_tracked_type() {
    let mut engine = SearchEngine::new();
    let outcome = engine.sync_roots(&vec![candidate("/r")]).expect("sync roots");
    assert_eq!(outcome.added.len(), 1);
    let root_id = outcome.added[0].root_id;
    let mut entries = vec![dir_entry("/r"), dir_entry("/r/sub.mp4")];
    for i in 0..7 {
        entries.push(dummy(&format!("/r/sub/clip{i}.MP4"), 10));
    }
    for i in 0..5 {
        entries.push(dummy(&format!("/r/sub/note{i}.txt"), 10));
    }
    entries.push(WalkEntry { path: "/r/unreadable.mp4".to_string(), is_file: true, meta: None });
    run_scans(&mut engine, &entries, 50);
    let hits = engine.search(
        &SearchRequest { root_id: Some(root_id), limit: 1000, ..Default::default() },
        "/",
    );
    assert_eq!(hits.len(), 7);
}

#[test]
fn prefix_matches_come_before_contains_matches() {
    let mut engine = SearchEngine::new();
    engine.sync_roots(&vec![candidate("/v")]).expect("sync roots");
    let mut entries = Vec::new();
    let files = [
        ("/v/my trip.mp4", 500),
        ("/v/trip.mp4", 100),
        ("/v/trip", 0),
        ("/v/TRIP to okinawa.mp4", 300),
        ("/v/trip.mp4.mp4", 900),
        ("/v/a/trip.mp4", 50),
        ("/v/strip.mp4", 800),
        ("/v/other.mp4", 700),
    ];
    for (path, modified) in files {
        entries.push(WalkEntry {
            path: path.to_string(),
            is_file: true,
            meta: Some(FileMeta { is_file: true, len: 1, modified: Some(modified), created: None }),
        });
    }
    run_scans(&mut engine, &entries, 5);
    let hits = engine.search(&query(" Trip.MP4 ", 20), "/");
    let paths: Vec<&str> = hits.iter().map(|h| h.path.as_str()).collect();
    assert_eq!(
        paths,
        vec!["/v/trip.mp4", "/v/a/trip.mp4", "/v/trip.mp4.mp4", "/v/strip.mp4", "/v/my trip.mp4"]
    );

    let by_name = engine.search(
        &SearchRequest {
            query: "trip".to_string(),
            limit: 20,
            sort: SearchSort::NameAsc,
            ..Default::default()
        },
        "/",
    );
    let listed: Vec<&str> = by_name.iter().map(|h| h.path.as_str()).collect();
    assert_eq!(
        listed,
        vec![
            "/v/TRIP to okinawa.mp4",
            "/v/trip.mp4",
            "/v/a/trip.mp4",
            "/v/trip.mp4.mp4",
            "/v/my trip.mp4",
            "/v/strip.mp4",
        ]
    );
    for hit in &by_name {
        assert!(hit.file_name.to_lowercase().contains("trip"));
    }
}

#[test]
fn limit_is_clamped_between_one_and_a_thousand() {
    let mut engine = SearchEngine::new();
    engine.sync_roots(&vec![candidate("/v")]).expect("sync roots");
    let mut entries = Vec::new();
    for i in 0..1100 {
        entries.push(dummy(&format!("/v/x{i:04}.mp4"), 1));
    }
    run_scans(&mut engine, &entries, 5);
    assert_eq!(engine.search(&query("", 0), "/").len(), 1);
    assert_eq!(engine.search(&query("", 1), "/").len(), 1);
    assert_eq!(engine.search(&query("", 3), "/").len(), 3);
    assert_eq!(engine.search(&query("", 1000), "/").len(), 1000);
    assert_eq!(engine.search(&query("", 5000), "/").len(), 1000);
    assert_eq!(engine.search(&query("", usize::MAX), "/").len(), 1000);
    assert_eq!(engine.search(&query("x00", 7), "/").len(), 7);
    assert_eq!(engine.search(&query("0", 1000), "/").len(), 1000);
    let mixed = engine.search(&query("x1", 150), "/");
    assert_eq!(mixed.len(), 100);
    assert_eq!(SearchRequest::default().limit, 100);
}

#[test]
fn filter_bounds_are_inclusive() {
    let mut engine = SearchEngine::new();
    engine.sync_roots(&vec![candidate("/v")]).expect("sync roots");
    let mut entries = Vec::new();
    for (name, len, modified) in [("a", 10u64, 100i64), ("b", 20, 200), ("c", 30, 300)] {
        entries.push(WalkEntry {
            path: format!("/v/{name}.mp4"),
            is_file: true,
            meta: Some(FileMeta { is_file: true, len, modified: Some(modified), created: Some(1) }),
        });
    }
    run_scans(&mut engine, &entries, 5);
    let run = |req: SearchRequest| -> Vec<String> {
        let mut found = names(&engine.search(&req, "/"));
        found.sort();
        found
    };
    assert_eq!(run(SearchRequest { size_min: Some(20), ..Default::default() }), vec!["b.mp4", "c.mp4"]);
    assert_eq!(run(SearchRequest { size_max: Some(20), ..Default::default() }), vec!["a.mp4", "b.mp4"]);
    assert_eq!(run(SearchRequest { size_min: Some(21), ..Default::default() }), vec!["c.mp4"]);
    assert_eq!(
        run(SearchRequest { modified_after: Some(200), ..Default::default() }),
        vec!["b.mp4", "c.mp4"]
    );
    assert_eq!(
        run(SearchRequest { modified_before: Some(200), ..Default::default() }),
        vec!["a.mp4", "b.mp4"]
    );
    assert_eq!(
        run(SearchRequest {
            modified_after: Some(101),
            modified_before: Some(299),
            size_min: Some(20),
            size_max: Some(20),
            ..Default::default()
        }),
        vec!["b.mp4"]
    );
    assert!(run(SearchRequest { size_min: Some(31), ..Default::default() }).is_empty());
}

#[test]
fn path_filters_are_trimmed_and_made_absolute() {
    let mut engine = SearchEngine::new();
    engine.sync_roots(&vec![candidate("/v"), candidate("/w")]).expect("sync roots");
    let entries = vec![dummy("/v/a.mp4", 1), dummy("/v/sub/b.mp4", 1), dummy("/w/c.mp4", 1)];
    run_scans(&mut engine, &entries, 5);
    let by_root = engine.search(
        &SearchRequest { root_path: Some("  /v ".to_string()), ..Default::default() },
        "/",
    );
    assert_eq!(by_root.len(), 2);
    let relative = engine.search(
        &SearchRequest { root_path: Some("w".to_string()), ..Default::default() },
        "/",
    );
    assert_eq!(names(&relative), vec!["c.mp4"]);
    let by_parent = engine.search(
        &SearchRequest { parent_dir: Some("/v/sub".to_string()), ..Default::default() },
        "/",
    );
    assert_eq!(names(&by_parent), vec!["b.mp4"]);
    let blank = engine.search(
        &SearchRequest { parent_dir: Some("   ".to_string()), ..Default::default() },
        "/",
    );
    assert_eq!(blank.len(), 3);
}

#[test]
fn removing_a_root_removes_its_files() {
    let mut engine = SearchEngine::new();
    let outcome = engine.sync_roots(&vec![candidate("/v"), candidate("/w")]).expect("sync roots");
    assert_eq!(outcome.added.len(), 2);
    assert!(outcome.removed.is_empty());
    let entries = vec![dummy("/v/a.mp4", 1), dummy("/w/b.mp4", 1)];
    run_scans(&mut engine, &entries, 5);
    assert_eq!(engine.search(&query("", 20), "/").len(), 2);

    let outcome = engine.sync_roots(&vec![candidate("/w"), candidate("/w")]).expect("sync roots");
    assert!(outcome.added.is_empty());
    assert_eq!(outcome.removed, vec![1]);
    assert_eq!(outcome.watched.len(), 1);
    assert_eq!(names(&engine.search(&query("", 20), "/")), vec!["b.mp4"]);
    assert!(engine.search(&query("a", 20), "/").is_empty());
    let roots = engine.list_roots();
    assert_eq!(roots.len(), 1);
    assert_eq!(roots[0].root_path, "/w");

    let outcome = engine.sync_roots(&vec![candidate("/v"), candidate("/w")]).expect("sync roots");
    assert_eq!(outcome.added.len(), 1);
    assert_eq!(outcome.added[0].root_id, 3);
    assert!(engine.search(&query("a", 20), "/").is_empty());
}

#[test]
fn a_root_that_is_no_directory_fails_the_whole_call() {
    let mut engine = SearchEngine::new();
    engine.sync_roots(&vec![candidate("/v")]).expect("sync roots");
    let result = engine.sync_roots(&vec![
        candidate("/w"),
        RootCandidate { path: "/missing".to_string(), is_dir: false },
        RootCandidate { path: "/also".to_string(), is_dir: false },
    ]);
    match result {
        Err(EngineError::Validation { path }) => assert_eq!(path, "/missing"),
        other => panic!("unexpected: {other:?}"),
    }
    let roots = engine.list_roots();
    assert_eq!(roots.len(), 1);
    assert_eq!(roots[0].root_path, "/v");
}

#[test]
fn second_scan_purges_files_that_are_gone() {
    let mut engine = SearchEngine::new();
    engine.sync_roots(&vec![candidate("/v")]).expect("sync roots");
    let first = vec![dummy("/v/keep.mp4", 1), dummy("/v/gone.mp4", 1)];
    run_scans(&mut engine, &first, 1000);
    assert_eq!(engine.search(&query("", 20), "/").len(), 2);
    let second = vec![dummy("/v/keep.mp4", 1)];
    run_scans(&mut engine, &second, 2000);
    assert_eq!(names(&engine.search(&query("", 20), "/")), vec!["keep.mp4"]);
    let roots = engine.list_roots();
    assert_eq!(roots[0].last_scan_time, Some(2));
}

#[test]
fn a_root_that_is_not_on_disk_is_left_alone() {
    let cmds = scan_root(1, false, &vec![dummy("/v/a.mp4", 1)], 10, 1);
    assert!(cmds.is_empty());
    let cmds = scan_root(1, true, &Vec::new(), 10, 1);
    assert_eq!(cmds.len(), 1);
    assert!(matches!(
        cmds[0],
        WriteCommand::FinalizeScan { root_id: 1, marker: 10, finished_at: 1 }
    ));
}

#[test]
fn scans_are_batched() {
    let mut entries = Vec::new();
    for i in 0..600 {
        entries.push(dummy(&format!("/v/f{i}.mp4"), 1));
    }
    let cmds = scan_root(4, true, &entries, 10, 1);
    assert_eq!(cmds.len(), 4);
    let sizes: Vec<usize> = cmds
        .iter()
        .map(|c| match c {
            WriteCommand::UpsertFiles { files } => files.len(),
            _ => 0,
        })
        .collect();
    assert_eq!(sizes, vec![256, 256, 88, 0]);
    let exact: Vec<WalkEntry> = (0..256).map(|i| dummy(&format!("/v/f{i}.mp4"), 1)).collect();
    assert_eq!(scan_root(4, true, &exact, 10, 1).len(), 2);
}

#[test]
fn records_hold_name_parent_and_normalised_name() {
    let meta = FileMeta { is_file: true, len: 42, modified: None, created: Some(7) };
    let record = build_record_from_path(3, "/v/sub/ＡＢＣ.MP4", &meta, 99).expect("a record");
    assert_eq!(record.path, "/v/sub/ＡＢＣ.MP4");
    assert_eq!(record.root_id, 3);
    assert_eq!(record.file_name, "ＡＢＣ.MP4");
    assert_eq!(record.file_name_norm, "abc.mp4");
    assert_eq!(record.parent_dir, "/v/sub");
    assert_eq!(record.size_bytes, 42);
    assert_eq!(record.modified_time, 0);
    assert_eq!(record.created_time, Some(7));
    assert_eq!(record.last_indexed_time, 99);
    let not_a_file = FileMeta { is_file: false, len: 0, modified: None, created: None };
    assert!(build_record_from_path(3, "/v/sub", &not_a_file, 1).is_none());
    assert!(build_record_from_path(3, "/", &meta, 1).is_none());
    let huge = FileMeta { is_file: true, len: u64::MAX, modified: Some(-5), created: None };
    let wrapped = build_record_from_path(3, "/v/x.mp4", &huge, 1).expect("a record");
    assert_eq!(wrapped.size_bytes, -1);
    assert_eq!(wrapped.modified_time, -5);
}

#[test]
fn the_longest_root_owns_a_path() {
    let roots = vec![
        WatchedRoot { root_id: 1, root_path: "/v".to_string() },
        WatchedRoot { root_id: 2, root_path: "/v/sub".to_string() },
        WatchedRoot { root_id: 3, root_path: "/v/sub".to_string() },
        WatchedRoot { root_id: 4, root_path: "/w".to_string() },
    ];
    assert_eq!(find_root_id_for_path("/v/a.mp4", &roots), Some(1));
    assert_eq!(find_root_id_for_path("/v/sub/a.mp4", &roots), Some(2));
    assert_eq!(find_root_id_for_path("/v/subway/a.mp4", &roots), Some(1));
    assert_eq!(find_root_id_for_path("/x/a.mp4", &roots), None);
    assert_eq!(find_root_id_for_path("/v", &roots), Some(1));
    let cmds = upsert_directory(
        &vec![dummy("/v/sub/a.mp4", 1), dummy("/x/b.mp4", 1), dummy("/w/c.mp4", 1)],
        &roots,
        5,
    );
    assert_eq!(cmds.len(), 1);
    match &cmds[0] {
        WriteCommand::UpsertFiles { files } => {
            let owners: Vec<i64> = files.iter().map(|f| f.root_id).collect();
            assert_eq!(owners, vec![2, 4]);
        }
        other => panic!("unexpected: {other:?}"),
    }
}

fn record(path: &str, root_id: i64, marker: i64) -> FileRecord {
    FileRecord {
        path: path.to_string(),
        root_id,
        file_name: path.rsplit('/').next().unwrap_or("").to_string(),
        file_name_norm: path.rsplit('/').next().unwrap_or("").to_lowercase(),
        parent_dir: String::new(),
        size_bytes: 1,
        modified_time: 1,
        created_time: None,
        last_indexed_time: marker,
    }
}

fn paths_of(index: &Index) -> Vec<String> {
    index.files().iter().map(|f| f.path.clone()).collect()
}

#[test]
fn commands_change_the_index_as_a_whole() {
    let mut index = Index::new();
    let reply = apply_write_command(
        &mut index,
        WriteCommand::AddOrEnableRoot { root_path: "/v".to_string() },
    );
    assert!(matches!(reply, Ok(WriteReply::RootId(1))));
    let again = apply_write_command(
        &mut index,
        WriteCommand::AddOrEnableRoot { root_path: "/v".to_string() },
    );
    assert!(matches!(again, Ok(WriteReply::RootId(1))));
    assert_eq!(index.roots().len(), 1);
    assert_eq!(index.last_root_id(), 1);

    let refused = apply_write_command(
        &mut index,
        WriteCommand::UpsertFiles { files: vec![record("/v/a.mp4", 1, 5), record("/z/b.mp4", 9, 5)] },
    );
    assert!(matches!(refused, Err(EngineError::Storage { .. })));
    assert!(index.files().is_empty());

    let files = vec![
        record("/v/a.mp4", 1, 5),
        record("/v/dir/b.mp4", 1, 5),
        record("/v/dir2/c.mp4", 1, 5),
        record("/v/dir", 1, 5),
        record("/v/a.mp4", 1, 6),
    ];
    assert!(apply_write_command(&mut index, WriteCommand::UpsertFiles { files }).is_ok());
    assert_eq!(paths_of(&index), vec!["/v/a.mp4", "/v/dir/b.mp4", "/v/dir2/c.mp4", "/v/dir"]);
    assert_eq!(index.files()[0].last_indexed_time, 6);

    let prefixes = vec!["/v/dir".to_string()];
    assert!(apply_write_command(&mut index, WriteCommand::DeleteByPrefixes { prefixes }).is_ok());
    assert_eq!(paths_of(&index), vec!["/v/a.mp4", "/v/dir2/c.mp4"]);

    let paths = vec!["/v/dir2".to_string(), "/v/a.mp4".to_string()];
    assert!(apply_write_command(&mut index, WriteCommand::DeletePaths { paths }).is_ok());
    assert_eq!(paths_of(&index), vec!["/v/dir2/c.mp4"]);

    assert!(apply_write_command(
        &mut index,
        WriteCommand::FinalizeScan { root_id: 1, marker: 6, finished_at: 77 }
    )
    .is_ok());
    assert!(index.files().is_empty());
    assert_eq!(index.roots()[0].last_scan_time, Some(77));
    assert!(apply_write_command(&mut index, WriteCommand::Shutdown).is_ok());
    assert!(apply_write_command(&mut index, WriteCommand::RemoveRoot { root_id: 1 }).is_ok());
    assert!(index.roots().is_empty());
    assert_eq!(index.last_root_id(), 1);
}

#[test]
fn prefix_deletes_take_what_follows_a_separator() {
    let mut index = Index::new();
    apply_write_command(&mut index, WriteCommand::AddOrEnableRoot { root_path: "/v".to_string() })
        .expect("root");
    let files = vec![
        record("/v/a\\b/x.mp4", 1, 1),
        record("/v/a\\b", 1, 1),
        record("/v/a\\bc/y.mp4", 1, 1),
        record("/v/a\\b.mp4", 1, 1),
        record("/v/a/b/z.mp4", 1, 1),
    ];
    apply_write_command(&mut index, WriteCommand::UpsertFiles { files }).expect("upsert");
    let prefixes = vec!["/v/a\\b".to_string()];
    apply_write_command(&mut index, WriteCommand::DeleteByPrefixes { prefixes }).expect("delete");
    assert_eq!(paths_of(&index), vec!["/v/a\\bc/y.mp4", "/v/a\\b.mp4", "/v/a/b/z.mp4"]);

    let prefixes = vec!["/v/a".to_string(), "/v/a\\b.mp".to_string()];
    apply_write_command(&mut index, WriteCommand::DeleteByPrefixes { prefixes }).expect("delete");
    assert_eq!(paths_of(&index), vec!["/v/a\\bc/y.mp4", "/v/a\\b.mp4"]);

    let separator = std::path::MAIN_SEPARATOR;
    let below = format!("/w{separator}dir{separator}f.mp4");
    let beside = format!("/w{separator}dirf.mp4");
    apply_write_command(&mut index, WriteCommand::AddOrEnableRoot { root_path: "/w".to_string() })
        .expect("root");
    let files = vec![record(&below, 2, 1), record(&beside, 2, 1)];
    apply_write_command(&mut index, WriteCommand::UpsertFiles { files }).expect("upsert");
    let prefixes = vec![format!("/w{separator}dir")];
    apply_write_command(&mut index, WriteCommand::DeleteByPrefixes { prefixes }).expect("delete");
    assert_eq!(paths_of(&index), vec!["/v/a\\bc/y.mp4".to_string(), "/v/a\\b.mp4".to_string(), beside]);
}

fn walked_directory(path: &str, files: &[&str]) -> ProbedPath {
    ProbedPath {
        path: path.to_string(),
        state: PathState::Directory {
            entries: files
                .iter()
                .map(|name| dummy(&format!("{path}/{name}"), 8))
                .collect(),
        },
    }
}

#[test]
fn a_directory_that_moved_takes_its_files_along() {
    let mut engine = SearchEngine::new();
    engine.sync_roots(&vec![candidate("/v")]).expect("sync roots");
    let entries = vec![
        dummy("/v/d/x.mp4", 8),
        dummy("/v/d/sub/y.mp4", 8),
        dummy("/v/dx.mp4", 8),
        dummy("/v/other/z.mp4", 8),
    ];
    run_scans(&mut engine, &entries, 100);
    assert_eq!(engine.search(&query("", 20), "/").len(), 4);

    engine.apply_path_change(
        &Some(missing_probe("/v/d")),
        &Some(walked_directory("/v/e", &["x.mp4", "sub/y.mp4"])),
        200,
    );
    let mut found: Vec<String> =
        engine.search(&query("", 20), "/").iter().map(|h| h.path.clone()).collect();
    found.sort();
    assert_eq!(
        found,
        vec!["/v/dx.mp4", "/v/e/sub/y.mp4", "/v/e/x.mp4", "/v/other/z.mp4"]
    );
    let by_name: Vec<String> =
        engine.search(&query("x.mp4", 20), "/").iter().map(|h| h.path.clone()).collect();
    assert_eq!(by_name, vec!["/v/e/x.mp4", "/v/dx.mp4"]);

    engine.apply_path_change(&Some(walked_directory("/v/e", &[])), &None, 300);
    assert_eq!(names(&engine.search(&query("", 20), "/")).len(), 2);
    engine.apply_path_change(&Some(file_probe("/v/other", 1)), &None, 400);
    assert_eq!(engine.search(&query("", 20), "/").len(), 2);
}

#[test]
fn records_must_carry_their_normalised_name() {
    let mut index = Index::new();
    apply_write_command(&mut index, WriteCommand::AddOrEnableRoot { root_path: "/v".to_string() })
        .expect("root");
    let mut wrong = record("/v/Trip.mp4", 1, 1);
    wrong.file_name = "Trip.mp4".to_string();
    wrong.file_name_norm = "Trip.mp4".to_string();
    let refused = apply_write_command(
        &mut index,
        WriteCommand::UpsertFiles { files: vec![record("/v/a.mp4", 1, 1), wrong] },
    );
    assert!(matches!(refused, Err(EngineError::Storage { .. })));
    assert!(index.files().is_empty());

    let mut right = record("/v/Ｔrip.mp4", 1, 1);
    right.file_name = " Ｔrip.MP4 ".to_string();
    right.file_name_norm = "trip.mp4".to_string();
    assert!(apply_write_command(&mut index, WriteCommand::UpsertFiles { files: vec![right] }).is_ok());
    assert_eq!(index.files().len(), 1);

    let root = RootEntry {
        root_id: 1,
        root_path: "/v".to_string(),
        is_enabled: true,
        last_scan_time: None,
    };
    let mut stored = record("/v/b.mp4", 1, 1);
    stored.file_name_norm = "other".to_string();
    assert!(matches!(
        SearchEngine::open(vec![root], vec![stored], 1),
        Err(EngineError::Storage { .. })
    ));
}

#[test]
fn stored_parts_are_checked_when_an_engine_is_opened() {
    let root = |id: i64, path: &str| RootEntry {
        root_id: id,
        root_path: path.to_string(),
        is_enabled: true,
        last_scan_time: None,
    };
    assert!(SearchEngine::open(vec![root(1, "/v")], vec![record("/v/a.mp4", 1, 1)], 1).is_ok());
    assert!(SearchEngine::open(Vec::new(), Vec::new(), 0).is_ok());
    let bad = [
        SearchEngine::open(vec![root(1, "/v")], vec![record("/v/a.mp4", 2, 1)], 1),
        SearchEngine::open(vec![root(1, "/v"), root(1, "/w")], Vec::new(), 1),
        SearchEngine::open(vec![root(1, "/v"), root(2, "/v")], Vec::new(), 2),
        SearchEngine::open(vec![root(2, "/v")], Vec::new(), 1),
        SearchEngine::open(vec![root(0, "/v")], Vec::new(), 1),
        SearchEngine::open(Vec::new(), Vec::new(), -1),
        SearchEngine::open(
            vec![root(1, "/v")],
            vec![record("/v/a.mp4", 1, 1), record("/v/a.mp4", 1, 2)],
            1,
        ),
    ];
    for result in bad {
        assert!(matches!(result, Err(EngineError::Storage { .. })));
    }
}

#[test]
fn ids_run_out_after_the_largest() {
    let root = RootEntry {
        root_id: i64::MAX,
        root_path: "/v".to_string(),
        is_enabled: false,
        last_scan_time: None,
    };
    let mut engine = SearchEngine::open(vec![root], Vec::new(), i64::MAX).expect("opens");
    assert!(matches!(engine.add_or_enable_root("/w"), Err(EngineError::Storage { .. })));
    assert!(matches!(engine.add_or_enable_root("/v"), Ok(i64::MAX)));
    assert!(engine.list_roots()[0].is_enabled);
    let result = engine.sync_roots(&vec![candidate("/v"), candidate("/w")]);
    assert!(matches!(result, Err(EngineError::Storage { .. })));
    assert_eq!(engine.list_roots().len(), 1);
}

#[test]
fn roots_are_listed_without_regard_to_case() {
    let mut engine = SearchEngine::new();
    engine
        .sync_roots(&vec![candidate("/b"), candidate("/C"), candidate("/a"), candidate("/B")])
        .expect("sync roots");
    let listed: Vec<String> = engine.list_roots().iter().map(|r| r.root_path.clone()).collect();
    assert_eq!(listed, vec!["/a", "/b", "/B", "/C"]);
    let ids: Vec<i64> = engine.list_roots().iter().map(|r| r.root_id).collect();
    assert_eq!(ids, vec![3, 1, 4, 2]);
    let watched: Vec<i64> = engine.enabled_watched_roots().iter().map(|r| r.root_id).collect();
    assert_eq!(watched, vec![3, 1, 4, 2]);
}

#[test]
fn disabled_roots_are_not_searched() {
    let root = |id: i64, path: &str, on: bool| RootEntry {
        root_id: id,
        root_path: path.to_string(),
        is_enabled: on,
        last_scan_time: None,
    };
    let engine = SearchEngine::open(
        vec![root(1, "/v", false), root(2, "/w", true)],
        vec![record("/v/a.mp4", 1, 1), record("/w/b.mp4", 2, 1)],
        2,
    )
    .expect("opens");
    assert_eq!(names(&engine.search(&query("", 20), "/")), vec!["b.mp4"]);
    assert_eq!(engine.reindex_all_async().len(), 1);
    assert_eq!(engine.list_roots().len(), 2);
}

#[test]
fn one_phase_can_be_run_alone() {
    let mut index = Index::new();
    apply_write_command(&mut index, WriteCommand::AddOrEnableRoot { root_path: "/v".to_string() })
        .expect("root");
    let files = vec![record("/v/ab.mp4", 1, 1), record("/v/cab.mp4", 1, 1), record("/v/ab", 1, 1)];
    apply_write_command(&mut index, WriteCommand::UpsertFiles { files }).expect("upsert");
    let keys = FilterKeys { root_path: None, parent_dir: None };
    let request = SearchRequest::default();
    let prefix = Some(QueryPattern::Prefix { exact: "ab".to_string() });
    let hits = run_search_query(&index, &request, &keys, &prefix, 10);
    let found: Vec<&str> = hits.iter().map(|h| h.path.as_str()).collect();
    assert_eq!(found, vec!["/v/ab", "/v/ab.mp4"]);
    let inner = Some(QueryPattern::Contains { needle: "ab".to_string() });
    let hits = run_search_query(&index, &request, &keys, &inner, 10);
    assert_eq!(hits.len(), 1);
    assert_eq!(hits[0].path, "/v/cab.mp4");
    assert!(run_search_query(&index, &request, &keys, &None, 0).is_empty());
}
