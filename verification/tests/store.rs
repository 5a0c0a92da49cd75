use rusqlite::types::Value;
use rusqlite::{params_from_iter, Connection};
use vjdownloader::db::{
    apply_migrations, connection_pragmas, error_message, prefix_pattern, write_statements,
    SqlStatement, SqlValue, SCHEMA_V1, SELECT_FILES, SELECT_LAST_ROOT_ID, SELECT_ROOTS,
};
use vjdownloader::engine::SearchEngine;
use vjdownloader::index::WriteCommand;
use vjdownloader::normalize::normalize_query;
use vjdownloader::query::{resolve_filters, QueryPattern};
use vjdownloader::query_sql::{build_search_statement, contains_pattern, starts_with_pattern};
use vjdownloader::records::{
    EngineError, FileRecord, RootEntry, SearchRequest, SearchSort, DB_SCHEMA_VERSION,
};

fn open_store() -> Connection {
    let conn = Connection::open_in_memory().expect("opens");
    for (name, value) in connection_pragmas() {
        let _ = conn.pragma_update(None, &name, &value);
    }
    let version: i32 =
        conn.pragma_query_value(None, "user_version", |row| row.get(0)).expect("version");
    if let Some(sql) = apply_migrations(version).expect("supported") {
        conn.execute_batch(&sql).expect("schema");
    }
    conn
}

fn values(stmt: &SqlStatement) -> Vec<Value> {
    stmt.params
        .iter()
        .map(|v| match v {
            SqlValue::Null => Value::Null,
            SqlValue::Integer(n) => Value::Integer(*n),
            SqlValue::Text(t) => Value::Text(t.clone()),
        })
        .collect()
}

fn run(conn: &mut Connection, stmts: &Vec<SqlStatement>) {
    let tx = conn.transaction().expect("transaction");
    for stmt in stmts {
        tx.execute(&stmt.sql, params_from_iter(values(stmt))).expect("statement runs");
    }
    tx.commit().expect("commit");
}

fn record(path: &str, root_id: i64, size: i64, modified: i64, marker: i64) -> FileRecord {
    let name = path.rsplit('/').next().unwrap_or("").to_string();
    FileRecord {
        path: path.to_string(),
        root_id,
        file_name_norm: normalize_query(&name),
        file_name: name,
        parent_dir: path.rsplit_once('/').map(|p| p.0.to_string()).unwrap_or_default(),
        size_bytes: size,
        modified_time: modified,
        created_time: if size % 2 == 0 { Some(size) } else { None },
        last_indexed_time: marker,
    }
}

fn copy(f: &FileRecord) -> FileRecord {
    FileRecord {
        path: f.path.clone(),
        root_id: f.root_id,
        file_name: f.file_name.clone(),
        file_name_norm: f.file_name_norm.clone(),
        parent_dir: f.parent_dir.clone(),
        size_bytes: f.size_bytes,
        modified_time: f.modified_time,
        created_time: f.created_time,
        last_indexed_time: f.last_indexed_time,
    }
}

fn both(engine: &mut SearchEngine, conn: &mut Connection, cmd: WriteCommand) {
    let twin = match &cmd {
        WriteCommand::AddOrEnableRoot { root_path } => {
            WriteCommand::AddOrEnableRoot { root_path: root_path.clone() }
        }
        WriteCommand::RemoveRoot { root_id } => WriteCommand::RemoveRoot { root_id: *root_id },
        WriteCommand::UpsertFiles { files } => {
            WriteCommand::UpsertFiles { files: files.iter().map(copy).collect() }
        }
        WriteCommand::DeletePaths { paths } => WriteCommand::DeletePaths { paths: paths.clone() },
        WriteCommand::DeleteByPrefixes { prefixes } => {
            WriteCommand::DeleteByPrefixes { prefixes: prefixes.clone() }
        }
        WriteCommand::FinalizeScan { root_id, marker, finished_at } => WriteCommand::FinalizeScan {
            root_id: *root_id,
            marker: *marker,
            finished_at: *finished_at,
        },
        WriteCommand::Shutdown => WriteCommand::Shutdown,
    };
    let reply = engine.apply(cmd).expect("applies");
    run(conn, &write_statements(&twin, &reply));
}

fn stored_paths(conn: &Connection) -> Vec<String> {
    let mut stmt = conn.prepare("SELECT path FROM files ORDER BY path").expect("prepare");
    let rows = stmt.query_map([], |row| row.get::<_, String>(0)).expect("query");
    rows.map(|r| r.expect("row")).collect()
}

fn held_paths(engine: &SearchEngine) -> Vec<String> {
    let mut paths: Vec<String> = engine.index().files().iter().map(|f| f.path.clone()).collect();
    paths.sort();
    paths
}

fn search_store(conn: &Connection, request: &SearchRequest) -> Vec<String> {
    let keys = resolve_filters(request, "/");
    let limit = request.limit.clamp(1, 1000);
    let q = normalize_query(&request.query);
    let fetch = |pattern: Option<QueryPattern>, limit: usize| -> Vec<String> {
        let stmt = build_search_statement(request, &keys, &pattern, limit);
        let mut prepared = conn.prepare(&stmt.sql).expect("prepare");
        let rows = prepared
            .query_map(params_from_iter(values(&stmt)), |row| row.get::<_, String>(0))
            .expect("query");
        rows.map(|r| r.expect("row")).collect()
    };
    if q.is_empty() {
        return fetch(None, limit);
    }
    let mut hits = fetch(Some(QueryPattern::Prefix { exact: q.clone() }), limit);
    if hits.len() >= limit {
        return hits;
    }
    let remain = limit - hits.len();
    hits.extend(fetch(Some(QueryPattern::Contains { needle: q }), remain));
    hits
}

fn search_engine(engine: &SearchEngine, request: &SearchRequest) -> Vec<String> {
    engine.search(request, "/").iter().map(|h| h.path.clone()).collect()
}

fn filled() -> (SearchEngine, Connection) {
    let mut engine = SearchEngine::new();
    let mut conn = open_store();
    both(&mut engine, &mut conn, WriteCommand::AddOrEnableRoot { root_path: "/v".to_string() });
    both(&mut engine, &mut conn, WriteCommand::AddOrEnableRoot { root_path: "/w".to_string() });
    let files = vec![
        record("/v/trip.mp4", 1, 10, 100, 5),
        record("/v/Trip to Okinawa.mp4", 1, 20, 300, 5),
        record("/v/sub/trip.mp4", 1, 30, 100, 5),
        record("/v/my trip.mp4", 1, 40, 500, 5),
        record("/v/100%_test.mp4", 1, 50, 200, 5),
        record("/v/100x_test.mp4", 1, 60, 200, 5),
        record("/v/a\\b.mp4", 1, 70, 50, 5),
        record("/w/旅行_沖縄.mp4", 2, 80, 900, 5),
        record("/w/ＡＢＣ trip.mp4", 2, 90, 100, 5),
        record("/w/sub/deep/x.mp4", 2, 15, 700, 5),
    ];
    both(&mut engine, &mut conn, WriteCommand::UpsertFiles { files });
    (engine, conn)
}

#[test]
fn the_store_answers_searches_as_the_engine_does() {
    let (engine, conn) = filled();
    let mut requests = Vec::new();
    for text in ["", "trip", " TRIP.mp4", "100%_", "%", "_", "a\\b", "旅行", "abc", "x", "zzz", "."] {
        for sort in [SearchSort::ModifiedDesc, SearchSort::NameAsc] {
            for limit in [0usize, 1, 2, 3, 100, 5000] {
                requests.push(SearchRequest {
                    query: text.to_string(),
                    limit,
                    sort,
                    ..Default::default()
                });
            }
        }
    }
    requests.push(SearchRequest { root_id: Some(2), ..Default::default() });
    requests.push(SearchRequest { root_path: Some(" /v ".to_string()), ..Default::default() });
    requests.push(SearchRequest { parent_dir: Some("/v/sub".to_string()), ..Default::default() });
    requests.push(SearchRequest { size_min: Some(30), size_max: Some(70), ..Default::default() });
    requests.push(SearchRequest {
        query: "trip".to_string(),
        modified_after: Some(100),
        modified_before: Some(300),
        ..Default::default()
    });
    requests.push(SearchRequest {
        query: "t".to_string(),
        root_id: Some(1),
        size_min: Some(11),
        limit: 2,
        sort: SearchSort::NameAsc,
        ..Default::default()
    });
    for request in &requests {
        assert_eq!(search_engine(&engine, request), search_store(&conn, request), "{request:?}");
    }
}

#[test]
fn the_store_follows_every_command() {
    let (mut engine, mut conn) = filled();
    assert_eq!(held_paths(&engine), stored_paths(&conn));
    both(
        &mut engine,
        &mut conn,
        WriteCommand::UpsertFiles {
            files: vec![record("/v/trip.mp4", 2, 11, 101, 9), record("/w/new%.mp4", 2, 1, 1, 9)],
        },
    );
    assert_eq!(held_paths(&engine), stored_paths(&conn));
    both(
        &mut engine,
        &mut conn,
        WriteCommand::DeletePaths { paths: vec!["/v/my trip.mp4".to_string(), "/nowhere".to_string()] },
    );
    assert_eq!(held_paths(&engine), stored_paths(&conn));
    both(
        &mut engine,
        &mut conn,
        WriteCommand::DeleteByPrefixes { prefixes: vec!["/w/sub".to_string(), "/v/100%".to_string()] },
    );
    assert_eq!(held_paths(&engine), stored_paths(&conn));
    assert!(held_paths(&engine).contains(&"/v/100%_test.mp4".to_string()));
    both(
        &mut engine,
        &mut conn,
        WriteCommand::FinalizeScan { root_id: 2, marker: 9, finished_at: 123 },
    );
    assert_eq!(held_paths(&engine), stored_paths(&conn));
    assert_eq!(held_paths(&engine).iter().filter(|p| p.starts_with("/w/")).count(), 1);
    both(&mut engine, &mut conn, WriteCommand::RemoveRoot { root_id: 1 });
    assert_eq!(held_paths(&engine), stored_paths(&conn));
    assert_eq!(held_paths(&engine), vec!["/v/trip.mp4", "/w/new%.mp4"]);
    both(&mut engine, &mut conn, WriteCommand::AddOrEnableRoot { root_path: "/v".to_string() });
    both(&mut engine, &mut conn, WriteCommand::Shutdown);

    let mut stmt = conn.prepare(SELECT_ROOTS).expect("prepare");
    let roots: Vec<RootEntry> = stmt
        .query_map([], |row| {
            Ok(RootEntry {
                root_id: row.get(0)?,
                root_path: row.get(1)?,
                is_enabled: row.get::<_, i64>(2)? != 0,
                last_scan_time: row.get(3)?,
            })
        })
        .expect("query")
        .map(|r| r.expect("row"))
        .collect();
    let mut stmt = conn.prepare(SELECT_FILES).expect("prepare");
    let files: Vec<FileRecord> = stmt
        .query_map([], |row| {
            Ok(FileRecord {
                path: row.get(0)?,
                root_id: row.get(1)?,
                file_name: row.get(2)?,
                file_name_norm: row.get(3)?,
                parent_dir: row.get(4)?,
                size_bytes: row.get(5)?,
                modified_time: row.get(6)?,
                created_time: row.get(7)?,
                last_indexed_time: row.get(8)?,
            })
        })
        .expect("query")
        .map(|r| r.expect("row"))
        .collect();
    let last: i64 = conn.query_row(SELECT_LAST_ROOT_ID, [], |row| row.get(0)).expect("sequence");
    assert_eq!(last, 3);
    assert_eq!(last, engine.index().last_root_id());
    let reopened = SearchEngine::open(roots, files, last).expect("the stored index is well formed");
    assert_eq!(held_paths(&reopened), held_paths(&engine));
    let listed: Vec<(i64, String, Option<i64>)> = reopened
        .list_roots()
        .iter()
        .map(|r| (r.root_id, r.root_path.clone(), r.last_scan_time))
        .collect();
    assert_eq!(listed, vec![(3, "/v".to_string(), None), (2, "/w".to_string(), Some(123))]);
}

#[test]
fn the_store_deletes_below_a_prefix_with_a_backslash() {
    let mut engine = SearchEngine::new();
    let mut conn = open_store();
    both(&mut engine, &mut conn, WriteCommand::AddOrEnableRoot { root_path: "/v".to_string() });
    let files = vec![
        record("/v/a\\b/x.mp4", 1, 1, 1, 1),
        record("/v/a\\b", 1, 1, 1, 1),
        record("/v/a\\bc/y.mp4", 1, 1, 1, 1),
        record("/v/A\\b/z.mp4", 1, 1, 1, 1),
        record("/v/a_b/w.mp4", 1, 1, 1, 1),
    ];
    both(&mut engine, &mut conn, WriteCommand::UpsertFiles { files });
    both(
        &mut engine,
        &mut conn,
        WriteCommand::DeleteByPrefixes { prefixes: vec!["/v/a\\b".to_string()] },
    );
    assert_eq!(held_paths(&engine), stored_paths(&conn));
    assert_eq!(stored_paths(&conn), vec!["/v/A\\b/z.mp4", "/v/a\\bc/y.mp4", "/v/a_b/w.mp4"]);
    both(
        &mut engine,
        &mut conn,
        WriteCommand::DeleteByPrefixes { prefixes: vec!["/v/a_b".to_string(), "/v".to_string()] },
    );
    assert_eq!(held_paths(&engine), stored_paths(&conn));
    assert!(stored_paths(&conn).is_empty());
}

#[test]
fn a_newer_schema_is_refused() {
    assert_eq!(DB_SCHEMA_VERSION, 1);
    assert!(matches!(apply_migrations(1), Ok(None)));
    assert!(matches!(apply_migrations(-3), Ok(None)));
    match apply_migrations(0) {
        Ok(Some(sql)) => assert_eq!(sql, SCHEMA_V1),
        other => panic!("unexpected: {other:?}"),
    }
    match apply_migrations(2) {
        Err(e) => {
            assert!(matches!(e, EngineError::SchemaTooNew { found: 2, supported: 1 }));
            assert_eq!(error_message(&e), "DB schema version 2 is newer than supported version 1");
        }
        other => panic!("unexpected: {other:?}"),
    }
    let conn = open_store();
    let version: i32 =
        conn.pragma_query_value(None, "user_version", |row| row.get(0)).expect("version");
    assert_eq!(version, 1);
}

#[test]
fn errors_have_messages() {
    assert_eq!(
        error_message(&EngineError::Validation { path: "/x".to_string() }),
        "検索対象フォルダが存在しないか、ディレクトリではありません: /x"
    );
    assert_eq!(error_message(&EngineError::Storage { reason: "full".to_string() }), "full");
    assert_eq!(error_message(&EngineError::Channel), "sending on a closed channel");
    assert_eq!(
        error_message(&EngineError::SchemaTooNew { found: i32::MIN, supported: -1 }),
        "DB schema version -2147483648 is newer than supported version -1"
    );
}

#[test]
fn patterns_are_literal_text_with_wildcards_at_the_ends() {
    assert_eq!(starts_with_pattern("100%_"), "100\\%\\_%");
    assert_eq!(contains_pattern("a\\b"), "%a\\\\b%");
    assert_eq!(prefix_pattern("/v/50%", '/'), "/v/50\\%/%");
    assert_eq!(prefix_pattern("C:\\v", '\\'), "C:\\\\v\\\\%");
    assert_eq!(prefix_pattern("/v/a\\b", '/'), "/v/a\\\\b/%");
    assert_eq!(prefix_pattern("", '/'), "/%");
    assert_eq!(starts_with_pattern(""), "%");
}
