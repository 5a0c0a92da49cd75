//! The store of the index: the settings of a connection, the schema and its
//! versions, and the statements that carry each change of the index to the
//! store.

use crate::decimal::{i64_digits, signed_digits};
use crate::index::{WriteCommand, WriteReply};
use crate::pathkey::is_path_separator;
use crate::normalize::{escape_like_pattern, like_escaped};
use crate::records::{EngineError, EngineResult, FileRecord, DB_SCHEMA_VERSION};
use crate::text::{chars_of, string_of};
use vstd::prelude::*;

verus! {

/// How long a connection waits for a lock, in milliseconds.
pub const BUSY_TIMEOUT_MILLIS: u64 = 2000;

/// The statements that create the tables and indexes of the first schema
/// version and set the version.
pub const SCHEMA_V1: &'static str = "BEGIN;
CREATE TABLE IF NOT EXISTS roots (
    root_id INTEGER PRIMARY KEY AUTOINCREMENT,
    root_path TEXT NOT NULL UNIQUE,
    is_enabled INTEGER NOT NULL DEFAULT 1,
    last_scan_time INTEGER
);
CREATE TABLE IF NOT EXISTS files (
    path TEXT PRIMARY KEY,
    root_id INTEGER NOT NULL,
    file_name TEXT NOT NULL,
    file_name_norm TEXT NOT NULL,
    parent_dir TEXT NOT NULL,
    size_bytes INTEGER NOT NULL,
    modified_time INTEGER NOT NULL,
    created_time INTEGER,
    last_indexed_time INTEGER NOT NULL,
    FOREIGN KEY(root_id) REFERENCES roots(root_id) ON DELETE CASCADE
);
CREATE INDEX IF NOT EXISTS idx_files_root_id ON files(root_id);
CREATE INDEX IF NOT EXISTS idx_files_parent_dir ON files(parent_dir);
CREATE INDEX IF NOT EXISTS idx_files_file_name_norm ON files(file_name_norm);
CREATE INDEX IF NOT EXISTS idx_files_modified_time ON files(modified_time);
CREATE INDEX IF NOT EXISTS idx_files_size_bytes ON files(size_bytes);
PRAGMA user_version = 1;
COMMIT;";

/// The statement that reads all roots.
pub const SELECT_ROOTS: &'static str =
    "SELECT root_id, root_path, is_enabled, last_scan_time FROM roots ORDER BY root_id ASC";

/// The statement that reads all files.
pub const SELECT_FILES: &'static str =
    "SELECT path, root_id, file_name, file_name_norm, parent_dir, size_bytes, modified_time, created_time, last_indexed_time FROM files ORDER BY rowid ASC";

/// The statement that reads the enabled roots.
pub const SELECT_ENABLED_ROOTS: &'static str =
    "SELECT root_id, root_path FROM roots WHERE is_enabled = 1";

/// The statement that reads the largest root id that was handed out.
pub const SELECT_LAST_ROOT_ID: &'static str =
    "SELECT COALESCE(MAX(seq), 0) FROM sqlite_sequence WHERE name = 'roots'";

/// The statement that adds a root under its id, or enables it.
pub const UPSERT_ROOT: &'static str =
    "INSERT INTO roots (root_id, root_path, is_enabled) VALUES (?, ?, 1) ON CONFLICT(root_path) DO UPDATE SET is_enabled = 1";

/// The statement that removes a root; its files go with it.
pub const DELETE_ROOT: &'static str = "DELETE FROM roots WHERE root_id = ?";

/// The statement that inserts a file, or replaces the one of its path.
pub const UPSERT_FILE: &'static str =
    "INSERT INTO files (path, root_id, file_name, file_name_norm, parent_dir, size_bytes, modified_time, created_time, last_indexed_time) VALUES (?, ?, ?, ?, ?, ?, ?, ?, ?) ON CONFLICT(path) DO UPDATE SET root_id = excluded.root_id, file_name = excluded.file_name, file_name_norm = excluded.file_name_norm, parent_dir = excluded.parent_dir, size_bytes = excluded.size_bytes, modified_time = excluded.modified_time, created_time = excluded.created_time, last_indexed_time = excluded.last_indexed_time";

/// The statement that deletes the file of one path.
pub const DELETE_PATH: &'static str = "DELETE FROM files WHERE path = ?";

/// The statement that deletes the files whose path matches a pattern.
pub const DELETE_BELOW: &'static str = "DELETE FROM files WHERE path LIKE ? ESCAPE '\\'";

/// The statement that deletes the files of a root that a scan did not see.
pub const DELETE_STALE: &'static str =
    "DELETE FROM files WHERE root_id = ? AND last_indexed_time < ?";

/// The statement that notes when the scan of a root finished.
pub const TOUCH_ROOT: &'static str = "UPDATE roots SET last_scan_time = ? WHERE root_id = ?";

/// A value that is bound to a statement.
#[derive(Debug)]
pub enum SqlValue {
    Null,
    Integer(i64),
    Text(String),
}

/// What a bound value holds.
pub enum SqlParam {
    Null,
    Integer(i64),
    Text(Seq<char>),
}

impl View for SqlValue {
    type V = SqlParam;

    open spec fn view(&self) -> SqlParam {
        match self {
            SqlValue::Null => SqlParam::Null,
            SqlValue::Integer(n) => SqlParam::Integer(*n),
            SqlValue::Text(s) => SqlParam::Text(s@),
        }
    }
}

/// A statement with the values that are bound to its placeholders.
#[derive(Debug)]
pub struct SqlStatement {
    pub sql: String,
    pub params: Vec<SqlValue>,
}

/// What a statement holds.
pub struct SqlCall {
    pub sql: Seq<char>,
    pub params: Seq<SqlParam>,
}

impl View for SqlStatement {
    type V = SqlCall;

    open spec fn view(&self) -> SqlCall {
        SqlCall { sql: self.sql@, params: self.params@.map_values(|v: SqlValue| v@) }
    }
}

/// The setting of a connection: the name of a pragma and its value.
pub open spec fn pragmas() -> Seq<(Seq<char>, Seq<char>)> {
    seq![
        ("journal_mode"@, "WAL"@),
        ("synchronous"@, "NORMAL"@),
        ("foreign_keys"@, "ON"@),
        ("case_sensitive_like"@, "ON"@),
    ]
}

/// The pragmas that every connection is opened with: a journal that lets
/// readers and the writer work side by side, foreign keys enforced, and
/// patterns that tell the case of letters apart.
pub fn connection_pragmas() -> (out: Vec<(String, String)>)
    ensures
        out@.len() == pragmas().len(),
        forall|i: int|
            0 <= i < out@.len() ==> (#[trigger] out@[i]).0@ == pragmas()[i].0 && out@[i].1@
                == pragmas()[i].1,
{
    let mut out: Vec<(String, String)> = Vec::new();
    out.push(("journal_mode".to_owned(), "WAL".to_owned()));
    out.push(("synchronous".to_owned(), "NORMAL".to_owned()));
    out.push(("foreign_keys".to_owned(), "ON".to_owned()));
    out.push(("case_sensitive_like".to_owned(), "ON".to_owned()));
    out
}

/// What is to be done with a store of the schema version `version`: a
/// version above the supported one is refused, version 0 gets the schema
/// created, anything else is left as it is.
pub fn apply_migrations(version: i32) -> (res: EngineResult<Option<String>>)
    ensures
        version > DB_SCHEMA_VERSION ==> (res matches Err(
            EngineError::SchemaTooNew { found, supported },
        ) && found == version && supported == DB_SCHEMA_VERSION),
        version == 0 ==> (res matches Ok(Some(sql)) && sql@ == SCHEMA_V1@),
        version <= DB_SCHEMA_VERSION && version != 0 ==> res matches Ok(None),
{
    if version > DB_SCHEMA_VERSION {
        return Err(EngineError::SchemaTooNew { found: version, supported: DB_SCHEMA_VERSION });
    }
    if version == 0 {
        return Ok(Some(SCHEMA_V1.to_owned()));
    }
    Ok(None)
}

/// The text that tells a user of an error.
pub open spec fn message_of(e: EngineError) -> Seq<char> {
    match e {
        EngineError::Validation { path } => "検索対象フォルダが存在しないか、ディレクトリではありません: "@
            + path@,
        EngineError::Storage { reason } => reason@,
        EngineError::Channel => "sending on a closed channel"@,
        EngineError::SchemaTooNew { found, supported } => "DB schema version "@ + signed_digits(
            found as int,
        ) + " is newer than supported version "@ + signed_digits(supported as int),
    }
}

/// The text that tells a user of an error.
pub fn error_message(e: &EngineError) -> (text: String)
    ensures
        text@ == message_of(*e),
{
    match e {
        EngineError::Validation { path } => {
            let mut out = chars_of("検索対象フォルダが存在しないか、ディレクトリではありません: ");
            let mut rest = chars_of(path.as_str());
            out.append(&mut rest);
            string_of(&out)
        },
        EngineError::Storage { reason } => reason.clone(),
        EngineError::Channel => "sending on a closed channel".to_owned(),
        EngineError::SchemaTooNew { found, supported } => {
            let mut out = chars_of("DB schema version ");
            let mut a = i64_digits(*found as i64);
            out.append(&mut a);
            let mut mid = chars_of(" is newer than supported version ");
            out.append(&mut mid);
            let mut b = i64_digits(*supported as i64);
            out.append(&mut b);
            string_of(&out)
        },
    }
}

/// The pattern that matches the paths that start with `prefix` followed by
/// the separator `sep`: the prefix and the separator as literal text, and
/// then anything.
pub open spec fn below_pattern(prefix: Seq<char>, sep: char) -> Seq<char> {
    like_escaped(prefix.push(sep)).push('%')
}

/// The statement that deletes what lies below `prefix` after the separator
/// `sep`, if the platform takes `sep` as a separator; nothing otherwise.
pub open spec fn below_calls(prefix: Seq<char>, sep: char) -> Seq<SqlCall> {
    if is_path_separator(sep) {
        seq![
            SqlCall { sql: DELETE_BELOW@, params: seq![SqlParam::Text(below_pattern(prefix, sep))] },
        ]
    } else {
        Seq::empty()
    }
}

/// The statements that delete the file at `prefix` and what lies below it:
/// one for the path itself, and one for each of slash and backslash that
/// the platform takes as a separator of path components.
pub open spec fn prefix_calls(prefix: Seq<char>) -> Seq<SqlCall> {
    seq![SqlCall { sql: DELETE_PATH@, params: seq![SqlParam::Text(prefix)] }] + below_calls(
        prefix,
        '/',
    ) + below_calls(prefix, '\\')
}

/// The statements that delete what is at or under each of `prefixes`.
pub open spec fn prefixes_calls(prefixes: Seq<String>) -> Seq<SqlCall>
    decreases prefixes.len(),
{
    if prefixes.len() == 0 {
        Seq::empty()
    } else {
        prefixes_calls(prefixes.drop_last()) + prefix_calls(prefixes.last()@)
    }
}

/// An optional number as a bound value.
pub open spec fn optional_integer(v: Option<i64>) -> SqlParam {
    match v {
        Some(n) => SqlParam::Integer(n),
        None => SqlParam::Null,
    }
}

/// The values that are bound when a file is stored.
pub open spec fn file_params(f: FileRecord) -> Seq<SqlParam> {
    seq![
        SqlParam::Text(f.path@),
        SqlParam::Integer(f.root_id),
        SqlParam::Text(f.file_name@),
        SqlParam::Text(f.file_name_norm@),
        SqlParam::Text(f.parent_dir@),
        SqlParam::Integer(f.size_bytes),
        SqlParam::Integer(f.modified_time),
        optional_integer(f.created_time),
        SqlParam::Integer(f.last_indexed_time),
    ]
}

/// The statements that carry a command to the store, for a command that
/// was applied with the answer `reply`. They are to be run in one
/// transaction.
pub open spec fn statements_of(cmd: WriteCommand, reply: WriteReply) -> Seq<SqlCall> {
    match cmd {
        WriteCommand::AddOrEnableRoot { root_path } => match reply {
            WriteReply::RootId(id) => seq![
                SqlCall {
                    sql: UPSERT_ROOT@,
                    params: seq![SqlParam::Integer(id), SqlParam::Text(root_path@)],
                },
            ],
            WriteReply::Done => Seq::empty(),
        },
        WriteCommand::RemoveRoot { root_id } => seq![
            SqlCall { sql: DELETE_ROOT@, params: seq![SqlParam::Integer(root_id)] },
        ],
        WriteCommand::UpsertFiles { files } => Seq::new(
            files@.len(),
            |i: int| SqlCall { sql: UPSERT_FILE@, params: file_params(files@[i]) },
        ),
        WriteCommand::DeletePaths { paths } => Seq::new(
            paths@.len(),
            |i: int| SqlCall { sql: DELETE_PATH@, params: seq![SqlParam::Text(paths@[i]@)] },
        ),
        WriteCommand::DeleteByPrefixes { prefixes } => prefixes_calls(prefixes@),
        WriteCommand::FinalizeScan { root_id, marker, finished_at } => seq![
            SqlCall {
                sql: DELETE_STALE@,
                params: seq![SqlParam::Integer(root_id), SqlParam::Integer(marker)],
            },
            SqlCall {
                sql: TOUCH_ROOT@,
                params: seq![SqlParam::Integer(finished_at), SqlParam::Integer(root_id)],
            },
        ],
        WriteCommand::Shutdown => Seq::empty(),
    }
}

/// The views of statements.
pub open spec fn calls(stmts: Seq<SqlStatement>) -> Seq<SqlCall> {
    stmts.map_values(|s: SqlStatement| s@)
}

/// A statement with its values.
fn statement(sql: &str, params: Vec<SqlValue>) -> (s: SqlStatement)
    ensures
        s@ == (SqlCall { sql: sql@, params: params@.map_values(|v: SqlValue| v@) }),
{
    SqlStatement { sql: sql.to_owned(), params }
}

/// The pattern that matches the paths that start with `prefix` followed by
/// the separator `sep`.
pub fn prefix_pattern(prefix: &str, sep: char) -> (out: String)
    ensures
        out@ == below_pattern(prefix@, sep),
{
    let mut text = chars_of(prefix);
    text.push(sep);
    let mut out = chars_of(escape_like_pattern(string_of(&text).as_str()).as_str());
    out.push('%');
    string_of(&out)
}

/// Appends the statement that deletes what lies below `prefix` after the
/// separator `sep`, if the platform takes `sep` as a separator.
fn push_below(stmts: &mut Vec<SqlStatement>, prefix: &str, sep: char)
    ensures
        calls(final(stmts)@) == calls(old(stmts)@) + below_calls(prefix@, sep),
{
    if std::path::is_separator(sep) {
        let mut params: Vec<SqlValue> = Vec::new();
        params.push(SqlValue::Text(prefix_pattern(prefix, sep)));
        assert(params@.map_values(|v: SqlValue| v@) =~= seq![
            SqlParam::Text(below_pattern(prefix@, sep)),
        ]);
        stmts.push(statement(DELETE_BELOW, params));
        assert(calls(stmts@) =~= calls(old(stmts)@) + below_calls(prefix@, sep));
    } else {
        assert(calls(stmts@) =~= calls(old(stmts)@) + below_calls(prefix@, sep));
    }
}

/// Appends the statements that delete the file at `prefix` and what lies
/// below it.
fn push_prefix(stmts: &mut Vec<SqlStatement>, prefix: &String)
    ensures
        calls(final(stmts)@) == calls(old(stmts)@) + prefix_calls(prefix@),
{
    let ghost start = calls(stmts@);
    let mut params: Vec<SqlValue> = Vec::new();
    params.push(SqlValue::Text(prefix.clone()));
    assert(params@.map_values(|v: SqlValue| v@) =~= seq![SqlParam::Text(prefix@)]);
    stmts.push(statement(DELETE_PATH, params));
    assert(calls(stmts@) =~= start + seq![
        SqlCall { sql: DELETE_PATH@, params: seq![SqlParam::Text(prefix@)] },
    ]);
    push_below(stmts, prefix.as_str(), '/');
    push_below(stmts, prefix.as_str(), '\\');
    assert(calls(stmts@) =~= start + prefix_calls(prefix@));
}

/// The values that are bound when a file is stored.
fn values_of_file(f: &FileRecord) -> (params: Vec<SqlValue>)
    ensures
        params@.map_values(|v: SqlValue| v@) == file_params(*f),
{
    let mut params: Vec<SqlValue> = Vec::new();
    params.push(SqlValue::Text(f.path.clone()));
    params.push(SqlValue::Integer(f.root_id));
    params.push(SqlValue::Text(f.file_name.clone()));
    params.push(SqlValue::Text(f.file_name_norm.clone()));
    params.push(SqlValue::Text(f.parent_dir.clone()));
    params.push(SqlValue::Integer(f.size_bytes));
    params.push(SqlValue::Integer(f.modified_time));
    params.push(
        match f.created_time {
            Some(t) => SqlValue::Integer(t),
            None => SqlValue::Null,
        },
    );
    params.push(SqlValue::Integer(f.last_indexed_time));
    assert(params@.map_values(|v: SqlValue| v@) =~= file_params(*f));
    params
}

/// The statements that carry a command to the store, for a command that
/// was applied with the answer `reply`.
pub fn write_statements(cmd: &WriteCommand, reply: &WriteReply) -> (stmts: Vec<SqlStatement>)
    ensures
        calls(stmts@) == statements_of(*cmd, *reply),
{
    let mut stmts: Vec<SqlStatement> = Vec::new();
    match cmd {
        WriteCommand::AddOrEnableRoot { root_path } => {
            if let WriteReply::RootId(id) = reply {
                let mut params: Vec<SqlValue> = Vec::new();
                params.push(SqlValue::Integer(*id));
                params.push(SqlValue::Text(root_path.clone()));
                assert(params@.map_values(|v: SqlValue| v@) =~= seq![
                    SqlParam::Integer(*id),
                    SqlParam::Text(root_path@),
                ]);
                stmts.push(statement(UPSERT_ROOT, params));
            }
        },
        WriteCommand::RemoveRoot { root_id } => {
            let mut params: Vec<SqlValue> = Vec::new();
            params.push(SqlValue::Integer(*root_id));
            assert(params@.map_values(|v: SqlValue| v@) =~= seq![SqlParam::Integer(*root_id)]);
            stmts.push(statement(DELETE_ROOT, params));
        },
        WriteCommand::UpsertFiles { files } => {
            let mut i: usize = 0;
            while i < files.len()
                invariant
                    i <= files.len(),
                    stmts@.len() == i,
                    forall|k: int|
                        0 <= k < i ==> (#[trigger] stmts@[k])@ == (SqlCall {
                            sql: UPSERT_FILE@,
                            params: file_params(files@[k]),
                        }),
                decreases files.len() - i,
            {
                stmts.push(statement(UPSERT_FILE, values_of_file(&files[i])));
                i += 1;
            }
        },
        WriteCommand::DeletePaths { paths } => {
            let mut i: usize = 0;
            while i < paths.len()
                invariant
                    i <= paths.len(),
                    stmts@.len() == i,
                    forall|k: int|
                        0 <= k < i ==> (#[trigger] stmts@[k])@ == (SqlCall {
                            sql: DELETE_PATH@,
                            params: seq![SqlParam::Text(paths@[k]@)],
                        }),
                decreases paths.len() - i,
            {
                let mut params: Vec<SqlValue> = Vec::new();
                params.push(SqlValue::Text(paths[i].clone()));
                assert(params@.map_values(|v: SqlValue| v@) =~= seq![
                    SqlParam::Text(paths@[i as int]@),
                ]);
                stmts.push(statement(DELETE_PATH, params));
                i += 1;
            }
        },
        WriteCommand::DeleteByPrefixes { prefixes } => {
            let mut i: usize = 0;
            assert(prefixes@.take(0) =~= Seq::<String>::empty());
            assert(calls(stmts@) =~= prefixes_calls(prefixes@.take(0)));
            while i < prefixes.len()
                invariant
                    i <= prefixes.len(),
                    calls(stmts@) == prefixes_calls(prefixes@.take(i as int)),
                decreases prefixes.len() - i,
            {
                push_prefix(&mut stmts, &prefixes[i]);
                i += 1;
                proof {
                    assert(prefixes@.take(i as int).drop_last() =~= prefixes@.take(i - 1));
                    assert(prefixes@.take(i as int).last() == prefixes@[i - 1]);
                }
            }
            assert(prefixes@.take(prefixes.len() as int) =~= prefixes@);
        },
        WriteCommand::FinalizeScan { root_id, marker, finished_at } => {
            let mut first: Vec<SqlValue> = Vec::new();
            first.push(SqlValue::Integer(*root_id));
            first.push(SqlValue::Integer(*marker));
            assert(first@.map_values(|v: SqlValue| v@) =~= seq![
                SqlParam::Integer(*root_id),
                SqlParam::Integer(*marker),
            ]);
            stmts.push(statement(DELETE_STALE, first));
            let mut second: Vec<SqlValue> = Vec::new();
            second.push(SqlValue::Integer(*finished_at));
            second.push(SqlValue::Integer(*root_id));
            assert(second@.map_values(|v: SqlValue| v@) =~= seq![
                SqlParam::Integer(*finished_at),
                SqlParam::Integer(*root_id),
            ]);
            stmts.push(statement(TOUCH_ROOT, second));
        },
        WriteCommand::Shutdown => {},
    }
    assert(calls(stmts@) =~= statements_of(*cmd, *reply));
    stmts
}

} // verus!
