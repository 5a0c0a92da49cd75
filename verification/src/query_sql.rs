//! One phase of a search as a statement for the store: the filters of the
//! request as conditions, the pattern as conditions with literal pattern
//! text, the ranking as the order, and the limit.

use crate::db::{SqlCall, SqlParam, SqlStatement, SqlValue};
use crate::normalize::{escape_like_pattern, like_escaped};
use crate::query::{pattern_of, FilterKeys, NamePattern, PathFilters, QueryPattern};
use crate::records::{SearchRequest, SearchSort};
use crate::text::{chars_of, string_of};
use vstd::prelude::*;

verus! {

/// The start of every search statement: the columns of a hit, of the files
/// of enabled roots.
pub const SELECT_HITS: &'static str =
    "SELECT f.path, f.file_name, f.size_bytes, f.modified_time, f.root_id, f.parent_dir FROM files f JOIN roots r ON r.root_id = f.root_id WHERE r.is_enabled = 1";

/// The order of the requested sort; files that it does not tell apart come
/// in the order of their paths.
pub open spec fn sort_clause(sort: SearchSort) -> Seq<char> {
    match sort {
        SearchSort::ModifiedDesc => " f.modified_time DESC, f.file_name_norm ASC, f.path ASC"@,
        SearchSort::NameAsc => " f.file_name_norm ASC, f.modified_time DESC, f.path ASC"@,
    }
}

/// Appends the order of the requested sort.
pub fn push_sort_clause(sql: &mut Vec<char>, sort: SearchSort)
    ensures
        final(sql)@ == old(sql)@ + sort_clause(sort),
{
    let mut clause = match sort {
        SearchSort::ModifiedDesc => chars_of(
            " f.modified_time DESC, f.file_name_norm ASC, f.path ASC",
        ),
        SearchSort::NameAsc => chars_of(" f.file_name_norm ASC, f.modified_time DESC, f.path ASC"),
    };
    sql.append(&mut clause);
}

/// A statement with one more piece of text.
pub open spec fn with_text(c: SqlCall, text: Seq<char>) -> SqlCall {
    SqlCall { sql: c.sql + text, params: c.params }
}

/// A statement with one more value.
pub open spec fn with_param(c: SqlCall, value: SqlParam) -> SqlCall {
    SqlCall { sql: c.sql, params: c.params.push(value) }
}

/// A statement with a condition on a number, if the filter is set.
pub open spec fn with_integer_filter(c: SqlCall, value: Option<i64>, clause: Seq<char>) -> SqlCall {
    match value {
        Some(n) => with_param(with_text(c, clause), SqlParam::Integer(n)),
        None => c,
    }
}

/// A statement with a condition on a text, if the filter is set.
pub open spec fn with_text_filter(
    c: SqlCall,
    value: Option<Seq<char>>,
    clause: Seq<char>,
) -> SqlCall {
    match value {
        Some(t) => with_param(with_text(c, clause), SqlParam::Text(t)),
        None => c,
    }
}

/// A statement with the conditions of the filters of a request: the root
/// by id, the root by path, the parent directory, the bounds of the time
/// of modification and the bounds of the size, each if it is set.
pub open spec fn with_filters(c: SqlCall, req: SearchRequest, keys: PathFilters) -> SqlCall {
    let c1 = with_integer_filter(c, req.root_id, " AND f.root_id = ?"@);
    let c2 = with_text_filter(c1, keys.root_path, " AND r.root_path = ?"@);
    let c3 = with_text_filter(c2, keys.parent_dir, " AND f.parent_dir = ?"@);
    let c4 = with_integer_filter(c3, req.modified_after, " AND f.modified_time >= ?"@);
    let c5 = with_integer_filter(c4, req.modified_before, " AND f.modified_time <= ?"@);
    let c6 = with_integer_filter(c5, req.size_min, " AND f.size_bytes >= ?"@);
    with_integer_filter(c6, req.size_max, " AND f.size_bytes <= ?"@)
}

/// The pattern text that matches what starts with `q`.
pub open spec fn starts_pattern(q: Seq<char>) -> Seq<char> {
    like_escaped(q).push('%')
}

/// The pattern text that matches what contains `q`.
pub open spec fn holds_pattern(q: Seq<char>) -> Seq<char> {
    seq!['%'] + like_escaped(q).push('%')
}

/// A statement with the conditions of a pattern and with the order of the
/// hits. A prefix pattern puts the names equal to the query first.
pub open spec fn with_pattern(c: SqlCall, pattern: NamePattern, sort: SearchSort) -> SqlCall {
    match pattern {
        NamePattern::Any => with_text(with_text(c, " ORDER BY"@), sort_clause(sort)),
        NamePattern::Prefix(q) => {
            let c1 = with_param(
                with_text(c, " AND f.file_name_norm LIKE ? ESCAPE '\\'"@),
                SqlParam::Text(starts_pattern(q)),
            );
            let c2 = with_param(
                with_text(c1, " ORDER BY CASE WHEN f.file_name_norm = ? THEN 0 ELSE 1 END ASC,"@),
                SqlParam::Text(q),
            );
            with_text(c2, sort_clause(sort))
        },
        NamePattern::Contains(q) => {
            let c1 = with_param(
                with_text(c, " AND f.file_name_norm LIKE ? ESCAPE '\\'"@),
                SqlParam::Text(holds_pattern(q)),
            );
            let c2 = with_param(
                with_text(c1, " AND f.file_name_norm NOT LIKE ? ESCAPE '\\'"@),
                SqlParam::Text(starts_pattern(q)),
            );
            with_text(with_text(c2, " ORDER BY"@), sort_clause(sort))
        },
    }
}

/// The statement of one phase of a search: the columns of a hit, the
/// conditions of the filters, the conditions and the order of the pattern,
/// and the limit.
pub open spec fn search_call(
    req: SearchRequest,
    keys: PathFilters,
    pattern: NamePattern,
    limit: usize,
) -> SqlCall {
    let start = SqlCall { sql: SELECT_HITS@, params: Seq::empty() };
    with_param(
        with_text(with_pattern(with_filters(start, req, keys), pattern, req.sort), " LIMIT ?"@),
        SqlParam::Integer(limit as i64),
    )
}

/// A statement that is being composed.
struct Draft {
    sql: Vec<char>,
    params: Vec<SqlValue>,
}

impl View for Draft {
    type V = SqlCall;

    closed spec fn view(&self) -> SqlCall {
        SqlCall { sql: self.sql@, params: self.params@.map_values(|v: SqlValue| v@) }
    }
}

impl Draft {
    fn text(&mut self, text: &str)
        ensures
            final(self)@ == with_text(old(self)@, text@),
    {
        let mut more = chars_of(text);
        self.sql.append(&mut more);
    }

    fn sort(&mut self, sort: SearchSort)
        ensures
            final(self)@ == with_text(old(self)@, sort_clause(sort)),
    {
        push_sort_clause(&mut self.sql, sort);
    }

    fn param(&mut self, value: SqlValue)
        ensures
            final(self)@ == with_param(old(self)@, value@),
    {
        self.params.push(value);
        assert(self@.params =~= old(self)@.params.push(value@));
    }

    fn integer_filter(&mut self, value: Option<i64>, clause: &str)
        ensures
            final(self)@ == with_integer_filter(old(self)@, value, clause@),
    {
        if let Some(n) = value {
            self.text(clause);
            self.param(SqlValue::Integer(n));
        }
    }

    fn text_filter(&mut self, value: &Option<String>, clause: &str)
        ensures
            final(self)@ == with_text_filter(
                old(self)@,
                crate::pathkey::opt_view(*value),
                clause@,
            ),
    {
        if let Some(t) = value {
            self.text(clause);
            self.param(SqlValue::Text(t.clone()));
        }
    }

    fn filters(&mut self, request: &SearchRequest, keys: &FilterKeys)
        ensures
            final(self)@ == with_filters(old(self)@, *request, keys@),
    {
        self.integer_filter(request.root_id, " AND f.root_id = ?");
        self.text_filter(&keys.root_path, " AND r.root_path = ?");
        self.text_filter(&keys.parent_dir, " AND f.parent_dir = ?");
        self.integer_filter(request.modified_after, " AND f.modified_time >= ?");
        self.integer_filter(request.modified_before, " AND f.modified_time <= ?");
        self.integer_filter(request.size_min, " AND f.size_bytes >= ?");
        self.integer_filter(request.size_max, " AND f.size_bytes <= ?");
    }

    fn pattern(&mut self, pattern: &Option<QueryPattern>, sort: SearchSort)
        ensures
            final(self)@ == with_pattern(old(self)@, pattern_of(*pattern), sort),
    {
        match pattern {
            None => {
                self.text(" ORDER BY");
                self.sort(sort);
            },
            Some(QueryPattern::Prefix { exact }) => {
                self.text(" AND f.file_name_norm LIKE ? ESCAPE '\\'");
                self.param(SqlValue::Text(starts_with_pattern(exact.as_str())));
                self.text(" ORDER BY CASE WHEN f.file_name_norm = ? THEN 0 ELSE 1 END ASC,");
                self.param(SqlValue::Text(exact.clone()));
                self.sort(sort);
            },
            Some(QueryPattern::Contains { needle }) => {
                self.text(" AND f.file_name_norm LIKE ? ESCAPE '\\'");
                self.param(SqlValue::Text(contains_pattern(needle.as_str())));
                self.text(" AND f.file_name_norm NOT LIKE ? ESCAPE '\\'");
                self.param(SqlValue::Text(starts_with_pattern(needle.as_str())));
                self.text(" ORDER BY");
                self.sort(sort);
            },
        }
    }
}

/// The pattern text that matches what starts with `q`.
pub fn starts_with_pattern(q: &str) -> (out: String)
    ensures
        out@ == starts_pattern(q@),
{
    let mut out = chars_of(escape_like_pattern(q).as_str());
    out.push('%');
    string_of(&out)
}

/// The pattern text that matches what contains `q`.
pub fn contains_pattern(q: &str) -> (out: String)
    ensures
        out@ == holds_pattern(q@),
{
    let mut out: Vec<char> = Vec::new();
    out.push('%');
    let mut body = chars_of(escape_like_pattern(q).as_str());
    out.append(&mut body);
    out.push('%');
    assert(out@ =~= seq!['%'] + like_escaped(q@).push('%'));
    string_of(&out)
}

/// Composes the statement of one phase of a search.
pub fn build_search_statement(
    request: &SearchRequest,
    keys: &FilterKeys,
    pattern: &Option<QueryPattern>,
    limit: usize,
) -> (stmt: SqlStatement)
    ensures
        stmt@ == search_call(*request, keys@, pattern_of(*pattern), limit),
{
    let mut draft = Draft { sql: chars_of(SELECT_HITS), params: Vec::new() };
    assert(draft@.params =~= Seq::<SqlParam>::empty());
    draft.filters(request, keys);
    draft.pattern(pattern, request.sort);
    draft.text(" LIMIT ?");
    draft.param(SqlValue::Integer(limit as i64));
    SqlStatement { sql: string_of(&draft.sql), params: draft.params }
}

} // verus!
