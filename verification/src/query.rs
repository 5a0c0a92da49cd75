//! Search over the index: which files a request admits, how the admitted
//! files are ranked, and the two phases of a text search.

use crate::index::{distinct_roots, find_root_by_id, Index, IndexView};
use crate::normalize::{absolute_from, normalize_query, normalize_root_path, normalized};
use crate::pathkey::opt_view;
use crate::records::{
    hit_of, make_hit, FileRecord, RootEntry, SearchHit, SearchRequest, SearchSort,
    MAX_SEARCH_LIMIT,
};
use crate::index::{distinct_paths, has_path, names_normalised};
use crate::text::{
    chars_lt, chars_of, contains, has_prefix, has_substring, lemma_lex_lt_asymmetric,
    lemma_lex_lt_irreflexive, lemma_lex_lt_total, lemma_lex_lt_transitive,
    lemma_prefix_is_substring, lex_lt, starts_with, trim, trimmed,
};
use vstd::prelude::*;

verus! {

/// How a file's normalised name has to relate to the query text.
pub enum NamePattern {
    /// Every name matches.
    Any,
    /// The name starts with the text.
    Prefix(Seq<char>),
    /// The name contains the text, and does not start with it.
    Contains(Seq<char>),
}

/// The pattern of one phase of a text search. The text is the normalised
/// query.
#[derive(Debug)]
pub enum QueryPattern {
    /// Names that start with `exact`; a name equal to it ranks first.
    Prefix { exact: String },
    /// Names that contain `needle` and do not start with it.
    Contains { needle: String },
}

/// The pattern that an optional phase pattern stands for.
pub open spec fn pattern_of(p: Option<QueryPattern>) -> NamePattern {
    match p {
        None => NamePattern::Any,
        Some(QueryPattern::Prefix { exact }) => NamePattern::Prefix(exact@),
        Some(QueryPattern::Contains { needle }) => NamePattern::Contains(needle@),
    }
}

/// The text of an optional filter, if it holds more than whitespace.
pub open spec fn active_text(v: Option<String>) -> Option<Seq<char>> {
    match v {
        Some(s) => if trimmed(s@).len() > 0 {
            Some(trimmed(s@))
        } else {
            None
        },
        None => None,
    }
}

/// The key that a path filter asks for: its text, trimmed and made absolute
/// from `current_dir`; none for a filter that is absent or blank.
pub open spec fn filter_key(v: Option<String>, current_dir: Seq<char>) -> Option<Seq<char>> {
    match active_text(v) {
        Some(t) => Some(absolute_from(t, current_dir)),
        None => None,
    }
}

/// The path filters of a request, resolved against a current directory.
pub struct PathFilters {
    /// The key of the root that hits must belong to.
    pub root_path: Option<Seq<char>>,
    /// The key of the directory that hits must lie in directly.
    pub parent_dir: Option<Seq<char>>,
}

/// The path filters of `req`, resolved against `current_dir`.
pub open spec fn path_filters(req: SearchRequest, current_dir: Seq<char>) -> PathFilters {
    PathFilters {
        root_path: filter_key(req.root_path, current_dir),
        parent_dir: filter_key(req.parent_dir, current_dir),
    }
}

/// Whether `r` is the root of `f`, is enabled, and is the root that the
/// request asks for, if it asks for one by path.
pub open spec fn root_admits(r: RootEntry, f: FileRecord, keys: PathFilters) -> bool {
    &&& r.root_id == f.root_id
    &&& r.is_enabled
    &&& keys.root_path matches Some(k) ==> r.root_path@ == k
}

/// Whether the metadata of `f` lies within every bound that the request
/// gives. Each bound is inclusive.
pub open spec fn within_bounds(f: FileRecord, req: SearchRequest) -> bool {
    &&& req.modified_after matches Some(t) ==> f.modified_time >= t
    &&& req.modified_before matches Some(t) ==> f.modified_time <= t
    &&& req.size_min matches Some(n) ==> f.size_bytes >= n
    &&& req.size_max matches Some(n) ==> f.size_bytes <= n
}

/// Whether the filters of the request admit `f`.
pub open spec fn passes_filters(
    f: FileRecord,
    roots: Seq<RootEntry>,
    req: SearchRequest,
    keys: PathFilters,
) -> bool {
    &&& exists|i: int| 0 <= i < roots.len() && root_admits(#[trigger] roots[i], f, keys)
    &&& req.root_id matches Some(id) ==> f.root_id == id
    &&& keys.parent_dir matches Some(k) ==> f.parent_dir@ == k
    &&& within_bounds(f, req)
}

/// Whether the normalised name of `f` matches the pattern.
pub open spec fn name_matches(f: FileRecord, pattern: NamePattern) -> bool {
    match pattern {
        NamePattern::Any => true,
        NamePattern::Prefix(q) => has_prefix(f.file_name_norm@, q),
        NamePattern::Contains(q) => has_substring(f.file_name_norm@, q) && !has_prefix(
            f.file_name_norm@,
            q,
        ),
    }
}

/// Whether one phase of a search selects `f`.
pub open spec fn selects(
    f: FileRecord,
    roots: Seq<RootEntry>,
    req: SearchRequest,
    keys: PathFilters,
    pattern: NamePattern,
) -> bool {
    passes_filters(f, roots, req, keys) && name_matches(f, pattern)
}

/// Whether `a` comes before `b` in the requested sort. Files that the sort
/// does not tell apart come in the order of their paths.
pub open spec fn sorts_before(a: FileRecord, b: FileRecord, sort: SearchSort) -> bool {
    match sort {
        SearchSort::ModifiedDesc => {
            a.modified_time > b.modified_time || (a.modified_time == b.modified_time && (lex_lt(
                a.file_name_norm@,
                b.file_name_norm@,
            ) || (a.file_name_norm@ == b.file_name_norm@ && lex_lt(a.path@, b.path@))))
        },
        SearchSort::NameAsc => {
            lex_lt(a.file_name_norm@, b.file_name_norm@) || (a.file_name_norm@
                == b.file_name_norm@ && (a.modified_time > b.modified_time || (a.modified_time
                == b.modified_time && lex_lt(a.path@, b.path@))))
        },
    }
}

/// Whether the name of `f` is the whole text of a prefix pattern.
pub open spec fn is_exact(f: FileRecord, pattern: NamePattern) -> bool {
    pattern matches NamePattern::Prefix(q) && f.file_name_norm@ == q
}

/// Whether `a` ranks before `b`: in the prefix phase a name equal to the
/// query comes before the others; then the requested sort decides.
pub open spec fn ranks_before(
    a: FileRecord,
    b: FileRecord,
    sort: SearchSort,
    pattern: NamePattern,
) -> bool {
    (is_exact(a, pattern) && !is_exact(b, pattern)) || (is_exact(a, pattern) == is_exact(
        b,
        pattern,
    ) && sorts_before(a, b, sort))
}

/// `sorted` with `f` put before the first record that it ranks before.
pub open spec fn insert_ranked(
    sorted: Seq<FileRecord>,
    f: FileRecord,
    sort: SearchSort,
    pattern: NamePattern,
) -> Seq<FileRecord>
    decreases sorted.len(),
{
    if sorted.len() == 0 {
        seq![f]
    } else if ranks_before(f, sorted[0], sort, pattern) {
        seq![f] + sorted
    } else {
        seq![sorted[0]] + insert_ranked(sorted.drop_first(), f, sort, pattern)
    }
}

/// The files of `files` that one phase selects, in rank order.
pub open spec fn ranked(
    files: Seq<FileRecord>,
    roots: Seq<RootEntry>,
    req: SearchRequest,
    keys: PathFilters,
    pattern: NamePattern,
) -> Seq<FileRecord>
    decreases files.len(),
{
    if files.len() == 0 {
        Seq::empty()
    } else {
        let rest = ranked(files.drop_last(), roots, req, keys, pattern);
        if selects(files.last(), roots, req, keys, pattern) {
            insert_ranked(rest, files.last(), req.sort, pattern)
        } else {
            rest
        }
    }
}

/// The first `limit` of `s`, or all of it if it is shorter.
pub open spec fn first_n<T>(s: Seq<T>, limit: int) -> Seq<T> {
    if limit <= 0 {
        Seq::empty()
    } else if limit < s.len() {
        s.take(limit)
    } else {
        s
    }
}

/// The hits of one phase: the first `limit` of the selected files in rank
/// order.
pub open spec fn phase_hits(
    idx: IndexView,
    req: SearchRequest,
    keys: PathFilters,
    pattern: NamePattern,
    limit: int,
) -> Seq<SearchHit> {
    first_n(ranked(idx.files, idx.roots, req, keys, pattern), limit).map_values(
        |f: FileRecord| hit_of(f),
    )
}

/// The limit of a request, brought into the range from 1 to
/// `MAX_SEARCH_LIMIT`.
pub open spec fn clamped_limit(limit: usize) -> int {
    if limit < 1 {
        1
    } else if limit > MAX_SEARCH_LIMIT {
        MAX_SEARCH_LIMIT as int
    } else {
        limit as int
    }
}

/// The hits of a search. A blank query selects by the filters alone. A text
/// query gives the names that start with it, and, if those are fewer than the
/// limit, fills up with the names that contain it elsewhere.
pub open spec fn search_hits(idx: IndexView, req: SearchRequest, keys: PathFilters) -> Seq<
    SearchHit,
> {
    let limit = clamped_limit(req.limit);
    let q = normalized(req.query@);
    if q.len() == 0 {
        phase_hits(idx, req, keys, NamePattern::Any, limit)
    } else {
        let first = phase_hits(idx, req, keys, NamePattern::Prefix(q), limit);
        if first.len() >= limit {
            first
        } else {
            first + phase_hits(idx, req, keys, NamePattern::Contains(q), limit - first.len())
        }
    }
}


/// The path filters of a request, resolved.
#[derive(Debug)]
pub struct FilterKeys {
    /// The key of the root that hits must belong to.
    pub root_path: Option<String>,
    /// The key of the directory that hits must lie in directly.
    pub parent_dir: Option<String>,
}

impl View for FilterKeys {
    type V = PathFilters;

    open spec fn view(&self) -> PathFilters {
        PathFilters { root_path: opt_view(self.root_path), parent_dir: opt_view(self.parent_dir) }
    }
}

/// Resolves one optional path filter against `current_dir`.
pub fn resolve_filter_key(v: &Option<String>, current_dir: &str) -> (r: Option<String>)
    ensures
        opt_view(r) == filter_key(*v, current_dir@),
{
    match v {
        Some(s) => {
            let t = trim(s.as_str());
            if t.as_str().is_empty() {
                None
            } else {
                Some(normalize_root_path(t.as_str(), current_dir))
            }
        },
        None => None,
    }
}

/// Resolves the path filters of a request against `current_dir`.
pub fn resolve_filters(request: &SearchRequest, current_dir: &str) -> (k: FilterKeys)
    ensures
        k@ == path_filters(*request, current_dir@),
{
    FilterKeys {
        root_path: resolve_filter_key(&request.root_path, current_dir),
        parent_dir: resolve_filter_key(&request.parent_dir, current_dir),
    }
}

/// Whether the filters of the request admit `f`.
pub fn file_passes(
    f: &FileRecord,
    roots: &Vec<RootEntry>,
    request: &SearchRequest,
    keys: &FilterKeys,
) -> (r: bool)
    requires
        distinct_roots(roots@),
    ensures
        r == passes_filters(*f, roots@, *request, keys@),
{
    let at = match find_root_by_id(roots, f.root_id) {
        Some(at) => at,
        None => {
            return false;
        },
    };
    let root = &roots[at];
    let root_ok = root.is_enabled && match &keys.root_path {
        Some(k) => root.root_path == *k,
        None => true,
    };
    proof {
        if !root_ok {
            assert forall|i: int| 0 <= i < roots.len() implies !root_admits(
                #[trigger] roots@[i],
                *f,
                keys@,
            ) by {
                if roots@[i].root_id == f.root_id {
                    if i < at {
                        assert(roots@[i].root_id != roots@[at as int].root_id);
                    } else if at < i {
                        assert(roots@[at as int].root_id != roots@[i].root_id);
                    }
                }
            }
        } else {
            assert(root_admits(roots@[at as int], *f, keys@));
        }
    }
    if !root_ok {
        return false;
    }
    if let Some(id) = request.root_id {
        if f.root_id != id {
            return false;
        }
    }
    if let Some(k) = &keys.parent_dir {
        if !(f.parent_dir == *k) {
            return false;
        }
    }
    if let Some(t) = request.modified_after {
        if f.modified_time < t {
            return false;
        }
    }
    if let Some(t) = request.modified_before {
        if f.modified_time > t {
            return false;
        }
    }
    if let Some(n) = request.size_min {
        if f.size_bytes < n {
            return false;
        }
    }
    if let Some(n) = request.size_max {
        if f.size_bytes > n {
            return false;
        }
    }
    true
}

/// Whether the normalised name of `f` matches the pattern.
pub fn name_matches_pattern(f: &FileRecord, pattern: &Option<QueryPattern>) -> (r: bool)
    ensures
        r == name_matches(*f, pattern_of(*pattern)),
{
    match pattern {
        None => true,
        Some(QueryPattern::Prefix { exact }) => {
            let name = chars_of(f.file_name_norm.as_str());
            let q = chars_of(exact.as_str());
            starts_with(&name, &q)
        },
        Some(QueryPattern::Contains { needle }) => {
            let name = chars_of(f.file_name_norm.as_str());
            let q = chars_of(needle.as_str());
            contains(&name, &q) && !starts_with(&name, &q)
        },
    }
}

/// Whether `a` comes before `b` in the requested sort.
pub fn comes_before(a: &FileRecord, b: &FileRecord, sort: SearchSort) -> (r: bool)
    ensures
        r == sorts_before(*a, *b, sort),
{
    let an = chars_of(a.file_name_norm.as_str());
    let bn = chars_of(b.file_name_norm.as_str());
    let name_lt = chars_lt(&an, &bn);
    let name_eq = a.file_name_norm == b.file_name_norm;
    let ap = chars_of(a.path.as_str());
    let bp = chars_of(b.path.as_str());
    let path_lt = chars_lt(&ap, &bp);
    match sort {
        SearchSort::ModifiedDesc => {
            a.modified_time > b.modified_time || (a.modified_time == b.modified_time && (name_lt
                || (name_eq && path_lt)))
        },
        SearchSort::NameAsc => {
            name_lt || (name_eq && (a.modified_time > b.modified_time || (a.modified_time
                == b.modified_time && path_lt)))
        },
    }
}

/// Whether the name of `f` is the whole text of a prefix pattern.
pub fn is_exact_match(f: &FileRecord, pattern: &Option<QueryPattern>) -> (r: bool)
    ensures
        r == is_exact(*f, pattern_of(*pattern)),
{
    match pattern {
        Some(QueryPattern::Prefix { exact }) => f.file_name_norm == *exact,
        _ => false,
    }
}

/// Whether `a` ranks before `b`.
pub fn ranks_ahead(
    a: &FileRecord,
    b: &FileRecord,
    sort: SearchSort,
    pattern: &Option<QueryPattern>,
) -> (r: bool)
    ensures
        r == ranks_before(*a, *b, sort, pattern_of(*pattern)),
{
    let ea = is_exact_match(a, pattern);
    let eb = is_exact_match(b, pattern);
    (ea && !eb) || (ea == eb && comes_before(a, b, sort))
}

/// The records of `files` at the positions `order`.
pub open spec fn picked(order: Seq<usize>, files: Seq<FileRecord>) -> Seq<FileRecord> {
    Seq::new(order.len(), |k: int| files[order[k] as int])
}

/// Inserting before the first record that `f` ranks before is inserting at
/// that record's position.
pub proof fn lemma_insert_ranked(
    sorted: Seq<FileRecord>,
    f: FileRecord,
    sort: SearchSort,
    pattern: NamePattern,
    pos: int,
)
    requires
        0 <= pos <= sorted.len(),
        forall|k: int| 0 <= k < pos ==> !ranks_before(f, #[trigger] sorted[k], sort, pattern),
        pos < sorted.len() ==> ranks_before(f, sorted[pos], sort, pattern),
    ensures
        insert_ranked(sorted, f, sort, pattern) == sorted.insert(pos, f),
    decreases sorted.len(),
{
    if sorted.len() == 0 {
        assert(seq![f] =~= sorted.insert(pos, f));
    } else if pos == 0 {
        assert(seq![f] + sorted =~= sorted.insert(0, f));
    } else {
        let rest = sorted.drop_first();
        assert forall|k: int| 0 <= k < pos - 1 implies !ranks_before(
            f,
            #[trigger] rest[k],
            sort,
            pattern,
        ) by {
            assert(rest[k] == sorted[k + 1]);
        }
        if pos - 1 < rest.len() {
            assert(rest[pos - 1] == sorted[pos]);
        }
        lemma_insert_ranked(rest, f, sort, pattern, pos - 1);
        assert(!ranks_before(f, sorted[0], sort, pattern));
        assert(seq![sorted[0]] + rest.insert(pos - 1, f) =~= sorted.insert(pos, f));
    }
}

/// One phase of a search: the first `limit` of the files that the filters
/// and the pattern select, in rank order.
pub fn run_search_query(
    index: &Index,
    request: &SearchRequest,
    keys: &FilterKeys,
    pattern: &Option<QueryPattern>,
    limit: usize,
) -> (hits: Vec<SearchHit>)
    requires
        index@.wf(),
    ensures
        hits@ == phase_hits(index@, *request, keys@, pattern_of(*pattern), limit as int),
{
    let files = index.files();
    let roots = index.roots();
    let ghost pat = pattern_of(*pattern);
    let mut order: Vec<usize> = Vec::new();
    let mut i: usize = 0;
    assert(files@.take(0) =~= Seq::<FileRecord>::empty());
    assert(picked(order@, files@) =~= Seq::<FileRecord>::empty());
    while i < files.len()
        invariant
            i <= files.len(),
            distinct_roots(roots@),
            pat == pattern_of(*pattern),
            forall|k: int| 0 <= k < order.len() ==> (#[trigger] order@[k]) < i,
            picked(order@, files@) == ranked(files@.take(i as int), roots@, *request, keys@, pat),
        decreases files.len() - i,
    {
        let f = &files[i];
        proof {
            assert(files@.take(i + 1).drop_last() =~= files@.take(i as int));
            assert(files@.take(i + 1).last() == *f);
        }
        if file_passes(f, roots, request, keys) && name_matches_pattern(f, pattern) {
            let ghost before = picked(order@, files@);
            let mut pos: usize = 0;
            while pos < order.len() && !ranks_ahead(f, &files[order[pos]], request.sort, pattern)
                invariant
                    pos <= order.len(),
                    i < files.len(),
                    pat == pattern_of(*pattern),
                    *f == files@[i as int],
                    before == picked(order@, files@),
                    forall|k: int| 0 <= k < order.len() ==> (#[trigger] order@[k]) < i,
                    forall|k: int|
                        0 <= k < pos ==> !ranks_before(*f, #[trigger] before[k], request.sort, pat),
                decreases order.len() - pos,
            {
                pos += 1;
            }
            proof {
                if pos < order.len() {
                    assert(before[pos as int] == files@[order@[pos as int] as int]);
                }
                lemma_insert_ranked(before, *f, request.sort, pat, pos as int);
            }
            order.insert(pos, i);
            assert(picked(order@, files@) =~= before.insert(pos as int, *f));
        }
        i += 1;
    }
    assert(files@.take(files.len() as int) =~= files@);
    let ghost all = picked(order@, files@);
    let n: usize = if limit < order.len() {
        limit
    } else {
        order.len()
    };
    let mut hits: Vec<SearchHit> = Vec::new();
    let mut k: usize = 0;
    while k < n
        invariant
            k <= n <= order.len(),
            all == picked(order@, files@),
            forall|j: int| 0 <= j < order.len() ==> (#[trigger] order@[j]) < files.len(),
            hits@ == all.take(k as int).map_values(|f: FileRecord| hit_of(f)),
        decreases n - k,
    {
        hits.push(make_hit(&files[order[k]]));
        k += 1;
        assert(hits@ =~= all.take(k as int).map_values(|f: FileRecord| hit_of(f)));
    }
    assert(all.take(n as int) =~= first_n(all, limit as int));
    hits
}

/// The hits of a search, over the index as it stands.
pub fn search(index: &Index, request: &SearchRequest, current_dir: &str) -> (hits: Vec<SearchHit>)
    requires
        index@.wf(),
    ensures
        hits@ == search_hits(index@, *request, path_filters(*request, current_dir@)),
{
    let limit: usize = if request.limit < 1 {
        1
    } else if request.limit > MAX_SEARCH_LIMIT {
        MAX_SEARCH_LIMIT
    } else {
        request.limit
    };
    let keys = resolve_filters(request, current_dir);
    let q = normalize_query(request.query.as_str());
    if q.as_str().is_empty() {
        return run_search_query(index, request, &keys, &None, limit);
    }
    let prefix = Some(QueryPattern::Prefix { exact: q.clone() });
    let mut hits = run_search_query(index, request, &keys, &prefix, limit);
    if hits.len() >= limit {
        return hits;
    }
    let remain: usize = limit - hits.len();
    let inner = Some(QueryPattern::Contains { needle: q });
    let mut more = run_search_query(index, request, &keys, &inner, remain);
    hits.append(&mut more);
    hits
}


/// No file ranks before itself, and of two files at most one ranks before
/// the other.
pub proof fn lemma_rank_asymmetric(a: FileRecord, b: FileRecord, sort: SearchSort, pattern: NamePattern)
    ensures
        !(ranks_before(a, b, sort, pattern) && ranks_before(b, a, sort, pattern)),
{
    lemma_lex_lt_asymmetric(a.file_name_norm@, b.file_name_norm@);
    lemma_lex_lt_asymmetric(a.path@, b.path@);
    lemma_lex_lt_irreflexive(a.file_name_norm@);
}

/// The rank order is transitive.
pub proof fn lemma_rank_transitive(
    a: FileRecord,
    b: FileRecord,
    c: FileRecord,
    sort: SearchSort,
    pattern: NamePattern,
)
    requires
        ranks_before(a, b, sort, pattern),
        ranks_before(b, c, sort, pattern),
    ensures
        ranks_before(a, c, sort, pattern),
{
    if lex_lt(a.file_name_norm@, b.file_name_norm@) && lex_lt(
        b.file_name_norm@,
        c.file_name_norm@,
    ) {
        lemma_lex_lt_transitive(a.file_name_norm@, b.file_name_norm@, c.file_name_norm@);
    }
    if lex_lt(a.path@, b.path@) && lex_lt(b.path@, c.path@) {
        lemma_lex_lt_transitive(a.path@, b.path@, c.path@);
    }
}

/// Two files with different paths are ranked one way or the other.
pub proof fn lemma_rank_total(a: FileRecord, b: FileRecord, sort: SearchSort, pattern: NamePattern)
    requires
        a.path@ != b.path@,
    ensures
        ranks_before(a, b, sort, pattern) || ranks_before(b, a, sort, pattern),
{
    lemma_lex_lt_total(a.file_name_norm@, b.file_name_norm@);
    lemma_lex_lt_total(a.path@, b.path@);
}

/// Whether every record of `s` ranks before all that follow it.
pub open spec fn in_rank_order(s: Seq<FileRecord>, sort: SearchSort, pattern: NamePattern) -> bool {
    forall|a: int, b: int|
        0 <= a < b < s.len() ==> ranks_before(#[trigger] s[a], #[trigger] s[b], sort, pattern)
}

/// What `insert_ranked` returns is `sorted` with `f` at some position; the
/// records before it do not come after `f`, and `f` ranks before the record
/// that follows it.
pub proof fn lemma_insert_position(
    sorted: Seq<FileRecord>,
    f: FileRecord,
    sort: SearchSort,
    pattern: NamePattern,
) -> (pos: int)
    ensures
        0 <= pos <= sorted.len(),
        insert_ranked(sorted, f, sort, pattern) == sorted.insert(pos, f),
        forall|k: int| 0 <= k < pos ==> !ranks_before(f, #[trigger] sorted[k], sort, pattern),
        pos < sorted.len() ==> ranks_before(f, sorted[pos], sort, pattern),
    decreases sorted.len(),
{
    if sorted.len() == 0 {
        assert(seq![f] =~= sorted.insert(0, f));
        0
    } else if ranks_before(f, sorted[0], sort, pattern) {
        assert(seq![f] + sorted =~= sorted.insert(0, f));
        0
    } else {
        let rest = sorted.drop_first();
        let p = lemma_insert_position(rest, f, sort, pattern);
        assert(seq![sorted[0]] + rest.insert(p, f) =~= sorted.insert(p + 1, f));
        assert forall|k: int| 0 <= k < p + 1 implies !ranks_before(
            f,
            #[trigger] sorted[k],
            sort,
            pattern,
        ) by {
            if k > 0 {
                assert(sorted[k] == rest[k - 1]);
            }
        }
        if p + 1 < sorted.len() {
            assert(sorted[p + 1] == rest[p]);
        }
        p + 1
    }
}

/// The files that a phase selects are files of the index that it selects,
/// each once, in rank order; and every file that the phase selects is among
/// them.
pub proof fn lemma_ranked(
    files: Seq<FileRecord>,
    roots: Seq<RootEntry>,
    req: SearchRequest,
    keys: PathFilters,
    pattern: NamePattern,
)
    requires
        distinct_paths(files),
    ensures
        in_rank_order(ranked(files, roots, req, keys, pattern), req.sort, pattern),
        forall|k: int|
            0 <= k < ranked(files, roots, req, keys, pattern).len() ==> files.contains(
                #[trigger] ranked(files, roots, req, keys, pattern)[k],
            ) && selects(ranked(files, roots, req, keys, pattern)[k], roots, req, keys, pattern),
        forall|i: int|
            0 <= i < files.len() && selects(#[trigger] files[i], roots, req, keys, pattern)
                ==> ranked(files, roots, req, keys, pattern).contains(files[i]),
        ranked(files, roots, req, keys, pattern).len() <= files.len(),
    decreases files.len(),
{
    let out = ranked(files, roots, req, keys, pattern);
    if files.len() > 0 {
        let init = files.drop_last();
        let last = files.last();
        let rest = ranked(init, roots, req, keys, pattern);
        lemma_ranked(init, roots, req, keys, pattern);
        assert forall|k: int| 0 <= k < rest.len() implies files.contains(#[trigger] rest[k])
            && rest[k].path@ != last.path@ by {
            assert(init.contains(rest[k]));
            let j = choose|j: int| 0 <= j < init.len() && init[j] == rest[k];
            assert(files[j] == rest[k]);
            assert(files[j].path@ != files[files.len() - 1].path@);
        }
        if selects(last, roots, req, keys, pattern) {
            let pos = lemma_insert_position(rest, last, req.sort, pattern);
            assert(out == rest.insert(pos, last));
            assert forall|k: int| 0 <= k < out.len() implies files.contains(#[trigger] out[k])
                && selects(out[k], roots, req, keys, pattern) by {
                if k < pos {
                    assert(out[k] == rest[k]);
                } else if k == pos {
                    assert(files[files.len() - 1] == out[k]);
                } else {
                    assert(out[k] == rest[k - 1]);
                }
            }
            assert forall|a: int, b: int| 0 <= a < b < out.len() implies ranks_before(
                #[trigger] out[a],
                #[trigger] out[b],
                req.sort,
                pattern,
            ) by {
                if b < pos {
                    assert(out[a] == rest[a] && out[b] == rest[b]);
                } else if b == pos {
                    assert(out[a] == rest[a]);
                    lemma_rank_total(rest[a], last, req.sort, pattern);
                } else if a == pos {
                    assert(out[b] == rest[b - 1]);
                    if b - 1 > pos {
                        assert(ranks_before(rest[pos], rest[b - 1], req.sort, pattern));
                        lemma_rank_transitive(last, rest[pos], rest[b - 1], req.sort, pattern);
                    }
                } else if a < pos {
                    assert(out[a] == rest[a] && out[b] == rest[b - 1]);
                } else {
                    assert(out[a] == rest[a - 1] && out[b] == rest[b - 1]);
                }
            }
            assert forall|i: int|
                0 <= i < files.len() && selects(
                    #[trigger] files[i],
                    roots,
                    req,
                    keys,
                    pattern,
                ) implies out.contains(files[i]) by {
                if i == files.len() - 1 {
                    assert(out[pos] == files[i]);
                } else {
                    assert(init[i] == files[i]);
                    assert(rest.contains(init[i]));
                    let k = choose|k: int| 0 <= k < rest.len() && rest[k] == init[i];
                    if k < pos {
                        assert(out[k] == rest[k]);
                    } else {
                        assert(out[k + 1] == rest[k]);
                    }
                }
            }
        } else {
            assert forall|i: int|
                0 <= i < files.len() && selects(
                    #[trigger] files[i],
                    roots,
                    req,
                    keys,
                    pattern,
                ) implies out.contains(files[i]) by {
                assert(init[i] == files[i]);
            }
        }
    }
}

/// A search returns no more hits than its limit, brought into the range
/// from 1 to `MAX_SEARCH_LIMIT`.
pub proof fn lemma_search_within_limit(idx: IndexView, req: SearchRequest, keys: PathFilters)
    ensures
        search_hits(idx, req, keys).len() <= clamped_limit(req.limit),
        search_hits(idx, req, keys).len() <= MAX_SEARCH_LIMIT,
{
}

/// Whether the hit `h` reports a file of the index that a phase selects.
pub open spec fn reports_selected(
    h: SearchHit,
    idx: IndexView,
    req: SearchRequest,
    keys: PathFilters,
    pattern: NamePattern,
) -> bool {
    exists|i: int|
        0 <= i < idx.files.len() && h == hit_of(#[trigger] idx.files[i]) && selects(
            idx.files[i],
            idx.roots,
            req,
            keys,
            pattern,
        )
}

/// Every hit of a phase reports a file of the index that the phase selects.
pub proof fn lemma_phase_hits(
    idx: IndexView,
    req: SearchRequest,
    keys: PathFilters,
    pattern: NamePattern,
    limit: int,
)
    requires
        distinct_paths(idx.files),
    ensures
        forall|k: int|
            0 <= k < phase_hits(idx, req, keys, pattern, limit).len() ==> reports_selected(
                #[trigger] phase_hits(idx, req, keys, pattern, limit)[k],
                idx,
                req,
                keys,
                pattern,
            ),
{
    let all = ranked(idx.files, idx.roots, req, keys, pattern);
    let hits = phase_hits(idx, req, keys, pattern, limit);
    lemma_ranked(idx.files, idx.roots, req, keys, pattern);
    assert forall|k: int| 0 <= k < hits.len() implies reports_selected(
        #[trigger] hits[k],
        idx,
        req,
        keys,
        pattern,
    ) by {
        assert(first_n(all, limit)[k] == all[k]);
        assert(idx.files.contains(all[k]));
        let i = choose|i: int| 0 <= i < idx.files.len() && idx.files[i] == all[k];
        assert(hits[k] == hit_of(idx.files[i]));
    }
}

/// Whether the hit `h` reports a file of the index that the filters of the
/// request admit and whose normalised name contains the normalised query.
pub open spec fn is_match(h: SearchHit, idx: IndexView, req: SearchRequest, keys: PathFilters) -> bool {
    exists|i: int|
        0 <= i < idx.files.len() && h == hit_of(#[trigger] idx.files[i]) && passes_filters(
            idx.files[i],
            idx.roots,
            req,
            keys,
        ) && has_substring(idx.files[i].file_name_norm@, normalized(req.query@))
}

/// A search returns only files of the index that pass every filter of the
/// request and whose normalised name contains the normalised query.
pub proof fn lemma_search_only_matches(idx: IndexView, req: SearchRequest, keys: PathFilters)
    requires
        distinct_paths(idx.files),
    ensures
        forall|k: int|
            0 <= k < search_hits(idx, req, keys).len() ==> is_match(
                #[trigger] search_hits(idx, req, keys)[k],
                idx,
                req,
                keys,
            ),
{
    let limit = clamped_limit(req.limit);
    let q = normalized(req.query@);
    let hits = search_hits(idx, req, keys);
    if q.len() == 0 {
        lemma_phase_hits(idx, req, keys, NamePattern::Any, limit);
        assert forall|k: int| 0 <= k < hits.len() implies is_match(
            #[trigger] hits[k],
            idx,
            req,
            keys,
        ) by {
            assert(reports_selected(hits[k], idx, req, keys, NamePattern::Any));
            let i = choose|i: int|
                0 <= i < idx.files.len() && hits[k] == hit_of(#[trigger] idx.files[i]) && selects(
                    idx.files[i],
                    idx.roots,
                    req,
                    keys,
                    NamePattern::Any,
                );
            let name = idx.files[i].file_name_norm@;
            assert(name.subrange(0, 0int + q.len()) =~= q);
            assert(crate::text::occurs_at(name, q, 0));
        }
    } else {
        let first = phase_hits(idx, req, keys, NamePattern::Prefix(q), limit);
        let second = phase_hits(idx, req, keys, NamePattern::Contains(q), limit - first.len());
        lemma_phase_hits(idx, req, keys, NamePattern::Prefix(q), limit);
        lemma_phase_hits(idx, req, keys, NamePattern::Contains(q), limit - first.len());
        assert forall|k: int| 0 <= k < hits.len() implies is_match(
            #[trigger] hits[k],
            idx,
            req,
            keys,
        ) by {
            if k < first.len() {
                assert(hits[k] == first[k]);
                assert(reports_selected(first[k], idx, req, keys, NamePattern::Prefix(q)));
                let i = choose|i: int|
                    0 <= i < idx.files.len() && first[k] == hit_of(#[trigger] idx.files[i])
                        && selects(idx.files[i], idx.roots, req, keys, NamePattern::Prefix(q));
                lemma_prefix_is_substring(idx.files[i].file_name_norm@, q);
            } else {
                assert(hits[k] == second[k - first.len()]);
                assert(reports_selected(
                    second[k - first.len()],
                    idx,
                    req,
                    keys,
                    NamePattern::Contains(q),
                ));
                let i = choose|i: int|
                    0 <= i < idx.files.len() && second[k - first.len()] == hit_of(
                        #[trigger] idx.files[i],
                    ) && selects(idx.files[i], idx.roots, req, keys, NamePattern::Contains(q));
            }
        }
    }
}

/// Every hit lies within each metadata bound of the request: a file that is
/// smaller than `size_min`, larger than `size_max`, older than
/// `modified_after` or newer than `modified_before` is not returned.
pub proof fn lemma_search_within_bounds(idx: IndexView, req: SearchRequest, keys: PathFilters)
    requires
        distinct_paths(idx.files),
    ensures
        forall|k: int|
            #![trigger search_hits(idx, req, keys)[k]]
            0 <= k < search_hits(idx, req, keys).len() ==> {
                let h = search_hits(idx, req, keys)[k];
                &&& req.size_min matches Some(n) ==> h.size_bytes >= n
                &&& req.size_max matches Some(n) ==> h.size_bytes <= n
                &&& req.modified_after matches Some(t) ==> h.modified_time >= t
                &&& req.modified_before matches Some(t) ==> h.modified_time <= t
                &&& req.root_id matches Some(id) ==> h.root_id == id
            },
{
    lemma_search_only_matches(idx, req, keys);
    let hits = search_hits(idx, req, keys);
    assert forall|k: int| #![trigger hits[k]] 0 <= k < hits.len() implies {
        let h = hits[k];
        &&& req.size_min matches Some(n) ==> h.size_bytes >= n
        &&& req.size_max matches Some(n) ==> h.size_bytes <= n
        &&& req.modified_after matches Some(t) ==> h.modified_time >= t
        &&& req.modified_before matches Some(t) ==> h.modified_time <= t
        &&& req.root_id matches Some(id) ==> h.root_id == id
    } by {
        assert(is_match(hits[k], idx, req, keys));
    }
}

/// The number of hits of a text search that its first phase gives.
pub open spec fn prefix_hit_count(idx: IndexView, req: SearchRequest, keys: PathFilters) -> int {
    phase_hits(
        idx,
        req,
        keys,
        NamePattern::Prefix(normalized(req.query@)),
        clamped_limit(req.limit),
    ).len() as int
}

/// Whether the hit `h` reports a file of the index whose normalised name
/// starts with `q`, if `starts` is set, or does not start with it, if not.
pub open spec fn reports_prefix(h: SearchHit, idx: IndexView, q: Seq<char>, starts: bool) -> bool {
    exists|i: int|
        0 <= i < idx.files.len() && h == hit_of(#[trigger] idx.files[i]) && has_prefix(
            idx.files[i].file_name_norm@,
            q,
        ) == starts
}

/// In a text search the names that start with the query come first: the
/// hits of the first phase are of names that start with the normalised
/// query, and every hit after them is of a name that does not.
pub proof fn lemma_search_prefix_first(idx: IndexView, req: SearchRequest, keys: PathFilters)
    requires
        distinct_paths(idx.files),
        normalized(req.query@).len() > 0,
    ensures
        0 <= prefix_hit_count(idx, req, keys) <= search_hits(idx, req, keys).len(),
        forall|k: int|
            0 <= k < search_hits(idx, req, keys).len() ==> reports_prefix(
                #[trigger] search_hits(idx, req, keys)[k],
                idx,
                normalized(req.query@),
                k < prefix_hit_count(idx, req, keys),
            ),
{
    let limit = clamped_limit(req.limit);
    let q = normalized(req.query@);
    let hits = search_hits(idx, req, keys);
    let first = phase_hits(idx, req, keys, NamePattern::Prefix(q), limit);
    let second = phase_hits(idx, req, keys, NamePattern::Contains(q), limit - first.len());
    lemma_phase_hits(idx, req, keys, NamePattern::Prefix(q), limit);
    lemma_phase_hits(idx, req, keys, NamePattern::Contains(q), limit - first.len());
    let split = first.len() as int;
    assert forall|k: int| 0 <= k < hits.len() implies reports_prefix(
        #[trigger] hits[k],
        idx,
        q,
        k < split,
    ) by {
        if k < first.len() {
            assert(hits[k] == first[k]);
            assert(reports_selected(first[k], idx, req, keys, NamePattern::Prefix(q)));
            let i = choose|i: int|
                0 <= i < idx.files.len() && first[k] == hit_of(#[trigger] idx.files[i]) && selects(
                    idx.files[i],
                    idx.roots,
                    req,
                    keys,
                    NamePattern::Prefix(q),
                );
            assert(hits[k] == hit_of(idx.files[i]));
        } else {
            assert(hits[k] == second[k - first.len()]);
            assert(reports_selected(
                second[k - first.len()],
                idx,
                req,
                keys,
                NamePattern::Contains(q),
            ));
            let i = choose|i: int|
                0 <= i < idx.files.len() && second[k - first.len()] == hit_of(
                    #[trigger] idx.files[i],
                ) && selects(idx.files[i], idx.roots, req, keys, NamePattern::Contains(q));
            assert(hits[k] == hit_of(idx.files[i]));
        }
    }
}


/// The files that one phase selects.
pub open spec fn selected(
    roots: Seq<RootEntry>,
    req: SearchRequest,
    keys: PathFilters,
    pattern: NamePattern,
) -> spec_fn(FileRecord) -> bool {
    |f: FileRecord| selects(f, roots, req, keys, pattern)
}

/// Ranking neither drops nor repeats a file: the ranked files are as many as
/// the files that the phase selects.
pub proof fn lemma_ranked_len(
    files: Seq<FileRecord>,
    roots: Seq<RootEntry>,
    req: SearchRequest,
    keys: PathFilters,
    pattern: NamePattern,
)
    ensures
        ranked(files, roots, req, keys, pattern).len() == files.filter(
            selected(roots, req, keys, pattern),
        ).len(),
    decreases files.len(),
{
    reveal(Seq::filter);
    if files.len() > 0 {
        lemma_ranked_len(files.drop_last(), roots, req, keys, pattern);
        let rest = ranked(files.drop_last(), roots, req, keys, pattern);
        if selects(files.last(), roots, req, keys, pattern) {
            let pos = lemma_insert_position(rest, files.last(), req.sort, pattern);
        }
    }
}

/// The number of files that a search would return without a limit: those
/// that pass the filters and, for a text query, contain it in their
/// normalised name.
pub open spec fn match_count(idx: IndexView, req: SearchRequest, keys: PathFilters) -> int {
    let q = normalized(req.query@);
    if q.len() == 0 {
        idx.files.filter(selected(idx.roots, req, keys, NamePattern::Any)).len() as int
    } else {
        (idx.files.filter(selected(idx.roots, req, keys, NamePattern::Prefix(q))).len()
            + idx.files.filter(selected(idx.roots, req, keys, NamePattern::Contains(q))).len()) as int
    }
}

/// Whether a search has to return the file `f`: it passes the filters and
/// its normalised name contains the normalised query.
pub open spec fn is_wanted(f: FileRecord, idx: IndexView, req: SearchRequest, keys: PathFilters) -> bool {
    passes_filters(f, idx.roots, req, keys) && has_substring(
        f.file_name_norm@,
        normalized(req.query@),
    )
}

/// A search whose matches are no more than its limit returns every one of
/// them, and as many hits as there are matches.
pub proof fn lemma_search_finds_all(idx: IndexView, req: SearchRequest, keys: PathFilters)
    requires
        distinct_paths(idx.files),
        match_count(idx, req, keys) <= clamped_limit(req.limit),
    ensures
        search_hits(idx, req, keys).len() == match_count(idx, req, keys),
        forall|i: int|
            0 <= i < idx.files.len() && is_wanted(#[trigger] idx.files[i], idx, req, keys)
                ==> search_hits(idx, req, keys).contains(hit_of(idx.files[i])),
{
    let limit = clamped_limit(req.limit);
    let q = normalized(req.query@);
    let hits = search_hits(idx, req, keys);
    let to_hit = |f: FileRecord| hit_of(f);
    if q.len() == 0 {
        let all = ranked(idx.files, idx.roots, req, keys, NamePattern::Any);
        lemma_ranked_len(idx.files, idx.roots, req, keys, NamePattern::Any);
        lemma_ranked(idx.files, idx.roots, req, keys, NamePattern::Any);
        assert(first_n(all, limit) =~= all);
        assert forall|i: int|
            0 <= i < idx.files.len() && is_wanted(
                #[trigger] idx.files[i],
                idx,
                req,
                keys,
            ) implies hits.contains(hit_of(idx.files[i])) by {
            assert(selects(idx.files[i], idx.roots, req, keys, NamePattern::Any));
            assert(all.contains(idx.files[i]));
            let k = choose|k: int| 0 <= k < all.len() && all[k] == idx.files[i];
            assert(hits[k] == hit_of(idx.files[i]));
        }
    } else {
        let a = ranked(idx.files, idx.roots, req, keys, NamePattern::Prefix(q));
        let b = ranked(idx.files, idx.roots, req, keys, NamePattern::Contains(q));
        lemma_ranked_len(idx.files, idx.roots, req, keys, NamePattern::Prefix(q));
        lemma_ranked_len(idx.files, idx.roots, req, keys, NamePattern::Contains(q));
        lemma_ranked(idx.files, idx.roots, req, keys, NamePattern::Prefix(q));
        lemma_ranked(idx.files, idx.roots, req, keys, NamePattern::Contains(q));
        let first = phase_hits(idx, req, keys, NamePattern::Prefix(q), limit);
        assert(first_n(a, limit) =~= a);
        assert(first.len() == a.len());
        if first.len() >= limit {
            assert(b.len() == 0);
            assert(hits == first);
        } else {
            assert(first_n(b, limit - first.len()) =~= b);
        }
        assert forall|i: int|
            0 <= i < idx.files.len() && is_wanted(
                #[trigger] idx.files[i],
                idx,
                req,
                keys,
            ) implies hits.contains(hit_of(idx.files[i])) by {
            let f = idx.files[i];
            if has_prefix(f.file_name_norm@, q) {
                assert(selects(f, idx.roots, req, keys, NamePattern::Prefix(q)));
                assert(a.contains(f));
                let k = choose|k: int| 0 <= k < a.len() && a[k] == f;
                assert(first[k] == hit_of(f));
                assert(hits[k] == hit_of(f));
            } else {
                assert(selects(f, idx.roots, req, keys, NamePattern::Contains(q)));
                assert(b.contains(f));
                let k = choose|k: int| 0 <= k < b.len() && b[k] == f;
                assert(first.len() < limit);
                let second = phase_hits(
                    idx,
                    req,
                    keys,
                    NamePattern::Contains(q),
                    limit - first.len(),
                );
                assert(second[k] == hit_of(f));
                assert(hits[first.len() + k] == hit_of(f));
            }
        }
    }
}

/// A search returns no hit for a path that the index does not hold.
pub proof fn lemma_search_skips_absent(
    idx: IndexView,
    req: SearchRequest,
    keys: PathFilters,
    p: Seq<char>,
)
    requires
        distinct_paths(idx.files),
        !has_path(idx.files, p),
    ensures
        forall|k: int|
            0 <= k < search_hits(idx, req, keys).len() ==> (#[trigger] search_hits(
                idx,
                req,
                keys,
            )[k]).path@ != p,
{
    lemma_search_only_matches(idx, req, keys);
    let hits = search_hits(idx, req, keys);
    assert forall|k: int| 0 <= k < hits.len() implies (#[trigger] hits[k]).path@ != p by {
        assert(is_match(hits[k], idx, req, keys));
        let i = choose|i: int|
            0 <= i < idx.files.len() && hits[k] == hit_of(#[trigger] idx.files[i])
                && passes_filters(idx.files[i], idx.roots, req, keys) && has_substring(
                idx.files[i].file_name_norm@,
                normalized(req.query@),
            );
        assert(idx.files[i].path@ == hits[k].path@);
    }
}

/// A search returns no hit of a root of which the index holds no file.
pub proof fn lemma_search_skips_root(idx: IndexView, req: SearchRequest, keys: PathFilters, id: i64)
    requires
        distinct_paths(idx.files),
        forall|i: int| 0 <= i < idx.files.len() ==> (#[trigger] idx.files[i]).root_id != id,
    ensures
        forall|k: int|
            0 <= k < search_hits(idx, req, keys).len() ==> (#[trigger] search_hits(
                idx,
                req,
                keys,
            )[k]).root_id != id,
{
    lemma_search_only_matches(idx, req, keys);
    let hits = search_hits(idx, req, keys);
    assert forall|k: int| 0 <= k < hits.len() implies (#[trigger] hits[k]).root_id != id by {
        assert(is_match(hits[k], idx, req, keys));
        let i = choose|i: int|
            0 <= i < idx.files.len() && hits[k] == hit_of(#[trigger] idx.files[i])
                && passes_filters(idx.files[i], idx.roots, req, keys) && has_substring(
                idx.files[i].file_name_norm@,
                normalized(req.query@),
            );
        assert(idx.files[i].root_id == hits[k].root_id);
    }
}


/// The name that a hit shows, normalised, contains the normalised query:
/// every record of the index is found under the normalised form of its
/// name, and a search returns only records whose normalised name contains
/// the normalised query.
pub proof fn lemma_search_shows_matching_names(
    idx: IndexView,
    req: SearchRequest,
    keys: PathFilters,
)
    requires
        distinct_paths(idx.files),
        names_normalised(idx.files),
    ensures
        forall|k: int|
            0 <= k < search_hits(idx, req, keys).len() ==> has_substring(
                normalized((#[trigger] search_hits(idx, req, keys)[k]).file_name@),
                normalized(req.query@),
            ),
{
    lemma_search_only_matches(idx, req, keys);
    let hits = search_hits(idx, req, keys);
    assert forall|k: int| 0 <= k < hits.len() implies has_substring(
        normalized((#[trigger] hits[k]).file_name@),
        normalized(req.query@),
    ) by {
        assert(is_match(hits[k], idx, req, keys));
        let i = choose|i: int|
            0 <= i < idx.files.len() && hits[k] == hit_of(#[trigger] idx.files[i])
                && passes_filters(idx.files[i], idx.roots, req, keys) && has_substring(
                idx.files[i].file_name_norm@,
                normalized(req.query@),
            );
        assert(idx.files[i].file_name_norm@ == normalized(idx.files[i].file_name@));
        assert(hits[k].file_name == idx.files[i].file_name);
    }
}

/// In a text search no hit whose shown name, normalised, starts with the
/// normalised query comes after a hit whose shown name does not: the names
/// that start with the query, a name equal to it among them, come before
/// the names that only contain it.
pub proof fn lemma_search_shows_prefix_first(idx: IndexView, req: SearchRequest, keys: PathFilters)
    requires
        distinct_paths(idx.files),
        names_normalised(idx.files),
        normalized(req.query@).len() > 0,
    ensures
        forall|i: int, j: int|
            0 <= i < j < search_hits(idx, req, keys).len() && has_prefix(
                normalized((#[trigger] search_hits(idx, req, keys)[j]).file_name@),
                normalized(req.query@),
            ) ==> has_prefix(
                normalized((#[trigger] search_hits(idx, req, keys)[i]).file_name@),
                normalized(req.query@),
            ),
{
    lemma_search_prefix_first(idx, req, keys);
    let hits = search_hits(idx, req, keys);
    let q = normalized(req.query@);
    let count = prefix_hit_count(idx, req, keys);
    assert forall|k: int| 0 <= k < hits.len() implies has_prefix(
        normalized((#[trigger] hits[k]).file_name@),
        q,
    ) == (k < count) by {
        assert(reports_prefix(hits[k], idx, q, k < count));
        let i = choose|i: int|
            0 <= i < idx.files.len() && hits[k] == hit_of(#[trigger] idx.files[i]) && has_prefix(
                idx.files[i].file_name_norm@,
                q,
            ) == (k < count);
        assert(idx.files[i].file_name_norm@ == normalized(idx.files[i].file_name@));
        assert(hits[k].file_name == idx.files[i].file_name);
    }
}


/// Two records of one path are the same record, where no two records of
/// the index have the same path.
proof fn lemma_same_path_same_record(files: Seq<FileRecord>, x: FileRecord, y: FileRecord)
    requires
        distinct_paths(files),
        files.contains(x),
        files.contains(y),
        x.path@ == y.path@,
    ensures
        x == y,
{
    let i = choose|i: int| 0 <= i < files.len() && files[i] == x;
    let j = choose|j: int| 0 <= j < files.len() && files[j] == y;
    if i < j {
        assert(files[i].path@ != files[j].path@);
    } else if j < i {
        assert(files[j].path@ != files[i].path@);
    }
}

/// One phase of a search returns no file twice.
pub proof fn lemma_phase_no_repeats(
    idx: IndexView,
    req: SearchRequest,
    keys: PathFilters,
    pattern: NamePattern,
    limit: int,
)
    requires
        distinct_paths(idx.files),
    ensures
        forall|a: int, b: int|
            0 <= a < b < phase_hits(idx, req, keys, pattern, limit).len() ==> (
            #[trigger] phase_hits(idx, req, keys, pattern, limit)[a]).path@ != (
            #[trigger] phase_hits(idx, req, keys, pattern, limit)[b]).path@,
{
    let all = ranked(idx.files, idx.roots, req, keys, pattern);
    let hits = phase_hits(idx, req, keys, pattern, limit);
    lemma_ranked(idx.files, idx.roots, req, keys, pattern);
    assert forall|a: int, b: int| 0 <= a < b < hits.len() implies (#[trigger] hits[a]).path@ != (
    #[trigger] hits[b]).path@ by {
        assert(first_n(all, limit)[a] == all[a]);
        assert(first_n(all, limit)[b] == all[b]);
        assert(ranks_before(all[a], all[b], req.sort, pattern));
        if all[a].path@ == all[b].path@ {
            lemma_same_path_same_record(idx.files, all[a], all[b]);
            lemma_rank_asymmetric(all[a], all[b], req.sort, pattern);
        }
    }
}

/// A search returns no file twice.
pub proof fn lemma_search_no_repeats(idx: IndexView, req: SearchRequest, keys: PathFilters)
    requires
        distinct_paths(idx.files),
    ensures
        forall|a: int, b: int|
            0 <= a < b < search_hits(idx, req, keys).len() ==> (#[trigger] search_hits(
                idx,
                req,
                keys,
            )[a]).path@ != (#[trigger] search_hits(idx, req, keys)[b]).path@,
{
    let limit = clamped_limit(req.limit);
    let q = normalized(req.query@);
    let hits = search_hits(idx, req, keys);
    if q.len() == 0 {
        lemma_phase_no_repeats(idx, req, keys, NamePattern::Any, limit);
    } else {
        let first = phase_hits(idx, req, keys, NamePattern::Prefix(q), limit);
        let second = phase_hits(idx, req, keys, NamePattern::Contains(q), limit - first.len());
        lemma_phase_no_repeats(idx, req, keys, NamePattern::Prefix(q), limit);
        lemma_phase_no_repeats(idx, req, keys, NamePattern::Contains(q), limit - first.len());
        lemma_phase_hits(idx, req, keys, NamePattern::Prefix(q), limit);
        lemma_phase_hits(idx, req, keys, NamePattern::Contains(q), limit - first.len());
        assert forall|a: int, b: int| 0 <= a < b < hits.len() implies (#[trigger] hits[a]).path@ != (
        #[trigger] hits[b]).path@ by {
            if b < first.len() {
                assert(hits[a] == first[a] && hits[b] == first[b]);
            } else if a >= first.len() {
                assert(hits[a] == second[a - first.len()]);
                assert(hits[b] == second[b - first.len()]);
            } else {
                assert(hits[a] == first[a]);
                assert(hits[b] == second[b - first.len()]);
                assert(reports_selected(first[a], idx, req, keys, NamePattern::Prefix(q)));
                assert(reports_selected(
                    second[b - first.len()],
                    idx,
                    req,
                    keys,
                    NamePattern::Contains(q),
                ));
                let i = choose|i: int|
                    0 <= i < idx.files.len() && first[a] == hit_of(#[trigger] idx.files[i])
                        && selects(idx.files[i], idx.roots, req, keys, NamePattern::Prefix(q));
                let j = choose|j: int|
                    0 <= j < idx.files.len() && second[b - first.len()] == hit_of(
                        #[trigger] idx.files[j],
                    ) && selects(idx.files[j], idx.roots, req, keys, NamePattern::Contains(q));
                if hits[a].path@ == hits[b].path@ {
                    assert(idx.files.contains(idx.files[i]));
                    assert(idx.files.contains(idx.files[j]));
                    lemma_same_path_same_record(idx.files, idx.files[i], idx.files[j]);
                }
            }
        }
    }
}

} // verus!
