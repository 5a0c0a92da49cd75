//! The engine: one index and the operations that the surrounding program
//! calls. The engine decides; reading the disk, watching it and storing the
//! index are the caller's part, who hands in what was found and carries out
//! what the engine returns.

use crate::index::{
    apply_write_command, applied, applies, distinct_roots, find_root_by_path, has_root_id,
    has_root_path, is_listed, lemma_remove_root, listed, other_root,
    reply_of, root_position, Index, IndexView, WriteCommand, WriteReply,
};
use crate::index::{
    batch_has_roots, index_of, lemma_filter_roots, lemma_upsert_concat, names_normalised,
    not_listed, not_under,
    upsert_all,
};
use crate::records::FileRecord;
use crate::scanner::{
    describes, owns, records_entry, records_of_walk, upserted_records, yielding,
};
use crate::watcher::{
    add_all_unique, apply_upsert_change, file_is_indexed, insert_unique, is_upsert_of,
    PathState, ProbedPath,
};
use crate::query::{path_filters, search, search_hits};
use crate::records::{
    clone_root, EngineError, EngineResult, RootEntry, SearchHit, SearchRequest, WatchedRoot,
};
use crate::text::{
    ascii_lower, chars_eq, chars_lt, chars_of, lemma_lex_lt_total, lemma_lex_lt_transitive, lex_lt, lower_chars,
};
use vstd::prelude::*;

verus! {

/// Whether the root `a` is listed before the root `b`: by path, without
/// regard to the case of ASCII letters; roots whose paths differ in case
/// only, by id.
pub open spec fn root_before(a: RootEntry, b: RootEntry) -> bool {
    lex_lt(ascii_lower(a.root_path@), ascii_lower(b.root_path@)) || (ascii_lower(a.root_path@)
        == ascii_lower(b.root_path@) && a.root_id < b.root_id)
}

/// `sorted` with `r` put before the first root that it is listed before.
pub open spec fn insert_root(sorted: Seq<RootEntry>, r: RootEntry) -> Seq<RootEntry>
    decreases sorted.len(),
{
    if sorted.len() == 0 {
        seq![r]
    } else if root_before(r, sorted[0]) {
        seq![r] + sorted
    } else {
        seq![sorted[0]] + insert_root(sorted.drop_first(), r)
    }
}

/// The roots in the order in which they are listed.
pub open spec fn roots_in_order(roots: Seq<RootEntry>) -> Seq<RootEntry>
    decreases roots.len(),
{
    if roots.len() == 0 {
        Seq::empty()
    } else {
        insert_root(roots_in_order(roots.drop_last()), roots.last())
    }
}

/// Whether every root of `s` is listed before all that follow it.
pub open spec fn in_root_order(s: Seq<RootEntry>) -> bool {
    forall|a: int, b: int| 0 <= a < b < s.len() ==> root_before(#[trigger] s[a], #[trigger] s[b])
}

/// Inserting before the first root that `r` is listed before is inserting
/// at that root's position.
pub proof fn lemma_insert_root(sorted: Seq<RootEntry>, r: RootEntry, pos: int)
    requires
        0 <= pos <= sorted.len(),
        forall|k: int| 0 <= k < pos ==> !root_before(r, #[trigger] sorted[k]),
        pos < sorted.len() ==> root_before(r, sorted[pos]),
    ensures
        insert_root(sorted, r) == sorted.insert(pos, r),
    decreases sorted.len(),
{
    if sorted.len() == 0 {
        assert(seq![r] =~= sorted.insert(pos, r));
    } else if pos == 0 {
        assert(seq![r] + sorted =~= sorted.insert(0, r));
    } else {
        let rest = sorted.drop_first();
        assert forall|k: int| 0 <= k < pos - 1 implies !root_before(r, #[trigger] rest[k]) by {
            assert(rest[k] == sorted[k + 1]);
        }
        if pos - 1 < rest.len() {
            assert(rest[pos - 1] == sorted[pos]);
        }
        lemma_insert_root(rest, r, pos - 1);
        assert(!root_before(r, sorted[0]));
        assert(seq![sorted[0]] + rest.insert(pos - 1, r) =~= sorted.insert(pos, r));
    }
}

/// What `insert_root` returns is `sorted` with `r` at some position; the
/// roots before it are not listed after `r`, and `r` is listed before the
/// root that follows it.
pub proof fn lemma_insert_root_position(sorted: Seq<RootEntry>, r: RootEntry) -> (pos: int)
    ensures
        0 <= pos <= sorted.len(),
        insert_root(sorted, r) == sorted.insert(pos, r),
        forall|k: int| 0 <= k < pos ==> !root_before(r, #[trigger] sorted[k]),
        pos < sorted.len() ==> root_before(r, sorted[pos]),
    decreases sorted.len(),
{
    if sorted.len() == 0 {
        assert(seq![r] =~= sorted.insert(0, r));
        0
    } else if root_before(r, sorted[0]) {
        assert(seq![r] + sorted =~= sorted.insert(0, r));
        0
    } else {
        let rest = sorted.drop_first();
        let p = lemma_insert_root_position(rest, r);
        assert(seq![sorted[0]] + rest.insert(p, r) =~= sorted.insert(p + 1, r));
        assert forall|k: int| 0 <= k < p + 1 implies !root_before(r, #[trigger] sorted[k]) by {
            if k > 0 {
                assert(sorted[k] == rest[k - 1]);
            }
        }
        if p + 1 < sorted.len() {
            assert(sorted[p + 1] == rest[p]);
        }
        p + 1
    }
}

/// The listing holds every root once, and no other.
pub proof fn lemma_listing_members(roots: Seq<RootEntry>)
    ensures
        roots_in_order(roots).len() == roots.len(),
        forall|k: int|
            0 <= k < roots_in_order(roots).len() ==> roots.contains(
                #[trigger] roots_in_order(roots)[k],
            ),
        forall|i: int| 0 <= i < roots.len() ==> roots_in_order(roots).contains(#[trigger] roots[i]),
    decreases roots.len(),
{
    let out = roots_in_order(roots);
    if roots.len() > 0 {
        let init = roots.drop_last();
        let last = roots.last();
        let rest = roots_in_order(init);
        lemma_listing_members(init);
        let pos = lemma_insert_root_position(rest, last);
        assert(out == rest.insert(pos, last));
        assert forall|k: int| 0 <= k < out.len() implies roots.contains(#[trigger] out[k]) by {
            if k < pos {
                assert(out[k] == rest[k]);
                assert(init.contains(rest[k]));
                let j = choose|j: int| 0 <= j < init.len() && init[j] == rest[k];
                assert(roots[j] == out[k]);
            } else if k == pos {
                assert(roots[roots.len() - 1] == out[k]);
            } else {
                assert(out[k] == rest[k - 1]);
                assert(init.contains(rest[k - 1]));
                let j = choose|j: int| 0 <= j < init.len() && init[j] == rest[k - 1];
                assert(roots[j] == out[k]);
            }
        }
        assert forall|i: int| 0 <= i < roots.len() implies out.contains(#[trigger] roots[i]) by {
            if i == roots.len() - 1 {
                assert(out[pos] == roots[i]);
            } else {
                assert(init[i] == roots[i]);
                assert(rest.contains(init[i]));
                let k = choose|k: int| 0 <= k < rest.len() && rest[k] == init[i];
                if k < pos {
                    assert(out[k] == rest[k]);
                } else {
                    assert(out[k + 1] == rest[k]);
                }
            }
        }
    }
}

/// Where no two roots have the same id, each root of the listing is listed
/// before all that follow it.
pub proof fn lemma_listing_sorted(roots: Seq<RootEntry>)
    requires
        distinct_roots(roots),
    ensures
        in_root_order(roots_in_order(roots)),
    decreases roots.len(),
{
    let out = roots_in_order(roots);
    if roots.len() > 0 {
        let init = roots.drop_last();
        let last = roots.last();
        let rest = roots_in_order(init);
        assert(distinct_roots(init)) by {
            assert forall|i: int, j: int| 0 <= i < j < init.len() implies (
            #[trigger] init[i]).root_id != (#[trigger] init[j]).root_id && init[i].root_path@
                != init[j].root_path@ by {
                assert(init[i] == roots[i] && init[j] == roots[j]);
            }
        }
        lemma_listing_sorted(init);
        lemma_listing_members(init);
        let pos = lemma_insert_root_position(rest, last);
        assert(out == rest.insert(pos, last));
        assert forall|k: int| 0 <= k < rest.len() implies (#[trigger] rest[k]).root_id
            != last.root_id by {
            assert(init.contains(rest[k]));
            let j = choose|j: int| 0 <= j < init.len() && init[j] == rest[k];
            assert(roots[j].root_id != roots[roots.len() - 1].root_id);
        }
        assert forall|a: int, b: int| 0 <= a < b < out.len() implies root_before(
            #[trigger] out[a],
            #[trigger] out[b],
        ) by {
            if b < pos {
                assert(out[a] == rest[a] && out[b] == rest[b]);
            } else if b == pos {
                assert(out[a] == rest[a]);
                assert(out[b] == last);
                lemma_lex_lt_total(ascii_lower(rest[a].root_path@), ascii_lower(last.root_path@));
            } else if a == pos {
                assert(out[a] == last);
                assert(out[b] == rest[b - 1]);
                if b - 1 > pos {
                    assert(root_before(rest[pos], rest[b - 1]));
                    lemma_root_before_transitive(last, rest[pos], rest[b - 1]);
                }
            } else if a < pos {
                assert(out[a] == rest[a] && out[b] == rest[b - 1]);
            } else {
                assert(out[a] == rest[a - 1] && out[b] == rest[b - 1]);
            }
        }
    }
}

/// The listing holds every root once, and no other; where no two roots have
/// the same id, each root of the listing is listed before all that follow.
pub proof fn lemma_roots_in_order(roots: Seq<RootEntry>)
    ensures
        roots_in_order(roots).len() == roots.len(),
        forall|k: int|
            0 <= k < roots_in_order(roots).len() ==> roots.contains(
                #[trigger] roots_in_order(roots)[k],
            ),
        forall|i: int| 0 <= i < roots.len() ==> roots_in_order(roots).contains(#[trigger] roots[i]),
        distinct_roots(roots) ==> in_root_order(roots_in_order(roots)),
{
    lemma_listing_members(roots);
    if distinct_roots(roots) {
        lemma_listing_sorted(roots);
    }
}

/// The order of the listing is transitive.
pub proof fn lemma_root_before_transitive(a: RootEntry, b: RootEntry, c: RootEntry)
    requires
        root_before(a, b),
        root_before(b, c),
    ensures
        root_before(a, c),
{
    let x = ascii_lower(a.root_path@);
    let y = ascii_lower(b.root_path@);
    let z = ascii_lower(c.root_path@);
    if lex_lt(x, y) && lex_lt(y, z) {
        lemma_lex_lt_transitive(x, y, z);
    }
}

/// Whether the root `a` is listed before the root `b`.
pub fn is_listed_before(a: &RootEntry, b: &RootEntry) -> (r: bool)
    ensures
        r == root_before(*a, *b),
{
    let x = lower_chars(&chars_of(a.root_path.as_str()));
    let y = lower_chars(&chars_of(b.root_path.as_str()));
    chars_lt(&x, &y) || (chars_eq(&x, &y) && a.root_id < b.root_id)
}

/// The roots of `roots` at the positions `order`.
pub open spec fn picked_roots(order: Seq<usize>, roots: Seq<RootEntry>) -> Seq<RootEntry> {
    Seq::new(order.len(), |k: int| roots[order[k] as int])
}

/// The positions of `roots` in the order of the listing.
fn listing_order(roots: &Vec<RootEntry>) -> (order: Vec<usize>)
    ensures
        forall|k: int| 0 <= k < order@.len() ==> (#[trigger] order@[k]) < roots@.len(),
        picked_roots(order@, roots@) == roots_in_order(roots@),
{
    let mut order: Vec<usize> = Vec::new();
    let mut i: usize = 0;
    assert(roots@.take(0) =~= Seq::<RootEntry>::empty());
    assert(picked_roots(order@, roots@) =~= Seq::<RootEntry>::empty());
    while i < roots.len()
        invariant
            i <= roots.len(),
            forall|k: int| 0 <= k < order@.len() ==> (#[trigger] order@[k]) < i,
            picked_roots(order@, roots@) == roots_in_order(roots@.take(i as int)),
        decreases roots.len() - i,
    {
        let r = &roots[i];
        proof {
            assert(roots@.take(i + 1).drop_last() =~= roots@.take(i as int));
            assert(roots@.take(i + 1).last() == *r);
        }
        let ghost before = picked_roots(order@, roots@);
        let mut pos: usize = 0;
        while pos < order.len() && !is_listed_before(r, &roots[order[pos]])
            invariant
                pos <= order.len(),
                i < roots.len(),
                *r == roots@[i as int],
                before == picked_roots(order@, roots@),
                forall|k: int| 0 <= k < order@.len() ==> (#[trigger] order@[k]) < i,
                forall|k: int| 0 <= k < pos ==> !root_before(*r, #[trigger] before[k]),
            decreases order.len() - pos,
        {
            pos += 1;
        }
        proof {
            if pos < order.len() {
                assert(before[pos as int] == roots@[order@[pos as int] as int]);
            }
            lemma_insert_root(before, *r, pos as int);
        }
        order.insert(pos, i);
        assert(picked_roots(order@, roots@) =~= before.insert(pos as int, *r));
        i += 1;
    }
    assert(roots@.take(roots.len() as int) =~= roots@);
    order
}

/// The roots that are watched and scanned: the enabled ones.
pub open spec fn is_enabled_root() -> spec_fn(RootEntry) -> bool {
    |r: RootEntry| r.is_enabled
}

/// A root as the scanner and the watcher see it.
pub open spec fn as_watched() -> spec_fn(RootEntry) -> WatchedRoot {
    |r: RootEntry| WatchedRoot { root_id: r.root_id, root_path: r.root_path }
}

/// The enabled roots of `roots`, in the order of the listing.
pub open spec fn enabled_watched(roots: Seq<RootEntry>) -> Seq<WatchedRoot> {
    roots_in_order(roots).filter(is_enabled_root()).map_values(as_watched())
}

/// The engine.
pub struct SearchEngine {
    index: Index,
}

impl View for SearchEngine {
    type V = IndexView;

    closed spec fn view(&self) -> IndexView {
        self.index@
    }
}

impl SearchEngine {
    /// An engine with an empty index.
    pub fn new() -> (engine: SearchEngine)
        ensures
            engine@.wf(),
            engine@.roots.len() == 0,
            engine@.files.len() == 0,
            engine@.last_root_id == 0,
    {
        SearchEngine { index: Index::new() }
    }

    /// The index that the engine holds.
    pub fn index(&self) -> (idx: &Index)
        ensures
            idx@ == self@,
    {
        &self.index
    }

    /// All roots, the disabled ones too, ordered by path without regard to
    /// the case of ASCII letters.
    pub fn list_roots(&self) -> (roots: Vec<RootEntry>)
        ensures
            roots@ == roots_in_order(self@.roots),
    {
        let all = self.index.roots();
        let order = listing_order(all);
        let mut out: Vec<RootEntry> = Vec::new();
        let mut k: usize = 0;
        while k < order.len()
            invariant
                k <= order.len(),
                forall|j: int| 0 <= j < order@.len() ==> (#[trigger] order@[j]) < all@.len(),
                out@ == picked_roots(order@, all@).take(k as int),
            decreases order.len() - k,
        {
            out.push(clone_root(&all[order[k]]));
            k += 1;
            assert(out@ =~= picked_roots(order@, all@).take(k as int));
        }
        assert(picked_roots(order@, all@).take(order.len() as int) =~= picked_roots(
            order@,
            all@,
        ));
        out
    }

    /// The enabled roots, in the order of the listing.
    pub fn enabled_watched_roots(&self) -> (roots: Vec<WatchedRoot>)
        ensures
            roots@ == enabled_watched(self@.roots),
    {
        let all = self.list_roots();
        let ghost listing = all@;
        let mut out: Vec<WatchedRoot> = Vec::new();
        assert(listing.take(0).filter(is_enabled_root()) =~= Seq::<RootEntry>::empty()) by {
            reveal(Seq::filter);
        }
        for r in it: all
            invariant
                it.seq() == listing,
                out@ == listing.take(it.index() as int).filter(is_enabled_root()).map_values(
                    as_watched(),
                ),
        {
            proof {
                listing.take(it.index() as int).lemma_filter_push(r, is_enabled_root());
                assert(listing.take(it.index() + 1) =~= listing.take(it.index() as int).push(r));
            }
            if r.is_enabled {
                out.push(WatchedRoot { root_id: r.root_id, root_path: r.root_path });
                assert(out@ =~= listing.take(it.index() + 1).filter(
                    is_enabled_root(),
                ).map_values(as_watched()));
            }
        }
        assert(listing.take(listing.len() as int) =~= listing);
        out
    }

    /// The roots that the watcher is to watch from now on: the enabled
    /// ones.
    pub fn refresh_watcher_roots(&self) -> (roots: Vec<WatchedRoot>)
        ensures
            roots@ == enabled_watched(self@.roots),
    {
        self.enabled_watched_roots()
    }

    /// The roots of which a full scan is to be started: every enabled root.
    pub fn reindex_all_async(&self) -> (scans: Vec<WatchedRoot>)
        ensures
            scans@ == enabled_watched(self@.roots),
    {
        self.enabled_watched_roots()
    }

    /// The hits of a search, over the index as it stands. `current_dir` is
    /// the directory that relative path filters are taken from.
    pub fn search(&self, request: &SearchRequest, current_dir: &str) -> (hits: Vec<SearchHit>)
        requires
            self@.wf(),
        ensures
            hits@ == search_hits(self@, *request, path_filters(*request, current_dir@)),
    {
        search(&self.index, request, current_dir)
    }

    /// Applies one command to the index. A command that does not apply
    /// fails with a storage error and changes nothing.
    pub fn apply(&mut self, cmd: WriteCommand) -> (res: EngineResult<WriteReply>)
        requires
            old(self)@.wf(),
        ensures
            final(self)@.wf(),
            applies(old(self)@, cmd) ==> (res matches Ok(reply) && reply == reply_of(
                old(self)@,
                cmd,
            ) && final(self)@ == applied(old(self)@, cmd)),
            !applies(old(self)@, cmd) ==> (res matches Err(EngineError::Storage { .. }) && final(self)@ == old(self)@),
    {
        apply_write_command(&mut self.index, cmd)
    }
}


/// A directory that is asked to be a root: the text of its absolute path,
/// and whether a directory is there.
#[derive(Clone, Debug)]
pub struct RootCandidate {
    pub path: String,
    pub is_dir: bool,
}

/// What a change of the root set asks of the caller.
#[derive(Debug)]
pub struct SyncOutcome {
    /// The roots that were not known before: a full scan of each is due.
    pub added: Vec<WatchedRoot>,
    /// The ids of the roots that were removed, with all their files.
    pub removed: Vec<i64>,
    /// The roots that are to be watched from now on.
    pub watched: Vec<WatchedRoot>,
}

/// The index after the commands `cmds` were applied one after the other.
pub open spec fn apply_all(idx: IndexView, cmds: Seq<WriteCommand>) -> IndexView
    decreases cmds.len(),
{
    if cmds.len() == 0 {
        idx
    } else {
        applied(apply_all(idx, cmds.drop_last()), cmds.last())
    }
}

/// The paths of the candidates, in order.
pub open spec fn candidate_paths(desired: Seq<RootCandidate>) -> Seq<String> {
    Seq::new(desired.len(), |i: int| desired[i].path)
}

/// The paths that are asked for, each once, in the order in which they
/// first occur.
pub open spec fn desired_keys(desired: Seq<RootCandidate>) -> Seq<String> {
    add_all_unique(Seq::empty(), candidate_paths(desired))
}

/// Whether every candidate is a directory.
pub open spec fn all_dirs(desired: Seq<RootCandidate>) -> bool {
    forall|i: int| 0 <= i < desired.len() ==> (#[trigger] desired[i]).is_dir
}

/// Whether the candidate at `i` is the first that is no directory.
pub open spec fn first_invalid(desired: Seq<RootCandidate>, i: int) -> bool {
    &&& 0 <= i < desired.len()
    &&& !desired[i].is_dir
    &&& forall|j: int| 0 <= j < i ==> (#[trigger] desired[j]).is_dir
}

/// The paths that no root of `roots` has.
pub open spec fn is_new_key(roots: Seq<RootEntry>) -> spec_fn(String) -> bool {
    |k: String| !has_root_path(roots, k@)
}

/// The roots whose path is none of `keys`.
pub open spec fn is_dropped(keys: Seq<String>) -> spec_fn(RootEntry) -> bool {
    |r: RootEntry| !listed(keys, r.root_path@)
}

/// One command for each of `keys`, which adds or enables its root.
pub open spec fn add_commands(keys: Seq<String>) -> Seq<WriteCommand> {
    Seq::new(keys.len(), |j: int| WriteCommand::AddOrEnableRoot { root_path: keys[j] })
}

/// The command that removes a root.
pub open spec fn removal() -> spec_fn(RootEntry) -> WriteCommand {
    |r: RootEntry| WriteCommand::RemoveRoot { root_id: r.root_id }
}

/// One command for each root of `listing` whose path is none of `keys`,
/// which removes it.
pub open spec fn remove_commands(listing: Seq<RootEntry>, keys: Seq<String>) -> Seq<WriteCommand> {
    listing.filter(is_dropped(keys)).map_values(removal())
}

/// Whether the new roots among `keys` can be given ids.
pub open spec fn ids_suffice(before: IndexView, keys: Seq<String>) -> bool {
    before.last_root_id + keys.filter(is_new_key(before.roots)).len() <= i64::MAX
}

/// The index after the root set was brought to `keys`: every path of
/// `keys` is added or enabled, then every root that was there before and
/// whose path is none of `keys` is removed with its files.
pub open spec fn synced(before: IndexView, keys: Seq<String>) -> IndexView {
    apply_all(
        apply_all(before, add_commands(keys)),
        remove_commands(roots_in_order(before.roots), keys),
    )
}

/// Whether `roots` holds a root with the id `id` and the path `p`.
pub open spec fn has_root(roots: Seq<RootEntry>, id: i64, p: Seq<char>) -> bool {
    exists|i: int|
        0 <= i < roots.len() && (#[trigger] roots[i]).root_id == id && roots[i].root_path@ == p
}

/// Whether `added` are the roots of `after` for the paths of `keys` that
/// no root had before.
pub open spec fn are_added(
    added: Seq<WatchedRoot>,
    before: IndexView,
    after: IndexView,
    keys: Seq<String>,
) -> bool {
    &&& added.len() == keys.filter(is_new_key(before.roots)).len()
    &&& forall|k: int|
        0 <= k < added.len() ==> (#[trigger] added[k]).root_path == keys.filter(
            is_new_key(before.roots),
        )[k] && has_root(after.roots, added[k].root_id, added[k].root_path@)
}

/// The ids of the roots of `listing` whose path is none of `keys`.
pub open spec fn removed_ids(listing: Seq<RootEntry>, keys: Seq<String>) -> Seq<i64> {
    listing.filter(is_dropped(keys)).map_values(|r: RootEntry| r.root_id)
}

impl SearchEngine {
    /// Adds a root, or enables the one that has this path; returns its id.
    /// A new root gets the id that follows the last one handed out; there
    /// is none after the largest.
    pub fn add_or_enable_root(&mut self, root_path: &str) -> (res: EngineResult<i64>)
        requires
            old(self)@.wf(),
        ensures
            final(self)@.wf(),
            final(self)@.files == old(self)@.files,
            has_root_path(old(self)@.roots, root_path@) ==> (res matches Ok(id) && id
                == old(self)@.roots[root_position(old(self)@.roots, root_path@)].root_id && final(self)@.roots == old(self)@.roots.update(
                root_position(old(self)@.roots, root_path@),
                crate::index::enabled(
                    old(self)@.roots[root_position(old(self)@.roots, root_path@)],
                ),
            ) && final(self)@.last_root_id == old(self)@.last_root_id),
            !has_root_path(old(self)@.roots, root_path@) && old(self)@.last_root_id < i64::MAX ==> (
            res matches Ok(id) && id == old(self)@.last_root_id + 1 && final(self)@.last_root_id
                == id && final(self)@.roots.len() == old(self)@.roots.len() + 1 && final(self)@.roots.drop_last() == old(self)@.roots && final(self)@.roots.last().root_id == id
                && final(self)@.roots.last().root_path@ == root_path@ && final(self)@.roots.last().is_enabled && final(self)@.roots.last().last_scan_time is None),
            !has_root_path(old(self)@.roots, root_path@) && old(self)@.last_root_id == i64::MAX ==> (
            res matches Err(EngineError::Storage { .. }) && final(self)@ == old(self)@),
    {
        let key = root_path.to_owned();
        let ghost cmd = WriteCommand::AddOrEnableRoot { root_path: key };
        match apply_write_command(&mut self.index, WriteCommand::AddOrEnableRoot { root_path: key }) {
            Ok(WriteReply::RootId(id)) => {
                assert(applied(old(self)@, cmd) == self@);
                proof {
                    if !has_root_path(old(self)@.roots, root_path@) {
                        assert(self@.roots.drop_last() =~= old(self)@.roots);
                    }
                }
                Ok(id)
            },
            Ok(WriteReply::Done) => {
                assert(false);
                Err(EngineError::Channel)
            },
            Err(e) => Err(e),
        }
    }

    /// Removes the root with this id, and all its files.
    pub fn remove_root(&mut self, root_id: i64)
        requires
            old(self)@.wf(),
        ensures
            final(self)@.wf(),
            final(self)@ == applied(old(self)@, WriteCommand::RemoveRoot { root_id }),
    {
        let _ = apply_write_command(&mut self.index, WriteCommand::RemoveRoot { root_id });
    }
}


/// A path is that of a listed root just when it is that of a root.
pub proof fn lemma_listing_paths(roots: Seq<RootEntry>, p: Seq<char>)
    ensures
        has_root_path(roots_in_order(roots), p) == has_root_path(roots, p),
{
    lemma_roots_in_order(roots);
    let listing = roots_in_order(roots);
    if has_root_path(listing, p) {
        let k = choose|k: int| 0 <= k < listing.len() && (#[trigger] listing[k]).root_path@ == p;
        assert(roots.contains(listing[k]));
        let i = choose|i: int| 0 <= i < roots.len() && roots[i] == listing[k];
        assert(roots[i].root_path@ == p);
    }
    if has_root_path(roots, p) {
        let i = choose|i: int| 0 <= i < roots.len() && (#[trigger] roots[i]).root_path@ == p;
        assert(listing.contains(roots[i]));
        let k = choose|k: int| 0 <= k < listing.len() && listing[k] == roots[i];
        assert(listing[k].root_path@ == p);
    }
}

/// Whether every root of `cur` that has the id of a root of `old` has that
/// root's path too.
pub open spec fn ids_keep_paths(cur: Seq<RootEntry>, old: Seq<RootEntry>) -> bool {
    forall|i: int, j: int|
        0 <= i < cur.len() && 0 <= j < old.len() && (#[trigger] cur[i]).root_id == (
        #[trigger] old[j]).root_id ==> cur[i].root_path@ == old[j].root_path@
}

/// Whether every path of `keys` is that of a root of `roots`.
pub open spec fn keys_are_roots(keys: Seq<String>, roots: Seq<RootEntry>) -> bool {
    forall|k: int| 0 <= k < keys.len() ==> has_root_path(roots, (#[trigger] keys[k])@)
}

/// Removing a root whose path is none of `keys` keeps the roots of `keys`.
proof fn lemma_remove_keeps_keys(
    before: IndexView,
    old_roots: Seq<RootEntry>,
    keys: Seq<String>,
    entry: RootEntry,
)
    requires
        before.wf(),
        ids_keep_paths(before.roots, old_roots),
        keys_are_roots(keys, before.roots),
        old_roots.contains(entry),
        !listed(keys, entry.root_path@),
    ensures
        keys_are_roots(keys, applied(before, WriteCommand::RemoveRoot { root_id: entry.root_id }).roots),
        ids_keep_paths(
            applied(before, WriteCommand::RemoveRoot { root_id: entry.root_id }).roots,
            old_roots,
        ),
{
    let id = entry.root_id;
    let after = before.roots.filter(other_root(id));
    let j = choose|j: int| 0 <= j < old_roots.len() && old_roots[j] == entry;
    crate::index::lemma_filter_roots(before.roots, other_root(id));
    assert forall|k: int| 0 <= k < keys.len() implies has_root_path(after, (#[trigger] keys[k])@) by {
        let i = choose|i: int|
            0 <= i < before.roots.len() && (#[trigger] before.roots[i]).root_path@ == keys[k]@;
        if before.roots[i].root_id == id {
            assert(before.roots[i].root_path@ == old_roots[j].root_path@);
            assert(listed(keys, entry.root_path@));
        }
        assert(other_root(id)(before.roots[i]));
        before.roots.lemma_filter_contains(other_root(id), i);
        let m = choose|m: int| 0 <= m < after.len() && after[m] == before.roots[i];
        assert(after[m].root_path@ == keys[k]@);
    }
    assert forall|i: int, j2: int|
        0 <= i < after.len() && 0 <= j2 < old_roots.len() && (#[trigger] after[i]).root_id == (
        #[trigger] old_roots[j2]).root_id implies after[i].root_path@ == old_roots[j2].root_path@ by {
        assert(before.roots.contains(after[i]));
        let a = choose|a: int| 0 <= a < before.roots.len() && before.roots[a] == after[i];
        assert(before.roots[a].root_id == old_roots[j2].root_id);
    }
}

impl SearchEngine {
    /// Brings the root set to the paths of `desired`. Every candidate has
    /// to be a directory: if one is not, the call fails with the first such
    /// path and changes nothing. Otherwise each path is added, or enabled if
    /// a root has it already, and each root that was there before and is
    /// not asked for is removed with all its files. The call fails with a
    /// storage error, and changes nothing, if the new roots cannot all be
    /// given ids.
    pub fn sync_roots(&mut self, desired: &Vec<RootCandidate>) -> (res: EngineResult<SyncOutcome>)
        requires
            old(self)@.wf(),
        ensures
            final(self)@.wf(),
            match res {
                Ok(outcome) => {
                    &&& all_dirs(desired@)
                    &&& ids_suffice(old(self)@, desired_keys(desired@))
                    &&& final(self)@ == synced(old(self)@, desired_keys(desired@))
                    &&& are_added(outcome.added@, old(self)@, final(self)@, desired_keys(desired@))
                    &&& outcome.removed@ == removed_ids(
                        roots_in_order(old(self)@.roots),
                        desired_keys(desired@),
                    )
                    &&& outcome.watched@ == enabled_watched(final(self)@.roots)
                },
                Err(EngineError::Validation { path }) => final(self)@ == old(self)@ && exists|i: int|
                    first_invalid(desired@, i) && path@ == (#[trigger] desired@[i]).path@,
                Err(EngineError::Storage { .. }) => final(self)@ == old(self)@ && all_dirs(desired@)
                    && !ids_suffice(old(self)@, desired_keys(desired@)),
                Err(_) => false,
            },
    {
        let ghost before = self@;
        let mut v: usize = 0;
        while v < desired.len()
            invariant
                v <= desired.len(),
                forall|j: int| 0 <= j < v ==> (#[trigger] desired@[j]).is_dir,
                self@ == before,
                before.wf(),
            decreases desired.len() - v,
        {
            if !desired[v].is_dir {
                assert(first_invalid(desired@, v as int));
                return Err(EngineError::Validation { path: desired[v].path.clone() });
            }
            v += 1;
        }
        let mut keys: Vec<String> = Vec::new();
        let mut d: usize = 0;
        while d < desired.len()
            invariant
                d <= desired.len(),
                keys@ == add_all_unique(Seq::empty(), candidate_paths(desired@).take(d as int)),
                self@ == before,
                before.wf(),
            decreases desired.len() - d,
        {
            insert_unique(&mut keys, desired[d].path.clone());
            d += 1;
            proof {
                let paths = candidate_paths(desired@);
                assert(paths.take(d as int).drop_last() =~= paths.take(d - 1));
            }
        }
        assert(candidate_paths(desired@).take(desired.len() as int) =~= candidate_paths(desired@));
        let ghost fresh = is_new_key(before.roots);
        let mut count: usize = 0;
        let mut c: usize = 0;
        assert(keys@.take(0).filter(fresh) =~= Seq::<String>::empty()) by {
            reveal(Seq::filter);
        }
        while c < keys.len()
            invariant
                c <= keys.len(),
                count <= c,
                fresh == is_new_key(before.roots),
                count == keys@.take(c as int).filter(fresh).len(),
                self@ == before,
                before.wf(),
            decreases keys.len() - c,
        {
            proof {
                keys@.take(c as int).lemma_filter_push(keys@[c as int], fresh);
                assert(keys@.take(c + 1) =~= keys@.take(c as int).push(keys@[c as int]));
            }
            if find_root_by_path(self.index.roots(), &keys[c]).is_none() {
                count += 1;
            }
            c += 1;
        }
        assert(keys@.take(keys.len() as int) =~= keys@);
        let room: u64 = (i64::MAX - self.index.last_root_id()) as u64;
        if count as u64 > room {
            return Err(EngineError::Storage { reason: "no root id is left".to_owned() });
        }
        let current = self.list_roots();
        let ghost listing = current@;
        proof {
            lemma_roots_in_order(before.roots);
        }
        let mut added: Vec<WatchedRoot> = Vec::new();
        let ghost adds = add_commands(keys@);
        let mut j: usize = 0;
        while j < keys.len()
            invariant
                j <= keys.len(),
                before.wf(),
                fresh == is_new_key(before.roots),
                adds == add_commands(keys@),
                listing == roots_in_order(before.roots),
                current@ == listing,
                before.last_root_id + keys@.filter(fresh).len() <= i64::MAX,
                self@.wf(),
                self@ == apply_all(before, adds.take(j as int)),
                self@.files == before.files,
                self@.last_root_id - before.last_root_id <= keys@.take(j as int).filter(fresh).len(),
                self@.last_root_id >= before.last_root_id,
                forall|p: Seq<char>|
                    has_root_path(before.roots, p) ==> #[trigger] has_root_path(self@.roots, p),
                ids_keep_paths(self@.roots, before.roots),
                keys_are_roots(keys@.take(j as int), self@.roots),
                added@.len() == keys@.take(j as int).filter(fresh).len(),
                forall|k: int|
                    0 <= k < added@.len() ==> (#[trigger] added@[k]).root_path == keys@.take(
                        j as int,
                    ).filter(fresh)[k] && has_root(
                        self@.roots,
                        added@[k].root_id,
                        added@[k].root_path@,
                    ) && listed(keys@, added@[k].root_path@),
            decreases keys.len() - j,
        {
            let key = &keys[j];
            let ghost cur = self@;
            let ghost seen = keys@.take(j as int).filter(fresh);
            proof {
                keys@.take(j as int).lemma_filter_push(*key, fresh);
                assert(keys@.take(j + 1) =~= keys@.take(j as int).push(*key));
                keys@.lemma_filter_take_len(fresh, j + 1);
                lemma_listing_paths(before.roots, key@);
                assert(adds.take(j + 1).drop_last() =~= adds.take(j as int));
                assert(adds.take(j + 1).last() == WriteCommand::AddOrEnableRoot {
                    root_path: *key,
                });
            }
            let added_now = find_root_by_path(&current, key).is_none();
            let reply = apply_write_command(
                &mut self.index,
                WriteCommand::AddOrEnableRoot { root_path: key.clone() },
            );
            let id = match reply {
                Ok(WriteReply::RootId(id)) => id,
                _ => {
                    assert(false);
                    return Err(EngineError::Channel);
                },
            };
            proof {
                let now = self@;
                if has_root_path(cur.roots, key@) {
                    let at = root_position(cur.roots, key@);
                    assert(now.roots[at].root_path@ == key@);
                    assert forall|p: Seq<char>| has_root_path(cur.roots, p) implies has_root_path(
                        now.roots,
                        p,
                    ) by {
                        let i = choose|i: int|
                            0 <= i < cur.roots.len() && (#[trigger] cur.roots[i]).root_path@ == p;
                        assert(now.roots[i].root_path@ == p);
                    }
                    assert forall|i: int, j2: int|
                        0 <= i < now.roots.len() && 0 <= j2 < before.roots.len() && (
                        #[trigger] now.roots[i]).root_id == (#[trigger] before.roots[j2]).root_id implies now.roots[i].root_path@
                        == before.roots[j2].root_path@ by {
                        assert(now.roots[i].root_id == cur.roots[i].root_id);
                        assert(now.roots[i].root_path@ == cur.roots[i].root_path@);
                    }
                    assert forall|k: int| 0 <= k < added@.len() implies has_root(
                        now.roots,
                        (#[trigger] added@[k]).root_id,
                        added@[k].root_path@,
                    ) by {
                        let i = choose|i: int|
                            0 <= i < cur.roots.len() && (#[trigger] cur.roots[i]).root_id
                                == added@[k].root_id && cur.roots[i].root_path@
                                == added@[k].root_path@;
                        assert(now.roots[i].root_id == cur.roots[i].root_id);
                        assert(now.roots[i].root_path@ == cur.roots[i].root_path@);
                    }
                } else {
                    assert(now.roots[now.roots.len() - 1].root_path@ == key@);
                    assert forall|p: Seq<char>| has_root_path(cur.roots, p) implies has_root_path(
                        now.roots,
                        p,
                    ) by {
                        let i = choose|i: int|
                            0 <= i < cur.roots.len() && (#[trigger] cur.roots[i]).root_path@ == p;
                        assert(now.roots[i] == cur.roots[i]);
                    }
                    assert forall|i: int, j2: int|
                        0 <= i < now.roots.len() && 0 <= j2 < before.roots.len() && (
                        #[trigger] now.roots[i]).root_id == (#[trigger] before.roots[j2]).root_id implies now.roots[i].root_path@
                        == before.roots[j2].root_path@ by {
                        if i < cur.roots.len() {
                            assert(now.roots[i] == cur.roots[i]);
                        } else {
                            assert(before.roots[j2].root_id <= before.last_root_id);
                        }
                    }
                    assert forall|k: int| 0 <= k < added@.len() implies has_root(
                        now.roots,
                        (#[trigger] added@[k]).root_id,
                        added@[k].root_path@,
                    ) by {
                        let i = choose|i: int|
                            0 <= i < cur.roots.len() && (#[trigger] cur.roots[i]).root_id
                                == added@[k].root_id && cur.roots[i].root_path@
                                == added@[k].root_path@;
                        assert(now.roots[i] == cur.roots[i]);
                    }
                }
                assert forall|k: int| 0 <= k < keys@.take(j + 1).len() implies has_root_path(
                    now.roots,
                    (#[trigger] keys@.take(j + 1)[k])@,
                ) by {
                    if k < j {
                        assert(keys@.take(j + 1)[k] == keys@.take(j as int)[k]);
                        assert(has_root_path(cur.roots, keys@.take(j as int)[k]@));
                    }
                }
            }
            if added_now {
                let ghost so_far = added@;
                proof {
                    let now = self@;
                    let i = choose|i: int|
                        0 <= i < now.roots.len() && (#[trigger] now.roots[i]).root_path@ == key@;
                    if has_root_path(cur.roots, key@) {
                        let at = root_position(cur.roots, key@);
                        assert(now.roots[at].root_id == id);
                        assert(has_root(now.roots, id, key@));
                    } else {
                        assert(now.roots[now.roots.len() - 1].root_id == id);
                        assert(has_root(now.roots, id, key@));
                    }
                }
                added.push(WatchedRoot { root_id: id, root_path: key.clone() });
                proof {
                    assert(keys@[j as int]@ == key@);
                    assert forall|k: int| 0 <= k < added@.len() implies (
                    #[trigger] added@[k]).root_path == keys@.take(j + 1).filter(fresh)[k]
                        && has_root(self@.roots, added@[k].root_id, added@[k].root_path@)
                        && listed(keys@, added@[k].root_path@) by {
                        if k < so_far.len() {
                            assert(added@[k] == so_far[k]);
                            assert(keys@.take(j + 1).filter(fresh)[k] == seen[k]);
                        }
                    }
                }
            }
            j += 1;
        }
        assert(keys@.take(keys.len() as int) =~= keys@);
        assert(adds.take(keys.len() as int) =~= adds);
        let ghost mid = self@;
        let ghost drops = is_dropped(keys@);
        let mut removed: Vec<i64> = Vec::new();
        assert(listing.take(0).filter(drops) =~= Seq::<RootEntry>::empty()) by {
            reveal(Seq::filter);
        }
        assert(remove_commands(listing.take(0), keys@) =~= Seq::<WriteCommand>::empty());
        for entry in it: current
            invariant
                it.seq() == listing,
                listing == roots_in_order(before.roots),
                drops == is_dropped(keys@),
                before.wf(),
                self@.wf(),
                self@ == apply_all(mid, remove_commands(listing.take(it.index() as int), keys@)),
                removed@ == removed_ids(listing.take(it.index() as int), keys@),
                ids_keep_paths(self@.roots, before.roots),
                keys_are_roots(keys@, self@.roots),
                forall|k: int|
                    0 <= k < added@.len() ==> listed(keys@, (#[trigger] added@[k]).root_path@)
                        && has_root(self@.roots, added@[k].root_id, added@[k].root_path@),
        {
            let ghost n = it.index() as int;
            let ghost cur = self@;
            proof {
                listing.take(n).lemma_filter_push(entry, drops);
                assert(listing.take(n + 1) =~= listing.take(n).push(entry));
                lemma_roots_in_order(before.roots);
                assert(before.roots.contains(listing[n]));
            }
            if !is_listed(&keys, &entry.root_path) {
                proof {
                    lemma_remove_keeps_keys(cur, before.roots, keys@, entry);
                    lemma_remove_root(cur, entry.root_id);
                    let cmds = remove_commands(listing.take(n + 1), keys@);
                    assert(cmds.drop_last() =~= remove_commands(listing.take(n), keys@));
                    assert(cmds.last() == WriteCommand::RemoveRoot { root_id: entry.root_id });
                }
                self.remove_root(entry.root_id);
                removed.push(entry.root_id);
                proof {
                    assert(removed@ =~= removed_ids(listing.take(n + 1), keys@));
                    let now = self@;
                    crate::index::lemma_filter_roots(cur.roots, other_root(entry.root_id));
                    assert forall|k: int| 0 <= k < added@.len() implies has_root(
                        now.roots,
                        (#[trigger] added@[k]).root_id,
                        added@[k].root_path@,
                    ) by {
                        let i = choose|i: int|
                            0 <= i < cur.roots.len() && (#[trigger] cur.roots[i]).root_id
                                == added@[k].root_id && cur.roots[i].root_path@
                                == added@[k].root_path@;
                        let b = choose|b: int| 0 <= b < before.roots.len() && before.roots[b] == entry;
                        if cur.roots[i].root_id == entry.root_id {
                            assert(cur.roots[i].root_path@ == before.roots[b].root_path@);
                        }
                        assert(other_root(entry.root_id)(cur.roots[i]));
                        cur.roots.lemma_filter_contains(other_root(entry.root_id), i);
                        let m = choose|m: int|
                            0 <= m < now.roots.len() && now.roots[m] == cur.roots[i];
                        assert(now.roots[m].root_id == added@[k].root_id);
                    }
                }
            } else {
                assert(remove_commands(listing.take(n + 1), keys@) =~= remove_commands(
                    listing.take(n),
                    keys@,
                ));
                assert(removed_ids(listing.take(n + 1), keys@) =~= removed_ids(
                    listing.take(n),
                    keys@,
                ));
            }
        }
        assert(listing.take(listing.len() as int) =~= listing);
        let watched = self.enabled_watched_roots();
        Ok(SyncOutcome { added, removed, watched })
    }
}


/// Every enabled root that is watched is a root of the index.
pub proof fn lemma_watched_are_roots(roots: Seq<RootEntry>)
    ensures
        forall|k: int|
            0 <= k < enabled_watched(roots).len() ==> has_root_id(
                roots,
                (#[trigger] enabled_watched(roots)[k]).root_id,
            ),
{
    let listing = roots_in_order(roots);
    let kept = listing.filter(is_enabled_root());
    lemma_roots_in_order(roots);
    assert forall|k: int| 0 <= k < enabled_watched(roots).len() implies has_root_id(
        roots,
        (#[trigger] enabled_watched(roots)[k]).root_id,
    ) by {
        assert(enabled_watched(roots)[k] == as_watched()(kept[k]));
        assert(kept.contains(kept[k]));
        listing.lemma_filter_contains_rev(is_enabled_root(), kept[k]);
        let a = choose|a: int| 0 <= a < listing.len() && listing[a] == kept[k];
        assert(roots.contains(listing[a]));
        let i = choose|i: int| 0 <= i < roots.len() && roots[i] == listing[a];
        assert(roots[i].root_id == kept[k].root_id);
    }
}

/// Whether every command of `cmds` upserts records, each of which names a
/// root of `roots` and carries the normalised form of its name.
pub open spec fn only_upserts_for(cmds: Seq<WriteCommand>, roots: Seq<RootEntry>) -> bool {
    forall|c: int|
        0 <= c < cmds.len() ==> (#[trigger] cmds[c] matches WriteCommand::UpsertFiles { files }
            && batch_has_roots(files@, roots) && names_normalised(files@))
}

/// Every batch of `cmds` holds records that are among the records that
/// `cmds` upserts.
pub proof fn lemma_upserted_records_cover(cmds: Seq<WriteCommand>, c: int, k: int)
    requires
        0 <= c < cmds.len(),
        cmds[c] matches WriteCommand::UpsertFiles { files } && 0 <= k < files@.len(),
    ensures
        cmds[c] matches WriteCommand::UpsertFiles { files } && upserted_records(cmds).contains(
            files@[k],
        ),
    decreases cmds.len(),
{
    let all = upserted_records(cmds);
    let init = upserted_records(cmds.drop_last());
    if c == cmds.len() - 1 {
        match cmds[c] {
            WriteCommand::UpsertFiles { files } => {
                assert(all[init.len() + k] == files@[k]);
            },
            _ => {},
        }
    } else {
        assert(cmds.drop_last()[c] == cmds[c]);
        lemma_upserted_records_cover(cmds.drop_last(), c, k);
        match cmds[c] {
            WriteCommand::UpsertFiles { files } => {
                let m = choose|m: int| 0 <= m < init.len() && init[m] == files@[k];
                assert(all[m] == files@[k]);
            },
            _ => {},
        }
    }
}

/// The upserts of a changed path name roots of the index, where the roots
/// that own paths are the enabled roots of the index.
pub proof fn lemma_upserts_name_roots(
    cmds: Seq<WriteCommand>,
    probe: ProbedPath,
    roots: Seq<RootEntry>,
    marker: i64,
)
    requires
        is_upsert_of(cmds, probe, enabled_watched(roots), marker),
    ensures
        only_upserts_for(cmds, roots),
{
    let watched = enabled_watched(roots);
    lemma_watched_are_roots(roots);
    match probe.state {
        PathState::Directory { entries } => {
            let recs = upserted_records(cmds);
            assert forall|c: int| 0 <= c < cmds.len() implies (
            #[trigger] cmds[c] matches WriteCommand::UpsertFiles { files } && batch_has_roots(
                files@,
                roots,
            ) && names_normalised(files@)) by {
                match cmds[c] {
                    WriteCommand::UpsertFiles { files } => {
                        assert forall|k: int| 0 <= k < files@.len() implies has_root_id(
                            roots,
                            (#[trigger] files@[k]).root_id,
                        ) && files@[k].file_name_norm@ == crate::normalize::normalized(
                            files@[k].file_name@,
                        ) by {
                            lemma_upserted_records_cover(cmds, c, k);
                            let m = choose|m: int| 0 <= m < recs.len() && recs[m] == files@[k];
                            assert(records_entry(
                                recs[m],
                                entries@.filter(yielding(None, watched))[m],
                                None,
                                watched,
                                marker,
                            ));
                        }
                    },
                    _ => {},
                }
            }
        },
        PathState::File { meta } => {
            if file_is_indexed(probe.path@, meta, watched) {
                match cmds[0] {
                    WriteCommand::UpsertFiles { files } => {
                        assert(batch_has_roots(files@, roots));
                        assert(names_normalised(files@));
                    },
                    _ => {},
                }
            }
        },
        _ => {},
    }
}

/// The files after what was at the old place of a change was deleted. Of a
/// path that is gone nobody can tell whether it was a file or a directory,
/// so its record goes and with it all that lies under it. A directory that
/// is there goes with all that lies at or under it, anything else that is
/// there as the one path.
pub open spec fn after_delete(files: Seq<FileRecord>, old_path: Option<ProbedPath>) -> Seq<
    FileRecord,
> {
    match old_path {
        None => files,
        Some(o) => match o.state {
            PathState::Directory { .. } => files.filter(not_under(seq![o.path])),
            PathState::Missing => files.filter(not_listed(seq![o.path])).filter(
                not_under(seq![o.path]),
            ),
            _ => files.filter(not_listed(seq![o.path])),
        },
    }
}

/// Whether `cmds` are the deletions of what was at the old place of a
/// change: for a path that is gone, one of the exact path and then one of
/// the path as a prefix; for a directory that is there, one of the path as
/// a prefix; for anything else, one of the exact path.
pub open spec fn are_deletions_of(cmds: Seq<WriteCommand>, old_path: ProbedPath) -> bool {
    match old_path.state {
        PathState::Directory { .. } => cmds.len() == 1 && deletes_prefix(cmds[0], old_path.path),
        PathState::Missing => cmds.len() == 2 && deletes_path(cmds[0], old_path.path)
            && deletes_prefix(cmds[1], old_path.path),
        _ => cmds.len() == 1 && deletes_path(cmds[0], old_path.path),
    }
}

/// Whether `cmd` deletes exactly the path `path`.
pub open spec fn deletes_path(cmd: WriteCommand, path: String) -> bool {
    cmd matches WriteCommand::DeletePaths { paths } && paths@ == seq![path]
}

/// Whether `cmd` deletes what is at or under the path `path`.
pub open spec fn deletes_prefix(cmd: WriteCommand, path: String) -> bool {
    cmd matches WriteCommand::DeleteByPrefixes { prefixes } && prefixes@ == seq![path]
}

/// Whether `recs` are the records that the new place of a change gives:
/// those of the walk of a directory, the one record of a file that is
/// indexed, and none otherwise.
pub open spec fn change_records(
    recs: Seq<FileRecord>,
    new_path: Option<ProbedPath>,
    roots: Seq<WatchedRoot>,
    marker: i64,
) -> bool {
    match new_path {
        None => recs.len() == 0,
        Some(p) => match p.state {
            PathState::Directory { entries } => records_of_walk(recs, entries@, None, roots, marker),
            PathState::File { meta } => if file_is_indexed(p.path@, meta, roots) {
                recs.len() == 1 && describes(recs[0], recs[0].root_id, p.path@, meta, marker)
                    && exists|i: int| owns(roots, i, p.path@) && roots[i].root_id == recs[0].root_id
            } else {
                recs.len() == 0
            },
            _ => recs.len() == 0,
        },
    }
}

/// A list that holds the one path.
fn single(path: &String) -> (list: Vec<String>)
    ensures
        list@ == seq![*path],
{
    let mut list: Vec<String> = Vec::new();
    list.push(path.clone());
    assert(list@ =~= seq![*path]);
    list
}

/// The commands that delete what was at the old place of a change. A path
/// that is gone is deleted both as an exact path and as a prefix.
pub fn apply_delete_change(old_path: &ProbedPath) -> (cmds: Vec<WriteCommand>)
    ensures
        are_deletions_of(cmds@, *old_path),
{
    let mut cmds: Vec<WriteCommand> = Vec::new();
    match &old_path.state {
        PathState::Directory { .. } => {
            cmds.push(WriteCommand::DeleteByPrefixes { prefixes: single(&old_path.path) });
        },
        PathState::Missing => {
            cmds.push(WriteCommand::DeletePaths { paths: single(&old_path.path) });
            cmds.push(WriteCommand::DeleteByPrefixes { prefixes: single(&old_path.path) });
        },
        _ => {
            cmds.push(WriteCommand::DeletePaths { paths: single(&old_path.path) });
        },
    }
    cmds
}

impl SearchEngine {
    /// An engine over the index that holds these roots and files, as they
    /// were stored. Fails with a storage error if they make no well formed
    /// index.
    pub fn open(roots: Vec<RootEntry>, files: Vec<FileRecord>, last_root_id: i64) -> (res:
        EngineResult<SearchEngine>)
        ensures
            res is Ok <==> index_of(roots@, files@, last_root_id).wf(),
            res matches Ok(engine) ==> engine@ == index_of(roots@, files@, last_root_id),
            res matches Err(e) ==> e is Storage,
    {
        match Index::from_parts(roots, files, last_root_id) {
            Some(index) => Ok(SearchEngine { index }),
            None => Err(EngineError::Storage { reason: "the stored index is damaged".to_owned() }),
        }
    }

    /// Applies upserts one after the other.
    fn apply_upserts(&mut self, cmds: Vec<WriteCommand>)
        requires
            old(self)@.wf(),
            only_upserts_for(cmds@, old(self)@.roots),
        ensures
            final(self)@.wf(),
            final(self)@.roots == old(self)@.roots,
            final(self)@.last_root_id == old(self)@.last_root_id,
            final(self)@.files == upsert_all(old(self)@.files, upserted_records(cmds@)),
    {
        let ghost all = cmds@;
        let ghost start = self@;
        for cmd in it: cmds
            invariant
                it.seq() == all,
                only_upserts_for(all, start.roots),
                self@.wf(),
                self@.roots == start.roots,
                self@.last_root_id == start.last_root_id,
                self@.files == upsert_all(
                    start.files,
                    upserted_records(all.take(it.index() as int)),
                ),
        {
            let ghost n = it.index() as int;
            proof {
                assert(all.take(n + 1).drop_last() =~= all.take(n));
                assert(all.take(n + 1).last() == cmd);
                assert(all[n] == cmd);
                match all[n] {
                    WriteCommand::UpsertFiles { files } => {
                        lemma_upsert_concat(
                            start.files,
                            upserted_records(all.take(n)),
                            files@,
                        );
                    },
                    _ => {},
                }
            }
            let _ = apply_write_command(&mut self.index, cmd);
        }
        assert(all.take(all.len() as int) =~= all);
    }

    /// Applies one change of a path at once, without waiting for the
    /// watcher: what was at the old place is deleted, then what is at the
    /// new place is indexed under the enabled root that owns it.
    pub fn apply_path_change(
        &mut self,
        old_path: &Option<ProbedPath>,
        new_path: &Option<ProbedPath>,
        marker: i64,
    )
        requires
            old(self)@.wf(),
        ensures
            final(self)@.wf(),
            final(self)@.roots == old(self)@.roots,
            final(self)@.last_root_id == old(self)@.last_root_id,
            exists|recs: Seq<FileRecord>| #[trigger]
                change_records(recs, *new_path, enabled_watched(old(self)@.roots), marker) && final(self)@.files == upsert_all(after_delete(old(self)@.files, *old_path), recs),
    {
        let watched = self.enabled_watched_roots();
        if let Some(o) = old_path {
            let mut cmds = apply_delete_change(o);
            let ghost all = cmds@;
            let second = if cmds.len() == 2 {
                cmds.pop()
            } else {
                None
            };
            let first = cmds.pop();
            assert(first == Some(all[0]));
            if let Some(cmd) = first {
                let _ = apply_write_command(&mut self.index, cmd);
            }
            if let Some(cmd) = second {
                assert(cmd == all[1]);
                let _ = apply_write_command(&mut self.index, cmd);
            }
        }
        assert(self@.files == after_delete(old(self)@.files, *old_path));
        let ghost mid = self@;
        match new_path {
            Some(n) => {
                let cmds = apply_upsert_change(n, &watched, marker);
                let ghost recs = upserted_records(cmds@);
                proof {
                    lemma_upserts_name_roots(cmds@, *n, mid.roots, marker);
                    match n.state {
                        PathState::File { meta } => {
                            if file_is_indexed(n.path@, meta, watched@) {
                                assert(cmds@.drop_last() =~= Seq::<WriteCommand>::empty());
                                match cmds@[0] {
                                    WriteCommand::UpsertFiles { files } => {
                                        assert(cmds@.last() == cmds@[0]);
                                        assert(upserted_records(cmds@.drop_last()).len() == 0);
                                        assert(recs =~= files@);
                                    },
                                    _ => {},
                                }
                            }
                        },
                        _ => {},
                    }
                    assert(change_records(recs, *new_path, watched@, marker));
                }
                self.apply_upserts(cmds);
            },
            None => {
                proof {
                    let recs = Seq::<FileRecord>::empty();
                    assert(change_records(recs, *new_path, watched@, marker));
                    assert(self@.files == upsert_all(mid.files, recs));
                }
            },
        }
    }
}

} // verus!
