//! The state of the main window that does not depend on how it is drawn:
//! the input mode that was last seen, the search panel with its requests
//! and results, the processes of a download, and the order of the list of
//! downloads.

use crate::normalize::{lowercase_of, to_lowercase};
use crate::records::{SearchHit, SearchRequest, SearchSort};
use crate::text::{chars_eq, chars_of, contains, has_substring, string_of, trim_chars, trimmed};
use vstd::prelude::*;

verus! {

/// The kind of keyboard input that is active.
#[derive(Clone, Debug)]
pub enum InputMode {
    Japanese,
    English,
    Other(String),
}

/// What the system tells of the active input source.
#[derive(Debug)]
pub struct InputSource {
    pub source_id: String,
    pub localized_name: String,
    pub ascii_capable: bool,
}

/// Whether an input source is one for Japanese.
pub open spec fn is_japanese_source(source: InputSource) -> bool {
    let id = lowercase_of(source.source_id@);
    let name = lowercase_of(source.localized_name@);
    has_substring(id, "kotoeri"@) || has_substring(id, "japanese"@) || has_substring(
        source.localized_name@,
        "日本語"@,
    ) || has_substring(name, "hiragana"@) || has_substring(name, "katakana"@)
}

/// Whether an input source is one for plain letters.
pub open spec fn is_english_source(source: InputSource) -> bool {
    let id = lowercase_of(source.source_id@);
    let name = lowercase_of(source.localized_name@);
    has_substring(id, ".abc"@) || source.localized_name@ == "ABC"@ || (source.ascii_capable
        && has_substring(id, ".us"@)) || (source.ascii_capable && name == "us"@)
}

/// The name under which an input source of another kind is shown: its
/// localized name, else its id, else `unknown`.
pub open spec fn other_name(source: InputSource) -> Seq<char> {
    if source.localized_name@.len() > 0 {
        source.localized_name@
    } else if source.source_id@.len() > 0 {
        source.source_id@
    } else {
        "unknown"@
    }
}

/// Whether a text holds another.
fn holds(text: &str, part: &str) -> (r: bool)
    ensures
        r == has_substring(text@, part@),
{
    contains(&chars_of(text), &chars_of(part))
}

/// The kind of keyboard input that an input source stands for.
pub fn classify_input_source(source: &InputSource) -> (mode: InputMode)
    ensures
        is_japanese_source(*source) ==> mode is Japanese,
        !is_japanese_source(*source) && is_english_source(*source) ==> mode is English,
        !is_japanese_source(*source) && !is_english_source(*source) ==> (
        mode matches InputMode::Other(name) && name@ == other_name(*source)),
{
    let id = to_lowercase(source.source_id.as_str());
    let name = to_lowercase(source.localized_name.as_str());
    if holds(id.as_str(), "kotoeri") || holds(id.as_str(), "japanese") || holds(
        source.localized_name.as_str(),
        "日本語",
    ) || holds(name.as_str(), "hiragana") || holds(name.as_str(), "katakana") {
        return InputMode::Japanese;
    }
    let abc = chars_eq(&chars_of(source.localized_name.as_str()), &chars_of("ABC"));
    let us = chars_eq(&chars_of(name.as_str()), &chars_of("us"));
    if holds(id.as_str(), ".abc") || abc || (source.ascii_capable && holds(id.as_str(), ".us")) || (
    source.ascii_capable && us) {
        return InputMode::English;
    }
    if !source.localized_name.as_str().is_empty() {
        InputMode::Other(source.localized_name.clone())
    } else if !source.source_id.as_str().is_empty() {
        InputMode::Other(source.source_id.clone())
    } else {
        InputMode::Other("unknown".to_owned())
    }
}

/// Whether two input modes are the same.
pub open spec fn same_mode(a: InputMode, b: InputMode) -> bool {
    match (a, b) {
        (InputMode::Japanese, InputMode::Japanese) => true,
        (InputMode::English, InputMode::English) => true,
        (InputMode::Other(x), InputMode::Other(y)) => x@ == y@,
        _ => false,
    }
}

/// Whether two input modes are the same.
pub fn is_same_mode(a: &InputMode, b: &InputMode) -> (r: bool)
    ensures
        r == same_mode(*a, *b),
{
    match (a, b) {
        (InputMode::Japanese, InputMode::Japanese) => true,
        (InputMode::English, InputMode::English) => true,
        (InputMode::Other(x), InputMode::Other(y)) => *x == *y,
        _ => false,
    }
}

/// The text that tells of a change to an input mode.
pub open spec fn mode_text(mode: InputMode) -> Seq<char> {
    match mode {
        InputMode::Japanese => "日本語になりました"@,
        InputMode::English => "英字になりました"@,
        InputMode::Other(name) => "入力ソースが変更されました: "@ + name@,
    }
}

/// Notes the input mode that is active now. Returns the text that tells of
/// the change, if the mode is another than the one that was noted last;
/// the first mode that is seen is noted without a word.
pub fn poll_input_mode_change(last: &mut Option<InputMode>, mode: InputMode) -> (message: Option<
    String,
>)
    ensures
        *final(last) == Some(mode) || (*old(last) matches Some(l) && same_mode(l, mode) && *final(last) == *old(last)),
        match *old(last) {
            None => message is None,
            Some(l) => if same_mode(l, mode) {
                message is None
            } else {
                message matches Some(text) && text@ == mode_text(mode)
            },
        },
{
    let changed = match last {
        None => {
            *last = Some(mode);
            return None;
        },
        Some(l) => !is_same_mode(l, &mode),
    };
    if !changed {
        return None;
    }
    let text = match &mode {
        InputMode::Japanese => "日本語になりました".to_owned(),
        InputMode::English => "英字になりました".to_owned(),
        InputMode::Other(name) => {
            let mut out = chars_of("入力ソースが変更されました: ");
            let mut rest = chars_of(name.as_str());
            out.append(&mut rest);
            string_of(&out)
        },
    };
    *last = Some(mode);
    Some(text)
}

/// A search that the worker is asked to run.
#[derive(Debug)]
pub struct SearchJob {
    pub seq: u64,
    pub request: SearchRequest,
}

/// What the worker found for a job.
#[derive(Debug)]
pub struct SearchJobResult {
    pub seq: u64,
    pub result: Result<Vec<SearchHit>, String>,
}

/// The number of hits that the search panel asks for.
pub const PANEL_LIMIT: usize = 200;

/// The search panel.
#[derive(Debug)]
pub struct SearchPanel {
    pub query: String,
    /// Whether the query changed since it was last submitted.
    pub dirty: bool,
    /// The number of the last job that was submitted.
    pub request_seq: u64,
    /// The number of the job whose result is shown.
    pub applied_seq: u64,
    pub results: Vec<SearchHit>,
    pub error: Option<String>,
}

/// The job that the worker runs of those that wait: the last one.
pub fn latest_job(jobs: Vec<SearchJob>) -> (job: Option<SearchJob>)
    ensures
        jobs@.len() == 0 ==> job is None,
        jobs@.len() > 0 ==> job == Some(jobs@.last()),
{
    let mut jobs = jobs;
    jobs.pop()
}

impl SearchPanel {
    /// A panel with an empty query.
    pub fn new() -> (panel: SearchPanel)
        ensures
            panel.query@.len() == 0,
            !panel.dirty,
            panel.request_seq == 0,
            panel.applied_seq == 0,
            panel.results@.len() == 0,
            panel.error is None,
    {
        SearchPanel {
            query: String::new(),
            dirty: false,
            request_seq: 0,
            applied_seq: 0,
            results: Vec::new(),
            error: None,
        }
    }

    /// Notes that the query changed.
    pub fn mark_search_dirty(&mut self)
        ensures
            final(self).dirty,
            final(self).query == old(self).query,
            final(self).request_seq == old(self).request_seq,
            final(self).applied_seq == old(self).applied_seq,
            final(self).results == old(self).results,
            final(self).error == old(self).error,
    {
        self.dirty = true;
    }

    /// Submits the query if it changed. A blank query clears the results,
    /// and the error too unless `lasting_error` says that the engine is
    /// missing or the roots could not be set. A query with text gives the
    /// next job, by name, if the worker is there. The caller hands the job
    /// to the worker and reports with `job_sent` how that went.
    pub fn submit_search_if_needed(&mut self, lasting_error: bool, worker_up: bool) -> (job: Option<
        SearchJob,
    >)
        ensures
            final(self).query == old(self).query,
            final(self).applied_seq == old(self).applied_seq,
            !old(self).dirty ==> job is None && *final(self) == *old(self),
            old(self).dirty && trimmed(old(self).query@).len() == 0 ==> job is None && !final(self).dirty && final(self).results@.len() == 0 && final(self).request_seq == old(self).request_seq && final(self).error == (if lasting_error {
                old(self).error
            } else {
                None
            }),
            old(self).dirty && trimmed(old(self).query@).len() > 0 && !worker_up ==> job is None
                && *final(self) == *old(self),
            old(self).dirty && trimmed(old(self).query@).len() > 0 && worker_up ==> (
            job matches Some(j) && j.seq == final(self).request_seq && final(self).request_seq
                == (if old(self).request_seq == u64::MAX {
                u64::MAX
            } else {
                (old(self).request_seq + 1) as u64
            }) && j.request.query@ == old(self).query@ && j.request.limit == PANEL_LIMIT
                && j.request.sort is NameAsc && j.request.root_id is None
                && j.request.root_path is None && j.request.parent_dir is None
                && j.request.modified_after is None && j.request.modified_before is None
                && j.request.size_min is None && j.request.size_max is None && final(self).dirty
                && final(self).results == old(self).results && final(self).error == old(self).error),
    {
        if !self.dirty {
            return None;
        }
        if trim_chars(&chars_of(self.query.as_str())).len() == 0 {
            self.results.clear();
            if !lasting_error {
                self.error = None;
            }
            self.dirty = false;
            return None;
        }
        if !worker_up {
            return None;
        }
        if self.request_seq < u64::MAX {
            self.request_seq = self.request_seq + 1;
        }
        let request = SearchRequest {
            query: self.query.clone(),
            root_id: None,
            root_path: None,
            parent_dir: None,
            modified_after: None,
            modified_before: None,
            size_min: None,
            size_max: None,
            limit: PANEL_LIMIT,
            sort: SearchSort::NameAsc,
        };
        Some(SearchJob { seq: self.request_seq, request })
    }

    /// Notes whether the job that was submitted reached the worker.
    pub fn job_sent(&mut self, delivered: bool)
        ensures
            final(self).query == old(self).query,
            final(self).request_seq == old(self).request_seq,
            final(self).applied_seq == old(self).applied_seq,
            final(self).results == old(self).results,
            delivered ==> !final(self).dirty && final(self).error == old(self).error,
            !delivered ==> final(self).dirty == old(self).dirty && (
            final(self).error matches Some(text) && text@
                == "検索ワーカーにリクエストを送信できませんでした。"@),
    {
        if delivered {
            self.dirty = false;
        } else {
            self.error = Some("検索ワーカーにリクエストを送信できませんでした。".to_owned());
        }
    }

    /// Takes over the last of the results that came in, unless it is older
    /// than the one that is shown.
    pub fn poll_search_results(&mut self, incoming: Vec<SearchJobResult>)
        ensures
            final(self).query == old(self).query,
            final(self).dirty == old(self).dirty,
            final(self).request_seq == old(self).request_seq,
            incoming@.len() == 0 || incoming@.last().seq < old(self).applied_seq ==> *final(self)
                == *old(self),
            incoming@.len() > 0 && incoming@.last().seq >= old(self).applied_seq ==> final(self).applied_seq == incoming@.last().seq && match incoming@.last().result {
                Ok(hits) => final(self).results == hits && final(self).error is None,
                Err(err) => final(self).results@.len() == 0 && final(self).error == Some(err),
            },
    {
        let mut incoming = incoming;
        let latest = match incoming.pop() {
            Some(r) => r,
            None => {
                return ;
            },
        };
        if latest.seq < self.applied_seq {
            return ;
        }
        self.applied_seq = latest.seq;
        match latest.result {
            Ok(hits) => {
                self.results = hits;
                self.error = None;
            },
            Err(err) => {
                self.results.clear();
                self.error = Some(err);
            },
        }
    }
}

/// The processes that a download has started.
#[derive(Debug)]
pub struct ProcessTracker {
    pids: Vec<u32>,
}

impl View for ProcessTracker {
    type V = Seq<u32>;

    closed spec fn view(&self) -> Seq<u32> {
        self.pids@
    }
}

impl ProcessTracker {
    /// No process yet.
    pub fn new() -> (tracker: ProcessTracker)
        ensures
            tracker@.len() == 0,
    {
        ProcessTracker { pids: Vec::new() }
    }

    /// Notes a process by its id. The id 0 stands for no process and is not
    /// noted; an id is noted once.
    pub fn register(&mut self, pid: u32)
        ensures
            pid == 0 || old(self)@.contains(pid) ==> final(self)@ == old(self)@,
            pid != 0 && !old(self)@.contains(pid) ==> final(self)@ == old(self)@.push(pid),
    {
        if pid == 0 {
            return ;
        }
        let mut i: usize = 0;
        while i < self.pids.len()
            invariant
                i <= self.pids.len(),
                self.pids@ == old(self).pids@,
                forall|k: int| 0 <= k < i ==> self.pids@[k] != pid,
            decreases self.pids.len() - i,
        {
            if self.pids[i] == pid {
                return ;
            }
            i += 1;
        }
        self.pids.push(pid);
    }

    /// The ids of the processes that are to be ended, in the order in
    /// which they were noted.
    pub fn terminate_all(&self) -> (pids: Vec<u32>)
        ensures
            pids@ == self@,
    {
        self.pids.clone()
    }
}

/// The mode of a file that everybody may run: the mode with the three
/// bits for running set.
pub open spec fn runnable_mode(mode: u32) -> u32 {
    mode | 0o111
}

/// The mode that a tool has to be given so that it can be run; none if it
/// can be run as it is.
pub fn ensure_executable(mode: u32) -> (r: Option<u32>)
    ensures
        mode & 0o111 == 0o111 ==> r is None,
        mode & 0o111 != 0o111 ==> r == Some(runnable_mode(mode)),
{
    if mode & 0o111 != 0o111 {
        Some(mode | 0o111)
    } else {
        None
    }
}

/// Whether a bundled tool has to be written: it is not there, or it has
/// another size than the one that is bundled.
pub fn ensure_bundled_bin(found_len: Option<u64>, bundled_len: usize) -> (write: bool)
    ensures
        write == match found_len {
            Some(n) => n != bundled_len as u64,
            None => true,
        },
{
    match found_len {
        Some(n) => n != bundled_len as u64,
        None => true,
    }
}

} // verus!
