//! The program's log: the most recent lines, each with the time at which
//! it was written.

use crate::text::{chars_of, string_of};
use vstd::prelude::*;

verus! {

/// The number of lines that the log keeps.
pub const MAX_ENTRIES: usize = 1000;

/// One line of the log.
#[derive(Debug)]
pub struct LogEntry {
    /// The reading of the clock, in milliseconds, when the line was written.
    pub at: u64,
    /// The text of the line.
    pub line: String,
}

/// The log.
pub struct AppLogger {
    entries: Vec<LogEntry>,
}

/// The line that is logged for a message: the time in brackets, a blank,
/// the message.
pub open spec fn log_line(timestamp: Seq<char>, message: Seq<char>) -> Seq<char> {
    seq!['['] + timestamp + seq![']', ' '] + message
}

/// The entries of `s` that are left when only the last `MAX_ENTRIES` are
/// kept.
pub open spec fn newest(s: Seq<LogEntry>) -> Seq<LogEntry> {
    if s.len() > MAX_ENTRIES {
        s.skip(s.len() - MAX_ENTRIES)
    } else {
        s
    }
}

/// The time before which nothing is recent, for a span of `duration` up to
/// `now`; none if the span reaches back before the clock's start.
pub open spec fn cutoff_of(now: u64, duration: u64) -> Option<u64> {
    if duration <= now {
        Some((now - duration) as u64)
    } else {
        None
    }
}

/// Whether an entry is recent.
pub open spec fn is_recent(cutoff: Option<u64>) -> spec_fn(LogEntry) -> bool {
    |e: LogEntry|
        match cutoff {
            Some(c) => e.at >= c,
            None => true,
        }
}

/// The lines of `entries`, each on a line of its own.
pub open spec fn joined_lines(entries: Seq<LogEntry>) -> Seq<char>
    decreases entries.len(),
{
    if entries.len() == 0 {
        Seq::empty()
    } else {
        let before = joined_lines(entries.drop_last());
        if before.len() > 0 {
            before + seq!['\n'] + entries.last().line@
        } else {
            entries.last().line@
        }
    }
}

impl View for AppLogger {
    type V = Seq<LogEntry>;

    closed spec fn view(&self) -> Seq<LogEntry> {
        self.entries@
    }
}

impl AppLogger {
    /// An empty log.
    pub fn new() -> (log: AppLogger)
        ensures
            log@.len() == 0,
    {
        AppLogger { entries: Vec::new() }
    }

    /// Writes a message to the log and returns the line that was logged. An
    /// empty message is not logged. Only the last `MAX_ENTRIES` lines are
    /// kept. `timestamp` is the time of day as text and `now` the clock's
    /// reading in milliseconds.
    pub fn push(&mut self, message: &str, timestamp: &str, now: u64) -> (line: Option<String>)
        ensures
            message@.len() == 0 ==> line is None && final(self)@ == old(self)@,
            message@.len() > 0 ==> (line matches Some(l) && l@ == log_line(timestamp@, message@)
                && final(self)@ == newest(old(self)@.push(LogEntry { at: now, line: l }))),
    {
        if message.is_empty() {
            return None;
        }
        let mut text: Vec<char> = Vec::new();
        text.push('[');
        let mut stamp = chars_of(timestamp);
        text.append(&mut stamp);
        text.push(']');
        text.push(' ');
        let mut body = chars_of(message);
        text.append(&mut body);
        assert(text@ =~= log_line(timestamp@, message@));
        let line = string_of(&text);
        self.entries.push(LogEntry { at: now, line: line.clone() });
        let ghost pushed = self.entries@;
        let count: usize = self.entries.len();
        assert(pushed.len() == count);
        assert(pushed =~= old(self)@.push(LogEntry { at: now, line }));
        assert(pushed.skip(0) =~= pushed);
        let mut dropped: usize = 0;
        while self.entries.len() > MAX_ENTRIES
            invariant
                pushed.len() <= usize::MAX,
                dropped + self.entries@.len() == pushed.len(),
                self.entries@ == pushed.skip(dropped as int),
                self.entries@.len() >= MAX_ENTRIES || dropped == 0,
            decreases self.entries@.len(),
        {
            let _ = self.entries.remove(0);
            dropped += 1;
            assert(self.entries@ =~= pushed.skip(dropped as int));
        }
        Some(line)
    }

    /// Empties the log.
    pub fn clear(&mut self)
        ensures
            final(self)@.len() == 0,
    {
        self.entries.clear();
    }

    /// Whether the log holds no line.
    pub fn is_empty(&self) -> (r: bool)
        ensures
            r == (self@.len() == 0),
    {
        self.entries.len() == 0
    }

    /// The lines of the log, oldest first.
    pub fn lines(&self) -> (out: Vec<String>)
        ensures
            out@.len() == self@.len(),
            forall|i: int| 0 <= i < out@.len() ==> (#[trigger] out@[i])@ == self@[i].line@,
    {
        let mut out: Vec<String> = Vec::new();
        let mut i: usize = 0;
        while i < self.entries.len()
            invariant
                i <= self.entries.len(),
                out@.len() == i,
                forall|k: int| 0 <= k < i ==> (#[trigger] out@[k])@ == self.entries@[k].line@,
            decreases self.entries.len() - i,
        {
            out.push(self.entries[i].line.clone());
            i += 1;
        }
        out
    }

    /// The lines of the last `duration` milliseconds up to `now`, each on a
    /// line of its own. A span of zero gives nothing.
    pub fn build_recent_snapshot(&self, duration: u64, now: u64) -> (out: String)
        ensures
            duration == 0 ==> out@.len() == 0,
            duration > 0 ==> out@ == joined_lines(self@.filter(is_recent(cutoff_of(now, duration)))),
    {
        if duration == 0 {
            return String::new();
        }
        let cutoff: Option<u64> = if duration <= now {
            Some(now - duration)
        } else {
            None
        };
        let ghost recent = is_recent(cutoff);
        let mut out: Vec<char> = Vec::new();
        let mut i: usize = 0;
        assert(self.entries@.take(0).filter(recent) =~= Seq::<LogEntry>::empty()) by {
            reveal(Seq::filter);
        }
        while i < self.entries.len()
            invariant
                i <= self.entries.len(),
                recent == is_recent(cutoff),
                out@ == joined_lines(self.entries@.take(i as int).filter(recent)),
            decreases self.entries.len() - i,
        {
            let entry = &self.entries[i];
            proof {
                self.entries@.take(i as int).lemma_filter_push(*entry, recent);
                assert(self.entries@.take(i + 1) =~= self.entries@.take(i as int).push(*entry));
            }
            let keep = match cutoff {
                Some(c) => entry.at >= c,
                None => true,
            };
            if keep {
                let ghost kept = self.entries@.take(i as int).filter(recent);
                let ghost before = out@;
                if out.len() > 0 {
                    out.push('\n');
                }
                let mut line = chars_of(entry.line.as_str());
                out.append(&mut line);
                proof {
                    assert(kept.push(*entry).drop_last() =~= kept);
                    if before.len() > 0 {
                        assert(out@ =~= before + seq!['\n'] + entry.line@);
                    } else {
                        assert(out@ =~= entry.line@);
                    }
                }
            }
            i += 1;
        }
        assert(self.entries@.take(self.entries.len() as int) =~= self.entries@);
        string_of(&out)
    }
}

/// Whether the window of the log is shown.
#[derive(Debug)]
pub struct LogUiState {
    pub show_logs: bool,
}

impl LogUiState {
    /// The window of the log is closed at first.
    pub fn new() -> (state: LogUiState)
        ensures
            !state.show_logs,
    {
        LogUiState { show_logs: false }
    }

    /// Opens the window of the log.
    pub fn open_logs(&mut self)
        ensures
            final(self).show_logs,
    {
        self.show_logs = true;
    }
}

} // verus!
