//! The state of the settings window: the form, the state of the two tools
//! that the program sets up, and when that state is looked up again.

use crate::engine::RootCandidate;
use crate::normalize::{absolute_from, normalize_root_path};
use crate::settings::{lines_of, split_lines, SettingsData};
use crate::text::{chars_of, string_of, trim, trim_chars, trimmed};
use crate::watcher::{add_unique, insert_unique};
use vstd::prelude::*;

verus! {

/// A tool that the program sets up.
#[derive(Clone, Copy, Debug)]
pub enum ToolKind {
    YtDlp,
    Deno,
}

/// What is known of a tool.
#[derive(Clone, Debug)]
pub struct ToolState {
    pub version: String,
    pub status: String,
    pub busy: bool,
    pub available: bool,
}

/// The state of a tool as it was found.
#[derive(Clone, Debug)]
pub struct ToolUpdate {
    pub kind: ToolKind,
    pub state: ToolState,
}

/// What can be done with a tool.
#[derive(Clone, Copy, Debug)]
pub enum ToolAction {
    Install,
    Update,
}

/// The form of the settings window.
#[derive(Clone, Debug)]
pub struct SettingsForm {
    pub data: SettingsData,
    pub error: Option<String>,
}

/// The time, in milliseconds, after which the state of the tools is looked
/// up again while a tool is missing.
pub const AUTO_REFRESH_MILLIS: u64 = 5000;

/// The state of the settings window.
#[derive(Debug)]
pub struct SettingsUiState {
    pub show_settings: bool,
    pub show_initial_setup: bool,
    pub form: SettingsForm,
    pub yt_dlp: ToolState,
    pub deno: ToolState,
    /// The reading of the clock, in milliseconds, at the last look-up that
    /// was started by itself.
    pub last_auto_refresh: u64,
}

/// The text that is shown while an action runs.
pub open spec fn action_text(action: ToolAction, label: Seq<char>) -> Seq<char> {
    match action {
        ToolAction::Install => label + "をセットアップ中..."@,
        ToolAction::Update => label + "を更新中..."@,
    }
}

impl ToolAction {
    /// The text that is shown while the action runs on the tool `label`.
    pub fn status_text(self, label: &str) -> (text: String)
        ensures
            text@ == action_text(self, label@),
    {
        let mut out = chars_of(label);
        let mut rest = match self {
            ToolAction::Install => chars_of("をセットアップ中..."),
            ToolAction::Update => chars_of("を更新中..."),
        };
        out.append(&mut rest);
        string_of(&out)
    }

    /// The text of the button that starts the action.
    pub fn button_text(self) -> (text: String)
        ensures
            text@ == match self {
                ToolAction::Install => "自動セットアップ"@,
                ToolAction::Update => "最新を取得"@,
            },
    {
        match self {
            ToolAction::Install => "自動セットアップ".to_owned(),
            ToolAction::Update => "最新を取得".to_owned(),
        }
    }
}

/// The first line of `text`, trimmed.
pub open spec fn first_line(text: Seq<char>) -> Seq<char> {
    trimmed(lines_of(text)[0])
}

/// The version that a tool reported: the first line of its output, or of
/// its error output if that line is blank; none if both are blank.
pub open spec fn reported_version(stdout: Seq<char>, stderr: Seq<char>) -> Option<Seq<char>> {
    if first_line(stdout).len() > 0 {
        Some(first_line(stdout))
    } else if first_line(stderr).len() > 0 {
        Some(first_line(stderr))
    } else {
        None
    }
}

/// The first line of a text, trimmed.
fn read_first_line(text: &str) -> (line: Vec<char>)
    ensures
        line@ == first_line(text@),
{
    let lines = split_lines(&chars_of(text));
    proof {
        crate::settings::lemma_lines_nonempty(text@);
    }
    trim_chars(&lines[0])
}

/// The version that a tool reported when it was asked for it.
pub fn read_tool_version(stdout: &str, stderr: &str) -> (version: Option<String>)
    ensures
        crate::pathkey::opt_view(version) == reported_version(stdout@, stderr@),
{
    let first = read_first_line(stdout);
    if first.len() > 0 {
        return Some(string_of(&first));
    }
    let second = read_first_line(stderr);
    if second.len() > 0 {
        return Some(string_of(&second));
    }
    None
}

impl ToolState {
    /// The state of a tool before its version was asked for: whether it is
    /// there and can be run is all that is known.
    pub fn from_disk(available: bool) -> (state: ToolState)
        ensures
            state.available == available,
            !state.busy,
            available ==> state.version@ == "確認中..."@ && state.status@ == "バージョンを確認中..."@,
            !available ==> state.version@ == "未インストール"@ && state.status@ == "未インストール"@,
    {
        if available {
            ToolState {
                version: "確認中...".to_owned(),
                status: "バージョンを確認中...".to_owned(),
                busy: false,
                available,
            }
        } else {
            ToolState {
                version: "未インストール".to_owned(),
                status: "未インストール".to_owned(),
                busy: false,
                available,
            }
        }
    }

    /// The state of a tool after a look-up: `exists` and `executable` say
    /// what was found on disk, `version` what the tool reported, if it
    /// could be asked.
    pub fn check(exists: bool, executable: bool, version: Option<String>) -> (state: ToolState)
        ensures
            !state.busy,
            state.available == (exists && executable),
            !exists ==> state.version@ == "未インストール"@ && state.status@ == "未インストール"@,
            exists && !executable ==> state.version@ == "権限不足"@ && state.status@
                == "実行権限がありません。"@,
            exists && executable ==> match version {
                Some(v) => state.version@ == v@ && (if v@ == "不明"@ {
                    state.status@ == "バージョン取得に失敗しました。"@
                } else {
                    state.status@ == "準備完了"@
                }),
                None => state.version@ == "不明"@ && state.status@ == "バージョン取得に失敗しました。"@,
            },
    {
        if !exists {
            return ToolState {
                version: "未インストール".to_owned(),
                status: "未インストール".to_owned(),
                busy: false,
                available: false,
            };
        }
        if !executable {
            return ToolState {
                version: "権限不足".to_owned(),
                status: "実行権限がありません。".to_owned(),
                busy: false,
                available: false,
            };
        }
        let version = match version {
            Some(v) => v,
            None => "不明".to_owned(),
        };
        let unknown = "不明".to_owned();
        let status = if version == unknown {
            "バージョン取得に失敗しました。".to_owned()
        } else {
            "準備完了".to_owned()
        };
        ToolState { version, status, busy: false, available: true }
    }
}

/// The text that is shown when setting a tool up failed.
pub open spec fn failure_text(err: Seq<char>) -> Seq<char> {
    "セットアップに失敗しました: "@ + err
}

/// The state of a tool after an action on it failed.
pub fn with_failure(state: ToolState, err: &str) -> (out: ToolState)
    ensures
        out.version == state.version,
        out.busy == state.busy,
        out.available == state.available,
        out.status@ == failure_text(err@),
{
    let mut text = chars_of("セットアップに失敗しました: ");
    let mut rest = chars_of(err);
    text.append(&mut rest);
    ToolState {
        version: state.version,
        status: string_of(&text),
        busy: state.busy,
        available: state.available,
    }
}

/// The name under which a tool is shown.
pub open spec fn tool_label(kind: ToolKind) -> Seq<char> {
    match kind {
        ToolKind::YtDlp => "yt-dlp"@,
        ToolKind::Deno => "Deno"@,
    }
}

/// The text that is shown while a tool is looked up.
pub open spec fn checking_text(kind: ToolKind) -> Seq<char> {
    match kind {
        ToolKind::YtDlp => "yt-dlpの状態を確認中..."@,
        ToolKind::Deno => "Denoの状態を確認中..."@,
    }
}

/// Whether the state of the window was built from these parts and both
/// tools are being looked up.
pub open spec fn is_refreshing(state: SettingsUiState) -> bool {
    &&& state.yt_dlp.busy
    &&& state.deno.busy
    &&& state.yt_dlp.status@ == checking_text(ToolKind::YtDlp)
    &&& state.deno.status@ == checking_text(ToolKind::Deno)
}

impl SettingsUiState {
    /// The state at the start of the program. The first set-up is offered if
    /// the downloader is missing. Both tools are to be looked up at once.
    pub fn new(yt_dlp_available: bool, deno_available: bool, data: SettingsData, now: u64) -> (state:
        SettingsUiState)
        ensures
            !state.show_settings,
            state.show_initial_setup == !yt_dlp_available,
            state.form.data == data,
            state.form.error is None,
            state.yt_dlp.available == yt_dlp_available,
            state.deno.available == deno_available,
            is_refreshing(state),
            state.last_auto_refresh == if now >= 10000 {
                (now - 10000) as u64
            } else {
                0u64
            },
    {
        let mut state = SettingsUiState {
            show_settings: false,
            show_initial_setup: !yt_dlp_available,
            form: SettingsForm { data, error: None },
            yt_dlp: ToolState::from_disk(yt_dlp_available),
            deno: ToolState::from_disk(deno_available),
            last_auto_refresh: if now >= 10000 {
                now - 10000
            } else {
                0
            },
        };
        state.refresh_all_tools();
        state
    }

    /// Opens the settings window with the settings as they are stored. Both
    /// tools are to be looked up.
    pub fn open_settings(&mut self, data: SettingsData)
        ensures
            final(self).show_settings,
            final(self).show_initial_setup == old(self).show_initial_setup,
            final(self).form.data == data,
            final(self).form.error is None,
            final(self).last_auto_refresh == old(self).last_auto_refresh,
            final(self).yt_dlp.available == old(self).yt_dlp.available,
            final(self).deno.available == old(self).deno.available,
            is_refreshing(*final(self)),
    {
        self.form = SettingsForm { data, error: None };
        self.show_settings = true;
        self.refresh_all_tools();
    }

    /// Opens the window of the first set-up. Both tools are to be looked
    /// up.
    pub fn open_initial_setup(&mut self)
        ensures
            final(self).show_initial_setup,
            final(self).show_settings == old(self).show_settings,
            final(self).form == old(self).form,
            final(self).last_auto_refresh == old(self).last_auto_refresh,
            is_refreshing(*final(self)),
    {
        self.show_initial_setup = true;
        self.refresh_all_tools();
    }

    /// Takes over the states of the tools that look-ups have found, in the
    /// order in which they came.
    pub fn poll_tool_updates(&mut self, updates: Vec<ToolUpdate>)
        ensures
            final(self).show_settings == old(self).show_settings,
            final(self).show_initial_setup == old(self).show_initial_setup,
            final(self).form == old(self).form,
            final(self).last_auto_refresh == old(self).last_auto_refresh,
            final(self).yt_dlp == last_state(updates@, ToolKind::YtDlp, old(self).yt_dlp),
            final(self).deno == last_state(updates@, ToolKind::Deno, old(self).deno),
    {
        let ghost all = updates@;
        for update in it: updates
            invariant
                it.seq() == all,
                self.show_settings == old(self).show_settings,
                self.show_initial_setup == old(self).show_initial_setup,
                self.form == old(self).form,
                self.last_auto_refresh == old(self).last_auto_refresh,
                self.yt_dlp == last_state(
                    all.take(it.index() as int),
                    ToolKind::YtDlp,
                    old(self).yt_dlp,
                ),
                self.deno == last_state(all.take(it.index() as int), ToolKind::Deno, old(self).deno),
        {
            proof {
                assert(all.take(it.index() + 1).drop_last() =~= all.take(it.index() as int));
                assert(all.take(it.index() + 1).last() == update);
            }
            match update.kind {
                ToolKind::YtDlp => {
                    self.yt_dlp = update.state;
                },
                ToolKind::Deno => {
                    self.deno = update.state;
                },
            }
        }
        assert(all.take(all.len() as int) =~= all);
    }

    /// Starts a look-up of both tools by itself where one is due: a tool is
    /// missing, none is busy, and the last such look-up is
    /// `AUTO_REFRESH_MILLIS` ago. Returns whether a look-up is to be started.
    pub fn auto_refresh_if_needed(&mut self, now: u64) -> (started: bool)
        ensures
            started == refresh_is_due(*old(self), now),
            !started ==> *final(self) == *old(self),
            started ==> is_refreshing(*final(self)) && final(self).last_auto_refresh == now
                && final(self).show_settings == old(self).show_settings && final(self).show_initial_setup == old(self).show_initial_setup && final(self).form == old(self).form,
    {
        if (self.yt_dlp.available && self.deno.available) || self.yt_dlp.busy || self.deno.busy {
            return false;
        }
        let elapsed: u64 = if now >= self.last_auto_refresh {
            now - self.last_auto_refresh
        } else {
            0
        };
        if elapsed >= AUTO_REFRESH_MILLIS {
            self.refresh_all_tools();
            self.last_auto_refresh = now;
            return true;
        }
        false
    }

    /// Marks both tools as being looked up.
    pub fn refresh_all_tools(&mut self)
        ensures
            is_refreshing(*final(self)),
            final(self).show_settings == old(self).show_settings,
            final(self).show_initial_setup == old(self).show_initial_setup,
            final(self).form == old(self).form,
            final(self).last_auto_refresh == old(self).last_auto_refresh,
            final(self).yt_dlp.available == old(self).yt_dlp.available,
            final(self).deno.available == old(self).deno.available,
            final(self).yt_dlp.version == old(self).yt_dlp.version,
            final(self).deno.version == old(self).deno.version,
    {
        self.refresh_tool(ToolKind::YtDlp);
        self.refresh_tool(ToolKind::Deno);
    }

    /// Marks a tool as being looked up.
    pub fn refresh_tool(&mut self, kind: ToolKind)
        ensures
            final(self).show_settings == old(self).show_settings,
            final(self).show_initial_setup == old(self).show_initial_setup,
            final(self).form == old(self).form,
            final(self).last_auto_refresh == old(self).last_auto_refresh,
            kind is YtDlp ==> final(self).deno == old(self).deno && final(self).yt_dlp.busy
                && final(self).yt_dlp.status@ == checking_text(kind) && final(self).yt_dlp.available == old(self).yt_dlp.available && final(self).yt_dlp.version == old(self).yt_dlp.version,
            kind is Deno ==> final(self).yt_dlp == old(self).yt_dlp && final(self).deno.busy
                && final(self).deno.status@ == checking_text(kind) && final(self).deno.available
                == old(self).deno.available && final(self).deno.version == old(self).deno.version,
    {
        match kind {
            ToolKind::YtDlp => {
                self.yt_dlp.busy = true;
                self.yt_dlp.status = "yt-dlpの状態を確認中...".to_owned();
            },
            ToolKind::Deno => {
                self.deno.busy = true;
                self.deno.status = "Denoの状態を確認中...".to_owned();
            },
        }
    }

    /// Marks a tool as busy with an action.
    pub fn start_tool_action(&mut self, kind: ToolKind, action: ToolAction)
        ensures
            final(self).show_settings == old(self).show_settings,
            final(self).show_initial_setup == old(self).show_initial_setup,
            final(self).form == old(self).form,
            final(self).last_auto_refresh == old(self).last_auto_refresh,
            kind is YtDlp ==> final(self).deno == old(self).deno && final(self).yt_dlp.busy
                && final(self).yt_dlp.status@ == action_text(action, tool_label(kind)),
            kind is Deno ==> final(self).yt_dlp == old(self).yt_dlp && final(self).deno.busy
                && final(self).deno.status@ == action_text(action, tool_label(kind)),
    {
        match kind {
            ToolKind::YtDlp => {
                self.yt_dlp.busy = true;
                self.yt_dlp.status = action.status_text("yt-dlp");
            },
            ToolKind::Deno => {
                self.deno.busy = true;
                self.deno.status = action.status_text("Deno");
            },
        }
    }
}

/// The state of the tool `kind` after the updates: that of the last update
/// for it, or `start` if there is none.
pub open spec fn last_state(updates: Seq<ToolUpdate>, kind: ToolKind, start: ToolState) -> ToolState
    decreases updates.len(),
{
    if updates.len() == 0 {
        start
    } else if same_kind(updates.last().kind, kind) {
        updates.last().state
    } else {
        last_state(updates.drop_last(), kind, start)
    }
}

/// Whether two kinds are the same tool.
pub open spec fn same_kind(a: ToolKind, b: ToolKind) -> bool {
    (a is YtDlp && b is YtDlp) || (a is Deno && b is Deno)
}

/// Whether a look-up is to be started by itself.
pub open spec fn refresh_is_due(state: SettingsUiState, now: u64) -> bool {
    &&& !(state.yt_dlp.available && state.deno.available)
    &&& !state.yt_dlp.busy
    &&& !state.deno.busy
    &&& now >= state.last_auto_refresh && now - state.last_auto_refresh >= AUTO_REFRESH_MILLIS
}

/// The inputs of the search roots that name something: each trimmed and
/// made absolute, the blank ones left out.
pub open spec fn root_inputs(roots: Seq<String>, current_dir: Seq<char>) -> Seq<Seq<char>> {
    roots.filter(|r: String| trimmed(r@).len() > 0).map_values(
        |r: String| absolute_from(trimmed(r@), current_dir),
    )
}

/// The paths that the inputs of the search roots name, before they are
/// looked at on disk.
pub fn search_root_inputs(roots: &Vec<String>, current_dir: &str) -> (out: Vec<String>)
    ensures
        out@.map_values(|s: String| s@) == root_inputs(roots@, current_dir@),
{
    let ghost keep = |r: String| trimmed(r@).len() > 0;
    let ghost to_path = |r: String| absolute_from(trimmed(r@), current_dir@);
    let ghost view = |s: String| s@;
    let mut out: Vec<String> = Vec::new();
    let mut i: usize = 0;
    assert(roots@.take(0).filter(keep) =~= Seq::<String>::empty()) by {
        reveal(Seq::filter);
    }
    assert(out@.map_values(view) =~= roots@.take(0).filter(keep).map_values(to_path));
    while i < roots.len()
        invariant
            i <= roots.len(),
            keep == (|r: String| trimmed(r@).len() > 0),
            to_path == (|r: String| absolute_from(trimmed(r@), current_dir@)),
            view == (|s: String| s@),
            out@.map_values(view) == roots@.take(i as int).filter(keep).map_values(to_path),
        decreases roots.len() - i,
    {
        proof {
            roots@.take(i as int).lemma_filter_push(roots@[i as int], keep);
            assert(roots@.take(i + 1) =~= roots@.take(i as int).push(roots@[i as int]));
        }
        let t = trim(roots[i].as_str());
        if !t.as_str().is_empty() {
            let ghost before = out@.map_values(view);
            out.push(normalize_root_path(t.as_str(), current_dir));
            assert(out@.map_values(view) =~= before.push(to_path(roots@[i as int])));
            assert(out@.map_values(view) =~= roots@.take(i + 1).filter(keep).map_values(to_path));
        }
        i += 1;
    }
    assert(roots@.take(roots.len() as int) =~= roots@);
    out
}

/// The text that tells that a search root is no directory.
pub open spec fn not_a_directory_text(path: Seq<char>) -> Seq<char> {
    "検索対象フォルダがディレクトリではありません: "@ + path
}

/// The paths of `candidates` up to, not including, position `n`, each once.
pub open spec fn unique_paths(candidates: Seq<RootCandidate>, n: int) -> Seq<String>
    decreases n,
{
    if n <= 0 {
        Seq::empty()
    } else {
        add_unique(unique_paths(candidates, n - 1), candidates[n - 1].path)
    }
}

/// The search roots as they are stored: each path once, in the order of
/// the inputs. Fails with a text that names the first path that is no
/// directory.
pub fn normalize_search_roots(candidates: &Vec<RootCandidate>) -> (res: Result<Vec<String>, String>)
    ensures
        match res {
            Ok(out) => crate::engine::all_dirs(candidates@) && out@ == unique_paths(
                candidates@,
                candidates@.len() as int,
            ),
            Err(text) => exists|i: int|
                crate::engine::first_invalid(candidates@, i) && text@ == not_a_directory_text(
                    (#[trigger] candidates@[i]).path@,
                ),
        },
{
    let mut out: Vec<String> = Vec::new();
    let mut i: usize = 0;
    while i < candidates.len()
        invariant
            i <= candidates.len(),
            forall|j: int| 0 <= j < i ==> (#[trigger] candidates@[j]).is_dir,
            out@ == unique_paths(candidates@, i as int),
        decreases candidates.len() - i,
    {
        if !candidates[i].is_dir {
            let mut text = chars_of("検索対象フォルダがディレクトリではありません: ");
            let mut rest = chars_of(candidates[i].path.as_str());
            text.append(&mut rest);
            assert(crate::engine::first_invalid(candidates@, i as int));
            return Err(string_of(&text));
        }
        insert_unique(&mut out, candidates[i].path.clone());
        i += 1;
    }
    Ok(out)
}

} // verus!
