use vjdownloader::app_logger::{AppLogger, LogUiState, MAX_ENTRIES};
use vjdownloader::engine::RootCandidate;
use vjdownloader::paths::{
    app_data_dir, bin_dir, default_download_dir, deno_path, ffmpeg_path, ffprobe_path, home_base,
    make_absolute_path, resolve_tool_path, search_index_db_path, settings_dir,
    settings_file_path, yt_dlp_path,
};
use vjdownloader::settings::{
    decode_path_list, encode_path_list, load_cookie_args, normalize_dir, parse_bool,
    parse_properties, property, save_settings, Dimensions, SettingsData,
};
use vjdownloader::settings_ui::{
    normalize_search_roots, read_tool_version, search_root_inputs, with_failure, SettingsUiState,
    ToolAction, ToolKind, ToolState, ToolUpdate,
};

fn sizes() -> Dimensions {
    Dimensions {
        window_width: "860".to_string(),
        window_height: "1000".to_string(),
        download_panel_width: "430".to_string(),
        search_panel_width: "430.5".to_string(),
    }
}

fn pairs(props: &Vec<(String, String)>) -> Vec<(&str, &str)> {
    props.iter().map(|p| (p.0.as_str(), p.1.as_str())).collect()
}

#[test]
fn properties_are_read_line_by_line() {
    let text = "# comment\n! another\n\n  window.width = 900 \r\nkey:value=with:more\nnovalue\n=nokey\n  :x\nlast=1";
    let props = parse_properties(text);
    assert_eq!(
        pairs(&props),
        vec![("window.width", "900"), ("key", "value=with:more"), ("novalue", ""), ("last", "1")]
    );
    assert!(parse_properties("").is_empty());
    assert!(parse_properties("\n\n").is_empty());
    let twice = parse_properties("a=1\nb=2\na=3");
    assert_eq!(property(&twice, "a").as_deref(), Some("3"));
    assert_eq!(property(&twice, "b").as_deref(), Some("2"));
    assert_eq!(property(&twice, "c"), None);
}

#[test]
fn switches_read_true_in_any_case() {
    assert!(parse_bool(" TRUE ", false));
    assert!(parse_bool("true", false));
    assert!(!parse_bool("yes", true));
    assert!(!parse_bool("false", true));
    assert!(parse_bool("  ", true));
    assert!(!parse_bool("", false));
}

#[test]
fn path_lists_escape_bars_and_backslashes() {
    let paths = vec!["/a|b".to_string(), "C:\\x".to_string(), "/plain".to_string()];
    let text = encode_path_list(&paths);
    assert_eq!(text, "/a\\|b|C:\\\\x|/plain");
    assert_eq!(decode_path_list(&text), paths);
    assert_eq!(encode_path_list(&Vec::new()), "");
    assert_eq!(encode_path_list(&vec!["one".to_string()]), "one");
    assert_eq!(decode_path_list(" /a | |/b|"), vec!["/a", "/b"]);
    assert!(decode_path_list("").is_empty());
    assert_eq!(decode_path_list("x\\"), vec!["x"]);
    assert_eq!(decode_path_list("\\ x \\ "), vec!["x"]);
}

#[test]
fn settings_are_loaded_with_defaults() {
    let data = SettingsData::load(&Vec::new(), sizes(), "/home/u", "/cwd");
    assert_eq!(data.window_width, "860");
    assert_eq!(data.search_panel_width, "430.5");
    assert_eq!(data.download_dir, "/home/u/Movies/VJDL");
    assert!(data.search_roots.is_empty());
    assert!(!data.cookies_enabled);
    assert_eq!(data.cookies_browser, "");
    assert_eq!(data.cookies_profile, "");

    let props = parse_properties(
        "download.dir= videos \nsearch.roots=/a|rel| \ncookies.from_browser.enabled=True\ncookies.from_browser.browser= firefox \ncookies.from_browser.profile=work",
    );
    let data = SettingsData::load(&props, sizes(), "/home/u", "/cwd");
    assert_eq!(data.download_dir, "/cwd/videos");
    assert_eq!(data.search_roots, vec!["/a", "/cwd/rel"]);
    assert!(data.cookies_enabled);
    assert_eq!(data.cookies_browser, "firefox");
    assert_eq!(data.cookies_profile, "work");
    assert_eq!(normalize_dir("  ", "/home/u", "/cwd"), "/home/u/Movies/VJDL");
    assert_eq!(normalize_dir("/abs", "/home/u", "/cwd"), "/abs");
}

#[test]
fn settings_are_written_as_properties() {
    let data = SettingsData {
        window_width: " 900 ".to_string(),
        window_height: "700".to_string(),
        download_panel_width: "430".to_string(),
        search_panel_width: "431".to_string(),
        download_dir: " /d ".to_string(),
        search_roots: vec!["/a|b".to_string(), "/c".to_string()],
        cookies_enabled: true,
        cookies_browser: "firefox".to_string(),
        cookies_profile: " ".to_string(),
    };
    let text = save_settings(&data);
    assert_eq!(
        text,
        "window.width=900\nwindow.height=700\nlayout.download.width=430\nlayout.search.width=431\ndownload.dir=/d\nsearch.roots=/a\\|b|/c\ncookies.from_browser.enabled=true\ncookies.from_browser.browser=firefox\ncookies.from_browser.profile="
    );
    assert_eq!(data.to_properties_string(), text);
    let back = SettingsData::load(&parse_properties(&text), sizes(), "/h", "/");
    assert_eq!(back.download_dir, "/d");
    assert_eq!(back.search_roots, vec!["/a|b", "/c"]);
    assert!(back.cookies_enabled);
}

#[test]
fn cookie_arguments_need_switch_and_browser() {
    let none = parse_properties("cookies.from_browser.browser=firefox");
    assert!(load_cookie_args(&none).is_empty());
    let blank = parse_properties("cookies.from_browser.enabled=true\ncookies.from_browser.browser= ");
    assert!(load_cookie_args(&blank).is_empty());
    let plain = parse_properties("cookies.from_browser.enabled=true\ncookies.from_browser.browser=firefox");
    assert_eq!(load_cookie_args(&plain), vec!["--cookies-from-browser", "firefox"]);
    let with_profile = parse_properties(
        "cookies.from_browser.enabled=true\ncookies.from_browser.browser=chrome\ncookies.from_browser.profile= Work ",
    );
    assert_eq!(load_cookie_args(&with_profile), vec!["--cookies-from-browser", "chrome:Work"]);
}

#[test]
fn paths_lie_below_the_home_directory() {
    assert_eq!(home_base(Some("/home/u".to_string())), "/home/u");
    assert_eq!(home_base(None), ".");
    assert_eq!(default_download_dir("/home/u"), "/home/u/Movies/VJDL");
    assert_eq!(settings_dir("/home/u"), "/home/u/.vjdownloader");
    assert_eq!(app_data_dir("/home/u"), "/home/u/.vjdownloader");
    assert_eq!(settings_file_path("/home/u"), "/home/u/.vjdownloader/settings.properties");
    assert_eq!(search_index_db_path("/home/u"), "/home/u/.vjdownloader/search_index.sqlite3");
    assert_eq!(bin_dir("."), "./.vjdownloader/bin");
    assert_eq!(resolve_tool_path("/h", "tool"), "/h/.vjdownloader/bin/tool");
    assert_eq!(yt_dlp_path("/h"), "/h/.vjdownloader/bin/yt-dlp");
    assert_eq!(ffmpeg_path("/h"), "/h/.vjdownloader/bin/ffmpeg");
    assert_eq!(ffprobe_path("/h"), "/h/.vjdownloader/bin/ffprobe");
    assert_eq!(deno_path("/h"), "/h/.vjdownloader/bin/deno");
    assert_eq!(make_absolute_path("/abs/x", "/cwd"), "/abs/x");
    assert_eq!(make_absolute_path("rel/x", "/cwd"), "/cwd/rel/x");
}

#[test]
fn the_log_keeps_the_newest_lines() {
    let mut log = AppLogger::new();
    assert!(log.is_empty());
    assert_eq!(log.push("", "12:00:00", 1), None);
    assert!(log.is_empty());
    assert_eq!(log.push("started", "12:00:01", 10).as_deref(), Some("[12:00:01] started"));
    assert!(!log.is_empty());
    for i in 0..(MAX_ENTRIES as u64 + 5) {
        log.push(&format!("line {i}"), "12:00:02", 100 + i);
    }
    let lines = log.lines();
    assert_eq!(lines.len(), MAX_ENTRIES);
    assert_eq!(lines[0], "[12:00:02] line 5");
    assert_eq!(lines[MAX_ENTRIES - 1], format!("[12:00:02] line {}", MAX_ENTRIES + 4));
    log.clear();
    assert!(log.is_empty());
    assert!(log.lines().is_empty());
}

#[test]
fn a_snapshot_holds_the_recent_lines() {
    let mut log = AppLogger::new();
    log.push("a", "t", 1_000);
    log.push("b", "t", 2_000);
    log.push("c", "t", 3_000);
    assert_eq!(log.build_recent_snapshot(0, 3_000), "");
    assert_eq!(log.build_recent_snapshot(1_000, 3_000), "[t] b\n[t] c");
    assert_eq!(log.build_recent_snapshot(999, 3_000), "[t] c");
    assert_eq!(log.build_recent_snapshot(10_000, 3_000), "[t] a\n[t] b\n[t] c");
    assert_eq!(log.build_recent_snapshot(1, 5_000), "");
    assert_eq!(AppLogger::new().build_recent_snapshot(5, 5), "");
}

#[test]
fn the_log_window_opens() {
    let mut state = LogUiState::new();
    assert!(!state.show_logs);
    state.open_logs();
    assert!(state.show_logs);
}

fn settings() -> SettingsData {
    SettingsData::load(&Vec::new(), sizes(), "/h", "/")
}

#[test]
fn tools_are_looked_up_when_the_window_opens() {
    let mut state = SettingsUiState::new(false, true, settings(), 3_000);
    assert!(state.show_initial_setup);
    assert!(!state.show_settings);
    assert!(state.yt_dlp.busy && state.deno.busy);
    assert_eq!(state.yt_dlp.status, "yt-dlpの状態を確認中...");
    assert_eq!(state.deno.status, "Denoの状態を確認中...");
    assert_eq!(state.yt_dlp.version, "未インストール");
    assert_eq!(state.deno.version, "確認中...");
    assert_eq!(state.last_auto_refresh, 0);
    assert_eq!(SettingsUiState::new(true, true, settings(), 12_000).last_auto_refresh, 2_000);
    assert!(!SettingsUiState::new(true, false, settings(), 0).show_initial_setup);

    assert!(!state.auto_refresh_if_needed(100_000));
    state.poll_tool_updates(vec![
        ToolUpdate { kind: ToolKind::YtDlp, state: ToolState::check(false, false, None) },
        ToolUpdate { kind: ToolKind::Deno, state: ToolState::check(true, true, Some("deno 2.0".to_string())) },
        ToolUpdate { kind: ToolKind::YtDlp, state: ToolState::check(true, false, None) },
    ]);
    assert_eq!(state.yt_dlp.version, "権限不足");
    assert_eq!(state.yt_dlp.status, "実行権限がありません。");
    assert!(!state.yt_dlp.available && !state.yt_dlp.busy);
    assert_eq!(state.deno.version, "deno 2.0");
    assert_eq!(state.deno.status, "準備完了");
    assert!(!state.auto_refresh_if_needed(4_999));
    assert!(state.auto_refresh_if_needed(5_000));
    assert_eq!(state.last_auto_refresh, 5_000);
    assert!(state.yt_dlp.busy && state.deno.busy);
    assert!(!state.auto_refresh_if_needed(50_000));

    state.open_settings(settings());
    assert!(state.show_settings);
    state.show_initial_setup = false;
    state.open_initial_setup();
    assert!(state.show_initial_setup);
    state.start_tool_action(ToolKind::Deno, ToolAction::Update);
    assert_eq!(state.deno.status, "Denoを更新中...");
    state.start_tool_action(ToolKind::YtDlp, ToolAction::Install);
    assert_eq!(state.yt_dlp.status, "yt-dlpをセットアップ中...");
}

#[test]
fn tool_states_tell_what_was_found() {
    let unknown = ToolState::check(true, true, None);
    assert_eq!(unknown.version, "不明");
    assert_eq!(unknown.status, "バージョン取得に失敗しました。");
    assert!(unknown.available);
    let named_unknown = ToolState::check(true, true, Some("不明".to_string()));
    assert_eq!(named_unknown.status, "バージョン取得に失敗しました。");
    let missing = ToolState::check(false, true, Some("1".to_string()));
    assert_eq!(missing.version, "未インストール");
    assert!(!missing.available);
    let failed = with_failure(ToolState::from_disk(true), "no network");
    assert_eq!(failed.status, "セットアップに失敗しました: no network");
    assert_eq!(failed.version, "確認中...");
    assert_eq!(ToolAction::Install.button_text(), "自動セットアップ");
    assert_eq!(ToolAction::Update.button_text(), "最新を取得");
    assert_eq!(ToolAction::Install.status_text("x"), "xをセットアップ中...");
    assert_eq!(read_tool_version(" 2024.01.01 \nmore", "err").as_deref(), Some("2024.01.01"));
    assert_eq!(read_tool_version("\n2024", " deno 1 \n").as_deref(), Some("deno 1"));
    assert_eq!(read_tool_version("", ""), None);
}

#[test]
fn search_roots_are_made_absolute_and_checked() {
    let inputs = vec![" /a ".to_string(), "".to_string(), "rel".to_string(), "  ".to_string()];
    assert_eq!(search_root_inputs(&inputs, "/cwd"), vec!["/a", "/cwd/rel"]);
    let ok = normalize_search_roots(&vec![
        RootCandidate { path: "/a".to_string(), is_dir: true },
        RootCandidate { path: "/b".to_string(), is_dir: true },
        RootCandidate { path: "/a".to_string(), is_dir: true },
    ]);
    assert_eq!(ok, Ok(vec!["/a".to_string(), "/b".to_string()]));
    let bad = normalize_search_roots(&vec![
        RootCandidate { path: "/a".to_string(), is_dir: true },
        RootCandidate { path: "/x".to_string(), is_dir: false },
    ]);
    assert_eq!(bad, Err("検索対象フォルダがディレクトリではありません: /x".to_string()));
}
