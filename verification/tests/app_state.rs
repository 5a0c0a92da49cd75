use vjdownloader::app_state::{
    classify_input_source, ensure_bundled_bin, ensure_executable, is_same_mode, latest_job,
    poll_input_mode_change, InputMode, InputSource, ProcessTracker, SearchJob, SearchJobResult,
    SearchPanel, PANEL_LIMIT,
};
use vjdownloader::download::{
    build_animethemes_temp_webm_path, load_mp4_files, next_backup_path, Download,
};
use vjdownloader::records::{SearchHit, SearchRequest, SearchSort};

fn source(id: &str, name: &str, ascii_capable: bool) -> InputSource {
    InputSource { source_id: id.to_string(), localized_name: name.to_string(), ascii_capable }
}

#[test]
fn input_sources_are_told_apart() {
    assert!(matches!(
        classify_input_source(&source("com.apple.inputmethod.Kotoeri.RomajiTyping.Japanese", "", false)),
        InputMode::Japanese
    ));
    assert!(matches!(classify_input_source(&source("x", "日本語入力", true)), InputMode::Japanese));
    assert!(matches!(classify_input_source(&source("x", "Hiragana", true)), InputMode::Japanese));
    assert!(matches!(
        classify_input_source(&source("com.apple.keylayout.ABC", "whatever", false)),
        InputMode::English
    ));
    assert!(matches!(classify_input_source(&source("x", "ABC", false)), InputMode::English));
    assert!(matches!(
        classify_input_source(&source("com.apple.keylayout.US", "U.S.", true)),
        InputMode::English
    ));
    assert!(matches!(classify_input_source(&source("x", "US", true)), InputMode::English));
    match classify_input_source(&source("com.apple.keylayout.US", "U.S.", false)) {
        InputMode::Other(name) => assert_eq!(name, "U.S."),
        other => panic!("unexpected: {other:?}"),
    }
    match classify_input_source(&source("com.example.dvorak", "", true)) {
        InputMode::Other(name) => assert_eq!(name, "com.example.dvorak"),
        other => panic!("unexpected: {other:?}"),
    }
    match classify_input_source(&source("", "", false)) {
        InputMode::Other(name) => assert_eq!(name, "unknown"),
        other => panic!("unexpected: {other:?}"),
    }
}

#[test]
fn a_change_of_input_mode_is_told_once() {
    let mut last = None;
    assert_eq!(poll_input_mode_change(&mut last, InputMode::English), None);
    assert!(matches!(last, Some(InputMode::English)));
    assert_eq!(poll_input_mode_change(&mut last, InputMode::English), None);
    assert_eq!(
        poll_input_mode_change(&mut last, InputMode::Japanese).as_deref(),
        Some("日本語になりました")
    );
    assert_eq!(
        poll_input_mode_change(&mut last, InputMode::English).as_deref(),
        Some("英字になりました")
    );
    assert_eq!(
        poll_input_mode_change(&mut last, InputMode::Other("Dvorak".to_string())).as_deref(),
        Some("入力ソースが変更されました: Dvorak")
    );
    assert_eq!(poll_input_mode_change(&mut last, InputMode::Other("Dvorak".to_string())), None);
    assert!(is_same_mode(&InputMode::Japanese, &InputMode::Japanese));
    assert!(!is_same_mode(&InputMode::Other("a".to_string()), &InputMode::Other("b".to_string())));
    assert!(!is_same_mode(&InputMode::English, &InputMode::Japanese));
}

fn hit(path: &str) -> SearchHit {
    SearchHit {
        path: path.to_string(),
        file_name: path.to_string(),
        size_bytes: 0,
        modified_time: 0,
        root_id: 1,
        parent_dir: String::new(),
    }
}

#[test]
fn the_search_panel_submits_and_takes_results() {
    let mut panel = SearchPanel::new();
    assert!(panel.submit_search_if_needed(false, true).is_none());
    panel.query = "  trip ".to_string();
    panel.mark_search_dirty();
    assert!(panel.submit_search_if_needed(false, false).is_none());
    assert!(panel.dirty);
    let job = panel.submit_search_if_needed(false, true).expect("a job");
    assert_eq!(job.seq, 1);
    assert_eq!(job.request.query, "  trip ");
    assert_eq!(job.request.limit, PANEL_LIMIT);
    assert!(matches!(job.request.sort, SearchSort::NameAsc));
    assert!(panel.dirty);
    panel.job_sent(false);
    assert!(panel.dirty);
    assert_eq!(panel.error.as_deref(), Some("検索ワーカーにリクエストを送信できませんでした。"));
    let job = panel.submit_search_if_needed(false, true).expect("a job");
    assert_eq!(job.seq, 2);
    panel.job_sent(true);
    assert!(!panel.dirty);

    panel.poll_search_results(vec![
        SearchJobResult { seq: 1, result: Err("old".to_string()) },
        SearchJobResult { seq: 2, result: Ok(vec![hit("/a"), hit("/b")]) },
    ]);
    assert_eq!(panel.applied_seq, 2);
    assert_eq!(panel.results.len(), 2);
    assert_eq!(panel.error, None);
    panel.poll_search_results(vec![SearchJobResult { seq: 1, result: Err("late".to_string()) }]);
    assert_eq!(panel.results.len(), 2);
    panel.poll_search_results(Vec::new());
    assert_eq!(panel.results.len(), 2);
    panel.poll_search_results(vec![SearchJobResult { seq: 3, result: Err("broken".to_string()) }]);
    assert!(panel.results.is_empty());
    assert_eq!(panel.error.as_deref(), Some("broken"));

    panel.query = "   ".to_string();
    panel.mark_search_dirty();
    assert!(panel.submit_search_if_needed(true, true).is_none());
    assert!(!panel.dirty);
    assert_eq!(panel.error.as_deref(), Some("broken"));
    panel.mark_search_dirty();
    assert!(panel.submit_search_if_needed(false, true).is_none());
    assert_eq!(panel.error, None);

    panel.request_seq = u64::MAX;
    panel.query = "x".to_string();
    panel.mark_search_dirty();
    assert_eq!(panel.submit_search_if_needed(false, true).expect("a job").seq, u64::MAX);
}

#[test]
fn the_worker_runs_the_last_job() {
    let job = |seq: u64| SearchJob { seq, request: SearchRequest::default() };
    assert!(latest_job(Vec::new()).is_none());
    assert_eq!(latest_job(vec![job(4)]).expect("a job").seq, 4);
    assert_eq!(latest_job(vec![job(4), job(9), job(7)]).expect("a job").seq, 7);
}

#[test]
fn processes_are_noted_once() {
    let mut tracker = ProcessTracker::new();
    assert!(tracker.terminate_all().is_empty());
    tracker.register(0);
    tracker.register(12);
    tracker.register(7);
    tracker.register(12);
    assert_eq!(tracker.terminate_all(), vec![12, 7]);
}

#[test]
fn tools_are_made_runnable() {
    assert_eq!(ensure_executable(0o644), Some(0o755));
    assert_eq!(ensure_executable(0o700), Some(0o711));
    assert_eq!(ensure_executable(0o755), None);
    assert_eq!(ensure_executable(0o100111), None);
    assert!(ensure_bundled_bin(None, 10));
    assert!(ensure_bundled_bin(Some(9), 10));
    assert!(!ensure_bundled_bin(Some(10), 10));
}

#[test]
fn backups_and_temporary_files_are_named() {
    assert_eq!(next_backup_path(Some("yt-dlp".to_string()), 4242, 0), "yt-dlp.update-backup.4242");
    assert_eq!(next_backup_path(Some("yt-dlp".to_string()), 4242, 3), "yt-dlp.update-backup.4242.3");
    assert_eq!(next_backup_path(None, 1, 999), "tool.update-backup.1.999");
    assert_eq!(next_backup_path(None, 1, 1000), "tool.update-backup.fallback");
    assert_eq!(build_animethemes_temp_webm_path("/out/show-OP1-5.mp4"), "/out/show-OP1-5.webm.part");
    assert_eq!(build_animethemes_temp_webm_path("/out/name"), "/out/name.webm.part");
}

#[test]
fn downloads_are_listed_newest_first() {
    let item = |path: &str, modified: i128| Download { path: path.to_string(), modified };
    let listed = load_mp4_files(vec![
        item("a", 10),
        item("b", 30),
        item("c", 10),
        item("d", -5),
        item("e", 30),
    ]);
    let order: Vec<&str> = listed.iter().map(|d| d.path.as_str()).collect();
    assert_eq!(order, vec!["b", "e", "a", "c", "d"]);
    assert!(load_mp4_files(Vec::new()).is_empty());
}
