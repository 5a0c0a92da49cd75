use vjdownloader::animethemes::{
    extract_animethemes_webm, is_animethemes_webm_url, is_matching_theme_identifier,
    parse_content_length_from_headers, parse_content_range_total, pick_best_video_link,
    sanitize_filename_component, source_priority, AnimeThemesVideoCandidate,
};
use vjdownloader::decimal::{parse_u64, u64_digits};
use vjdownloader::download::{
    base_yt_dlp_args, destination_name, destination_stem, elapsed_text, fallback_yt_dlp_args,
    format_elapsed, is_animethemes_url, is_post_processing_line, next_destination_index,
};

#[test]
fn download_parses_total_size_from_content_range() {
    let headers = "HTTP/2 206\r\nContent-Range: bytes 0-0/48937934\r\nContent-Length: 1\r\n";
    assert_eq!(parse_content_range_total(headers), Some(48_937_934));
}

#[test]
fn download_parses_content_length_normally() {
    let headers = "HTTP/2 200\r\nContent-Length: 75350559\r\n";
    assert_eq!(parse_content_length_from_headers(headers), Some(75_350_559));
}

#[test]
fn animethemes_parses_total_size_from_content_range() {
    let headers = "HTTP/2 206\r\nContent-Range: bytes 0-0/48937934\r\nContent-Length: 1\r\n";
    assert_eq!(parse_content_range_total(headers), Some(48_937_934));
}

#[test]
fn animethemes_parses_content_length_normally() {
    let headers = "HTTP/2 200\r\nContent-Length: 75350559\r\n";
    assert_eq!(parse_content_length_from_headers(headers), Some(75_350_559));
}

#[test]
fn content_length_takes_the_last_header_with_a_number() {
    let headers = "content-length: 10\nContent-Length: abc\nCONTENT-LENGTH:   20  \n";
    assert_eq!(parse_content_length_from_headers(headers), Some(20));
    assert_eq!(parse_content_length_from_headers("Content-Length: x\n"), None);
    assert_eq!(parse_content_length_from_headers(""), None);
    assert_eq!(parse_content_length_from_headers("Content-Length: -1"), None);
    assert_eq!(parse_content_length_from_headers("Content-Length: +7"), Some(7));
    assert_eq!(
        parse_content_length_from_headers("Content-Length: 18446744073709551615"),
        Some(u64::MAX)
    );
    assert_eq!(
        parse_content_length_from_headers("Content-Length: 18446744073709551616"),
        None
    );
}

#[test]
fn content_range_needs_a_slash() {
    assert_eq!(parse_content_range_total("Content-Range: bytes 0-0"), None);
    assert_eq!(parse_content_range_total("Content-Range: bytes 0-0/*"), None);
    assert_eq!(parse_content_range_total("Content-Range: a/b/ 12 "), Some(12));
    assert_eq!(parse_content_range_total("Content-Length: 5/6"), None);
}

#[test]
fn decimal_text_round_trips() {
    for n in [0u64, 7, 10, 99, 100, 12345, u64::MAX] {
        let digits = u64_digits(n);
        let text: String = digits.iter().collect();
        assert_eq!(text, n.to_string());
        assert_eq!(parse_u64(&digits), Some(n));
    }
    assert_eq!(parse_u64(&Vec::new()), None);
    assert_eq!(parse_u64(&vec!['+']), None);
    assert_eq!(parse_u64(&vec!['1', ' ']), None);
    assert_eq!(parse_u64(&vec!['0', '0', '7']), Some(7));
}

#[test]
fn file_name_parts_are_made_safe() {
    assert_eq!(sanitize_filename_component("OP1-Name_v2.x"), "OP1-Name_v2.x");
    assert_eq!(sanitize_filename_component("a b/c"), "a_b_c");
    assert_eq!(sanitize_filename_component("旅行"), "__");
    assert_eq!(sanitize_filename_component(""), "animethemes");
}

#[test]
fn theme_identifiers_match_with_version_or_separator() {
    assert!(is_matching_theme_identifier("OP1", "op1"));
    assert!(is_matching_theme_identifier("OP1v2", "OP1"));
    assert!(is_matching_theme_identifier("op1-tv", "OP1"));
    assert!(is_matching_theme_identifier("OP1_x", "OP1"));
    assert!(!is_matching_theme_identifier("OP10", "OP1"));
    assert!(!is_matching_theme_identifier("OP1", "OP1v2"));
    assert!(!is_matching_theme_identifier("ED1", "OP1"));
    assert!(is_matching_theme_identifier("", ""));
}

#[test]
fn sources_rank_disc_web_dvd() {
    assert_eq!(source_priority("BD"), 3);
    assert_eq!(source_priority("bd"), 3);
    assert_eq!(source_priority("Web"), 2);
    assert_eq!(source_priority("DVD"), 1);
    assert_eq!(source_priority("VHS"), 0);
    assert_eq!(source_priority(""), 0);
}

fn candidate(link: &str, resolution: i64, source_priority: i64) -> AnimeThemesVideoCandidate {
    AnimeThemesVideoCandidate { link: link.to_string(), resolution, source_priority }
}

#[test]
fn best_candidate_is_highest_resolution_then_source_then_last() {
    assert_eq!(pick_best_video_link(Vec::new()), None);
    let picked = pick_best_video_link(vec![
        candidate("a", 720, 3),
        candidate("b", 1080, 1),
        candidate("c", 1080, 2),
        candidate("d", 1080, 2),
        candidate("e", 480, 3),
    ]);
    assert_eq!(picked.as_deref(), Some("d"));
    let single = pick_best_video_link(vec![candidate("only", 0, 0)]);
    assert_eq!(single.as_deref(), Some("only"));
}

#[test]
fn page_link_is_taken_after_the_first_mark() {
    let html = "<meta name=\"og:video\" content=\"https://v.animethemes.moe/A-OP1.webm\"><video src=\"https://x/y.webm\">";
    assert_eq!(
        extract_animethemes_webm(html).as_deref(),
        Some("https://v.animethemes.moe/A-OP1.webm")
    );
    let video_first = "<video src=\"https://x/y.webm\"> name=\"og:video\" content=\"https://z/w.webm\"";
    assert_eq!(extract_animethemes_webm(video_first).as_deref(), Some("https://x/y.webm"));
    assert_eq!(extract_animethemes_webm("<video src=\"http://x/y.webm\">"), None);
    assert_eq!(extract_animethemes_webm("<video src=\"https://x/y.mp4\">"), None);
    assert_eq!(extract_animethemes_webm("<video src=\"https://x/y.webm"), None);
    assert_eq!(extract_animethemes_webm("nothing here"), None);
}

#[test]
fn video_links_need_https_and_webm() {
    assert!(is_animethemes_webm_url("HTTPS://a/b.WEBM?x=1"));
    assert!(!is_animethemes_webm_url("http://a/b.webm"));
    assert!(!is_animethemes_webm_url("https://a/b.mp4"));
    assert!(is_animethemes_url("https://AnimeThemes.moe/anime/x"));
    assert!(!is_animethemes_url("https://example.com/"));
}

#[test]
fn downloader_arguments_are_in_order() {
    let cookies = vec!["--cookies-from-browser".to_string(), "firefox".to_string()];
    let base = base_yt_dlp_args("/bin/ffmpeg", &cookies);
    assert_eq!(
        base,
        vec![
            "--no-playlist",
            "--cookies-from-browser",
            "firefox",
            "--extractor-args",
            "youtube:player_client=web",
            "--extractor-args",
            "youtube:skip=translated_subs",
            "--concurrent-fragments",
            "4",
            "-S",
            "vcodec:h264,res,acodec:m4a",
            "--match-filter",
            "vcodec~='(?i)^(avc|h264)'",
            "--merge-output-format",
            "mp4",
            "--ffmpeg-location",
            "/bin/ffmpeg",
            "--js-runtimes",
            "deno",
        ]
    );
    let fallback = fallback_yt_dlp_args("/bin/ffmpeg", &Vec::new());
    assert_eq!(
        fallback,
        vec![
            "--no-playlist",
            "--extractor-args",
            "youtube:player_client=web",
            "--extractor-args",
            "youtube:skip=translated_subs",
            "--concurrent-fragments",
            "4",
            "-f",
            "bv*[height<=720]+ba/b[height<=720]",
            "--recode-video",
            "mp4",
            "--postprocessor-args",
            "VideoConvertor:-c:v h264_videotoolbox -b:v 5M -pix_fmt yuv420p",
            "--ffmpeg-location",
            "/bin/ffmpeg",
            "--js-runtimes",
            "deno",
        ]
    );
}

#[test]
fn post_processing_is_seen_in_any_case() {
    assert!(is_post_processing_line("[Merger] Merging formats into \"a.mp4\""));
    assert!(is_post_processing_line("[FixupM3u8] fixing"));
    assert!(is_post_processing_line("doing Post-Process now"));
    assert!(!is_post_processing_line("[download]  42.0% of 10MiB"));
    assert!(!is_post_processing_line(""));
}

#[test]
fn elapsed_time_is_shown_in_brackets() {
    assert_eq!(format_elapsed("01:05"), " (経過: 01:05)");
    assert_eq!(format_elapsed("   "), "");
    assert_eq!(format_elapsed(""), "");
    assert_eq!(elapsed_text(0), "00:00");
    assert_eq!(elapsed_text(65), "01:05");
    assert_eq!(elapsed_text(3599), "59:59");
    assert_eq!(elapsed_text(3600), "1:00:00");
    assert_eq!(elapsed_text(36_000 + 61), "10:01:01");
}

#[test]
fn destinations_are_numbered() {
    assert_eq!(destination_name("clip", "mp4", 1), "clip (1).mp4");
    assert_eq!(destination_name("clip", "", 12), "clip (12)");
    assert_eq!(destination_stem(Some("clip".to_string())), "clip");
    assert_eq!(destination_stem(Some("  ".to_string())), "video");
    assert_eq!(destination_stem(None), "video");
    assert_eq!(next_destination_index(1), Some(2));
    assert_eq!(next_destination_index(9998), Some(9999));
    assert_eq!(next_destination_index(9999), None);
}
