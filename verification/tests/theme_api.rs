use vjdownloader::links::{
    build_animethemes_output_path, normalize_animethemes_video_link,
    parse_animethemes_page_slugs,
};
use vjdownloader::theme_api::extract_animethemes_webm_from_api_json;

#[test]
fn download_extracts_webm_from_json_api_included_response() {
    let json = r#"{
        "data": { "type": "anime", "id": "4776" },
        "included": [
            {
                "type": "animetheme",
                "id": "14234",
                "attributes": { "slug": "OP1" },
                "relationships": {
                    "animethemeentries": {
                        "data": [{ "type": "animethemeentry", "id": "16647" }]
                    }
                }
            },
            {
                "type": "animethemeentry",
                "id": "16647",
                "relationships": {
                    "videos": { "data": [{ "type": "video", "id": "19396" }] }
                }
            },
            {
                "type": "video",
                "id": "19396",
                "attributes": {
                    "link": "https://api.animethemes.moe/video/abc123.webm",
                    "resolution": 1080,
                    "source": "BD"
                }
            }
        ]
    }"#;

    let actual =
        extract_animethemes_webm_from_api_json(json, "OP1").expect("api json should parse");
    assert_eq!(
        actual.as_deref(),
        Some("https://animethemes.moe/video/abc123.webm")
    );
}

#[test]
fn download_extracts_best_resolution_from_nested_response() {
    let json = r#"{
        "anime": {
            "animethemes": [
                {
                    "slug": "OP1",
                    "animethemeentries": [
                        {
                            "videos": [
                                {
                                    "link": "https://v.animethemes.moe/MeitanteiPrecure-OP1-720.webm",
                                    "resolution": 720,
                                    "source": "WEB"
                                },
                                {
                                    "link": "https://v.animethemes.moe/MeitanteiPrecure-OP1-1080.webm",
                                    "resolution": 1080,
                                    "source": "BD"
                                }
                            ]
                        }
                    ]
                }
            ]
        }
    }"#;

    let actual =
        extract_animethemes_webm_from_api_json(json, "OP1").expect("api json should parse");
    assert_eq!(
        actual.as_deref(),
        Some("https://v.animethemes.moe/MeitanteiPrecure-OP1-1080.webm")
    );
}

#[test]
fn download_matches_theme_using_type_and_sequence_when_slug_differs() {
    let json = r#"{
        "included": [
            {
                "type": "animetheme",
                "id": "14234",
                "attributes": { "type": "OP", "sequence": 1 },
                "relationships": {
                    "animethemeentries": {
                        "data": [{ "type": "animethemeentry", "id": "16647" }]
                    }
                }
            },
            {
                "type": "animethemeentry",
                "id": "16647",
                "relationships": {
                    "videos": { "data": [{ "type": "video", "id": "19396" }] }
                }
            },
            {
                "type": "video",
                "id": "19396",
                "attributes": {
                    "link": "https://v.animethemes.moe/MeitanteiPrecure-OP1.webm",
                    "resolution": 720,
                    "source": "WEB"
                }
            }
        ]
    }"#;

    let actual =
        extract_animethemes_webm_from_api_json(json, "OP1v2").expect("api json should parse");
    assert_eq!(
        actual.as_deref(),
        Some("https://v.animethemes.moe/MeitanteiPrecure-OP1.webm")
    );
}

#[test]
fn download_returns_none_when_target_theme_not_found() {
    let json = r#"{
        "anime": {
            "animethemes": [
                {
                    "slug": "ED1",
                    "animethemeentries": [
                        {
                            "videos": [
                                { "link": "https://v.animethemes.moe/MeitanteiPrecure-ED1.webm" }
                            ]
                        }
                    ]
                }
            ]
        }
    }"#;

    let actual =
        extract_animethemes_webm_from_api_json(json, "OP1").expect("api json should parse");
    assert!(actual.is_none());
}


#[test]
fn animethemes_extracts_webm_from_json_api_included_response() {
    let json = r#"{
        "data": { "type": "anime", "id": "4776" },
        "included": [
            {
                "type": "animetheme",
                "id": "14234",
                "attributes": { "slug": "OP1" },
                "relationships": {
                    "animethemeentries": {
                        "data": [{ "type": "animethemeentry", "id": "16647" }]
                    }
                }
            },
            {
                "type": "animethemeentry",
                "id": "16647",
                "relationships": {
                    "videos": { "data": [{ "type": "video", "id": "19396" }] }
                }
            },
            {
                "type": "video",
                "id": "19396",
                "attributes": {
                    "link": "https://api.animethemes.moe/video/abc123.webm",
                    "resolution": 1080,
                    "source": "BD"
                }
            }
        ]
    }"#;

    let actual =
        extract_animethemes_webm_from_api_json(json, "OP1").expect("api json should parse");
    assert_eq!(
        actual.as_deref(),
        Some("https://animethemes.moe/video/abc123.webm")
    );
}

#[test]
fn animethemes_extracts_best_resolution_from_nested_response() {
    let json = r#"{
        "anime": {
            "animethemes": [
                {
                    "slug": "OP1",
                    "animethemeentries": [
                        {
                            "videos": [
                                {
                                    "link": "https://v.animethemes.moe/MeitanteiPrecure-OP1-720.webm",
                                    "resolution": 720,
                                    "source": "WEB"
                                },
                                {
                                    "link": "https://v.animethemes.moe/MeitanteiPrecure-OP1-1080.webm",
                                    "resolution": 1080,
                                    "source": "BD"
                                }
                            ]
                        }
                    ]
                }
            ]
        }
    }"#;

    let actual =
        extract_animethemes_webm_from_api_json(json, "OP1").expect("api json should parse");
    assert_eq!(
        actual.as_deref(),
        Some("https://v.animethemes.moe/MeitanteiPrecure-OP1-1080.webm")
    );
}

#[test]
fn animethemes_matches_theme_using_type_and_sequence_when_slug_differs() {
    let json = r#"{
        "included": [
            {
                "type": "animetheme",
                "id": "14234",
                "attributes": { "type": "OP", "sequence": 1 },
                "relationships": {
                    "animethemeentries": {
                        "data": [{ "type": "animethemeentry", "id": "16647" }]
                    }
                }
            },
            {
                "type": "animethemeentry",
                "id": "16647",
                "relationships": {
                    "videos": { "data": [{ "type": "video", "id": "19396" }] }
                }
            },
            {
                "type": "video",
                "id": "19396",
                "attributes": {
                    "link": "https://v.animethemes.moe/MeitanteiPrecure-OP1.webm",
                    "resolution": 720,
                    "source": "WEB"
                }
            }
        ]
    }"#;

    let actual =
        extract_animethemes_webm_from_api_json(json, "OP1v2").expect("api json should parse");
    assert_eq!(
        actual.as_deref(),
        Some("https://v.animethemes.moe/MeitanteiPrecure-OP1.webm")
    );
}

#[test]
fn animethemes_returns_none_when_target_theme_not_found() {
    let json = r#"{
        "anime": {
            "animethemes": [
                {
                    "slug": "ED1",
                    "animethemeentries": [
                        {
                            "videos": [
                                { "link": "https://v.animethemes.moe/MeitanteiPrecure-ED1.webm" }
                            ]
                        }
                    ]
                }
            ]
        }
    }"#;

    let actual =
        extract_animethemes_webm_from_api_json(json, "OP1").expect("api json should parse");
    assert!(actual.is_none());
}


#[test]
fn broken_json_is_an_error() {
    let result = extract_animethemes_webm_from_api_json("{ not json", "OP1");
    match result {
        Err(text) => assert!(text.starts_with("JSON解析に失敗しました: ")),
        other => panic!("unexpected: {other:?}"),
    }
    assert_eq!(extract_animethemes_webm_from_api_json("[]", "OP1"), Ok(None));
    assert_eq!(extract_animethemes_webm_from_api_json("{\"included\": 3}", "OP1"), Ok(None));
}

#[test]
fn the_best_video_of_a_single_relation_is_taken() {
    let json = r#"{
        "included": [
            { "type": "AnimeTheme", "id": "1", "attributes": { "type": "ED", "sequence": 2 },
              "relationships": { "animethemeentries": { "data": { "type": "animethemeentry", "id": "e" } } } },
            { "type": "animethemeentry", "id": "e",
              "relationships": { "videos": { "data": [
                  { "type": "video", "id": "low" }, { "type": "video", "id": "high" },
                  { "type": "video", "id": "mp4" }, { "type": "video", "id": "missing" }, { "type": "video" }
              ] } } },
            { "type": "video", "id": "low", "attributes": { "link": "https://v.animethemes.moe/low.webm", "resolution": 720, "source": "BD" } },
            { "type": "video", "id": "high", "link": "https://v.animethemes.moe/high.webm", "resolution": 1080 },
            { "type": "video", "id": "high", "link": "https://v.animethemes.moe/shadowed.webm", "resolution": 2160 },
            { "type": "video", "id": "mp4", "attributes": { "link": "https://v.animethemes.moe/x.mp4", "resolution": 4320 } }
        ]
    }"#;
    assert_eq!(
        extract_animethemes_webm_from_api_json(json, "ed2-NCBD1080").expect("parses").as_deref(),
        Some("https://v.animethemes.moe/high.webm")
    );
    assert_eq!(extract_animethemes_webm_from_api_json(json, "ED20").expect("parses"), None);
}

#[test]
fn nested_shows_are_searched_in_arrays() {
    let json = r#"{
        "data": [[
            { "animethemes": [
                { "slug": "OP1", "animethemeentries": [
                    { "videos": [ { "link": "https://api.animethemes.moe/a.webm", "resolution": 480, "source": "web" } ] },
                    { "videos": "none" },
                    { }
                ] },
                { "slug": "OP2", "animethemeentries": [
                    { "videos": [ { "link": "https://v.animethemes.moe/other.webm", "resolution": 1080 } ] }
                ] }
            ] },
            "text", 5, null
        ]]
    }"#;
    assert_eq!(
        extract_animethemes_webm_from_api_json(json, "OP1").expect("parses").as_deref(),
        Some("https://animethemes.moe/a.webm")
    );
}

#[test]
fn page_addresses_name_show_and_theme() {
    assert_eq!(
        parse_animethemes_page_slugs("https://animethemes.moe/anime/bocchi_the_rock/OP1"),
        Some(("bocchi_the_rock".to_string(), "OP1".to_string()))
    );
    assert_eq!(
        parse_animethemes_page_slugs("https://animethemes.moe//Anime//show/ED1-NC/extra"),
        Some(("show".to_string(), "ED1-NC".to_string()))
    );
    assert_eq!(parse_animethemes_page_slugs("https://animethemes.moe/anime/show"), None);
    assert_eq!(parse_animethemes_page_slugs("https://animethemes.moe/wiki/show/OP1"), None);
    assert_eq!(parse_animethemes_page_slugs("not an address"), None);
    assert_eq!(parse_animethemes_page_slugs("mailto:someone@example.com"), None);
}

#[test]
fn video_links_leave_the_interface_host() {
    assert_eq!(
        normalize_animethemes_video_link("https://API.animethemes.moe/video/a.webm").as_deref(),
        Some("https://animethemes.moe/video/a.webm")
    );
    assert_eq!(
        normalize_animethemes_video_link("https://v.animethemes.moe/a b.webm").as_deref(),
        Some("https://v.animethemes.moe/a%20b.webm")
    );
    assert_eq!(
        normalize_animethemes_video_link("HTTPS://Example.COM").as_deref(),
        Some("https://example.com/")
    );
    assert_eq!(normalize_animethemes_video_link("/relative/a.webm"), None);
}

#[test]
fn output_files_are_named_after_the_address() {
    assert_eq!(
        build_animethemes_output_path("https://animethemes.moe/anime/bocchi/OP1", "/out", 1700),
        "/out/bocchi-OP1-1700.mp4"
    );
    assert_eq!(
        build_animethemes_output_path("https://animethemes.moe/anime/", "/out", 5),
        "/out/anime-5.mp4"
    );
    assert_eq!(
        build_animethemes_output_path("https://animethemes.moe/a/anime/b c/", "/out", 5),
        "/out/a-b_20c-5.mp4"
    );
    assert_eq!(
        build_animethemes_output_path("https://animethemes.moe/x/y/z", "/out", 0),
        "/out/y-z-0.mp4"
    );
    assert_eq!(
        build_animethemes_output_path("https://animethemes.moe", "/out", 12),
        "/out/animethemes-12.mp4"
    );
    assert_eq!(
        build_animethemes_output_path("no address", "/out", u128::MAX),
        "/out/animethemes-340282366920938463463374607431768211455.mp4"
    );
}
