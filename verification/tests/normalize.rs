use vjdownloader::normalize::{escape_like_pattern, normalize_for_search, normalize_query};

#[test]
fn normalizes_and_escapes_query() {
    assert_eq!(normalize_query(" ＡＢＣ_旅行% "), "abc_旅行%");
    assert_eq!(escape_like_pattern("abc_旅行%"), "abc\\_旅行\\%");
}

#[test]
fn normalization_trims_composes_and_lowers() {
    assert_eq!(normalize_for_search("  Ｈello  "), "hello");
    assert_eq!(normalize_for_search("\u{3000}ABC\t"), "abc");
    assert_eq!(normalize_for_search("ｶﾞ"), "ガ");
    assert_eq!(normalize_for_search(""), "");
    assert_eq!(normalize_for_search("   "), "");
}

#[test]
fn escaping_doubles_the_escape_character() {
    assert_eq!(escape_like_pattern("a\\b"), "a\\\\b");
    assert_eq!(escape_like_pattern("100%_"), "100\\%\\_");
    assert_eq!(escape_like_pattern(""), "");
    assert_eq!(escape_like_pattern("plain"), "plain");
}

#[test]
fn whitespace_is_the_unicode_property() {
    let listed = |n: u32| {
        (0x0009..=0x000D).contains(&n)
            || n == 0x0020
            || n == 0x0085
            || n == 0x00A0
            || n == 0x1680
            || (0x2000..=0x200A).contains(&n)
            || n == 0x2028
            || n == 0x2029
            || n == 0x202F
            || n == 0x205F
            || n == 0x3000
    };
    for n in 0..=0x10FFFFu32 {
        if let Some(c) = char::from_u32(n) {
            assert_eq!(c.is_whitespace(), listed(n), "U+{n:04X}");
            if listed(n) {
                let padded = format!("{c}x{c}");
                assert_eq!(vjdownloader::text::trim(&padded), "x");
            }
        }
    }
}
