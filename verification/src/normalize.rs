//! Normalisation of names and queries for matching, escaping of pattern
//! text, and normalisation of the paths that a caller hands in.

use crate::pathkey::{
    extension_of, is_absolute_path, joined_path, path_extension, path_is_absolute, path_join,
};
use crate::text::{
    ascii_lower, chars_eq, chars_of, eq_ignore_ascii_case, lower_chars, string_of, trim, trimmed,
};
use unicode_normalization::UnicodeNormalization;
use vstd::prelude::*;

verus! {

/// The Unicode Normalization Form KC of `s`.
pub uninterp spec fn nfkc_of(s: Seq<char>) -> Seq<char>;

/// The Unicode lower-case mapping of `s`, as `str::to_lowercase` computes it.
pub uninterp spec fn lowercase_of(s: Seq<char>) -> Seq<char>;

/// `UnicodeNormalization::nfkc` on a string: compatibility decomposition
/// followed by canonical composition, a function of the text alone.
#[verifier::external_body]
pub(crate) fn nfkc(s: &str) -> (out: String)
    ensures
        out@ == nfkc_of(s@),
{
    s.nfkc().collect::<String>()
}

/// `str::to_lowercase`, a function of the text alone.
#[verifier::external_body]
pub(crate) fn to_lowercase(s: &str) -> (out: String)
    ensures
        out@ == lowercase_of(s@),
{
    s.to_lowercase()
}

/// The form in which names and queries are matched: trimmed, in
/// Normalization Form KC, in lower case.
pub open spec fn normalized(s: Seq<char>) -> Seq<char> {
    lowercase_of(nfkc_of(trimmed(s)))
}

/// Normalises a name for matching.
pub fn normalize_for_search(input: &str) -> (out: String)
    ensures
        out@ == normalized(input@),
{
    let t = trim(input);
    let composed = nfkc(t.as_str());
    to_lowercase(composed.as_str())
}

/// Normalises a query by the rule that names are indexed with.
pub fn normalize_query(query: &str) -> (out: String)
    ensures
        out@ == normalized(query@),
{
    normalize_for_search(query)
}

/// Whether `c` has a special meaning in a pattern: the escape character
/// itself and the two wildcards.
pub open spec fn is_pattern_special(c: char) -> bool {
    c == '\\' || c == '%' || c == '_'
}

/// One character as pattern text that matches only itself.
pub open spec fn escaped_char(c: char) -> Seq<char> {
    if is_pattern_special(c) {
        seq!['\\', c]
    } else {
        seq![c]
    }
}

/// `s` as pattern text that matches only `s` itself: every special character
/// is preceded by the escape character.
pub open spec fn like_escaped(s: Seq<char>) -> Seq<char>
    decreases s.len(),
{
    if s.len() == 0 {
        Seq::empty()
    } else {
        like_escaped(s.drop_last()) + escaped_char(s.last())
    }
}

/// Escapes the characters of `input` that a pattern would read as the escape
/// character or as a wildcard.
pub fn escape_like_pattern(input: &str) -> (out: String)
    ensures
        out@ == like_escaped(input@),
{
    let v = chars_of(input);
    let mut out: Vec<char> = Vec::new();
    let mut i: usize = 0;
    while i < v.len()
        invariant
            i <= v.len(),
            out@ == like_escaped(v@.take(i as int)),
        decreases v.len() - i,
    {
        let c = v[i];
        let ghost before = out@;
        if c == '\\' || c == '%' || c == '_' {
            out.push('\\');
            out.push(c);
        } else {
            out.push(c);
        }
        i += 1;
        proof {
            assert(v@.take(i as int).drop_last() =~= v@.take(i - 1));
            assert(v@.take(i as int).last() == c);
            assert(out@ =~= before + escaped_char(c));
        }
    }
    assert(v@.take(v.len() as int) =~= v@);
    string_of(&out)
}

/// The text that a pattern matches if the pattern is free of wildcards:
/// the escape character makes the character after it stand for itself; a
/// wildcard that is not escaped, or an escape character at the end, makes
/// the pattern match more or nothing, and there is no such text.
pub open spec fn literal_text(p: Seq<char>) -> Option<Seq<char>>
    decreases p.len(),
{
    if p.len() == 0 {
        Some(Seq::empty())
    } else if p[0] == '\\' {
        if p.len() >= 2 {
            match literal_text(p.skip(2)) {
                Some(t) => Some(seq![p[1]] + t),
                None => None,
            }
        } else {
            None
        }
    } else if p[0] == '%' || p[0] == '_' {
        None
    } else {
        match literal_text(p.skip(1)) {
            Some(t) => Some(seq![p[0]] + t),
            None => None,
        }
    }
}

/// The escaped form of a text starts with the escaped form of its first
/// character.
pub proof fn lemma_escaped_front(s: Seq<char>)
    requires
        s.len() > 0,
    ensures
        like_escaped(s) == escaped_char(s[0]) + like_escaped(s.drop_first()),
    decreases s.len(),
{
    if s.len() == 1 {
        assert(s.drop_last() =~= Seq::<char>::empty());
        assert(s.drop_first() =~= Seq::<char>::empty());
        assert(like_escaped(s) =~= escaped_char(s[0]) + like_escaped(s.drop_first()));
    } else {
        lemma_escaped_front(s.drop_last());
        assert(s.drop_last().drop_first() =~= s.drop_first().drop_last());
        assert(s.drop_first().last() == s.last());
        assert(s.drop_last()[0] == s[0]);
        assert(like_escaped(s) =~= escaped_char(s[0]) + like_escaped(s.drop_first()));
    }
}

/// An escaped text is a pattern free of wildcards that matches the text
/// itself and nothing else: no character of the text is read as a wildcard
/// or as an escape.
pub proof fn lemma_escaped_is_literal(s: Seq<char>)
    ensures
        literal_text(like_escaped(s)) == Some(s),
    decreases s.len(),
{
    if s.len() == 0 {
        assert(literal_text(like_escaped(s)) =~= Some(s));
    } else {
        let rest = s.drop_first();
        lemma_escaped_front(s);
        lemma_escaped_is_literal(rest);
        let p = like_escaped(s);
        if is_pattern_special(s[0]) {
            assert(p.skip(2) =~= like_escaped(rest));
            assert(p[0] == '\\' && p[1] == s[0]);
        } else {
            assert(p.skip(1) =~= like_escaped(rest));
            assert(p[0] == s[0]);
        }
        assert(seq![s[0]] + rest =~= s);
    }
}

/// A root path made absolute: an absolute path is kept as it is, a relative
/// one is taken from `current_dir`.
pub open spec fn absolute_from(path: Seq<char>, current_dir: Seq<char>) -> Seq<char> {
    if is_absolute_path(path) {
        path
    } else {
        joined_path(current_dir, path)
    }
}

/// Makes a root path absolute. `current_dir` is the directory that relative
/// paths are taken from.
pub fn normalize_root_path(path: &str, current_dir: &str) -> (out: String)
    ensures
        out@ == absolute_from(path@, current_dir@),
{
    if path_is_absolute(path) {
        path.to_owned()
    } else {
        path_join(current_dir, path)
    }
}

/// Makes the text of a parent-directory filter absolute, after trimming it.
pub fn normalize_parent_for_filter(raw: &str, current_dir: &str) -> (out: String)
    ensures
        out@ == absolute_from(trimmed(raw@), current_dir@),
{
    let t = trim(raw);
    normalize_root_path(t.as_str(), current_dir)
}

/// The key under which a path is stored: its text.
pub fn path_to_key(path: &str) -> (key: String)
    ensures
        key@ == path@,
{
    path.to_owned()
}

/// Whether `ext` is the extension of the tracked media type, in any case.
pub open spec fn is_tracked_extension(ext: Seq<char>) -> bool {
    eq_ignore_ascii_case(ext, seq!['m', 'p', '4'])
}

/// Whether the extension `ext` is that of the tracked media type.
pub fn is_mp4_extension(ext: &str) -> (r: bool)
    ensures
        r == is_tracked_extension(ext@),
{
    let e = lower_chars(&chars_of(ext));
    let mut want: Vec<char> = Vec::new();
    want.push('m');
    want.push('p');
    want.push('4');
    assert(want@ =~= seq!['m', 'p', '4']);
    assert(ascii_lower(seq!['m', 'p', '4']) =~= seq!['m', 'p', '4']);
    chars_eq(&e, &want)
}

/// Whether a path names a file of the tracked media type.
pub open spec fn is_tracked_path(path: Seq<char>) -> bool {
    match extension_of(path) {
        Some(ext) => is_tracked_extension(ext),
        None => false,
    }
}

/// Whether the path's extension is that of the tracked media type.
pub fn is_mp4_path(path: &str) -> (r: bool)
    ensures
        r == is_tracked_path(path@),
{
    match path_extension(path) {
        Some(ext) => is_mp4_extension(ext.as_str()),
        None => false,
    }
}

/// Seconds since the epoch as a signed number. `since_epoch` is the time's
/// distance from the epoch in seconds, or `None` for a time before it.
pub fn system_time_to_epoch_secs(since_epoch: Option<u64>) -> (secs: i64)
    ensures
        secs == match since_epoch {
            Some(s) => s as i64,
            None => 0i64,
        },
{
    match since_epoch {
        Some(s) => s as i64,
        None => 0,
    }
}

/// The current time in seconds since the epoch, from the clock's reading.
pub fn epoch_secs(since_epoch: Option<u64>) -> (secs: i64)
    ensures
        secs == match since_epoch {
            Some(s) => s as i64,
            None => 0i64,
        },
{
    system_time_to_epoch_secs(since_epoch)
}

/// The current time in milliseconds since the epoch, from the clock's
/// reading.
pub fn epoch_millis(since_epoch: Option<u128>) -> (millis: i64)
    ensures
        millis == match since_epoch {
            Some(m) => m as i64,
            None => 0i64,
        },
{
    match since_epoch {
        Some(m) => m as i64,
        None => 0,
    }
}

} // verus!
