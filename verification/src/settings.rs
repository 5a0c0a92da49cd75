//! The settings: the properties text that stores them, and the rules by
//! which they are read from it and written to it.

use crate::normalize::{absolute_from, normalize_root_path};
use crate::pathkey::joined_path;
use crate::paths::default_download_dir;
use crate::text::{
    ascii_lower, chars_eq, chars_of, eq_ignore_ascii_case, lower_chars, slice_of, string_of,
    trim, trim_chars, trimmed,
};
use vstd::prelude::*;

verus! {

/// The settings as the program holds them.
#[derive(Clone, Debug)]
pub struct SettingsData {
    pub window_width: String,
    pub window_height: String,
    pub download_panel_width: String,
    pub search_panel_width: String,
    pub download_dir: String,
    pub search_roots: Vec<String>,
    pub cookies_enabled: bool,
    pub cookies_browser: String,
    pub cookies_profile: String,
}

/// The sizes of the window and its panels, as text.
#[derive(Debug)]
pub struct Dimensions {
    pub window_width: String,
    pub window_height: String,
    pub download_panel_width: String,
    pub search_panel_width: String,
}

/// The lines of a text: its parts between line feeds.
pub open spec fn lines_of(s: Seq<char>) -> Seq<Seq<char>>
    decreases s.len(),
{
    if s.len() == 0 {
        seq![Seq::empty()]
    } else {
        let before = lines_of(s.drop_last());
        if s.last() == '\n' {
            before.push(Seq::empty())
        } else {
            before.update(before.len() - 1, before.last().push(s.last()))
        }
    }
}

/// The text has at least one line.
pub proof fn lemma_lines_nonempty(s: Seq<char>)
    ensures
        lines_of(s).len() >= 1,
    decreases s.len(),
{
    if s.len() > 0 {
        lemma_lines_nonempty(s.drop_last());
    }
}

/// Splits a text into its lines.
pub fn split_lines(s: &Vec<char>) -> (lines: Vec<Vec<char>>)
    ensures
        lines@.len() == lines_of(s@).len(),
        forall|i: int| 0 <= i < lines@.len() ==> (#[trigger] lines@[i])@ == lines_of(s@)[i],
{
    let mut lines: Vec<Vec<char>> = Vec::new();
    let mut cur: Vec<char> = Vec::new();
    let mut i: usize = 0;
    assert(s@.take(0) =~= Seq::<char>::empty());
    while i < s.len()
        invariant
            i <= s.len(),
            lines@.len() + 1 == lines_of(s@.take(i as int)).len(),
            forall|k: int|
                0 <= k < lines@.len() ==> (#[trigger] lines@[k])@ == lines_of(s@.take(i as int))[k],
            cur@ == lines_of(s@.take(i as int)).last(),
        decreases s.len() - i,
    {
        proof {
            assert(s@.take(i + 1).drop_last() =~= s@.take(i as int));
            assert(s@.take(i + 1).last() == s@[i as int]);
        }
        if s[i] == '\n' {
            lines.push(cur);
            cur = Vec::new();
        } else {
            cur.push(s[i]);
        }
        i += 1;
    }
    assert(s@.take(s.len() as int) =~= s@);
    lines.push(cur);
    lines
}

/// Whether `c` parts a key from its value.
pub open spec fn is_separator(c: char) -> bool {
    c == '=' || c == ':'
}

/// The position of the first separator of `t`, or its length if it has
/// none.
pub open spec fn separator_at(t: Seq<char>) -> int
    decreases t.len(),
{
    if t.len() == 0 {
        0
    } else if is_separator(t[0]) {
        0
    } else {
        1 + separator_at(t.drop_first())
    }
}

/// The key of a line that holds a property: what stands before the first
/// separator, trimmed.
pub open spec fn key_of(t: Seq<char>) -> Seq<char> {
    trimmed(t.take(separator_at(t)))
}

/// The value of a line that holds a property: what stands after the first
/// separator, trimmed; empty if the line has no separator.
pub open spec fn value_of(t: Seq<char>) -> Seq<char> {
    if separator_at(t) < t.len() {
        trimmed(t.skip(separator_at(t) + 1))
    } else {
        trimmed(Seq::empty())
    }
}

/// Whether a line holds a property: it is not blank, is no comment, and has
/// a key.
pub open spec fn holds_property(line: Seq<char>) -> bool {
    let t = trimmed(line);
    t.len() > 0 && t[0] != '#' && t[0] != '!' && key_of(t).len() > 0
}

/// The lines that hold a property.
pub open spec fn property_lines(contents: Seq<char>) -> Seq<Seq<char>> {
    lines_of(contents).filter(|line: Seq<char>| holds_property(line))
}

/// The position of the first separator of `t`.
fn find_separator(t: &Vec<char>) -> (at: usize)
    ensures
        at == separator_at(t@),
        at <= t@.len(),
{
    let mut i: usize = 0;
    assert(t@.skip(0) =~= t@);
    while i < t.len() && !(t[i] == '=' || t[i] == ':')
        invariant
            i <= t.len(),
            separator_at(t@) == i + separator_at(t@.skip(i as int)),
        decreases t.len() - i,
    {
        assert(t@.skip(i as int).drop_first() =~= t@.skip(i + 1));
        i += 1;
    }
    i
}

/// Reads the properties of a text: one for each line that holds one, in the
/// order of the lines. Blank lines and lines that start with `#` or `!` are
/// passed over; a line is parted at its first `=` or `:`.
pub fn parse_properties(contents: &str) -> (props: Vec<(String, String)>)
    ensures
        props@.len() == property_lines(contents@).len(),
        forall|i: int|
            0 <= i < props@.len() ==> (#[trigger] props@[i]).0@ == key_of(
                trimmed(property_lines(contents@)[i]),
            ) && props@[i].1@ == value_of(trimmed(property_lines(contents@)[i])),
{
    let text = chars_of(contents);
    let lines = split_lines(&text);
    let ghost all = lines_of(contents@);
    let ghost keep = |line: Seq<char>| holds_property(line);
    let mut props: Vec<(String, String)> = Vec::new();
    let mut i: usize = 0;
    assert(all.take(0).filter(keep) =~= Seq::<Seq<char>>::empty()) by {
        reveal(Seq::filter);
    }
    while i < lines.len()
        invariant
            i <= lines.len(),
            lines@.len() == all.len(),
            forall|k: int| 0 <= k < lines@.len() ==> (#[trigger] lines@[k])@ == all[k],
            keep == (|line: Seq<char>| holds_property(line)),
            props@.len() == all.take(i as int).filter(keep).len(),
            forall|k: int|
                0 <= k < props@.len() ==> (#[trigger] props@[k]).0@ == key_of(
                    trimmed(all.take(i as int).filter(keep)[k]),
                ) && props@[k].1@ == value_of(trimmed(all.take(i as int).filter(keep)[k])),
        decreases lines.len() - i,
    {
        let ghost seen = all.take(i as int).filter(keep);
        proof {
            all.take(i as int).lemma_filter_push(all[i as int], keep);
            assert(all.take(i + 1) =~= all.take(i as int).push(all[i as int]));
        }
        let t = trim_chars(&lines[i]);
        if t.len() > 0 && t[0] != '#' && t[0] != '!' {
            let at = find_separator(&t);
            let key = trim_chars(&slice_of(&t, 0, at));
            assert(t@.subrange(0, at as int) =~= t@.take(at as int));
            let value = if at < t.len() {
                assert(t@.subrange(at + 1, t@.len() as int) =~= t@.skip(at + 1));
                trim_chars(&slice_of(&t, at + 1, t.len()))
            } else {
                let none: Vec<char> = Vec::new();
                assert(none@ =~= Seq::<char>::empty());
                trim_chars(&none)
            };
            if key.len() > 0 {
                let ghost so_far = props@;
                props.push((string_of(&key), string_of(&value)));
                proof {
                    let now = all.take(i + 1).filter(keep);
                    assert forall|k: int| 0 <= k < props@.len() implies (
                    #[trigger] props@[k]).0@ == key_of(trimmed(now[k])) && props@[k].1@
                        == value_of(trimmed(now[k])) by {
                        if k < so_far.len() {
                            assert(props@[k] == so_far[k]);
                            assert(now[k] == seen[k]);
                        }
                    }
                }
            }
        }
        i += 1;
    }
    assert(all.take(all.len() as int) =~= all);
    props
}

/// The value of the last property with the key `key`, if there is one.
pub open spec fn property_value(props: Seq<(String, String)>, key: Seq<char>) -> Option<String>
    decreases props.len(),
{
    if props.len() == 0 {
        None
    } else if props.last().0@ == key {
        Some(props.last().1)
    } else {
        property_value(props.drop_last(), key)
    }
}

/// Looks a property up. Of several with the same key the last counts.
pub fn property(props: &Vec<(String, String)>, key: &str) -> (value: Option<String>)
    ensures
        value == property_value(props@, key@),
{
    let k = key.to_owned();
    let mut i: usize = props.len();
    assert(props@.take(props.len() as int) =~= props@);
    while i > 0
        invariant
            i <= props.len(),
            k@ == key@,
            property_value(props@, key@) == property_value(props@.take(i as int), key@),
        decreases i,
    {
        proof {
            assert(props@.take(i as int).drop_last() =~= props@.take(i - 1));
            assert(props@.take(i as int).last() == props@[i - 1]);
        }
        if props[i - 1].0 == k {
            return Some(props[i - 1].1.clone());
        }
        i -= 1;
    }
    None
}

/// What a switch says: `fallback` if it is blank, else whether it reads
/// `true`, in any case of letters.
pub open spec fn bool_of(raw: Seq<char>, fallback: bool) -> bool {
    if trimmed(raw).len() == 0 {
        fallback
    } else {
        eq_ignore_ascii_case(trimmed(raw), seq!['t', 'r', 'u', 'e'])
    }
}

/// Reads a switch.
pub fn parse_bool(raw: &str, fallback: bool) -> (r: bool)
    ensures
        r == bool_of(raw@, fallback),
{
    let t = trim_chars(&chars_of(raw));
    if t.len() == 0 {
        return fallback;
    }
    let mut want: Vec<char> = Vec::new();
    want.push('t');
    want.push('r');
    want.push('u');
    want.push('e');
    assert(want@ =~= seq!['t', 'r', 'u', 'e']);
    assert(ascii_lower(seq!['t', 'r', 'u', 'e']) =~= seq!['t', 'r', 'u', 'e']);
    chars_eq(&lower_chars(&t), &want)
}

/// The directory that a setting names: the default download directory if
/// the setting is blank, else its text, trimmed and made absolute.
pub open spec fn dir_of(value: Seq<char>, home: Seq<char>, current_dir: Seq<char>) -> Seq<char> {
    if trimmed(value).len() == 0 {
        joined_path(joined_path(home, "Movies"@), "VJDL"@)
    } else {
        absolute_from(trimmed(value), current_dir)
    }
}

/// Reads a directory setting.
pub fn normalize_dir(value: &str, home: &str, current_dir: &str) -> (dir: String)
    ensures
        dir@ == dir_of(value@, home@, current_dir@),
{
    let t = trim(value);
    if t.as_str().is_empty() {
        return default_download_dir(home);
    }
    normalize_root_path(t.as_str(), current_dir)
}

/// One character of a path as it stands in a list of paths: a backslash
/// before a backslash and before a bar.
pub open spec fn list_escaped_char(c: char) -> Seq<char> {
    if c == '\\' || c == '|' {
        seq!['\\', c]
    } else {
        seq![c]
    }
}

/// A path as it stands in a list of paths.
pub open spec fn list_escaped(p: Seq<char>) -> Seq<char>
    decreases p.len(),
{
    if p.len() == 0 {
        Seq::empty()
    } else {
        list_escaped(p.drop_last()) + list_escaped_char(p.last())
    }
}

/// A list of paths as one text: the paths, escaped, with a bar between
/// them.
pub open spec fn encoded_list(paths: Seq<String>) -> Seq<char>
    decreases paths.len(),
{
    if paths.len() == 0 {
        Seq::empty()
    } else if paths.len() == 1 {
        list_escaped(paths[0]@)
    } else {
        encoded_list(paths.drop_last()) + seq!['|'] + list_escaped(paths.last()@)
    }
}

/// Writes a list of paths as one text.
pub fn encode_path_list(paths: &Vec<String>) -> (out: String)
    ensures
        out@ == encoded_list(paths@),
{
    let mut out: Vec<char> = Vec::new();
    let mut i: usize = 0;
    assert(paths@.take(0) =~= Seq::<String>::empty());
    while i < paths.len()
        invariant
            i <= paths.len(),
            out@ == encoded_list(paths@.take(i as int)),
        decreases paths.len() - i,
    {
        let ghost before = out@;
        if i > 0 {
            out.push('|');
        }
        let ghost lead = out@;
        let p = chars_of(paths[i].as_str());
        let mut k: usize = 0;
        assert(p@.take(0) =~= Seq::<char>::empty());
        assert(lead + list_escaped(p@.take(0)) =~= lead);
        while k < p.len()
            invariant
                k <= p.len(),
                out@ == lead + list_escaped(p@.take(k as int)),
            decreases p.len() - k,
        {
            let c = p[k];
            let ghost o = out@;
            if c == '\\' || c == '|' {
                out.push('\\');
                out.push(c);
            } else {
                out.push(c);
            }
            k += 1;
            proof {
                assert(p@.take(k as int).drop_last() =~= p@.take(k - 1));
                assert(p@.take(k as int).last() == c);
                assert(out@ =~= o + list_escaped_char(c));
                assert(out@ =~= lead + list_escaped(p@.take(k as int)));
            }
        }
        assert(p@.take(p.len() as int) =~= p@);
        i += 1;
        proof {
            let now = paths@.take(i as int);
            assert(now.drop_last() =~= paths@.take(i - 1));
            assert(now.last() == paths@[i - 1]);
            if i == 1 {
                assert(now[0] == paths@[0]);
                assert(out@ =~= list_escaped(paths@[0]@));
            } else {
                assert(out@ =~= before + seq!['|'] + list_escaped(paths@[i - 1]@));
            }
        }
    }
    assert(paths@.take(paths.len() as int) =~= paths@);
    string_of(&out)
}

/// The state of reading a list of paths: the paths read so far, the path
/// that is being read, and whether the last character was an escape.
pub struct ListReader {
    pub done: Seq<Seq<char>>,
    pub current: Seq<char>,
    pub escaped: bool,
}

/// `done` with `segment` added, trimmed, unless it is blank.
pub open spec fn with_segment(done: Seq<Seq<char>>, segment: Seq<char>) -> Seq<Seq<char>> {
    if trimmed(segment).len() > 0 {
        done.push(trimmed(segment))
    } else {
        done
    }
}

/// The reader after one more character. After an escape the character is
/// taken as it is; a backslash is an escape; a bar ends the path.
pub open spec fn read_step(r: ListReader, c: char) -> ListReader {
    if r.escaped {
        ListReader { done: r.done, current: r.current.push(c), escaped: false }
    } else if c == '\\' {
        ListReader { done: r.done, current: r.current, escaped: true }
    } else if c == '|' {
        ListReader {
            done: with_segment(r.done, r.current),
            current: Seq::empty(),
            escaped: false,
        }
    } else {
        ListReader { done: r.done, current: r.current.push(c), escaped: false }
    }
}

/// The reader after the characters of `raw`.
pub open spec fn read_all(raw: Seq<char>) -> ListReader
    decreases raw.len(),
{
    if raw.len() == 0 {
        ListReader { done: Seq::empty(), current: Seq::empty(), escaped: false }
    } else {
        read_step(read_all(raw.drop_last()), raw.last())
    }
}

/// The paths that a text lists: its parts between bars that are not
/// escaped, each without the escapes and trimmed; blank parts are passed
/// over.
pub open spec fn decoded_list(raw: Seq<char>) -> Seq<Seq<char>> {
    with_segment(read_all(raw).done, read_all(raw).current)
}

/// Reads a list of paths from one text.
pub fn decode_path_list(raw: &str) -> (out: Vec<String>)
    ensures
        out@.len() == decoded_list(raw@).len(),
        forall|i: int| 0 <= i < out@.len() ==> (#[trigger] out@[i])@ == decoded_list(raw@)[i],
{
    let text = chars_of(raw);
    let mut out: Vec<String> = Vec::new();
    let mut buf: Vec<char> = Vec::new();
    let mut escape = false;
    let mut i: usize = 0;
    assert(text@.take(0) =~= Seq::<char>::empty());
    while i < text.len()
        invariant
            i <= text.len(),
            text@ == raw@,
            out@.len() == read_all(text@.take(i as int)).done.len(),
            forall|k: int|
                0 <= k < out@.len() ==> (#[trigger] out@[k])@ == read_all(
                    text@.take(i as int),
                ).done[k],
            buf@ == read_all(text@.take(i as int)).current,
            escape == read_all(text@.take(i as int)).escaped,
        decreases text.len() - i,
    {
        let c = text[i];
        proof {
            assert(text@.take(i + 1).drop_last() =~= text@.take(i as int));
            assert(text@.take(i + 1).last() == c);
        }
        if escape {
            buf.push(c);
            escape = false;
        } else if c == '\\' {
            escape = true;
        } else if c == '|' {
            let t = trim_chars(&buf);
            if t.len() > 0 {
                out.push(string_of(&t));
            }
            buf = Vec::new();
        } else {
            buf.push(c);
        }
        i += 1;
    }
    assert(text@.take(text.len() as int) =~= text@);
    let t = trim_chars(&buf);
    if t.len() > 0 {
        out.push(string_of(&t));
    }
    out
}


/// The text of a property, trimmed; empty if the property is not there.
pub open spec fn text_of(props: Seq<(String, String)>, key: Seq<char>) -> Seq<char> {
    match property_value(props, key) {
        Some(v) => trimmed(v@),
        None => Seq::empty(),
    }
}

/// Whether the cookies of a browser are to be used.
pub open spec fn cookies_on(props: Seq<(String, String)>) -> bool {
    match property_value(props, "cookies.from_browser.enabled"@) {
        Some(v) => bool_of(v@, false),
        None => false,
    }
}

/// The download directory that the properties name.
pub open spec fn download_dir_of(
    props: Seq<(String, String)>,
    home: Seq<char>,
    current_dir: Seq<char>,
) -> Seq<char> {
    match property_value(props, "download.dir"@) {
        Some(v) => dir_of(v@, home, current_dir),
        None => joined_path(joined_path(home, "Movies"@), "VJDL"@),
    }
}

/// The search roots that the properties name, as they are listed.
pub open spec fn listed_roots(props: Seq<(String, String)>) -> Seq<Seq<char>> {
    match property_value(props, "search.roots"@) {
        Some(v) => decoded_list(v@),
        None => Seq::empty(),
    }
}

/// The trimmed text of a property, or nothing if it is not there.
fn property_text(props: &Vec<(String, String)>, key: &str) -> (text: String)
    ensures
        text@ == text_of(props@, key@),
{
    match property(props, key) {
        Some(v) => trim(v.as_str()),
        None => String::new(),
    }
}

impl SettingsData {
    /// The settings that the properties hold. The sizes are taken as they
    /// are given; the download directory and the search roots are made
    /// absolute; what is missing takes its default.
    pub fn load(
        props: &Vec<(String, String)>,
        sizes: Dimensions,
        home: &str,
        current_dir: &str,
    ) -> (data: SettingsData)
        ensures
            data.window_width == sizes.window_width,
            data.window_height == sizes.window_height,
            data.download_panel_width == sizes.download_panel_width,
            data.search_panel_width == sizes.search_panel_width,
            data.download_dir@ == download_dir_of(props@, home@, current_dir@),
            data.search_roots@.len() == listed_roots(props@).len(),
            forall|i: int|
                0 <= i < data.search_roots@.len() ==> (#[trigger] data.search_roots@[i])@ == dir_of(
                    listed_roots(props@)[i],
                    home@,
                    current_dir@,
                ),
            data.cookies_enabled == cookies_on(props@),
            data.cookies_browser@ == text_of(props@, "cookies.from_browser.browser"@),
            data.cookies_profile@ == text_of(props@, "cookies.from_browser.profile"@),
    {
        let download_dir = match property(props, "download.dir") {
            Some(v) => normalize_dir(v.as_str(), home, current_dir),
            None => default_download_dir(home),
        };
        let raw_roots: Vec<String> = match property(props, "search.roots") {
            Some(v) => decode_path_list(v.as_str()),
            None => Vec::new(),
        };
        let mut search_roots: Vec<String> = Vec::new();
        let mut i: usize = 0;
        while i < raw_roots.len()
            invariant
                i <= raw_roots.len(),
                search_roots@.len() == i,
                forall|k: int|
                    0 <= k < i ==> (#[trigger] search_roots@[k])@ == dir_of(
                        raw_roots@[k]@,
                        home@,
                        current_dir@,
                    ),
            decreases raw_roots.len() - i,
        {
            search_roots.push(normalize_dir(raw_roots[i].as_str(), home, current_dir));
            i += 1;
        }
        let cookies_enabled = match property(props, "cookies.from_browser.enabled") {
            Some(v) => parse_bool(v.as_str(), false),
            None => false,
        };
        SettingsData {
            window_width: sizes.window_width,
            window_height: sizes.window_height,
            download_panel_width: sizes.download_panel_width,
            search_panel_width: sizes.search_panel_width,
            download_dir,
            search_roots,
            cookies_enabled,
            cookies_browser: property_text(props, "cookies.from_browser.browser"),
            cookies_profile: property_text(props, "cookies.from_browser.profile"),
        }
    }

    /// The settings as properties text: one property on each line.
    pub fn to_properties_string(&self) -> (out: String)
        ensures
            out@ == properties_text(*self),
    {
        let mut out: Vec<char> = Vec::new();
        append_text(&mut out, "window.width=");
        append_trimmed(&mut out, self.window_width.as_str());
        append_text(&mut out, "\nwindow.height=");
        append_trimmed(&mut out, self.window_height.as_str());
        append_text(&mut out, "\nlayout.download.width=");
        append_trimmed(&mut out, self.download_panel_width.as_str());
        append_text(&mut out, "\nlayout.search.width=");
        append_trimmed(&mut out, self.search_panel_width.as_str());
        append_text(&mut out, "\ndownload.dir=");
        append_trimmed(&mut out, self.download_dir.as_str());
        append_text(&mut out, "\nsearch.roots=");
        let roots = encode_path_list(&self.search_roots);
        append_text(&mut out, roots.as_str());
        append_text(&mut out, "\ncookies.from_browser.enabled=");
        if self.cookies_enabled {
            append_text(&mut out, "true");
        } else {
            append_text(&mut out, "false");
        }
        append_text(&mut out, "\ncookies.from_browser.browser=");
        append_trimmed(&mut out, self.cookies_browser.as_str());
        append_text(&mut out, "\ncookies.from_browser.profile=");
        append_trimmed(&mut out, self.cookies_profile.as_str());
        assert(out@ =~= properties_text(*self));
        string_of(&out)
    }
}

/// Appends a text.
fn append_text(out: &mut Vec<char>, text: &str)
    ensures
        final(out)@ == old(out)@ + text@,
{
    let mut more = chars_of(text);
    out.append(&mut more);
}

/// Appends a text without the whitespace around it.
fn append_trimmed(out: &mut Vec<char>, text: &str)
    ensures
        final(out)@ == old(out)@ + trimmed(text@),
{
    let mut more = trim_chars(&chars_of(text));
    out.append(&mut more);
}

/// The text of a switch.
pub open spec fn switch_text(on: bool) -> Seq<char> {
    if on {
        "true"@
    } else {
        "false"@
    }
}

/// The properties text of the settings.
pub open spec fn properties_text(data: SettingsData) -> Seq<char> {
    "window.width="@ + trimmed(data.window_width@) + "\nwindow.height="@ + trimmed(
        data.window_height@,
    ) + "\nlayout.download.width="@ + trimmed(data.download_panel_width@)
        + "\nlayout.search.width="@ + trimmed(data.search_panel_width@) + "\ndownload.dir="@
        + trimmed(data.download_dir@) + "\nsearch.roots="@ + encoded_list(data.search_roots@)
        + "\ncookies.from_browser.enabled="@ + switch_text(data.cookies_enabled)
        + "\ncookies.from_browser.browser="@ + trimmed(data.cookies_browser@)
        + "\ncookies.from_browser.profile="@ + trimmed(data.cookies_profile@)
}

/// The text that is written when the settings are saved.
pub fn save_settings(data: &SettingsData) -> (text: String)
    ensures
        text@ == properties_text(*data),
{
    data.to_properties_string()
}

/// The value that names the browser whose cookies are used: the browser,
/// and after a colon the profile if one is set.
pub open spec fn cookie_source(browser: Seq<char>, profile: Seq<char>) -> Seq<char> {
    if profile.len() == 0 {
        browser
    } else {
        browser + seq![':'] + profile
    }
}

/// The arguments that make the downloader use the cookies of a browser:
/// none unless the switch is on and a browser is named.
pub fn load_cookie_args(props: &Vec<(String, String)>) -> (args: Vec<String>)
    ensures
        !cookies_on(props@) || text_of(props@, "cookies.from_browser.browser"@).len() == 0
            ==> args@.len() == 0,
        cookies_on(props@) && text_of(props@, "cookies.from_browser.browser"@).len() > 0 ==> (
        args@.len() == 2 && args@[0]@ == "--cookies-from-browser"@ && args@[1]@ == cookie_source(
            text_of(props@, "cookies.from_browser.browser"@),
            text_of(props@, "cookies.from_browser.profile"@),
        )),
{
    let enabled = match property(props, "cookies.from_browser.enabled") {
        Some(v) => parse_bool(v.as_str(), false),
        None => false,
    };
    if !enabled {
        return Vec::new();
    }
    let browser = property_text(props, "cookies.from_browser.browser");
    if browser.as_str().is_empty() {
        return Vec::new();
    }
    let profile = property_text(props, "cookies.from_browser.profile");
    let value = if profile.as_str().is_empty() {
        browser
    } else {
        let mut text = chars_of(browser.as_str());
        text.push(':');
        let mut rest = chars_of(profile.as_str());
        text.append(&mut rest);
        assert(text@ =~= browser@ + seq![':'] + profile@);
        string_of(&text)
    };
    let mut args: Vec<String> = Vec::new();
    args.push("--cookies-from-browser".to_owned());
    args.push(value);
    args
}

} // verus!
