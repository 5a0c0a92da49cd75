//! The rules of the theme download: reading sizes from response headers,
//! matching theme identifiers, choosing among video candidates, finding the
//! video link in a page, and naming the output file.

use crate::decimal::{decimal_u64, parse_u64};
use crate::settings::{lines_of, split_lines};
use crate::text::{
    ascii_lower, ascii_upper, chars_eq, chars_of, contains, ends_with, eq_ignore_ascii_case,
    find_from, has_prefix, has_substring, has_suffix, lower_chars, occurs_at, slice_of,
    starts_with, string_of, trim_chars, trimmed, upper_chars,
};
use vstd::prelude::*;

verus! {

/// What follows the header name on a line that holds the header `name`: the
/// line is trimmed and its ASCII letters are folded to lower case first.
pub open spec fn header_value(line: Seq<char>, name: Seq<char>) -> Option<Seq<char>> {
    let lower = ascii_lower(trimmed(line));
    if has_prefix(lower, name) {
        Some(lower.skip(name.len() as int))
    } else {
        None
    }
}

/// The length that a line states, if it is a `Content-Length` header with a
/// number.
pub open spec fn length_on_line(line: Seq<char>) -> Option<u64> {
    match header_value(line, "content-length:"@) {
        Some(v) => decimal_u64(trimmed(v)),
        None => None,
    }
}

/// What follows the last slash of `v`, if it has one.
pub open spec fn after_last_slash(v: Seq<char>) -> Option<Seq<char>>
    decreases v.len(),
{
    if v.len() == 0 {
        None
    } else if v.last() == '/' {
        Some(Seq::empty())
    } else {
        match after_last_slash(v.drop_last()) {
            Some(t) => Some(t.push(v.last())),
            None => None,
        }
    }
}

/// The total size that a line states, if it is a `Content-Range` header
/// with a number after its last slash.
pub open spec fn total_on_line(line: Seq<char>) -> Option<u64> {
    match header_value(line, "content-range:"@) {
        Some(v) => match after_last_slash(v) {
            Some(t) => decimal_u64(trimmed(t)),
            None => None,
        },
        None => None,
    }
}

/// The length that the last `Content-Length` header with a number states.
pub open spec fn content_length_of(lines: Seq<Seq<char>>) -> Option<u64>
    decreases lines.len(),
{
    if lines.len() == 0 {
        None
    } else {
        match length_on_line(lines.last()) {
            Some(n) => Some(n),
            None => content_length_of(lines.drop_last()),
        }
    }
}

/// The total that the last `Content-Range` header with a number states.
pub open spec fn content_range_total_of(lines: Seq<Seq<char>>) -> Option<u64>
    decreases lines.len(),
{
    if lines.len() == 0 {
        None
    } else {
        match total_on_line(lines.last()) {
            Some(n) => Some(n),
            None => content_range_total_of(lines.drop_last()),
        }
    }
}

/// What follows the header name on a line that holds the header.
fn read_header(line: &Vec<char>, name: &str) -> (r: Option<Vec<char>>)
    ensures
        match r {
            Some(v) => header_value(line@, name@) == Some(v@),
            None => header_value(line@, name@) is None,
        },
{
    let lower = lower_chars(&trim_chars(line));
    let want = chars_of(name);
    if starts_with(&lower, &want) {
        let v = slice_of(&lower, want.len(), lower.len());
        assert(v@ =~= lower@.skip(want@.len() as int));
        Some(v)
    } else {
        None
    }
}

/// The length that a line states.
fn read_length(line: &Vec<char>) -> (r: Option<u64>)
    ensures
        r == length_on_line(line@),
{
    match read_header(line, "content-length:") {
        Some(v) => parse_u64(&trim_chars(&v)),
        None => None,
    }
}

/// What follows the last slash of `v`.
fn read_after_last_slash(v: &Vec<char>) -> (r: Option<Vec<char>>)
    ensures
        match r {
            Some(t) => after_last_slash(v@) == Some(t@),
            None => after_last_slash(v@) is None,
        },
{
    let mut i: usize = v.len();
    let ghost tail = Seq::<char>::empty();
    assert(v@.take(v.len() as int) =~= v@);
    assert(v@.skip(v.len() as int) =~= Seq::<char>::empty());
    while i > 0
        invariant
            i <= v.len(),
            after_last_slash(v@) == match after_last_slash(v@.take(i as int)) {
                Some(t) => Some(t + v@.skip(i as int)),
                None => None::<Seq<char>>,
            },
        decreases i,
    {
        proof {
            assert(v@.take(i as int).drop_last() =~= v@.take(i - 1));
            assert(v@.take(i as int).last() == v@[i - 1]);
            assert(v@.skip(i - 1) =~= seq![v@[i - 1]] + v@.skip(i as int));
        }
        if v[i - 1] == '/' {
            let t = slice_of(v, i, v.len());
            assert(t@ =~= Seq::<char>::empty() + v@.skip(i as int));
            return Some(t);
        }
        proof {
            match after_last_slash(v@.take(i - 1)) {
                Some(t) => {
                    assert(t.push(v@[i - 1]) + v@.skip(i as int) =~= t + v@.skip(i - 1));
                },
                None => {},
            }
        }
        i -= 1;
    }
    assert(v@.take(0) =~= Seq::<char>::empty());
    None
}

/// The total that a line states.
fn read_total(line: &Vec<char>) -> (r: Option<u64>)
    ensures
        r == total_on_line(line@),
{
    match read_header(line, "content-range:") {
        Some(v) => match read_after_last_slash(&v) {
            Some(t) => parse_u64(&trim_chars(&t)),
            None => None,
        },
        None => None,
    }
}

/// The length that the response headers state: that of the last
/// `Content-Length` header whose value is a number.
pub fn parse_content_length_from_headers(headers: &str) -> (r: Option<u64>)
    ensures
        r == content_length_of(lines_of(headers@)),
{
    let lines = split_lines(&chars_of(headers));
    let ghost all = lines_of(headers@);
    let mut result: Option<u64> = None;
    let mut i: usize = 0;
    assert(all.take(0) =~= Seq::<Seq<char>>::empty());
    while i < lines.len()
        invariant
            i <= lines.len(),
            lines@.len() == all.len(),
            forall|k: int| 0 <= k < lines@.len() ==> (#[trigger] lines@[k])@ == all[k],
            result == content_length_of(all.take(i as int)),
        decreases lines.len() - i,
    {
        proof {
            assert(all.take(i + 1).drop_last() =~= all.take(i as int));
            assert(all.take(i + 1).last() == all[i as int]);
        }
        if let Some(n) = read_length(&lines[i]) {
            result = Some(n);
        }
        i += 1;
    }
    assert(all.take(all.len() as int) =~= all);
    result
}

/// The total size that the response headers state: the number after the
/// last slash of the last `Content-Range` header that has one.
pub fn parse_content_range_total(headers: &str) -> (r: Option<u64>)
    ensures
        r == content_range_total_of(lines_of(headers@)),
{
    let lines = split_lines(&chars_of(headers));
    let ghost all = lines_of(headers@);
    let mut result: Option<u64> = None;
    let mut i: usize = 0;
    assert(all.take(0) =~= Seq::<Seq<char>>::empty());
    while i < lines.len()
        invariant
            i <= lines.len(),
            lines@.len() == all.len(),
            forall|k: int| 0 <= k < lines@.len() ==> (#[trigger] lines@[k])@ == all[k],
            result == content_range_total_of(all.take(i as int)),
        decreases lines.len() - i,
    {
        proof {
            assert(all.take(i + 1).drop_last() =~= all.take(i as int));
            assert(all.take(i + 1).last() == all[i as int]);
        }
        if let Some(n) = read_total(&lines[i]) {
            result = Some(n);
        }
        i += 1;
    }
    assert(all.take(all.len() as int) =~= all);
    result
}

/// Whether `c` may stand in a file name as it is: an ASCII letter or digit,
/// a hyphen, an underscore or a dot.
pub open spec fn is_file_name_char(c: char) -> bool {
    ('a' <= c && c <= 'z') || ('A' <= c && c <= 'Z') || ('0' <= c && c <= '9') || c == '-' || c
        == '_' || c == '.'
}

/// `raw` with every character that may not stand in a file name replaced
/// by an underscore.
pub open spec fn sanitized(raw: Seq<char>) -> Seq<char> {
    Seq::new(
        raw.len(),
        |i: int|
            if is_file_name_char(raw[i]) {
                raw[i]
            } else {
                '_'
            },
    )
}

/// A part of a file name made safe: every character that may not stand in
/// a file name becomes an underscore; an empty text becomes `animethemes`.
pub fn sanitize_filename_component(raw: &str) -> (out: String)
    ensures
        raw@.len() > 0 ==> out@ == sanitized(raw@),
        raw@.len() == 0 ==> out@ == "animethemes"@,
{
    let text = chars_of(raw);
    if text.len() == 0 {
        return "animethemes".to_owned();
    }
    let mut out: Vec<char> = Vec::new();
    let mut i: usize = 0;
    while i < text.len()
        invariant
            i <= text.len(),
            out@ == sanitized(text@.take(i as int)),
        decreases text.len() - i,
    {
        let c = text[i];
        if ('a' <= c && c <= 'z') || ('A' <= c && c <= 'Z') || ('0' <= c && c <= '9') || c == '-'
            || c == '_' || c == '.' {
            out.push(c);
        } else {
            out.push('_');
        }
        i += 1;
        assert(out@ =~= sanitized(text@.take(i as int)));
    }
    assert(text@.take(text.len() as int) =~= text@);
    string_of(&out)
}

/// Whether the identifier `candidate` of a theme is the one that `target`
/// asks for: they are equal but for the case of ASCII letters, or `target`
/// is `candidate` followed by a version or a separator.
pub open spec fn matches_identifier(target: Seq<char>, candidate: Seq<char>) -> bool {
    let t = ascii_upper(target);
    let c = ascii_upper(candidate);
    eq_ignore_ascii_case(target, candidate) || (has_prefix(t, c) && (t.len() == c.len()
        || t[c.len() as int] == 'V' || t[c.len() as int] == '-' || t[c.len() as int] == '_'))
}

/// Whether a theme with the identifier `candidate` is the theme that
/// `target` names.
pub fn is_matching_theme_identifier(target: &str, candidate: &str) -> (r: bool)
    ensures
        r == matches_identifier(target@, candidate@),
{
    let t = chars_of(target);
    let c = chars_of(candidate);
    if chars_eq(&lower_chars(&t), &lower_chars(&c)) {
        return true;
    }
    let tu = upper_chars(&t);
    let cu = upper_chars(&c);
    if !starts_with(&tu, &cu) {
        return false;
    }
    if tu.len() == cu.len() {
        return true;
    }
    let next = tu[cu.len()];
    next == 'V' || next == '-' || next == '_'
}

/// A video that may be downloaded for a theme.
#[derive(Debug)]
pub struct AnimeThemesVideoCandidate {
    pub link: String,
    pub resolution: i64,
    pub source_priority: i64,
}

/// The rank of a source: disc before web before DVD before anything else.
pub open spec fn priority_of(source: Seq<char>) -> i64 {
    let s = ascii_upper(source);
    if s == seq!['B', 'D'] {
        3
    } else if s == seq!['W', 'E', 'B'] {
        2
    } else if s == seq!['D', 'V', 'D'] {
        1
    } else {
        0
    }
}

/// The rank of a source of video.
pub fn source_priority(source: &str) -> (p: i64)
    ensures
        p == priority_of(source@),
{
    let s = upper_chars(&chars_of(source));
    if s.len() == 2 && s[0] == 'B' && s[1] == 'D' {
        assert(s@ =~= seq!['B', 'D']);
        3
    } else if s.len() == 3 && s[0] == 'W' && s[1] == 'E' && s[2] == 'B' {
        assert(s@ =~= seq!['W', 'E', 'B']);
        2
    } else if s.len() == 3 && s[0] == 'D' && s[1] == 'V' && s[2] == 'D' {
        assert(s@ =~= seq!['D', 'V', 'D']);
        1
    } else {
        0
    }
}

/// Whether the candidate `a` is at most as good as `b`: by resolution, then
/// by the rank of the source.
pub open spec fn at_most_as_good(a: AnimeThemesVideoCandidate, b: AnimeThemesVideoCandidate) -> bool {
    a.resolution < b.resolution || (a.resolution == b.resolution && a.source_priority
        <= b.source_priority)
}

/// Whether the candidate at `i` is the best: none is better, and none
/// after it is as good.
pub open spec fn is_best(c: Seq<AnimeThemesVideoCandidate>, i: int) -> bool {
    &&& 0 <= i < c.len()
    &&& forall|j: int| 0 <= j < c.len() ==> at_most_as_good(#[trigger] c[j], c[i])
    &&& forall|j: int| i < j < c.len() ==> !at_most_as_good(c[i], #[trigger] c[j])
}

/// What a candidate holds.
pub struct CandidateView {
    pub link: Seq<char>,
    pub resolution: i64,
    pub source_priority: i64,
}

impl View for AnimeThemesVideoCandidate {
    type V = CandidateView;

    open spec fn view(&self) -> CandidateView {
        CandidateView {
            link: self.link@,
            resolution: self.resolution,
            source_priority: self.source_priority,
        }
    }
}

/// What the candidates of `c` hold.
pub open spec fn candidate_views(c: Seq<AnimeThemesVideoCandidate>) -> Seq<CandidateView> {
    c.map_values(|x: AnimeThemesVideoCandidate| x@)
}

/// Whether `a` is at most as good as `b`.
pub open spec fn not_better(a: CandidateView, b: CandidateView) -> bool {
    a.resolution < b.resolution || (a.resolution == b.resolution && a.source_priority
        <= b.source_priority)
}

/// The best of the candidates: the highest resolution, among those the
/// best source, among those the last.
pub open spec fn best_of(c: Seq<CandidateView>) -> Option<CandidateView>
    decreases c.len(),
{
    if c.len() == 0 {
        None
    } else {
        match best_of(c.drop_last()) {
            Some(b) => if not_better(b, c.last()) {
                Some(c.last())
            } else {
                Some(b)
            },
            None => Some(c.last()),
        }
    }
}

/// The link of the best of the candidates.
pub open spec fn best_link(c: Seq<CandidateView>) -> Option<Seq<char>> {
    match best_of(c) {
        Some(b) => Some(b.link),
        None => None,
    }
}

/// The link of the best candidate: the highest resolution, among those the
/// best source, among those the last.
pub fn pick_best_video_link(candidates: Vec<AnimeThemesVideoCandidate>) -> (r: Option<String>)
    ensures
        r is None <==> candidates@.len() == 0,
        r matches Some(link) ==> exists|i: int|
            is_best(candidates@, i) && link == (#[trigger] candidates@[i]).link,
        crate::pathkey::opt_view(r) == best_link(candidate_views(candidates@)),
{
    if candidates.len() == 0 {
        return None;
    }
    let ghost views = candidate_views(candidates@);
    let mut best: usize = 0;
    let mut i: usize = 1;
    assert(views.take(1).drop_last() =~= Seq::<CandidateView>::empty());
    assert(views.take(1).last() == views[0]);
    assert(best_of(views.take(1).drop_last()) is None);
    assert(best_of(views.take(1)) == Some(views[0]));
    while i < candidates.len()
        invariant
            1 <= i <= candidates.len(),
            best < i,
            views == candidate_views(candidates@),
            best_of(views.take(i as int)) == Some(views[best as int]),
            forall|j: int| 0 <= j < i ==> at_most_as_good(#[trigger] candidates@[j], candidates@[best as int]),
            forall|j: int|
                best < j < i ==> !at_most_as_good(candidates@[best as int], #[trigger] candidates@[j]),
        decreases candidates.len() - i,
    {
        let a = &candidates[best];
        let b = &candidates[i];
        proof {
            assert(views.take(i + 1).drop_last() =~= views.take(i as int));
            assert(views.take(i + 1).last() == views[i as int]);
        }
        if a.resolution < b.resolution || (a.resolution == b.resolution && a.source_priority
            <= b.source_priority) {
            best = i;
        }
        i += 1;
    }
    assert(views.take(views.len() as int) =~= views);
    assert(is_best(candidates@, best as int));
    Some(candidates[best].link.clone())
}

/// Whether a link is one to a video file of the theme site: it starts
/// with `https://` and contains `.webm`, in any case of letters.
pub open spec fn is_webm_link(url: Seq<char>) -> bool {
    has_prefix(ascii_lower(url), "https://"@) && has_substring(ascii_lower(url), ".webm"@)
}

/// Whether a link is one to a video file of the theme site.
pub fn is_animethemes_webm_url(url: &str) -> (r: bool)
    ensures
        r == is_webm_link(url@),
{
    let l = lower_chars(&chars_of(url));
    starts_with(&l, &chars_of("https://")) && contains(&l, &chars_of(".webm"))
}

/// Whether `needle` occurs in `s` at `a` and nowhere before.
pub open spec fn is_first_occurrence(s: Seq<char>, needle: Seq<char>, a: int) -> bool {
    occurs_at(s, needle, a) && forall|k: int| 0 <= k < a ==> !occurs_at(s, needle, k)
}

/// The first place at which `needle` occurs in `s`, if it occurs.
pub open spec fn first_occurrence(s: Seq<char>, needle: Seq<char>) -> Option<int> {
    if has_substring(s, needle) {
        Some(choose|a: int| is_first_occurrence(s, needle, a))
    } else {
        None
    }
}

/// The place as a number without bounds.
pub open spec fn place(r: Option<usize>) -> Option<int> {
    match r {
        Some(a) => Some(a as int),
        None => None,
    }
}

/// The first place at which `needle` occurs in `s`.
pub fn find_first(s: &Vec<char>, needle: &Vec<char>) -> (r: Option<usize>)
    ensures
        place(r) == first_occurrence(s@, needle@),
        r matches Some(a) ==> a + needle@.len() <= s@.len(),
{
    let r = find_from(s, needle, 0);
    proof {
        match r {
            Some(a) => {
                assert(is_first_occurrence(s@, needle@, a as int));
                let b = choose|b: int| is_first_occurrence(s@, needle@, b);
                assert(a == b) by {
                    if a < b {
                        assert(!occurs_at(s@, needle@, a as int));
                    } else if b < a {
                        assert(!occurs_at(s@, needle@, b));
                    }
                }
            },
            None => {
                if has_substring(s@, needle@) {
                    let at = choose|at: int| occurs_at(s@, needle@, at);
                    assert(!occurs_at(s@, needle@, at));
                }
            },
        }
    }
    r
}

/// Where the link starts: after the mark that comes first.
pub open spec fn mark_end(og: Option<int>, video: Option<int>) -> Option<int> {
    match (og, video) {
        (Some(o), Some(v)) => if o <= v {
            Some(o + "name=\"og:video\" content=\""@.len())
        } else {
            Some(v + "video src=\""@.len())
        },
        (Some(o), None) => Some(o + "name=\"og:video\" content=\""@.len()),
        (None, Some(v)) => Some(v + "video src=\""@.len()),
        (None, None) => None,
    }
}

/// `t`, if it is a link to a video file: starts with `https://` and ends
/// with `.webm`.
pub open spec fn as_video_link(t: Seq<char>) -> Option<Seq<char>> {
    if has_prefix(t, "https://"@) && has_suffix(t, ".webm"@) {
        Some(t)
    } else {
        None
    }
}

/// The video link that a page gives: the text up to the next double quote
/// after the first of the two marks of a video, if that text is a link to a
/// video file.
pub open spec fn page_link(html: Seq<char>) -> Option<Seq<char>> {
    match mark_end(
        first_occurrence(html, "name=\"og:video\" content=\""@),
        first_occurrence(html, "video src=\""@),
    ) {
        None => None,
        Some(from) => match first_occurrence(html.skip(from), seq!['"']) {
            None => None,
            Some(end) => as_video_link(html.skip(from).take(end)),
        },
    }
}

/// The link to the video file that a page of the theme site names.
pub fn extract_animethemes_webm(html: &str) -> (r: Option<String>)
    ensures
        match r {
            Some(link) => page_link(html@) == Some(link@),
            None => page_link(html@) is None,
        },
{
    let text = chars_of(html);
    let og_mark = chars_of("name=\"og:video\" content=\"");
    let video_mark = chars_of("video src=\"");
    let og = find_first(&text, &og_mark);
    let video = find_first(&text, &video_mark);
    let og_end: Option<usize> = match og {
        Some(o) => {
            let total: usize = text.len();
            let width: usize = og_mark.len();
            assert(o + width <= total);
            Some(o + width)
        },
        None => None,
    };
    let video_end: Option<usize> = match video {
        Some(v) => {
            let total: usize = text.len();
            let width: usize = video_mark.len();
            assert(v + width <= total);
            Some(v + width)
        },
        None => None,
    };
    let from: usize = match (og_end, video_end) {
        (Some(o), Some(v)) => if o - og_mark.len() <= v - video_mark.len() {
            o
        } else {
            v
        },
        (Some(o), None) => o,
        (None, Some(v)) => v,
        (None, None) => {
            return None;
        },
    };
    assert(mark_end(place(og), place(video)) == Some(from as int));
    let after = slice_of(&text, from, text.len());
    assert(after@ =~= text@.skip(from as int));
    let mut quote: Vec<char> = Vec::new();
    quote.push('"');
    assert(quote@ =~= seq!['"']);
    let end = match find_first(&after, &quote) {
        Some(e) => e,
        None => {
            return None;
        },
    };
    let link = slice_of(&after, 0, end);
    assert(link@ =~= after@.take(end as int));
    if starts_with(&link, &chars_of("https://")) && ends_with(&link, &chars_of(".webm")) {
        Some(string_of(&link))
    } else {
        None
    }
}

} // verus!
