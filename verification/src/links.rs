//! Addresses of the theme site: the page of a theme, the link of a video,
//! and the name of the file that a theme is stored under.

use crate::animethemes::{sanitize_filename_component, sanitized};
use crate::decimal::{decimal_digits, u128_digits};
use crate::pathkey::{joined_path, opt_view, path_join};
use crate::text::{
    chars_eq, chars_of, eq_ignore_ascii_case, lower_chars, string_of, trim_chars,
    trimmed,
};
use vstd::prelude::*;

verus! {

/// An address as the `url` crate holds it.
#[verifier::external_type_specification]
#[verifier::external_body]
pub struct ExUrl(url::Url);

/// The address that a text is parsed to, if it is one.
pub uninterp spec fn parsed_url(text: Seq<char>) -> Option<url::Url>;

/// The text of an address.
pub uninterp spec fn url_text(u: url::Url) -> Seq<char>;

/// The segments of the path of an address, if it has a path of segments.
pub uninterp spec fn segments_of(u: url::Url) -> Option<Seq<Seq<char>>>;

/// The host of an address, if it has one.
pub uninterp spec fn host_of(u: url::Url) -> Option<Seq<char>>;

/// The address after its host was asked to be set to `host`.
pub uninterp spec fn with_host(u: url::Url, host: Seq<char>) -> url::Url;

/// `Url::parse` gives, for a text, always the same address or none.
#[verifier::external_body]
pub(crate) fn url_parse(text: &str) -> (r: Option<url::Url>)
    ensures
        r == parsed_url(text@),
{
    url::Url::parse(text).ok()
}

/// `Url::path_segments` gives the parts of the path between slashes, and
/// none for an address that cannot be a base.
#[verifier::external_body]
pub(crate) fn url_path_segments(u: &url::Url) -> (r: Option<Vec<String>>)
    ensures
        match r {
            Some(v) => segments_of(*u) == Some(v@.map_values(|s: String| s@)),
            None => segments_of(*u) is None,
        },
{
    u.path_segments().map(|parts| parts.map(|p| p.to_string()).collect())
}

/// `Url::host_str` gives the host as text, if the address has one.
#[verifier::external_body]
pub(crate) fn url_host(u: &url::Url) -> (r: Option<String>)
    ensures
        opt_view(r) == host_of(*u),
{
    u.host_str().map(|h| h.to_string())
}

/// `Url::set_host` sets the host, or leaves the address as it is where the
/// host cannot be set; either way the address afterwards depends only on
/// the address before and on the host that was asked for.
#[verifier::external_body]
pub(crate) fn url_set_host(u: &mut url::Url, host: &str)
    ensures
        *final(u) == with_host(*old(u), host@),
{
    let _ = u.set_host(Some(host));
}

/// The text of an address, as `Url::as_str` gives it.
#[verifier::external_body]
pub(crate) fn url_to_string(u: &url::Url) -> (r: String)
    ensures
        r@ == url_text(*u),
{
    u.as_str().to_string()
}

/// The segments that name something: those that are not blank.
pub open spec fn is_named() -> spec_fn(Seq<char>) -> bool {
    |s: Seq<char>| trimmed(s).len() > 0
}

/// The show and the theme that the segments of a page of the theme site
/// name: the two segments after a first segment `anime`.
pub open spec fn slugs_of(segments: Seq<Seq<char>>) -> Option<(Seq<char>, Seq<char>)> {
    let named = segments.filter(is_named());
    if named.len() >= 3 && eq_ignore_ascii_case(named[0], "anime"@) {
        Some((named[1], named[2]))
    } else {
        None
    }
}

/// The show and the theme that the address of a page names.
pub open spec fn page_slugs(url: Seq<char>) -> Option<(Seq<char>, Seq<char>)> {
    match parsed_url(url) {
        Some(u) => match segments_of(u) {
            Some(segments) => slugs_of(segments),
            None => None,
        },
        None => None,
    }
}

/// Whether a text reads `anime`, in any case of letters.
fn is_anime(text: &Vec<char>) -> (r: bool)
    ensures
        r == eq_ignore_ascii_case(text@, "anime"@),
{
    chars_eq(&lower_chars(text), &lower_chars(&chars_of("anime")))
}

/// The segments that are not blank.
fn named_segments(segments: &Vec<String>) -> (out: Vec<Vec<char>>)
    ensures
        out@.map_values(|v: Vec<char>| v@) == segments@.map_values(|s: String| s@).filter(
            is_named(),
        ),
{
    let ghost all = segments@.map_values(|s: String| s@);
    let mut out: Vec<Vec<char>> = Vec::new();
    let mut i: usize = 0;
    assert(all.take(0).filter(is_named()) =~= Seq::<Seq<char>>::empty()) by {
        reveal(Seq::filter);
    }
    assert(out@.map_values(|v: Vec<char>| v@) =~= all.take(0).filter(is_named()));
    while i < segments.len()
        invariant
            i <= segments.len(),
            all == segments@.map_values(|s: String| s@),
            out@.map_values(|v: Vec<char>| v@) == all.take(i as int).filter(is_named()),
        decreases segments.len() - i,
    {
        proof {
            all.take(i as int).lemma_filter_push(all[i as int], is_named());
            assert(all.take(i + 1) =~= all.take(i as int).push(all[i as int]));
        }
        let s = chars_of(segments[i].as_str());
        if trim_chars(&s).len() > 0 {
            let ghost before = out@.map_values(|v: Vec<char>| v@);
            out.push(s);
            assert(out@.map_values(|v: Vec<char>| v@) =~= before.push(all[i as int]));
        }
        i += 1;
    }
    assert(all.take(all.len() as int) =~= all);
    out
}

/// The show and the theme that the address of a page of the theme site
/// names.
pub fn parse_animethemes_page_slugs(url: &str) -> (r: Option<(String, String)>)
    ensures
        match r {
            Some(pair) => page_slugs(url@) == Some((pair.0@, pair.1@)),
            None => page_slugs(url@) is None,
        },
{
    let parsed = match url_parse(url) {
        Some(u) => u,
        None => {
            return None;
        },
    };
    let segments = match url_path_segments(&parsed) {
        Some(s) => s,
        None => {
            return None;
        },
    };
    let named = named_segments(&segments);
    if named.len() < 3 || !is_anime(&named[0]) {
        return None;
    }
    Some((string_of(&named[1]), string_of(&named[2])))
}

/// The link of a video as it is used: the address in its normal form, with
/// the host of the site in place of the host of its programming interface.
pub open spec fn video_link(link: Seq<char>) -> Option<Seq<char>> {
    match parsed_url(link) {
        Some(u) => if host_of(u) matches Some(h) && eq_ignore_ascii_case(
            h,
            "api.animethemes.moe"@,
        ) {
            Some(url_text(with_host(u, "animethemes.moe"@)))
        } else {
            Some(url_text(u))
        },
        None => None,
    }
}

/// The link of a video as it is used for the download.
pub fn normalize_animethemes_video_link(link: &str) -> (r: Option<String>)
    ensures
        opt_view(r) == video_link(link@),
{
    let mut parsed = match url_parse(link) {
        Some(u) => u,
        None => {
            return None;
        },
    };
    let api = match url_host(&parsed) {
        Some(h) => chars_eq(
            &lower_chars(&chars_of(h.as_str())),
            &lower_chars(&chars_of("api.animethemes.moe")),
        ),
        None => false,
    };
    if api {
        url_set_host(&mut parsed, "animethemes.moe");
    }
    Some(url_to_string(&parsed))
}

/// The segments of `segments` up to, not including, position `n` that go
/// into a file name, taken from the back: at most two, and none that reads
/// `anime` unless it is the only segment.
pub open spec fn picked_back(segments: Seq<Seq<char>>, n: int, picked: Seq<Seq<char>>) -> Seq<
    Seq<char>,
>
    decreases n,
{
    if n <= 0 || picked.len() >= 2 {
        picked
    } else if eq_ignore_ascii_case(segments[n - 1], "anime"@) && segments.len() > 1 {
        picked_back(segments, n - 1, picked)
    } else {
        picked_back(segments, n - 1, seq![segments[n - 1]] + picked)
    }
}

/// `parts` with a hyphen between them.
pub open spec fn hyphenated(parts: Seq<Seq<char>>) -> Seq<char>
    decreases parts.len(),
{
    if parts.len() == 0 {
        Seq::empty()
    } else if parts.len() == 1 {
        parts[0]
    } else {
        hyphenated(parts.drop_last()) + seq!['-'] + parts.last()
    }
}

/// The part of the file name that comes from the address: the last two
/// segments that name something, made safe; `animethemes` if nothing is
/// left of them.
pub open spec fn name_base(segments: Seq<Seq<char>>) -> Seq<char> {
    let named = segments.map_values(|s: Seq<char>| trimmed(s)).filter(
        |s: Seq<char>| s.len() > 0,
    );
    let picked = picked_back(named, named.len() as int, Seq::empty());
    let parts = if picked.len() == 0 {
        seq![named.last()]
    } else {
        picked
    };
    let base = hyphenated(parts);
    let safe = if base.len() == 0 {
        "animethemes"@
    } else {
        sanitized(base)
    };
    if trimmed(safe).len() == 0 {
        "animethemes"@
    } else {
        safe
    }
}

/// The file name for a theme: the base, the time in milliseconds, and the
/// extension of the tracked media type.
pub open spec fn theme_file_name(base: Seq<char>, timestamp: u128) -> Seq<char> {
    base + seq!['-'] + decimal_digits(timestamp as nat) + ".mp4"@
}

/// The base of the file name that the address of a theme gives, if the
/// address has segments that name something.
pub open spec fn name_base_of(url: Seq<char>) -> Option<Seq<char>> {
    match parsed_url(url) {
        Some(u) => match segments_of(u) {
            Some(segments) => if segments.map_values(|s: Seq<char>| trimmed(s)).filter(
                |s: Seq<char>| s.len() > 0,
            ).len() > 0 {
                Some(name_base(segments))
            } else {
                None
            },
            None => None,
        },
        None => None,
    }
}

/// The file that a theme is stored in: in the output directory, named
/// after the last segments of its address, or `animethemes` where the
/// address gives no name, with the time in milliseconds.
pub open spec fn output_path_of(url: Seq<char>, output_dir: Seq<char>, timestamp: u128) -> Seq<
    char,
> {
    match name_base_of(url) {
        Some(base) => joined_path(output_dir, theme_file_name(base, timestamp)),
        None => joined_path(output_dir, theme_file_name("animethemes"@, timestamp)),
    }
}

/// The file name for a theme.
fn file_name_for(base: &Vec<char>, timestamp: u128) -> (name: String)
    ensures
        name@ == theme_file_name(base@, timestamp),
{
    let mut out: Vec<char> = Vec::new();
    let mut b = slice_all(base);
    out.append(&mut b);
    out.push('-');
    let mut digits = u128_digits(timestamp);
    out.append(&mut digits);
    let mut ext = chars_of(".mp4");
    out.append(&mut ext);
    assert(out@ =~= theme_file_name(base@, timestamp));
    string_of(&out)
}

/// A copy of a text.
fn slice_all(v: &Vec<char>) -> (out: Vec<char>)
    ensures
        out@ == v@,
{
    let out = crate::text::slice_of(v, 0, v.len());
    assert(v@.subrange(0, v@.len() as int) =~= v@);
    out
}

/// The trimmed segments that are not empty.
fn trimmed_segments(segments: &Vec<String>) -> (out: Vec<Vec<char>>)
    ensures
        out@.map_values(|v: Vec<char>| v@) == segments@.map_values(|s: String| s@).map_values(
            |s: Seq<char>| trimmed(s),
        ).filter(|s: Seq<char>| s.len() > 0),
{
    let ghost keep = |s: Seq<char>| s.len() > 0;
    let ghost all = segments@.map_values(|s: String| s@).map_values(|s: Seq<char>| trimmed(s));
    let mut out: Vec<Vec<char>> = Vec::new();
    let mut i: usize = 0;
    assert(all.take(0).filter(keep) =~= Seq::<Seq<char>>::empty()) by {
        reveal(Seq::filter);
    }
    assert(out@.map_values(|v: Vec<char>| v@) =~= all.take(0).filter(keep));
    while i < segments.len()
        invariant
            i <= segments.len(),
            keep == (|s: Seq<char>| s.len() > 0),
            all == segments@.map_values(|s: String| s@).map_values(|s: Seq<char>| trimmed(s)),
            out@.map_values(|v: Vec<char>| v@) == all.take(i as int).filter(keep),
        decreases segments.len() - i,
    {
        proof {
            all.take(i as int).lemma_filter_push(all[i as int], keep);
            assert(all.take(i + 1) =~= all.take(i as int).push(all[i as int]));
        }
        let t = trim_chars(&chars_of(segments[i].as_str()));
        if t.len() > 0 {
            let ghost before = out@.map_values(|v: Vec<char>| v@);
            out.push(t);
            assert(out@.map_values(|v: Vec<char>| v@) =~= before.push(all[i as int]));
        }
        i += 1;
    }
    assert(all.take(all.len() as int) =~= all);
    out
}

/// The part of the file name that comes from the segments of the address.
fn base_of_segments(named: &Vec<Vec<char>>) -> (base: Vec<char>)
    requires
        named@.len() > 0,
    ensures
        base@ == hyphenated(
            if picked_back(
                named@.map_values(|v: Vec<char>| v@),
                named@.len() as int,
                Seq::empty(),
            ).len() == 0 {
                seq![named@.last()@]
            } else {
                picked_back(named@.map_values(|v: Vec<char>| v@), named@.len() as int, Seq::empty())
            },
        ),
{
    let ghost views = named@.map_values(|v: Vec<char>| v@);
    let mut picked: Vec<usize> = Vec::new();
    let mut n: usize = named.len();
    let ghost none = Seq::<Seq<char>>::empty();
    assert(Seq::new(picked@.len(), |k: int| views[picked@[k] as int]) =~= none);
    while n > 0 && picked.len() < 2
        invariant
            n <= named.len(),
            views == named@.map_values(|v: Vec<char>| v@),
            forall|k: int| 0 <= k < picked@.len() ==> (#[trigger] picked@[k]) < named@.len(),
            picked_back(views, views.len() as int, Seq::empty()) == picked_back(
                views,
                n as int,
                Seq::new(picked@.len(), |k: int| views[picked@[k] as int]),
            ),
        decreases n,
    {
        let ghost before = Seq::new(picked@.len(), |k: int| views[picked@[k] as int]);
        if !(is_anime(&named[n - 1]) && named.len() > 1) {
            picked.insert(0, n - 1);
            assert(Seq::new(picked@.len(), |k: int| views[picked@[k] as int]) =~= seq![
                views[n - 1],
            ] + before);
        }
        n -= 1;
    }
    let ghost chosen = Seq::new(picked@.len(), |k: int| views[picked@[k] as int]);
    assert(chosen == picked_back(views, views.len() as int, Seq::empty()));
    if picked.len() == 0 {
        picked.push(named.len() - 1);
    }
    let ghost parts = Seq::new(picked@.len(), |k: int| views[picked@[k] as int]);
    assert(parts =~= if chosen.len() == 0 {
        seq![named@.last()@]
    } else {
        chosen
    });
    let mut out: Vec<char> = Vec::new();
    let mut i: usize = 0;
    assert(parts.take(0) =~= Seq::<Seq<char>>::empty());
    while i < picked.len()
        invariant
            i <= picked.len(),
            views == named@.map_values(|v: Vec<char>| v@),
            forall|k: int| 0 <= k < picked@.len() ==> (#[trigger] picked@[k]) < named@.len(),
            parts == Seq::new(picked@.len(), |k: int| views[picked@[k] as int]),
            out@ == hyphenated(parts.take(i as int)),
        decreases picked.len() - i,
    {
        let ghost before = out@;
        if i > 0 {
            out.push('-');
        }
        let mut part = slice_all(&named[picked[i]]);
        out.append(&mut part);
        i += 1;
        proof {
            let now = parts.take(i as int);
            assert(now.drop_last() =~= parts.take(i - 1));
            assert(now.last() == parts[i - 1]);
            if i == 1 {
                assert(now[0] == parts[0]);
                assert(out@ =~= parts[0]);
            } else {
                assert(out@ =~= before + seq!['-'] + parts[i - 1]);
            }
        }
    }
    assert(parts.take(parts.len() as int) =~= parts);
    out
}

/// The file that a theme is stored in. `timestamp` is the time in
/// milliseconds.
pub fn build_animethemes_output_path(url: &str, output_dir: &str, timestamp: u128) -> (path: String)
    ensures
        path@ == output_path_of(url@, output_dir@, timestamp),
{
    let fallback = chars_of("animethemes");
    let segments = match url_parse(url) {
        Some(u) => url_path_segments(&u),
        None => None,
    };
    let named = match segments {
        Some(s) => trimmed_segments(&s),
        None => Vec::new(),
    };
    if named.len() == 0 {
        let name = file_name_for(&fallback, timestamp);
        return path_join(output_dir, name.as_str());
    }
    let base = base_of_segments(&named);
    let safe = chars_of(sanitize_filename_component(string_of(&base).as_str()).as_str());
    let name = if trim_chars(&safe).len() == 0 {
        file_name_for(&fallback, timestamp)
    } else {
        file_name_for(&safe, timestamp)
    };
    path_join(output_dir, name.as_str())
}

} // verus!
