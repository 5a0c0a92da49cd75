//! The rules of a download: the arguments that the downloader is started
//! with, the texts of the progress display, and the names of the files that
//! a download leaves.

use crate::decimal::{decimal_digits, two_wide, u64_digits, u64_two_digits};
use crate::normalize::{lowercase_of, to_lowercase};
use crate::pathkey::{holds_separator, is_path_separator, path_with_extension, with_extension};
use crate::text::{chars_of, contains, has_substring, string_of, trim_chars, trimmed};
use vstd::prelude::*;

verus! {

/// The error text that stands for a download that the user cancelled.
pub const CANCELLED_ERROR: &'static str = "__CANCELLED__";

/// The texts of `args`.
pub open spec fn texts(args: Seq<String>) -> Seq<Seq<char>> {
    args.map_values(|s: String| s@)
}

/// The arguments that every start of the downloader begins with, after the
/// cookie arguments.
pub open spec fn common_args() -> Seq<Seq<char>> {
    seq![
        "--extractor-args"@,
        "youtube:player_client=web"@,
        "--extractor-args"@,
        "youtube:skip=translated_subs"@,
        "--concurrent-fragments"@,
        "4"@,
    ]
}

/// The arguments of the first attempt: only video that needs no recoding.
pub open spec fn base_args(ffmpeg_path: Seq<char>, cookie_args: Seq<Seq<char>>) -> Seq<Seq<char>> {
    seq!["--no-playlist"@] + cookie_args + common_args() + seq![
        "-S"@,
        "vcodec:h264,res,acodec:m4a"@,
        "--match-filter"@,
        "vcodec~='(?i)^(avc|h264)'"@,
        "--merge-output-format"@,
        "mp4"@,
        "--ffmpeg-location"@,
        ffmpeg_path,
        "--js-runtimes"@,
        "deno"@,
    ]
}

/// The arguments of the second attempt: any video up to 720 lines, recoded.
pub open spec fn fallback_args(ffmpeg_path: Seq<char>, cookie_args: Seq<Seq<char>>) -> Seq<
    Seq<char>,
> {
    seq!["--no-playlist"@] + cookie_args + common_args() + seq![
        "-f"@,
        "bv*[height<=720]+ba/b[height<=720]"@,
        "--recode-video"@,
        "mp4"@,
        "--postprocessor-args"@,
        "VideoConvertor:-c:v h264_videotoolbox -b:v 5M -pix_fmt yuv420p"@,
        "--ffmpeg-location"@,
        ffmpeg_path,
        "--js-runtimes"@,
        "deno"@,
    ]
}

/// Appends one argument.
fn push_arg(args: &mut Vec<String>, text: &str)
    ensures
        texts(final(args)@) == texts(old(args)@).push(text@),
{
    args.push(text.to_owned());
    assert(texts(args@) =~= texts(old(args)@).push(text@));
}

/// Appends copies of arguments.
fn push_args(args: &mut Vec<String>, more: &Vec<String>)
    ensures
        texts(final(args)@) == texts(old(args)@) + texts(more@),
{
    let mut i: usize = 0;
    assert(texts(args@) =~= texts(old(args)@) + texts(more@.take(0)));
    while i < more.len()
        invariant
            i <= more.len(),
            texts(args@) == texts(old(args)@) + texts(more@.take(i as int)),
        decreases more.len() - i,
    {
        let ghost before = args@;
        args.push(more[i].clone());
        i += 1;
        assert(more@.take(i as int) =~= more@.take(i - 1).push(more@[i - 1]));
        assert(texts(args@) =~= texts(before).push(more@[i - 1]@));
        assert(texts(more@.take(i as int)) =~= texts(more@.take(i - 1)).push(more@[i - 1]@));
        assert(texts(args@) =~= texts(old(args)@) + texts(more@.take(i as int)));
    }
    assert(more@.take(more.len() as int) =~= more@);
}

/// Appends the arguments that every start of the downloader has.
fn push_common_args(args: &mut Vec<String>)
    ensures
        texts(final(args)@) == texts(old(args)@) + common_args(),
{
    push_arg(args, "--extractor-args");
    push_arg(args, "youtube:player_client=web");
    push_arg(args, "--extractor-args");
    push_arg(args, "youtube:skip=translated_subs");
    push_arg(args, "--concurrent-fragments");
    push_arg(args, "4");
    assert(texts(args@) =~= texts(old(args)@) + common_args());
}

/// The arguments of the first attempt of a download.
pub fn base_yt_dlp_args(ffmpeg_path: &str, cookie_args: &Vec<String>) -> (args: Vec<String>)
    ensures
        texts(args@) == base_args(ffmpeg_path@, texts(cookie_args@)),
{
    let mut args: Vec<String> = Vec::new();
    assert(texts(args@) =~= Seq::<Seq<char>>::empty());
    push_arg(&mut args, "--no-playlist");
    push_args(&mut args, cookie_args);
    push_common_args(&mut args);
    push_arg(&mut args, "-S");
    push_arg(&mut args, "vcodec:h264,res,acodec:m4a");
    push_arg(&mut args, "--match-filter");
    push_arg(&mut args, "vcodec~='(?i)^(avc|h264)'");
    push_arg(&mut args, "--merge-output-format");
    push_arg(&mut args, "mp4");
    push_arg(&mut args, "--ffmpeg-location");
    push_arg(&mut args, ffmpeg_path);
    push_arg(&mut args, "--js-runtimes");
    push_arg(&mut args, "deno");
    assert(texts(args@) =~= base_args(ffmpeg_path@, texts(cookie_args@)));
    args
}

/// The arguments of the second attempt of a download.
pub fn fallback_yt_dlp_args(ffmpeg_path: &str, cookie_args: &Vec<String>) -> (args: Vec<String>)
    ensures
        texts(args@) == fallback_args(ffmpeg_path@, texts(cookie_args@)),
{
    let mut args: Vec<String> = Vec::new();
    assert(texts(args@) =~= Seq::<Seq<char>>::empty());
    push_arg(&mut args, "--no-playlist");
    push_args(&mut args, cookie_args);
    push_common_args(&mut args);
    push_arg(&mut args, "-f");
    push_arg(&mut args, "bv*[height<=720]+ba/b[height<=720]");
    push_arg(&mut args, "--recode-video");
    push_arg(&mut args, "mp4");
    push_arg(&mut args, "--postprocessor-args");
    push_arg(&mut args, "VideoConvertor:-c:v h264_videotoolbox -b:v 5M -pix_fmt yuv420p");
    push_arg(&mut args, "--ffmpeg-location");
    push_arg(&mut args, ffmpeg_path);
    push_arg(&mut args, "--js-runtimes");
    push_arg(&mut args, "deno");
    assert(texts(args@) =~= fallback_args(ffmpeg_path@, texts(cookie_args@)));
    args
}

/// Whether an address is one of the theme site.
pub fn is_animethemes_url(url: &str) -> (r: bool)
    ensures
        r == has_substring(lowercase_of(url@), "animethemes.moe"@),
{
    let lower = to_lowercase(url);
    contains(&chars_of(lower.as_str()), &chars_of("animethemes.moe"))
}

/// The marks by which a line of the downloader's output shows that the
/// download itself is over and the file is being worked on.
pub open spec fn post_processing_marks() -> Seq<Seq<char>> {
    seq![
        "[merger]"@,
        "[ffmpeg]"@,
        "[extractaudio]"@,
        "[postprocess]"@,
        "[videoconvertor]"@,
        "[videoconverter]"@,
        "[audioconvertor]"@,
        "[audioconverter]"@,
        "[fixup"@,
        "merging formats into"@,
        "post-process"@,
    ]
}

/// Whether `lower` holds one of `marks`.
pub open spec fn holds_mark(lower: Seq<char>, marks: Seq<Seq<char>>) -> bool {
    exists|k: int| 0 <= k < marks.len() && has_substring(lower, #[trigger] marks[k])
}

/// Whether a line of the downloader's output, in lower case, holds one of
/// the marks of post-processing.
pub fn is_post_processing_line(line: &str) -> (r: bool)
    ensures
        r == holds_mark(lowercase_of(line@), post_processing_marks()),
{
    let lower = chars_of(to_lowercase(line).as_str());
    let mut marks: Vec<Vec<char>> = Vec::new();
    marks.push(chars_of("[merger]"));
    marks.push(chars_of("[ffmpeg]"));
    marks.push(chars_of("[extractaudio]"));
    marks.push(chars_of("[postprocess]"));
    marks.push(chars_of("[videoconvertor]"));
    marks.push(chars_of("[videoconverter]"));
    marks.push(chars_of("[audioconvertor]"));
    marks.push(chars_of("[audioconverter]"));
    marks.push(chars_of("[fixup"));
    marks.push(chars_of("merging formats into"));
    marks.push(chars_of("post-process"));
    let ghost want = post_processing_marks();
    assert(marks@.len() == want.len());
    assert(forall|k: int| 0 <= k < marks@.len() ==> (#[trigger] marks@[k])@ == want[k]);
    let mut i: usize = 0;
    while i < marks.len()
        invariant
            i <= marks.len(),
            want == post_processing_marks(),
            lower@ == lowercase_of(line@),
            marks@.len() == want.len(),
            forall|k: int| 0 <= k < marks@.len() ==> (#[trigger] marks@[k])@ == want[k],
            forall|k: int| 0 <= k < i ==> !has_substring(lower@, #[trigger] want[k]),
        decreases marks.len() - i,
    {
        if contains(&lower, &marks[i]) {
            assert(has_substring(lower@, want[i as int]));
            return true;
        }
        i += 1;
    }
    false
}

/// The elapsed time as it is shown after a status text: nothing for a blank
/// time, else the time in brackets with its label.
pub open spec fn elapsed_note(elapsed: Seq<char>) -> Seq<char> {
    if trimmed(elapsed).len() == 0 {
        Seq::empty()
    } else {
        " (経過: "@ + elapsed + ")"@
    }
}

/// The elapsed time as it is shown after a status text.
pub fn format_elapsed(elapsed: &str) -> (out: String)
    ensures
        out@ == elapsed_note(elapsed@),
{
    let text = chars_of(elapsed);
    if trim_chars(&text).len() == 0 {
        return String::new();
    }
    let mut out = chars_of(" (経過: ");
    let mut body = text;
    out.append(&mut body);
    let mut tail = chars_of(")");
    out.append(&mut tail);
    string_of(&out)
}

/// A span of seconds as clock text: minutes and seconds with two digits
/// each, and the hours before them if there are any.
pub open spec fn clock_text(secs: u64) -> Seq<char> {
    let hours = (secs / 3600) as nat;
    let minutes = ((secs % 3600) / 60) as nat;
    let seconds = (secs % 60) as nat;
    if hours > 0 {
        decimal_digits(hours) + seq![':'] + two_wide(decimal_digits(minutes)) + seq![':']
            + two_wide(decimal_digits(seconds))
    } else {
        two_wide(decimal_digits(minutes)) + seq![':'] + two_wide(decimal_digits(seconds))
    }
}

/// The time that a download has taken, as clock text.
pub fn elapsed_text(secs: u64) -> (out: String)
    ensures
        out@ == clock_text(secs),
{
    let hours: u64 = secs / 3600;
    let minutes: u64 = (secs % 3600) / 60;
    let seconds: u64 = secs % 60;
    let mut out: Vec<char> = Vec::new();
    if hours > 0 {
        let mut h = u64_digits(hours);
        out.append(&mut h);
        out.push(':');
    }
    let mut m = u64_two_digits(minutes);
    out.append(&mut m);
    out.push(':');
    let mut s = u64_two_digits(seconds);
    out.append(&mut s);
    assert(out@ =~= clock_text(secs));
    string_of(&out)
}

/// The stem of the file names that a download is stored under: the stem of
/// the wanted name, or `video` where that is missing or blank.
pub open spec fn stem_or_default(stem: Option<String>) -> Seq<char> {
    match stem {
        Some(s) => if trimmed(s@).len() > 0 {
            s@
        } else {
            "video"@
        },
        None => "video"@,
    }
}

/// The stem of the file names that a download is stored under.
pub fn destination_stem(stem: Option<String>) -> (out: String)
    ensures
        out@ == stem_or_default(stem),
{
    match stem {
        Some(s) => {
            if trim_chars(&chars_of(s.as_str())).len() > 0 {
                s
            } else {
                "video".to_owned()
            }
        },
        None => "video".to_owned(),
    }
}

/// The name of the `idx`-th place to store a file whose name is taken: the
/// stem, the number in brackets, and the extension if there is one.
pub open spec fn numbered_name(stem: Seq<char>, ext: Seq<char>, idx: u32) -> Seq<char> {
    if ext.len() == 0 {
        stem + seq![' ', '('] + decimal_digits(idx as nat) + seq![')']
    } else {
        stem + seq![' ', '('] + decimal_digits(idx as nat) + seq![')', '.'] + ext
    }
}

/// The name of the `idx`-th place to try for a file whose name is taken.
pub fn destination_name(stem: &str, ext: &str, idx: u32) -> (out: String)
    ensures
        out@ == numbered_name(stem@, ext@, idx),
{
    let mut out = chars_of(stem);
    out.push(' ');
    out.push('(');
    let mut number = u64_digits(idx as u64);
    out.append(&mut number);
    out.push(')');
    let e = chars_of(ext);
    if e.len() > 0 {
        out.push('.');
        let mut rest = e;
        out.append(&mut rest);
    }
    assert(out@ =~= numbered_name(stem@, ext@, idx));
    string_of(&out)
}

/// The largest number that a place to store a file is tried with.
pub const MAX_DESTINATION_INDEX: u32 = 9999;

/// The number with which the next place is tried, after the place with the
/// number `idx` was found taken; none when the numbers are used up.
pub fn next_destination_index(idx: u32) -> (next: Option<u32>)
    ensures
        idx < MAX_DESTINATION_INDEX ==> next == Some((idx + 1) as u32),
        idx >= MAX_DESTINATION_INDEX ==> next is None,
{
    if idx < MAX_DESTINATION_INDEX {
        Some(idx + 1)
    } else {
        None
    }
}


/// Whether a text holds a separator of path components.
pub fn has_separator(text: &str) -> (r: bool)
    ensures
        r == holds_separator(text@),
{
    let v = chars_of(text);
    let mut i: usize = 0;
    while i < v.len()
        invariant
            i <= v.len(),
            v@ == text@,
            forall|k: int| 0 <= k < i ==> !is_path_separator(#[trigger] v@[k]),
        decreases v.len() - i,
    {
        if std::path::is_separator(v[i]) {
            return true;
        }
        i += 1;
    }
    false
}

/// The path with its extension set to `ext`; the path as it is where `ext`
/// holds a separator of path components and can be no extension.
pub fn with_checked_extension(path: &str, ext: &str) -> (out: String)
    ensures
        out@ == if holds_separator(ext@) {
            path@
        } else {
            with_extension(path@, ext@)
        },
{
    if has_separator(ext) {
        path.to_owned()
    } else {
        path_with_extension(path, ext)
    }
}

/// The file that a video is downloaded to before it is converted: the
/// output file with the extension `webm.part`.
pub fn build_animethemes_temp_webm_path(output_path: &str) -> (path: String)
    ensures
        path@ == if holds_separator("webm.part"@) {
            output_path@
        } else {
            with_extension(output_path@, "webm.part"@)
        },
{
    with_checked_extension(output_path, "webm.part")
}

/// The number of names that are tried for the backup of a tool.
pub const MAX_BACKUP_INDEX: u32 = 1000;

/// The name of the `idx`-th place to keep a tool while it is updated: the
/// name of the tool, a mark, the id of this process, and the number if it
/// is not the first; once the numbers are used up, the mark `fallback`.
pub open spec fn backup_name(file_name: Seq<char>, pid: u32, idx: u32) -> Seq<char> {
    if idx >= MAX_BACKUP_INDEX {
        file_name + ".update-backup.fallback"@
    } else if idx == 0 {
        file_name + ".update-backup."@ + decimal_digits(pid as nat)
    } else {
        file_name + ".update-backup."@ + decimal_digits(pid as nat) + seq!['.'] + decimal_digits(
            idx as nat,
        )
    }
}

/// The name of the `idx`-th place to try for the backup of a tool.
/// `file_name` is the name of the tool, or none if it has no name that is
/// text, which stands for `tool`.
pub fn next_backup_path(file_name: Option<String>, pid: u32, idx: u32) -> (out: String)
    ensures
        out@ == backup_name(
            match file_name {
                Some(n) => n@,
                None => "tool"@,
            },
            pid,
            idx,
        ),
{
    let mut out = match file_name {
        Some(n) => chars_of(n.as_str()),
        None => chars_of("tool"),
    };
    if idx >= MAX_BACKUP_INDEX {
        let mut tail = chars_of(".update-backup.fallback");
        out.append(&mut tail);
        return string_of(&out);
    }
    let mut mark = chars_of(".update-backup.");
    out.append(&mut mark);
    let mut id = u64_digits(pid as u64);
    out.append(&mut id);
    if idx > 0 {
        out.push('.');
        let mut number = u64_digits(idx as u64);
        out.append(&mut number);
    }
    string_of(&out)
}

/// A downloaded file with the time of its last change.
#[derive(Debug)]
pub struct Download {
    pub path: String,
    /// The time of the last change, in nanoseconds since the epoch.
    pub modified: i128,
}

/// `sorted` with `item` put before the first file that is older.
pub open spec fn insert_by_time(sorted: Seq<Download>, item: Download) -> Seq<Download>
    decreases sorted.len(),
{
    if sorted.len() == 0 {
        seq![item]
    } else if sorted[0].modified < item.modified {
        seq![item] + sorted
    } else {
        seq![sorted[0]] + insert_by_time(sorted.drop_first(), item)
    }
}

/// The files with the newest first; files of the same time stay in the
/// order in which they were found.
pub open spec fn newest_first(items: Seq<Download>) -> Seq<Download>
    decreases items.len(),
{
    if items.len() == 0 {
        Seq::empty()
    } else {
        insert_by_time(newest_first(items.drop_last()), items.last())
    }
}

/// Inserting before the first older file is inserting at its place.
proof fn lemma_insert_by_time(sorted: Seq<Download>, item: Download, pos: int)
    requires
        0 <= pos <= sorted.len(),
        forall|k: int| 0 <= k < pos ==> (#[trigger] sorted[k]).modified >= item.modified,
        pos < sorted.len() ==> sorted[pos].modified < item.modified,
    ensures
        insert_by_time(sorted, item) == sorted.insert(pos, item),
    decreases sorted.len(),
{
    if sorted.len() == 0 {
        assert(seq![item] =~= sorted.insert(pos, item));
    } else if pos == 0 {
        assert(seq![item] + sorted =~= sorted.insert(0, item));
    } else {
        let rest = sorted.drop_first();
        assert forall|k: int| 0 <= k < pos - 1 implies (#[trigger] rest[k]).modified
            >= item.modified by {
            assert(rest[k] == sorted[k + 1]);
        }
        if pos - 1 < rest.len() {
            assert(rest[pos - 1] == sorted[pos]);
        }
        lemma_insert_by_time(rest, item, pos - 1);
        assert(sorted[0].modified >= item.modified);
        assert(seq![sorted[0]] + rest.insert(pos - 1, item) =~= sorted.insert(pos, item));
    }
}

/// The list of downloads as it is shown: the newest first.
pub fn load_mp4_files(items: Vec<Download>) -> (out: Vec<Download>)
    ensures
        out@ == newest_first(items@),
{
    let ghost all = items@;
    let mut out: Vec<Download> = Vec::new();
    assert(all.take(0) =~= Seq::<Download>::empty());
    for item in it: items
        invariant
            it.seq() == all,
            out@ == newest_first(all.take(it.index() as int)),
    {
        proof {
            assert(all.take(it.index() + 1).drop_last() =~= all.take(it.index() as int));
            assert(all.take(it.index() + 1).last() == item);
        }
        let mut pos: usize = 0;
        while pos < out.len() && out[pos].modified >= item.modified
            invariant
                pos <= out.len(),
                forall|k: int| 0 <= k < pos ==> (#[trigger] out@[k]).modified >= item.modified,
            decreases out.len() - pos,
        {
            pos += 1;
        }
        proof {
            lemma_insert_by_time(out@, item, pos as int);
        }
        out.insert(pos, item);
    }
    assert(all.take(all.len() as int) =~= all);
    out
}

} // verus!
