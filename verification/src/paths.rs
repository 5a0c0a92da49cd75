//! Where the program keeps its files, below the user's home directory.

use crate::normalize::{absolute_from, normalize_root_path};
use crate::pathkey::{joined_path, path_join};
use vstd::prelude::*;

verus! {

/// The directory that everything is kept below: the user's home directory,
/// or the current directory where there is none.
pub fn home_base(home: Option<String>) -> (base: String)
    ensures
        base@ == match home {
            Some(h) => h@,
            None => "."@,
        },
{
    match home {
        Some(h) => h,
        None => ".".to_owned(),
    }
}

/// The directory that downloads go to unless another is set.
pub fn default_download_dir(home: &str) -> (dir: String)
    ensures
        dir@ == joined_path(joined_path(home@, "Movies"@), "VJDL"@),
{
    let movies = path_join(home, "Movies");
    path_join(movies.as_str(), "VJDL")
}

/// The directory of the settings.
pub fn settings_dir(home: &str) -> (dir: String)
    ensures
        dir@ == joined_path(home@, ".vjdownloader"@),
{
    path_join(home, ".vjdownloader")
}

/// The directory of the program's data, which is that of the settings.
pub fn app_data_dir(home: &str) -> (dir: String)
    ensures
        dir@ == joined_path(home@, ".vjdownloader"@),
{
    settings_dir(home)
}

/// The file of the settings.
pub fn settings_file_path(home: &str) -> (path: String)
    ensures
        path@ == joined_path(joined_path(home@, ".vjdownloader"@), "settings.properties"@),
{
    let dir = settings_dir(home);
    path_join(dir.as_str(), "settings.properties")
}

/// The file of the search index.
pub fn search_index_db_path(home: &str) -> (path: String)
    ensures
        path@ == joined_path(joined_path(home@, ".vjdownloader"@), "search_index.sqlite3"@),
{
    let dir = app_data_dir(home);
    path_join(dir.as_str(), "search_index.sqlite3")
}

/// A path made absolute: an absolute path is kept, a relative one is taken
/// from `current_dir`.
pub fn make_absolute_path(raw: &str, current_dir: &str) -> (path: String)
    ensures
        path@ == absolute_from(raw@, current_dir@),
{
    normalize_root_path(raw, current_dir)
}

/// The directory of the tools.
pub fn bin_dir(home: &str) -> (dir: String)
    ensures
        dir@ == joined_path(joined_path(home@, ".vjdownloader"@), "bin"@),
{
    let dir = app_data_dir(home);
    path_join(dir.as_str(), "bin")
}

/// The path of the tool with the file name `file_name`.
pub open spec fn tool_path_of(home: Seq<char>, file_name: Seq<char>) -> Seq<char> {
    joined_path(joined_path(joined_path(home, ".vjdownloader"@), "bin"@), file_name)
}

/// The path of a tool: its file name in the directory of the tools.
pub fn resolve_tool_path(home: &str, file_name: &str) -> (path: String)
    ensures
        path@ == tool_path_of(home@, file_name@),
{
    let dir = bin_dir(home);
    path_join(dir.as_str(), file_name)
}

/// The path of the downloader.
pub fn yt_dlp_path(home: &str) -> (path: String)
    ensures
        path@ == tool_path_of(home@, "yt-dlp"@),
{
    resolve_tool_path(home, "yt-dlp")
}

/// The path of the transcoder.
pub fn ffmpeg_path(home: &str) -> (path: String)
    ensures
        path@ == tool_path_of(home@, "ffmpeg"@),
{
    resolve_tool_path(home, "ffmpeg")
}

/// The path of the media prober.
pub fn ffprobe_path(home: &str) -> (path: String)
    ensures
        path@ == tool_path_of(home@, "ffprobe"@),
{
    resolve_tool_path(home, "ffprobe")
}

/// The path of the script runtime.
pub fn deno_path(home: &str) -> (path: String)
    ensures
        path@ == tool_path_of(home@, "deno"@),
{
    resolve_tool_path(home, "deno")
}

} // verus!
