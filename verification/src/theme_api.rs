//! Finding the video of a theme in what the programming interface of the
//! theme site answers: a document of resources that refer to each other by
//! id, or a document in which the themes are nested in their show.

use crate::animethemes::{
    best_link, candidate_views, is_animethemes_webm_url, is_matching_theme_identifier,
    is_webm_link, matches_identifier, pick_best_video_link, priority_of, source_priority,
    AnimeThemesVideoCandidate, CandidateView,
};
use crate::decimal::{i64_digits, signed_digits};
use crate::json::{
    as_list, as_text, as_whole, json_as_array, json_as_i64, json_as_str, json_get,
    json_is_object, json_of, json_parse, jsons_of, member, parsed_json, Json,
};
use crate::links::{normalize_animethemes_video_link, video_link};
use crate::pathkey::opt_view;
use crate::text::{chars_eq, chars_of, eq_ignore_ascii_case, lower_chars, string_of};
use vstd::prelude::*;

verus! {

/// How deep arrays of shows may be nested in a document.
pub const MAX_NESTING: usize = 128;

/// The text of the member `key`, if it is a string.
pub open spec fn member_text(j: Json, key: Seq<char>) -> Option<Seq<char>> {
    match member(j, key) {
        Some(x) => as_text(x),
        None => None,
    }
}

/// The value of the member `key`, if it is a whole number.
pub open spec fn member_whole(j: Json, key: Seq<char>) -> Option<i64> {
    match member(j, key) {
        Some(x) => as_whole(x),
        None => None,
    }
}

/// The items of the member `key`, if it is an array; none otherwise.
pub open spec fn member_items(j: Json, key: Seq<char>) -> Seq<Json> {
    match member(j, key) {
        Some(x) => match as_list(x) {
            Some(items) => items,
            None => Seq::empty(),
        },
        None => Seq::empty(),
    }
}

/// Where the attributes of a resource stand: in its member `attributes`,
/// or in the resource itself if it has no such member.
pub open spec fn attributes_of(j: Json) -> Json {
    match member(j, "attributes"@) {
        Some(a) => a,
        None => j,
    }
}

/// Whether a theme is the one that `slug` names: by its slug, or by its
/// type followed by its sequence number.
pub open spec fn theme_matches(theme: Json, slug: Seq<char>) -> bool {
    let a = attributes_of(theme);
    (member_text(a, "slug"@) matches Some(s) && matches_identifier(slug, s)) || (member_text(
        a,
        "type"@,
    ) matches Some(t) && member_whole(a, "sequence"@) matches Some(n) && matches_identifier(
        slug,
        t + signed_digits(n as int),
    ))
}

/// Whether a resource is of the type `kind`, in any case of letters.
pub open spec fn kind_is(item: Json, kind: Seq<char>) -> bool {
    member_text(item, "type"@) matches Some(k) && eq_ignore_ascii_case(k, kind)
}

/// Whether a resource is the one of the type `kind` with the id `id`.
pub open spec fn is_resource(item: Json, kind: Seq<char>, id: Seq<char>) -> bool {
    kind_is(item, kind) && member_text(item, "id"@) == Some(id)
}

/// The first resource of the type `kind` with the id `id`.
pub open spec fn find_resource(included: Seq<Json>, kind: Seq<char>, id: Seq<char>) -> Option<
    Json,
>
    decreases included.len(),
{
    if included.len() == 0 {
        None
    } else if is_resource(included[0], kind, id) {
        Some(included[0])
    } else {
        find_resource(included.drop_first(), kind, id)
    }
}

/// The ids of the items that have one, in order.
pub open spec fn ids_of(items: Seq<Json>) -> Seq<Seq<char>>
    decreases items.len(),
{
    if items.len() == 0 {
        Seq::empty()
    } else {
        match member_text(items.last(), "id"@) {
            Some(id) => ids_of(items.drop_last()).push(id),
            None => ids_of(items.drop_last()),
        }
    }
}

/// The ids that a relation of a resource refers to: those of the items of
/// its data, or the one of its data if that is a single object.
pub open spec fn relation_ids(resource: Json, relation: Seq<char>) -> Seq<Seq<char>> {
    match member(resource, "relationships"@) {
        Some(r) => match member(r, relation) {
            Some(x) => match member(x, "data"@) {
                Some(d) => match d {
                    Json::List(items) => ids_of(items),
                    Json::Object(_) => match member_text(d, "id"@) {
                        Some(id) => seq![id],
                        None => Seq::empty(),
                    },
                    _ => Seq::empty(),
                },
                None => Seq::empty(),
            },
            None => Seq::empty(),
        },
        None => Seq::empty(),
    }
}

/// The candidate that a video gives: its link as it is used, if that is a
/// link to a video file; its resolution, 0 where it is missing; the rank of
/// its source.
pub open spec fn candidate_of(video: Json) -> Option<CandidateView> {
    let a = attributes_of(video);
    match member_text(a, "link"@) {
        Some(l) => match video_link(l) {
            Some(link) => if is_webm_link(link) {
                Some(
                    CandidateView {
                        link,
                        resolution: match member_whole(a, "resolution"@) {
                            Some(n) => n,
                            None => 0i64,
                        },
                        source_priority: priority_of(
                            match member_text(a, "source"@) {
                                Some(s) => s,
                                None => Seq::empty(),
                            },
                        ),
                    },
                )
            } else {
                None
            },
            None => None,
        },
        None => None,
    }
}

/// The candidate of a video as a sequence: one or none.
pub open spec fn candidates_of_video(video: Option<Json>) -> Seq<CandidateView> {
    match video {
        Some(v) => match candidate_of(v) {
            Some(c) => seq![c],
            None => Seq::empty(),
        },
        None => Seq::empty(),
    }
}

/// The text of a member that is a string.
fn get_text(v: &serde_json::Value, key: &str) -> (r: Option<String>)
    ensures
        opt_view(r) == member_text(json_of(*v), key@),
{
    match json_get(v, key) {
        Some(x) => json_as_str(x),
        None => None,
    }
}

/// The value of a member that is a whole number.
fn get_whole(v: &serde_json::Value, key: &str) -> (r: Option<i64>)
    ensures
        r == member_whole(json_of(*v), key@),
{
    match json_get(v, key) {
        Some(x) => json_as_i64(x),
        None => None,
    }
}

/// Where the attributes of a resource stand.
fn get_attributes<'a>(v: &'a serde_json::Value) -> (r: &'a serde_json::Value)
    ensures
        json_of(*r) == attributes_of(json_of(*v)),
{
    match json_get(v, "attributes") {
        Some(a) => a,
        None => v,
    }
}

/// The type of a resource.
pub fn jsonapi_type(resource: &serde_json::Value) -> (r: Option<String>)
    ensures
        opt_view(r) == member_text(json_of(*resource), "type"@),
{
    get_text(resource, "type")
}

/// Whether two texts are equal but for the case of ASCII letters.
fn same_ignoring_case(a: &str, b: &str) -> (r: bool)
    ensures
        r == eq_ignore_ascii_case(a@, b@),
{
    chars_eq(&lower_chars(&chars_of(a)), &lower_chars(&chars_of(b)))
}

/// Whether a resource is of the type `kind`.
fn has_kind(item: &serde_json::Value, kind: &str) -> (r: bool)
    ensures
        r == kind_is(json_of(*item), kind@),
{
    match jsonapi_type(item) {
        Some(k) => same_ignoring_case(k.as_str(), kind),
        None => false,
    }
}

/// Whether a theme is the one that `theme_slug` names.
pub fn theme_matches_slug(theme: &serde_json::Value, theme_slug: &str) -> (r: bool)
    ensures
        r == theme_matches(json_of(*theme), theme_slug@),
{
    let attributes = get_attributes(theme);
    if let Some(slug) = get_text(attributes, "slug") {
        if is_matching_theme_identifier(theme_slug, slug.as_str()) {
            return true;
        }
    }
    let theme_type = match get_text(attributes, "type") {
        Some(t) => t,
        None => {
            return false;
        },
    };
    let sequence = match get_whole(attributes, "sequence") {
        Some(n) => n,
        None => {
            return false;
        },
    };
    let mut composed = chars_of(theme_type.as_str());
    let mut digits = i64_digits(sequence);
    composed.append(&mut digits);
    is_matching_theme_identifier(theme_slug, string_of(&composed).as_str())
}

/// The first resource of the type `kind` with the id `id`.
pub fn find_jsonapi_resource<'a>(
    included: &'a Vec<serde_json::Value>,
    kind: &str,
    id: &str,
) -> (r: Option<&'a serde_json::Value>)
    ensures
        match find_resource(jsons_of(included@), kind@, id@) {
            Some(x) => r matches Some(y) && json_of(*y) == x,
            None => r is None,
        },
{
    let ghost all = jsons_of(included@);
    let wanted = id.to_owned();
    let mut i: usize = 0;
    assert(all.skip(0) =~= all);
    while i < included.len()
        invariant
            i <= included.len(),
            all == jsons_of(included@),
            wanted@ == id@,
            find_resource(all, kind@, id@) == find_resource(
                all.skip(i as int),
                kind@,
                id@,
            ),
        decreases included.len() - i,
    {
        let item = &included[i];
        proof {
            assert(all.skip(i as int)[0] == json_of(*item));
            assert(all.skip(i as int).drop_first() =~= all.skip(i + 1));
        }
        let same_id = match get_text(item, "id") {
            Some(found) => found == wanted,
            None => false,
        };
        if has_kind(item, kind) && same_id {
            return Some(item);
        }
        i += 1;
    }
    None
}

/// The ids of the items that have one.
fn collect_ids(items: &Vec<serde_json::Value>) -> (out: Vec<String>)
    ensures
        out@.map_values(|s: String| s@) == ids_of(jsons_of(items@)),
{
    let ghost all = jsons_of(items@);
    let mut out: Vec<String> = Vec::new();
    let mut i: usize = 0;
    assert(all.take(0) =~= Seq::<Json>::empty());
    assert(out@.map_values(|s: String| s@) =~= ids_of(all.take(0)));
    while i < items.len()
        invariant
            i <= items.len(),
            all == jsons_of(items@),
            out@.map_values(|s: String| s@) == ids_of(all.take(i as int)),
        decreases items.len() - i,
    {
        proof {
            assert(all.take(i + 1).drop_last() =~= all.take(i as int));
            assert(all.take(i + 1).last() == json_of(items@[i as int]));
        }
        if let Some(id) = get_text(&items[i], "id") {
            let ghost before = out@.map_values(|s: String| s@);
            out.push(id);
            assert(out@.map_values(|s: String| s@) =~= before.push(id@));
        }
        i += 1;
    }
    assert(all.take(all.len() as int) =~= all);
    out
}

/// The ids that a relation of a resource refers to.
pub fn relationship_ids(resource: &serde_json::Value, relation: &str) -> (out: Vec<String>)
    ensures
        out@.map_values(|s: String| s@) == relation_ids(json_of(*resource), relation@),
{
    let none: Vec<String> = Vec::new();
    assert(none@.map_values(|s: String| s@) =~= Seq::<Seq<char>>::empty());
    let relationships = match json_get(resource, "relationships") {
        Some(r) => r,
        None => {
            return none;
        },
    };
    let related = match json_get(relationships, relation) {
        Some(x) => x,
        None => {
            return none;
        },
    };
    let data = match json_get(related, "data") {
        Some(d) => d,
        None => {
            return none;
        },
    };
    if let Some(items) = json_as_array(data) {
        return collect_ids(items);
    }
    if json_is_object(data) {
        if let Some(id) = get_text(data, "id") {
            let mut one: Vec<String> = Vec::new();
            one.push(id);
            assert(one@.map_values(|s: String| s@) =~= seq![id@]);
            return one;
        }
    }
    none
}

/// The candidate that a video gives.
pub fn parse_video_candidate(video: &serde_json::Value) -> (r: Option<AnimeThemesVideoCandidate>)
    ensures
        match r {
            Some(c) => candidate_of(json_of(*video)) == Some(c@),
            None => candidate_of(json_of(*video)) is None,
        },
{
    let attributes = get_attributes(video);
    let raw = match get_text(attributes, "link") {
        Some(l) => l,
        None => {
            return None;
        },
    };
    let link = match normalize_animethemes_video_link(raw.as_str()) {
        Some(l) => l,
        None => {
            return None;
        },
    };
    if !is_animethemes_webm_url(link.as_str()) {
        return None;
    }
    let resolution: i64 = match get_whole(attributes, "resolution") {
        Some(n) => n,
        None => 0,
    };
    let source = match get_text(attributes, "source") {
        Some(s) => s,
        None => String::new(),
    };
    Some(
        AnimeThemesVideoCandidate {
            link,
            resolution,
            source_priority: source_priority(source.as_str()),
        },
    )
}

/// The candidates of the videos with the ids `ids`.
pub open spec fn video_candidates(included: Seq<Json>, ids: Seq<Seq<char>>) -> Seq<CandidateView>
    decreases ids.len(),
{
    if ids.len() == 0 {
        Seq::empty()
    } else {
        video_candidates(included, ids.drop_last()) + candidates_of_video(
            find_resource(included, "video"@, ids.last()),
        )
    }
}

/// The candidates of the entries with the ids `ids`: those of the videos
/// that each entry refers to.
pub open spec fn entry_candidates(included: Seq<Json>, ids: Seq<Seq<char>>) -> Seq<CandidateView>
    decreases ids.len(),
{
    if ids.len() == 0 {
        Seq::empty()
    } else {
        entry_candidates(included, ids.drop_last()) + match find_resource(
            included,
            "animethemeentry"@,
            ids.last(),
        ) {
            Some(e) => video_candidates(included, relation_ids(e, "videos"@)),
            None => Seq::empty(),
        }
    }
}

/// The candidates of the themes with the ids `ids`: those of the entries
/// that each theme refers to.
pub open spec fn theme_candidates(included: Seq<Json>, ids: Seq<Seq<char>>) -> Seq<CandidateView>
    decreases ids.len(),
{
    if ids.len() == 0 {
        Seq::empty()
    } else {
        theme_candidates(included, ids.drop_last()) + match find_resource(
            included,
            "animetheme"@,
            ids.last(),
        ) {
            Some(t) => entry_candidates(included, relation_ids(t, "animethemeentries"@)),
            None => Seq::empty(),
        }
    }
}

/// The ids of the themes among `items` that `slug` names.
pub open spec fn matching_theme_ids(items: Seq<Json>, slug: Seq<char>) -> Seq<Seq<char>>
    decreases items.len(),
{
    if items.len() == 0 {
        Seq::empty()
    } else {
        let before = matching_theme_ids(items.drop_last(), slug);
        let item = items.last();
        if kind_is(item, "animetheme"@) && theme_matches(item, slug) {
            match member_text(item, "id"@) {
                Some(id) => before.push(id),
                None => before,
            }
        } else {
            before
        }
    }
}

/// The link that a document of resources gives for the theme `slug`: that
/// of the best video of the entries of the themes that match; none if the
/// document has no resources or no such video.
pub open spec fn resource_link(value: Json, slug: Seq<char>) -> Option<Seq<char>> {
    match member(value, "included"@) {
        Some(i) => match as_list(i) {
            Some(included) => best_link(
                theme_candidates(included, matching_theme_ids(included, slug)),
            ),
            None => None,
        },
        None => None,
    }
}

/// Appends the candidates of the videos with the ids `ids`.
fn push_video_candidates(
    included: &Vec<serde_json::Value>,
    ids: &Vec<String>,
    out: &mut Vec<AnimeThemesVideoCandidate>,
)
    ensures
        candidate_views(final(out)@) == candidate_views(old(out)@) + video_candidates(
            jsons_of(included@),
            ids@.map_values(|s: String| s@),
        ),
{
    let ghost all = jsons_of(included@);
    let ghost keys = ids@.map_values(|s: String| s@);
    let ghost start = candidate_views(out@);
    let mut i: usize = 0;
    assert(keys.take(0) =~= Seq::<Seq<char>>::empty());
    assert(candidate_views(out@) =~= start + video_candidates(all, keys.take(0)));
    while i < ids.len()
        invariant
            i <= ids.len(),
            all == jsons_of(included@),
            keys == ids@.map_values(|s: String| s@),
            candidate_views(out@) == start + video_candidates(all, keys.take(i as int)),
        decreases ids.len() - i,
    {
        proof {
            assert(keys.take(i + 1).drop_last() =~= keys.take(i as int));
            assert(keys.take(i + 1).last() == ids@[i as int]@);
        }
        let ghost before = candidate_views(out@);
        let mut added = false;
        if let Some(video) = find_jsonapi_resource(included, "video", ids[i].as_str()) {
            if let Some(candidate) = parse_video_candidate(video) {
                out.push(candidate);
                added = true;
                assert(candidate_views(out@) =~= before.push(candidate@));
            }
        }
        proof {
            let extra = candidates_of_video(find_resource(all, "video"@, ids@[i as int]@));
            assert(candidate_views(out@) =~= before + extra);
            assert(candidate_views(out@) =~= start + (video_candidates(all, keys.take(i as int))
                + extra));
        }
        i += 1;
    }
    assert(keys.take(keys.len() as int) =~= keys);
}

/// Appends the candidates of the entries with the ids `ids`.
fn push_entry_candidates(
    included: &Vec<serde_json::Value>,
    ids: &Vec<String>,
    out: &mut Vec<AnimeThemesVideoCandidate>,
)
    ensures
        candidate_views(final(out)@) == candidate_views(old(out)@) + entry_candidates(
            jsons_of(included@),
            ids@.map_values(|s: String| s@),
        ),
{
    let ghost all = jsons_of(included@);
    let ghost keys = ids@.map_values(|s: String| s@);
    let ghost start = candidate_views(out@);
    let mut i: usize = 0;
    assert(keys.take(0) =~= Seq::<Seq<char>>::empty());
    assert(candidate_views(out@) =~= start + entry_candidates(all, keys.take(0)));
    while i < ids.len()
        invariant
            i <= ids.len(),
            all == jsons_of(included@),
            keys == ids@.map_values(|s: String| s@),
            candidate_views(out@) == start + entry_candidates(all, keys.take(i as int)),
        decreases ids.len() - i,
    {
        proof {
            assert(keys.take(i + 1).drop_last() =~= keys.take(i as int));
            assert(keys.take(i + 1).last() == ids@[i as int]@);
        }
        let ghost before = candidate_views(out@);
        if let Some(entry) = find_jsonapi_resource(included, "animethemeentry", ids[i].as_str()) {
            let videos = relationship_ids(entry, "videos");
            push_video_candidates(included, &videos, out);
        } else {
            assert(candidate_views(out@) =~= before + Seq::<CandidateView>::empty());
        }
        proof {
            let extra = match find_resource(all, "animethemeentry"@, ids@[i as int]@) {
                Some(e) => video_candidates(all, relation_ids(e, "videos"@)),
                None => Seq::empty(),
            };
            assert(candidate_views(out@) =~= start + (entry_candidates(all, keys.take(i as int))
                + extra));
        }
        i += 1;
    }
    assert(keys.take(keys.len() as int) =~= keys);
}

/// Appends the candidates of the themes with the ids `ids`.
fn push_theme_candidates(
    included: &Vec<serde_json::Value>,
    ids: &Vec<String>,
    out: &mut Vec<AnimeThemesVideoCandidate>,
)
    ensures
        candidate_views(final(out)@) == candidate_views(old(out)@) + theme_candidates(
            jsons_of(included@),
            ids@.map_values(|s: String| s@),
        ),
{
    let ghost all = jsons_of(included@);
    let ghost keys = ids@.map_values(|s: String| s@);
    let ghost start = candidate_views(out@);
    let mut i: usize = 0;
    assert(keys.take(0) =~= Seq::<Seq<char>>::empty());
    assert(candidate_views(out@) =~= start + theme_candidates(all, keys.take(0)));
    while i < ids.len()
        invariant
            i <= ids.len(),
            all == jsons_of(included@),
            keys == ids@.map_values(|s: String| s@),
            candidate_views(out@) == start + theme_candidates(all, keys.take(i as int)),
        decreases ids.len() - i,
    {
        proof {
            assert(keys.take(i + 1).drop_last() =~= keys.take(i as int));
            assert(keys.take(i + 1).last() == ids@[i as int]@);
        }
        let ghost before = candidate_views(out@);
        if let Some(theme) = find_jsonapi_resource(included, "animetheme", ids[i].as_str()) {
            let entries = relationship_ids(theme, "animethemeentries");
            push_entry_candidates(included, &entries, out);
        } else {
            assert(candidate_views(out@) =~= before + Seq::<CandidateView>::empty());
        }
        proof {
            let extra = match find_resource(all, "animetheme"@, ids@[i as int]@) {
                Some(t) => entry_candidates(all, relation_ids(t, "animethemeentries"@)),
                None => Seq::empty(),
            };
            assert(candidate_views(out@) =~= start + (theme_candidates(all, keys.take(i as int))
                + extra));
        }
        i += 1;
    }
    assert(keys.take(keys.len() as int) =~= keys);
}

/// The ids of the themes among `included` that `theme_slug` names.
fn collect_matching_theme_ids(included: &Vec<serde_json::Value>, theme_slug: &str) -> (out: Vec<
    String,
>)
    ensures
        out@.map_values(|s: String| s@) == matching_theme_ids(jsons_of(included@), theme_slug@),
{
    let ghost all = jsons_of(included@);
    let mut out: Vec<String> = Vec::new();
    let mut i: usize = 0;
    assert(all.take(0) =~= Seq::<Json>::empty());
    assert(out@.map_values(|s: String| s@) =~= matching_theme_ids(all.take(0), theme_slug@));
    while i < included.len()
        invariant
            i <= included.len(),
            all == jsons_of(included@),
            out@.map_values(|s: String| s@) == matching_theme_ids(all.take(i as int), theme_slug@),
        decreases included.len() - i,
    {
        let item = &included[i];
        proof {
            assert(all.take(i + 1).drop_last() =~= all.take(i as int));
            assert(all.take(i + 1).last() == json_of(*item));
        }
        if has_kind(item, "animetheme") && theme_matches_slug(item, theme_slug) {
            if let Some(id) = get_text(item, "id") {
                let ghost before = out@.map_values(|s: String| s@);
                out.push(id);
                assert(out@.map_values(|s: String| s@) =~= before.push(id@));
            }
        }
        i += 1;
    }
    assert(all.take(all.len() as int) =~= all);
    out
}

/// The link of the video of a theme in a document of resources.
pub fn extract_animethemes_webm_from_json_api(value: &serde_json::Value, theme_slug: &str) -> (r:
    Option<String>)
    ensures
        opt_view(r) == resource_link(json_of(*value), theme_slug@),
{
    let included = match json_get(value, "included") {
        Some(i) => match json_as_array(i) {
            Some(list) => list,
            None => {
                return None;
            },
        },
        None => {
            return None;
        },
    };
    let theme_ids = collect_matching_theme_ids(included, theme_slug);
    let mut candidates: Vec<AnimeThemesVideoCandidate> = Vec::new();
    assert(candidate_views(candidates@) =~= Seq::<CandidateView>::empty());
    push_theme_candidates(included, &theme_ids, &mut candidates);
    assert(candidate_views(candidates@) =~= theme_candidates(
        jsons_of(included@),
        matching_theme_ids(jsons_of(included@), theme_slug@),
    ));
    pick_best_video_link(candidates)
}


/// The themes of a show, or of the shows of an array of shows, down to
/// `depth` levels of arrays in arrays: those of the member `animethemes` of
/// each show.
pub open spec fn node_themes(node: Json, depth: nat) -> Seq<Json>
    decreases depth, 0nat,
{
    match node {
        Json::List(items) => if depth == 0 {
            Seq::empty()
        } else {
            items_themes(items, (depth - 1) as nat)
        },
        Json::Object(_) => member_items(node, "animethemes"@),
        _ => Seq::empty(),
    }
}

/// The themes of the shows of `items`, in order.
pub open spec fn items_themes(items: Seq<Json>, depth: nat) -> Seq<Json>
    decreases depth, 1 + items.len(),
{
    if items.len() == 0 {
        Seq::empty()
    } else {
        items_themes(items.drop_last(), depth) + node_themes(items.last(), depth)
    }
}

/// What the values that `refs` refer to hold.
pub open spec fn referred(refs: Seq<&serde_json::Value>) -> Seq<Json> {
    refs.map_values(|v: &serde_json::Value| json_of(*v))
}

/// The items of a member that is an array.
fn get_items<'a>(v: &'a serde_json::Value, key: &str) -> (r: Option<&'a Vec<serde_json::Value>>)
    ensures
        match r {
            Some(list) => jsons_of(list@) == member_items(json_of(*v), key@),
            None => member_items(json_of(*v), key@).len() == 0,
        },
{
    match json_get(v, key) {
        Some(x) => json_as_array(x),
        None => None,
    }
}

/// Appends references to the themes of a show, or of the shows of an array
/// of shows, down to `depth` levels of arrays in arrays.
pub fn collect_themes_from_anime_node<'a>(
    node: &'a serde_json::Value,
    depth: usize,
    out: &mut Vec<&'a serde_json::Value>,
)
    ensures
        referred(final(out)@) == referred(old(out)@) + node_themes(json_of(*node), depth as nat),
    decreases depth,
{
    let ghost start = referred(out@);
    if let Some(items) = json_as_array(node) {
        if depth == 0 {
            assert(referred(out@) =~= start + Seq::<Json>::empty());
            return ;
        }
        let ghost all = jsons_of(items@);
        let ghost d = (depth - 1) as nat;
        let mut i: usize = 0;
        assert(all.take(0) =~= Seq::<Json>::empty());
        assert(referred(out@) =~= start + items_themes(all.take(0), d));
        while i < items.len()
            invariant
                i <= items.len(),
                depth > 0,
                d == (depth - 1) as nat,
                all == jsons_of(items@),
                referred(out@) == start + items_themes(all.take(i as int), d),
            decreases items.len() - i,
        {
            proof {
                assert(all.take(i + 1).drop_last() =~= all.take(i as int));
                assert(all.take(i + 1).last() == json_of(items@[i as int]));
            }
            let ghost before = referred(out@);
            collect_themes_from_anime_node(&items[i], depth - 1, out);
            assert(referred(out@) =~= start + (items_themes(all.take(i as int), d) + node_themes(
                json_of(items@[i as int]),
                d,
            )));
            i += 1;
        }
        assert(all.take(all.len() as int) =~= all);
        return ;
    }
    if json_is_object(node) {
        if let Some(themes) = get_items(node, "animethemes") {
            let ghost all = jsons_of(themes@);
            let mut i: usize = 0;
            assert(referred(out@) =~= start + all.take(0));
            while i < themes.len()
                invariant
                    i <= themes.len(),
                    all == jsons_of(themes@),
                    referred(out@) == start + all.take(i as int),
                decreases themes.len() - i,
            {
                let ghost before = referred(out@);
                out.push(&themes[i]);
                assert(referred(out@) =~= before.push(json_of(themes@[i as int])));
                i += 1;
                assert(referred(out@) =~= start + all.take(i as int));
            }
            assert(all.take(all.len() as int) =~= all);
        } else {
            assert(referred(out@) =~= start + Seq::<Json>::empty());
        }
        return ;
    }
    assert(referred(out@) =~= start + Seq::<Json>::empty());
}

/// The themes of `node` if there is one, and none otherwise.
pub open spec fn themes_of(node: Option<Json>) -> Seq<Json> {
    match node {
        Some(n) => node_themes(n, MAX_NESTING as nat),
        None => Seq::empty(),
    }
}

/// The member `key` of `node`, if there is a node and it has the member.
pub open spec fn member_of(node: Option<Json>, key: Seq<char>) -> Option<Json> {
    match node {
        Some(n) => member(n, key),
        None => None,
    }
}

/// The themes of a document in which they are nested in their show: those
/// of the member `anime`, those of the member `anime` of the member `data`,
/// and those of the member `data`.
pub open spec fn payload_themes(value: Json) -> Seq<Json> {
    themes_of(member(value, "anime"@)) + themes_of(member_of(member(value, "data"@), "anime"@))
        + themes_of(member(value, "data"@))
}

/// The candidates of `videos`.
pub open spec fn listed_video_candidates(videos: Seq<Json>) -> Seq<CandidateView>
    decreases videos.len(),
{
    if videos.len() == 0 {
        Seq::empty()
    } else {
        listed_video_candidates(videos.drop_last()) + candidates_of_video(Some(videos.last()))
    }
}

/// The candidates of the videos of `entries`.
pub open spec fn listed_entry_candidates(entries: Seq<Json>) -> Seq<CandidateView>
    decreases entries.len(),
{
    if entries.len() == 0 {
        Seq::empty()
    } else {
        listed_entry_candidates(entries.drop_last()) + listed_video_candidates(
            member_items(entries.last(), "videos"@),
        )
    }
}

/// The candidates of the themes of `themes` that `slug` names.
pub open spec fn nested_candidates(themes: Seq<Json>, slug: Seq<char>) -> Seq<CandidateView>
    decreases themes.len(),
{
    if themes.len() == 0 {
        Seq::empty()
    } else {
        nested_candidates(themes.drop_last(), slug) + if theme_matches(themes.last(), slug) {
            listed_entry_candidates(member_items(themes.last(), "animethemeentries"@))
        } else {
            Seq::empty()
        }
    }
}

/// The link that a document with nested themes gives for the theme `slug`.
pub open spec fn nested_link(value: Json, slug: Seq<char>) -> Option<Seq<char>> {
    best_link(nested_candidates(payload_themes(value), slug))
}

/// The link that a document gives for the theme `slug`: read as a document
/// of resources, or, if that gives none, as a document with nested themes.
pub open spec fn api_link(value: Json, slug: Seq<char>) -> Option<Seq<char>> {
    match resource_link(value, slug) {
        Some(l) => Some(l),
        None => nested_link(value, slug),
    }
}

/// Appends the candidates of `videos`.
fn push_listed_videos(videos: &Vec<serde_json::Value>, out: &mut Vec<AnimeThemesVideoCandidate>)
    ensures
        candidate_views(final(out)@) == candidate_views(old(out)@) + listed_video_candidates(
            jsons_of(videos@),
        ),
{
    let ghost all = jsons_of(videos@);
    let ghost start = candidate_views(out@);
    let mut i: usize = 0;
    assert(all.take(0) =~= Seq::<Json>::empty());
    assert(candidate_views(out@) =~= start + listed_video_candidates(all.take(0)));
    while i < videos.len()
        invariant
            i <= videos.len(),
            all == jsons_of(videos@),
            candidate_views(out@) == start + listed_video_candidates(all.take(i as int)),
        decreases videos.len() - i,
    {
        proof {
            assert(all.take(i + 1).drop_last() =~= all.take(i as int));
            assert(all.take(i + 1).last() == json_of(videos@[i as int]));
        }
        let ghost before = candidate_views(out@);
        if let Some(candidate) = parse_video_candidate(&videos[i]) {
            out.push(candidate);
            assert(candidate_views(out@) =~= before.push(candidate@));
        }
        proof {
            let extra = candidates_of_video(Some(json_of(videos@[i as int])));
            assert(candidate_views(out@) =~= before + extra);
            assert(candidate_views(out@) =~= start + (listed_video_candidates(all.take(i as int))
                + extra));
        }
        i += 1;
    }
    assert(all.take(all.len() as int) =~= all);
}

/// Appends the candidates of the videos of `entries`.
fn push_listed_entries(entries: &Vec<serde_json::Value>, out: &mut Vec<AnimeThemesVideoCandidate>)
    ensures
        candidate_views(final(out)@) == candidate_views(old(out)@) + listed_entry_candidates(
            jsons_of(entries@),
        ),
{
    let ghost all = jsons_of(entries@);
    let ghost start = candidate_views(out@);
    let mut i: usize = 0;
    assert(all.take(0) =~= Seq::<Json>::empty());
    assert(candidate_views(out@) =~= start + listed_entry_candidates(all.take(0)));
    while i < entries.len()
        invariant
            i <= entries.len(),
            all == jsons_of(entries@),
            candidate_views(out@) == start + listed_entry_candidates(all.take(i as int)),
        decreases entries.len() - i,
    {
        proof {
            assert(all.take(i + 1).drop_last() =~= all.take(i as int));
            assert(all.take(i + 1).last() == json_of(entries@[i as int]));
        }
        let ghost before = candidate_views(out@);
        if let Some(videos) = get_items(&entries[i], "videos") {
            push_listed_videos(videos, out);
        } else {
            assert(listed_video_candidates(Seq::<Json>::empty()).len() == 0);
            assert(member_items(json_of(entries@[i as int]), "videos"@) =~= Seq::<Json>::empty());
            assert(candidate_views(out@) =~= before + Seq::<CandidateView>::empty());
        }
        proof {
            let extra = listed_video_candidates(member_items(json_of(entries@[i as int]), "videos"@));
            assert(candidate_views(out@) =~= start + (listed_entry_candidates(all.take(i as int))
                + extra));
        }
        i += 1;
    }
    assert(all.take(all.len() as int) =~= all);
}

/// The link of the video of a theme in a document with nested themes.
pub fn extract_animethemes_webm_from_nested_payload(
    value: &serde_json::Value,
    theme_slug: &str,
) -> (r: Option<String>)
    ensures
        opt_view(r) == nested_link(json_of(*value), theme_slug@),
{
    let mut themes: Vec<&serde_json::Value> = Vec::new();
    assert(referred(themes@) =~= Seq::<Json>::empty());
    if let Some(anime) = json_get(value, "anime") {
        collect_themes_from_anime_node(anime, MAX_NESTING, &mut themes);
    }
    assert(referred(themes@) =~= themes_of(member(json_of(*value), "anime"@)));
    let ghost first = referred(themes@);
    let data = json_get(value, "data");
    if let Some(d) = data {
        if let Some(anime) = json_get(d, "anime") {
            collect_themes_from_anime_node(anime, MAX_NESTING, &mut themes);
        }
    }
    let ghost second = referred(themes@);
    assert(second =~= first + themes_of(member_of(member(json_of(*value), "data"@), "anime"@)));
    if let Some(d) = data {
        collect_themes_from_anime_node(d, MAX_NESTING, &mut themes);
    }
    assert(referred(themes@) =~= second + themes_of(member(json_of(*value), "data"@)));
    let ghost all = referred(themes@);
    assert(all == payload_themes(json_of(*value)));
    let mut candidates: Vec<AnimeThemesVideoCandidate> = Vec::new();
    let mut i: usize = 0;
    assert(all.take(0) =~= Seq::<Json>::empty());
    assert(candidate_views(candidates@) =~= nested_candidates(all.take(0), theme_slug@));
    while i < themes.len()
        invariant
            i <= themes.len(),
            all == referred(themes@),
            candidate_views(candidates@) == nested_candidates(all.take(i as int), theme_slug@),
        decreases themes.len() - i,
    {
        let theme = themes[i];
        proof {
            assert(all.take(i + 1).drop_last() =~= all.take(i as int));
            assert(all.take(i + 1).last() == json_of(*theme));
        }
        let ghost before = candidate_views(candidates@);
        if theme_matches_slug(theme, theme_slug) {
            if let Some(entries) = get_items(theme, "animethemeentries") {
                push_listed_entries(entries, &mut candidates);
            } else {
                assert(member_items(json_of(*theme), "animethemeentries"@) =~= Seq::<Json>::empty());
                assert(candidate_views(candidates@) =~= before + listed_entry_candidates(
                    Seq::<Json>::empty(),
                ));
            }
        } else {
            assert(candidate_views(candidates@) =~= before + Seq::<CandidateView>::empty());
        }
        i += 1;
    }
    assert(all.take(all.len() as int) =~= all);
    pick_best_video_link(candidates)
}

/// The link of the video of a theme in what the programming interface
/// answered. Fails if the answer is no JSON.
pub fn extract_animethemes_webm_from_api_json(json: &str, theme_slug: &str) -> (r: Result<
    Option<String>,
    String,
>)
    ensures
        match r {
            Ok(link) => parsed_json(json@) matches Some(v) && opt_view(link) == api_link(
                json_of(v),
                theme_slug@,
            ),
            Err(_) => parsed_json(json@) is None,
        },
{
    let value = match json_parse(json) {
        Ok(v) => v,
        Err(err) => {
            let mut text = chars_of("JSON解析に失敗しました: ");
            let mut rest = chars_of(err.as_str());
            text.append(&mut rest);
            return Err(string_of(&text));
        },
    };
    if let Some(link) = extract_animethemes_webm_from_json_api(&value, theme_slug) {
        return Ok(Some(link));
    }
    Ok(extract_animethemes_webm_from_nested_payload(&value, theme_slug))
}

} // verus!
