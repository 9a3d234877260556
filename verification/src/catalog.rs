//! The list of Chrome for Testing versions: fetched from the download source,
//! cached, and offered.

use vstd::prelude::*;
use vstd::string::*;

use crate::config::{download_source, load_config, settings, source_of};
use crate::json::{
    as_text, bytes_json, field, items_of, items_view, lemma_items_view, parse_bytes, parse_strings,
    print_strings, strings_text, text_strings, Json, JsonView,
};
use crate::order::{
    law_sorted_unique, lemma_filter_map_add, lemma_filter_map_one, sorted_from, Direction,
};
use crate::text::{
    law_strip_takes_copies, str_eq, strip_back, text_view, trim_end_matches, views,
};
use crate::versions::{
    build_version_list, is_valid_version, offered, valid_version, version_order, version_views,
    VersionInfo, VersionView, NPM_CFT_BASE,
};

verus! {

/// Where Google lists the versions of Chrome for Testing.
pub const CFT_API: &'static str =
    "https://googlechromelabs.github.io/chrome-for-testing/known-good-versions-with-downloads.json";

/// Where the download source lists its versions.
pub fn version_list_url(source: &str) -> (r: &'static str)
    ensures
        r@ == if source@ == "npmmirror"@ {
            NPM_CFT_BASE@
        } else {
            CFT_API@
        },
{
    if str_eq(source, "npmmirror") {
        NPM_CFT_BASE
    } else {
        CFT_API
    }
}

/// The version that an entry of the mirror's listing stands for: the name of
/// a directory, without slashes at its end, that may name a version.
pub open spec fn mirror_entry(entry: JsonView) -> Option<Seq<char>> {
    if as_text(field(entry, "type"@)) == Some("dir"@) {
        match as_text(field(entry, "name"@)) {
            Some(name) => {
                let version = strip_back(name, set!['/']);
                if valid_version(version) {
                    Some(version)
                } else {
                    None
                }
            },
            None => None,
        }
    } else {
        None
    }
}

/// Whether a download of Google's listing is for `platform`.
pub open spec fn is_for_platform(download: JsonView, platform: Seq<char>) -> bool {
    as_text(field(download, "platform"@)) == Some(platform)
}

/// The version that an entry of Google's listing stands for: one that has a
/// browser for `platform`.
pub open spec fn google_entry(entry: JsonView, platform: Seq<char>) -> Option<Seq<char>> {
    let downloads = items_of(field(field(entry, "downloads"@), "chrome"@));
    if exists|i: int| 0 <= i < downloads.len() && is_for_platform(#[trigger] downloads[i], platform) {
        as_text(field(entry, "version"@))
    } else {
        None
    }
}

/// The versions that an entry of a listing stands for.
pub open spec fn listing_entry(source: Seq<char>, platform: Seq<char>) -> spec_fn(
    JsonView,
) -> Option<Seq<char>> {
    |entry: JsonView|
        if source == "npmmirror"@ {
            mirror_entry(entry)
        } else {
            google_entry(entry, platform)
        }
}

/// The entries of a listing.
pub open spec fn listing_entries(source: Seq<char>, data: JsonView) -> Seq<JsonView> {
    if source == "npmmirror"@ {
        items_of(data)
    } else {
        items_of(field(data, "versions"@))
    }
}

/// The versions in the listing of a download source, in its order.
pub open spec fn listed_versions(source: Seq<char>, platform: Seq<char>, data: JsonView) -> Seq<
    Seq<char>,
> {
    listing_entries(source, data).filter_map(listing_entry(source, platform))
}

fn mirror_version(entry: &Json) -> (r: Option<String>)
    ensures
        text_view(r) == mirror_entry(entry@),
{
    match entry.text_field("type") {
        Some(kind) => if !str_eq(kind.as_str(), "dir") {
            return None;
        },
        None => {
            return None;
        },
    }
    match entry.text_field("name") {
        Some(name) => {
            let version = trim_end_matches(name.as_str(), '/');
            if is_valid_version(version.as_str()) {
                Some(version)
            } else {
                None
            }
        },
        None => None,
    }
}

fn has_platform(downloads: &Vec<Json>, platform: &str) -> (r: bool)
    ensures
        r == exists|i: int|
            0 <= i < items_view(downloads@).len() && is_for_platform(
                #[trigger] items_view(downloads@)[i],
                platform@,
            ),
{
    let mut i: usize = 0;
    proof {
        lemma_items_view(downloads@);
    }
    while i < downloads.len()
        invariant
            i <= downloads@.len(),
            items_view(downloads@).len() == downloads@.len(),
            forall|j: int|
                0 <= j < downloads@.len() ==> #[trigger] items_view(downloads@)[j]
                    == downloads@[j]@,
            forall|j: int|
                0 <= j < i ==> !is_for_platform(#[trigger] items_view(downloads@)[j], platform@),
        decreases downloads.len() - i,
    {
        assert(items_view(downloads@)[i as int] == downloads@[i as int]@);
        match downloads[i].text_field("platform") {
            Some(p) => if str_eq(p.as_str(), platform) {
                return true;
            },
            None => {},
        }
        i += 1;
    }
    false
}

fn google_version(entry: &Json, platform: &str) -> (r: Option<String>)
    ensures
        text_view(r) == google_entry(entry@, platform@),
{
    let downloads = match entry.get("downloads") {
        Some(downloads) => downloads.items_field("chrome"),
        None => None,
    };
    let offered = match downloads {
        Some(items) => has_platform(items, platform),
        None => false,
    };
    if !offered {
        return None;
    }
    match entry.text_field("version") {
        Some(version) => Some(version.clone()),
        None => None,
    }
}

/// The versions in the listing of a download source.
pub fn versions_in_listing(source: &str, platform: &str, data: &Json) -> (r: Vec<String>)
    ensures
        views(r@) == listed_versions(source@, platform@, data@),
{
    let mirror = str_eq(source, "npmmirror");
    let entries = if mirror {
        data.items()
    } else {
        data.items_field("versions")
    };
    let mut r: Vec<String> = Vec::new();
    let ghost f = listing_entry(source@, platform@);
    let entries = match entries {
        Some(entries) => entries,
        None => {
            assert(views(r@) =~= listed_versions(source@, platform@, data@)) by {
                reveal_with_fuel(Seq::filter_map, 1);
            }
            return r;
        },
    };
    let ghost all = items_view(entries@);
    let mut i: usize = 0;
    proof {
        lemma_items_view(entries@);
        reveal_with_fuel(Seq::filter_map, 1);
        assert(views(r@) =~= all.take(0).filter_map(f));
    }
    while i < entries.len()
        invariant
            i <= entries@.len(),
            all == items_view(entries@),
            mirror == (source@ == "npmmirror"@),
            f == listing_entry(source@, platform@),
            views(r@) == all.take(i as int).filter_map(f),
        decreases entries.len() - i,
    {
        proof {
            lemma_items_view(entries@);
            reveal_with_fuel(Seq::filter_map, 2);
            assert(all.take(i + 1).drop_last() =~= all.take(i as int));
            assert(all.take(i + 1).last() == entries@[i as int]@);
        }
        let version = if mirror {
            mirror_version(&entries[i])
        } else {
            google_version(&entries[i], platform)
        };
        match version {
            Some(v) => {
                let ghost prior = r@;
                r.push(v);
                assert(views(r@) =~= views(prior) + seq![v@]);
            },
            None => {},
        }
        i += 1;
    }
    assert(all.take(entries@.len() as int) =~= all) by {
        lemma_items_view(entries@);
    }
    r
}

/// What is said of a reply that is no JSON.
pub open spec fn decode_fault() -> Seq<char> {
    "error decoding response body"@
}

/// The versions in the reply of a download source.
pub fn fetch_version_strings(source: &str, platform: &str, body: &[u8]) -> (r: Result<
    Vec<String>,
    String,
>)
    ensures
        r is Ok <==> bytes_json(body@) is Some,
        r matches Err(e) ==> e@ == decode_fault(),
        r matches Ok(list) ==> views(list@) == listed_versions(
            source@,
            platform@,
            bytes_json(body@)->0,
        ),
{
    match parse_bytes(body) {
        Some(data) => Ok(versions_in_listing(source, platform, &data)),
        None => Err("error decoding response body".to_string()),
    }
}

/// The versions that are known without asking the download source: those in
/// the cache, and where it is missing or spoilt those that came with the
/// program.
pub open spec fn known_versions(cache: Option<Seq<char>>, shipped: Seq<char>) -> Seq<Seq<char>> {
    let text = match cache {
        Some(t) => t,
        None => shipped,
    };
    match text_strings(text) {
        Some(list) => list,
        None => match text_strings(shipped) {
            Some(list) => list,
            None => Seq::empty(),
        },
    }
}

/// The versions that are known without asking the download source.
pub fn load_version_strings(cache: Option<String>, shipped: &str) -> (r: Vec<String>)
    ensures
        views(r@) == known_versions(text_view(cache), shipped@),
{
    let cached = match cache {
        Some(text) => parse_strings(text.as_str()),
        None => None,
    };
    match cached {
        Some(list) => list,
        None => match parse_strings(shipped) {
            Some(list) => list,
            None => {
                let none: Vec<String> = Vec::new();
                assert(views(none@) =~= Seq::<Seq<char>>::empty());
                none
            },
        },
    }
}

/// The versions to offer without asking the download source, the newest
/// first. `config` and `cache` are the texts of the settings and of the
/// cache, where they can be read.
pub fn get_available_versions(
    config: Option<String>,
    cache: Option<String>,
    shipped: &str,
    platform: &str,
) -> (r: Vec<VersionInfo>)
    ensures
        sorted_from(
            Direction::Descending,
            offered(
                source_of(settings(text_view(config))),
                platform@,
                known_versions(text_view(cache), shipped@),
            ),
            version_views(r@),
            version_order(),
        ),
{
    let source = download_source(&load_config(config));
    build_version_list(source.as_str(), platform, load_version_strings(cache, shipped))
}

/// A list of versions fresh from the download source, and the text to cache.
pub struct FreshVersions {
    pub list: Vec<VersionInfo>,
    pub cache: String,
}

/// The versions to offer from the reply of the download source, and the text
/// to cache, from which the same versions are known later. Fails where the
/// reply is no JSON, and where it lists no version.
pub fn refresh_available_versions(source: &str, platform: &str, body: &[u8]) -> (r: Result<
    FreshVersions,
    String,
>)
    ensures
        ({
            let found = listed_versions(source@, platform@, bytes_json(body@)->0);
            &&& r is Ok <==> bytes_json(body@) is Some && found.len() > 0
            &&& r matches Err(e) ==> e@ == if bytes_json(body@) is None {
                decode_fault()
            } else {
                "未获取到版本列表"@
            }
            &&& r matches Ok(fresh) ==> {
                &&& sorted_from(
                    Direction::Descending,
                    offered(source@, platform@, found),
                    version_views(fresh.list@),
                    version_order(),
                )
                &&& fresh.cache@ == strings_text(found)
                &&& text_strings(fresh.cache@) == Some(found)
                &&& forall|shipped: Seq<char>|
                    #[trigger] known_versions(Some(fresh.cache@), shipped) == found
            }
        }),
{
    let versions = match fetch_version_strings(source, platform, body) {
        Ok(versions) => versions,
        Err(e) => {
            return Err(e);
        },
    };
    assert(views(versions@).len() == versions@.len());
    if versions.is_empty() {
        return Err("未获取到版本列表".to_string());
    }
    let cache = print_strings(&versions);
    let list = build_version_list(source, platform, versions);
    Ok(FreshVersions { list, cache })
}

/// The list that was offered when the cache was written is offered again
/// later from the cache, without asking the download source.
pub proof fn law_cached_versions_are_offered_again(
    source: Seq<char>,
    platform: Seq<char>,
    found: Seq<Seq<char>>,
    cache: Seq<char>,
    shipped: Seq<char>,
    fresh: Seq<VersionView>,
    later: Seq<VersionView>,
)
    requires
        text_strings(cache) == Some(found),
        sorted_from(
            Direction::Descending,
            offered(source, platform, found),
            fresh,
            version_order(),
        ),
        sorted_from(
            Direction::Descending,
            offered(source, platform, known_versions(Some(cache), shipped)),
            later,
            version_order(),
        ),
    ensures
        later == fresh,
{
    law_sorted_unique(
        Direction::Descending,
        offered(source, platform, found),
        fresh,
        later,
        version_order(),
    );
}

/// A version in an entry of Google's listing is taken exactly where one of its
/// downloads of the browser is for the platform, wherever it stands and
/// however many others there are.
pub proof fn law_any_download_for_the_platform_counts(
    entry: JsonView,
    platform: Seq<char>,
    version: Seq<char>,
    downloads: Seq<JsonView>,
    i: int,
)
    requires
        field(entry, "version"@) == JsonView::Str(version),
        field(field(entry, "downloads"@), "chrome"@) == JsonView::Array(downloads),
    ensures
        0 <= i < downloads.len() && field(downloads[i], "platform"@) == JsonView::Str(platform)
            ==> google_entry(entry, platform) == Some(version),
        (forall|k: int|
            0 <= k < downloads.len() ==> field(#[trigger] downloads[k], "platform"@)
                != JsonView::Str(platform)) ==> google_entry(entry, platform) is None,
{
    if 0 <= i < downloads.len() && field(downloads[i], "platform"@) == JsonView::Str(platform) {
        assert(is_for_platform(downloads[i], platform));
    }
}

/// A download for another platform, added to an entry of Google's listing,
/// changes nothing for this platform.
pub proof fn law_other_platforms_change_nothing(
    entry: JsonView,
    fuller: JsonView,
    platform: Seq<char>,
    other: JsonView,
)
    requires
        field(fuller, "version"@) == field(entry, "version"@),
        field(field(fuller, "downloads"@), "chrome"@) == JsonView::Array(
            items_of(field(field(entry, "downloads"@), "chrome"@)).push(other),
        ),
        field(other, "platform"@) != JsonView::Str(platform),
    ensures
        google_entry(fuller, platform) == google_entry(entry, platform),
{
    let few = items_of(field(field(entry, "downloads"@), "chrome"@));
    let more = items_of(field(field(fuller, "downloads"@), "chrome"@));
    if exists|i: int| 0 <= i < few.len() && is_for_platform(#[trigger] few[i], platform) {
        let i = choose|i: int| 0 <= i < few.len() && is_for_platform(#[trigger] few[i], platform);
        assert(is_for_platform(more[i], platform));
    }
    if exists|i: int| 0 <= i < more.len() && is_for_platform(#[trigger] more[i], platform) {
        let i = choose|i: int| 0 <= i < more.len() && is_for_platform(#[trigger] more[i], platform);
        assert(is_for_platform(few[i], platform));
    }
}

/// An entry of Google's listing without a version, or without a list of
/// downloads of the browser, stands for none.
pub proof fn law_incomplete_entries_are_passed_over(entry: JsonView, platform: Seq<char>)
    ensures
        !(field(entry, "version"@) is Str) ==> google_entry(entry, platform) is None,
        !(field(field(entry, "downloads"@), "chrome"@) is Array) ==> google_entry(
            entry,
            platform,
        ) is None,
        !(field(entry, "name"@) is Str) ==> mirror_entry(entry) is None,
        field(entry, "type"@) != JsonView::Str("dir"@) ==> mirror_entry(entry) is None,
{
}

/// A directory on the mirror stands for the version that it is named after,
/// with or without slashes behind its name, if that is a valid version.
pub proof fn law_mirror_directories_are_versions(
    entry: JsonView,
    version: Seq<char>,
    slashes: nat,
)
    requires
        field(entry, "type"@) == JsonView::Str("dir"@),
        field(entry, "name"@) == JsonView::Str(version + Seq::new(slashes, |i: int| '/')),
        version.len() > 0 ==> version.last() != '/',
    ensures
        mirror_entry(entry) == if valid_version(version) {
            Some(version)
        } else {
            None
        },
{
    law_strip_takes_copies('/', slashes, version);
}

/// A listing is read entry by entry: what two lists of entries one after the
/// other give is what each gives, and one entry gives at most its version.
pub proof fn law_versions_entry_by_entry(
    source: Seq<char>,
    platform: Seq<char>,
    a: Seq<JsonView>,
    b: Seq<JsonView>,
    entry: JsonView,
    all: JsonView,
    first: JsonView,
    second: JsonView,
    one: JsonView,
)
    requires
        source != "npmmirror"@,
        field(all, "versions"@) == JsonView::Array(a + b),
        field(first, "versions"@) == JsonView::Array(a),
        field(second, "versions"@) == JsonView::Array(b),
        field(one, "versions"@) == JsonView::Array(seq![entry]),
    ensures
        listed_versions(source, platform, all) == listed_versions(source, platform, first)
            + listed_versions(source, platform, second),
        listed_versions(source, platform, one) == match google_entry(entry, platform) {
            Some(version) => seq![version],
            None => Seq::empty(),
        },
        listed_versions("npmmirror"@, platform, JsonView::Array(a + b)) == listed_versions(
            "npmmirror"@,
            platform,
            JsonView::Array(a),
        ) + listed_versions("npmmirror"@, platform, JsonView::Array(b)),
        listed_versions("npmmirror"@, platform, JsonView::Array(seq![entry])) == match mirror_entry(
            entry,
        ) {
            Some(version) => seq![version],
            None => Seq::empty(),
        },
{
    let g = listing_entry(source, platform);
    let m = listing_entry("npmmirror"@, platform);
    lemma_filter_map_add(a, b, g);
    lemma_filter_map_add(a, b, m);
    lemma_filter_map_one(entry, g);
    lemma_filter_map_one(entry, m);
}

/// The list in the cache is known where it can be read, else the list that was
/// shipped, else none.
pub proof fn law_cache_comes_first(cache: Seq<char>, shipped: Seq<char>)
    ensures
        text_strings(cache) matches Some(list) ==> known_versions(Some(cache), shipped) == list,
        text_strings(cache) is None ==> known_versions(Some(cache), shipped) == known_versions(
            None,
            shipped,
        ),
        text_strings(shipped) matches Some(list) ==> known_versions(None, shipped) == list,
        text_strings(shipped) is None ==> known_versions(None, shipped).len() == 0,
{
}

/// What is no list has no versions.
pub proof fn law_other_replies_list_nothing(
    source: Seq<char>,
    platform: Seq<char>,
    data: JsonView,
)
    ensures
        source == "npmmirror"@ && !(data is Array) ==> listed_versions(
            source,
            platform,
            data,
        ).len() == 0,
        source != "npmmirror"@ && !(field(data, "versions"@) is Array) ==> listed_versions(
            source,
            platform,
            data,
        ).len() == 0,
{
    reveal_with_fuel(Seq::filter_map, 1);
}

} // verus!
