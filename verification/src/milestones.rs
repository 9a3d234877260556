//! The milestones of Chromium older than Chrome for Testing, each with the
//! position in the main branch at which it was branched off.

use vstd::prelude::*;
use vstd::string::*;

use crate::catalog::decode_fault;
use crate::config::{download_source, load_config, settings, source_of};
use crate::json::{
    bytes_json, field, items_of, items_view, lemma_items_view, pairs_text, parse_bytes, parse_pairs,
    print_pairs, text_pairs, unsigned_of, Json, JsonView,
};
use crate::order::{
    key_less, law_sorted_keeps_items, law_sorted_unique, lemma_filter_map_add, lemma_filter_map_one,
    lemma_sorted_map, precedes, sort_by_keys, sorted_from, Direction,
};
use crate::text::{decimal, str_eq, text_view, u64_to_string};

verus! {

/// Where Google lists the milestones.
pub const MILESTONES_API: &'static str =
    "https://chromiumdash.appspot.com/fetch_milestones?only_branched=true";

/// Where Google keeps the snapshots of Chromium.
pub const SNAPSHOT_DL_BASE: &'static str =
    "https://commondatastorage.googleapis.com/chromium-browser-snapshots";

/// Where the mirror keeps the snapshots of Chromium.
pub const NPM_SNAP_BASE: &'static str =
    "https://registry.npmmirror.com/-/binary/chromium-browser-snapshots/";

/// The first milestone that Chrome for Testing covers.
pub const FIRST_CFT_MILESTONE: u32 = 113;

/// A milestone, its branch point, and where the snapshots around it lie.
#[derive(Clone)]
pub struct MilestoneInfo {
    pub milestone: u32,
    pub position: u64,
    pub snapshot_url: String,
}

/// The milestone and the branch point in an entry of the listing, where it
/// has both as unsigned integers, the milestone is older than Chrome for
/// Testing, and the branch point is not 0.
pub open spec fn milestone_pair(milestone: Option<u64>, position: Option<u64>) -> Option<
    (u32, u64),
> {
    match (milestone, position) {
        (Some(m), Some(p)) => if m >= FIRST_CFT_MILESTONE || p == 0 {
            None
        } else {
            Some((m as u32, p))
        },
        _ => None,
    }
}

/// The milestone and the branch point in an entry of the listing.
pub fn select_milestone(milestone: Option<u64>, position: Option<u64>) -> (r: Option<(u32, u64)>)
    ensures
        r == milestone_pair(milestone, position),
{
    match (milestone, position) {
        (Some(m), Some(p)) => if m >= FIRST_CFT_MILESTONE as u64 || p == 0 {
            None
        } else {
            Some((m as u32, p))
        },
        _ => None,
    }
}

/// What an entry of the listing gives.
pub open spec fn milestone_entry() -> spec_fn(JsonView) -> Option<(u32, u64)> {
    |entry: JsonView|
        milestone_pair(
            unsigned_of(field(entry, "milestone"@)),
            unsigned_of(field(entry, "chromium_main_branch_position"@)),
        )
}

/// The milestones in a listing, in its order.
pub open spec fn listed_milestones(data: JsonView) -> Seq<(u32, u64)> {
    items_of(data).filter_map(milestone_entry())
}

/// Every milestone that is taken from a listing is older than Chrome for
/// Testing and has a branch point, so the two sources do not overlap.
pub proof fn law_listed_milestones_are_older(data: JsonView)
    ensures
        forall|i: int|
            0 <= i < listed_milestones(data).len() ==> (#[trigger] listed_milestones(data)[i]).0
                < FIRST_CFT_MILESTONE && listed_milestones(data)[i].1 > 0,
{
    lemma_selected(items_of(data));
}

proof fn lemma_selected(entries: Seq<JsonView>)
    ensures
        forall|i: int|
            0 <= i < entries.filter_map(milestone_entry()).len() ==> (#[trigger] entries.filter_map(
                milestone_entry(),
            )[i]).0 < FIRST_CFT_MILESTONE && entries.filter_map(milestone_entry())[i].1 > 0,
    decreases entries.len(),
{
    reveal_with_fuel(Seq::filter_map, 2);
    if entries.len() > 0 {
        let rest = entries.drop_last().filter_map(milestone_entry());
        let all = entries.filter_map(milestone_entry());
        lemma_selected(entries.drop_last());
        assert forall|i: int| 0 <= i < all.len() implies (#[trigger] all[i]).0
            < FIRST_CFT_MILESTONE && all[i].1 > 0 by {
            if i < rest.len() {
                assert(all[i] == rest[i]);
            }
        }
    }
}

/// The milestones in a listing.
pub fn milestones_in_listing(data: &Json) -> (r: Vec<(u32, u64)>)
    ensures
        r@ == listed_milestones(data@),
{
    let mut r: Vec<(u32, u64)> = Vec::new();
    let ghost f = milestone_entry();
    let entries = match data.items() {
        Some(entries) => entries,
        None => {
            assert(r@ =~= listed_milestones(data@)) by {
                reveal_with_fuel(Seq::filter_map, 1);
            }
            return r;
        },
    };
    let ghost all = items_view(entries@);
    let mut i: usize = 0;
    proof {
        lemma_items_view(entries@);
        reveal_with_fuel(Seq::filter_map, 1);
        assert(r@ =~= all.take(0).filter_map(f));
    }
    while i < entries.len()
        invariant
            i <= entries@.len(),
            all == items_view(entries@),
            f == milestone_entry(),
            r@ == all.take(i as int).filter_map(f),
        decreases entries.len() - i,
    {
        proof {
            lemma_items_view(entries@);
            reveal_with_fuel(Seq::filter_map, 2);
            assert(all.take(i + 1).drop_last() =~= all.take(i as int));
            assert(all.take(i + 1).last() == entries@[i as int]@);
        }
        let milestone = entries[i].unsigned_field("milestone");
        let position = entries[i].unsigned_field("chromium_main_branch_position");
        match select_milestone(milestone, position) {
            Some(pair) => {
                let ghost prior = r@;
                r.push(pair);
                assert(r@ =~= prior + seq![pair]);
            },
            None => {},
        }
        i += 1;
    }
    assert(all.take(entries@.len() as int) =~= all) by {
        lemma_items_view(entries@);
    }
    r
}

/// The milestones in the reply of the server.
pub fn fetch_milestone_pairs(body: &[u8]) -> (r: Result<Vec<(u32, u64)>, String>)
    ensures
        r is Ok <==> bytes_json(body@) is Some,
        r matches Err(e) ==> e@ == decode_fault(),
        r matches Ok(list) ==> list@ == listed_milestones(bytes_json(body@)->0),
{
    match parse_bytes(body) {
        Some(data) => Ok(milestones_in_listing(&data)),
        None => Err("error decoding response body".to_string()),
    }
}

/// The milestones that are known without asking the server: those in the
/// cache, and where it is missing or spoilt those that came with the program.
pub open spec fn known_milestones(cache: Option<Seq<char>>, shipped: Seq<char>) -> Seq<(u32, u64)> {
    let text = match cache {
        Some(t) => t,
        None => shipped,
    };
    match text_pairs(text) {
        Some(list) => list,
        None => match text_pairs(shipped) {
            Some(list) => list,
            None => Seq::empty(),
        },
    }
}

/// The milestones that are known without asking the server.
pub fn load_milestone_pairs(cache: Option<String>, shipped: &str) -> (r: Vec<(u32, u64)>)
    ensures
        r@ == known_milestones(text_view(cache), shipped@),
{
    let cached = match cache {
        Some(text) => parse_pairs(text.as_str()),
        None => None,
    };
    match cached {
        Some(list) => list,
        None => match parse_pairs(shipped) {
            Some(list) => list,
            None => Vec::new(),
        },
    }
}

/// Where the snapshots at a position lie.
pub open spec fn snapshot_dir_url(
    source: Seq<char>,
    platform: Seq<char>,
    position: u64,
) -> Seq<char> {
    if source == "npmmirror"@ {
        NPM_SNAP_BASE@ + platform + "/"@ + decimal(position as nat) + "/"@
    } else {
        SNAPSHOT_DL_BASE@ + "/"@ + platform + "/"@ + decimal(position as nat) + "/"@
    }
}

fn make_snapshot_dir_url(source: &str, platform: &str, position: u64) -> (r: String)
    ensures
        r@ == snapshot_dir_url(source@, platform@, position),
{
    let base = if str_eq(source, "npmmirror") {
        NPM_SNAP_BASE.to_string()
    } else {
        SNAPSHOT_DL_BASE.to_string().concat("/")
    };
    base.concat(platform).concat("/").concat(u64_to_string(position).as_str()).concat("/")
}

/// What a [`MilestoneInfo`] holds.
pub struct MilestoneView {
    pub milestone: u32,
    pub position: u64,
    pub snapshot_url: Seq<char>,
}

impl View for MilestoneInfo {
    type V = MilestoneView;

    open spec fn view(&self) -> MilestoneView {
        MilestoneView {
            milestone: self.milestone,
            position: self.position,
            snapshot_url: self.snapshot_url@,
        }
    }
}

/// What a list of milestones holds.
pub open spec fn milestone_views(list: Seq<MilestoneInfo>) -> Seq<MilestoneView> {
    list.map_values(|m: MilestoneInfo| m@)
}

/// The milestones `pairs`, each with the address of its snapshots.
pub open spec fn located(source: Seq<char>, platform: Seq<char>, pairs: Seq<(u32, u64)>) -> Seq<
    MilestoneView,
> {
    pairs.map_values(
        |pair: (u32, u64)|
            MilestoneView {
                milestone: pair.0,
                position: pair.1,
                snapshot_url: snapshot_dir_url(source, platform, pair.1),
            },
    )
}

/// The order of milestones.
pub open spec fn milestone_order() -> spec_fn(MilestoneView) -> Seq<u64> {
    |m: MilestoneView| seq![m.milestone as u64]
}

/// The milestones `pairs`, each with the address of its snapshots, the newest
/// first; those with the same number in the order in which they were given.
pub fn build_milestone_list(source: &str, platform: &str, pairs: Vec<(u32, u64)>) -> (r: Vec<
    MilestoneInfo,
>)
    ensures
        sorted_from(
            Direction::Descending,
            located(source@, platform@, pairs@),
            milestone_views(r@),
            milestone_order(),
        ),
{
    let mut found: Vec<MilestoneInfo> = Vec::new();
    let mut keys: Vec<Vec<u64>> = Vec::new();
    let ghost key = |m: MilestoneInfo| seq![m.milestone as u64];
    let ghost wanted = located(source@, platform@, pairs@);
    let mut i: usize = 0;
    while i < pairs.len()
        invariant
            i <= pairs@.len(),
            wanted == located(source@, platform@, pairs@),
            milestone_views(found@) =~= wanted.take(i as int),
            keys@.len() == found@.len(),
            found@.len() == i,
            key == (|m: MilestoneInfo| seq![m.milestone as u64]),
            forall|j: int| 0 <= j < found@.len() ==> (#[trigger] keys@[j])@ == key(found@[j]),
        decreases pairs.len() - i,
    {
        let (milestone, position) = pairs[i];
        let snapshot_url = make_snapshot_dir_url(source, platform, position);
        let mut k: Vec<u64> = Vec::new();
        k.push(milestone as u64);
        assert(k@ =~= seq![milestone as u64]);
        keys.push(k);
        let ghost prior = found@;
        found.push(MilestoneInfo { milestone, position, snapshot_url });
        assert(milestone_views(found@) =~= milestone_views(prior).push(wanted[i as int]));
        assert(wanted.take(i + 1) =~= wanted.take(i as int).push(wanted[i as int]));
        i += 1;
    }
    assert(wanted.take(i as int) =~= wanted);
    let ghost input = found@;
    let r = sort_by_keys(Direction::Descending, found, keys, Ghost(key));
    proof {
        lemma_sorted_map(
            Direction::Descending,
            input,
            r@,
            key,
            |m: MilestoneInfo| m@,
            milestone_order(),
        );
    }
    r
}

/// In a sorted list of milestones the numbers do not increase.
pub proof fn law_newest_milestone_first(input: Seq<MilestoneView>, list: Seq<MilestoneView>)
    requires
        sorted_from(Direction::Descending, input, list, milestone_order()),
    ensures
        forall|i: int, j: int|
            0 <= i < j < list.len() ==> (#[trigger] list[i]).milestone >= (
            #[trigger] list[j]).milestone,
{
    assert forall|i: int, j: int| 0 <= i < j < list.len() implies (#[trigger] list[i]).milestone
        >= (#[trigger] list[j]).milestone by {
        let a = milestone_order()(list[i]);
        let b = milestone_order()(list[j]);
        assert(!precedes(Direction::Descending, b, a));
        reveal_with_fuel(key_less, 2);
    }
}

/// The milestones to offer without asking the server, the newest first.
/// `config` and `cache` are the texts of the settings and of the cache, where
/// they can be read.
pub fn get_chromium_milestones(
    config: Option<String>,
    cache: Option<String>,
    shipped: &str,
    platform: &str,
) -> (r: Vec<MilestoneInfo>)
    ensures
        sorted_from(
            Direction::Descending,
            located(
                source_of(settings(text_view(config))),
                platform@,
                known_milestones(text_view(cache), shipped@),
            ),
            milestone_views(r@),
            milestone_order(),
        ),
{
    let source = download_source(&load_config(config));
    build_milestone_list(source.as_str(), platform, load_milestone_pairs(cache, shipped))
}

/// A list of milestones fresh from the server, and the text to cache.
pub struct FreshMilestones {
    pub list: Vec<MilestoneInfo>,
    pub cache: String,
}

/// The milestones to offer from the reply of the server, and the text to
/// cache, from which the same milestones are known later. Fails where the
/// reply is no JSON, and where it lists no milestone.
pub fn refresh_chromium_milestones(source: &str, platform: &str, body: &[u8]) -> (r: Result<
    FreshMilestones,
    String,
>)
    ensures
        ({
            let found = listed_milestones(bytes_json(body@)->0);
            &&& r is Ok <==> bytes_json(body@) is Some && found.len() > 0
            &&& r matches Err(e) ==> e@ == if bytes_json(body@) is None {
                decode_fault()
            } else {
                "未获取到里程碑列表"@
            }
            &&& r matches Ok(fresh) ==> {
                &&& sorted_from(
                    Direction::Descending,
                    located(source@, platform@, found),
                    milestone_views(fresh.list@),
                    milestone_order(),
                )
                &&& fresh.cache@ == pairs_text(found)
                &&& text_pairs(fresh.cache@) == Some(found)
                &&& forall|shipped: Seq<char>|
                    #[trigger] known_milestones(Some(fresh.cache@), shipped) == found
            }
        }),
{
    let pairs = match fetch_milestone_pairs(body) {
        Ok(pairs) => pairs,
        Err(e) => {
            return Err(e);
        },
    };
    if pairs.is_empty() {
        return Err("未获取到里程碑列表".to_string());
    }
    let cache = print_pairs(&pairs);
    let list = build_milestone_list(source, platform, pairs);
    Ok(FreshMilestones { list, cache })
}

/// The list that was offered when the cache was written is offered again
/// later from the cache, without asking the server.
pub proof fn law_cached_milestones_are_offered_again(
    source: Seq<char>,
    platform: Seq<char>,
    found: Seq<(u32, u64)>,
    cache: Seq<char>,
    shipped: Seq<char>,
    fresh: Seq<MilestoneView>,
    later: Seq<MilestoneView>,
)
    requires
        text_pairs(cache) == Some(found),
        sorted_from(
            Direction::Descending,
            located(source, platform, found),
            fresh,
            milestone_order(),
        ),
        sorted_from(
            Direction::Descending,
            located(source, platform, known_milestones(Some(cache), shipped)),
            later,
            milestone_order(),
        ),
    ensures
        later == fresh,
{
    law_sorted_unique(
        Direction::Descending,
        located(source, platform, found),
        fresh,
        later,
        milestone_order(),
    );
}

/// A milestone is taken exactly where it is older than the first one that
/// Chrome for Testing covers and has a branch point, and then as it is.
pub proof fn law_which_milestones_are_taken(milestone: u64, position: u64)
    ensures
        milestone < 113 && position > 0 ==> milestone_pair(Some(milestone), Some(position)) == Some(
            (milestone as u32, position),
        ),
        milestone >= 113 ==> milestone_pair(Some(milestone), Some(position)) is None,
        position == 0 ==> milestone_pair(Some(milestone), Some(position)) is None,
        milestone_pair(None, Some(position)) is None,
        milestone_pair(Some(milestone), None) is None,
        milestone_pair(None, None) is None,
{
}

/// A listing is read entry by entry: what two lists of entries one after the
/// other give is what each gives, and one entry gives its own milestone, if
/// that is taken.
pub proof fn law_milestones_entry_by_entry(a: Seq<JsonView>, b: Seq<JsonView>, entry: JsonView)
    ensures
        listed_milestones(JsonView::Array(a + b)) == listed_milestones(JsonView::Array(a))
            + listed_milestones(JsonView::Array(b)),
        listed_milestones(JsonView::Array(seq![entry])) == match milestone_pair(
            unsigned_of(field(entry, "milestone"@)),
            unsigned_of(field(entry, "chromium_main_branch_position"@)),
        ) {
            Some(pair) => seq![pair],
            None => Seq::empty(),
        },
{
    lemma_filter_map_add(a, b, milestone_entry());
    lemma_filter_map_one(entry, milestone_entry());
}

/// Every milestone, of any number of them, is located at its position below
/// the platform, on the mirror or at Google.
pub proof fn law_milestones_are_located(
    source: Seq<char>,
    platform: Seq<char>,
    pairs: Seq<(u32, u64)>,
    i: int,
)
    requires
        0 <= i < pairs.len(),
    ensures
        located(source, platform, pairs).len() == pairs.len(),
        located(source, platform, pairs)[i].milestone == pairs[i].0,
        located(source, platform, pairs)[i].position == pairs[i].1,
        source == "npmmirror"@ ==> located(source, platform, pairs)[i].snapshot_url
            == "https://registry.npmmirror.com/-/binary/chromium-browser-snapshots/"@ + platform
            + "/"@ + decimal(pairs[i].1 as nat) + "/"@,
        source != "npmmirror"@ ==> located(source, platform, pairs)[i].snapshot_url
            == "https://commondatastorage.googleapis.com/chromium-browser-snapshots"@ + "/"@
            + platform + "/"@ + decimal(pairs[i].1 as nat) + "/"@,
{
}

/// The milestones in a list are those it was made of.
pub proof fn law_milestone_list_is_complete(input: Seq<MilestoneView>, list: Seq<MilestoneView>)
    requires
        sorted_from(Direction::Descending, input, list, milestone_order()),
    ensures
        list.to_multiset() == input.to_multiset(),
{
    law_sorted_keeps_items(Direction::Descending, input, list, milestone_order());
}

/// The list in the cache is known where it can be read, else the list that was
/// shipped, else none.
pub proof fn law_cached_milestones_come_first(cache: Seq<char>, shipped: Seq<char>)
    ensures
        text_pairs(cache) matches Some(list) ==> known_milestones(Some(cache), shipped) == list,
        text_pairs(cache) is None ==> known_milestones(Some(cache), shipped) == known_milestones(
            None,
            shipped,
        ),
        text_pairs(shipped) matches Some(list) ==> known_milestones(None, shipped) == list,
        text_pairs(shipped) is None ==> known_milestones(None, shipped).len() == 0,
{
}

/// A list of milestones is seen with each of its milestones, and each of them
/// with all that it holds.
pub proof fn law_milestones_are_seen_as_they_are(list: Seq<MilestoneInfo>, i: int)
    ensures
        milestone_views(list).len() == list.len(),
        0 <= i < list.len() ==> {
            &&& milestone_views(list)[i].milestone == list[i].milestone
            &&& milestone_views(list)[i].position == list[i].position
            &&& milestone_views(list)[i].snapshot_url == list[i].snapshot_url@
        },
{
}

/// What is no list has no milestones.
pub proof fn law_other_listings_are_empty(data: JsonView)
    ensures
        !(data is Array) ==> listed_milestones(data).len() == 0,
{
    reveal_with_fuel(Seq::filter_map, 1);
}

} // verus!
