//! Finding the snapshot of Chromium that stands for a milestone: the last
//! position before its branch point, where there is one, and the archive filed
//! under that position.

use vstd::arithmetic::div_mod::{
    lemma_div_denominator, lemma_fundamental_div_mod, lemma_mod_bound,
};
use vstd::arithmetic::power::{lemma_pow_positive, pow};
use vstd::prelude::*;
use vstd::string::*;

use crate::catalog::decode_fault;
use crate::json::{
    as_text, bytes_json, field, items_of, items_view, lemma_items_view, parse_bytes, Json, JsonView,
};
use crate::milestones::{NPM_SNAP_BASE, SNAPSHOT_DL_BASE};
use crate::order::{lemma_filter_map_add, lemma_filter_map_all, lemma_filter_map_one};
use crate::text::{
    decimal, digit_char, ends_with, from_chars, is_digit, law_decimal_reads_back,
    law_strip_takes_copies, lemma_decimal_digits, lemma_decimal_injective, lemma_one_piece,
    lemma_pieces_append, parse_u64, parsed_u64, pieces, split, str_eq, strip_back, text_view,
    to_chars, trim_end_matches, u64_to_string, views,
};

verus! {

/// Where Google answers questions about the bucket of snapshots.
pub const SNAPSHOT_LIST_API: &'static str =
    "https://www.googleapis.com/storage/v1/b/chromium-browser-snapshots/o";

/// The position that a directory of the bucket stands for: the last part of
/// its path, where it is a number.
pub open spec fn prefix_position(path: Seq<char>) -> Option<u64> {
    parsed_u64(pieces(strip_back(path, set!['/']), '/').last())
}

/// The position that an item of Google's listing stands for.
pub open spec fn google_position() -> spec_fn(JsonView) -> Option<u64> {
    |item: JsonView|
        match as_text(item) {
            Some(path) => prefix_position(path),
            None => None,
        }
}

/// The positions in Google's listing, in its order.
pub open spec fn google_positions(data: JsonView) -> Seq<u64> {
    items_of(field(data, "prefixes"@)).filter_map(google_position())
}

/// The position that an item of the mirror's listing stands for.
pub open spec fn mirror_position() -> spec_fn(JsonView) -> Option<u64> {
    |item: JsonView|
        match as_text(field(item, "name"@)) {
            Some(name) => parsed_u64(strip_back(name, set!['/'])),
            None => None,
        }
}

/// The positions in the mirror's listing, in its order.
pub open spec fn mirror_positions(data: JsonView) -> Seq<u64> {
    items_of(data).filter_map(mirror_position())
}

fn parse_prefix_position(path: &str) -> (r: Option<u64>)
    ensures
        r == prefix_position(path@),
{
    let parts = split(trim_end_matches(path, '/').as_str(), '/');
    let ghost all = views(parts@);
    assert(all.last() == parts@.last()@);
    parse_u64(parts[parts.len() - 1].as_str())
}

/// The positions in Google's listing.
pub fn list_snapshot_positions(data: &Json) -> (r: Vec<u64>)
    ensures
        r@ == google_positions(data@),
{
    let mut r: Vec<u64> = Vec::new();
    let ghost f = google_position();
    let items = match data.items_field("prefixes") {
        Some(items) => items,
        None => {
            assert(r@ =~= google_positions(data@)) by {
                reveal_with_fuel(Seq::filter_map, 1);
            }
            return r;
        },
    };
    let ghost all = items_view(items@);
    let mut i: usize = 0;
    proof {
        lemma_items_view(items@);
        reveal_with_fuel(Seq::filter_map, 1);
        assert(r@ =~= all.take(0).filter_map(f));
    }
    while i < items.len()
        invariant
            i <= items@.len(),
            all == items_view(items@),
            f == google_position(),
            r@ == all.take(i as int).filter_map(f),
        decreases items.len() - i,
    {
        proof {
            lemma_items_view(items@);
            reveal_with_fuel(Seq::filter_map, 2);
            assert(all.take(i + 1).drop_last() =~= all.take(i as int));
            assert(all.take(i + 1).last() == items@[i as int]@);
        }
        let position = match items[i].text() {
            Some(path) => parse_prefix_position(path.as_str()),
            None => None,
        };
        match position {
            Some(p) => {
                let ghost prior = r@;
                r.push(p);
                assert(r@ =~= prior + seq![p]);
            },
            None => {},
        }
        i += 1;
    }
    assert(all.take(items@.len() as int) =~= all) by {
        lemma_items_view(items@);
    }
    r
}

/// The positions in the mirror's listing.
pub fn positions_in_mirror_listing(data: &Json) -> (r: Vec<u64>)
    ensures
        r@ == mirror_positions(data@),
{
    let mut r: Vec<u64> = Vec::new();
    let ghost f = mirror_position();
    let items = match data.items() {
        Some(items) => items,
        None => {
            assert(r@ =~= mirror_positions(data@)) by {
                reveal_with_fuel(Seq::filter_map, 1);
            }
            return r;
        },
    };
    let ghost all = items_view(items@);
    let mut i: usize = 0;
    proof {
        lemma_items_view(items@);
        reveal_with_fuel(Seq::filter_map, 1);
        assert(r@ =~= all.take(0).filter_map(f));
    }
    while i < items.len()
        invariant
            i <= items@.len(),
            all == items_view(items@),
            f == mirror_position(),
            r@ == all.take(i as int).filter_map(f),
        decreases items.len() - i,
    {
        proof {
            lemma_items_view(items@);
            reveal_with_fuel(Seq::filter_map, 2);
            assert(all.take(i + 1).drop_last() =~= all.take(i as int));
            assert(all.take(i + 1).last() == items@[i as int]@);
        }
        let position = match items[i].text_field("name") {
            Some(name) => parse_u64(trim_end_matches(name.as_str(), '/').as_str()),
            None => None,
        };
        match position {
            Some(p) => {
                let ghost prior = r@;
                r.push(p);
                assert(r@ =~= prior + seq![p]);
            },
            None => {},
        }
        i += 1;
    }
    assert(all.take(items@.len() as int) =~= all) by {
        lemma_items_view(items@);
    }
    r
}

/// Whether some position lies before `target`.
pub open spec fn any_before(positions: Seq<u64>, target: u64) -> bool {
    exists|i: int| 0 <= i < positions.len() && #[trigger] positions[i] < target
}

/// Whether `p` is the position to take for the branch point `target`: the
/// last one before it, since the builds after it belong to the next
/// milestone, and where there is none before it the nearest one.
pub open spec fn is_chosen(positions: Seq<u64>, target: u64, p: u64) -> bool {
    &&& positions.contains(p)
    &&& if any_before(positions, target) {
        &&& p < target
        &&& forall|i: int|
            0 <= i < positions.len() && positions[i] < target ==> #[trigger] positions[i] <= p
    } else {
        forall|i: int| 0 <= i < positions.len() ==> p <= #[trigger] positions[i]
    }
}

/// The position to take for a branch point.
pub fn choose_position(positions: &Vec<u64>, target: u64) -> (r: Option<u64>)
    ensures
        r is None <==> positions@.len() == 0,
        r matches Some(p) ==> is_chosen(positions@, target, p),
{
    let mut before: Option<u64> = None;
    let mut least: Option<u64> = None;
    let mut i: usize = 0;
    while i < positions.len()
        invariant
            i <= positions@.len(),
            before is Some <==> any_before(positions@.take(i as int), target),
            before matches Some(p) ==> is_chosen(positions@.take(i as int), target, p),
            least is Some <==> i > 0,
            least matches Some(p) ==> positions@.take(i as int).contains(p) && forall|j: int|
                0 <= j < i ==> p <= #[trigger] positions@[j],
        decreases positions.len() - i,
    {
        let p = positions[i];
        let ghost seen = positions@.take(i as int);
        let ghost now = positions@.take(i + 1);
        let ghost old_before = before;
        let ghost old_least = least;
        assert(now =~= seen.push(p));
        assert(now[i as int] == p);
        let later = match before {
            Some(b) => b < p,
            None => true,
        };
        if p < target && later {
            before = Some(p);
        }
        let smaller = match least {
            Some(l) => p < l,
            None => true,
        };
        if smaller {
            least = Some(p);
        }
        proof {
            if any_before(seen, target) {
                let k = choose|k: int| 0 <= k < seen.len() && #[trigger] seen[k] < target;
                assert(now[k] < target);
            }
            if any_before(now, target) && p >= target {
                let k = choose|k: int| 0 <= k < now.len() && #[trigger] now[k] < target;
                assert(seen[k] < target);
            }
            if let Some(b) = old_before {
                let k = choose|k: int| 0 <= k < seen.len() && seen[k] == b;
                assert(now[k] == b);
                assert(now.contains(b));
            }
            if let Some(l) = old_least {
                let k = choose|k: int| 0 <= k < seen.len() && seen[k] == l;
                assert(now[k] == l);
                assert(now.contains(l));
            }
            assert forall|k: int| 0 <= k < now.len() && now[k] < target implies before is Some
                && #[trigger] now[k] <= before->0 by {
                if k < i {
                    assert(now[k] == seen[k]);
                }
            }
        }
        i += 1;
    }
    assert(positions@.take(i as int) =~= positions@);
    match before {
        Some(p) => Some(p),
        None => least,
    }
}

/// How far `a` is from `b`.
pub open spec fn distance(a: u64, b: u64) -> int {
    if a < b {
        b - a
    } else {
        a - b
    }
}

/// There is one position to take, and it is the nearest of those on its side
/// of the branch point.
pub proof fn law_chosen_position_nearest(positions: Seq<u64>, target: u64, p: u64, q: u64)
    requires
        is_chosen(positions, target, p),
    ensures
        is_chosen(positions, target, q) ==> p == q,
        positions.contains(q) && (any_before(positions, target) ==> q < target) ==> distance(
            p,
            target,
        ) <= distance(q, target),
{
    if positions.contains(q) {
        let j = choose|j: int| 0 <= j < positions.len() && positions[j] == q;
        let i = choose|i: int| 0 <= i < positions.len() && positions[i] == p;
        assert(positions[j] == q && positions[i] == p);
    }
}

/// How many digits of the branch point are left out at first.
pub const FIRST_CUT: usize = 2;

/// How many digits of the branch point are left out at most.
pub const LAST_CUT: usize = 4;

/// The notation of `target` without its last `cut` digits.
pub open spec fn shortened(target: u64, cut: nat) -> Seq<char> {
    decimal(target as nat).take(decimal(target as nat).len() - cut)
}

/// Whether the directories can be listed by the notation of `target` without
/// its last `cut` digits.
pub open spec fn can_list(target: u64, cut: int) -> bool {
    FIRST_CUT <= cut <= LAST_CUT && cut < decimal(target as nat).len()
}

proof fn lemma_decimal_shorter(n: nat, cut: nat)
    requires
        cut < decimal(n).len(),
    ensures
        decimal(n).take(decimal(n).len() - cut) == decimal(n / (pow(10, cut) as nat)),
        pow(10, cut) > 0,
    decreases cut,
{
    lemma_pow_positive(10, cut);
    if cut == 0 {
        assert(pow(10, 0) == 1) by {
            reveal(pow);
        }
        assert(n / 1 == n);
        assert(decimal(n).take(decimal(n).len() as int) =~= decimal(n));
    } else {
        let c = (cut - 1) as nat;
        assert(n >= 10);
        let m = n / 10;
        assert(decimal(n) == decimal(m).push(digit_char(n % 10)));
        lemma_decimal_shorter(m, c);
        assert(decimal(n).take(decimal(n).len() - cut) =~= decimal(m).take(
            decimal(m).len() - c,
        ));
        let d = pow(10, c);
        assert(pow(10, cut) == 10 * d) by {
            reveal(pow);
        }
        lemma_div_denominator(n as int, 10, d);
        assert(n as int / (10 * d) == m as int / d);
        assert(n / (pow(10, cut) as nat) == m / (d as nat));
    }
}

/// A position of as many digits as the branch point that a listing finds is
/// less than ten to the power of the number of digits left out away from it:
/// at first less than a hundred, then a thousand, then ten thousand.
pub proof fn law_listing_stays_near(target: u64, cut: nat, p: u64)
    requires
        cut < decimal(target as nat).len(),
        decimal(p as nat).len() == decimal(target as nat).len(),
        shortened(target, cut).is_prefix_of(decimal(p as nat)),
    ensures
        distance(p, target) < pow(10, cut),
{
    let t = target as nat;
    let q = p as nat;
    lemma_decimal_shorter(t, cut);
    lemma_decimal_shorter(q, cut);
    let d = pow(10, cut);
    let k = decimal(t).len() - cut;
    assert(decimal(q).take(k) =~= decimal(q).subrange(0, shortened(target, cut).len() as int));
    assert(decimal(t / (d as nat)) == decimal(q / (d as nat)));
    lemma_decimal_injective(t / (d as nat), q / (d as nat));
    lemma_fundamental_div_mod(t as int, d);
    lemma_fundamental_div_mod(q as int, d);
    lemma_mod_bound(t as int, d);
    lemma_mod_bound(q as int, d);
}

/// Where Google lists the directories whose names begin with `digits`.
pub open spec fn google_list_address(platform: Seq<char>, digits: Seq<char>) -> Seq<char> {
    SNAPSHOT_LIST_API@ + "?delimiter=/&prefix="@ + platform + "/"@ + digits
        + "&fields=prefixes&maxResults=500"@
}

/// Where Google lists the directories whose names begin with `digits`.
pub fn snapshot_list_url(platform: &str, digits: &str) -> (r: String)
    ensures
        r@ == google_list_address(platform@, digits@),
{
    SNAPSHOT_LIST_API.to_string().concat("?delimiter=/&prefix=").concat(platform).concat(
        "/",
    ).concat(digits).concat("&fields=prefixes&maxResults=500")
}

/// Where Google lists the files at a position.
pub open spec fn google_files_address(platform: Seq<char>, position: u64) -> Seq<char> {
    SNAPSHOT_LIST_API@ + "?prefix="@ + platform + "/"@ + decimal(position as nat)
        + "/&fields=items(name)"@
}

/// Where Google lists the files at a position.
pub fn snapshot_files_url(platform: &str, position: u64) -> (r: String)
    ensures
        r@ == google_files_address(platform@, position),
{
    SNAPSHOT_LIST_API.to_string().concat("?prefix=").concat(platform).concat("/").concat(
        u64_to_string(position).as_str(),
    ).concat("/&fields=items(name)")
}

/// Where the mirror lists the positions of a platform.
pub open spec fn mirror_list_address(platform: Seq<char>) -> Seq<char> {
    NPM_SNAP_BASE@ + platform + "/"@
}

/// Where the mirror lists the positions of a platform.
pub fn mirror_list_url(platform: &str) -> (r: String)
    ensures
        r@ == mirror_list_address(platform@),
{
    NPM_SNAP_BASE.to_string().concat(platform).concat("/")
}

/// Where the mirror lists the files at a position.
pub open spec fn mirror_files_address(platform: Seq<char>, position: u64) -> Seq<char> {
    NPM_SNAP_BASE@ + platform + "/"@ + decimal(position as nat) + "/"@
}

/// Where the mirror lists the files at a position.
pub fn mirror_files_url(platform: &str, position: u64) -> (r: String)
    ensures
        r@ == mirror_files_address(platform@, position),
{
    NPM_SNAP_BASE.to_string().concat(platform).concat("/").concat(
        u64_to_string(position).as_str(),
    ).concat("/")
}

/// The name of a file in a listing.
pub open spec fn file_name() -> spec_fn(JsonView) -> Option<Seq<char>> {
    |item: JsonView| as_text(field(item, "name"@))
}

/// The names of the files in a listing.
pub open spec fn file_names(items: Seq<JsonView>) -> Seq<Seq<char>> {
    items.filter_map(file_name())
}

fn names_of(items: &Vec<Json>) -> (r: Vec<String>)
    ensures
        views(r@) == file_names(items_view(items@)),
{
    let mut r: Vec<String> = Vec::new();
    let ghost f = file_name();
    let ghost all = items_view(items@);
    let mut i: usize = 0;
    proof {
        lemma_items_view(items@);
        reveal_with_fuel(Seq::filter_map, 1);
        assert(views(r@) =~= all.take(0).filter_map(f));
    }
    while i < items.len()
        invariant
            i <= items@.len(),
            all == items_view(items@),
            f == file_name(),
            views(r@) == all.take(i as int).filter_map(f),
        decreases items.len() - i,
    {
        proof {
            lemma_items_view(items@);
            reveal_with_fuel(Seq::filter_map, 2);
            assert(all.take(i + 1).drop_last() =~= all.take(i as int));
            assert(all.take(i + 1).last() == items@[i as int]@);
        }
        match items[i].text_field("name") {
            Some(name) => {
                let ghost prior = r@;
                r.push(name.clone());
                assert(views(r@) =~= views(prior) + seq![name@]);
            },
            None => {},
        }
        i += 1;
    }
    assert(all.take(items@.len() as int) =~= all) by {
        lemma_items_view(items@);
    }
    r
}

/// The first of `names` that ends with `suffix`.
pub open spec fn first_ending(names: Seq<Seq<char>>, suffix: Seq<char>) -> Option<Seq<char>>
    decreases names.len(),
{
    if names.len() == 0 {
        None
    } else if suffix.is_suffix_of(names[0]) {
        Some(names[0])
    } else {
        first_ending(names.skip(1), suffix)
    }
}

/// The archive of the browser among the files at a position. Its name has
/// changed over the years and differs between platforms.
pub open spec fn archive_among(names: Seq<Seq<char>>) -> Option<Seq<char>> {
    if first_ending(names, "chrome-win.zip"@) is Some {
        first_ending(names, "chrome-win.zip"@)
    } else if first_ending(names, "chrome-win32.zip"@) is Some {
        first_ending(names, "chrome-win32.zip"@)
    } else if first_ending(names, "chrome-mac.zip"@) is Some {
        first_ending(names, "chrome-mac.zip"@)
    } else {
        first_ending(names, "chrome-linux.zip"@)
    }
}

fn find_ending(names: &Vec<String>, suffix: &str) -> (r: Option<String>)
    ensures
        text_view(r) == first_ending(views(names@), suffix@),
{
    let mut i: usize = 0;
    assert(views(names@).skip(0) =~= views(names@));
    while i < names.len()
        invariant
            i <= names@.len(),
            first_ending(views(names@), suffix@) == first_ending(
                views(names@).skip(i as int),
                suffix@,
            ),
        decreases names.len() - i,
    {
        assert(views(names@).skip(i as int)[0] == names@[i as int]@);
        assert(views(names@).skip(i as int).skip(1) =~= views(names@).skip(i + 1));
        if ends_with(names[i].as_str(), suffix) {
            return Some(names[i].clone());
        }
        i += 1;
    }
    None
}

/// The archive of the browser among the files at a position.
pub fn find_archive(names: &Vec<String>) -> (r: Option<String>)
    ensures
        text_view(r) == archive_among(views(names@)),
{
    let found = find_ending(names, "chrome-win.zip");
    if found.is_some() {
        return found;
    }
    let found = find_ending(names, "chrome-win32.zip");
    if found.is_some() {
        return found;
    }
    let found = find_ending(names, "chrome-mac.zip");
    if found.is_some() {
        return found;
    }
    find_ending(names, "chrome-linux.zip")
}

/// Where the archive of the browser lies, from Google's listing of the files
/// at a position.
pub open spec fn google_archive_url(data: JsonView) -> Option<Seq<char>> {
    match archive_among(file_names(items_of(field(data, "items"@)))) {
        Some(name) => Some(SNAPSHOT_DL_BASE@ + "/"@ + name),
        None => None,
    }
}

/// Where the archive of the browser lies, from Google's listing of the files
/// at a position.
pub fn google_archive(data: &Json) -> (r: Option<String>)
    ensures
        text_view(r) == google_archive_url(data@),
{
    let names = match data.items_field("items") {
        Some(items) => names_of(items),
        None => {
            let none: Vec<String> = Vec::new();
            assert(views(none@) =~= file_names(items_of(field(data@, "items"@)))) by {
                reveal_with_fuel(Seq::filter_map, 1);
            }
            none
        },
    };
    match find_archive(&names) {
        Some(name) => Some(SNAPSHOT_DL_BASE.to_string().concat("/").concat(name.as_str())),
        None => None,
    }
}

/// Where the archive of the browser lies, from the mirror's listing of the
/// files at a position.
pub open spec fn mirror_archive_url(
    platform: Seq<char>,
    position: u64,
    data: JsonView,
) -> Option<Seq<char>> {
    match archive_among(file_names(items_of(data))) {
        Some(name) => Some(
            mirror_files_address(platform, position) + strip_back(name, set!['/']),
        ),
        None => None,
    }
}

/// Where the archive of the browser lies, from the mirror's listing of the
/// files at a position.
pub fn mirror_archive(platform: &str, position: u64, data: &Json) -> (r: Option<String>)
    ensures
        text_view(r) == mirror_archive_url(platform@, position, data@),
{
    let names = match data.items() {
        Some(items) => names_of(items),
        None => {
            let none: Vec<String> = Vec::new();
            assert(views(none@) =~= file_names(items_of(data@))) by {
                reveal_with_fuel(Seq::filter_map, 1);
            }
            none
        },
    };
    match find_archive(&names) {
        Some(name) => Some(
            mirror_files_url(platform, position).concat(
                trim_end_matches(name.as_str(), '/').as_str(),
            ),
        ),
        None => None,
    }
}

/// The position to take for a branch point, where there is one.
pub open spec fn chosen_position(positions: Seq<u64>, target: u64) -> Option<u64> {
    if positions.len() == 0 {
        None
    } else {
        Some(choose|p: u64| is_chosen(positions, target, p))
    }
}

fn take_position(positions: &Vec<u64>, target: u64) -> (r: Option<u64>)
    ensures
        r == chosen_position(positions@, target),
{
    let r = choose_position(positions, target);
    proof {
        if let Some(p) = r {
            law_chosen_position_nearest(
                positions@,
                target,
                p,
                chosen_position(positions@, target)->0,
            );
        }
    }
    r
}

/// What a search for an archive at Google has asked for.
#[derive(Clone, Copy)]
pub enum GoogleStage {
    /// The directories whose names begin with the branch point without its
    /// last `cut` digits.
    Listing { cut: usize },
    /// The files at the position that was taken.
    Files,
}

/// What a search for an archive on the mirror has asked for.
#[derive(Clone, Copy)]
pub enum MirrorStage {
    /// The positions of the platform.
    Listing,
    /// The files at the position that was taken.
    Files { position: u64 },
}

/// What a search for an archive has asked for.
#[derive(Clone, Copy)]
pub enum Stage {
    Google(GoogleStage),
    Mirror(MirrorStage),
}

/// What is to be done next in a search for an archive: ask for `url`, whose
/// answer belongs to `stage`; or end with the address of the archive, or
/// with an error.
pub enum Resolution {
    Ask { url: String, stage: Stage },
    Done(Result<String, String>),
}

/// What a [`Resolution`] holds.
pub enum ResolutionView {
    Ask { url: Seq<char>, stage: Stage },
    Done(Result<Seq<char>, Seq<char>>),
}

impl View for Resolution {
    type V = ResolutionView;

    open spec fn view(&self) -> ResolutionView {
        match *self {
            Resolution::Ask { url, stage } => ResolutionView::Ask { url: url@, stage },
            Resolution::Done(Ok(url)) => ResolutionView::Done(Ok(url@)),
            Resolution::Done(Err(e)) => ResolutionView::Done(Err(e@)),
        }
    }
}

/// Asks Google for the directories near the branch point with `cut` digits
/// left out, or ends the search where that cannot be asked.
pub open spec fn google_listing(platform: Seq<char>, target: u64, cut: int) -> ResolutionView {
    if can_list(target, cut) {
        ResolutionView::Ask {
            url: google_list_address(platform, shortened(target, cut as nat)),
            stage: Stage::Google(GoogleStage::Listing { cut: cut as usize }),
        }
    } else {
        ResolutionView::Done(Err("未在快照库中找到可用构建"@))
    }
}

fn list_near(platform: &str, target: u64, cut: usize) -> (r: Resolution)
    ensures
        r@ == google_listing(platform@, target, cut as int),
{
    let notation = to_chars(u64_to_string(target).as_str());
    if cut < FIRST_CUT || cut > LAST_CUT || notation.len() <= cut {
        return Resolution::Done(Err("未在快照库中找到可用构建".to_string()));
    }
    let n: usize = notation.len() - cut;
    assert(notation@.subrange(0, n as int) =~= shortened(target, cut as nat));
    let digits = from_chars(&notation, 0, n);
    Resolution::Ask {
        url: snapshot_list_url(platform, digits.as_str()),
        stage: Stage::Google(GoogleStage::Listing { cut }),
    }
}

/// How the search at Google goes on when `data` was answered: of the positions
/// in the listing the last one before the branch point is taken, or where
/// there is none before it the first one from it on; where the listing is
/// empty one digit more is left out; and of the files at the position the
/// archive of the browser is taken.
pub open spec fn google_next(
    platform: Seq<char>,
    target: u64,
    stage: GoogleStage,
    data: JsonView,
) -> ResolutionView {
    match stage {
        GoogleStage::Listing { cut } => match chosen_position(google_positions(data), target) {
            Some(p) => ResolutionView::Ask {
                url: google_files_address(platform, p),
                stage: Stage::Google(GoogleStage::Files),
            },
            None => google_listing(platform, target, cut + 1),
        },
        GoogleStage::Files => match google_archive_url(data) {
            Some(url) => ResolutionView::Done(Ok(url)),
            None => ResolutionView::Done(Err("快照中未找到浏览器压缩包"@)),
        },
    }
}

/// Goes on with the search at Google when `data` was answered.
pub fn resolve_snapshot_google(
    platform: &str,
    target: u64,
    stage: GoogleStage,
    data: &Json,
) -> (r: Resolution)
    ensures
        r@ == google_next(platform@, target, stage, data@),
{
    match stage {
        GoogleStage::Listing { cut } => match take_position(
            &list_snapshot_positions(data),
            target,
        ) {
            Some(p) => Resolution::Ask {
                url: snapshot_files_url(platform, p),
                stage: Stage::Google(GoogleStage::Files),
            },
            None => if cut < LAST_CUT {
                list_near(platform, target, cut + 1)
            } else {
                Resolution::Done(Err("未在快照库中找到可用构建".to_string()))
            },
        },
        GoogleStage::Files => match google_archive(data) {
            Some(url) => Resolution::Done(Ok(url)),
            None => Resolution::Done(Err("快照中未找到浏览器压缩包".to_string())),
        },
    }
}

/// How the search on the mirror goes on when `data` was answered: of the
/// positions in the listing the last one before the branch point is taken, or
/// where there is none before it the first one from it on, and of the files there
/// the archive of the browser.
pub open spec fn mirror_next(
    platform: Seq<char>,
    target: u64,
    stage: MirrorStage,
    data: JsonView,
) -> ResolutionView {
    match stage {
        MirrorStage::Listing => match chosen_position(mirror_positions(data), target) {
            Some(p) => ResolutionView::Ask {
                url: mirror_files_address(platform, p),
                stage: Stage::Mirror(MirrorStage::Files { position: p }),
            },
            None => ResolutionView::Done(Err("镜像快照库中未找到可用构建"@)),
        },
        MirrorStage::Files { position } => match mirror_archive_url(platform, position, data) {
            Some(url) => ResolutionView::Done(Ok(url)),
            None => ResolutionView::Done(Err("镜像快照中未找到浏览器压缩包"@)),
        },
    }
}

/// Goes on with the search on the mirror when `data` was answered.
pub fn resolve_snapshot_npm(
    platform: &str,
    target: u64,
    stage: MirrorStage,
    data: &Json,
) -> (r: Resolution)
    ensures
        r@ == mirror_next(platform@, target, stage, data@),
{
    match stage {
        MirrorStage::Listing => match take_position(&positions_in_mirror_listing(data), target) {
            Some(p) => Resolution::Ask {
                url: mirror_files_url(platform, p),
                stage: Stage::Mirror(MirrorStage::Files { position: p }),
            },
            None => Resolution::Done(Err("镜像快照库中未找到可用构建".to_string())),
        },
        MirrorStage::Files { position } => match mirror_archive(platform, position, data) {
            Some(url) => Resolution::Done(Ok(url)),
            None => Resolution::Done(Err("镜像快照中未找到浏览器压缩包".to_string())),
        },
    }
}

/// How the search for the snapshot near `target` begins: with a listing of
/// the mirror if `source` names it, else of Google.
pub open spec fn resolution_start(
    source: Seq<char>,
    platform: Seq<char>,
    target: u64,
) -> ResolutionView {
    if source == "npmmirror"@ {
        ResolutionView::Ask {
            url: mirror_list_address(platform),
            stage: Stage::Mirror(MirrorStage::Listing),
        }
    } else {
        google_listing(platform, target, FIRST_CUT as int)
    }
}

/// Begins the search for the snapshot near the branch point `target`.
pub fn resolve_snapshot(source: &str, platform: &str, target: u64) -> (r: Resolution)
    ensures
        r@ == resolution_start(source@, platform@, target),
{
    if str_eq(source, "npmmirror") {
        Resolution::Ask {
            url: mirror_list_url(platform),
            stage: Stage::Mirror(MirrorStage::Listing),
        }
    } else {
        list_near(platform, target, FIRST_CUT)
    }
}

/// How the search goes on when `data` was answered.
pub open spec fn resolution_next(
    platform: Seq<char>,
    target: u64,
    stage: Stage,
    data: JsonView,
) -> ResolutionView {
    match stage {
        Stage::Google(stage) => google_next(platform, target, stage, data),
        Stage::Mirror(stage) => mirror_next(platform, target, stage, data),
    }
}

/// Goes on with the search when `body` was answered to what `stage` had asked
/// for. An answer that is no JSON ends it.
pub fn continue_resolving(platform: &str, target: u64, stage: Stage, body: &[u8]) -> (r: Resolution)
    ensures
        r@ == match bytes_json(body@) {
            Some(data) => resolution_next(platform@, target, stage, data),
            None => ResolutionView::Done(Err(decode_fault())),
        },
{
    match parse_bytes(body) {
        Some(data) => match stage {
            Stage::Google(stage) => resolve_snapshot_google(platform, target, stage, &data),
            Stage::Mirror(stage) => resolve_snapshot_npm(platform, target, stage, &data),
        },
        None => Resolution::Done(Err("error decoding response body".to_string())),
    }
}

/// Whether a search comes to this stage.
pub open spec fn is_reached(stage: Stage) -> bool {
    stage matches Stage::Google(GoogleStage::Listing { cut }) ==> FIRST_CUT <= cut <= LAST_CUT
}

/// How many questions a search can still ask after this stage, at most.
pub open spec fn questions_left(stage: Stage) -> int {
    match stage {
        Stage::Google(GoogleStage::Listing { cut }) => LAST_CUT - cut + 1,
        Stage::Google(GoogleStage::Files) => 0,
        Stage::Mirror(MirrorStage::Listing) => 1,
        Stage::Mirror(MirrorStage::Files { .. }) => 0,
    }
}

/// Every search ends, whatever is answered: the first question leaves at
/// most three more, and each question fewer than the one before.
pub proof fn law_search_ends(
    source: Seq<char>,
    platform: Seq<char>,
    target: u64,
    stage: Stage,
    data: JsonView,
)
    requires
        is_reached(stage),
    ensures
        resolution_start(source, platform, target) matches ResolutionView::Ask {
            stage: first,
            ..
        } ==> is_reached(first) && questions_left(first) <= 3,
        resolution_next(platform, target, stage, data) matches ResolutionView::Ask {
            stage: next,
            ..
        } ==> is_reached(next) && 0 <= questions_left(next) < questions_left(stage),
{
}

/// An archive is only ever found where Google or the mirror keeps snapshots.
pub proof fn law_archive_from_known_place(
    platform: Seq<char>,
    target: u64,
    stage: Stage,
    data: JsonView,
)
    ensures
        resolution_next(platform, target, stage, data) matches ResolutionView::Done(Ok(url)) ==> (
        SNAPSHOT_DL_BASE@ + "/"@).is_prefix_of(url) || NPM_SNAP_BASE@.is_prefix_of(url),
{
    if let ResolutionView::Done(Ok(url)) = resolution_next(platform, target, stage, data) {
        let google = SNAPSHOT_DL_BASE@ + "/"@;
        let mirror = NPM_SNAP_BASE@;
        if stage is Google {
            assert(google =~= url.subrange(0, google.len() as int));
        } else {
            assert(mirror =~= url.subrange(0, mirror.len() as int));
        }
    }
}

/// The position of a directory is what stands last in its path, whatever
/// stands before it and however many slashes follow.
pub proof fn law_position_stands_last(before: Seq<char>, last: Seq<char>, slashes: nat)
    requires
        last.len() > 0,
        forall|i: int| 0 <= i < last.len() ==> #[trigger] last[i] != '/',
    ensures
        prefix_position(before.push('/') + last + Seq::new(slashes, |i: int| '/'))
            == parsed_u64(last),
        prefix_position(last + Seq::new(slashes, |i: int| '/')) == parsed_u64(last),
{
    let path = before.push('/') + last;
    assert(last[last.len() - 1] != '/');
    assert(path.last() == last.last());
    law_strip_takes_copies('/', slashes, path);
    law_strip_takes_copies('/', slashes, last);
    lemma_pieces_append(before, '/', last);
    lemma_one_piece(last, '/');
}

/// The path of the directory at a position, as it stands in a listing.
pub open spec fn directory_path(platform: Seq<char>, position: u64) -> Seq<char> {
    platform + "/"@ + decimal(position as nat) + "/"@
}

proof fn lemma_position_notation(platform: Seq<char>, p: u64)
    ensures
        prefix_position(directory_path(platform, p)) == Some(p),
        parsed_u64(strip_back(decimal(p as nat) + "/"@, set!['/'])) == Some(p),
{
    reveal_strlit("/");
    let digits = decimal(p as nat);
    lemma_decimal_digits(p as nat);
    assert forall|i: int| 0 <= i < digits.len() implies #[trigger] digits[i] != '/' by {
        assert(is_digit(digits[i]));
    }
    let slash = Seq::new(1, |i: int| '/');
    law_position_stands_last(platform, digits, 1);
    assert(directory_path(platform, p) =~= platform.push('/') + digits + slash);
    law_decimal_reads_back(p);
    assert(digits.last() == digits[digits.len() - 1]);
    law_strip_takes_copies('/', 1, digits);
    assert(digits + "/"@ =~= digits + slash);
}

/// Listing directories and reading their positions are inverse: from a
/// listing that names the directories of any positions, on any platform, those
/// positions are read, all of them and in their order.
pub proof fn law_listed_positions_are_read(
    platform: Seq<char>,
    positions: Seq<u64>,
    google: JsonView,
    mirror: JsonView,
)
    requires
        field(google, "prefixes"@) == JsonView::Array(
            Seq::new(
                positions.len(),
                |i: int| JsonView::Str(directory_path(platform, positions[i])),
            ),
        ),
        mirror is Array,
        mirror->Array_0.len() == positions.len(),
        forall|i: int|
            0 <= i < positions.len() ==> field(#[trigger] mirror->Array_0[i], "name"@)
                == JsonView::Str(decimal(positions[i] as nat) + "/"@),
    ensures
        google_positions(google) == positions,
        mirror_positions(mirror) == positions,
{
    let items = items_of(field(google, "prefixes"@));
    assert forall|i: int| 0 <= i < items.len() implies google_position()(#[trigger] items[i])
        == Some(positions[i]) by {
        lemma_position_notation(platform, positions[i]);
    }
    lemma_filter_map_all(items, google_position(), positions);
    let items = mirror->Array_0;
    assert forall|i: int| 0 <= i < items.len() implies mirror_position()(#[trigger] items[i])
        == Some(positions[i]) by {
        lemma_position_notation(platform, positions[i]);
    }
    lemma_filter_map_all(items, mirror_position(), positions);
}

/// A listing is read item by item: what is read from two lists of items one
/// after the other is what is read from each, and an item that names no
/// position adds nothing.
pub proof fn law_positions_item_by_item(
    a: Seq<JsonView>,
    b: Seq<JsonView>,
    item: JsonView,
    all: JsonView,
    first: JsonView,
    second: JsonView,
    one: JsonView,
)
    requires
        field(all, "prefixes"@) == JsonView::Array(a + b),
        field(first, "prefixes"@) == JsonView::Array(a),
        field(second, "prefixes"@) == JsonView::Array(b),
        field(one, "prefixes"@) == JsonView::Array(seq![item]),
    ensures
        google_positions(all) == google_positions(first) + google_positions(second),
        mirror_positions(JsonView::Array(a + b)) == mirror_positions(JsonView::Array(a))
            + mirror_positions(JsonView::Array(b)),
        google_positions(one) == match item {
            JsonView::Str(path) => match prefix_position(path) {
                Some(p) => seq![p],
                None => Seq::empty(),
            },
            _ => Seq::empty(),
        },
        !(field(item, "name"@) is Str) ==> mirror_positions(JsonView::Array(seq![item]))
            == Seq::<u64>::empty(),
        field(item, "name"@) matches JsonView::Str(name) ==> (parsed_u64(
            strip_back(name, set!['/']),
        ) is None ==> mirror_positions(JsonView::Array(seq![item])) == Seq::<u64>::empty()),
{
    lemma_filter_map_add(a, b, google_position());
    lemma_filter_map_add(a, b, mirror_position());
    lemma_filter_map_one(item, google_position());
    lemma_filter_map_one(item, mirror_position());
}

proof fn lemma_chosen_exists(positions: Seq<u64>, target: u64) -> (p: u64)
    requires
        positions.len() > 0,
    ensures
        is_chosen(positions, target, p),
    decreases positions.len(),
{
    let rest = positions.drop_last();
    let last = positions.last();
    assert(positions[positions.len() - 1] == last);
    if rest.len() == 0 {
        assert(positions.contains(last));
        last
    } else {
        let q = lemma_chosen_exists(rest, target);
        let k = choose|k: int| 0 <= k < rest.len() && rest[k] == q;
        assert(positions[k] == q);
        assert(positions.contains(q) && positions.contains(last));
        assert forall|i: int| 0 <= i < rest.len() implies #[trigger] positions[i] == rest[i] by {}
        if any_before(rest, target) {
            let j = choose|j: int| 0 <= j < rest.len() && #[trigger] rest[j] < target;
            assert(positions[j] < target);
        }
        if any_before(positions, target) && last >= target {
            let j = choose|j: int| 0 <= j < positions.len() && #[trigger] positions[j] < target;
            assert(rest[j] < target);
        }
        let p = if last < target && (!any_before(rest, target) || q < last) {
            last
        } else if any_before(rest, target) || q <= last {
            q
        } else {
            last
        };
        p
    }
}

/// Of any positions one is taken, whatever they are: one of them, with no
/// other between it and the branch point; and one that is not before the
/// branch point only where none is.
pub proof fn law_position_taken(positions: Seq<u64>, target: u64, i: int)
    requires
        0 <= i < positions.len(),
    ensures
        chosen_position(positions, target) is Some,
        positions.contains(chosen_position(positions, target)->0),
        !(chosen_position(positions, target)->0 < positions[i] < target),
        chosen_position(positions, target)->0 >= target ==> positions[i]
            >= chosen_position(positions, target)->0,
{
    let p = lemma_chosen_exists(positions, target);
    law_chosen_position_nearest(positions, target, p, chosen_position(positions, target)->0);
}

proof fn lemma_decimal_len(n: nat)
    ensures
        decimal(n).len() > 2 <==> n >= 100,
        decimal(n).len() > 3 <==> n >= 1000,
        decimal(n).len() > 4 <==> n >= 10000,
{
    reveal_with_fuel(decimal, 5);
}

proof fn lemma_shortened(target: u64, cut: nat)
    requires
        2 <= cut <= 4,
        cut < decimal(target as nat).len(),
    ensures
        cut == 2 ==> shortened(target, cut) == decimal((target / 100) as nat),
        cut == 3 ==> shortened(target, cut) == decimal((target / 1000) as nat),
        cut == 4 ==> shortened(target, cut) == decimal((target / 10000) as nat),
{
    lemma_decimal_shorter(target as nat, cut);
    reveal_with_fuel(pow, 5);
    assert(pow(10, 2) == 100);
    assert(pow(10, 3) == 1000);
    assert(pow(10, 4) == 10000);
}

/// The question for the directories whose positions begin with the number `n`.
pub open spec fn listing_question(platform: Seq<char>, n: u64) -> Seq<char> {
    "https://www.googleapis.com/storage/v1/b/chromium-browser-snapshots/o?delimiter=/&prefix="@
        + platform + "/"@ + decimal(n as nat) + "&fields=prefixes&maxResults=500"@
}

proof fn lemma_listing_question(platform: Seq<char>, n: u64)
    ensures
        google_list_address(platform, decimal(n as nat)) == listing_question(platform, n),
{
    reveal_strlit("https://www.googleapis.com/storage/v1/b/chromium-browser-snapshots/o");
    reveal_strlit("?delimiter=/&prefix=");
    reveal_strlit(
        "https://www.googleapis.com/storage/v1/b/chromium-browser-snapshots/o?delimiter=/&prefix=",
    );
    assert(SNAPSHOT_LIST_API@ + "?delimiter=/&prefix="@
        =~= "https://www.googleapis.com/storage/v1/b/chromium-browser-snapshots/o?delimiter=/&prefix="@);
}

/// The search at Google asks for the directories within a hundred of the
/// branch point, that is those that begin with a hundredth of it; where there
/// are none within a thousand, then within ten thousand; and a branch point
/// with too few digits ends it.
pub proof fn law_google_search_widens(
    source: Seq<char>,
    platform: Seq<char>,
    target: u64,
    data: JsonView,
)
    requires
        source != "npmmirror"@,
        google_positions(data).len() == 0,
    ensures
        ({
            let begun = resolution_start(source, platform, target);
            let then = google_next(platform, target, GoogleStage::Listing { cut: 2 }, data);
            let last = google_next(platform, target, GoogleStage::Listing { cut: 3 }, data);
            &&& target >= 100 ==> begun == (ResolutionView::Ask {
                url: listing_question(platform, target / 100),
                stage: Stage::Google(GoogleStage::Listing { cut: 2 }),
            })
            &&& target >= 1000 ==> then == (ResolutionView::Ask {
                url: listing_question(platform, target / 1000),
                stage: Stage::Google(GoogleStage::Listing { cut: 3 }),
            })
            &&& target >= 10000 ==> last == (ResolutionView::Ask {
                url: listing_question(platform, target / 10000),
                stage: Stage::Google(GoogleStage::Listing { cut: 4 }),
            })
            &&& target < 100 ==> begun is Done && begun->Done_0 is Err
            &&& target < 1000 ==> then is Done && then->Done_0 is Err
            &&& target < 10000 ==> last is Done && last->Done_0 is Err
            &&& google_next(platform, target, GoogleStage::Listing { cut: 4 }, data) is Done
        }),
{
    lemma_decimal_len(target as nat);
    if target >= 100 {
        lemma_shortened(target, 2);
        lemma_listing_question(platform, target / 100);
    }
    if target >= 1000 {
        lemma_shortened(target, 3);
        lemma_listing_question(platform, target / 1000);
    }
    if target >= 10000 {
        lemma_shortened(target, 4);
        lemma_listing_question(platform, target / 10000);
    }
}

/// Where a listing names positions, the files at one of them are asked for:
/// at one with no other between it and the branch point, before the branch
/// point if any is.
pub proof fn law_files_of_taken_position(
    platform: Seq<char>,
    target: u64,
    cut: usize,
    google: JsonView,
    mirror: JsonView,
    i: int,
    j: int,
)
    requires
        0 <= i < google_positions(google).len(),
        0 <= j < mirror_positions(mirror).len(),
    ensures
        exists|p: u64|
            {
                &&& google_positions(google).contains(p)
                &&& !(p < google_positions(google)[i] < target)
                &&& p >= target ==> p <= google_positions(google)[i]
                &&& google_next(platform, target, GoogleStage::Listing { cut }, google)
                    == (ResolutionView::Ask {
                    url: SNAPSHOT_LIST_API@ + "?prefix="@ + platform + "/"@ + #[trigger] decimal(
                        p as nat,
                    ) + "/&fields=items(name)"@,
                    stage: Stage::Google(GoogleStage::Files),
                })
            },
        exists|p: u64|
            {
                &&& mirror_positions(mirror).contains(p)
                &&& !(p < mirror_positions(mirror)[j] < target)
                &&& p >= target ==> p <= mirror_positions(mirror)[j]
                &&& mirror_next(platform, target, MirrorStage::Listing, mirror)
                    == (ResolutionView::Ask {
                    url: NPM_SNAP_BASE@ + platform + "/"@ + #[trigger] decimal(p as nat) + "/"@,
                    stage: Stage::Mirror(MirrorStage::Files { position: p }),
                })
            },
{
    law_position_taken(google_positions(google), target, i);
    law_position_taken(mirror_positions(mirror), target, j);
    let p = chosen_position(google_positions(google), target)->0;
    assert(decimal(p as nat) == decimal(p as nat));
    assert(google_next(platform, target, GoogleStage::Listing { cut }, google)
        == (ResolutionView::Ask {
        url: SNAPSHOT_LIST_API@ + "?prefix="@ + platform + "/"@ + decimal(p as nat)
            + "/&fields=items(name)"@,
        stage: Stage::Google(GoogleStage::Files),
    }));
    let q = chosen_position(mirror_positions(mirror), target)->0;
    assert(mirror_next(platform, target, MirrorStage::Listing, mirror) == (ResolutionView::Ask {
        url: NPM_SNAP_BASE@ + platform + "/"@ + decimal(q as nat) + "/"@,
        stage: Stage::Mirror(MirrorStage::Files { position: q }),
    }));
}

/// Whether no name ends with `suffix`.
pub open spec fn none_ends(names: Seq<Seq<char>>, suffix: Seq<char>) -> bool {
    forall|i: int| 0 <= i < names.len() ==> !suffix.is_suffix_of(#[trigger] names[i])
}

/// Whether the name at `i` ends with `suffix`, and none before it does.
pub open spec fn ends_first(names: Seq<Seq<char>>, i: int, suffix: Seq<char>) -> bool {
    &&& 0 <= i < names.len()
    &&& suffix.is_suffix_of(names[i])
    &&& forall|j: int| 0 <= j < i ==> !suffix.is_suffix_of(#[trigger] names[j])
}

proof fn lemma_first_ending(names: Seq<Seq<char>>, suffix: Seq<char>, i: int)
    ensures
        none_ends(names, suffix) ==> first_ending(names, suffix) is None,
        ends_first(names, i, suffix) ==> first_ending(names, suffix) == Some(names[i]),
    decreases names.len(),
{
    if names.len() > 0 {
        let rest = names.skip(1);
        lemma_first_ending(rest, suffix, i - 1);
        if none_ends(names, suffix) {
            assert forall|j: int| 0 <= j < rest.len() implies !suffix.is_suffix_of(
                #[trigger] rest[j],
            ) by {
                assert(rest[j] == names[j + 1]);
            }
            assert(!suffix.is_suffix_of(names[0]));
        }
        if ends_first(names, i, suffix) && i > 0 {
            assert(!suffix.is_suffix_of(names[0]));
            assert(rest[i - 1] == names[i]);
            assert forall|j: int| 0 <= j < i - 1 implies !suffix.is_suffix_of(
                #[trigger] rest[j],
            ) by {
                assert(rest[j] == names[j + 1]);
            }
        }
    }
}

/// The archive of the browser is the first file with one of four endings,
/// those for Windows before that for macOS and that before the one for Linux;
/// it is found wherever it stands among the files, and there is none where no
/// file has such an ending.
pub proof fn law_archive_is_found(names: Seq<Seq<char>>, i: int)
    ensures
        ends_first(names, i, "chrome-win.zip"@) ==> archive_among(names) == Some(names[i]),
        none_ends(names, "chrome-win.zip"@) && ends_first(names, i, "chrome-win32.zip"@)
            ==> archive_among(names) == Some(names[i]),
        none_ends(names, "chrome-win.zip"@) && none_ends(names, "chrome-win32.zip"@) && ends_first(
            names,
            i,
            "chrome-mac.zip"@,
        ) ==> archive_among(names) == Some(names[i]),
        none_ends(names, "chrome-win.zip"@) && none_ends(names, "chrome-win32.zip"@) && none_ends(
            names,
            "chrome-mac.zip"@,
        ) && ends_first(names, i, "chrome-linux.zip"@) ==> archive_among(names) == Some(names[i]),
        none_ends(names, "chrome-win.zip"@) && none_ends(names, "chrome-win32.zip"@) && none_ends(
            names,
            "chrome-mac.zip"@,
        ) && none_ends(names, "chrome-linux.zip"@) ==> archive_among(names) is None,
{
    lemma_first_ending(names, "chrome-win.zip"@, i);
    lemma_first_ending(names, "chrome-win32.zip"@, i);
    lemma_first_ending(names, "chrome-mac.zip"@, i);
    lemma_first_ending(names, "chrome-linux.zip"@, i);
}

/// The archive among the files that a listing names, whatever their number,
/// is what the search ends with: at its own path at Google, and below the
/// position on the mirror. Without one the search fails.
pub proof fn law_search_ends_with_archive(
    platform: Seq<char>,
    target: u64,
    position: u64,
    names: Seq<Seq<char>>,
    google: JsonView,
    mirror: JsonView,
)
    requires
        mirror is Array,
        mirror->Array_0.len() == names.len(),
        forall|i: int|
            0 <= i < names.len() ==> field(#[trigger] mirror->Array_0[i], "name"@)
                == JsonView::Str(names[i]),
        field(google, "items"@) == mirror,
    ensures
        google_next(platform, target, GoogleStage::Files, google) matches ResolutionView::Done(r)
            && match archive_among(names) {
            Some(name) => r == Ok::<Seq<char>, Seq<char>>(
                "https://commondatastorage.googleapis.com/chromium-browser-snapshots"@ + "/"@
                    + name,
            ),
            None => r is Err,
        },
        mirror_next(
            platform,
            target,
            MirrorStage::Files { position },
            mirror,
        ) matches ResolutionView::Done(r) && match archive_among(names) {
            Some(name) => r == Ok::<Seq<char>, Seq<char>>(
                "https://registry.npmmirror.com/-/binary/chromium-browser-snapshots/"@ + platform
                    + "/"@ + decimal(position as nat) + "/"@ + strip_back(name, set!['/']),
            ),
            None => r is Err,
        },
{
    let items = mirror->Array_0;
    assert forall|i: int| 0 <= i < items.len() implies file_name()(#[trigger] items[i]) == Some(
        names[i],
    ) by {}
    lemma_filter_map_all(items, file_name(), names);
}

/// Files without a name in a listing are passed over, and the others are read
/// one by one.
pub proof fn law_files_item_by_item(a: Seq<JsonView>, b: Seq<JsonView>, item: JsonView)
    ensures
        file_names(a + b) == file_names(a) + file_names(b),
        file_names(seq![item]) == match field(item, "name"@) {
            JsonView::Str(name) => seq![name],
            _ => Seq::empty(),
        },
{
    lemma_filter_map_add(a, b, file_name());
    lemma_filter_map_one(item, file_name());
}

/// On the mirror the search begins with the positions of the platform.
pub proof fn law_mirror_search_begins(platform: Seq<char>, target: u64)
    ensures
        resolution_start("npmmirror"@, platform, target) == (ResolutionView::Ask {
            url: "https://registry.npmmirror.com/-/binary/chromium-browser-snapshots/"@ + platform
                + "/"@,
            stage: Stage::Mirror(MirrorStage::Listing),
        }),
{
}

/// What is to be done next is seen as it is, each text to the letter.
pub proof fn law_resolutions_are_seen_as_they_are(text: String, stage: Stage)
    ensures
        (Resolution::Ask { url: text, stage })@ == (ResolutionView::Ask { url: text@, stage }),
        Resolution::Done(Ok(text))@ == ResolutionView::Done(Ok(text@)),
        Resolution::Done(Err(text))@ == ResolutionView::Done(Err(text@)),
{
}

} // verus!
