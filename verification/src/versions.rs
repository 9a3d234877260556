//! Browser versions: their names, their order, and the lists made of them.

use vstd::prelude::*;
use vstd::string::*;

use crate::config::{find_version_dir, is_first_present};
use crate::names::{is_reserved, lemma_reserved_starts};
use crate::order::{
    key_less, law_sorted_keeps_items, law_sorted_shape, lemma_filter_map_add, lemma_filter_map_one,
    lemma_sorted_map, precedes, sort_by_keys, sorted_from, Direction,
};
use crate::text::{
    decimal, is_digit, joined, law_decimal_reads_back, law_split_undoes_join, lemma_decimal_digits,
    lemma_decimal_injective, lemma_one_piece, lemma_pieces_append, lemma_pieces_not_empty,
    parse_u64, parsed_u64, pieces, split, starts_with, str_eq, to_chars, u64_to_string,
    unsigned_digits, views,
};

verus! {

/// Where the mirror keeps Chrome for Testing.
pub const NPM_CFT_BASE: &'static str = "https://registry.npmmirror.com/-/binary/chrome-for-testing/";

/// Where Google keeps Chrome for Testing.
pub const CFT_BASE: &'static str = "https://storage.googleapis.com/chrome-for-testing-public/";

/// A version that can be downloaded, and where from.
#[derive(Clone)]
pub struct VersionInfo {
    pub version: String,
    pub download_url: String,
}

/// A version found on disk, and its directory.
#[derive(Clone)]
pub struct InstalledVersion {
    pub version: String,
    pub path: String,
}

/// The number that a part of a version stands for: 0 where it is no number.
pub open spec fn part_value(part: Seq<char>) -> u64 {
    match parsed_u64(part) {
        Some(n) => n,
        None => 0,
    }
}

/// The numbers by which a version is ordered: one for each of its parts
/// between dots.
pub open spec fn version_numbers(version: Seq<char>) -> Seq<u64> {
    pieces(version, '.').map_values(|part: Seq<char>| part_value(part))
}

/// The numbers by which a version is ordered.
pub fn version_key(v: &str) -> (r: Vec<u64>)
    ensures
        r@ == version_numbers(v@),
{
    let parts = split(v, '.');
    let mut r: Vec<u64> = Vec::new();
    let mut i: usize = 0;
    while i < parts.len()
        invariant
            i <= parts@.len(),
            views(parts@) == pieces(v@, '.'),
            r@ =~= version_numbers(v@).take(i as int),
        decreases parts.len() - i,
    {
        assert(views(parts@)[i as int] == parts@[i as int]@);
        let n = match parse_u64(parts[i].as_str()) {
            Some(n) => n,
            None => 0,
        };
        r.push(n);
        i += 1;
    }
    r
}

/// Whether `c` is an ASCII letter or digit.
pub open spec fn is_ascii_alphanumeric(c: char) -> bool {
    is_digit(c) || 'a' <= c <= 'z' || 'A' <= c <= 'Z'
}

/// Whether `s` is one or more decimal digits.
pub open spec fn is_number(s: Seq<char>) -> bool {
    s.len() > 0 && forall|i: int| 0 <= i < s.len() ==> is_digit(#[trigger] s[i])
}

/// Whether `version` is numbers with dots between them.
pub open spec fn is_dotted_number(version: Seq<char>) -> bool {
    forall|k: int|
        0 <= k < pieces(version, '.').len() ==> is_number(#[trigger] pieces(version, '.')[k])
}

/// Whether `version` may name a version directory: it is numbers with dots
/// between them, or `chromium-M` followed by the number of a milestone.
pub open spec fn valid_version(version: Seq<char>) -> bool {
    is_dotted_number(version) || exists|d: Seq<char>|
        is_number(d) && version == #[trigger] ("chromium-M"@ + d)
}

fn are_digits(chars: &Vec<char>, from: usize) -> (r: bool)
    requires
        from <= chars@.len(),
    ensures
        r == is_number(chars@.skip(from as int)),
{
    let ghost digits = chars@.skip(from as int);
    if from == chars.len() {
        return false;
    }
    let mut i: usize = from;
    while i < chars.len()
        invariant
            from <= i <= chars@.len(),
            digits == chars@.skip(from as int),
            forall|j: int| 0 <= j < i - from ==> is_digit(#[trigger] digits[j]),
        decreases chars.len() - i,
    {
        let c = chars[i];
        assert(digits[i - from] == c);
        if !('0' <= c && c <= '9') {
            return false;
        }
        i += 1;
    }
    true
}

fn is_dotted(version: &str) -> (r: bool)
    ensures
        r == is_dotted_number(version@),
{
    let parts = split(version, '.');
    let mut i: usize = 0;
    while i < parts.len()
        invariant
            i <= parts@.len(),
            views(parts@) == pieces(version@, '.'),
            forall|k: int| 0 <= k < i ==> is_number(#[trigger] pieces(version@, '.')[k]),
        decreases parts.len() - i,
    {
        let part = to_chars(parts[i].as_str());
        assert(views(parts@)[i as int] == part@);
        assert(part@.skip(0) =~= part@);
        if !are_digits(&part, 0) {
            return false;
        }
        i += 1;
    }
    true
}

/// Whether `version` may name a version directory.
pub fn is_valid_version(version: &str) -> (r: bool)
    ensures
        r == valid_version(version@),
{
    if is_dotted(version) {
        return true;
    }
    let ghost prefix = "chromium-M"@;
    proof {
        reveal_strlit("chromium-M");
        assert forall|d: Seq<char>| version@ == #[trigger] (prefix + d) implies prefix.is_prefix_of(
            version@,
        ) && d == version@.skip(10) by {
            assert(prefix =~= version@.subrange(0, 10));
            assert(d =~= version@.skip(10));
        }
    }
    if !starts_with(version, "chromium-M") {
        return false;
    }
    let chars = to_chars(version);
    assert(version@ =~= prefix + version@.skip(10));
    are_digits(&chars, 10)
}

/// Checks that `version` may name a version directory.
pub fn validate_version(version: &str) -> (r: Result<(), String>)
    ensures
        r is Ok <==> valid_version(version@),
        r matches Err(e) ==> e@ == "非法版本号"@,
{
    if is_valid_version(version) {
        Ok(())
    } else {
        Err("非法版本号".to_string())
    }
}

/// Where the archive of a version lies: on the mirror if `source` names it,
/// else at Google.
pub open spec fn archive_url(source: Seq<char>, version: Seq<char>, platform: Seq<char>) -> Seq<
    char,
> {
    let base = if source == "npmmirror"@ {
        NPM_CFT_BASE@
    } else {
        CFT_BASE@
    };
    base + version + "/"@ + platform + "/chrome-"@ + platform + ".zip"@
}

/// Where the archive of a version lies.
pub fn cft_download_url(source: &str, version: &str, platform: &str) -> (r: String)
    ensures
        r@ == archive_url(source@, version@, platform@),
{
    let base = if str_eq(source, "npmmirror") {
        NPM_CFT_BASE
    } else {
        CFT_BASE
    };
    base.to_string().concat(version).concat("/").concat(platform).concat("/chrome-").concat(
        platform,
    ).concat(".zip")
}

/// What a [`VersionInfo`] holds.
pub struct VersionView {
    pub version: Seq<char>,
    pub download_url: Seq<char>,
}

impl View for VersionInfo {
    type V = VersionView;

    open spec fn view(&self) -> VersionView {
        VersionView { version: self.version@, download_url: self.download_url@ }
    }
}

/// What a list of versions holds.
pub open spec fn version_views(list: Seq<VersionInfo>) -> Seq<VersionView> {
    list.map_values(|v: VersionInfo| v@)
}

/// The versions among `versions` that may name a directory, in their order,
/// each with the address of its archive.
pub open spec fn offered(source: Seq<char>, platform: Seq<char>, versions: Seq<Seq<char>>) -> Seq<
    VersionView,
> {
    versions.filter_map(
        |v: Seq<char>|
            if valid_version(v) {
                Some(VersionView { version: v, download_url: archive_url(source, v, platform) })
            } else {
                None
            },
    )
}

/// The order of versions that can be downloaded.
pub open spec fn version_order() -> spec_fn(VersionView) -> Seq<u64> {
    |v: VersionView| version_numbers(v.version)
}

/// The versions that can be downloaded, the newest first; those with the same
/// numbers in the order in which they were given.
pub fn build_version_list(source: &str, platform: &str, versions: Vec<String>) -> (r: Vec<
    VersionInfo,
>)
    ensures
        sorted_from(
            Direction::Descending,
            offered(source@, platform@, views(versions@)),
            version_views(r@),
            version_order(),
        ),
{
    let mut found: Vec<VersionInfo> = Vec::new();
    let mut keys: Vec<Vec<u64>> = Vec::new();
    let ghost all = versions@;
    let ghost key = |v: VersionInfo| version_numbers(v.version@);
    assert(offered(source@, platform@, views(all).take(0)) =~= Seq::<VersionView>::empty()) by {
        reveal_with_fuel(Seq::filter_map, 1);
    }
    for version in it: versions
        invariant
            it.seq() == all,
            version_views(found@) =~= offered(source@, platform@, views(all).take(it.index())),
            keys@.len() == found@.len(),
            key == (|v: VersionInfo| version_numbers(v.version@)),
            forall|i: int| 0 <= i < found@.len() ==> (#[trigger] keys@[i])@ == key(found@[i]),
    {
        let ghost k = it.index();
        proof {
            reveal_with_fuel(Seq::filter_map, 2);
            assert(views(all).take(k + 1).drop_last() =~= views(all).take(k));
            assert(views(all).take(k + 1).last() == version@);
        }
        if is_valid_version(version.as_str()) {
            let ghost prior = found@;
            let download_url = cft_download_url(source, version.as_str(), platform);
            keys.push(version_key(version.as_str()));
            found.push(VersionInfo { version, download_url });
            assert(version_views(found@) =~= version_views(prior).push(found@.last()@));
        }
    }
    assert(views(all).take(all.len() as int) =~= views(all));
    let ghost input = found@;
    let r = sort_by_keys(Direction::Descending, found, keys, Ghost(key));
    proof {
        lemma_sorted_map(
            Direction::Descending,
            input,
            r@,
            key,
            |v: VersionInfo| v@,
            version_order(),
        );
    }
    r
}

/// An entry of a directory that is searched for installed versions.
pub struct FoundEntry {
    pub name: String,
    pub path: String,
    pub is_dir: bool,
}

/// What an [`InstalledVersion`] holds.
pub struct InstalledView {
    pub version: Seq<char>,
    pub path: Seq<char>,
}

impl View for InstalledVersion {
    type V = InstalledView;

    open spec fn view(&self) -> InstalledView {
        InstalledView { version: self.version@, path: self.path@ }
    }
}

/// What a list of installed versions holds.
pub open spec fn installed_views(list: Seq<InstalledVersion>) -> Seq<InstalledView> {
    list.map_values(|v: InstalledVersion| v@)
}

/// Whether a version of this name is in the list.
pub open spec fn has_version(list: Seq<InstalledView>, version: Seq<char>) -> bool {
    exists|i: int| 0 <= i < list.len() && (#[trigger] list[i]).version == version
}

/// The versions that the entries stand for: the directories, of those with
/// the same name the first.
pub open spec fn first_dirs(entries: Seq<FoundEntry>) -> Seq<InstalledView>
    decreases entries.len(),
{
    if entries.len() == 0 {
        Seq::empty()
    } else {
        let before = first_dirs(entries.drop_last());
        let entry = entries.last();
        if entry.is_dir && !has_version(before, entry.name@) {
            before.push(InstalledView { version: entry.name@, path: entry.path@ })
        } else {
            before
        }
    }
}

/// Whether the version comes from the entry `k`: a directory of that name
/// before which there is no other.
pub open spec fn is_first_dir(entries: Seq<FoundEntry>, k: int, version: InstalledView) -> bool {
    &&& 0 <= k < entries.len()
    &&& entries[k].is_dir
    &&& entries[k].name@ == version.version
    &&& entries[k].path@ == version.path
    &&& forall|j: int|
        0 <= j < k && (#[trigger] entries[j]).is_dir ==> entries[j].name@ != version.version
}

/// Whether the version comes from the first directory of its name.
pub open spec fn comes_first(entries: Seq<FoundEntry>, version: InstalledView) -> bool {
    exists|k: int| is_first_dir(entries, k, version)
}

/// Every directory that was found is listed, each version once, with the path
/// that was found first.
pub proof fn law_installed_once(entries: Seq<FoundEntry>)
    ensures
        forall|k: int|
            0 <= k < entries.len() && (#[trigger] entries[k]).is_dir ==> has_version(
                first_dirs(entries),
                entries[k].name@,
            ),
        forall|i: int, j: int|
            0 <= i < j < first_dirs(entries).len() ==> (#[trigger] first_dirs(entries)[i]).version
                != (#[trigger] first_dirs(entries)[j]).version,
        forall|i: int|
            0 <= i < first_dirs(entries).len() ==> comes_first(
                entries,
                #[trigger] first_dirs(entries)[i],
            ),
    decreases entries.len(),
{
    if entries.len() > 0 {
        let rest = entries.drop_last();
        let before = first_dirs(rest);
        let all = first_dirs(entries);
        let last = entries.last();
        law_installed_once(rest);
        assert forall|k: int| 0 <= k < entries.len() && (#[trigger] entries[k]).is_dir implies
            has_version(all, entries[k].name@) by {
            if k < rest.len() {
                assert(rest[k] == entries[k]);
                let i = choose|i: int|
                    0 <= i < before.len() && (#[trigger] before[i]).version == entries[k].name@;
                assert(all[i] == before[i]);
            } else if !has_version(before, last.name@) {
                assert(all[before.len() as int].version == last.name@);
            }
        }
        assert forall|i: int| 0 <= i < all.len() implies comes_first(
            entries,
            #[trigger] all[i],
        ) by {
            if i < before.len() {
                assert(all[i] == before[i]);
                let k = choose|k: int| is_first_dir(rest, k, before[i]);
                assert forall|j: int| 0 <= j < k && (#[trigger] entries[j]).is_dir implies
                    entries[j].name@ != all[i].version by {
                    assert(rest[j] == entries[j]);
                }
                assert(rest[k] == entries[k]);
                assert(is_first_dir(entries, k, all[i]));
            } else {
                let k = entries.len() - 1;
                assert forall|j: int| 0 <= j < k && (#[trigger] entries[j]).is_dir implies
                    entries[j].name@ != all[i].version by {
                    assert(rest[j] == entries[j]);
                }
                assert(is_first_dir(entries, k, all[i]));
            }
        }
    }
}

/// The order of installed versions.
pub open spec fn installed_order() -> spec_fn(InstalledView) -> Seq<u64> {
    |v: InstalledView| version_numbers(v.version)
}

fn is_listed(list: &Vec<InstalledVersion>, version: &str) -> (r: bool)
    ensures
        r == has_version(installed_views(list@), version@),
{
    let mut i: usize = 0;
    while i < list.len()
        invariant
            i <= list@.len(),
            forall|j: int|
                0 <= j < i ==> (#[trigger] installed_views(list@)[j]).version != version@,
        decreases list.len() - i,
    {
        assert(installed_views(list@)[i as int].version == list@[i as int].version@);
        if str_eq(list[i].version.as_str(), version) {
            return true;
        }
        i += 1;
    }
    false
}

/// The installed versions among the entries of the directories that were
/// searched, the newest first; those with the same numbers in the order in
/// which they were found.
pub fn get_installed_versions(entries: Vec<FoundEntry>) -> (r: Vec<InstalledVersion>)
    ensures
        sorted_from(
            Direction::Descending,
            first_dirs(entries@),
            installed_views(r@),
            installed_order(),
        ),
{
    let mut found: Vec<InstalledVersion> = Vec::new();
    let mut keys: Vec<Vec<u64>> = Vec::new();
    let ghost all = entries@;
    let ghost key = |v: InstalledVersion| version_numbers(v.version@);
    for entry in it: entries
        invariant
            it.seq() == all,
            installed_views(found@) =~= first_dirs(all.take(it.index())),
            keys@.len() == found@.len(),
            key == (|v: InstalledVersion| version_numbers(v.version@)),
            forall|i: int| 0 <= i < found@.len() ==> (#[trigger] keys@[i])@ == key(found@[i]),
    {
        let ghost k = it.index();
        assert(all.take(k + 1).drop_last() =~= all.take(k));
        if entry.is_dir && !is_listed(&found, entry.name.as_str()) {
            let ghost prior = found@;
            keys.push(version_key(entry.name.as_str()));
            found.push(InstalledVersion { version: entry.name, path: entry.path });
            assert(installed_views(found@) =~= installed_views(prior).push(found@.last()@));
        }
    }
    assert(all.take(all.len() as int) =~= all);
    let ghost input = found@;
    let r = sort_by_keys(Direction::Descending, found, keys, Ghost(key));
    proof {
        lemma_sorted_map(
            Direction::Descending,
            input,
            r@,
            key,
            |v: InstalledVersion| v@,
            installed_order(),
        );
    }
    r
}

/// Whether an archive may be downloaded from `url`: it lies at Google or on
/// the mirror.
pub open spec fn is_allowed_url(url: Seq<char>) -> bool {
    CFT_BASE@.is_prefix_of(url) || NPM_CFT_BASE@.is_prefix_of(url)
}

/// What stands against a download: that the version may not name a
/// directory, or that the archive may not be downloaded from `url`.
pub open spec fn download_fault(version: Seq<char>, url: Seq<char>) -> Option<Seq<char>> {
    if !valid_version(version) {
        Some("非法版本号"@)
    } else if !is_allowed_url(url) {
        Some("非法下载地址"@)
    } else {
        None
    }
}

/// Checks that `version` may be downloaded from `url`.
pub fn check_download(version: &str, url: &str) -> (r: Result<(), String>)
    ensures
        r is Ok <==> download_fault(version@, url@) is None,
        r matches Err(e) ==> download_fault(version@, url@) == Some(e@),
{
    match validate_version(version) {
        Ok(_) => if starts_with(url, CFT_BASE) || starts_with(url, NPM_CFT_BASE) {
            Ok(())
        } else {
            Err("非法下载地址".to_string())
        },
        Err(e) => Err(e),
    }
}

/// Checks that the directory of a version is not there yet.
pub fn check_not_installed(exists: bool) -> (r: Result<(), String>)
    ensures
        r is Ok <==> !exists,
        r matches Err(e) ==> e@ == "版本已存在"@,
{
    if exists {
        Err("版本已存在".to_string())
    } else {
        Ok(())
    }
}

/// Checks that the directory of a milestone is not there yet.
pub fn check_milestone_not_installed(exists: bool) -> (r: Result<(), String>)
    ensures
        r is Ok <==> !exists,
        r matches Err(e) ==> e@ == "该版本已存在"@,
{
    if exists {
        Err("该版本已存在".to_string())
    } else {
        Ok(())
    }
}

/// Every address that is made for an archive may be downloaded from, and
/// every version that is offered may be downloaded from the address it is
/// offered with.
pub proof fn law_offered_can_be_downloaded(
    source: Seq<char>,
    platform: Seq<char>,
    versions: Seq<Seq<char>>,
)
    ensures
        forall|version: Seq<char>|
            is_allowed_url(#[trigger] archive_url(source, version, platform)),
        forall|i: int|
            0 <= i < offered(source, platform, versions).len() ==> download_fault(
                (#[trigger] offered(source, platform, versions)[i]).version,
                offered(source, platform, versions)[i].download_url,
            ) is None,
    decreases versions.len(),
{
    assert forall|version: Seq<char>| is_allowed_url(
        #[trigger] archive_url(source, version, platform),
    ) by {
        let base = if source == "npmmirror"@ {
            NPM_CFT_BASE@
        } else {
            CFT_BASE@
        };
        assert(base =~= archive_url(source, version, platform).subrange(0, base.len() as int));
    }
    reveal_with_fuel(Seq::filter_map, 2);
    if versions.len() > 0 {
        let rest = offered(source, platform, versions.drop_last());
        law_offered_can_be_downloaded(source, platform, versions.drop_last());
        assert forall|i: int| 0 <= i < offered(source, platform, versions).len() implies
            download_fault(
            (#[trigger] offered(source, platform, versions)[i]).version,
            offered(source, platform, versions)[i].download_url,
        ) is None by {
            if i < rest.len() {
                assert(offered(source, platform, versions)[i] == rest[i]);
            }
            assert(is_allowed_url(archive_url(source, versions.last(), platform)));
        }
    }
}

/// The name of the directory of a milestone of Chromium.
pub open spec fn milestone_name(milestone: u32) -> Seq<char> {
    "chromium-M"@ + decimal(milestone as nat)
}

/// The name of the directory of a milestone of Chromium.
pub fn chromium_label(milestone: u32) -> (r: String)
    ensures
        r@ == milestone_name(milestone),
{
    "chromium-M".to_string().concat(u64_to_string(milestone as u64).as_str())
}

/// The name of a milestone's directory may name a version directory. It is
/// ordered by the number 0 alone, so in a list it comes after every version
/// that is not ordered by the number 0 alone too.
pub proof fn law_milestone_name(milestone: u32, version: Seq<char>)
    ensures
        valid_version(milestone_name(milestone)),
        version_numbers(milestone_name(milestone)) == seq![0u64],
        version_numbers(version) == seq![0u64] || precedes(
            Direction::Descending,
            version_numbers(version),
            version_numbers(milestone_name(milestone)),
        ),
{
    let name = milestone_name(milestone);
    let digits = decimal(milestone as nat);
    reveal_strlit("chromium-M");
    lemma_decimal_digits(milestone as nat);
    assert(is_number(digits) && name == "chromium-M"@ + digits);
    assert forall|i: int| 0 <= i < name.len() implies #[trigger] name[i] != '.' by {
        if i >= 10 {
            assert(name[i] == digits[i - 10]);
        }
    }
    lemma_one_piece(name, '.');
    assert(name[0] == 'c');
    assert(parsed_u64(name) is None) by {
        assert(unsigned_digits(name) == name);
        assert(!is_digit(name[0]));
    }
    assert(version_numbers(name) =~= seq![0u64]);
    lemma_pieces_not_empty(version, '.');
    let key = version_numbers(version);
    reveal_with_fuel(key_less, 2);
    if !key_less(seq![0u64], key) {
        assert(key =~= seq![0u64]);
    }
}

proof fn lemma_dotted_chars(s: Seq<char>)
    ensures
        pieces(s, '.').last().len() <= s.len(),
        s.len() > 0 ==> (pieces(s, '.').last().len() == 0 <==> s.last() == '.'),
        (forall|k: int, i: int|
            0 <= k < pieces(s, '.').len() && 0 <= i < pieces(s, '.')[k].len() ==> is_digit(
                #[trigger] pieces(s, '.')[k][i],
            )) ==> forall|i: int| 0 <= i < s.len() ==> is_digit(#[trigger] s[i]) || s[i] == '.',
        (forall|k: int|
            0 <= k < pieces(s, '.').len() - 1 ==> (#[trigger] pieces(s, '.')[k]).len() > 0)
            ==> forall|i: int|
            0 <= i < s.len() - 1 ==> !(#[trigger] s[i] == '.' && s[i + 1] == '.'),
    decreases s.len(),
{
    lemma_pieces_not_empty(s, '.');
    if s.len() > 0 {
        let rest = s.drop_last();
        lemma_dotted_chars(rest);
        lemma_pieces_not_empty(rest, '.');
        let before = pieces(rest, '.');
        let now = pieces(s, '.');
        if forall|k: int, i: int|
            0 <= k < now.len() && 0 <= i < now[k].len() ==> is_digit(#[trigger] now[k][i]) {
            assert forall|k: int, i: int| 0 <= k < before.len() && 0 <= i < before[k].len() implies
                is_digit(#[trigger] before[k][i]) by {
                assert(now[k][i] == before[k][i]);
            }
            assert forall|i: int| 0 <= i < s.len() implies is_digit(#[trigger] s[i]) || s[i]
                == '.' by {
                if i < rest.len() {
                    assert(s[i] == rest[i]);
                } else if s.last() != '.' {
                    let k = now.len() - 1;
                    assert(now[k][now[k].len() - 1] == s.last());
                }
            }
        }
        if forall|k: int| 0 <= k < now.len() - 1 ==> (#[trigger] now[k]).len() > 0 {
            assert forall|k: int| 0 <= k < before.len() - 1 implies (#[trigger] before[k]).len()
                > 0 by {
                assert(now[k] == before[k]);
            }
            assert forall|i: int| 0 <= i < s.len() - 1 implies !(#[trigger] s[i] == '.' && s[i
                + 1] == '.') by {
                assert(s[i] == rest[i]);
                if i + 1 < rest.len() {
                    assert(s[i + 1] == rest[i + 1]);
                } else if s.last() == '.' {
                    let k = now.len() - 2;
                    assert(now[k] == before.last());
                    assert(rest.last() == s[i]);
                }
            }
        }
    }
}

/// A valid version is one part of a path that leads into a directory: it is
/// not empty, it has no separator, and it does not stand for the directory
/// itself or the one above. It has ASCII letters, digits, dots and hyphens
/// only, and no two dots next to each other; and Windows does not keep it for
/// a device.
pub proof fn law_valid_version_stays_inside(version: Seq<char>)
    requires
        valid_version(version),
    ensures
        version.len() > 0,
        forall|i: int|
            0 <= i < version.len() ==> is_ascii_alphanumeric(#[trigger] version[i]) || version[i]
                == '.' || version[i] == '-',
        forall|i: int|
            0 <= i < version.len() - 1 ==> !(#[trigger] version[i] == '.' && version[i + 1] == '.'),
        version.last() != '.',
        version != "."@,
        version != ".."@,
        !is_reserved(version),
{
    reveal_strlit(".");
    reveal_strlit("..");
    reveal_strlit("chromium-M");
    if is_reserved(version) {
        lemma_reserved_starts(version);
    }
    if is_dotted_number(version) {
        let parts = pieces(version, '.');
        lemma_pieces_not_empty(version, '.');
        lemma_dotted_chars(version);
        assert forall|k: int, i: int| 0 <= k < parts.len() && 0 <= i < parts[k].len() implies
            is_digit(#[trigger] parts[k][i]) by {
            assert(is_number(parts[k]));
        }
        assert(is_number(parts[parts.len() - 1]));
        assert(is_digit(version[0]) || version[0] == '.');
    } else {
        let d = choose|d: Seq<char>|
            is_number(d) && version == #[trigger] ("chromium-M"@ + d);
        assert forall|i: int| 0 <= i < version.len() implies (is_ascii_alphanumeric(
            #[trigger] version[i],
        ) || version[i] == '-') && version[i] != '.' by {
            if i >= 10 {
                assert(version[i] == d[i - 10]);
            }
        }
    }
    assert("."@.last() == '.' && ".."@.last() == '.');
}

/// The directory of `version` that is to be deleted, where there is one: in
/// the first of the install directories that has one, by `present`. Fails
/// where `version` may not name a directory.
pub fn delete_version(version: &str, present: &Vec<bool>) -> (r: Result<Option<usize>, String>)
    ensures
        r is Ok <==> valid_version(version@),
        r matches Err(e) ==> e@ == "非法版本号"@,
        r matches Ok(dir) ==> is_first_present(present@, dir),
{
    match validate_version(version) {
        Ok(_) => Ok(find_version_dir(present)),
        Err(e) => Err(e),
    }
}

/// The directory of `version` that is to be opened. Fails where `version` may
/// not name a directory, and where there is none.
pub fn open_version_folder(version: &str, present: &Vec<bool>) -> (r: Result<usize, String>)
    ensures
        r is Ok <==> valid_version(version@) && present@.contains(true),
        r matches Ok(dir) ==> is_first_present(present@, Some(dir)),
        r matches Err(e) ==> e@ == if valid_version(version@) {
            "目录不存在"@
        } else {
            "非法版本号"@
        },
{
    match validate_version(version) {
        Ok(_) => match find_version_dir(present) {
            Some(dir) => Ok(dir),
            None => Err("目录不存在".to_string()),
        },
        Err(e) => Err(e),
    }
}

/// The numbers with dots between them.
pub open spec fn dotted(numbers: Seq<u64>) -> Seq<char> {
    joined(Seq::new(numbers.len(), |i: int| decimal(numbers[i] as nat)), '.')
}

/// A version made of any numbers, of any number of them, is valid, and it is
/// ordered by those numbers.
pub proof fn law_dotted_version(numbers: Seq<u64>)
    requires
        numbers.len() > 0,
    ensures
        valid_version(dotted(numbers)),
        version_numbers(dotted(numbers)) == numbers,
{
    let parts = Seq::new(numbers.len(), |i: int| decimal(numbers[i] as nat));
    assert forall|k: int, i: int| 0 <= k < parts.len() && 0 <= i < parts[k].len() implies
        #[trigger] parts[k][i] != '.' by {
        lemma_decimal_digits(numbers[k] as nat);
        assert(is_digit(decimal(numbers[k] as nat)[i]));
    }
    law_split_undoes_join(parts, '.');
    assert forall|k: int| 0 <= k < parts.len() implies is_number(#[trigger] parts[k]) by {
        lemma_decimal_digits(numbers[k] as nat);
    }
    assert forall|k: int| 0 <= k < parts.len() implies part_value(#[trigger] parts[k])
        == numbers[k] by {
        law_decimal_reads_back(numbers[k]);
    }
    assert(version_numbers(dotted(numbers)) =~= numbers);
}

/// A further part of a version, behind a dot, adds its number, and 0 where it
/// is none; the parts before it count as they did.
pub proof fn law_parts_count_one_by_one(version: Seq<char>, part: Seq<char>)
    requires
        forall|i: int| 0 <= i < part.len() ==> #[trigger] part[i] != '.',
    ensures
        version_numbers(part).len() == 1,
        version_numbers(part)[0] == match parsed_u64(part) {
            Some(n) => n,
            None => 0,
        },
        version_numbers(version.push('.') + part) == version_numbers(version)
            + version_numbers(part),
{
    lemma_one_piece(part, '.');
    lemma_pieces_append(version, '.', part);
    assert(version_numbers(version.push('.') + part) =~= version_numbers(version)
        + version_numbers(part));
}

/// Digits are a valid version, of any length; so are a valid version that
/// begins with a digit, a dot and digits; and so is the word for a milestone
/// with digits behind it.
pub proof fn law_what_is_a_valid_version(version: Seq<char>, digits: Seq<char>)
    requires
        digits.len() > 0,
        forall|i: int| 0 <= i < digits.len() ==> is_digit(#[trigger] digits[i]),
    ensures
        valid_version(digits),
        valid_version("chromium-M"@ + digits),
        valid_version(version) && is_digit(version[0]) ==> valid_version(
            version.push('.') + digits,
        ),
{
    assert forall|i: int| 0 <= i < digits.len() implies #[trigger] digits[i] != '.' by {
        assert(is_digit(digits[i]));
    }
    lemma_one_piece(digits, '.');
    assert(is_number(digits));
    assert("chromium-M"@ + digits == "chromium-M"@ + digits);
    lemma_pieces_append(version, '.', digits);
    if valid_version(version) && is_digit(version[0]) {
        reveal_strlit("chromium-M");
        assert(is_dotted_number(version));
        let now = pieces(version.push('.') + digits, '.');
        assert forall|k: int| 0 <= k < now.len() implies is_number(#[trigger] now[k]) by {
            if k < pieces(version, '.').len() {
                assert(now[k] == pieces(version, '.')[k]);
            }
        }
    }
}

/// A valid version is either digits and single dots between digits, or the
/// word for a milestone with digits behind it.
pub proof fn law_forms_of_a_valid_version(version: Seq<char>, i: int)
    requires
        valid_version(version),
        0 <= i < version.len(),
    ensures
        is_digit(version[0]) ==> is_digit(version[i]) || version[i] == '.',
        !is_digit(version[0]) ==> "chromium-M"@.is_prefix_of(version) && version.len() > 10 && (i
            >= 10 ==> is_digit(version[i])),
{
    reveal_strlit("chromium-M");
    if is_dotted_number(version) {
        let parts = pieces(version, '.');
        lemma_dotted_chars(version);
        assert forall|k: int, j: int| 0 <= k < parts.len() && 0 <= j < parts[k].len() implies
            is_digit(#[trigger] parts[k][j]) by {
            assert(is_number(parts[k]));
        }
        lemma_first_piece(version);
    } else {
        let d = choose|d: Seq<char>| is_number(d) && version == #[trigger] ("chromium-M"@ + d);
        assert("chromium-M"@ =~= version.subrange(0, 10));
        if i >= 10 {
            assert(version[i] == d[i - 10]);
        }
    }
}

proof fn lemma_first_piece(s: Seq<char>)
    requires
        s.len() > 0,
        pieces(s, '.')[0].len() > 0,
    ensures
        pieces(s, '.')[0][0] == s[0],
        s[0] != '.',
    decreases s.len(),
{
    let rest = s.drop_last();
    lemma_pieces_not_empty(rest, '.');
    if rest.len() > 0 {
        let before = pieces(rest, '.');
        let now = pieces(s, '.');
        if before[0].len() > 0 {
            lemma_first_piece(rest);
        } else {
            lemma_dotted_chars(rest);
            if before.len() == 1 {
                assert(rest.last() == '.');
                lemma_single_piece(rest);
            } else {
                assert(now[0] == before[0]);
            }
        }
    } else {
        assert(rest =~= Seq::<char>::empty());
    }
}

proof fn lemma_single_piece(s: Seq<char>)
    requires
        pieces(s, '.').len() == 1,
    ensures
        pieces(s, '.')[0] == s,
    decreases s.len(),
{
    if s.len() > 0 {
        lemma_pieces_not_empty(s.drop_last(), '.');
        lemma_single_piece(s.drop_last());
        assert(s.drop_last().push(s.last()) =~= s);
    } else {
        assert(pieces(s, '.')[0] =~= s);
    }
}

/// The address of an archive is made of where the source keeps its archives,
/// the version and the platform; so two versions have different addresses.
pub proof fn law_addresses_of_archives(
    source: Seq<char>,
    version: Seq<char>,
    platform: Seq<char>,
    other: Seq<char>,
)
    ensures
        archive_url("npmmirror"@, version, platform)
            == "https://registry.npmmirror.com/-/binary/chrome-for-testing/"@ + version + "/"@
            + platform + "/chrome-"@ + platform + ".zip"@,
        source != "npmmirror"@ ==> archive_url(source, version, platform)
            == "https://storage.googleapis.com/chrome-for-testing-public/"@ + version + "/"@
            + platform + "/chrome-"@ + platform + ".zip"@,
        archive_url(source, version, platform) == archive_url(source, other, platform) ==> version
            == other,
{
    let base = if source == "npmmirror"@ {
        NPM_CFT_BASE@
    } else {
        CFT_BASE@
    };
    let tail = "/"@ + platform + "/chrome-"@ + platform + ".zip"@;
    let a = archive_url(source, version, platform);
    let b = archive_url(source, other, platform);
    assert(a =~= base + version + tail);
    assert(b =~= base + other + tail);
    if a == b {
        assert(version.len() == other.len());
        assert(version =~= a.subrange(base.len() as int, (base.len() + version.len()) as int));
        assert(other =~= b.subrange(base.len() as int, (base.len() + other.len()) as int));
    }
}

/// Versions are offered one by one: what is offered of two lists one after
/// the other is what is offered of each; a valid version is offered with the
/// address of its archive, and another one is not.
pub proof fn law_versions_are_offered_one_by_one(
    source: Seq<char>,
    platform: Seq<char>,
    a: Seq<Seq<char>>,
    b: Seq<Seq<char>>,
    version: Seq<char>,
)
    ensures
        offered(source, platform, a + b) == offered(source, platform, a) + offered(
            source,
            platform,
            b,
        ),
        offered(source, platform, seq![version]) == if valid_version(version) {
            seq![
                VersionView { version, download_url: archive_url(source, version, platform) },
            ]
        } else {
            Seq::empty()
        },
{
    let f = |v: Seq<char>|
        if valid_version(v) {
            Some(VersionView { version: v, download_url: archive_url(source, v, platform) })
        } else {
            None
        };
    lemma_filter_map_add(a, b, f);
    lemma_filter_map_one(version, f);
}

/// In a list of versions, and in one of installed versions, no version comes
/// before one with greater numbers, and the list holds what it was made of.
pub proof fn law_newest_version_first(
    input: Seq<VersionView>,
    list: Seq<VersionView>,
    dirs: Seq<InstalledView>,
    installed: Seq<InstalledView>,
)
    requires
        sorted_from(Direction::Descending, input, list, version_order()),
        sorted_from(Direction::Descending, dirs, installed, installed_order()),
    ensures
        forall|i: int, j: int|
            0 <= i < j < list.len() ==> !key_less(
                version_numbers((#[trigger] list[i]).version),
                version_numbers((#[trigger] list[j]).version),
            ),
        forall|i: int, j: int|
            0 <= i < j < installed.len() ==> !key_less(
                version_numbers((#[trigger] installed[i]).version),
                version_numbers((#[trigger] installed[j]).version),
            ),
        list.to_multiset() == input.to_multiset(),
        installed.to_multiset() == dirs.to_multiset(),
{
    law_sorted_keeps_items(Direction::Descending, input, list, version_order());
    law_sorted_keeps_items(Direction::Descending, dirs, installed, installed_order());
    assert forall|i: int, j: int| 0 <= i < j < list.len() implies !key_less(
        version_numbers((#[trigger] list[i]).version),
        version_numbers((#[trigger] list[j]).version),
    ) by {
        law_sorted_shape(
            Direction::Descending,
            input,
            list,
            version_order(),
            i,
            j,
            Seq::empty(),
        );
    }
    assert forall|i: int, j: int| 0 <= i < j < installed.len() implies !key_less(
        version_numbers((#[trigger] installed[i]).version),
        version_numbers((#[trigger] installed[j]).version),
    ) by {
        law_sorted_shape(
            Direction::Descending,
            dirs,
            installed,
            installed_order(),
            i,
            j,
            Seq::empty(),
        );
    }
}

/// A further entry leaves the versions found so far as they are; it adds one
/// at the end if it is a directory of a name not seen so far, and nothing
/// else.
pub proof fn law_entries_add_one_by_one(entries: Seq<FoundEntry>, entry: FoundEntry)
    ensures
        first_dirs(Seq::empty()).len() == 0,
        !entry.is_dir ==> first_dirs(entries.push(entry)) == first_dirs(entries),
        entry.is_dir && (exists|i: int|
            0 <= i < entries.len() && (#[trigger] entries[i]).is_dir && entries[i].name@
                == entry.name@) ==> first_dirs(entries.push(entry)) == first_dirs(entries),
        entry.is_dir && (forall|i: int|
            0 <= i < entries.len() && (#[trigger] entries[i]).is_dir ==> entries[i].name@
                != entry.name@) ==> first_dirs(entries.push(entry)) == first_dirs(entries).push(
            InstalledView { version: entry.name@, path: entry.path@ },
        ),
{
    assert(entries.push(entry).drop_last() =~= entries);
    law_installed_once(entries);
    let before = first_dirs(entries);
    if has_version(before, entry.name@) {
        let i = choose|i: int| 0 <= i < before.len() && (#[trigger] before[i]).version == entry.name@;
        assert(comes_first(entries, before[i]));
        let k = choose|k: int| is_first_dir(entries, k, before[i]);
        assert(entries[k].is_dir && entries[k].name@ == entry.name@);
    }
}

/// What may be downloaded is a valid version from an address that begins as
/// those of Google's or the mirror's archives do, however it goes on.
pub proof fn law_what_may_be_downloaded(version: Seq<char>, url: Seq<char>, rest: Seq<char>)
    ensures
        valid_version(version) ==> download_fault(
            version,
            "https://storage.googleapis.com/chrome-for-testing-public/"@ + rest,
        ) is None,
        valid_version(version) ==> download_fault(
            version,
            "https://registry.npmmirror.com/-/binary/chrome-for-testing/"@ + rest,
        ) is None,
        download_fault(version, url) is None ==> valid_version(version) && (
        "https://storage.googleapis.com/chrome-for-testing-public/"@.is_prefix_of(url)
            || "https://registry.npmmirror.com/-/binary/chrome-for-testing/"@.is_prefix_of(url)),
{
    let google = CFT_BASE@ + rest;
    let mirror = NPM_CFT_BASE@ + rest;
    assert(CFT_BASE@ =~= google.subrange(0, CFT_BASE@.len() as int));
    assert(NPM_CFT_BASE@ =~= mirror.subrange(0, NPM_CFT_BASE@.len() as int));
}

/// The directory of a milestone is named after it, and no two milestones have
/// one name.
pub proof fn law_milestones_have_names(a: u32, b: u32)
    ensures
        milestone_name(a) == "chromium-M"@ + decimal(a as nat),
        milestone_name(a) == milestone_name(b) ==> a == b,
{
    let word = "chromium-M"@;
    if milestone_name(a) == milestone_name(b) {
        assert(decimal(a as nat) =~= milestone_name(a).skip(word.len() as int));
        assert(decimal(b as nat) =~= milestone_name(b).skip(word.len() as int));
        lemma_decimal_injective(a as nat, b as nat);
    }
}

/// A list of versions is seen with each of its versions, and each version with
/// all that it holds.
pub proof fn law_versions_are_seen_as_they_are(
    list: Seq<VersionInfo>,
    installed: Seq<InstalledVersion>,
    i: int,
)
    ensures
        version_views(list).len() == list.len(),
        0 <= i < list.len() ==> version_views(list)[i].version == list[i].version@
            && version_views(list)[i].download_url == list[i].download_url@,
        installed_views(installed).len() == installed.len(),
        0 <= i < installed.len() ==> installed_views(installed)[i].version
            == installed[i].version@ && installed_views(installed)[i].path == installed[i].path@,
{
}

} // verus!
