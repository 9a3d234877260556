//! Whether there is a newer release of this program.

use vstd::prelude::*;
use vstd::string::*;

use crate::catalog::decode_fault;
use crate::download::{is_success, success};
use crate::json::{as_text, bytes_json, field, parse_bytes, Json, JsonView};
use crate::order::{key_is_less, key_less, law_first_difference_decides, law_key_order_total};
use crate::text::{
    from_chars, law_strip_takes_copies, starts_with, strip_front, to_chars, trim_start_matches,
};
use crate::versions::{
    dotted, law_dotted_version, law_valid_version_stays_inside, version_key, version_numbers,
};

verus! {

/// Where the releases can be looked at.
pub const RELEASES_PAGE: &'static str = "https://github.com/ahua8522/ChromeTester/releases";

/// Where the latest release can be asked for.
pub const LATEST_RELEASE_API: &'static str =
    "https://api.github.com/repos/ahua8522/ChromeTester/releases/latest";

/// What the addresses begin with that may be opened.
pub const OPEN_BASE: &'static str = "https://github.com/";

/// How many characters of the notes are kept.
pub const MAX_NOTES: usize = 400;

/// What is known of the latest release.
#[derive(Clone)]
pub struct UpdateInfo {
    pub current: String,
    pub latest: String,
    pub has_update: bool,
    pub url: String,
    pub notes: String,
}

/// What an [`UpdateInfo`] holds.
pub struct UpdateView {
    pub current: Seq<char>,
    pub latest: Seq<char>,
    pub has_update: bool,
    pub url: Seq<char>,
    pub notes: Seq<char>,
}

impl View for UpdateInfo {
    type V = UpdateView;

    open spec fn view(&self) -> UpdateView {
        UpdateView {
            current: self.current@,
            latest: self.latest@,
            has_update: self.has_update,
            url: self.url@,
            notes: self.notes@,
        }
    }
}

/// The text in the field `name`, or `default` where there is none.
pub open spec fn text_or(data: JsonView, name: Seq<char>, default: Seq<char>) -> Seq<char> {
    match as_text(field(data, name)) {
        Some(text) => text,
        None => default,
    }
}

fn read_text(data: &Json, name: &str, default: &str) -> (r: String)
    ensures
        r@ == text_or(data@, name@, default@),
{
    match data.text_field(name) {
        Some(text) => text.clone(),
        None => default.to_string(),
    }
}

/// At most the first `n` characters of `s`.
pub open spec fn beginning(s: Seq<char>, n: nat) -> Seq<char> {
    if s.len() <= n {
        s
    } else {
        s.take(n as int)
    }
}

fn take_beginning(s: &str, n: usize) -> (r: String)
    ensures
        r@ == beginning(s@, n as nat),
{
    let chars = to_chars(s);
    let end: usize = if chars.len() <= n {
        chars.len()
    } else {
        n
    };
    assert(chars@.subrange(0, end as int) =~= beginning(s@, n as nat));
    from_chars(&chars, 0, end)
}

/// Whether the release `latest` is newer than `current`.
pub open spec fn is_newer(latest: Seq<char>, current: Seq<char>) -> bool {
    latest.len() > 0 && key_less(version_numbers(current), version_numbers(latest))
}

/// What a description of the latest release says.
pub open spec fn update_in(current: Seq<char>, data: JsonView) -> UpdateView {
    let latest = strip_front(text_or(data, "tag_name"@, ""@), set!['v']);
    UpdateView {
        current,
        latest,
        has_update: is_newer(latest, current),
        url: text_or(data, "html_url"@, RELEASES_PAGE@),
        notes: beginning(text_or(data, "body"@, ""@), MAX_NOTES as nat),
    }
}

/// What a description of the latest release says to the version `current`.
pub fn read_release(current: &str, data: &Json) -> (r: UpdateInfo)
    ensures
        r@ == update_in(current@, data@),
{
    let tag = read_text(data, "tag_name", "");
    let latest = trim_start_matches(tag.as_str(), 'v');
    let url = read_text(data, "html_url", RELEASES_PAGE);
    let body = read_text(data, "body", "");
    let notes = take_beginning(body.as_str(), MAX_NOTES);
    let has_update = !latest.as_str().is_empty() && key_is_less(
        &version_key(current),
        &version_key(latest.as_str()),
    );
    UpdateInfo { current: current.to_string(), latest, has_update, url, notes }
}

/// What is known where nothing has been released yet.
pub open spec fn no_release(current: Seq<char>) -> UpdateView {
    UpdateView {
        current,
        latest: current,
        has_update: false,
        url: RELEASES_PAGE@,
        notes: "远端尚无正式发布"@,
    }
}

/// What is known of the latest release, from the answer to the question for
/// it: its status, the status as a text, and its body. Status 404 says that
/// nothing has been released. Fails where the status is no success, and
/// where the body is no JSON.
pub fn check_update(current: &str, status: u16, status_text: &str, body: &[u8]) -> (r: Result<
    UpdateInfo,
    String,
>)
    ensures
        r is Ok <==> status == 404 || (success(status) && bytes_json(body@) is Some),
        r matches Ok(info) ==> info@ == if status == 404 {
            no_release(current@)
        } else {
            update_in(current@, bytes_json(body@)->0)
        },
        r matches Err(e) ==> e@ == if success(status) {
            decode_fault()
        } else {
            "检查失败: HTTP "@ + status_text@
        },
{
    if status == 404 {
        return Ok(
            UpdateInfo {
                current: current.to_string(),
                latest: current.to_string(),
                has_update: false,
                url: RELEASES_PAGE.to_string(),
                notes: "远端尚无正式发布".to_string(),
            },
        );
    }
    if !is_success(status) {
        return Err("检查失败: HTTP ".to_string().concat(status_text));
    }
    match parse_bytes(body) {
        Some(data) => Ok(read_release(current, &data)),
        None => Err("error decoding response body".to_string()),
    }
}

/// A release is never newer than itself, with or without a leading `v` in its
/// tag; and of two releases at most one is newer than the other.
pub proof fn law_newer_is_strict(a: Seq<char>, b: Seq<char>)
    requires
        a.len() > 0 ==> a[0] != 'v',
    ensures
        !is_newer(strip_front(a, set!['v']), a),
        !is_newer(strip_front("v"@ + a, set!['v']), a),
        !(is_newer(a, b) && is_newer(b, a)),
{
    reveal_strlit("v");
    let tag = "v"@ + a;
    assert(tag[0] == 'v');
    assert(tag.skip(1) =~= a);
    assert(strip_front(a, set!['v']) == a);
    assert(strip_front(tag, set!['v']) == strip_front(tag.skip(1), set!['v']));
    law_key_order_total(version_numbers(a), version_numbers(a));
    law_key_order_total(version_numbers(a), version_numbers(b));
}

/// Checks that an address may be opened in the browser of the user.
pub fn open_url(url: &str) -> (r: Result<(), String>)
    ensures
        r is Ok <==> OPEN_BASE@.is_prefix_of(url@),
        r matches Err(e) ==> e@ == "非法链接"@,
{
    if starts_with(url, OPEN_BASE) {
        Ok(())
    } else {
        Err("非法链接".to_string())
    }
}

/// The page of the releases, which is the address that is given where none
/// is known, may be opened.
pub proof fn law_release_page_opens(current: Seq<char>)
    ensures
        OPEN_BASE@.is_prefix_of(no_release(current).url),
{
    reveal_strlit("https://github.com/");
    reveal_strlit("https://github.com/ahua8522/ChromeTester/releases");
    assert(OPEN_BASE@ =~= RELEASES_PAGE@.subrange(0, OPEN_BASE@.len() as int));
}

/// The latest release is what the tag says without the letters `v` before it,
/// the address and the notes are those of the release, and the notes are cut
/// after four hundred characters.
pub proof fn law_release_is_described(
    current: Seq<char>,
    data: JsonView,
    letters: nat,
    tag: Seq<char>,
    url: Seq<char>,
    notes: Seq<char>,
)
    requires
        field(data, "tag_name"@) == JsonView::Str(Seq::new(letters, |i: int| 'v') + tag),
        tag.len() > 0 ==> tag[0] != 'v',
        field(data, "html_url"@) == JsonView::Str(url),
        field(data, "body"@) == JsonView::Str(notes),
    ensures
        update_in(current, data).current == current,
        update_in(current, data).latest == tag,
        update_in(current, data).url == url,
        notes.len() <= 400 ==> update_in(current, data).notes == notes,
        notes.len() > 400 ==> update_in(current, data).notes == notes.take(400),
        tag.len() == 0 ==> !update_in(current, data).has_update,
        tag.len() > 0 ==> (update_in(current, data).has_update <==> key_less(
            version_numbers(current),
            version_numbers(tag),
        )),
{
    law_strip_takes_copies('v', letters, tag);
}

/// A release that says nothing has no version, no notes and no update, and the
/// page of all releases stands for its own.
pub proof fn law_release_without_description(current: Seq<char>, data: JsonView)
    ensures
        !(field(data, "tag_name"@) is Str) ==> update_in(current, data).latest.len() == 0
            && !update_in(current, data).has_update,
        !(field(data, "html_url"@) is Str) ==> update_in(current, data).url
            == "https://github.com/ahua8522/ChromeTester/releases"@,
        !(field(data, "body"@) is Str) ==> update_in(current, data).notes.len() == 0,
        no_release(current).current == current,
        no_release(current).latest == current,
        !no_release(current).has_update,
{
    reveal_strlit("");
}

/// A release is newer than another one whose numbers are the same up to a
/// place where it has the greater number, or where only it goes on; and the
/// other one is not newer. So it is with any number of numbers.
pub proof fn law_greater_numbers_are_newer(older: Seq<u64>, newer: Seq<u64>, i: int)
    requires
        0 < older.len(),
        0 <= i < newer.len(),
        i <= older.len(),
        forall|j: int| 0 <= j < i ==> older[j] == newer[j],
        i < older.len() ==> older[i] < newer[i],
    ensures
        is_newer(dotted(newer), dotted(older)),
        !is_newer(dotted(older), dotted(newer)),
{
    law_dotted_version(older);
    law_dotted_version(newer);
    law_valid_version_stays_inside(dotted(newer));
    law_first_difference_decides(older, newer, i);
}

/// What is known of a release is seen as it is, each text to the letter.
pub proof fn law_release_is_seen_as_it_is(info: UpdateInfo)
    ensures
        info@.current == info.current@,
        info@.latest == info.latest@,
        info@.has_update == info.has_update,
        info@.url == info.url@,
        info@.notes == info.notes@,
{
}

} // verus!
