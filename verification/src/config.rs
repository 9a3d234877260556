//! The settings that are kept in `config.json`.

use vstd::prelude::*;
use vstd::string::*;

use crate::json::{
    alike, as_text, field, fields_view, is_nested, items_of, items_view, lemma_alike_field,
    lemma_alike_texts, lemma_items_view, parse_text, pretty_text, print_text, set_field, take_field,
    text_items, text_json, texts_of, Json, JsonView, MAX_DEPTH,
};
use crate::order::lemma_filter_map_all;
use crate::text::{law_trim_once, str_eq, text_view, trim, trimmed, views};

verus! {

/// The settings before any has been made.
pub open spec fn no_settings() -> JsonView {
    JsonView::Object(Map::empty())
}

/// The settings in the text of the file, `None` where it cannot be read. A
/// text that is no JSON counts for nothing.
pub open spec fn settings(text: Option<Seq<char>>) -> JsonView {
    match text {
        Some(t) => match text_json(t) {
            Some(cfg) => cfg,
            None => no_settings(),
        },
        None => no_settings(),
    }
}

/// Reads the settings from the text of the file.
pub fn load_config(text: Option<String>) -> (r: Json)
    ensures
        r@ == settings(text_view(text)),
        is_nested(r@, MAX_DEPTH as nat),
{
    let parsed = match text {
        Some(t) => parse_text(t.as_str()),
        None => None,
    };
    match parsed {
        Some(cfg) => cfg,
        None => {
            let none: Vec<(String, Json)> = Vec::new();
            assert(fields_view(none@) =~= Map::empty());
            Json::Object(none)
        },
    }
}

/// The name of the download source that `source` selects: the mirror by its
/// name, Google by any other.
pub open spec fn source_name(source: Seq<char>) -> Seq<char> {
    if source == "npmmirror"@ {
        "npmmirror"@
    } else {
        "google"@
    }
}

/// The download source in the settings: Google where none is set.
pub open spec fn source_of(cfg: JsonView) -> Seq<char> {
    match as_text(field(cfg, "download_source"@)) {
        Some(s) => source_name(s),
        None => "google"@,
    }
}

/// The download source in the settings.
pub fn download_source(cfg: &Json) -> (r: String)
    ensures
        r@ == source_of(cfg@),
{
    match cfg.text_field("download_source") {
        Some(s) => if str_eq(s.as_str(), "npmmirror") {
            "npmmirror".to_string()
        } else {
            "google".to_string()
        },
        None => "google".to_string(),
    }
}

/// The settings `cfg` with `value` under `name`.
pub open spec fn with_setting(cfg: JsonView, name: Seq<char>, value: JsonView) -> JsonView {
    match cfg {
        JsonView::Object(fields) => JsonView::Object(fields.insert(name, value)),
        _ => cfg,
    }
}

/// What is said of settings that are no JSON object.
pub open spec fn format_fault() -> Seq<char> {
    "配置格式错误"@
}

/// Whether what is read from the text `text` is like the settings `cfg`.
pub open spec fn reads_like(text: Seq<char>, cfg: JsonView) -> bool {
    alike(cfg, settings(Some(text)), MAX_DEPTH as nat)
}

/// The settings with the download source that `source` selects.
pub open spec fn with_source(cfg: JsonView, source: Seq<char>) -> JsonView {
    with_setting(cfg, "download_source"@, JsonView::Str(source_name(source)))
}

/// Sets the download source: gives the new text of the file for its present
/// text. Fails where the settings are no object. What is read from the new
/// text is like the settings with the source set, and the source in it is the
/// one that was set.
pub fn set_download_source(text: Option<String>, source: &str) -> (r: Result<String, String>)
    ensures
        r is Ok <==> settings(text_view(text)) is Object,
        r matches Err(e) ==> e@ == format_fault(),
        r matches Ok(t) ==> ({
            let cfg = with_source(settings(text_view(text)), source@);
            &&& t@ == pretty_text(cfg)
            &&& reads_like(t@, cfg)
            &&& source_of(settings(Some(t@))) == source_name(source@)
        }),
{
    let name = if str_eq(source, "npmmirror") {
        "npmmirror".to_string()
    } else {
        "google".to_string()
    };
    let cfg = load_config(text);
    let ghost after = with_source(cfg@, source@);
    proof {
        lemma_set_nested(
            cfg@,
            "download_source"@,
            JsonView::Str(source_name(source@)),
            MAX_DEPTH as nat,
        );
    }
    match cfg {
        Json::Object(fields) => {
            let fields = set_field(fields, "download_source", Json::Str(name));
            let t = print_text(Json::Object(fields));
            proof {
                let read = settings(Some(t@));
                let name = "download_source"@;
                lemma_alike_field(after, read, MAX_DEPTH as nat, name);
                lemma_alike_texts(
                    field(after, name),
                    field(read, name),
                    (MAX_DEPTH - 1) as nat,
                );
            }
            Ok(t)
        },
        _ => Err("配置格式错误".to_string()),
    }
}

/// Whatever the settings are, the download source is the mirror or Google,
/// and Google before any has been set; one that has been set is in force.
pub proof fn law_download_source(cfg: JsonView, source: Seq<char>)
    ensures
        source_of(cfg) == "npmmirror"@ || source_of(cfg) == "google"@,
        source_of(no_settings()) == "google"@,
        cfg is Object ==> source_of(with_source(cfg, source)) == source_name(source),
{
}

/// The install directory that the user has chosen: none where the setting is
/// missing or blank.
pub open spec fn chosen_dir(cfg: JsonView) -> Option<Seq<char>> {
    match as_text(field(cfg, "install_dir"@)) {
        Some(s) => if trimmed(s).len() == 0 {
            None
        } else {
            Some(trimmed(s))
        },
        None => None,
    }
}

/// The install directory that the user has chosen.
pub fn custom_install_dir(cfg: &Json) -> (r: Option<String>)
    ensures
        text_view(r) == chosen_dir(cfg@),
{
    match cfg.text_field("install_dir") {
        Some(s) => {
            let dir = trim(s.as_str());
            if dir.as_str().is_empty() {
                None
            } else {
                Some(dir)
            }
        },
        None => None,
    }
}

/// The install directory in use, and whether the user has chosen it.
#[derive(Clone)]
pub struct InstallDirInfo {
    pub path: String,
    pub is_custom: bool,
}

/// The install directory in use: the one that the user has chosen, or else
/// `default`.
pub open spec fn in_force(cfg: JsonView, default: Seq<char>) -> Seq<char> {
    match chosen_dir(cfg) {
        Some(dir) => dir,
        None => default,
    }
}

/// The install directory in use.
pub fn dir_in_force(cfg: &Json, default: String) -> (r: String)
    ensures
        r@ == in_force(cfg@, default@),
{
    match custom_install_dir(cfg) {
        Some(dir) => dir,
        None => default,
    }
}

/// Describes the install directory in use, which is `default` where the user
/// has chosen none.
pub fn get_install_dir(cfg: &Json, default: String) -> (r: InstallDirInfo)
    ensures
        r.path@ == in_force(cfg@, default@),
        r.is_custom == (chosen_dir(cfg@) is Some),
{
    let is_custom = custom_install_dir(cfg).is_some();
    InstallDirInfo { path: dir_in_force(cfg, default), is_custom }
}

/// The install directories that have been in use, the oldest first.
pub open spec fn dir_history(cfg: JsonView) -> Seq<Seq<char>> {
    texts_of(items_of(field(cfg, "install_dirs"@)))
}

/// The install directories that have been in use.
pub fn install_dir_history(cfg: &Json) -> (r: Vec<String>)
    ensures
        views(r@) == dir_history(cfg@),
{
    match cfg.items_field("install_dirs") {
        Some(items) => text_items(items),
        None => {
            let r: Vec<String> = Vec::new();
            assert(views(r@) =~= dir_history(cfg@)) by {
                reveal_with_fuel(Seq::filter_map, 1);
            }
            r
        },
    }
}

/// `items` with `dir` at the end, if it is not among them.
pub open spec fn with_dir(items: Seq<JsonView>, dir: Seq<char>) -> Seq<JsonView> {
    if items.contains(JsonView::Str(dir)) {
        items
    } else {
        items.push(JsonView::Str(dir))
    }
}

/// The settings with `dir` in the history. Nothing changes where the settings
/// are no object, or the history is something else than an array.
pub open spec fn recorded(cfg: JsonView, dir: Seq<char>) -> JsonView {
    match cfg {
        JsonView::Object(fields) => if fields.contains_key("install_dirs"@) {
            match fields["install_dirs"@] {
                JsonView::Array(items) => JsonView::Object(
                    fields.insert("install_dirs"@, JsonView::Array(with_dir(items, dir))),
                ),
                _ => cfg,
            }
        } else {
            JsonView::Object(
                fields.insert("install_dirs"@, JsonView::Array(seq![JsonView::Str(dir)])),
            )
        },
        _ => cfg,
    }
}

fn has_text(items: &Vec<Json>, s: &str) -> (r: bool)
    ensures
        r == items_view(items@).contains(JsonView::Str(s@)),
{
    let mut i: usize = 0;
    proof {
        lemma_items_view(items@);
    }
    while i < items.len()
        invariant
            i <= items@.len(),
            items_view(items@).len() == items@.len(),
            forall|j: int|
                0 <= j < items@.len() ==> #[trigger] items_view(items@)[j] == items@[j]@,
            forall|j: int|
                0 <= j < i ==> #[trigger] items_view(items@)[j] != JsonView::Str(s@),
        decreases items.len() - i,
    {
        assert(items_view(items@)[i as int] == items@[i as int]@);
        match items[i].text() {
            Some(t) => {
                if str_eq(t.as_str(), s) {
                    return true;
                }
            },
            None => {},
        }
        i += 1;
    }
    false
}

fn record_in_fields(fields: Vec<(String, Json)>, dir: &str) -> (r: Vec<(String, Json)>)
    ensures
        JsonView::Object(fields_view(r@)) == recorded(
            JsonView::Object(fields_view(fields@)),
            dir@,
        ),
{
    let ghost before = fields_view(fields@);
    let (taken, rest) = take_field(fields, "install_dirs");
    let history = match taken {
        Some(Json::Array(items)) => {
            let mut items = items;
            if !has_text(&items, dir) {
                let ghost prior = items@;
                let entry = Json::Str(dir.to_string());
                assert(entry@ == JsonView::Str(dir@));
                items.push(entry);
                assert(items@.drop_last() =~= prior);
                assert(items_view(items@) == items_view(prior).push(entry@));
            }
            Json::Array(items)
        },
        Some(other) => other,
        None => {
            let mut items: Vec<Json> = Vec::new();
            let entry = Json::Str(dir.to_string());
            assert(entry@ == JsonView::Str(dir@));
            items.push(entry);
            assert(items@.drop_last() =~= Seq::<Json>::empty());
            assert(items_view(items@) == items_view(Seq::<Json>::empty()).push(entry@));
            assert(items_view(items@) =~= seq![JsonView::Str(dir@)]);
            Json::Array(items)
        },
    };
    let r = set_field(rest, "install_dirs", history);
    assert(before.remove("install_dirs"@).insert("install_dirs"@, history@) =~= before.insert(
        "install_dirs"@,
        history@,
    ));
    assert(before.contains_key("install_dirs"@) ==> before.insert(
        "install_dirs"@,
        before["install_dirs"@],
    ) =~= before);
    r
}

/// Puts `path` into the history of install directories.
pub fn record_install_dir(cfg: Json, path: &str) -> (r: Json)
    ensures
        r@ == recorded(cfg@, path@),
{
    match cfg {
        Json::Object(fields) => Json::Object(record_in_fields(fields, path)),
        other => other,
    }
}

/// The settings `cfg` without `name`.
pub open spec fn without_setting(cfg: JsonView, name: Seq<char>) -> JsonView {
    match cfg {
        JsonView::Object(fields) => JsonView::Object(fields.remove(name)),
        _ => cfg,
    }
}

/// The settings after the user has asked for the install directory `path`
/// while `current` was in use: a blank path stands for the default directory.
/// The directory in use so far and the new one both go into the history.
pub open spec fn switched(cfg: JsonView, current: Option<Seq<char>>, path: Seq<char>) -> JsonView {
    let remembered = match current {
        Some(dir) => recorded(cfg, dir),
        None => cfg,
    };
    if trimmed(path).len() == 0 {
        without_setting(remembered, "install_dir"@)
    } else {
        recorded(
            with_setting(remembered, "install_dir"@, JsonView::Str(trimmed(path))),
            trimmed(path),
        )
    }
}

/// The directory that has to be created before `path` can become the install
/// directory: none where the path is blank. Fails where the settings are no
/// object.
pub fn requested_install_dir(cfg: &Json, path: &str) -> (r: Result<Option<String>, String>)
    ensures
        r is Ok <==> cfg@ is Object,
        r matches Err(e) ==> e@ == format_fault(),
        r matches Ok(dir) ==> text_view(dir) == asked_dir(path@),
{
    match cfg {
        Json::Object(_) => {
            let dir = trim(path);
            if dir.as_str().is_empty() {
                Ok(None)
            } else {
                Ok(Some(dir))
            }
        },
        _ => Err("配置格式错误".to_string()),
    }
}

/// What is said of a directory that cannot be created.
pub fn unavailable_dir(cause: &str) -> (r: String)
    ensures
        r@ == "目录不可用: "@ + cause@,
{
    "目录不可用: ".to_string().concat(cause)
}

/// The install directory that `path` asks for: none where it is blank.
pub open spec fn asked_dir(path: Seq<char>) -> Option<Seq<char>> {
    if trimmed(path).len() == 0 {
        None
    } else {
        Some(trimmed(path))
    }
}

/// Sets the install directory: gives the new text of the file for its present
/// text. `current` is the directory in use so far, where there is one. Fails
/// where the settings are no object. What is read from the new text is like
/// the settings after the switch; the directory chosen in it is the one that
/// was asked for, and its history is that of the settings after the switch.
pub fn set_install_dir(text: Option<String>, current: Option<String>, path: &str) -> (r: Result<
    String,
    String,
>)
    ensures
        r is Ok <==> settings(text_view(text)) is Object,
        r matches Err(e) ==> e@ == format_fault(),
        r matches Ok(t) ==> ({
            let cfg = switched(settings(text_view(text)), text_view(current), path@);
            &&& t@ == pretty_text(cfg)
            &&& reads_like(t@, cfg)
            &&& chosen_dir(settings(Some(t@))) == asked_dir(path@)
            &&& dir_history(settings(Some(t@))) == dir_history(cfg)
        }),
{
    let cfg = load_config(text);
    let ghost after = switched(cfg@, text_view(current), path@);
    proof {
        lemma_switched_nested(cfg@, text_view(current), path@, MAX_DEPTH as nat);
        if cfg@ is Object {
            lemma_switched_choice(cfg@, text_view(current), path@);
        }
    }
    let cfg = match &current {
        Some(dir) => record_install_dir(cfg, dir.as_str()),
        None => cfg,
    };
    match cfg {
        Json::Object(fields) => {
            let dir = trim(path);
            let cfg = if dir.as_str().is_empty() {
                let (_, rest) = take_field(fields, "install_dir");
                Json::Object(rest)
            } else {
                let fields = set_field(fields, "install_dir", Json::Str(dir.clone()));
                record_install_dir(Json::Object(fields), dir.as_str())
            };
            let t = print_text(cfg);
            proof {
                lemma_dirs_read_back(after, settings(Some(t@)), MAX_DEPTH as nat);
            }
            Ok(t)
        },
        _ => Err("配置格式错误".to_string()),
    }
}

proof fn lemma_dirs_read_back(a: JsonView, b: JsonView, depth: nat)
    requires
        depth > 0,
        alike(a, b, depth),
    ensures
        chosen_dir(a) == chosen_dir(b),
        dir_history(a) == dir_history(b),
{
    let below = (depth - 1) as nat;
    lemma_alike_field(a, b, depth, "install_dir"@);
    lemma_alike_texts(field(a, "install_dir"@), field(b, "install_dir"@), below);
    lemma_alike_field(a, b, depth, "install_dirs"@);
    lemma_alike_texts(field(a, "install_dirs"@), field(b, "install_dirs"@), below);
}

/// Whether the history in the settings can take a directory: it is an array,
/// or there is none yet.
pub open spec fn keeps_history(cfg: JsonView) -> bool {
    cfg matches JsonView::Object(fields) && (fields.contains_key("install_dirs"@) ==> fields[
    "install_dirs"@] is Array)
}

proof fn lemma_texts_push(items: Seq<JsonView>, dir: Seq<char>)
    ensures
        texts_of(items.push(JsonView::Str(dir))) == texts_of(items).push(dir),
{
    reveal_with_fuel(Seq::filter_map, 2);
    assert(items.push(JsonView::Str(dir)).drop_last() =~= items);
    assert(texts_of(items).push(dir) =~= texts_of(items) + seq![dir]);
}

proof fn lemma_texts_contain(items: Seq<JsonView>, dir: Seq<char>)
    requires
        items.contains(JsonView::Str(dir)),
    ensures
        texts_of(items).contains(dir),
    decreases items.len(),
{
    reveal_with_fuel(Seq::filter_map, 2);
    let rest = items.drop_last();
    if items.last() == JsonView::Str(dir) {
        assert(texts_of(items) == texts_of(rest) + seq![dir]);
        assert(texts_of(items)[texts_of(rest).len() as int] == dir);
    } else {
        let i = choose|i: int| 0 <= i < items.len() && items[i] == JsonView::Str(dir);
        assert(rest[i] == JsonView::Str(dir));
        lemma_texts_contain(rest, dir);
        let k = choose|k: int| 0 <= k < texts_of(rest).len() && texts_of(rest)[k] == dir;
        assert(texts_of(items)[k] == dir);
    }
}

/// A directory that was recorded is in the history, where the history can
/// take one; what was in the history stays there, in the same order; no other
/// setting changes; and recording a second time changes nothing.
pub proof fn law_recorded_is_remembered(cfg: JsonView, dir: Seq<char>)
    requires
        keeps_history(cfg),
    ensures
        keeps_history(recorded(cfg, dir)),
        dir_history(recorded(cfg, dir)).contains(dir),
        dir_history(cfg).is_prefix_of(dir_history(recorded(cfg, dir))),
        forall|name: Seq<char>|
            name != "install_dirs"@ ==> #[trigger] field(recorded(cfg, dir), name) == field(
                cfg,
                name,
            ),
        recorded(recorded(cfg, dir), dir) == recorded(cfg, dir),
{
    let name = "install_dirs"@;
    let items = items_of(field(cfg, name));
    let fields = cfg->Object_0;
    let after = with_dir(items, dir);
    lemma_texts_push(items, dir);
    if items.contains(JsonView::Str(dir)) {
        lemma_texts_contain(items, dir);
    } else {
        assert(after.last() == JsonView::Str(dir));
        assert(texts_of(after)[texts_of(items).len() as int] == dir);
    }
    assert(texts_of(items) =~= texts_of(after).subrange(0, texts_of(items).len() as int));
    if !fields.contains_key(name) {
        assert(items.push(JsonView::Str(dir)) =~= seq![JsonView::Str(dir)]);
    }
    assert(recorded(cfg, dir) == JsonView::Object(fields.insert(name, JsonView::Array(after))));
    assert(after.contains(JsonView::Str(dir)));
    assert(fields.insert(name, JsonView::Array(after)).insert(name, JsonView::Array(after))
        =~= fields.insert(name, JsonView::Array(after)));
}

proof fn lemma_switched_choice(cfg: JsonView, current: Option<Seq<char>>, path: Seq<char>)
    requires
        cfg is Object,
    ensures
        chosen_dir(switched(cfg, current, path)) == asked_dir(path),
{
    reveal_strlit("install_dir");
    reveal_strlit("install_dirs");
    assert("install_dir"@.len() != "install_dirs"@.len());
    law_trim_once(path);
}

/// After a switch the chosen directory is the one that was asked for, or none
/// where the path was blank. Where the history can take a directory, the
/// directory that was in use and the new one are in it, with all that were
/// there before. No other setting changes.
pub proof fn law_switch_keeps_old_dirs(
    cfg: JsonView,
    current: Option<Seq<char>>,
    path: Seq<char>,
)
    requires
        keeps_history(cfg),
    ensures
        chosen_dir(switched(cfg, current, path)) == asked_dir(path),
        dir_history(cfg).is_prefix_of(dir_history(switched(cfg, current, path))),
        current matches Some(dir) ==> dir_history(switched(cfg, current, path)).contains(dir),
        trimmed(path).len() > 0 ==> dir_history(switched(cfg, current, path)).contains(
            trimmed(path),
        ),
        forall|name: Seq<char>|
            name != "install_dirs"@ && name != "install_dir"@ ==> #[trigger] field(
                switched(cfg, current, path),
                name,
            ) == field(cfg, name),
{
    lemma_switched_choice(cfg, current, path);
    reveal_strlit("install_dir");
    reveal_strlit("install_dirs");
    assert("install_dir"@.len() != "install_dirs"@.len());
    let remembered = match current {
        Some(dir) => recorded(cfg, dir),
        None => cfg,
    };
    if let Some(dir) = current {
        law_recorded_is_remembered(cfg, dir);
    }
    let old = dir_history(cfg);
    let mid = dir_history(remembered);
    assert(old.is_prefix_of(mid));
    if trimmed(path).len() > 0 {
        let set = with_setting(remembered, "install_dir"@, JsonView::Str(trimmed(path)));
        assert(field(set, "install_dirs"@) == field(remembered, "install_dirs"@));
        law_recorded_is_remembered(set, trimmed(path));
        let new = dir_history(switched(cfg, current, path));
        assert(mid.is_prefix_of(new));
        assert(forall|i: int| 0 <= i < mid.len() ==> mid[i] == new[i]);
        assert(old =~= new.subrange(0, old.len() as int));
        if let Some(dir) = current {
            let i = choose|i: int| 0 <= i < mid.len() && mid[i] == dir;
            assert(new[i] == dir);
        }
    } else {
        assert(field(switched(cfg, current, path), "install_dirs"@) == field(
            remembered,
            "install_dirs"@,
        ));
    }
}

/// After a switch the install directory in use is the one that was asked for,
/// and the default one where the path was blank.
pub proof fn law_switched_dir_is_in_force(
    cfg: JsonView,
    current: Option<Seq<char>>,
    path: Seq<char>,
    default: Seq<char>,
)
    requires
        cfg is Object,
    ensures
        in_force(switched(cfg, current, path), default) == match asked_dir(path) {
            Some(dir) => dir,
            None => default,
        },
{
    lemma_switched_choice(cfg, current, path);
}

pub(crate) proof fn lemma_set_nested(cfg: JsonView, name: Seq<char>, value: JsonView, depth: nat)
    requires
        depth > 0,
        is_nested(cfg, depth),
        is_nested(value, (depth - 1) as nat),
    ensures
        is_nested(with_setting(cfg, name, value), depth),
{
    if let JsonView::Object(fields) = cfg {
        let after = fields.insert(name, value);
        assert forall|n: Seq<char>| after.contains_key(n) implies is_nested(
            #[trigger] after[n],
            (depth - 1) as nat,
        ) by {
            if n != name {
                assert(fields.contains_key(n) && after[n] == fields[n]);
            }
        }
    }
}

pub(crate) proof fn lemma_texts_nested(items: Seq<JsonView>, depth: nat)
    requires
        depth > 0,
        forall|i: int| 0 <= i < items.len() ==> (#[trigger] items[i]) is Str,
    ensures
        is_nested(JsonView::Array(items), depth),
{
    reveal_with_fuel(is_nested, 2);
}

proof fn lemma_recorded_nested(cfg: JsonView, dir: Seq<char>, depth: nat)
    requires
        depth > 1,
        is_nested(cfg, depth),
    ensures
        is_nested(recorded(cfg, dir), depth),
{
    let name = "install_dirs"@;
    if let JsonView::Object(fields) = cfg {
        let below = (depth - 1) as nat;
        if !fields.contains_key(name) {
            let first = seq![JsonView::Str(dir)];
            lemma_texts_nested(first, below);
            lemma_set_nested(cfg, name, JsonView::Array(first), depth);
        } else {
            assert(is_nested(fields[name], below));
            if let JsonView::Array(items) = fields[name] {
                let after = with_dir(items, dir);
                assert forall|i: int| 0 <= i < after.len() implies is_nested(
                    #[trigger] after[i],
                    (below - 1) as nat,
                ) by {
                    if i < items.len() {
                        assert(after[i] == items[i]);
                    }
                }
                lemma_set_nested(cfg, name, JsonView::Array(after), depth);
            }
        }
    }
}

proof fn lemma_switched_nested(
    cfg: JsonView,
    current: Option<Seq<char>>,
    path: Seq<char>,
    depth: nat,
)
    requires
        depth > 1,
        is_nested(cfg, depth),
    ensures
        is_nested(switched(cfg, current, path), depth),
{
    let remembered = match current {
        Some(dir) => recorded(cfg, dir),
        None => cfg,
    };
    if let Some(dir) = current {
        lemma_recorded_nested(cfg, dir, depth);
    }
    if trimmed(path).len() > 0 {
        let dir = JsonView::Str(trimmed(path));
        lemma_set_nested(remembered, "install_dir"@, dir, depth);
        lemma_recorded_nested(
            with_setting(remembered, "install_dir"@, dir),
            trimmed(path),
            depth,
        );
    } else if let JsonView::Object(fields) = remembered {
        let after = fields.remove("install_dir"@);
        assert forall|n: Seq<char>| after.contains_key(n) implies is_nested(
            #[trigger] after[n],
            (depth - 1) as nat,
        ) by {
            assert(fields.contains_key(n) && after[n] == fields[n]);
        }
    }
}

/// A directory that may hold installed versions.
pub enum Candidate {
    /// The install directory in use.
    Current,
    /// The install directory where the user has chosen none.
    Default,
    /// A directory that has been in use.
    Past(String),
}

/// What a [`Candidate`] holds.
pub enum CandidateView {
    Current,
    Default,
    Past(Seq<char>),
}

impl View for Candidate {
    type V = CandidateView;

    open spec fn view(&self) -> CandidateView {
        match *self {
            Candidate::Current => CandidateView::Current,
            Candidate::Default => CandidateView::Default,
            Candidate::Past(dir) => CandidateView::Past(dir@),
        }
    }
}

/// The directories that have been in use.
pub open spec fn past_dirs(cfg: JsonView) -> Seq<CandidateView> {
    dir_history(cfg).map_values(|dir: Seq<char>| CandidateView::Past(dir))
}

/// The directories that may hold installed versions, in the order in which
/// they are searched: the one in use and the default one, as far as they are
/// known, then those that have been in use.
pub open spec fn search_order(cfg: JsonView, current: bool, default: bool) -> Seq<CandidateView> {
    let first = if current {
        seq![CandidateView::Current]
    } else {
        Seq::empty()
    };
    let second = if default {
        seq![CandidateView::Default]
    } else {
        Seq::empty()
    };
    first + second + past_dirs(cfg)
}

/// The directories that may hold installed versions, in the order in which
/// they are searched. `current` and `default` say whether the directory in
/// use and the default one are known.
pub fn install_dir_candidates(cfg: &Json, current: bool, default: bool) -> (r: Vec<Candidate>)
    ensures
        r@.map_values(|c: Candidate| c@) == search_order(cfg@, current, default),
{
    let mut r: Vec<Candidate> = Vec::new();
    if current {
        r.push(Candidate::Current);
    }
    if default {
        r.push(Candidate::Default);
    }
    let ghost start = r@;
    let history = install_dir_history(cfg);
    let mut i: usize = 0;
    while i < history.len()
        invariant
            i <= history@.len(),
            views(history@) == dir_history(cfg@),
            r@.len() == start.len() + i,
            forall|j: int| 0 <= j < start.len() ==> r@[j] == start[j],
            forall|j: int|
                0 <= j < i ==> (#[trigger] r@[start.len() + j])@ == CandidateView::Past(
                    history@[j]@,
                ),
        decreases history.len() - i,
    {
        r.push(Candidate::Past(history[i].clone()));
        i += 1;
    }
    proof {
        let f = |c: Candidate| c@;
        let past = past_dirs(cfg@);
        assert(search_order(cfg@, current, default) =~= start.map_values(f) + past);
        assert forall|j: int| 0 <= j < past.len() implies #[trigger] past[j] == r@[start.len()
            + j]@ by {
            assert(views(history@)[j] == history@[j]@);
        }
        assert(r@.map_values(f) =~= start.map_values(f) + past);
    }
    r
}

/// Whether the candidate directory `i` is to be searched: it is there, and
/// none of the earlier ones that are there is the same. `same` holds for each
/// candidate the first one that names the same directory.
pub open spec fn is_searched(present: Seq<bool>, same: Seq<usize>, i: int) -> bool {
    present[i] && forall|j: int| 0 <= j < i ==> !(#[trigger] present[j] && same[j] == same[i])
}

/// Which of the candidate directories are to be searched for installed
/// versions, in their order: those that are there, each once.
pub fn all_install_dirs(present: &Vec<bool>, same: &Vec<usize>) -> (r: Vec<usize>)
    requires
        present@.len() == same@.len(),
    ensures
        forall|i: int, j: int| 0 <= i < j < r@.len() ==> r@[i] < r@[j],
        forall|i: usize|
            #[trigger] r@.contains(i) <==> i < present@.len() && is_searched(
                present@,
                same@,
                i as int,
            ),
{
    let mut r: Vec<usize> = Vec::new();
    let mut i: usize = 0;
    while i < present.len()
        invariant
            present@.len() == same@.len(),
            i <= present@.len(),
            forall|a: int, b: int| 0 <= a < b < r@.len() ==> r@[a] < r@[b],
            forall|a: int| 0 <= a < r@.len() ==> r@[a] < i,
            forall|k: usize|
                #[trigger] r@.contains(k) <==> k < i && is_searched(present@, same@, k as int),
        decreases present.len() - i,
    {
        let mut wanted = present[i];
        let mut j: usize = 0;
        while wanted && j < i
            invariant
                present@.len() == same@.len(),
                i < present@.len(),
                j <= i,
                wanted ==> present@[i as int],
                wanted ==> forall|a: int|
                    0 <= a < j ==> !(#[trigger] present@[a] && same@[a] == same@[i as int]),
                !wanted ==> !is_searched(present@, same@, i as int),
            decreases i - j,
        {
            if present[j] && same[j] == same[i] {
                wanted = false;
            }
            j += 1;
        }
        let ghost prior = r@;
        if wanted {
            r.push(i);
        }
        assert forall|k: usize| #[trigger] r@.contains(k) <==> k < i + 1 && is_searched(
            present@,
            same@,
            k as int,
        ) by {
            if wanted {
                assert(r@[prior.len() as int] == i);
                if prior.contains(k) {
                    let a = choose|a: int| 0 <= a < prior.len() && prior[a] == k;
                    assert(r@[a] == k);
                }
                if r@.contains(k) && k != i {
                    let a = choose|a: int| 0 <= a < r@.len() && r@[a] == k;
                    assert(prior[a] == k);
                }
            }
            assert(prior.contains(k) <==> k < i && is_searched(present@, same@, k as int));
        }
        i += 1;
    }
    r
}

/// Whether `place` is the first place where `present` holds, if there is one.
pub open spec fn is_first_present(present: Seq<bool>, place: Option<usize>) -> bool {
    match place {
        Some(i) => i < present.len() && present[i as int] && forall|j: int|
            0 <= j < i ==> !#[trigger] present[j],
        None => forall|j: int| 0 <= j < present.len() ==> !#[trigger] present[j],
    }
}

/// The first of the searched directories that has the directory of a version,
/// by `present`.
pub fn find_version_dir(present: &Vec<bool>) -> (r: Option<usize>)
    ensures
        is_first_present(present@, r),
{
    first_present(present)
}

/// The first place where `present` holds.
pub fn first_present(present: &Vec<bool>) -> (r: Option<usize>)
    ensures
        is_first_present(present@, r),
{
    let mut i: usize = 0;
    while i < present.len()
        invariant
            i <= present@.len(),
            forall|j: int| 0 <= j < i ==> !#[trigger] present@[j],
        decreases present.len() - i,
    {
        if present[i] {
            return Some(i);
        }
        i += 1;
    }
    None
}

/// The settings are what the text of the file denotes, whatever that is; and
/// there are none where there is no text, or one that is no JSON.
pub proof fn law_settings_are_what_was_saved(text: Seq<char>)
    ensures
        text_json(text) matches Some(cfg) ==> settings(Some(text)) == cfg,
        text_json(text) is None ==> settings(Some(text)) == JsonView::Object(Map::empty()),
        settings(None) == JsonView::Object(Map::empty()),
{
}

/// The mirror is the download source exactly where the setting names it; and
/// of what can be asked for, its name selects it and everything else Google.
pub proof fn law_mirror_by_its_name(cfg: JsonView, source: Seq<char>)
    ensures
        field(cfg, "download_source"@) == JsonView::Str("npmmirror"@) ==> source_of(cfg)
            == "npmmirror"@,
        field(cfg, "download_source"@) != JsonView::Str("npmmirror"@) ==> source_of(cfg)
            == "google"@,
        cfg is Object ==> source_of(with_source(cfg, "npmmirror"@)) == "npmmirror"@,
        cfg is Object && source != "npmmirror"@ ==> source_of(with_source(cfg, source))
            == "google"@,
        forall|name: Seq<char>|
            cfg is Object && name != "download_source"@ ==> #[trigger] field(
                with_source(cfg, source),
                name,
            ) == field(cfg, name),
{
    reveal_strlit("google");
    reveal_strlit("npmmirror");
    assert("google"@.len() != "npmmirror"@.len());
}

/// The chosen install directory is the text of the setting, trimmed, of any
/// length; there is none where the setting is blank or is no text. It is in
/// force where there is one, and else the default one is.
pub proof fn law_chosen_dir_is_the_setting(cfg: JsonView, text: Seq<char>, default: Seq<char>)
    ensures
        field(cfg, "install_dir"@) == JsonView::Str(text) && trimmed(text).len() > 0 ==> chosen_dir(
            cfg,
        ) == Some(trimmed(text)) && in_force(cfg, default) == trimmed(text),
        field(cfg, "install_dir"@) == JsonView::Str(text) && trimmed(text).len() == 0
            ==> chosen_dir(cfg) is None && in_force(cfg, default) == default,
        !(field(cfg, "install_dir"@) is Str) ==> chosen_dir(cfg) is None && in_force(cfg, default)
            == default,
        trimmed(text).len() > 0 ==> asked_dir(text) == Some(trimmed(text)),
        trimmed(text).len() == 0 ==> asked_dir(text) is None,
{
}

/// The history is the texts in its list, of any number; a directory that is
/// recorded is added at its end if it is not in the list, and nothing else
/// changes; the first one begins the list.
pub proof fn law_history_is_the_list(cfg: JsonView, dirs: Seq<Seq<char>>, dir: Seq<char>)
    requires
        cfg is Object,
    ensures
        field(cfg, "install_dirs"@) == JsonView::Array(
            Seq::new(dirs.len(), |i: int| JsonView::Str(dirs[i])),
        ) ==> {
            &&& dir_history(cfg) == dirs
            &&& !dirs.contains(dir) ==> dir_history(recorded(cfg, dir)) == dirs.push(dir)
            &&& dirs.contains(dir) ==> dir_history(recorded(cfg, dir)) == dirs
        },
        !cfg->Object_0.contains_key("install_dirs"@) ==> dir_history(recorded(cfg, dir)) == seq![
            dir,
        ],
{
    let f = |j: JsonView| as_text(j);
    let items = Seq::new(dirs.len(), |i: int| JsonView::Str(dirs[i]));
    if field(cfg, "install_dirs"@) == JsonView::Array(items) {
        assert(cfg->Object_0.contains_key("install_dirs"@));
        lemma_filter_map_all(items, f, dirs);
        lemma_texts_push(items, dir);
        if dirs.contains(dir) {
            let i = choose|i: int| 0 <= i < dirs.len() && dirs[i] == dir;
            assert(items[i] == JsonView::Str(dir));
        }
        if items.contains(JsonView::Str(dir)) {
            let i = choose|i: int| 0 <= i < items.len() && items[i] == JsonView::Str(dir);
            assert(dirs[i] == dir);
        }
    }
    let none: Seq<JsonView> = Seq::empty();
    lemma_texts_push(none, dir);
    assert(texts_of(none) =~= Seq::<Seq<char>>::empty()) by {
        reveal_with_fuel(Seq::filter_map, 1);
    }
    assert(none.push(JsonView::Str(dir)) =~= seq![JsonView::Str(dir)]);
    assert(Seq::<Seq<char>>::empty().push(dir) =~= seq![dir]);
}

/// The directory in use is searched first and the default one next, as far as
/// they are known; then every directory that has been in use, in its order.
pub proof fn law_order_of_the_search(cfg: JsonView, current: bool, default: bool, i: int)
    requires
        0 <= i < dir_history(cfg).len(),
    ensures
        ({
            let order = search_order(cfg, current, default);
            let known: int = (if current {
                1int
            } else {
                0int
            }) + (if default {
                1int
            } else {
                0int
            });
            &&& order.len() == known + dir_history(cfg).len()
            &&& current ==> order[0] is Current
            &&& default ==> order[known - 1] is Default
            &&& order[known + i] == CandidateView::Past(dir_history(cfg)[i])
        }),
{
}

/// Every directory that is there is searched, itself or by another name that
/// came before; none is searched by two names, and none that is not there.
pub proof fn law_each_dir_is_searched_once(present: Seq<bool>, same: Seq<usize>, i: int, j: int)
    requires
        present.len() == same.len(),
        0 <= i < present.len(),
        0 <= j < present.len(),
    ensures
        is_searched(present, same, i) ==> present[i],
        is_searched(present, same, i) && is_searched(present, same, j) && same[i] == same[j] ==> i
            == j,
        present[i] ==> exists|k: int|
            0 <= k <= i && same[k] == same[i] && #[trigger] is_searched(present, same, k),
    decreases i,
{
    if is_searched(present, same, i) && is_searched(present, same, j) && same[i] == same[j] {
        if i < j {
            assert(present[i]);
        } else if j < i {
            assert(present[j]);
        }
    }
    if present[i] && !is_searched(present, same, i) {
        let k = choose|k: int| 0 <= k < i && #[trigger] present[k] && same[k] == same[i];
        law_each_dir_is_searched_once(present, same, k, j);
    }
}

/// The first place is one that holds, with none before it; and there is one
/// wherever any place holds.
pub proof fn law_first_place(present: Seq<bool>, place: Option<usize>, i: int)
    requires
        is_first_present(present, place),
        0 <= i < present.len(),
    ensures
        present[i] ==> place is Some && place->0 <= i,
        place is Some ==> place->0 < present.len() && present[place->0 as int],
{
}

} // verus!
