//! Profiles: separate data directories for the browser, each with its own
//! command line arguments. The setting `profiles` maps names to arguments.

use vstd::prelude::*;
use vstd::string::*;

use crate::config::{
    format_fault, lemma_set_nested, lemma_texts_nested, load_config, reads_like, settings,
    with_setting,
};
use crate::json::{
    alike, as_text, field, fields_view, is_nested, items_of, items_view, lemma_alike_field,
    lemma_alike_texts, pretty_text, print_text, set_field, take_field, text_items, texts_of, Json,
    JsonView, MAX_DEPTH,
};
use crate::names::{name_fault, validate_name};
use crate::order::{
    key_less, law_first_difference_decides, law_key_order_total, law_sorted_keeps_items,
    lemma_filter_map_add, lemma_filter_map_all, lemma_filter_map_one, lemma_sorted_map, precedes,
    sort_by_keys, Direction,
};
use crate::text::{law_trim_once, str_eq, text_view, to_chars, trim, trimmed, views};

verus! {

/// A profile: its name, its data directory and its arguments.
#[derive(Clone)]
pub struct ProfileInfo {
    pub name: String,
    pub path: String,
    pub args: Vec<String>,
}

/// How many arguments a profile can have.
pub const MAX_ARGS: usize = 50;

/// The argument without white space at its ends, unless nothing is left.
pub open spec fn trimmed_arg(arg: Seq<char>) -> Option<Seq<char>> {
    if trimmed(arg).len() > 0 {
        Some(trimmed(arg))
    } else {
        None
    }
}

/// The arguments that are not blank, trimmed.
pub open spec fn written_args(args: Seq<Seq<char>>) -> Seq<Seq<char>> {
    args.filter_map(|arg: Seq<char>| trimmed_arg(arg))
}

/// The arguments that a profile keeps: of those that are not blank the first
/// ones, trimmed.
pub open spec fn cleaned(args: Seq<Seq<char>>) -> Seq<Seq<char>> {
    let written = written_args(args);
    if written.len() > MAX_ARGS {
        written.take(MAX_ARGS as int)
    } else {
        written
    }
}

/// The arguments that a profile keeps.
pub fn clean_args(args: Vec<String>) -> (r: Vec<String>)
    ensures
        views(r@) == cleaned(views(args@)),
{
    let mut r: Vec<String> = Vec::new();
    let ghost all = views(args@);
    let mut i: usize = 0;
    assert(views(r@) =~= written_args(all.take(0))) by {
        reveal_with_fuel(Seq::filter_map, 1);
    }
    while i < args.len()
        invariant
            i <= args@.len(),
            all == views(args@),
            views(r@) == written_args(all.take(i as int)),
        decreases args.len() - i,
    {
        proof {
            reveal_with_fuel(Seq::filter_map, 2);
            assert(all.take(i + 1).drop_last() =~= all.take(i as int));
            assert(all.take(i + 1).last() == args@[i as int]@);
        }
        let arg = trim(args[i].as_str());
        if !arg.as_str().is_empty() {
            let ghost prior = r@;
            r.push(arg);
            assert(views(r@) =~= views(prior) + seq![arg@]);
        }
        i += 1;
    }
    assert(all.take(all.len() as int) =~= all);
    let ghost written = r@;
    r.truncate(MAX_ARGS);
    assert(written.len() > MAX_ARGS ==> views(r@) =~= views(written).take(MAX_ARGS as int));
    r
}

proof fn lemma_written_all(args: Seq<Seq<char>>)
    requires
        forall|i: int| 0 <= i < args.len() ==> trimmed_arg(#[trigger] args[i]) == Some(args[i]),
    ensures
        written_args(args) == args,
    decreases args.len(),
{
    reveal_with_fuel(Seq::filter_map, 2);
    if args.len() > 0 {
        lemma_written_all(args.drop_last());
        assert(trimmed_arg(args[args.len() - 1]) == Some(args.last()));
        assert(args.drop_last() + seq![args.last()] =~= args);
    } else {
        assert(written_args(args) =~= args);
    }
}

proof fn lemma_written_trimmed(args: Seq<Seq<char>>)
    ensures
        forall|i: int|
            0 <= i < written_args(args).len() ==> trimmed_arg(#[trigger] written_args(args)[i])
                == Some(written_args(args)[i]),
    decreases args.len(),
{
    reveal_with_fuel(Seq::filter_map, 2);
    if args.len() > 0 {
        lemma_written_trimmed(args.drop_last());
        law_trim_once(args.last());
        let rest = written_args(args.drop_last());
        assert forall|i: int| 0 <= i < written_args(args).len() implies trimmed_arg(
            #[trigger] written_args(args)[i],
        ) == Some(written_args(args)[i]) by {
            if i < rest.len() {
                assert(written_args(args)[i] == rest[i]);
            }
        }
    }
}

/// Cleaned arguments are not blank, there are no more of them than a profile
/// can have, and cleaning them again changes nothing.
pub proof fn law_clean_args_once(args: Seq<Seq<char>>)
    ensures
        cleaned(args).len() <= MAX_ARGS,
        forall|i: int|
            0 <= i < cleaned(args).len() ==> (#[trigger] cleaned(args)[i]).len() > 0
                && trimmed(cleaned(args)[i]) == cleaned(args)[i],
        cleaned(cleaned(args)) == cleaned(args),
{
    lemma_written_trimmed(args);
    let c = cleaned(args);
    assert forall|i: int| 0 <= i < c.len() implies trimmed_arg(#[trigger] c[i]) == Some(c[i]) by {
        assert(c[i] == written_args(args)[i]);
    }
    lemma_written_all(c);
}

/// Arguments that are trimmed and not blank are kept as they are, whatever
/// their length: all of them up to fifty, and of more the first fifty.
pub proof fn law_clean_keeps_written(args: Seq<Seq<char>>)
    requires
        forall|i: int|
            0 <= i < args.len() ==> trimmed(#[trigger] args[i]) == args[i] && args[i].len() > 0,
    ensures
        args.len() <= 50 ==> cleaned(args) == args,
        args.len() > 50 ==> cleaned(args) == args.take(50),
{
    let f = |arg: Seq<char>| trimmed_arg(arg);
    lemma_filter_map_all(args, f, args);
}

/// Cleaning trims each argument and leaves out the blank ones: an argument may
/// as well be given trimmed, and a blank one as well not be given. Each
/// argument that is not blank counts, until there are fifty.
pub proof fn law_clean_trims_and_skips(
    before: Seq<Seq<char>>,
    arg: Seq<char>,
    after: Seq<Seq<char>>,
)
    ensures
        cleaned(before + seq![arg] + after) == if trimmed(arg).len() == 0 {
            cleaned(before + after)
        } else {
            cleaned(before + seq![trimmed(arg)] + after)
        },
        cleaned(before).len() < 50 && trimmed(arg).len() > 0 ==> cleaned(before.push(arg))
            == cleaned(before).push(trimmed(arg)),
        cleaned(before).len() <= 50,
        cleaned(Seq::empty()).len() == 0,
{
    let f = |a: Seq<char>| trimmed_arg(a);
    let t = trimmed(arg);
    law_trim_once(arg);
    lemma_filter_map_add(before + seq![arg], after, f);
    lemma_filter_map_add(before, seq![arg], f);
    lemma_filter_map_add(before + seq![t], after, f);
    lemma_filter_map_add(before, seq![t], f);
    lemma_filter_map_add(before, after, f);
    lemma_filter_map_one(arg, f);
    lemma_filter_map_one(t, f);
    let w = written_args(before);
    assert(w + Seq::<Seq<char>>::empty() =~= w);
    assert(before.push(arg) =~= before + seq![arg]);
    assert(w + seq![t] =~= w.push(t));
    assert(written_args(Seq::empty()).len() == 0) by {
        reveal_with_fuel(Seq::filter_map, 1);
    }
}

/// The profiles in the settings. There is always one called `default`.
pub open spec fn profiles_of(cfg: JsonView) -> Map<Seq<char>, JsonView> {
    let saved = match field(cfg, "profiles"@) {
        JsonView::Object(fields) => fields,
        _ => Map::empty(),
    };
    if saved.contains_key("default"@) {
        saved
    } else {
        saved.insert("default"@, JsonView::Array(Seq::empty()))
    }
}

fn empty_array() -> (r: Json)
    ensures
        r@ == JsonView::Array(Seq::empty()),
{
    let none: Vec<Json> = Vec::new();
    assert(items_view(none@) =~= Seq::<JsonView>::empty());
    Json::Array(none)
}

/// The profiles in the settings.
pub fn load_profiles_obj(cfg: Json) -> (r: Vec<(String, Json)>)
    ensures
        fields_view(r@) == profiles_of(cfg@),
{
    let saved = match cfg {
        Json::Object(fields) => take_field(fields, "profiles").0,
        _ => None,
    };
    let profiles = match saved {
        Some(Json::Object(profiles)) => profiles,
        _ => {
            let none: Vec<(String, Json)> = Vec::new();
            assert(fields_view(none@) =~= Map::empty());
            none
        },
    };
    let ghost before = fields_view(profiles@);
    let (default, rest) = take_field(profiles, "default");
    let default = match default {
        Some(args) => args,
        None => empty_array(),
    };
    assert(before.remove("default"@).insert("default"@, default@) =~= before.insert(
        "default"@,
        default@,
    ));
    assert(before.contains_key("default"@) ==> before.insert("default"@, before["default"@])
        =~= before);
    set_field(rest, "default", default)
}

/// The settings with `profiles` in place of the profiles there. Fails where
/// the settings are no object.
pub fn save_profiles_obj(cfg: Json, profiles: Vec<(String, Json)>) -> (r: Result<Json, String>)
    ensures
        r is Ok <==> cfg@ is Object,
        r matches Err(e) ==> e@ == format_fault(),
        r matches Ok(after) ==> after@ == with_setting(
            cfg@,
            "profiles"@,
            JsonView::Object(fields_view(profiles@)),
        ),
{
    match cfg {
        Json::Object(fields) => {
            let profiles = Json::Object(profiles);
            Ok(Json::Object(set_field(fields, "profiles", profiles)))
        },
        _ => Err("配置格式错误".to_string()),
    }
}

/// The arguments of the profile `name`; none where there is no such profile.
pub open spec fn args_of(cfg: JsonView, name: Seq<char>) -> Seq<Seq<char>> {
    texts_of(items_of(field(JsonView::Object(profiles_of(cfg)), name)))
}

/// Whether the settings have a profile `name`.
pub fn has_profile(cfg: &Json, name: &str) -> (r: bool)
    ensures
        r == profiles_of(cfg@).contains_key(name@),
{
    if str_eq(name, "default") {
        return true;
    }
    match cfg.get("profiles") {
        Some(profiles) => profiles.get(name).is_some(),
        None => false,
    }
}

/// The arguments of the profile `name`.
pub fn profile_args(cfg: &Json, name: &str) -> (r: Vec<String>)
    ensures
        views(r@) == args_of(cfg@, name@),
{
    let items = match cfg.get("profiles") {
        Some(profiles) => profiles.items_field(name),
        None => None,
    };
    match items {
        Some(items) => text_items(items),
        None => {
            let none: Vec<String> = Vec::new();
            assert(views(none@) =~= args_of(cfg@, name@)) by {
                reveal_with_fuel(Seq::filter_map, 1);
            }
            none
        },
    }
}

/// The texts as JSON values.
pub open spec fn args_json(args: Seq<Seq<char>>) -> JsonView {
    JsonView::Array(args.map_values(|arg: Seq<char>| JsonView::Str(arg)))
}

fn to_json(args: Vec<String>) -> (r: Json)
    ensures
        r@ == args_json(views(args@)),
{
    let mut items: Vec<Json> = Vec::new();
    let ghost all = args@;
    let ghost wanted = args_json(views(all))->Array_0;
    for arg in it: args
        invariant
            it.seq() == all,
            wanted == args_json(views(all))->Array_0,
            items_view(items@) =~= wanted.take(it.index()),
    {
        let ghost k = it.index();
        let ghost prior = items@;
        let item = Json::Str(arg);
        assert(item@ == JsonView::Str(arg@));
        items.push(item);
        assert(items@.drop_last() =~= prior);
        assert(items_view(items@) == items_view(prior).push(item@));
        assert(wanted[k] == JsonView::Str(views(all)[k]));
        assert(wanted.take(k + 1) =~= wanted.take(k).push(wanted[k]));
    }
    assert(wanted.take(all.len() as int) =~= wanted);
    Json::Array(items)
}

/// The settings with the arguments `args`, cleaned, for the profile `name`.
pub open spec fn with_profile(cfg: JsonView, name: Seq<char>, args: Seq<Seq<char>>) -> JsonView {
    with_setting(
        cfg,
        "profiles"@,
        JsonView::Object(profiles_of(cfg).insert(name, args_json(cleaned(args)))),
    )
}

/// What stands against a new profile: a fault of its name, or that there is
/// one already.
pub open spec fn new_profile_fault(cfg: JsonView, name: Seq<char>) -> Option<Seq<char>> {
    if name_fault(name) is Some {
        name_fault(name)
    } else if profiles_of(cfg).contains_key(name) {
        Some("配置已存在"@)
    } else {
        None
    }
}

/// Checks that a profile `name` can be made.
pub fn check_new_profile(cfg: &Json, name: &str) -> (r: Result<(), String>)
    ensures
        r is Ok <==> new_profile_fault(cfg@, name@) is None,
        r matches Err(e) ==> new_profile_fault(cfg@, name@) == Some(e@),
{
    match validate_name(name) {
        Ok(_) => if has_profile(cfg, name) {
            Err("配置已存在".to_string())
        } else {
            Ok(())
        },
        Err(e) => Err(e),
    }
}

/// Whether the settings `after` have the profile `name` with the arguments
/// `args`, cleaned, and the profiles of `before` otherwise, each with the
/// arguments it had.
pub open spec fn has_set_profile(
    before: JsonView,
    after: JsonView,
    name: Seq<char>,
    args: Seq<Seq<char>>,
) -> bool {
    &&& args_of(after, name) == cleaned(args)
    &&& profiles_of(after).dom() == profiles_of(before).dom().insert(name)
    &&& forall|other: Seq<char>|
        other != name ==> #[trigger] args_of(after, other) == args_of(before, other)
}

fn put_profile(text: Option<String>, name: &str, args: Vec<String>) -> (r: Result<String, String>)
    ensures
        r is Ok <==> settings(text_view(text)) is Object,
        r matches Err(e) ==> e@ == format_fault(),
        r matches Ok(t) ==> ({
            let before = settings(text_view(text));
            let after = with_profile(before, name@, views(args@));
            &&& t@ == pretty_text(after)
            &&& reads_like(t@, after)
            &&& has_set_profile(before, settings(Some(t@)), name@, views(args@))
        }),
{
    let ghost wanted = views(args@);
    let profiles = load_profiles_obj(load_config(text.clone()));
    let profiles = set_field(profiles, name, to_json(clean_args(args)));
    let cfg = load_config(text);
    let ghost before = cfg@;
    let ghost after = with_profile(before, name@, wanted);
    proof {
        lemma_profiles_nested(before, name@, wanted);
    }
    match save_profiles_obj(cfg, profiles) {
        Ok(cfg) => {
            let t = print_text(cfg);
            proof {
                let read = settings(Some(t@));
                lemma_profiles_read_back(after, read, MAX_DEPTH as nat);
                law_profile_set(before, name@, wanted);
                assert(profiles_of(after).dom() =~= profiles_of(before).dom().insert(name@));
                assert forall|other: Seq<char>| other != name@ implies #[trigger] args_of(
                    read,
                    other,
                ) == args_of(before, other) by {
                    assert(args_of(after, other) == args_of(before, other));
                }
            }
            Ok(t)
        },
        Err(e) => Err(e),
    }
}

proof fn lemma_profiles_read_back(a: JsonView, b: JsonView, depth: nat)
    requires
        depth > 1,
        alike(a, b, depth),
    ensures
        profiles_of(a).dom() == profiles_of(b).dom(),
        forall|name: Seq<char>| #[trigger] args_of(a, name) == args_of(b, name),
{
    let x = field(a, "profiles"@);
    let y = field(b, "profiles"@);
    let below = (depth - 1) as nat;
    lemma_alike_field(a, b, depth, "profiles"@);
    assert(x is Object <==> y is Object);
    assert(profiles_of(a).dom() =~= profiles_of(b).dom());
    assert forall|name: Seq<char>| #[trigger] args_of(a, name) == args_of(b, name) by {
        lemma_alike_field(x, y, below, name);
        lemma_alike_texts(field(x, name), field(y, name), (below - 1) as nat);
        if x is Object {
            assert(x->Object_0.dom() == y->Object_0.dom());
        }
    }
}

/// Makes a profile: gives the new text of the file for its present text.
/// Fails where the name has a fault or is taken, and then where the settings
/// are no object.
pub fn create_profile(text: Option<String>, name: &str, args: Vec<String>) -> (r: Result<
    String,
    String,
>)
    ensures
        ({
            let before = settings(text_view(text));
            let after = with_profile(before, name@, views(args@));
            let fault = new_profile_fault(before, name@);
            &&& r is Ok <==> fault is None && before is Object
            &&& r matches Err(e) ==> e@ == if fault is Some {
                fault->0
            } else {
                format_fault()
            }
            &&& r matches Ok(t) ==> {
                &&& t@ == pretty_text(after)
                &&& reads_like(t@, after)
                &&& has_set_profile(before, settings(Some(t@)), name@, views(args@))
            }
        }),
{
    let cfg = load_config(text.clone());
    match check_new_profile(&cfg, name) {
        Ok(_) => put_profile(text, name, args),
        Err(e) => Err(e),
    }
}

/// Sets the arguments of a profile, new or not: gives the new text of the
/// file for its present text. Fails where the name has a fault, and then
/// where the settings are no object.
pub fn update_profile(text: Option<String>, name: &str, args: Vec<String>) -> (r: Result<
    String,
    String,
>)
    ensures
        ({
            let before = settings(text_view(text));
            let after = with_profile(before, name@, views(args@));
            let fault = name_fault(name@);
            &&& r is Ok <==> fault is None && before is Object
            &&& r matches Err(e) ==> e@ == if fault is Some {
                fault->0
            } else {
                format_fault()
            }
            &&& r matches Ok(t) ==> {
                &&& t@ == pretty_text(after)
                &&& reads_like(t@, after)
                &&& has_set_profile(before, settings(Some(t@)), name@, views(args@))
            }
        }),
{
    match validate_name(name) {
        Ok(_) => put_profile(text, name, args),
        Err(e) => Err(e),
    }
}

/// The settings without the profile `name`.
pub open spec fn without_profile(cfg: JsonView, name: Seq<char>) -> JsonView {
    with_setting(cfg, "profiles"@, JsonView::Object(profiles_of(cfg).remove(name)))
}

/// What stands against deleting a profile: a fault of its name, or that it is
/// the default one.
pub open spec fn delete_fault(name: Seq<char>) -> Option<Seq<char>> {
    if name_fault(name) is Some {
        name_fault(name)
    } else if name == "default"@ {
        Some("默认配置不可删除"@)
    } else {
        None
    }
}

/// Deletes a profile from the settings: gives the new text of the file for
/// its present text. Fails where the name has a fault or is that of the
/// default profile, and then where the settings are no object.
pub fn delete_profile(text: Option<String>, name: &str) -> (r: Result<String, String>)
    ensures
        ({
            let before = settings(text_view(text));
            let after = without_profile(before, name@);
            let fault = delete_fault(name@);
            &&& r is Ok <==> fault is None && before is Object
            &&& r matches Err(e) ==> e@ == if fault is Some {
                fault->0
            } else {
                format_fault()
            }
            &&& r matches Ok(t) ==> {
                &&& t@ == pretty_text(after)
                &&& reads_like(t@, after)
                &&& profiles_of(settings(Some(t@))).dom() == profiles_of(before).dom().remove(name@)
                &&& forall|other: Seq<char>|
                    other != name@ ==> #[trigger] args_of(settings(Some(t@)), other) == args_of(
                        before,
                        other,
                    )
            }
        }),
{
    match validate_name(name) {
        Ok(_) => {},
        Err(e) => {
            return Err(e);
        },
    }
    if str_eq(name, "default") {
        return Err("默认配置不可删除".to_string());
    }
    let profiles = load_profiles_obj(load_config(text.clone()));
    let (_, rest) = take_field(profiles, name);
    let cfg = load_config(text);
    let ghost before = cfg@;
    let ghost after = without_profile(before, name@);
    proof {
        let none: Seq<Seq<char>> = Seq::empty();
        lemma_profiles_nested(before, name@, none);
    }
    match save_profiles_obj(cfg, rest) {
        Ok(cfg) => {
            let t = print_text(cfg);
            proof {
                let read = settings(Some(t@));
                lemma_profiles_read_back(after, read, MAX_DEPTH as nat);
                law_profile_deleted(before, name@);
                assert(profiles_of(after).dom() =~= profiles_of(before).dom().remove(name@));
                assert forall|other: Seq<char>| other != name@ implies #[trigger] args_of(
                    read,
                    other,
                ) == args_of(before, other) by {
                    assert(args_of(after, other) == args_of(before, other));
                }
            }
            Ok(t)
        },
        Err(e) => Err(e),
    }
}

proof fn lemma_texts_all(args: Seq<Seq<char>>)
    ensures
        texts_of(args_json(args)->Array_0) == args,
    decreases args.len(),
{
    reveal_with_fuel(Seq::filter_map, 2);
    let items = args_json(args)->Array_0;
    if args.len() > 0 {
        lemma_texts_all(args.drop_last());
        assert(items.drop_last() =~= args_json(args.drop_last())->Array_0);
        assert(args.drop_last() + seq![args.last()] =~= args);
    } else {
        assert(texts_of(items) =~= args);
    }
}

/// A profile that was set has the arguments it was given, cleaned; every
/// other profile keeps its arguments, and every other setting its value.
pub proof fn law_profile_set(cfg: JsonView, name: Seq<char>, args: Seq<Seq<char>>)
    requires
        cfg is Object,
    ensures
        profiles_of(with_profile(cfg, name, args)).contains_key(name),
        args_of(with_profile(cfg, name, args), name) == cleaned(args),
        forall|other: Seq<char>|
            other != name ==> #[trigger] args_of(with_profile(cfg, name, args), other) == args_of(
                cfg,
                other,
            ) && (profiles_of(with_profile(cfg, name, args)).contains_key(other) <==> profiles_of(
                cfg,
            ).contains_key(other)),
        forall|setting: Seq<char>|
            setting != "profiles"@ ==> #[trigger] field(with_profile(cfg, name, args), setting)
                == field(cfg, setting),
{
    let after = with_profile(cfg, name, args);
    assert(profiles_of(after) == profiles_of(cfg).insert(name, args_json(cleaned(args))));
    lemma_texts_all(cleaned(args));
}

/// A profile that was deleted is gone; every other profile stays as it is,
/// the default one among them, and so does every other setting.
pub proof fn law_profile_deleted(cfg: JsonView, name: Seq<char>)
    requires
        cfg is Object,
        name != "default"@,
    ensures
        profiles_of(without_profile(cfg, name)) == profiles_of(cfg).remove(name),
        profiles_of(without_profile(cfg, name)).contains_key("default"@),
        args_of(without_profile(cfg, name), name) == Seq::<Seq<char>>::empty(),
        forall|other: Seq<char>|
            other != name ==> #[trigger] args_of(without_profile(cfg, name), other) == args_of(
                cfg,
                other,
            ),
        forall|setting: Seq<char>|
            setting != "profiles"@ ==> #[trigger] field(without_profile(cfg, name), setting)
                == field(cfg, setting),
{
    reveal_with_fuel(Seq::filter_map, 1);
    assert(args_of(without_profile(cfg, name), name) =~= Seq::<Seq<char>>::empty());
}

/// Deleting a profile that was just made gives back the profiles there were.
pub proof fn law_delete_undoes_create(cfg: JsonView, name: Seq<char>, args: Seq<Seq<char>>)
    requires
        cfg is Object,
        new_profile_fault(cfg, name) is None,
    ensures
        delete_fault(name) is None,
        profiles_of(without_profile(with_profile(cfg, name, args), name)) == profiles_of(cfg),
{
    law_profile_deleted(with_profile(cfg, name, args), name);
    assert(profiles_of(cfg).insert(name, args_json(cleaned(args))).remove(name) =~= profiles_of(
        cfg,
    ));
}

proof fn lemma_profiles_nested(cfg: JsonView, name: Seq<char>, args: Seq<Seq<char>>)
    requires
        is_nested(cfg, MAX_DEPTH as nat),
    ensures
        is_nested(with_profile(cfg, name, args), MAX_DEPTH as nat),
        is_nested(without_profile(cfg, name), MAX_DEPTH as nat),
{
    let depth = MAX_DEPTH as nat;
    let below = (depth - 2) as nat;
    let profiles = profiles_of(cfg);
    assert(is_nested(JsonView::Array(Seq::empty()), below));
    assert forall|n: Seq<char>| profiles.contains_key(n) implies is_nested(
        #[trigger] profiles[n],
        below,
    ) by {
        if let JsonView::Object(fields) = cfg {
            if let JsonView::Object(saved) = field(cfg, "profiles"@) {
                assert(is_nested(fields["profiles"@], (depth - 1) as nat));
                if saved.contains_key(n) {
                    assert(is_nested(saved[n], below));
                }
            }
        }
    }
    let set = profiles.insert(name, args_json(cleaned(args)));
    lemma_texts_nested(args_json(cleaned(args))->Array_0, below);
    assert forall|n: Seq<char>| set.contains_key(n) implies is_nested(#[trigger] set[n], below) by {
        if n != name {
            assert(profiles.contains_key(n) && set[n] == profiles[n]);
        }
    }
    let rest = profiles.remove(name);
    assert forall|n: Seq<char>| rest.contains_key(n) implies is_nested(
        #[trigger] rest[n],
        below,
    ) by {
        assert(profiles.contains_key(n) && rest[n] == profiles[n]);
    }
    lemma_set_nested(cfg, "profiles"@, JsonView::Object(set), depth);
    lemma_set_nested(cfg, "profiles"@, JsonView::Object(rest), depth);
}

/// The profiles that are saved are the profiles there are, each with the texts
/// of its list as arguments, of any number; a default profile without
/// arguments is added where none is saved.
pub proof fn law_saved_profiles(
    cfg: JsonView,
    saved: Map<Seq<char>, JsonView>,
    name: Seq<char>,
    args: Seq<Seq<char>>,
)
    requires
        field(cfg, "profiles"@) == JsonView::Object(saved),
    ensures
        profiles_of(cfg).contains_key(name) <==> saved.contains_key(name) || name == "default"@,
        saved.contains_key(name) && saved[name] == JsonView::Array(
            Seq::new(args.len(), |i: int| JsonView::Str(args[i])),
        ) ==> args_of(cfg, name) == args,
        saved.contains_key(name) && !(saved[name] is Array) ==> args_of(cfg, name).len() == 0,
        !saved.contains_key(name) ==> args_of(cfg, name).len() == 0,
{
    reveal_with_fuel(Seq::filter_map, 1);
    let f = |j: JsonView| as_text(j);
    let items = items_of(field(JsonView::Object(profiles_of(cfg)), name));
    if saved.contains_key(name) && saved[name] == JsonView::Array(
        Seq::new(args.len(), |i: int| JsonView::Str(args[i])),
    ) {
        lemma_filter_map_all(items, f, args);
    }
}

/// What can be made is a profile whose name has no fault and is not taken, and
/// what can be deleted one whose name has no fault and is not that of the
/// default profile.
pub proof fn law_what_can_be_made_and_deleted(cfg: JsonView, name: Seq<char>)
    ensures
        new_profile_fault(cfg, name) is None <==> name_fault(name) is None && !profiles_of(
            cfg,
        ).contains_key(name),
        delete_fault(name) is None <==> name_fault(name) is None && name != "default"@,
{
}

proof fn lemma_code_point_order(a: char, b: char)
    requires
        a < b,
    ensures
        (a as u64) < b as u64,
{
}

/// The default profile comes before every other one; of two others the one
/// with the smaller character at the first place where they differ, and the
/// shorter one where there is none.
pub proof fn law_profile_order(a: Seq<char>, b: Seq<char>, i: int)
    requires
        b != "default"@,
    ensures
        a == "default"@ ==> name_before(a, b) && !name_before(b, a),
        a != "default"@ && 0 <= i < b.len() && i <= a.len() && (forall|j: int|
            0 <= j < i ==> #[trigger] a[j] == b[j]) && (i < a.len() ==> a[i] < b[i]) ==> name_before(
            a,
            b,
        ) && !name_before(b, a),
{
    if a != "default"@ && 0 <= i < b.len() && i <= a.len() && (forall|j: int|
        0 <= j < i ==> #[trigger] a[j] == b[j]) && (i < a.len() ==> a[i] < b[i]) {
        let x = code_points(a);
        let y = code_points(b);
        assert forall|j: int| 0 <= j < i implies x[j] == y[j] by {
            assert(a[j] == b[j]);
        }
        assert(y[i] == b[i] as u64);
        if i < a.len() {
            assert(x[i] == a[i] as u64);
            lemma_code_point_order(a[i], b[i]);
        }
        law_first_difference_decides(x, y, i);
    }
}

/// The code points of a text.
pub open spec fn code_points(s: Seq<char>) -> Seq<u64> {
    s.map_values(|c: char| c as u64)
}

/// The place of a profile in a list: the default profile comes first, then
/// the others by the code points of their names.
pub open spec fn name_key(name: Seq<char>) -> Seq<u64> {
    if name == "default"@ {
        seq![0u64]
    } else {
        seq![1u64] + code_points(name)
    }
}

/// Whether the profile `a` comes before the profile `b` in a list.
pub open spec fn name_before(a: Seq<char>, b: Seq<char>) -> bool {
    b != "default"@ && (a == "default"@ || key_less(code_points(a), code_points(b)))
}

proof fn lemma_code_point_injective(a: char, b: char)
    requires
        a as u64 == b as u64,
    ensures
        a == b,
{
}

proof fn lemma_code_points_injective(a: Seq<char>, b: Seq<char>)
    requires
        code_points(a) == code_points(b),
    ensures
        a == b,
{
    assert(a.len() == code_points(a).len());
    assert(b.len() == code_points(b).len());
    assert forall|i: int| 0 <= i < a.len() implies a[i] == b[i] by {
        assert(code_points(a)[i] == a[i] as u64);
        assert(code_points(b)[i] == b[i] as u64);
        lemma_code_point_injective(a[i], b[i]);
    }
    assert(a =~= b);
}

proof fn lemma_name_key(a: Seq<char>, b: Seq<char>)
    requires
        a != b,
        !key_less(name_key(b), name_key(a)),
    ensures
        name_before(a, b),
{
    let ka = name_key(a);
    let kb = name_key(b);
    law_key_order_total(ka, kb);
    if a != "default"@ && b != "default"@ {
        assert(ka.skip(1) =~= code_points(a));
        assert(kb.skip(1) =~= code_points(b));
        if ka == kb {
            lemma_code_points_injective(a, b);
        }
    }
}

fn to_name_key(name: &str) -> (r: Vec<u64>)
    ensures
        r@ == name_key(name@),
{
    let mut r: Vec<u64> = Vec::new();
    if str_eq(name, "default") {
        r.push(0);
        assert(r@ =~= name_key(name@));
        return r;
    }
    r.push(1);
    let chars = to_chars(name);
    let mut i: usize = 0;
    while i < chars.len()
        invariant
            chars@ == name@,
            i <= chars@.len(),
            r@ =~= seq![1u64] + code_points(name@).take(i as int),
        decreases chars.len() - i,
    {
        r.push(chars[i] as u64);
        i += 1;
    }
    assert(code_points(name@).take(i as int) =~= code_points(name@));
    r
}

fn contains_name(names: &Vec<String>, name: &str) -> (r: bool)
    ensures
        r == views(names@).contains(name@),
{
    let mut i: usize = 0;
    while i < names.len()
        invariant
            i <= names@.len(),
            forall|j: int| 0 <= j < i ==> #[trigger] views(names@)[j] != name@,
        decreases names.len() - i,
    {
        assert(views(names@)[i as int] == names@[i as int]@);
        if str_eq(names[i].as_str(), name) {
            return true;
        }
        i += 1;
    }
    false
}

fn field_names(fields: &Vec<(String, Json)>) -> (r: Vec<String>)
    ensures
        views(r@).no_duplicates(),
        forall|s: Seq<char>|
            #[trigger] views(r@).contains(s) <==> fields_view(fields@).contains_key(s),
{
    let mut r: Vec<String> = Vec::new();
    let mut i: usize = 0;
    assert(fields_view(fields@.take(0)) =~= Map::empty());
    while i < fields.len()
        invariant
            i <= fields@.len(),
            views(r@).no_duplicates(),
            forall|s: Seq<char>|
                #[trigger] views(r@).contains(s) <==> fields_view(
                    fields@.take(i as int),
                ).contains_key(s),
        decreases fields.len() - i,
    {
        let ghost prior = views(r@);
        let name = fields[i].0.clone();
        assert(fields@.take(i + 1).drop_last() =~= fields@.take(i as int));
        if !contains_name(&r, name.as_str()) {
            r.push(name);
            assert(views(r@) =~= prior.push(name@));
            assert forall|s: Seq<char>| #[trigger] views(r@).contains(s) <==> prior.contains(s) || s
                == name@ by {
                if prior.contains(s) {
                    let j = choose|j: int| 0 <= j < prior.len() && prior[j] == s;
                    assert(views(r@)[j] == s);
                }
                assert(views(r@)[prior.len() as int] == name@);
            }
        }
        i += 1;
    }
    assert(fields@.take(i as int) =~= fields@);
    r
}

/// The names of the profiles in the order of a list.
pub fn profile_names(cfg: Json) -> (r: Vec<String>)
    ensures
        forall|i: int, j: int|
            0 <= i < j < r@.len() ==> name_before(
                #[trigger] views(r@)[i],
                #[trigger] views(r@)[j],
            ),
        forall|s: Seq<char>|
            #[trigger] views(r@).contains(s) <==> profiles_of(cfg@).contains_key(s),
{
    let profiles = load_profiles_obj(cfg);
    let names = field_names(&profiles);
    let mut keys: Vec<Vec<u64>> = Vec::new();
    let ghost key = |s: String| name_key(s@);
    let mut i: usize = 0;
    while i < names.len()
        invariant
            i <= names@.len(),
            keys@.len() == i,
            key == (|s: String| name_key(s@)),
            forall|j: int| 0 <= j < i ==> (#[trigger] keys@[j])@ == key(names@[j]),
        decreases names.len() - i,
    {
        keys.push(to_name_key(names[i].as_str()));
        i += 1;
    }
    let ghost input = names@;
    let r = sort_by_keys(Direction::Ascending, names, keys, Ghost(key));
    proof {
        let f = |s: String| s@;
        let mapped_key = |s: Seq<char>| name_key(s);
        lemma_sorted_map(Direction::Ascending, input, r@, key, f, mapped_key);
        let a = views(input);
        let b = views(r@);
        law_sorted_keeps_items(Direction::Ascending, a, b, mapped_key);
        broadcast use vstd::seq_lib::group_to_multiset_ensures;

        a.lemma_multiset_has_no_duplicates();
        b.lemma_multiset_has_no_duplicates_conv();
        assert forall|s: Seq<char>| #[trigger] b.contains(s) <==> profiles_of(cfg@).contains_key(
            s,
        ) by {
            assert(a.contains(s) <==> a.to_multiset().count(s) > 0);
            assert(b.contains(s) <==> b.to_multiset().count(s) > 0);
        }
        assert forall|i: int, j: int| 0 <= i < j < r@.len() implies name_before(
            #[trigger] b[i],
            #[trigger] b[j],
        ) by {
            assert(!precedes(Direction::Ascending, mapped_key(b[j]), mapped_key(b[i])));
            lemma_name_key(b[i], b[j]);
        }
    }
    r
}

/// The profiles called `names`, with their data directories `paths`.
pub fn list_profiles(cfg: &Json, names: Vec<String>, paths: Vec<String>) -> (r: Vec<ProfileInfo>)
    requires
        names@.len() == paths@.len(),
    ensures
        r@.len() == names@.len(),
        forall|i: int|
            0 <= i < r@.len() ==> (#[trigger] r@[i]).name@ == names@[i]@ && r@[i].path@
                == paths@[i]@ && views(r@[i].args@) == args_of(cfg@, names@[i]@),
{
    let mut r: Vec<ProfileInfo> = Vec::new();
    let mut i: usize = 0;
    while i < names.len()
        invariant
            names@.len() == paths@.len(),
            i <= names@.len(),
            r@.len() == i,
            forall|j: int|
                0 <= j < i ==> (#[trigger] r@[j]).name@ == names@[j]@ && r@[j].path@ == paths@[j]@
                    && views(r@[j].args@) == args_of(cfg@, names@[j]@),
        decreases names.len() - i,
    {
        let args = profile_args(cfg, names[i].as_str());
        r.push(ProfileInfo { name: names[i].clone(), path: paths[i].clone(), args });
        i += 1;
    }
    r
}

} // verus!
