//! JSON values. Text is read and written by `serde_json`; what the library
//! does with a value it does on [`Json`].

use vstd::prelude::*;

use crate::order::{lemma_filter_map_add, lemma_filter_map_one};
use crate::text::{str_eq, views};

verus! {

/// A JSON number as `serde_json` keeps it.
#[verifier::external_type_specification]
#[verifier::external_body]
pub struct ExNumber(serde_json::Number);

/// A JSON value as `serde_json` keeps it.
#[verifier::external_type_specification]
#[verifier::external_body]
pub struct ExValue(serde_json::Value);

/// What `serde_json` returns where it cannot read or write a text.
#[verifier::external_type_specification]
#[verifier::external_body]
pub struct ExError(serde_json::Error);

/// A JSON value. An object is a list of fields, of which the last one with a
/// given name counts.
pub enum Json {
    Null,
    Bool(bool),
    Number(serde_json::Number),
    Str(String),
    Array(Vec<Json>),
    Object(Vec<(String, Json)>),
}

/// What a JSON value denotes.
pub enum JsonView {
    Null,
    Bool(bool),
    Number(serde_json::Number),
    Str(Seq<char>),
    Array(Seq<JsonView>),
    Object(Map<Seq<char>, JsonView>),
}

/// What `j` denotes.
pub open spec fn json_view(j: Json) -> JsonView
    decreases j,
{
    match j {
        Json::Null => JsonView::Null,
        Json::Bool(b) => JsonView::Bool(b),
        Json::Number(n) => JsonView::Number(n),
        Json::Str(s) => JsonView::Str(s@),
        Json::Array(items) => JsonView::Array(items_view(items@)),
        Json::Object(fields) => JsonView::Object(fields_view(fields@)),
    }
}

/// What the items of an array denote.
pub open spec fn items_view(items: Seq<Json>) -> Seq<JsonView>
    decreases items,
{
    if items.len() == 0 {
        Seq::empty()
    } else {
        items_view(items.drop_last()).push(json_view(items.last()))
    }
}

/// What the fields of an object denote.
pub open spec fn fields_view(fields: Seq<(String, Json)>) -> Map<Seq<char>, JsonView>
    decreases fields,
{
    if fields.len() == 0 {
        Map::empty()
    } else {
        fields_view(fields.drop_last()).insert(fields.last().0@, json_view(fields.last().1))
    }
}

impl View for Json {
    type V = JsonView;

    open spec fn view(&self) -> JsonView {
        json_view(*self)
    }
}

/// What a value of `serde_json` denotes.
pub uninterp spec fn value_view(v: serde_json::Value) -> JsonView;

/// The outermost layer of a value, with the values inside as they are.
pub enum Layer {
    Null,
    Bool(bool),
    Number(serde_json::Number),
    Str(String),
    Array(Vec<serde_json::Value>),
    Object(Vec<(String, serde_json::Value)>),
}

/// What a list of values denotes.
pub open spec fn values_view(items: Seq<serde_json::Value>) -> Seq<JsonView> {
    items.map_values(|v: serde_json::Value| value_view(v))
}

/// What a list of fields denotes.
pub open spec fn members_view(fields: Seq<(String, serde_json::Value)>) -> Map<
    Seq<char>,
    JsonView,
>
    decreases fields.len(),
{
    if fields.len() == 0 {
        Map::empty()
    } else {
        members_view(fields.drop_last()).insert(fields.last().0@, value_view(fields.last().1))
    }
}

/// What the outermost layer, with the values inside, denotes.
pub open spec fn layer_view(l: Layer) -> JsonView {
    match l {
        Layer::Null => JsonView::Null,
        Layer::Bool(b) => JsonView::Bool(b),
        Layer::Number(n) => JsonView::Number(n),
        Layer::Str(s) => JsonView::Str(s@),
        Layer::Array(items) => JsonView::Array(values_view(items@)),
        Layer::Object(fields) => JsonView::Object(members_view(fields@)),
    }
}

/// Whether no two fields have the same name.
pub open spec fn distinct_names(fields: Seq<(String, serde_json::Value)>) -> bool {
    forall|i: int, j: int|
        0 <= i < j < fields.len() ==> (#[trigger] fields[i]).0@ != (#[trigger] fields[j]).0@
}

/// Takes a `serde_json::Value` apart into its variant and what it holds. The
/// layer denotes what the value did, and no two fields of an object have the
/// same name.
#[verifier::external_body]
fn open_value(v: serde_json::Value) -> (r: Layer)
    ensures
        layer_view(r) == value_view(v),
        r matches Layer::Object(fields) ==> distinct_names(fields@),
{
    match v {
        serde_json::Value::Null => Layer::Null,
        serde_json::Value::Bool(b) => Layer::Bool(b),
        serde_json::Value::Number(n) => Layer::Number(n),
        serde_json::Value::String(s) => Layer::Str(s),
        serde_json::Value::Array(items) => Layer::Array(items),
        serde_json::Value::Object(fields) => Layer::Object(fields.into_iter().collect()),
    }
}

proof fn lemma_members_finite(fields: Seq<(String, serde_json::Value)>)
    ensures
        members_view(fields).dom().finite(),
    decreases fields.len(),
{
    if fields.len() > 0 {
        lemma_members_finite(fields.drop_last());
    }
}

proof fn lemma_members_contain(fields: Seq<(String, serde_json::Value)>, i: int)
    requires
        0 <= i < fields.len(),
        distinct_names(fields),
    ensures
        members_view(fields).contains_key(fields[i].0@),
        members_view(fields)[fields[i].0@] == value_view(fields[i].1),
    decreases fields.len(),
{
    let rest = fields.drop_last();
    if i < rest.len() {
        assert(rest[i] == fields[i]);
        assert(fields[i].0@ != fields[fields.len() - 1].0@);
        lemma_members_contain(rest, i);
    }
}

/// The value of the library's own type that denotes what `v` does.
fn from_value(v: serde_json::Value) -> (r: Json)
    ensures
        r@ == value_view(v),
    decreases value_view(v),
{
    match open_value(v) {
        Layer::Null => Json::Null,
        Layer::Bool(b) => Json::Bool(b),
        Layer::Number(n) => Json::Number(n),
        Layer::Str(s) => Json::Str(s),
        Layer::Array(items) => {
            let mut r: Vec<Json> = Vec::new();
            let ghost all = items@;
            for item in it: items
                invariant
                    it.seq() == all,
                    value_view(v) == JsonView::Array(values_view(all)),
                    items_view(r@) =~= values_view(all.take(it.index())),
            {
                let ghost k = it.index();
                let ghost prior = r@;
                assert(values_view(all)[k] == value_view(item));
                assert(decreases_to!(value_view(v) => value_view(v)->Array_0));
                assert(decreases_to!(values_view(all) => values_view(all)[k]));
                let j = from_value(item);
                r.push(j);
                assert(r@.drop_last() =~= prior);
                assert(values_view(all.take(k + 1)) =~= values_view(all.take(k)).push(
                    value_view(item),
                ));
            }
            assert(all.take(all.len() as int) =~= all);
            Json::Array(r)
        },
        Layer::Object(fields) => {
            let mut r: Vec<(String, Json)> = Vec::new();
            let ghost all = fields@;
            for field in it: fields
                invariant
                    it.seq() == all,
                    value_view(v) == JsonView::Object(members_view(all)),
                    fields_view(r@) == members_view(all.take(it.index())),
                    distinct_names(all),
            {
                let ghost k = it.index();
                let ghost prior = r@;
                proof {
                    lemma_members_contain(all, k);
                    lemma_members_finite(all);
                    let name = all[k].0@;
                    assert(decreases_to!(value_view(v) => value_view(v)->Object_0));
                    assert(decreases_to!(members_view(all) => members_view(all)[name]));
                }
                let (name, value) = field;
                let j = from_value(value);
                r.push((name, j));
                assert(r@.drop_last() =~= prior);
                assert(all.take(k + 1).drop_last() =~= all.take(k));
            }
            assert(all.take(all.len() as int) =~= all);
            Json::Object(r)
        },
    }
}

/// Puts a `serde_json::Value` together from its variant and what it is to
/// hold. The value denotes what the layer did.
#[verifier::external_body]
fn close_value(l: Layer) -> (r: serde_json::Value)
    requires
        l matches Layer::Object(fields) ==> distinct_names(fields@),
    ensures
        value_view(r) == layer_view(l),
{
    match l {
        Layer::Null => serde_json::Value::Null,
        Layer::Bool(b) => serde_json::Value::Bool(b),
        Layer::Number(n) => serde_json::Value::Number(n),
        Layer::Str(s) => serde_json::Value::String(s),
        Layer::Array(items) => serde_json::Value::Array(items),
        Layer::Object(fields) => serde_json::Value::Object(fields.into_iter().collect()),
    }
}

/// `fields` without those called `name`.
fn remove_member(fields: Vec<(String, serde_json::Value)>, name: &str) -> (r: Vec<
    (String, serde_json::Value),
>)
    requires
        distinct_names(fields@),
    ensures
        members_view(r@) == members_view(fields@).remove(name@),
        distinct_names(r@),
        forall|i: int| 0 <= i < r@.len() ==> (#[trigger] r@[i]).0@ != name@,
{
    let mut r: Vec<(String, serde_json::Value)> = Vec::new();
    let ghost all = fields@;
    assert(members_view(all.take(0)).remove(name@) =~= Map::empty());
    for member in it: fields
        invariant
            it.seq() == all,
            distinct_names(all),
            members_view(r@) == members_view(all.take(it.index())).remove(name@),
            distinct_names(r@),
            forall|i: int| 0 <= i < r@.len() ==> (#[trigger] r@[i]).0@ != name@,
            forall|i: int|
                0 <= i < r@.len() ==> exists|k: int|
                    0 <= k < it.index() && (#[trigger] all[k]).0@ == (#[trigger] r@[i]).0@,
    {
        let ghost k = it.index();
        let ghost prior = r@;
        let ghost before = members_view(all.take(k));
        assert(all.take(k + 1).drop_last() =~= all.take(k));
        if str_eq(member.0.as_str(), name) {
            assert(before.insert(all[k].0@, value_view(all[k].1)).remove(name@) =~= before.remove(
                name@,
            ));
        } else {
            r.push(member);
            assert(r@.drop_last() =~= prior);
            assert(before.insert(all[k].0@, value_view(all[k].1)).remove(name@) =~= before.remove(
                name@,
            ).insert(all[k].0@, value_view(all[k].1)));
            assert(all[k] == r@.last());
        }
    }
    assert(all.take(all.len() as int) =~= all);
    r
}

/// The value of `serde_json` that denotes what `j` does.
fn to_value(j: Json) -> (r: serde_json::Value)
    ensures
        value_view(r) == j@,
    decreases j,
{
    let layer = match j {
        Json::Null => Layer::Null,
        Json::Bool(b) => Layer::Bool(b),
        Json::Number(n) => Layer::Number(n),
        Json::Str(s) => Layer::Str(s),
        Json::Array(items) => {
            let mut r: Vec<serde_json::Value> = Vec::new();
            let ghost all = items@;
            assert(decreases_to!(j => j->Array_0));
            assert(decreases_to!(j->Array_0 => all));
            for item in it: items
                invariant
                    it.seq() == all,
                    decreases_to!(j => all),
                    values_view(r@) =~= items_view(all.take(it.index())),
            {
                let ghost k = it.index();
                let ghost prior = r@;
                assert(decreases_to!(all => all[k]));
                let v = to_value(item);
                r.push(v);
                assert(values_view(r@) =~= values_view(prior).push(value_view(v)));
                assert(all.take(k + 1).drop_last() =~= all.take(k));
            }
            assert(all.take(all.len() as int) =~= all);
            Layer::Array(r)
        },
        Json::Object(fields) => {
            let mut r: Vec<(String, serde_json::Value)> = Vec::new();
            let ghost all = fields@;
            assert(decreases_to!(j => j->Object_0));
            assert(decreases_to!(j->Object_0 => all));
            for field in it: fields
                invariant
                    it.seq() == all,
                    decreases_to!(j => all),
                    members_view(r@) == fields_view(all.take(it.index())),
                    distinct_names(r@),
            {
                let ghost k = it.index();
                let ghost before = members_view(r@);
                assert(decreases_to!(all => all[k]));
                assert(decreases_to!(all[k] => all[k].1));
                let (name, value) = field;
                let v = to_value(value);
                r = remove_member(r, name.as_str());
                let ghost rest = r@;
                r.push((name, v));
                assert(r@.drop_last() =~= rest);
                assert(before.remove(name@).insert(name@, value_view(v)) =~= before.insert(
                    name@,
                    value_view(v),
                ));
                assert(all.take(k + 1).drop_last() =~= all.take(k));
            }
            assert(all.take(all.len() as int) =~= all);
            Layer::Object(r)
        },
    };
    close_value(layer)
}

/// What the text of a JSON value denotes; `None` where it is no such text.
pub uninterp spec fn text_json(text: Seq<char>) -> Option<JsonView>;

/// What the bytes of a JSON value denote; `None` where they are no such text.
pub uninterp spec fn bytes_json(bytes: Seq<u8>) -> Option<JsonView>;

/// The text that `serde_json` writes for a value, with line breaks and
/// indentation.
pub uninterp spec fn pretty_text(j: JsonView) -> Seq<char>;

/// The number as an unsigned integer, where it is one.
pub uninterp spec fn number_u64(n: serde_json::Number) -> Option<u64>;

/// Specifies `serde_json::Number::as_u64`: its result depends on the number
/// alone.
pub assume_specification[ serde_json::Number::as_u64 ](n: &serde_json::Number) -> (r: Option<u64>)
    ensures
        r == number_u64(*n),
;

/// How many arrays and objects inside one another `serde_json` reads.
pub const MAX_DEPTH: u32 = 127;

/// Whether `j` has no more than `depth` arrays and objects inside one another.
pub open spec fn is_nested(j: JsonView, depth: nat) -> bool
    decreases depth,
{
    match j {
        JsonView::Array(items) => depth > 0 && forall|i: int|
            0 <= i < items.len() ==> is_nested(#[trigger] items[i], (depth - 1) as nat),
        JsonView::Object(fields) => depth > 0 && forall|name: Seq<char>|
            fields.contains_key(name) ==> is_nested(#[trigger] fields[name], (depth - 1) as nat),
        _ => true,
    }
}

/// Whether `m` may be read where `n` was written: the same number where it is
/// an unsigned integer, else some number that is none.
pub open spec fn same_number(n: serde_json::Number, m: serde_json::Number) -> bool {
    match number_u64(n) {
        Some(_) => n == m,
        None => number_u64(m) is None,
    }
}

/// Whether `b` is `a` but for the values of numbers that are no unsigned
/// integers, with no more than `depth` arrays and objects inside one another.
pub open spec fn alike(a: JsonView, b: JsonView, depth: nat) -> bool
    decreases depth,
{
    match (a, b) {
        (JsonView::Number(n), JsonView::Number(m)) => same_number(n, m),
        (JsonView::Array(x), JsonView::Array(y)) => {
            &&& depth > 0
            &&& x.len() == y.len()
            &&& forall|i: int|
                0 <= i < x.len() ==> alike(#[trigger] x[i], y[i], (depth - 1) as nat)
        },
        (JsonView::Object(x), JsonView::Object(y)) => {
            &&& depth > 0
            &&& x.dom() == y.dom()
            &&& forall|name: Seq<char>|
                x.contains_key(name) ==> alike(#[trigger] x[name], y[name], (depth - 1) as nat)
        },
        _ => a == b,
    }
}

/// Calls `serde_json::from_str` for a `Value`: what it returns depends on the
/// text alone, and a text with too many arrays and objects inside one another
/// is not read.
#[verifier::external_body]
fn read_text(text: &str) -> (r: Result<serde_json::Value, serde_json::Error>)
    ensures
        r matches Ok(v) ==> text_json(text@) == Some(value_view(v)),
        r matches Ok(v) ==> is_nested(value_view(v), MAX_DEPTH as nat),
        r is Err ==> text_json(text@) is None,
{
    serde_json::from_str::<serde_json::Value>(text)
}

/// Calls `serde_json::from_slice` for a `Value`: what it returns depends on
/// the bytes alone.
#[verifier::external_body]
fn read_bytes(bytes: &[u8]) -> (r: Result<serde_json::Value, serde_json::Error>)
    ensures
        r matches Ok(v) ==> bytes_json(bytes@) == Some(value_view(v)),
        r is Err ==> bytes_json(bytes@) is None,
{
    serde_json::from_slice::<serde_json::Value>(bytes)
}

/// Calls `serde_json::to_string_pretty` on a `Value`. It succeeds, and the
/// text depends on what the value denotes alone, since fields are written in
/// the order of their names. `serde_json::from_str` reads from it what was
/// written, unless it is nested too deep to be read; of a negative integer
/// and of a fraction it is only claimed that such a number is read, not which
/// one.
#[verifier::external_body]
fn write_text(v: &serde_json::Value) -> (r: Result<String, serde_json::Error>)
    ensures
        r is Ok,
        r->Ok_0@ == pretty_text(value_view(*v)),
        is_nested(value_view(*v), MAX_DEPTH as nat) ==> text_json(r->Ok_0@) is Some,
        is_nested(value_view(*v), MAX_DEPTH as nat) ==> alike(
            value_view(*v),
            text_json(r->Ok_0@)->0,
            MAX_DEPTH as nat,
        ),
{
    serde_json::to_string_pretty(v)
}

/// Reads a JSON value from `text`.
pub fn parse_text(text: &str) -> (r: Option<Json>)
    ensures
        r is Some <==> text_json(text@) is Some,
        r matches Some(j) ==> text_json(text@) == Some(j@) && is_nested(j@, MAX_DEPTH as nat),
{
    match read_text(text) {
        Ok(v) => Some(from_value(v)),
        Err(_) => None,
    }
}

/// Reads a JSON value from `bytes`.
pub fn parse_bytes(bytes: &[u8]) -> (r: Option<Json>)
    ensures
        r is Some <==> bytes_json(bytes@) is Some,
        r matches Some(j) ==> bytes_json(bytes@) == Some(j@),
{
    match read_bytes(bytes) {
        Ok(v) => Some(from_value(v)),
        Err(_) => None,
    }
}

/// Writes `j` as text. What is read from the text is like what was written,
/// unless that is nested too deep to be read.
pub fn print_text(j: Json) -> (r: String)
    ensures
        r@ == pretty_text(j@),
        is_nested(j@, MAX_DEPTH as nat) ==> (text_json(r@) matches Some(read) && alike(
            j@,
            read,
            MAX_DEPTH as nat,
        )),
{
    let v = to_value(j);
    match write_text(&v) {
        Ok(text) => text,
        Err(_) => String::new(),
    }
}

/// The field `name` of `j`; null where `j` is no object or has no such field.
pub open spec fn field(j: JsonView, name: Seq<char>) -> JsonView {
    match j {
        JsonView::Object(fields) => if fields.contains_key(name) {
            fields[name]
        } else {
            JsonView::Null
        },
        _ => JsonView::Null,
    }
}

/// The text that `j` is, if it is one.
pub open spec fn as_text(j: JsonView) -> Option<Seq<char>> {
    match j {
        JsonView::Str(s) => Some(s),
        _ => None,
    }
}

/// The items of `j`; none where it is no array.
pub open spec fn items_of(j: JsonView) -> Seq<JsonView> {
    match j {
        JsonView::Array(items) => items,
        _ => Seq::empty(),
    }
}

/// The unsigned integer that `j` is, if it is one.
pub open spec fn unsigned_of(j: JsonView) -> Option<u64> {
    match j {
        JsonView::Number(n) => number_u64(n),
        _ => None,
    }
}

pub(crate) proof fn lemma_items_view(items: Seq<Json>)
    ensures
        items_view(items).len() == items.len(),
        forall|i: int|
            0 <= i < items.len() ==> #[trigger] items_view(items)[i] == json_view(items[i]),
    decreases items.len(),
{
    if items.len() > 0 {
        lemma_items_view(items.drop_last());
    }
}

proof fn lemma_fields_take(fields: Seq<(String, Json)>, n: int)
    requires
        0 <= n < fields.len(),
    ensures
        fields_view(fields.take(n + 1)) == fields_view(fields.take(n)).insert(
            fields[n].0@,
            json_view(fields[n].1),
        ),
{
    assert(fields.take(n + 1).drop_last() =~= fields.take(n));
}

impl Json {
    /// The field `name`, if this is an object that has one.
    pub fn get(&self, name: &str) -> (r: Option<&Json>)
        ensures
            r matches Some(j) ==> j@ == field(self@, name@),
            r is Some <==> (self@ matches JsonView::Object(m) && m.contains_key(name@)),
    {
        match self {
            Json::Object(fields) => {
                let mut i: usize = fields.len();
                let ghost found = fields_view(fields@);
                assert(fields@.take(i as int) =~= fields@);
                while i > 0
                    invariant
                        i <= fields@.len(),
                        self@ == JsonView::Object(found),
                        found.contains_key(name@) <==> fields_view(
                            fields@.take(i as int),
                        ).contains_key(name@),
                        found.contains_key(name@) ==> found[name@] == fields_view(
                            fields@.take(i as int),
                        )[name@],
                    decreases i,
                {
                    i -= 1;
                    proof {
                        lemma_fields_take(fields@, i as int);
                    }
                    if str_eq(fields[i].0.as_str(), name) {
                        return Some(&fields[i].1);
                    }
                }
                assert(fields_view(fields@.take(0)) =~= Map::empty());
                None
            },
            _ => None,
        }
    }

    /// The text that this is, if it is one.
    pub fn text(&self) -> (r: Option<&String>)
        ensures
            r is Some <==> as_text(self@) is Some,
            r matches Some(s) ==> as_text(self@) == Some(s@),
    {
        match self {
            Json::Str(s) => Some(s),
            _ => None,
        }
    }

    /// The unsigned integer that this is, if it is one.
    pub fn unsigned(&self) -> (r: Option<u64>)
        ensures
            r == unsigned_of(self@),
    {
        match self {
            Json::Number(n) => n.as_u64(),
            _ => None,
        }
    }

    /// The items, if this is an array.
    pub fn items(&self) -> (r: Option<&Vec<Json>>)
        ensures
            r is Some <==> self@ is Array,
            r matches Some(items) ==> self@ == JsonView::Array(items_view(items@)),
    {
        match self {
            Json::Array(items) => Some(items),
            _ => None,
        }
    }

    /// The text in the field `name`, if there is one.
    pub fn text_field(&self, name: &str) -> (r: Option<&String>)
        ensures
            r is Some <==> as_text(field(self@, name@)) is Some,
            r matches Some(s) ==> as_text(field(self@, name@)) == Some(s@),
    {
        match self.get(name) {
            Some(j) => j.text(),
            None => None,
        }
    }

    /// The unsigned integer in the field `name`, if there is one.
    pub fn unsigned_field(&self, name: &str) -> (r: Option<u64>)
        ensures
            r == unsigned_of(field(self@, name@)),
    {
        match self.get(name) {
            Some(j) => j.unsigned(),
            None => None,
        }
    }

    /// The items in the field `name`, if it is an array.
    pub fn items_field(&self, name: &str) -> (r: Option<&Vec<Json>>)
        ensures
            r is Some <==> field(self@, name@) is Array,
            r matches Some(items) ==> field(self@, name@) == JsonView::Array(items_view(items@)),
    {
        match self.get(name) {
            Some(j) => j.items(),
            None => None,
        }
    }
}

/// Takes the field `name` out of `fields`.
pub fn take_field(fields: Vec<(String, Json)>, name: &str) -> (r: (
    Option<Json>,
    Vec<(String, Json)>,
))
    ensures
        r.0 is Some <==> fields_view(fields@).contains_key(name@),
        r.0 matches Some(j) ==> fields_view(fields@)[name@] == j@,
        fields_view(r.1@) == fields_view(fields@).remove(name@),
{
    let mut taken: Option<Json> = None;
    let mut rest: Vec<(String, Json)> = Vec::new();
    let ghost all = fields@;
    assert(fields_view(all.take(0)) =~= Map::empty());
    assert(fields_view(all.take(0)).remove(name@) =~= Map::empty());
    for entry in it: fields
        invariant
            it.seq() == all,
            taken is Some <==> fields_view(all.take(it.index())).contains_key(name@),
            taken matches Some(j) ==> fields_view(all.take(it.index()))[name@] == j@,
            fields_view(rest@) == fields_view(all.take(it.index())).remove(name@),
    {
        let ghost k = it.index();
        let ghost prior = rest@;
        proof {
            lemma_fields_take(all, k);
        }
        let ghost before = fields_view(all.take(k));
        if str_eq(entry.0.as_str(), name) {
            taken = Some(entry.1);
            assert(before.insert(all[k].0@, json_view(all[k].1)).remove(name@) =~= before.remove(
                name@,
            ));
        } else {
            rest.push(entry);
            assert(rest@.drop_last() =~= prior);
            assert(before.insert(all[k].0@, json_view(all[k].1)).remove(name@) =~= before.remove(
                name@,
            ).insert(all[k].0@, json_view(all[k].1)));
        }
    }
    assert(all.take(all.len() as int) =~= all);
    (taken, rest)
}

/// `fields` with `value` under `name`, in place of what was there.
pub fn set_field(fields: Vec<(String, Json)>, name: &str, value: Json) -> (r: Vec<(String, Json)>)
    ensures
        fields_view(r@) == fields_view(fields@).insert(name@, value@),
{
    let (_, mut r) = take_field(fields, name);
    let ghost prior = r@;
    r.push((name.to_string(), value));
    assert(r@.drop_last() =~= prior);
    assert(fields_view(fields@).remove(name@).insert(name@, value@) =~= fields_view(
        fields@,
    ).insert(name@, value@));
    r
}

/// The texts among `items`, in their order.
pub open spec fn texts_of(items: Seq<JsonView>) -> Seq<Seq<char>> {
    items.filter_map(|j: JsonView| as_text(j))
}

proof fn lemma_same_texts(a: Seq<JsonView>, b: Seq<JsonView>)
    requires
        a.len() == b.len(),
        forall|i: int| 0 <= i < a.len() ==> as_text(#[trigger] a[i]) == as_text(b[i]),
    ensures
        texts_of(a) == texts_of(b),
    decreases a.len(),
{
    reveal_with_fuel(Seq::filter_map, 2);
    if a.len() > 0 {
        let x = a.drop_last();
        let y = b.drop_last();
        assert forall|i: int| 0 <= i < x.len() implies as_text(#[trigger] x[i]) == as_text(y[i]) by {
            assert(a[i] == x[i] && b[i] == y[i]);
        }
        lemma_same_texts(x, y);
        assert(as_text(a[a.len() - 1]) == as_text(b[b.len() - 1]));
    } else {
        assert(texts_of(a) =~= texts_of(b));
    }
}

pub(crate) proof fn lemma_alike_field(a: JsonView, b: JsonView, depth: nat, name: Seq<char>)
    requires
        depth > 0,
        alike(a, b, depth),
    ensures
        alike(field(a, name), field(b, name), (depth - 1) as nat),
{
    if let (JsonView::Object(x), JsonView::Object(y)) = (a, b) {
        assert(x.dom().contains(name) <==> y.dom().contains(name));
        if x.contains_key(name) {
            assert(alike(x[name], y[name], (depth - 1) as nat));
        }
    }
}

pub(crate) proof fn lemma_alike_texts(a: JsonView, b: JsonView, depth: nat)
    requires
        alike(a, b, depth),
    ensures
        as_text(a) == as_text(b),
        texts_of(items_of(a)) == texts_of(items_of(b)),
{
    if let (JsonView::Array(x), JsonView::Array(y)) = (a, b) {
        assert forall|i: int| 0 <= i < x.len() implies as_text(#[trigger] x[i]) == as_text(y[i]) by {
            assert(alike(x[i], y[i], (depth - 1) as nat));
            reveal_with_fuel(alike, 2);
        }
        lemma_same_texts(x, y);
    }
}

/// The texts among `items`.
pub fn text_items(items: &Vec<Json>) -> (r: Vec<String>)
    ensures
        views(r@) == texts_of(items_view(items@)),
{
    let mut r: Vec<String> = Vec::new();
    let mut i: usize = 0;
    let ghost all = items_view(items@);
    proof {
        lemma_items_view(items@);
        reveal_with_fuel(Seq::filter_map, 1);
        assert(views(r@) =~= texts_of(all.take(0)));
    }
    while i < items.len()
        invariant
            i <= items@.len(),
            all == items_view(items@),
            views(r@) == texts_of(all.take(i as int)),
        decreases items.len() - i,
    {
        proof {
            lemma_items_view(items@);
            reveal_with_fuel(Seq::filter_map, 2);
            assert(all.take(i + 1).drop_last() =~= all.take(i as int));
            assert(all.take(i + 1).last() == items@[i as int]@);
        }
        match items[i].text() {
            Some(s) => {
                let ghost prior = r@;
                r.push(s.clone());
                assert(views(r@) =~= views(prior).push(s@));
                assert(views(prior).push(s@) =~= views(prior) + seq![s@]);
            },
            None => {},
        }
        i += 1;
    }
    assert(all.take(items@.len() as int) =~= all) by {
        lemma_items_view(items@);
    }
    r
}

/// The list of texts that a JSON text denotes; `None` where it denotes
/// anything else.
pub uninterp spec fn text_strings(text: Seq<char>) -> Option<Seq<Seq<char>>>;

/// The text that `serde_json` writes for a list of texts.
pub uninterp spec fn strings_text(list: Seq<Seq<char>>) -> Seq<char>;

/// The list of pairs that a JSON text denotes; `None` where it denotes
/// anything else.
pub uninterp spec fn text_pairs(text: Seq<char>) -> Option<Seq<(u32, u64)>>;

/// The text that `serde_json` writes for a list of pairs.
pub uninterp spec fn pairs_text(list: Seq<(u32, u64)>) -> Seq<char>;

/// Calls `serde_json::from_str` for a list of strings: what it returns
/// depends on the text alone.
#[verifier::external_body]
fn read_strings(text: &str) -> (r: Result<Vec<String>, serde_json::Error>)
    ensures
        r matches Ok(list) ==> text_strings(text@) == Some(views(list@)),
        r is Err ==> text_strings(text@) is None,
{
    serde_json::from_str::<Vec<String>>(text)
}

/// Calls `serde_json::to_string` on a list of strings: it succeeds, and
/// `serde_json::from_str` reads the same list from the text.
#[verifier::external_body]
fn write_strings(list: &Vec<String>) -> (r: Result<String, serde_json::Error>)
    ensures
        r is Ok,
        r->Ok_0@ == strings_text(views(list@)),
        text_strings(r->Ok_0@) == Some(views(list@)),
{
    serde_json::to_string(list)
}

/// Calls `serde_json::from_str` for a list of pairs: what it returns depends
/// on the text alone.
#[verifier::external_body]
fn read_pairs(text: &str) -> (r: Result<Vec<(u32, u64)>, serde_json::Error>)
    ensures
        r matches Ok(list) ==> text_pairs(text@) == Some(list@),
        r is Err ==> text_pairs(text@) is None,
{
    serde_json::from_str::<Vec<(u32, u64)>>(text)
}

/// Calls `serde_json::to_string` on a list of pairs: it succeeds, and
/// `serde_json::from_str` reads the same list from the text.
#[verifier::external_body]
fn write_pairs(list: &Vec<(u32, u64)>) -> (r: Result<String, serde_json::Error>)
    ensures
        r is Ok,
        r->Ok_0@ == pairs_text(list@),
        text_pairs(r->Ok_0@) == Some(list@),
{
    serde_json::to_string(list)
}

/// Reads a list of strings from `text`.
pub fn parse_strings(text: &str) -> (r: Option<Vec<String>>)
    ensures
        r is Some <==> text_strings(text@) is Some,
        r matches Some(list) ==> text_strings(text@) == Some(views(list@)),
{
    match read_strings(text) {
        Ok(list) => Some(list),
        Err(_) => None,
    }
}

/// Writes a list of strings as text.
pub fn print_strings(list: &Vec<String>) -> (r: String)
    ensures
        r@ == strings_text(views(list@)),
        text_strings(r@) == Some(views(list@)),
{
    match write_strings(list) {
        Ok(text) => text,
        Err(_) => String::new(),
    }
}

/// Reads a list of pairs from `text`.
pub fn parse_pairs(text: &str) -> (r: Option<Vec<(u32, u64)>>)
    ensures
        r is Some <==> text_pairs(text@) is Some,
        r matches Some(list) ==> text_pairs(text@) == Some(list@),
{
    match read_pairs(text) {
        Ok(list) => Some(list),
        Err(_) => None,
    }
}

/// Writes a list of pairs as text.
pub fn print_pairs(list: &Vec<(u32, u64)>) -> (r: String)
    ensures
        r@ == pairs_text(list@),
        text_pairs(r@) == Some(list@),
{
    match write_pairs(list) {
        Ok(text) => text,
        Err(_) => String::new(),
    }
}

/// What a value denotes is what it holds: a text that text, an array what its
/// items denote, of any number, and an object under each name what the last
/// field of that name denotes.
pub proof fn law_values_denote_what_they_hold(
    text: String,
    items: Vec<Json>,
    fields: Vec<(String, Json)>,
    i: int,
    name: Seq<char>,
)
    ensures
        json_view(Json::Str(text)) == JsonView::Str(text@),
        json_view(Json::Array(items)) is Array,
        json_view(Json::Array(items))->Array_0.len() == items@.len(),
        0 <= i < items@.len() ==> json_view(Json::Array(items))->Array_0[i] == json_view(items@[i]),
        json_view(Json::Object(fields)) is Object,
        (forall|k: int| 0 <= k < fields@.len() ==> (#[trigger] fields@[k]).0@ != name)
            ==> !json_view(Json::Object(fields))->Object_0.contains_key(name),
        0 <= i < fields@.len() && fields@[i].0@ == name && (forall|k: int|
            i < k < fields@.len() ==> (#[trigger] fields@[k]).0@ != name) ==> json_view(
            Json::Object(fields),
        )->Object_0.contains_key(name) && json_view(Json::Object(fields))->Object_0[name]
            == json_view(fields@[i].1),
{
    lemma_items_view(items@);
    lemma_last_field(fields@, i, name);
}

proof fn lemma_last_field(fields: Seq<(String, Json)>, i: int, name: Seq<char>)
    ensures
        (forall|k: int| 0 <= k < fields.len() ==> (#[trigger] fields[k]).0@ != name)
            ==> !fields_view(fields).contains_key(name),
        0 <= i < fields.len() && fields[i].0@ == name && (forall|k: int|
            i < k < fields.len() ==> (#[trigger] fields[k]).0@ != name) ==> fields_view(
            fields,
        ).contains_key(name) && fields_view(fields)[name] == json_view(fields[i].1),
    decreases fields.len(),
{
    if fields.len() > 0 {
        let rest = fields.drop_last();
        lemma_last_field(rest, i, name);
        assert(fields[fields.len() - 1] == fields.last());
        assert forall|k: int| 0 <= k < rest.len() implies #[trigger] rest[k] == fields[k] by {}
        if i < rest.len() && 0 <= i && fields[i].0@ == name && (forall|k: int|
            i < k < fields.len() ==> (#[trigger] fields[k]).0@ != name) {
            assert(fields[fields.len() - 1].0@ != name);
            assert forall|k: int| i < k < rest.len() implies (#[trigger] rest[k]).0@ != name by {
                assert(rest[k] == fields[k]);
            }
            assert(rest[i] == fields[i]);
        }
        if forall|k: int| 0 <= k < fields.len() ==> (#[trigger] fields[k]).0@ != name {
            assert(fields[fields.len() - 1].0@ != name);
            assert forall|k: int| 0 <= k < rest.len() implies (#[trigger] rest[k]).0@ != name by {
                assert(rest[k] == fields[k]);
            }
        }
    }
}

/// A field that an object has is what it has there, and a value without it
/// has null there; every text is a text, whatever it holds, and nothing else
/// is; the items are those of an array, all of them.
pub proof fn law_values_are_read_as_they_are(
    fields: Map<Seq<char>, JsonView>,
    name: Seq<char>,
    text: Seq<char>,
    items: Seq<JsonView>,
    j: JsonView,
)
    ensures
        fields.contains_key(name) ==> field(JsonView::Object(fields), name) == fields[name],
        !fields.contains_key(name) ==> field(JsonView::Object(fields), name) == JsonView::Null,
        !(j is Object) ==> field(j, name) == JsonView::Null,
        as_text(JsonView::Str(text)) == Some(text),
        !(j is Str) ==> as_text(j) is None,
        items_of(JsonView::Array(items)) == items,
        !(j is Array) ==> items_of(j).len() == 0,
        j is Number ==> unsigned_of(j) == number_u64(j->Number_0),
        !(j is Number) ==> unsigned_of(j) is None,
{
}

/// The texts among items are found one by one: those among two lists one
/// after the other are those among each, a text is itself, and anything else
/// is passed over.
pub proof fn law_texts_item_by_item(a: Seq<JsonView>, b: Seq<JsonView>, item: JsonView)
    ensures
        texts_of(a + b) == texts_of(a) + texts_of(b),
        texts_of(seq![item]) == match item {
            JsonView::Str(text) => seq![text],
            _ => Seq::empty(),
        },
{
    let f = |j: JsonView| as_text(j);
    lemma_filter_map_add(a, b, f);
    lemma_filter_map_one(item, f);
}

/// Two values are alike only where they are of one kind and hold the same:
/// texts and truth values to the letter, arrays as many items, objects the
/// same names, and whatever stands there alike again.
pub proof fn law_alike_holds_the_same(
    a: JsonView,
    b: JsonView,
    depth: nat,
    i: int,
    name: Seq<char>,
)
    requires
        alike(a, b, depth),
    ensures
        a is Null ==> b is Null,
        a is Bool ==> a == b,
        a is Str ==> a == b,
        a is Number ==> b is Number && (unsigned_of(a) is Some ==> a == b) && (unsigned_of(
            a,
        ) is None ==> unsigned_of(b) is None),
        a is Array ==> b is Array && items_of(a).len() == items_of(b).len(),
        a is Array && 0 <= i < items_of(a).len() ==> alike(
            items_of(a)[i],
            items_of(b)[i],
            (depth - 1) as nat,
        ),
        a is Object ==> b is Object && a->Object_0.dom() == b->Object_0.dom(),
        a is Object && a->Object_0.contains_key(name) ==> alike(
            field(a, name),
            field(b, name),
            (depth - 1) as nat,
        ),
{
    if a is Array && 0 <= i < items_of(a).len() {
        assert(alike(a->Array_0[i], b->Array_0[i], (depth - 1) as nat));
    }
    if a is Object && a->Object_0.contains_key(name) {
        assert(alike(a->Object_0[name], b->Object_0[name], (depth - 1) as nat));
        assert(b->Object_0.dom().contains(name));
    }
}

} // verus!
