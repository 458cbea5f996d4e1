//! JSON values written as compact text.

use vstd::prelude::*;

use crate::json::Json;

verus! {

/// `serde_json::Value`: a JSON value.
#[verifier::external_type_specification]
#[verifier::external_body]
pub struct ExValue(serde_json::Value);

/// What a JSON value says.
#[verifier::ext_equal]
pub enum JsonView {
    Null,
    Bool(bool),
    Number(serde_json::Number),
    Text(Seq<char>),
    Array(Seq<JsonView>),
    Object(Map<Seq<char>, JsonView>),
}

/// The number that `serde_json::Number::from` makes of a `u64`.
pub uninterp spec fn number_from(n: u64) -> serde_json::Number;

/// What a `serde_json::Value` says.
pub uninterp spec fn value_view(value: serde_json::Value) -> JsonView;

/// The text that `serde_json::to_string` writes for a value. It is a function of what the value
/// says: the members of an object are written in the order of their names.
pub uninterp spec fn compact_text(value: JsonView) -> Seq<char>;

impl View for Json {
    type V = JsonView;

    open spec fn view(&self) -> JsonView {
        json_view(*self)
    }
}

/// What a JSON value says.
pub open spec fn json_view(value: Json) -> JsonView
    decreases value,
{
    match value {
        Json::Null => JsonView::Null,
        Json::Bool(b) => JsonView::Bool(b),
        Json::Unsigned(n) => JsonView::Number(number_from(n)),
        Json::OtherNumber(n) => JsonView::Number(n),
        Json::Text(text) => JsonView::Text(text@),
        Json::Array(items) => JsonView::Array(item_views(items@)),
        Json::Object(members) => JsonView::Object(member_views(members@)),
    }
}

/// What the items of an array say.
pub open spec fn item_views(items: Seq<Json>) -> Seq<JsonView>
    decreases items,
{
    if items.len() == 0 {
        Seq::empty()
    } else {
        item_views(items.drop_last()).push(json_view(items.last()))
    }
}

/// What the members of an object say. A later member replaces an earlier one of its name.
pub open spec fn member_views(members: Seq<(String, Json)>) -> Map<Seq<char>, JsonView>
    decreases members,
{
    if members.len() == 0 {
        Map::empty()
    } else {
        member_views(members.drop_last()).insert(members.last().0@, json_view(members.last().1))
    }
}

/// `serde_json::Number::from`, for a `u64`. The result is named; all that is said of it besides
/// is that no other `u64` gives the same number.
#[verifier::external_body]
fn number(n: u64) -> (result: serde_json::Number)
    ensures
        result == number_from(n),
        forall|m: u64| #[trigger] number_from(m) == result ==> m == n,
{
    serde_json::Number::from(n)
}

/// `serde_json::Number::as_u64`: the `u64` that the number is made of; nothing where it is made
/// of none.
#[verifier::external_body]
fn as_unsigned(n: &serde_json::Number) -> (value: Option<u64>)
    ensures
        match value {
            Some(v) => *n == number_from(v),
            None => forall|v: u64| *n != #[trigger] number_from(v),
        },
{
    n.as_u64()
}

impl Json {
    /// The JSON value of a number that was parsed: an `Unsigned` where it is a `u64`, else the
    /// number as it is. Either way the value says the number.
    pub fn from_number(n: serde_json::Number) -> (json: Json)
        ensures
            json@ == JsonView::Number(n),
            match json {
                Json::Unsigned(v) => n == number_from(v),
                Json::OtherNumber(m) => m == n && forall|v: u64| n != #[trigger] number_from(v),
                _ => false,
            },
    {
        match as_unsigned(&n) {
            Some(v) => Json::Unsigned(v),
            None => Json::OtherNumber(n),
        }
    }
}

/// The variant `serde_json::Value::Null`: the value says null.
#[verifier::external_body]
fn null_value() -> (value: serde_json::Value)
    ensures
        value_view(value) == JsonView::Null,
{
    serde_json::Value::Null
}

/// The variant `serde_json::Value::Bool`: the value says the given truth value.
#[verifier::external_body]
fn bool_value(b: bool) -> (value: serde_json::Value)
    ensures
        value_view(value) == JsonView::Bool(b),
{
    serde_json::Value::Bool(b)
}

/// The variant `serde_json::Value::Number`: the value says the given number.
#[verifier::external_body]
fn number_value(n: &serde_json::Number) -> (value: serde_json::Value)
    ensures
        value_view(value) == JsonView::Number(*n),
{
    serde_json::Value::Number(n.clone())
}

/// The variant `serde_json::Value::String`: the value says the given text.
#[verifier::external_body]
fn text_value(text: String) -> (value: serde_json::Value)
    ensures
        value_view(value) == JsonView::Text(text@),
{
    serde_json::Value::String(text)
}

/// The variant `serde_json::Value::Array`: the value says what the items say, in their order.
#[verifier::external_body]
fn array_value(items: Vec<serde_json::Value>) -> (value: serde_json::Value)
    ensures
        value_view(value) == JsonView::Array(
            Seq::new(items@.len(), |i: int| value_view(items@[i])),
        ),
{
    serde_json::Value::Array(items)
}

/// The variant `serde_json::Value::Object` with `serde_json::Map::new`: the value is an object
/// without members.
#[verifier::external_body]
fn empty_object() -> (value: serde_json::Value)
    ensures
        value_view(value) == JsonView::Object(Map::empty()),
{
    serde_json::Value::Object(serde_json::Map::new())
}

/// `serde_json::Map::insert`, on the map that `serde_json::Value::as_object_mut` finds in an
/// object: the member is added, in place of one of its name where there was one.
#[verifier::external_body]
fn insert_member(object: &mut serde_json::Value, name: String, value: serde_json::Value)
    requires
        value_view(*old(object)) is Object,
    ensures
        value_view(*final(object)) == JsonView::Object(
            value_view(*old(object))->Object_0.insert(name@, value_view(value)),
        ),
{
    object.as_object_mut().unwrap().insert(name, value);
}

/// `serde_json::to_string`, with an empty text for an error: the text is a function of what
/// the value says, and is named. How a value is written is left to `serde_json`.
#[verifier::external_body]
fn value_to_string(value: &serde_json::Value) -> (text: String)
    ensures
        text@ == compact_text(value_view(*value)),
{
    serde_json::to_string(value).unwrap_or_default()
}

/// Every item says on its own what it says as a part of the list.
pub(crate) proof fn lemma_item_views(items: Seq<Json>)
    ensures
        item_views(items).len() == items.len(),
        forall|i: int|
            0 <= i < items.len() ==> #[trigger] item_views(items)[i] == json_view(items[i]),
    decreases items,
{
    if items.len() > 0 {
        lemma_item_views(items.drop_last());
    }
}

/// Builds the `serde_json` value that says the same.
fn to_value(json: &Json) -> (value: serde_json::Value)
    ensures
        value_view(value) == json_view(*json),
    decreases json,
{
    match json {
        Json::Null => null_value(),
        Json::Bool(b) => bool_value(*b),
        Json::Unsigned(n) => number_value(&number(*n)),
        Json::OtherNumber(n) => number_value(n),
        Json::Text(text) => text_value(text.clone()),
        Json::Array(items) => {
            let mut values: Vec<serde_json::Value> = Vec::new();
            let mut i: usize = 0;
            while i < items.len()
                invariant
                    i <= items@.len(),
                    values@.len() == i,
                    *json == Json::Array(*items),
                    forall|k: int|
                        0 <= k < i ==> #[trigger] value_view(values@[k]) == json_view(items@[k]),
                decreases items@.len() - i,
            {
                assert(decreases_to!(json => json->Array_0));
                assert(decreases_to!(items => items[i as int]));
                values.push(to_value(&items[i]));
                i = i + 1;
            }
            proof {
                lemma_item_views(items@);
                assert(Seq::new(values@.len(), |k: int| value_view(values@[k])) =~= item_views(
                    items@,
                ));
            }
            array_value(values)
        },
        Json::Object(members) => {
            let mut object = empty_object();
            let mut i: usize = 0;
            assert(members@.take(0) =~= Seq::empty());
            while i < members.len()
                invariant
                    i <= members@.len(),
                    *json == Json::Object(*members),
                    value_view(object) == JsonView::Object(member_views(members@.take(i as int))),
                decreases members@.len() - i,
            {
                assert(decreases_to!(json => json->Object_0));
                assert(decreases_to!(members => members[i as int]));
                let value = to_value(&members[i].1);
                insert_member(&mut object, members[i].0.clone(), value);
                assert(members@.take(i + 1).drop_last() =~= members@.take(i as int));
                i = i + 1;
            }
            assert(members@.take(members@.len() as int) =~= members@);
            object
        },
    }
}

/// The compact text of a JSON value.
pub fn to_compact_text(json: &Json) -> (text: String)
    ensures
        text@ == compact_text(json@),
{
    value_to_string(&to_value(json))
}

} // verus!
