//! JSON values of the `serde_json` crate, and what they hold.
use vstd::prelude::*;

verus! {

/// What a JSON value holds.
pub enum Json {
    Null,
    Bool(bool),
    /// A number, as it is written.
    Number(Seq<char>),
    Str(Seq<char>),
    Array(Seq<Json>),
    /// The fields of an object, in the order in which the object is walked.
    Object(Seq<(Seq<char>, Json)>),
}

#[verifier::external_type_specification]
#[verifier::external_body]
pub struct ExValue(serde_json::Value);

#[verifier::external_type_specification]
#[verifier::external_body]
#[verifier::reject_recursive_types(K)]
#[verifier::reject_recursive_types(V)]
pub struct ExMap<K, V>(serde_json::Map<K, V>);

/// What a value holds.
pub uninterp spec fn json_of(value: serde_json::Value) -> Json;

/// The fields of an object, in the order in which it is walked.
pub uninterp spec fn entries_of(map: serde_json::Map<String, serde_json::Value>) -> Seq<
    (Seq<char>, Json),
>;

/// The text that `serde_json` writes for a value.
pub uninterp spec fn json_text(json: Json) -> Seq<char>;

/// The first field with the given name.
pub open spec fn field(entries: Seq<(Seq<char>, Json)>, name: Seq<char>) -> Option<Json>
    decreases entries.len(),
{
    if entries.len() == 0 {
        None
    } else if entries[0].0 == name {
        Some(entries[0].1)
    } else {
        field(entries.skip(1), name)
    }
}

/// Whether no name occurs twice.
pub open spec fn names_once(entries: Seq<(Seq<char>, Json)>) -> bool {
    forall|i: int, j: int|
        #![trigger entries[i], entries[j]]
        0 <= i < j < entries.len() ==> entries[i].0 != entries[j].0
}

/// The fields that result when pairs are put in one after the other, so that a
/// later pair replaces an earlier one of the same name.
pub open spec fn collected(pairs: Seq<(Seq<char>, Json)>) -> Map<Seq<char>, Json>
    decreases pairs.len(),
{
    if pairs.len() == 0 {
        Map::empty()
    } else {
        collected(pairs.drop_last()).insert(pairs.last().0, pairs.last().1)
    }
}

/// The decimal digits of a number.
pub open spec fn decimal(n: nat) -> Seq<char>
    decreases n,
{
    if n < 10 {
        seq![('0' as nat + n) as char]
    } else {
        decimal(n / 10).push(('0' as nat + n % 10) as char)
    }
}

impl Json {
    /// The field of an object with the given name.
    pub open spec fn get(self, name: Seq<char>) -> Option<Json> {
        match self {
            Json::Object(entries) => field(entries, name),
            _ => None,
        }
    }

    /// The fields of an object, whatever their order.
    pub open spec fn fields(self) -> Map<Seq<char>, Json> {
        Map::new(|name: Seq<char>| self.get(name) is Some, |name: Seq<char>| self.get(name)->Some_0)
    }

    /// Whether the value is an object with exactly these fields, each of them
    /// once.
    pub open spec fn is_object_of(self, fields: Map<Seq<char>, Json>) -> bool {
        self is Object && names_once(self->Object_0) && self.fields() == fields
    }
}

/// A field is the content of one of the entries.
pub proof fn lemma_field_is_entry(entries: Seq<(Seq<char>, Json)>, name: Seq<char>)
    ensures
        field(entries, name) is Some ==> exists|i: int|
            0 <= i < entries.len() && (#[trigger] entries[i]).1 == field(entries, name)->Some_0,
    decreases entries.len(),
{
    if entries.len() > 0 && entries[0].0 != name {
        let rest = entries.skip(1);
        lemma_field_is_entry(rest, name);
        if field(rest, name) is Some {
            let i = choose|i: int|
                0 <= i < rest.len() && (#[trigger] rest[i]).1 == field(rest, name)->Some_0;
            assert(entries[i + 1].1 == field(entries, name)->Some_0);
        }
    } else if entries.len() > 0 {
        assert(entries[0].1 == field(entries, name)->Some_0);
    }
}

/// Whether two values are the same but for the order of the fields of objects.
pub open spec fn same_json(a: Json, b: Json) -> bool
    decreases a,
{
    match (a, b) {
        (Json::Array(x), Json::Array(y)) => x.len() == y.len() && forall|i: int|
            0 <= i < x.len() ==> same_json(#[trigger] x[i], y[i]),
        (Json::Object(x), Json::Object(_)) => {
            proof {
                assert forall|name: Seq<char>| (#[trigger] field(x, name)) is Some implies
                    decreases_to!(a => field(x, name)->Some_0) by {
                    lemma_field_is_entry(x, name);
                    let i = choose|i: int|
                        0 <= i < x.len() && (#[trigger] x[i]).1 == field(x, name)->Some_0;
                    assert(decreases_to!(a => x[i].1));
                }
            }
            forall|name: Seq<char>|
                match (#[trigger] a.get(name), b.get(name)) {
                    (Some(v), Some(w)) => same_json(v, w),
                    (None, None) => true,
                    _ => false,
                }
        },
        _ => a == b,
    }
}

/// Every value is the same as itself.
pub proof fn lemma_same_json_reflexive(a: Json)
    ensures
        same_json(a, a),
    decreases a,
{
    match a {
        Json::Array(x) => {
            assert forall|i: int| 0 <= i < x.len() implies same_json(#[trigger] x[i], x[i]) by {
                lemma_same_json_reflexive(x[i]);
            }
        },
        Json::Object(x) => {
            assert forall|name: Seq<char>| (#[trigger] a.get(name)) is Some implies same_json(
                a.get(name)->Some_0,
                a.get(name)->Some_0,
            ) by {
                lemma_field_is_entry(x, name);
                let i = choose|i: int|
                    0 <= i < x.len() && (#[trigger] x[i]).1 == field(x, name)->Some_0;
                lemma_same_json_reflexive(x[i].1);
            }
        },
        _ => {},
    }
}

/// Objects with the same fields are the same.
pub proof fn lemma_same_fields(a: Json, b: Json)
    requires
        a is Object,
        b is Object,
        a.fields() == b.fields(),
    ensures
        same_json(a, b),
{
    assert forall|name: Seq<char>|
        match (#[trigger] a.get(name), b.get(name)) {
            (Some(v), Some(w)) => same_json(v, w),
            (None, None) => true,
            _ => false,
        } by {
        assert(a.fields().dom().contains(name) == (a.get(name) is Some));
        assert(b.fields().dom().contains(name) == (b.get(name) is Some));
        if a.get(name) is Some {
            assert(a.fields()[name] == a.get(name)->Some_0);
            assert(b.fields()[name] == b.get(name)->Some_0);
            lemma_same_json_reflexive(a.get(name)->Some_0);
        }
    }
}

/// The fields of objects that are the same are the same.
pub proof fn lemma_field_of_same(a: Json, b: Json, name: Seq<char>)
    requires
        a is Object,
        b is Object,
        same_json(a, b),
    ensures
        a.fields().dom().contains(name) == b.fields().dom().contains(name),
        a.fields().dom().contains(name) ==> same_json(a.fields()[name], b.fields()[name]),
{
    assert(a.get(name) is Some == b.get(name) is Some);
}

/// `serde_json::Value::get` with a name: the field of an object with that
/// name, and nothing for other values.
#[verifier::external_body]
pub(crate) fn value_get<'a>(value: &'a serde_json::Value, name: &str) -> (res: Option<
    &'a serde_json::Value,
>)
    ensures
        res is Some == json_of(*value).get(name@) is Some,
        res is Some ==> json_of(*res->Some_0) == json_of(*value).get(name@)->Some_0,
{
    value.get(name)
}

/// `serde_json::Value::as_object`: the fields of an object, and nothing for
/// other values.
#[verifier::external_body]
pub(crate) fn value_as_object<'a>(value: &'a serde_json::Value) -> (res: Option<
    &'a serde_json::Map<String, serde_json::Value>,
>)
    ensures
        res is Some == json_of(*value) is Object,
        res is Some ==> json_of(*value) == Json::Object(entries_of(*res->Some_0)),
{
    value.as_object()
}

/// `serde_json::Value::as_array`: the elements of an array, and nothing for
/// other values.
#[verifier::external_body]
pub(crate) fn value_as_array<'a>(value: &'a serde_json::Value) -> (res: Option<
    &'a Vec<serde_json::Value>,
>)
    ensures
        res is Some == json_of(*value) is Array,
        res is Some ==> json_of(*value) == Json::Array(
            res->Some_0@.map_values(|v: serde_json::Value| json_of(v)),
        ),
{
    value.as_array()
}

/// `serde_json::Value::as_str`: the text of a string, and nothing for other
/// values.
#[verifier::external_body]
pub(crate) fn value_as_str<'a>(value: &'a serde_json::Value) -> (res: Option<&'a str>)
    ensures
        res is Some == json_of(*value) is Str,
        res is Some ==> json_of(*value) == Json::Str(res->Some_0@),
{
    value.as_str()
}

/// `serde_json::Map::get`: the field with the given name.
#[verifier::external_body]
pub(crate) fn map_get<'a>(
    map: &'a serde_json::Map<String, serde_json::Value>,
    name: &str,
) -> (res: Option<&'a serde_json::Value>)
    ensures
        res is Some == field(entries_of(*map), name@) is Some,
        res is Some ==> json_of(*res->Some_0) == field(entries_of(*map), name@)->Some_0,
{
    map.get(name)
}

/// `serde_json::Map::iter`: all fields, in the order in which the map is
/// walked. No name occurs twice.
#[verifier::external_body]
pub(crate) fn map_entries<'a>(map: &'a serde_json::Map<String, serde_json::Value>) -> (res: Vec<
    (&'a String, &'a serde_json::Value),
>)
    ensures
        res@.len() == entries_of(*map).len(),
        forall|i: int|
            0 <= i < res@.len() ==> entries_of(*map)[i] == (
                (#[trigger] res@[i]).0@,
                json_of(*res@[i].1),
            ),
        forall|i: int, j: int|
            0 <= i < j < res@.len() ==> (#[trigger] res@[i]).0@ != (#[trigger] res@[j]).0@,
{
    map.iter().collect()
}

/// `serde_json::to_string`: the text of a value. What the text looks like is
/// left unsaid, but that it depends on what the value holds and nothing else.
#[verifier::external_body]
pub(crate) fn value_text(value: &serde_json::Value) -> (res: String)
    ensures
        res@ == json_text(json_of(*value)),
{
    serde_json::to_string(value).unwrap_or_default()
}

/// `serde_json::Value::from` of a string.
#[verifier::external_body]
pub(crate) fn string_value(text: String) -> (res: serde_json::Value)
    ensures
        json_of(res) == Json::Str(text@),
{
    serde_json::Value::from(text)
}

/// `serde_json::Value::from` of a truth value.
#[verifier::external_body]
pub(crate) fn bool_value(b: bool) -> (res: serde_json::Value)
    ensures
        json_of(res) == Json::Bool(b),
{
    serde_json::Value::from(b)
}

/// `serde_json::Value::from` of an unsigned number: it is written in decimal.
#[verifier::external_body]
pub(crate) fn number_value(n: u64) -> (res: serde_json::Value)
    ensures
        json_of(res) == Json::Number(decimal(n as nat)),
{
    serde_json::Value::from(n)
}

/// `serde_json::Value::Null`, the value that `default` gives too.
#[verifier::external_body]
pub(crate) fn null_value() -> (res: serde_json::Value)
    ensures
        json_of(res) == Json::Null,
{
    serde_json::Value::Null
}

/// `serde_json::Value::from` of a vector: an array of its elements.
#[verifier::external_body]
pub(crate) fn array_value(items: Vec<serde_json::Value>) -> (res: serde_json::Value)
    ensures
        json_of(res) == Json::Array(items@.map_values(|v: serde_json::Value| json_of(v))),
{
    serde_json::Value::from(items)
}

/// The names and contents of pairs.
pub open spec fn pairs_view(pairs: Seq<(String, serde_json::Value)>) -> Seq<(Seq<char>, Json)> {
    pairs.map_values(|p: (String, serde_json::Value)| (p.0@, json_of(p.1)))
}

/// `serde_json::Value::from_iter` of pairs: an object of them, in which no name
/// occurs twice. The order in which the object is walked is left unsaid.
#[verifier::external_body]
pub(crate) fn object_value(pairs: Vec<(String, serde_json::Value)>) -> (res: serde_json::Value)
    ensures
        json_of(res).is_object_of(collected(pairs_view(pairs@))),
{
    serde_json::Value::from_iter(pairs)
}

} // verus!
