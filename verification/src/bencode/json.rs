//! The decoded value as a `serde_json::Value`, and the text of each error.
use crate::bencode::types::{
    lemma_view_entries, lemma_view_items, view_entries, view_items, DecodeError, Failure, Json,
    JsonValue,
};
use vstd::prelude::*;

verus! {

#[verifier::external_type_specification]
#[verifier::external_body]
pub struct ExSerdeValue(serde_json::Value);

#[verifier::external_type_specification]
#[verifier::external_body]
#[verifier::reject_recursive_types(K)]
#[verifier::reject_recursive_types(V)]
pub struct ExSerdeMap<K, V>(serde_json::Map<K, V>);

/// What `serde_json::Value::from(o)` gives for an `Option<isize>`: `Null`
/// for `None`, the number for `Some`.
pub uninterp spec fn serde_option_of(o: Option<isize>) -> serde_json::Value;

/// What `serde_json::Value::from(s)` gives for a `String`.
pub uninterp spec fn serde_string_of(s: Seq<char>) -> serde_json::Value;

/// What `serde_json::Value::Array(items)` is.
pub uninterp spec fn serde_array_of(items: Seq<serde_json::Value>) -> serde_json::Value;

/// What `serde_json::Value::from_iter(entries)` gives for key-value pairs.
pub uninterp spec fn serde_object_of(entries: Seq<(Seq<char>, serde_json::Value)>) -> serde_json::Value;

/// The `Debug` text of a character, as `format!("{:?}", c)` writes it.
pub uninterp spec fn char_debug_of(c: char) -> Seq<char>;

/// The `Debug` text of a `serde_json::Value`, as `format!("{:?}", v)` writes
/// it.
pub uninterp spec fn value_debug_of(v: serde_json::Value) -> Seq<char>;

/// What `serde_json::Map::from_iter(entries)` gives for key-value pairs.
pub uninterp spec fn serde_map_of(entries: Seq<(Seq<char>, serde_json::Value)>) -> serde_json::Map<
    String,
    serde_json::Value,
>;

/// The `Debug` text of a `serde_json::Map`, as `format!("{:?}", m)` writes it.
pub uninterp spec fn map_debug_of(m: serde_json::Map<String, serde_json::Value>) -> Seq<char>;

/// `serde_json::Value::from(o)` for an `Option<isize>`, which is
/// `Value::Null` for `None` and a `Value::Number` for `Some`; the result is
/// named, not described.
#[verifier::external_body]
fn serde_from_option(o: Option<isize>) -> (r: serde_json::Value)
    ensures
        r == serde_option_of(o),
{
    serde_json::Value::from(o)
}

/// `serde_json::Value::from(s)` for a `String`, which is `Value::String(s)`;
/// the result is named, not described.
#[verifier::external_body]
fn serde_string(s: String) -> (r: serde_json::Value)
    ensures
        r == serde_string_of(s@),
{
    serde_json::Value::from(s)
}

/// `serde_json::Value::Array(items)`; the result is named, not described.
#[verifier::external_body]
fn serde_array(items: Vec<serde_json::Value>) -> (r: serde_json::Value)
    ensures
        r == serde_array_of(items@),
{
    serde_json::Value::Array(items)
}

/// `serde_json::Value::from_iter(entries)` for key-value pairs, which
/// collects them into a `Value::Object`; the result is named, not described.
#[verifier::external_body]
fn serde_object(entries: Vec<(String, serde_json::Value)>) -> (r: serde_json::Value)
    ensures
        r == serde_object_of(entries@.map_values(|e: (String, serde_json::Value)| (e.0@, e.1))),
{
    serde_json::Value::from_iter(entries)
}

/// The `Debug` text of a character (`format!("{:?}", c)`); the result is
/// named, not described.
#[verifier::external_body]
fn char_debug(c: char) -> (r: String)
    ensures
        r@ == char_debug_of(c),
{
    format!("{:?}", c)
}

/// The `Debug` text of a `serde_json::Value` (`format!("{:?}", v)`); the
/// result is named, not described.
#[verifier::external_body]
fn value_debug(v: &serde_json::Value) -> (r: String)
    ensures
        r@ == value_debug_of(*v),
{
    format!("{:?}", v)
}

/// `serde_json::Map::from_iter(entries)` for key-value pairs; the result is
/// named, not described.
#[verifier::external_body]
fn serde_map(entries: Vec<(String, serde_json::Value)>) -> (r: serde_json::Map<
    String,
    serde_json::Value,
>)
    ensures
        r == serde_map_of(entries@.map_values(|e: (String, serde_json::Value)| (e.0@, e.1))),
{
    serde_json::Map::from_iter(entries)
}

/// The `Debug` text of a `serde_json::Map` (`format!("{:?}", m)`); the
/// result is named, not described.
#[verifier::external_body]
fn map_debug(m: &serde_json::Map<String, serde_json::Value>) -> (r: String)
    ensures
        r@ == map_debug_of(*m),
{
    format!("{:?}", m)
}

/// The `serde_json::Value` that a decoded value becomes.
pub open spec fn serde_of(j: Json) -> serde_json::Value
    decreases j,
{
    match j {
        Json::Null => serde_option_of(None),
        Json::Number(n) => serde_option_of(Some(n as isize)),
        Json::Str(s) => serde_string_of(s),
        Json::Array(items) => serde_array_of(serde_items(items)),
        Json::Object(entries) => serde_object_of(serde_entries(entries)),
    }
}

pub open spec fn serde_items(items: Seq<Json>) -> Seq<serde_json::Value>
    decreases items,
{
    if items.len() == 0 {
        Seq::empty()
    } else {
        serde_items(items.drop_last()).push(serde_of(items.last()))
    }
}

pub open spec fn serde_entries(entries: Seq<(Seq<char>, Json)>) -> Seq<(Seq<char>, serde_json::Value)>
    decreases entries,
{
    if entries.len() == 0 {
        Seq::empty()
    } else {
        serde_entries(entries.drop_last()).push((entries.last().0, serde_of(entries.last().1)))
    }
}

proof fn lemma_serde_items(items: Seq<Json>)
    ensures
        serde_items(items).len() == items.len(),
        forall|i: int| 0 <= i < items.len() ==> #[trigger] serde_items(items)[i] == serde_of(items[i]),
    decreases items.len(),
{
    if items.len() > 0 {
        lemma_serde_items(items.drop_last());
    }
}

proof fn lemma_serde_entries(entries: Seq<(Seq<char>, Json)>)
    ensures
        serde_entries(entries).len() == entries.len(),
        forall|i: int|
            0 <= i < entries.len() ==> #[trigger] serde_entries(entries)[i] == (
                entries[i].0,
                serde_of(entries[i].1),
            ),
    decreases entries.len(),
{
    if entries.len() > 0 {
        lemma_serde_entries(entries.drop_last());
    }
}

/// The `serde_json` image of a decoded value, part by part: `Null` is
/// `Value::from(None)`, an integer `Value::from(Some(n))`, a string
/// `Value::from(s)` whatever characters it holds (a numeral or none at all),
/// a list the array of the images of its items, item by item in order, and
/// a dictionary the object built from each key paired with the image of its
/// value, entry by entry in order.
pub proof fn serde_image_by_parts(j: Json)
    ensures
        j is Null ==> serde_of(j) == serde_option_of(None),
        j matches Json::Number(n) ==> serde_of(j) == serde_option_of(Some(n as isize)),
        j matches Json::Str(s) ==> serde_of(j) == serde_string_of(s),
        j matches Json::Array(items) ==> serde_of(j) == serde_array_of(
            Seq::new(items.len(), |i: int| serde_of(items[i])),
        ),
        j matches Json::Object(e) ==> serde_of(j) == serde_object_of(
            Seq::new(e.len(), |i: int| (e[i].0, serde_of(e[i].1))),
        ),
{
    match j {
        Json::Array(items) => {
            lemma_serde_items(items);
            assert(serde_items(items) =~= Seq::new(items.len(), |i: int| serde_of(items[i])));
        },
        Json::Object(e) => {
            lemma_serde_entries(e);
            assert(serde_entries(e) =~= Seq::new(e.len(), |i: int| (e[i].0, serde_of(e[i].1))));
        },
        _ => {},
    }
}

/// The decoded value as a `serde_json::Value`; `Null` becomes
/// `Value::Null`.
pub fn to_serde(v: &JsonValue) -> (r: serde_json::Value)
    ensures
        r == serde_of(v@),
    decreases v,
{
    match v {
        JsonValue::Null => serde_from_option(None),
        JsonValue::Number(n) => serde_from_option(Some(*n)),
        JsonValue::String(s) => serde_string(s.clone()),
        JsonValue::Array(a) => {
            let mut out: Vec<serde_json::Value> = Vec::new();
            let mut i: usize = 0;
            while i < a.len()
                invariant
                    *v == JsonValue::Array(*a),
                    i <= a.len(),
                    out.len() == i,
                    forall|j: int| 0 <= j < i ==> #[trigger] out@[j] == serde_of(a@[j]@),
                decreases a.len() - i,
            {
                proof {
                    let ghost w = *v;
                    let ghost items = *a;
                    assert(decreases_to!(w => w->Array_0));
                    assert(decreases_to!(items => items@));
                    assert(decreases_to!(items@ => items@[i as int]));
                }
                let x = to_serde(&a[i]);
                out.push(x);
                i = i + 1;
            }
            proof {
                lemma_view_items(a@);
                lemma_serde_items(view_items(a@));
                assert(out@ =~= serde_items(view_items(a@)));
            }
            serde_array(out)
        },
        JsonValue::Object(e) => {
            proof {
                let ghost w = *v;
                assert(decreases_to!(w => w->Object_0));
            }
            serde_object(serde_entry_list(e))
        },
    }
}


/// The text of an error: a fixed sentence, with the character, the numeral
/// or the `Debug` text of the value that caused it where it names one.
pub open spec fn message_holds(f: Failure, text: Seq<char>) -> bool {
    match f {
        Failure::EmptyInput => text == "Empty encoded value"@,
        Failure::UnhandledValue => text == "Unhandled encoded value"@,
        Failure::NoOpenContainer => text == "No open container to close"@,
        Failure::NotAContainer => text == "open_container was not a List or a Dictionary"@,
        Failure::KindMismatch => text == "Unable to match on context.current_kind"@,
        Failure::IntegerKindChar => text == "Unable to match a character for _integer_kind"@,
        Failure::StringKindChar(c) => text == "Unable to match character '"@ + char_debug_of(c)
            + "' in _string_kind CharacterProcessor."@,
        Failure::InvalidInteger => text == "invalid integer"@,
        Failure::InvalidStringLength(s) => text == "Invalid string length: "@ + s,
        Failure::InvalidValueLocation => text == "invalid value location"@,
        Failure::NotAString(v) => text == "Value is not a String "@ + value_debug_of(serde_of(v)),
        Failure::NoNullKey(e) => text == "Unable to fine NULL value to place new object: "@
            + map_debug_of(serde_map_of(serde_entries(e))),
        Failure::CannotCreateArray(v) => text == "cannot create array at current value: "@
            + value_debug_of(serde_of(v)),
        Failure::CannotCreateObject(v) => text == "cannot create object at current value: "@
            + value_debug_of(serde_of(v)),
    }
}

/// `prefix` followed by `rest`.
fn joined(prefix: &str, rest: &str) -> (r: String)
    ensures
        r@ == prefix@ + rest@,
{
    let mut r = String::from_str(prefix);
    r.append(rest);
    r
}

impl DecodeError {
    /// The text that explains the error.
    pub fn message(&self) -> (r: String)
        ensures
            message_holds(self@, r@),
    {
        match self {
            DecodeError::EmptyInput => String::from_str("Empty encoded value"),
            DecodeError::UnhandledValue => String::from_str("Unhandled encoded value"),
            DecodeError::NoOpenContainer => String::from_str("No open container to close"),
            DecodeError::NotAContainer => String::from_str(
                "open_container was not a List or a Dictionary",
            ),
            DecodeError::KindMismatch => String::from_str("Unable to match on context.current_kind"),
            DecodeError::IntegerKindChar => String::from_str(
                "Unable to match a character for _integer_kind",
            ),
            DecodeError::StringKindChar(c) => {
                let mut r = String::from_str("Unable to match character '");
                let d = char_debug(*c);
                r.append(d.as_str());
                r.append("' in _string_kind CharacterProcessor.");
                r
            },
            DecodeError::InvalidInteger => String::from_str("invalid integer"),
            DecodeError::InvalidStringLength(s) => joined("Invalid string length: ", s.as_str()),
            DecodeError::InvalidValueLocation => String::from_str("invalid value location"),
            DecodeError::NotAString(v) => {
                let d = value_debug(&to_serde(v));
                joined("Value is not a String ", d.as_str())
            },
            DecodeError::NoNullKey(entries) => {
                let d = map_debug(&serde_map(serde_entry_list(entries)));
                joined("Unable to fine NULL value to place new object: ", d.as_str())
            },
            DecodeError::CannotCreateArray(v) => {
                let d = value_debug(&to_serde(v));
                joined("cannot create array at current value: ", d.as_str())
            },
            DecodeError::CannotCreateObject(v) => {
                let d = value_debug(&to_serde(v));
                joined("cannot create object at current value: ", d.as_str())
            },
        }
    }
}

/// The entries of a dictionary with their values as `serde_json::Value`s.
fn serde_entry_list(e: &Vec<(String, JsonValue)>) -> (r: Vec<(String, serde_json::Value)>)
    ensures
        r@.map_values(
            |p: (String, serde_json::Value)| (p.0@, p.1),
        ) == serde_entries(view_entries(e@)),
    decreases e,
{
    let mut out: Vec<(String, serde_json::Value)> = Vec::new();
    let mut i: usize = 0;
    while i < e.len()
        invariant
            i <= e.len(),
            out.len() == i,
            forall|j: int|
                0 <= j < i ==> (#[trigger] out@[j]).0@ == e@[j].0@ && out@[j].1 == serde_of(
                    e@[j].1@,
                ),
        decreases e.len() - i,
    {
        assert(decreases_to!(*e => e@[i as int].1));
        let x = to_serde(&e[i].1);
        out.push((e[i].0.clone(), x));
        i = i + 1;
    }
    proof {
        lemma_view_entries(e@);
        lemma_serde_entries(view_entries(e@));
        assert(out@.map_values(|p: (String, serde_json::Value)| (p.0@, p.1)) =~= serde_entries(
            view_entries(e@),
        ));
    }
    out
}

} // verus!
