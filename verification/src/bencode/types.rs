//! The decoder's state, the decoded value, and the operations that place a
//! value at the position that the state points to.
use vstd::prelude::*;
use vstd::utf8::encode_utf8;
use crate::bencode::paths::{
    json_at, keys_distinct, lemma_act_keeps_keys_distinct, lemma_open_leads_to_child,
};

verus! {

/// The phases of one encoded value: Start -> Meta -> Data -> End.
/// `5:hello` is `[][5:][hello][]` (a string has no Start or End);
/// `i108e` is `[i][][108][e]` (an integer has no Meta).
#[derive(Debug, Clone, Copy, PartialEq, Eq, Structural)]
pub enum BencodeState {
    Start,
    Meta,
    Data,
    End,
}

#[derive(Debug, Clone, Copy, PartialEq, Eq, Structural)]
pub enum BencodeKind {
    Dictionary,
    Integer,
    List,
    String,
}

/// One step from a value into one of its children.
#[derive(Debug, Clone, PartialEq, Eq)]
pub enum PathItem {
    Key(String),
    Index(usize),
}

/// A step of a path as the specification sees it.
pub ghost enum PathStep {
    Key(Seq<char>),
    Index(int),
}

impl PathItem {
    pub open spec fn step(&self) -> PathStep {
        match self {
            PathItem::Key(k) => PathStep::Key(k@),
            PathItem::Index(i) => PathStep::Index(*i as int),
        }
    }
}

pub open spec fn path_steps(path: Seq<PathItem>) -> Seq<PathStep> {
    Seq::new(path.len(), |i: int| path[i].step())
}

pub open spec fn opt_step(item: Option<PathItem>) -> Option<PathStep> {
    match item {
        Some(p) => Some(p.step()),
        None => None,
    }
}

/// The decoded value as the specification sees it. A dictionary is the list
/// of its entries in the order their keys first appeared.
pub ghost enum Json {
    Null,
    Number(int),
    Str(Seq<char>),
    Array(Seq<Json>),
    Object(Seq<(Seq<char>, Json)>),
}

/// A decoded value: an integer, a string, a list or a dictionary; `Null`
/// stands where no value has been decoded yet. A dictionary keeps its entries
/// in the order their keys first appeared; of its keys that wait for a value,
/// the one that sorts first takes the next, as in a map ordered by key.
#[derive(Debug, PartialEq, Eq)]
pub enum JsonValue {
    Null,
    Number(isize),
    String(String),
    Array(Vec<JsonValue>),
    Object(Vec<(String, JsonValue)>),
}

pub open spec fn view_items(items: Seq<JsonValue>) -> Seq<Json>
    decreases items,
{
    if items.len() == 0 {
        Seq::empty()
    } else {
        view_items(items.drop_last()).push(items.last().view_json())
    }
}

pub open spec fn view_entries(entries: Seq<(String, JsonValue)>) -> Seq<(Seq<char>, Json)>
    decreases entries,
{
    if entries.len() == 0 {
        Seq::empty()
    } else {
        view_entries(entries.drop_last()).push((entries.last().0@, entries.last().1.view_json()))
    }
}

impl JsonValue {
    pub open spec fn view_json(&self) -> Json
        decreases self,
    {
        match self {
            JsonValue::Null => Json::Null,
            JsonValue::Number(n) => Json::Number(*n as int),
            JsonValue::String(s) => Json::Str(s@),
            JsonValue::Array(a) => Json::Array(view_items(a@)),
            JsonValue::Object(o) => Json::Object(view_entries(o@)),
        }
    }
}

impl View for JsonValue {
    type V = Json;

    open spec fn view(&self) -> Json {
        self.view_json()
    }
}

pub proof fn lemma_view_items(items: Seq<JsonValue>)
    ensures
        view_items(items).len() == items.len(),
        forall|i: int| 0 <= i < items.len() ==> #[trigger] view_items(items)[i] == items[i]@,
    decreases items.len(),
{
    if items.len() > 0 {
        lemma_view_items(items.drop_last());
    }
}

pub proof fn lemma_view_entries(entries: Seq<(String, JsonValue)>)
    ensures
        view_entries(entries).len() == entries.len(),
        forall|i: int|
            0 <= i < entries.len() ==> #[trigger] view_entries(entries)[i] == (
                entries[i].0@,
                entries[i].1@,
            ),
    decreases entries.len(),
{
    if entries.len() > 0 {
        lemma_view_entries(entries.drop_last());
    }
}

/// Two lists of values that agree element by element look the same.
pub proof fn lemma_view_items_ext(a: Seq<JsonValue>, b: Seq<JsonValue>)
    requires
        a.len() == b.len(),
        forall|i: int| 0 <= i < a.len() ==> a[i]@ == #[trigger] b[i]@,
    ensures
        view_items(a) == view_items(b),
{
    lemma_view_items(a);
    lemma_view_items(b);
    assert(view_items(a) =~= view_items(b));
}

pub proof fn lemma_view_entries_ext(a: Seq<(String, JsonValue)>, b: Seq<(String, JsonValue)>)
    requires
        a.len() == b.len(),
        forall|i: int|
            0 <= i < a.len() ==> a[i].0@ == (#[trigger] b[i]).0@ && a[i].1@ == b[i].1@,
    ensures
        view_entries(a) == view_entries(b),
{
    lemma_view_entries(a);
    lemma_view_entries(b);
    assert(view_entries(a) =~= view_entries(b));
}

/// The first entry from `i` on whose key is `key`, or -1.
pub open spec fn find_key_from(entries: Seq<(Seq<char>, Json)>, key: Seq<char>, i: int) -> int
    decreases entries.len() - i,
{
    if i < 0 || i >= entries.len() {
        -1
    } else if entries[i].0 == key {
        i
    } else {
        find_key_from(entries, key, i + 1)
    }
}

/// `a` comes before `b` byte by byte, a proper prefix first: the order in
/// which Rust compares `String`s.
pub open spec fn bytes_lt(a: Seq<u8>, b: Seq<u8>) -> bool
    decreases a.len(),
{
    if b.len() == 0 {
        false
    } else if a.len() == 0 {
        true
    } else if a[0] != b[0] {
        a[0] < b[0]
    } else {
        bytes_lt(a.drop_first(), b.drop_first())
    }
}

/// Key `a` sorts before key `b`: their UTF-8 bytes compare so.
pub open spec fn key_lt(a: Seq<char>, b: Seq<char>) -> bool {
    bytes_lt(encode_utf8(a), encode_utf8(b))
}

/// The entry that takes the next value: of the entries still waiting for
/// one (`Null`), the one whose key sorts first, the earlier of two equal
/// keys; -1 where none waits.
pub open spec fn waiting_entry(entries: Seq<(Seq<char>, Json)>) -> int
    decreases entries.len(),
{
    if entries.len() == 0 {
        -1
    } else {
        let p = waiting_entry(entries.drop_last());
        if entries.last().1 is Null && (p < 0 || key_lt(entries.last().0, entries[p].0)) {
            entries.len() - 1
        } else {
            p
        }
    }
}

/// A dictionary after `key` is set to `value`: the entry with that key gets
/// the new value in place, or a new entry is added at the end.
pub open spec fn object_insert(entries: Seq<(Seq<char>, Json)>, key: Seq<char>, value: Json) -> Seq<
    (Seq<char>, Json),
> {
    let p = find_key_from(entries, key, 0);
    if p >= 0 {
        entries.update(p, (key, value))
    } else {
        entries.push((key, value))
    }
}

/// What can be done at the position that the path points to.
pub ghost enum NodeAction {
    /// Place a finished value.
    Place(Json),
    /// Open a new list.
    OpenArray,
    /// Open a new dictionary.
    OpenObject,
}

/// Why a character could not be taken.
pub ghost enum Failure {
    EmptyInput,
    UnhandledValue,
    NoOpenContainer,
    NotAContainer,
    KindMismatch,
    IntegerKindChar,
    StringKindChar(char),
    InvalidInteger,
    InvalidStringLength(Seq<char>),
    InvalidValueLocation,
    NotAString(Json),
    NoNullKey(Seq<(Seq<char>, Json)>),
    CannotCreateArray(Json),
    CannotCreateObject(Json),
}

/// Why decoding stopped.
#[derive(Debug, PartialEq, Eq)]
pub enum DecodeError {
    /// The input holds no character.
    EmptyInput,
    /// A character cannot start a value.
    UnhandledValue,
    /// An `e` closes a container where none is open.
    NoOpenContainer,
    /// The innermost open container is neither a list nor a dictionary.
    NotAContainer,
    /// The kind of the value being read allows no further character.
    KindMismatch,
    /// An integer holds a character other than a digit, `-` or the closing `e`.
    IntegerKindChar,
    /// A string's length holds a character other than a digit or `:`.
    StringKindChar(char),
    /// The characters of an integer are no `isize` numeral.
    InvalidInteger,
    /// The characters before `:` are no `usize` numeral.
    InvalidStringLength(String),
    /// The path no longer leads to a value.
    InvalidValueLocation,
    /// A dictionary waits for a key and gets something other than a string.
    NotAString(JsonValue),
    /// A container is opened inside a dictionary that waits for a key.
    NoNullKey(Vec<(String, JsonValue)>),
    /// A list is opened where a finished integer or string stands.
    CannotCreateArray(JsonValue),
    /// A dictionary is opened where a finished integer or string stands.
    CannotCreateObject(JsonValue),
}

impl View for DecodeError {
    type V = Failure;

    open spec fn view(&self) -> Failure {
        match self {
            DecodeError::EmptyInput => Failure::EmptyInput,
            DecodeError::UnhandledValue => Failure::UnhandledValue,
            DecodeError::NoOpenContainer => Failure::NoOpenContainer,
            DecodeError::NotAContainer => Failure::NotAContainer,
            DecodeError::KindMismatch => Failure::KindMismatch,
            DecodeError::IntegerKindChar => Failure::IntegerKindChar,
            DecodeError::StringKindChar(c) => Failure::StringKindChar(*c),
            DecodeError::InvalidInteger => Failure::InvalidInteger,
            DecodeError::InvalidStringLength(s) => Failure::InvalidStringLength(s@),
            DecodeError::InvalidValueLocation => Failure::InvalidValueLocation,
            DecodeError::NotAString(v) => Failure::NotAString(v@),
            DecodeError::NoNullKey(e) => Failure::NoNullKey(view_entries(e@)),
            DecodeError::CannotCreateArray(v) => Failure::CannotCreateArray(v@),
            DecodeError::CannotCreateObject(v) => Failure::CannotCreateObject(v@),
        }
    }
}

/// The action applied to the value the path leads to: the new value there and
/// the step into a newly opened child, if any.
pub open spec fn act_here(node: Json, action: NodeAction) -> Result<(Json, Option<PathStep>), Failure> {
    match action {
        NodeAction::Place(v) => match node {
            Json::Array(a) => Ok((Json::Array(a.push(v)), None)),
            Json::Object(e) => {
                let p = waiting_entry(e);
                if p >= 0 {
                    Ok((Json::Object(e.update(p, (e[p].0, v))), None))
                } else {
                    match v {
                        Json::Str(s) => Ok((Json::Object(object_insert(e, s, Json::Null)), None)),
                        _ => Err(Failure::NotAString(v)),
                    }
                }
            },
            _ => Ok((v, None)),
        },
        NodeAction::OpenArray => match node {
            Json::Array(a) => Ok(
                (Json::Array(a.push(Json::Array(Seq::empty()))), Some(PathStep::Index(a.len() as int))),
            ),
            Json::Object(e) => {
                let p = waiting_entry(e);
                if p >= 0 {
                    Ok(
                        (
                            Json::Object(e.update(p, (e[p].0, Json::Array(Seq::empty())))),
                            Some(PathStep::Key(e[p].0)),
                        ),
                    )
                } else {
                    Err(Failure::NoNullKey(e))
                }
            },
            Json::Null => Ok((Json::Array(Seq::empty()), None)),
            _ => Err(Failure::CannotCreateArray(node)),
        },
        NodeAction::OpenObject => match node {
            Json::Object(e) => {
                let p = waiting_entry(e);
                if p >= 0 {
                    Ok(
                        (
                            Json::Object(e.update(p, (e[p].0, Json::Object(Seq::empty())))),
                            Some(PathStep::Key(e[p].0)),
                        ),
                    )
                } else {
                    Err(Failure::NoNullKey(e))
                }
            },
            Json::Array(a) => Ok(
                (
                    Json::Array(a.push(Json::Object(Seq::empty()))),
                    Some(PathStep::Index(a.len() as int)),
                ),
            ),
            Json::Null => Ok((Json::Object(Seq::empty()), None)),
            _ => Err(Failure::CannotCreateObject(node)),
        },
    }
}

/// The action applied at the end of `path`, walked from `node`: the new
/// `node` and the step into a newly opened child, if any.
pub open spec fn act_at(node: Json, path: Seq<PathStep>, action: NodeAction) -> Result<
    (Json, Option<PathStep>),
    Failure,
>
    decreases path.len(),
{
    if path.len() == 0 {
        act_here(node, action)
    } else {
        let rest = path.drop_first();
        match (node, path[0]) {
            (Json::Array(a), PathStep::Index(i)) => {
                if 0 <= i < a.len() {
                    match act_at(a[i], rest, action) {
                        Ok((n, c)) => Ok((Json::Array(a.update(i, n)), c)),
                        Err(f) => Err(f),
                    }
                } else {
                    Err(Failure::InvalidValueLocation)
                }
            },
            (Json::Object(e), PathStep::Key(k)) => {
                let p = find_key_from(e, k, 0);
                if p >= 0 {
                    match act_at(e[p].1, rest, action) {
                        Ok((n, c)) => Ok((Json::Object(e.update(p, (e[p].0, n))), c)),
                        Err(f) => Err(f),
                    }
                } else {
                    Err(Failure::InvalidValueLocation)
                }
            },
            _ => Err(Failure::InvalidValueLocation),
        }
    }
}


/// An action to perform at the position that a path points to.
pub enum NodeOp {
    Place(JsonValue),
    OpenArray,
    OpenObject,
}

impl View for NodeOp {
    type V = NodeAction;

    open spec fn view(&self) -> NodeAction {
        match self {
            NodeOp::Place(v) => NodeAction::Place(v@),
            NodeOp::OpenArray => NodeAction::OpenArray,
            NodeOp::OpenObject => NodeAction::OpenObject,
        }
    }
}

/// A copy of a value.
pub fn clone_value(v: &JsonValue) -> (r: JsonValue)
    ensures
        r@ == v@,
    decreases v,
{
    match v {
        JsonValue::Null => JsonValue::Null,
        JsonValue::Number(n) => JsonValue::Number(*n),
        JsonValue::String(s) => JsonValue::String(s.clone()),
        JsonValue::Array(a) => {
            let mut out: Vec<JsonValue> = Vec::new();
            let mut i: usize = 0;
            while i < a.len()
                invariant
                    *v == JsonValue::Array(*a),
                    i <= a.len(),
                    out.len() == i,
                    forall|j: int| 0 <= j < i ==> (#[trigger] out@[j])@ == a@[j]@,
                decreases a.len() - i,
            {
                proof {
                    let ghost w = *v;
                    let ghost items = *a;
                    assert(decreases_to!(w => w->Array_0));
                    assert(decreases_to!(items => items@));
                    assert(decreases_to!(items@ => items@[i as int]));
                }
                let c = clone_value(&a[i]);
                out.push(c);
                i = i + 1;
            }
            proof {
                lemma_view_items_ext(out@, a@);
            }
            JsonValue::Array(out)
        },
        JsonValue::Object(e) => JsonValue::Object(clone_entries(e)),
    }
}

impl Clone for JsonValue {
    /// A copy of the value, with the same view.
    fn clone(&self) -> (r: Self)
        ensures
            r@ == self@,
    {
        clone_value(self)
    }
}

/// A copy of the entries of a dictionary.
pub fn clone_entries(e: &Vec<(String, JsonValue)>) -> (r: Vec<(String, JsonValue)>)
    ensures
        view_entries(r@) == view_entries(e@),
    decreases e,
{
    let mut out: Vec<(String, JsonValue)> = Vec::new();
    let mut i: usize = 0;
    while i < e.len()
        invariant
            i <= e.len(),
            out.len() == i,
            forall|j: int|
                0 <= j < i ==> (#[trigger] out@[j]).0@ == e@[j].0@ && out@[j].1@ == e@[j].1@,
        decreases e.len() - i,
    {
        assert(decreases_to!(*e => e@[i as int].1));
        let v = clone_value(&e[i].1);
        out.push((e[i].0.clone(), v));
        i = i + 1;
    }
    proof {
        lemma_view_entries_ext(out@, e@);
    }
    out
}


pub proof fn lemma_find_key_range(e: Seq<(Seq<char>, Json)>, key: Seq<char>, i: int)
    ensures
        find_key_from(e, key, i) == -1 || (0 <= i <= find_key_from(e, key, i) < e.len()
            && e[find_key_from(e, key, i)].0 == key),
    decreases e.len() - i,
{
    if 0 <= i < e.len() && e[i].0 != key {
        lemma_find_key_range(e, key, i + 1);
    }
}

/// Byte order is transitive.
pub proof fn lemma_bytes_lt_transitive(a: Seq<u8>, b: Seq<u8>, c: Seq<u8>)
    requires
        bytes_lt(a, b),
        bytes_lt(b, c),
    ensures
        bytes_lt(a, c),
    decreases a.len(),
{
    if a.len() > 0 && a[0] == b[0] && b[0] == c[0] {
        lemma_bytes_lt_transitive(a.drop_first(), b.drop_first(), c.drop_first());
    }
}

/// The entry that takes the next value waits for one, and no waiting entry
/// has a key that sorts before its key: values fill the waiting keys in key
/// order. It is -1 exactly when no entry waits.
pub proof fn waiting_entry_sorts_first(e: Seq<(Seq<char>, Json)>)
    ensures
        waiting_entry(e) == -1 <==> forall|j: int| 0 <= j < e.len() ==> !((#[trigger] e[j]).1 is Null),
        waiting_entry(e) >= 0 ==> waiting_entry(e) < e.len() && e[waiting_entry(e)].1 is Null && forall|
            j: int,
        |
            0 <= j < e.len() && (#[trigger] e[j]).1 is Null ==> !key_lt(e[j].0, e[waiting_entry(e)].0),
        waiting_entry(e) >= -1,
    decreases e.len(),
{
    if e.len() > 0 {
        let d = e.drop_last();
        waiting_entry_sorts_first(d);
        let p = waiting_entry(d);
        let n = e.len() - 1;
        assert forall|j: int| 0 <= j < n implies d[j] == #[trigger] e[j] by {}
        if e.last().1 is Null && (p < 0 || key_lt(e.last().0, e[p].0)) {
            assert forall|j: int| 0 <= j < e.len() && (#[trigger] e[j]).1 is Null implies !key_lt(
                e[j].0,
                e[n].0,
            ) by {
                if j < n {
                    assert(d[j] == e[j]);
                    assert(p >= 0);
                    if key_lt(e[j].0, e[n].0) {
                        lemma_bytes_lt_transitive(
                            encode_utf8(e[j].0),
                            encode_utf8(e[n].0),
                            encode_utf8(e[p].0),
                        );
                    }
                } else {
                    lemma_bytes_lt_irreflexive(encode_utf8(e[n].0));
                }
            }
        } else {
            if p >= 0 {
                assert(e[p] == d[p]);
            }
            assert(e[n] == e.last());
        }
    }
}

/// The order of keys is the byte-wise lexicographic one: `a` sorts before
/// `b` exactly when, after the longest prefix they share, `a` has ended and
/// `b` has not, or `a`'s next byte is the smaller.
pub proof fn byte_order_is_lexicographic(a: Seq<u8>, b: Seq<u8>)
    ensures
        bytes_lt(a, b) <==> exists|i: int|
            0 <= i <= a.len() && i <= b.len() && #[trigger] a.take(i) == b.take(i) && ((i == a.len()
                && i < b.len()) || (i < a.len() && i < b.len() && a[i] < b[i])),
    decreases a.len(),
{
    if a.len() == 0 || b.len() == 0 {
        if a.len() == 0 && b.len() > 0 {
            assert(a.take(0) =~= b.take(0));
        }
        if bytes_lt(a, b) == false {
            assert forall|i: int|
                0 <= i <= a.len() && i <= b.len() && #[trigger] a.take(i) == b.take(i) implies !((i
                == a.len() && i < b.len()) || (i < a.len() && i < b.len() && a[i] < b[i])) by {}
        }
    } else if a[0] != b[0] {
        if a[0] < b[0] {
            assert(a.take(0) =~= b.take(0));
        } else {
            assert forall|i: int|
                0 <= i <= a.len() && i <= b.len() && #[trigger] a.take(i) == b.take(i) implies !((i
                == a.len() && i < b.len()) || (i < a.len() && i < b.len() && a[i] < b[i])) by {
                if i > 0 {
                    assert(a.take(i)[0] == b.take(i)[0]);
                }
            }
        }
    } else {
        let a1 = a.drop_first();
        let b1 = b.drop_first();
        byte_order_is_lexicographic(a1, b1);
        if bytes_lt(a1, b1) {
            let i = choose|i: int|
                0 <= i <= a1.len() && i <= b1.len() && #[trigger] a1.take(i) == b1.take(i) && ((i
                    == a1.len() && i < b1.len()) || (i < a1.len() && i < b1.len() && a1[i] < b1[i]));
            assert(a.take(i + 1) =~= seq![a[0]] + a1.take(i));
            assert(b.take(i + 1) =~= seq![b[0]] + b1.take(i));
            assert(a[i + 1] == a1[i] || i == a1.len());
        } else {
            assert forall|i: int|
                0 <= i <= a.len() && i <= b.len() && #[trigger] a.take(i) == b.take(i) implies !((i
                == a.len() && i < b.len()) || (i < a.len() && i < b.len() && a[i] < b[i])) by {
                if i > 0 {
                    assert(a1.take(i - 1) =~= a.take(i).drop_first());
                    assert(b1.take(i - 1) =~= b.take(i).drop_first());
                    assert(a1.take(i - 1) == b1.take(i - 1));
                    if i < a.len() {
                        assert(a[i] == a1[i - 1]);
                    }
                    if i < b.len() {
                        assert(b[i] == b1[i - 1]);
                    }
                } else {
                    assert(a.take(0).len() == 0);
                }
            }
        }
    }
}

/// Nothing sorts before itself.
pub proof fn lemma_bytes_lt_irreflexive(a: Seq<u8>)
    ensures
        !bytes_lt(a, a),
    decreases a.len(),
{
    if a.len() > 0 {
        lemma_bytes_lt_irreflexive(a.drop_first());
    }
}

/// The position of the entry whose key is `key`, or the number of entries.
pub fn find_key(entries: &Vec<(String, JsonValue)>, key: &String) -> (r: usize)
    ensures
        r <= entries.len(),
        find_key_from(view_entries(entries@), key@, 0) < entries.len(),
        r as int == (if find_key_from(view_entries(entries@), key@, 0) >= 0 {
            find_key_from(view_entries(entries@), key@, 0)
        } else {
            entries.len() as int
        }),
{
    let ghost ve = view_entries(entries@);
    proof {
        lemma_view_entries(entries@);
        lemma_find_key_range(ve, key@, 0);
    }
    let mut i: usize = 0;
    while i < entries.len()
        invariant
            i <= entries.len(),
            ve == view_entries(entries@),
            ve.len() == entries.len(),
            forall|j: int| 0 <= j < entries.len() ==> #[trigger] ve[j] == (entries@[j].0@, entries@[j].1@),
            find_key_from(ve, key@, 0) == find_key_from(ve, key@, i as int),
        decreases entries.len() - i,
    {
        if entries[i].0 == *key {
            return i;
        }
        i = i + 1;
    }
    i
}

/// Whether `a` sorts before `b` byte by byte.
fn bytes_less(a: &[u8], b: &[u8]) -> (r: bool)
    ensures
        r == bytes_lt(a@, b@),
{
    let mut i: usize = 0;
    assert(a@.skip(0) =~= a@);
    assert(b@.skip(0) =~= b@);
    while i < a.len() && i < b.len()
        invariant
            i <= a.len(),
            i <= b.len(),
            bytes_lt(a@, b@) == bytes_lt(a@.skip(i as int), b@.skip(i as int)),
        decreases a.len() - i,
    {
        if a[i] != b[i] {
            return a[i] < b[i];
        }
        assert(a@.skip(i as int).drop_first() =~= a@.skip(i as int + 1));
        assert(b@.skip(i as int).drop_first() =~= b@.skip(i as int + 1));
        i = i + 1;
    }
    i < b.len()
}

/// Whether key `a` sorts before key `b`, as `String`s compare.
pub fn key_less(a: &String, b: &String) -> (r: bool)
    ensures
        r == key_lt(a@, b@),
{
    bytes_less(a.as_str().as_bytes(), b.as_str().as_bytes())
}

/// The position of the entry that takes the next value (see
/// `waiting_entry`), or the number of entries where none waits.
pub fn find_null(entries: &Vec<(String, JsonValue)>) -> (r: usize)
    ensures
        r <= entries.len(),
        waiting_entry(view_entries(entries@)) < entries.len(),
        r as int == (if waiting_entry(view_entries(entries@)) >= 0 {
            waiting_entry(view_entries(entries@))
        } else {
            entries.len() as int
        }),
{
    let ghost ve = view_entries(entries@);
    proof {
        lemma_view_entries(entries@);
        waiting_entry_sorts_first(ve);
    }
    let mut best: usize = entries.len();
    let mut i: usize = 0;
    while i < entries.len()
        invariant
            i <= entries.len(),
            ve == view_entries(entries@),
            ve.len() == entries.len(),
            forall|j: int| 0 <= j < entries.len() ==> #[trigger] ve[j] == (entries@[j].0@, entries@[j].1@),
            waiting_entry(ve.take(i as int)) < i,
            best as int == (if waiting_entry(ve.take(i as int)) >= 0 {
                waiting_entry(ve.take(i as int))
            } else {
                entries.len() as int
            }),
        decreases entries.len() - i,
    {
        proof {
            let t = ve.take(i as int + 1);
            assert(t.drop_last() =~= ve.take(i as int));
            assert(t.last() == ve[i as int]);
            waiting_entry_sorts_first(ve.take(i as int));
            if best < entries.len() {
                assert(t[best as int] == ve[best as int]);
            }
        }
        if matches!(entries[i].1, JsonValue::Null) && (best == entries.len() || key_less(
            &entries[i].0,
            &entries[best].0,
        )) {
            best = i;
        }
        i = i + 1;
    }
    proof {
        assert(ve.take(entries.len() as int) =~= ve);
    }
    best
}

proof fn lemma_entries_update(e: Seq<(String, JsonValue)>, p: int, entry: (String, JsonValue))
    requires
        0 <= p < e.len(),
    ensures
        view_entries(e.update(p, entry)) == view_entries(e).update(p, (entry.0@, entry.1@)),
{
    lemma_view_entries(e);
    lemma_view_entries(e.update(p, entry));
    assert(view_entries(e.update(p, entry)) =~= view_entries(e).update(p, (entry.0@, entry.1@)));
}

proof fn lemma_entries_push(e: Seq<(String, JsonValue)>, entry: (String, JsonValue))
    ensures
        view_entries(e.push(entry)) == view_entries(e).push((entry.0@, entry.1@)),
{
    assert(e.push(entry).drop_last() =~= e);
}

proof fn lemma_items_update(a: Seq<JsonValue>, i: int, v: JsonValue)
    requires
        0 <= i < a.len(),
    ensures
        view_items(a.update(i, v)) == view_items(a).update(i, v@),
{
    lemma_view_items(a);
    lemma_view_items(a.update(i, v));
    assert(view_items(a.update(i, v)) =~= view_items(a).update(i, v@));
}

proof fn lemma_items_push(a: Seq<JsonValue>, v: JsonValue)
    ensures
        view_items(a.push(v)) == view_items(a).push(v@),
{
    assert(a.push(v).drop_last() =~= a);
}

/// Sets `key` to `value`: in place where the key is present, else as a new
/// last entry.
pub fn object_set(entries: &mut Vec<(String, JsonValue)>, key: String, value: JsonValue)
    ensures
        view_entries(final(entries)@) == object_insert(view_entries(old(entries)@), key@, value@),
{
    let p = find_key(entries, &key);
    proof {
        lemma_view_entries(entries@);
    }
    if p < entries.len() {
        proof {
            lemma_entries_update(entries@, p as int, (key, value));
        }
        entries.set(p, (key, value));
    } else {
        proof {
            lemma_entries_push(entries@, (key, value));
        }
        entries.push((key, value));
    }
}


/// Performs `op` on `node` itself.
fn apply_here(node: &mut JsonValue, op: NodeOp) -> (r: Result<Option<PathItem>, DecodeError>)
    ensures
        match act_here(old(node)@, op@) {
            Ok((n, c)) => r is Ok && opt_step(r->Ok_0) == c && final(node)@ == n,
            Err(f) => r is Err && r->Err_0@ == f && final(node)@ == old(node)@,
        },
{
    match op {
        NodeOp::Place(v) => match node {
            JsonValue::Array(a) => {
                proof {
                    lemma_items_push(a@, v);
                }
                a.push(v);
                Ok(None)
            },
            JsonValue::Object(e) => {
                let p = find_null(e);
                if p < e.len() {
                    proof {
                        lemma_view_entries(e@);
                    }
                    let k = e[p].0.clone();
                    proof {
                        lemma_entries_update(e@, p as int, (k, v));
                    }
                    e.set(p, (k, v));
                    Ok(None)
                } else {
                    match v {
                        JsonValue::String(s) => {
                            object_set(e, s, JsonValue::Null);
                            Ok(None)
                        },
                        other => Err(DecodeError::NotAString(other)),
                    }
                }
            },
            _ => {
                *node = v;
                Ok(None)
            },
        },
        NodeOp::OpenArray => match node {
            JsonValue::Array(a) => {
                let index = a.len();
                let fresh = JsonValue::Array(Vec::new());
                proof {
                    lemma_view_items(a@);
                    lemma_items_push(a@, fresh);
                    assert(view_items(fresh->Array_0@) =~= Seq::<Json>::empty());
                }
                a.push(fresh);
                Ok(Some(PathItem::Index(index)))
            },
            JsonValue::Object(e) => {
                let p = find_null(e);
                if p < e.len() {
                    proof {
                        lemma_view_entries(e@);
                    }
                    let k = e[p].0.clone();
                    let child_key = e[p].0.clone();
                    let fresh = JsonValue::Array(Vec::new());
                    proof {
                        lemma_entries_update(e@, p as int, (k, fresh));
                        assert(view_items(fresh->Array_0@) =~= Seq::<Json>::empty());
                    }
                    e.set(p, (k, fresh));
                    Ok(Some(PathItem::Key(child_key)))
                } else {
                    Err(DecodeError::NoNullKey(clone_entries(e)))
                }
            },
            JsonValue::Null => {
                let fresh = JsonValue::Array(Vec::new());
                proof {
                    assert(view_items(fresh->Array_0@) =~= Seq::<Json>::empty());
                }
                *node = fresh;
                Ok(None)
            },
            _ => Err(DecodeError::CannotCreateArray(clone_value(node))),
        },
        NodeOp::OpenObject => match node {
            JsonValue::Object(e) => {
                let p = find_null(e);
                if p < e.len() {
                    proof {
                        lemma_view_entries(e@);
                    }
                    let k = e[p].0.clone();
                    let child_key = e[p].0.clone();
                    let fresh = JsonValue::Object(Vec::new());
                    proof {
                        lemma_entries_update(e@, p as int, (k, fresh));
                        assert(view_entries(fresh->Object_0@) =~= Seq::<(Seq<char>, Json)>::empty());
                    }
                    e.set(p, (k, fresh));
                    Ok(Some(PathItem::Key(child_key)))
                } else {
                    Err(DecodeError::NoNullKey(clone_entries(e)))
                }
            },
            JsonValue::Array(a) => {
                let index = a.len();
                let fresh = JsonValue::Object(Vec::new());
                proof {
                    lemma_view_items(a@);
                    lemma_items_push(a@, fresh);
                    assert(view_entries(fresh->Object_0@) =~= Seq::<(Seq<char>, Json)>::empty());
                }
                a.push(fresh);
                Ok(Some(PathItem::Index(index)))
            },
            JsonValue::Null => {
                let fresh = JsonValue::Object(Vec::new());
                proof {
                    assert(view_entries(fresh->Object_0@) =~= Seq::<(Seq<char>, Json)>::empty());
                }
                *node = fresh;
                Ok(None)
            },
            _ => Err(DecodeError::CannotCreateObject(clone_value(node))),
        },
    }
}


/// Performs `op` at the end of `path[depth..]`, walked from `node`; gives the
/// step into a newly opened child, if any.
fn apply_at(node: &mut JsonValue, path: &Vec<PathItem>, depth: usize, op: NodeOp) -> (r: Result<
    Option<PathItem>,
    DecodeError,
>)
    requires
        depth <= path.len(),
    ensures
        match act_at(old(node)@, path_steps(path@).skip(depth as int), op@) {
            Ok((n, c)) => r is Ok && opt_step(r->Ok_0) == c && final(node)@ == n,
            Err(f) => r is Err && r->Err_0@ == f && final(node)@ == old(node)@,
        },
    decreases path.len() - depth,
{
    let ghost steps = path_steps(path@).skip(depth as int);
    if depth == path.len() {
        assert(steps.len() == 0);
        return apply_here(node, op);
    }
    let ghost rest = path_steps(path@).skip(depth + 1);
    assert(steps.drop_first() =~= rest);
    assert(steps[0] == path@[depth as int].step());
    match node {
        JsonValue::Array(items) => match &path[depth] {
            PathItem::Index(i) => {
                let i = *i;
                if i < items.len() {
                    proof {
                        lemma_view_items(items@);
                    }
                    let ghost before = items@;
                    let r = apply_at(&mut items[i], path, depth + 1, op);
                    proof {
                        lemma_items_update(before, i as int, items@[i as int]);
                        assert(items@ == before.update(i as int, items@[i as int]));
                        if r is Err {
                            lemma_view_items_ext(items@, before);
                        }
                    }
                    r
                } else {
                    proof {
                        lemma_view_items(items@);
                    }
                    Err(DecodeError::InvalidValueLocation)
                }
            },
            PathItem::Key(_) => Err(DecodeError::InvalidValueLocation),
        },
        JsonValue::Object(entries) => match &path[depth] {
            PathItem::Key(k) => {
                let p = find_key(entries, k);
                if p < entries.len() {
                    proof {
                        lemma_view_entries(entries@);
                    }
                    let ghost before = entries@;
                    let entry = &mut entries[p];
                    let r = apply_at(&mut entry.1, path, depth + 1, op);
                    proof {
                        lemma_entries_update(before, p as int, entries@[p as int]);
                        assert(entries@ == before.update(p as int, entries@[p as int]));
                        if r is Err {
                            lemma_view_entries_ext(entries@, before);
                        }
                    }
                    r
                } else {
                    Err(DecodeError::InvalidValueLocation)
                }
            },
            PathItem::Index(_) => Err(DecodeError::InvalidValueLocation),
        },
        _ => Err(DecodeError::InvalidValueLocation),
    }
}


/// The decoder's state as the specification sees it.
pub ghost struct ContextModel {
    pub character: Option<char>,
    pub kind: Option<BencodeKind>,
    pub state: Option<BencodeState>,
    pub open_containers: Seq<BencodeKind>,
    pub data_chars: Seq<char>,
    pub meta_chars: Seq<char>,
    pub value: Json,
    pub value_length: usize,
    pub value_path: Seq<PathStep>,
}

/// The state before the first character.
pub open spec fn initial_context() -> ContextModel {
    ContextModel {
        character: None,
        kind: None,
        state: None,
        open_containers: Seq::empty(),
        data_chars: Seq::empty(),
        meta_chars: Seq::empty(),
        value: Json::Null,
        value_length: 0,
        value_path: Seq::empty(),
    }
}

/// `action` performed where the path of `c` points; a newly opened child
/// becomes the end of the path.
pub open spec fn act_in_context(c: ContextModel, action: NodeAction) -> Result<ContextModel, Failure> {
    match act_at(c.value, c.value_path, action) {
        Ok((n, child)) => Ok(
            ContextModel {
                value: n,
                value_path: match child {
                    Some(step) => c.value_path.push(step),
                    None => c.value_path,
                },
                ..c
            },
        ),
        Err(f) => Err(f),
    }
}

/// The state after the value whose path ends last is closed.
pub open spec fn end_nested(c: ContextModel) -> ContextModel {
    ContextModel {
        value_path: if c.value_path.len() > 0 {
            c.value_path.drop_last()
        } else {
            c.value_path
        },
        ..c
    }
}

/// The state with the characters of the current value forgotten.
pub open spec fn cleared(c: ContextModel) -> ContextModel {
    ContextModel { data_chars: Seq::empty(), meta_chars: Seq::empty(), value_length: 0, ..c }
}

/// The decoder's state between two characters.
#[derive(Debug, Clone, PartialEq, Eq)]
pub struct Context {
    /// The last character taken.
    pub character: Option<char>,
    /// The kind of the value being read.
    pub kind: Option<BencodeKind>,
    /// The phase of the value being read.
    pub state: Option<BencodeState>,
    /// The lists and dictionaries not yet closed, innermost last.
    pub open_containers: Vec<BencodeKind>,
    /// The characters of the integer or string being read.
    pub data_chars: String,
    /// The characters of a string's length.
    pub meta_chars: String,
    /// The value decoded so far.
    pub value: JsonValue,
    /// The length in bytes of the string being read.
    pub value_length: usize,
    /// The path from the root to the container that takes the next value.
    pub value_path: Vec<PathItem>,
}

impl View for Context {
    type V = ContextModel;

    open spec fn view(&self) -> ContextModel {
        ContextModel {
            character: self.character,
            kind: self.kind,
            state: self.state,
            open_containers: self.open_containers@,
            data_chars: self.data_chars@,
            meta_chars: self.meta_chars@,
            value: self.value@,
            value_length: self.value_length,
            value_path: path_steps(self.value_path@),
        }
    }
}

/// The result of a step matches the result the specification gives.
pub open spec fn context_result(r: Result<Context, DecodeError>, s: Result<ContextModel, Failure>) -> bool {
    match s {
        Ok(m) => r is Ok && r->Ok_0@ == m,
        Err(f) => r is Err && r->Err_0@ == f,
    }
}

proof fn lemma_steps_push(path: Seq<PathItem>, item: PathItem)
    ensures
        path_steps(path.push(item)) == path_steps(path).push(item.step()),
{
    assert(path_steps(path.push(item)) =~= path_steps(path).push(item.step()));
}

impl Context {
    pub fn new() -> (r: Self)
        ensures
            r@ == initial_context(),
    {
        let r = Self {
            character: None,
            state: None,
            kind: None,
            open_containers: Vec::new(),
            data_chars: String::new(),
            meta_chars: String::new(),
            value: JsonValue::Null,
            value_length: 0,
            value_path: Vec::new(),
        };
        assert(path_steps(r.value_path@) =~= Seq::<PathStep>::empty());
        r
    }

    /// Performs `op` where the path points and extends the path into a newly
    /// opened child.
    fn act(&mut self, op: NodeOp) -> (r: Result<(), DecodeError>)
        ensures
            match act_in_context(old(self)@, op@) {
                Ok(m) => r is Ok && final(self)@ == m,
                Err(f) => r is Err && r->Err_0@ == f && final(self)@ == old(self)@,
            },
    {
        proof {
            assert(path_steps(self.value_path@).skip(0) =~= path_steps(self.value_path@));
        }
        let child = apply_at(&mut self.value, &self.value_path, 0, op);
        match child {
            Ok(Some(item)) => {
                proof {
                    lemma_steps_push(self.value_path@, item);
                }
                self.value_path.push(item);
                Ok(())
            },
            Ok(None) => Ok(()),
            Err(e) => Err(e),
        }
    }

    /// Places a finished value: appended to a list, as the value of the key
    /// that waits for one, as a new key of a dictionary, or in place of what
    /// stands where the path points.
    pub fn update_value(&mut self, value: JsonValue) -> (r: Result<(), DecodeError>)
        ensures
            match act_in_context(old(self)@, NodeAction::Place(value@)) {
                Ok(m) => r is Ok && final(self)@ == m,
                Err(f) => r is Err && r->Err_0@ == f && final(self)@ == old(self)@,
            },
            keys_distinct(old(self)@.value) && keys_distinct(value@) ==> keys_distinct(
                final(self)@.value,
            ),
    {
        proof {
            if keys_distinct(self@.value) && keys_distinct(value@) {
                lemma_act_keeps_keys_distinct(self@, NodeAction::Place(value@));
            }
        }
        self.act(NodeOp::Place(value))
    }

    /// Opens a new list where the path points; the path then leads into it.
    pub(crate) fn create_array(&mut self) -> (r: Result<(), DecodeError>)
        ensures
            match act_in_context(old(self)@, NodeAction::OpenArray) {
                Ok(m) => r is Ok && final(self)@ == m,
                Err(f) => r is Err && r->Err_0@ == f && final(self)@ == old(self)@,
            },
            keys_distinct(old(self)@.value) ==> keys_distinct(final(self)@.value),
            r is Ok && keys_distinct(old(self)@.value) ==> json_at(
                final(self)@.value,
                final(self)@.value_path,
            ) == Some(Json::Array(Seq::empty())),
    {
        proof {
            if keys_distinct(self@.value) {
                lemma_act_keeps_keys_distinct(self@, NodeAction::OpenArray);
                lemma_open_leads_to_child(self@, NodeAction::OpenArray, Json::Array(Seq::empty()));
            }
        }
        self.act(NodeOp::OpenArray)
    }

    /// Opens a new dictionary where the path points; the path then leads
    /// into it.
    pub(crate) fn create_object(&mut self) -> (r: Result<(), DecodeError>)
        ensures
            match act_in_context(old(self)@, NodeAction::OpenObject) {
                Ok(m) => r is Ok && final(self)@ == m,
                Err(f) => r is Err && r->Err_0@ == f && final(self)@ == old(self)@,
            },
            keys_distinct(old(self)@.value) ==> keys_distinct(final(self)@.value),
            r is Ok && keys_distinct(old(self)@.value) ==> json_at(
                final(self)@.value,
                final(self)@.value_path,
            ) == Some(Json::Object(Seq::empty())),
    {
        proof {
            if keys_distinct(self@.value) {
                lemma_act_keeps_keys_distinct(self@, NodeAction::OpenObject);
                lemma_open_leads_to_child(self@, NodeAction::OpenObject, Json::Object(Seq::empty()));
            }
        }
        self.act(NodeOp::OpenObject)
    }

    /// Leaves the innermost container: the path loses its last step.
    pub(crate) fn end_nested_value(&mut self)
        ensures
            final(self)@ == end_nested(old(self)@),
    {
        let ghost before = self.value_path@;
        let _ = self.value_path.pop();
        proof {
            if before.len() > 0 {
                assert(path_steps(self.value_path@) =~= path_steps(before).drop_last());
            }
        }
    }

    /// Forgets the characters of the value just read.
    pub(crate) fn clear_type(&mut self)
        ensures
            final(self)@ == cleared(old(self)@),
    {
        self.data_chars = String::new();
        self.meta_chars = String::new();
        self.value_length = 0;
    }

    /// The open containers without the innermost one, and that one.
    pub(crate) fn pop_next_container(&self) -> (r: Result<(Vec<BencodeKind>, BencodeKind), DecodeError>)
        ensures
            self.open_containers@.len() == 0 ==> r == Err::<(Vec<BencodeKind>, BencodeKind), DecodeError>(DecodeError::NoOpenContainer),
            self.open_containers@.len() > 0 ==> r is Ok && r->Ok_0.0@ == self.open_containers@.drop_last()
                && r->Ok_0.1 == self.open_containers@.last(),
    {
        let n = self.open_containers.len();
        if n == 0 {
            return Err(DecodeError::NoOpenContainer);
        }
        let mut rest: Vec<BencodeKind> = Vec::new();
        let mut i: usize = 0;
        while i + 1 < n
            invariant
                n == self.open_containers@.len(),
                n > 0,
                i < n,
                rest@ == self.open_containers@.take(i as int),
            decreases n - i,
        {
            rest.push(self.open_containers[i]);
            i = i + 1;
            assert(rest@ =~= self.open_containers@.take(i as int));
        }
        assert(rest@ =~= self.open_containers@.drop_last());
        Ok((rest, self.open_containers[n - 1]))
    }
}

} // verus!
