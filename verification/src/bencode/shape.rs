//! The shape that every decoded state keeps: a dictionary never holds more
//! than one key that still waits for its value, nor a key twice, and the
//! path agrees with the open containers.
use crate::bencode::character_processor::step;
use crate::bencode::decoder::{decode_spec, run};
use crate::bencode::paths::{
    json_at, json_put, keys_distinct, lemma_act_at, lemma_find_key_values, lemma_act_keeps_keys_distinct, lemma_at_put,
    lemma_open_leads_to_child, lemma_path_push,
};
use crate::bencode::types::{
    end_nested, BencodeKind, BencodeState, Failure, act_here, act_in_context, find_key_from, waiting_entry, initial_context,
    lemma_find_key_range, waiting_entry_sorts_first, object_insert, ContextModel, Json, NodeAction,
    PathStep,
};
use vstd::prelude::*;

verus! {

/// How many entries still wait for their value.
pub open spec fn null_count(e: Seq<(Seq<char>, Json)>) -> nat
    decreases e.len(),
{
    if e.len() == 0 {
        0
    } else {
        null_count(e.drop_last()) + if e.last().1 is Null {
            1nat
        } else {
            0nat
        }
    }
}

/// Every dictionary in `j` holds at most one key that waits for its value.
pub open spec fn settled(j: Json) -> bool
    decreases j,
{
    match j {
        Json::Array(a) => settled_items(a),
        Json::Object(e) => null_count(e) <= 1 && settled_entries(e),
        _ => true,
    }
}

pub open spec fn settled_items(a: Seq<Json>) -> bool
    decreases a,
{
    if a.len() == 0 {
        true
    } else {
        settled_items(a.drop_last()) && settled(a.last())
    }
}

pub open spec fn settled_entries(e: Seq<(Seq<char>, Json)>) -> bool
    decreases e,
{
    if e.len() == 0 {
        true
    } else {
        settled_entries(e.drop_last()) && settled(e.last().1)
    }
}

proof fn lemma_settled_items(a: Seq<Json>)
    ensures
        settled_items(a) <==> forall|i: int| 0 <= i < a.len() ==> settled(#[trigger] a[i]),
    decreases a.len(),
{
    if a.len() > 0 {
        lemma_settled_items(a.drop_last());
        if forall|i: int| 0 <= i < a.len() ==> settled(#[trigger] a[i]) {
            assert forall|i: int| 0 <= i < a.drop_last().len() implies settled(
                #[trigger] a.drop_last()[i],
            ) by {
                assert(a.drop_last()[i] == a[i]);
            }
        }
        if settled_items(a) {
            assert forall|i: int| 0 <= i < a.len() implies settled(#[trigger] a[i]) by {
                if i < a.len() - 1 {
                    assert(a.drop_last()[i] == a[i]);
                }
            }
        }
    }
}

proof fn lemma_settled_entries(e: Seq<(Seq<char>, Json)>)
    ensures
        settled_entries(e) <==> forall|i: int| 0 <= i < e.len() ==> settled(#[trigger] e[i].1),
    decreases e.len(),
{
    if e.len() > 0 {
        lemma_settled_entries(e.drop_last());
        if forall|i: int| 0 <= i < e.len() ==> settled(#[trigger] e[i].1) {
            assert forall|i: int| 0 <= i < e.drop_last().len() implies settled(
                #[trigger] e.drop_last()[i].1,
            ) by {
                assert(e.drop_last()[i] == e[i]);
            }
        }
        if settled_entries(e) {
            assert forall|i: int| 0 <= i < e.len() implies settled(#[trigger] e[i].1) by {
                if i < e.len() - 1 {
                    assert(e.drop_last()[i] == e[i]);
                }
            }
        }
    }
}

proof fn lemma_null_count_update(e: Seq<(Seq<char>, Json)>, p: int, entry: (Seq<char>, Json))
    requires
        0 <= p < e.len(),
    ensures
        null_count(e.update(p, entry)) + (if e[p].1 is Null {
            1int
        } else {
            0int
        }) == null_count(e) + (if entry.1 is Null {
            1int
        } else {
            0int
        }),
    decreases e.len(),
{
    let u = e.update(p, entry);
    if p == e.len() - 1 {
        assert(u.drop_last() =~= e.drop_last());
    } else {
        assert(u.drop_last() =~= e.drop_last().update(p, entry));
        lemma_null_count_update(e.drop_last(), p, entry);
    }
}

proof fn lemma_null_count_push(e: Seq<(Seq<char>, Json)>, entry: (Seq<char>, Json))
    ensures
        null_count(e.push(entry)) == null_count(e) + (if entry.1 is Null {
            1nat
        } else {
            0nat
        }),
{
    assert(e.push(entry).drop_last() =~= e);
}

proof fn lemma_no_null(e: Seq<(Seq<char>, Json)>)
    requires
        waiting_entry(e) == -1,
    ensures
        forall|j: int| 0 <= j < e.len() ==> !((#[trigger] e[j]).1 is Null),
{
    waiting_entry_sorts_first(e);
}

proof fn lemma_null_count_zero(e: Seq<(Seq<char>, Json)>)
    requires
        forall|j: int| 0 <= j < e.len() ==> !((#[trigger] e[j]).1 is Null),
    ensures
        null_count(e) == 0,
    decreases e.len(),
{
    if e.len() > 0 {
        assert forall|j: int| 0 <= j < e.drop_last().len() implies !((
        #[trigger] e.drop_last()[j]).1 is Null) by {
            assert(e.drop_last()[j] == e[j]);
        }
        lemma_null_count_zero(e.drop_last());
    }
}

/// What an action leaves where it acts keeps the shape, and is no `Null`.
proof fn lemma_act_here_settled(node: Json, action: NodeAction)
    requires
        settled(node),
        match action {
            NodeAction::Place(v) => v is Number || v is Str,
            _ => true,
        },
        act_here(node, action) is Ok,
    ensures
        settled(act_here(node, action)->Ok_0.0),
        !(act_here(node, action)->Ok_0.0 is Null),
{
    let fresh_array = Json::Array(Seq::<Json>::empty());
    let fresh_object = Json::Object(Seq::<(Seq<char>, Json)>::empty());
    assert(settled(fresh_array));
    assert(settled(fresh_object));
    let x = match action {
        NodeAction::Place(v) => v,
        NodeAction::OpenArray => fresh_array,
        NodeAction::OpenObject => fresh_object,
    };
    assert(settled(x));
    match node {
        Json::Array(a) => {
            lemma_settled_items(a);
            lemma_settled_items(a.push(x));
            assert(a.push(x).last() == x);
        },
        Json::Object(e) => {
            lemma_settled_entries(e);
            let p = waiting_entry(e);
            waiting_entry_sorts_first(e);
            if p >= 0 {
                let e1 = e.update(p, (e[p].0, x));
                lemma_null_count_update(e, p, (e[p].0, x));
                lemma_settled_entries(e1);
            } else if let NodeAction::Place(Json::Str(s)) = action {
                lemma_no_null(e);
                lemma_null_count_zero(e);
                let q = find_key_from(e, s, 0);
                lemma_find_key_range(e, s, 0);
                if q >= 0 {
                    lemma_null_count_update(e, q, (s, Json::Null));
                    lemma_settled_entries(e.update(q, (s, Json::Null)));
                } else {
                    lemma_null_count_push(e, (s, Json::Null));
                    lemma_settled_entries(e.push((s, Json::Null)));
                    assert(e.push((s, Json::Null)).last() == (s, Json::Null));
                }
                assert(object_insert(e, s, Json::Null) == if q >= 0 {
                    e.update(q, (s, Json::Null))
                } else {
                    e.push((s, Json::Null))
                });
            }
        },
        _ => {},
    }
}

/// The value a path leads to in a value of the shape has the shape too.
proof fn lemma_settled_at(root: Json, path: Seq<PathStep>)
    requires
        settled(root),
        json_at(root, path) is Some,
    ensures
        settled(json_at(root, path)->Some_0),
    decreases path.len(),
{
    if path.len() > 0 {
        match (root, path[0]) {
            (Json::Array(a), PathStep::Index(i)) => {
                lemma_settled_items(a);
                lemma_settled_at(a[i], path.drop_first());
            },
            (Json::Object(e), PathStep::Key(k)) => {
                lemma_settled_entries(e);
                lemma_find_key_range(e, k, 0);
                let p = find_key_from(e, k, 0);
                lemma_settled_at(e[p].1, path.drop_first());
            },
            _ => {},
        }
    }
}

/// Putting a value of the shape that is no `Null` into a value of the shape
/// keeps the shape.
proof fn lemma_settled_put(root: Json, path: Seq<PathStep>, x: Json)
    requires
        settled(root),
        json_at(root, path) is Some,
        settled(x),
        !(x is Null),
    ensures
        settled(json_put(root, path, x)),
        !(json_put(root, path, x) is Null),
    decreases path.len(),
{
    if path.len() > 0 {
        match (root, path[0]) {
            (Json::Array(a), PathStep::Index(i)) => {
                lemma_settled_items(a);
                lemma_settled_put(a[i], path.drop_first(), x);
                lemma_settled_items(a.update(i, json_put(a[i], path.drop_first(), x)));
            },
            (Json::Object(e), PathStep::Key(k)) => {
                lemma_settled_entries(e);
                lemma_find_key_range(e, k, 0);
                let p = find_key_from(e, k, 0);
                lemma_settled_put(e[p].1, path.drop_first(), x);
                let entry = (e[p].0, json_put(e[p].1, path.drop_first(), x));
                lemma_null_count_update(e, p, entry);
                lemma_settled_entries(e.update(p, entry));
            },
            _ => {},
        }
    }
}

proof fn lemma_act_settled(c: ContextModel, action: NodeAction)
    requires
        settled(c.value),
        match action {
            NodeAction::Place(v) => v is Number || v is Str,
            _ => true,
        },
    ensures
        act_in_context(c, action) is Ok ==> settled(act_in_context(c, action)->Ok_0.value),
{
    lemma_act_at(c.value, c.value_path, action);
    if act_in_context(c, action) is Ok {
        let node = json_at(c.value, c.value_path)->Some_0;
        lemma_settled_at(c.value, c.value_path);
        lemma_act_here_settled(node, action);
        lemma_settled_put(c.value, c.value_path, act_here(node, action)->Ok_0.0);
    }
}

/// One character keeps the shape.
proof fn lemma_step_settled(c: ContextModel, ch: char)
    requires
        settled(c.value),
    ensures
        step(c, ch) is Ok ==> settled(step(c, ch)->Ok_0.value),
{
    lemma_act_settled(c, NodeAction::OpenArray);
    lemma_act_settled(c, NodeAction::OpenObject);
    let data = c.data_chars.push(ch);
    lemma_act_settled(
        crate::bencode::types::ContextModel { data_chars: data, ..c },
        NodeAction::Place(Json::Str(data)),
    );
    lemma_act_settled(c, NodeAction::Place(Json::Str(c.data_chars)));
    match crate::bencode::number::parse_isize_spec(c.data_chars) {
        Some(n) => lemma_act_settled(c, NodeAction::Place(Json::Number(n as int))),
        None => {},
    }
    match crate::bencode::number::parse_usize_spec(c.meta_chars) {
        Some(n) => lemma_act_settled(
            crate::bencode::types::ContextModel { value_length: n, ..c },
            NodeAction::Place(Json::Str(c.data_chars)),
        ),
        None => {},
    }
}

/// Every state that decoding reaches keeps the shape: no dictionary in the
/// decoded value holds more than one key waiting for its value, so the key
/// that a value fills is never in doubt.
pub proof fn decoding_keeps_one_waiting_key(s: Seq<char>)
    ensures
        run(initial_context(), s) is Ok ==> settled(run(initial_context(), s)->Ok_0.value),
    decreases s.len(),
{
    if s.len() > 0 {
        decoding_keeps_one_waiting_key(s.drop_last());
        if run(initial_context(), s.drop_last()) is Ok {
            lemma_step_settled(run(initial_context(), s.drop_last())->Ok_0, s.last());
        }
    }
}


/// A state that decoding can reach: every open container is a list or a
/// dictionary, a list or dictionary is only ever just opened or just closed,
/// the path leads to a value and agrees with the open containers, and every
/// dictionary holds each key once.
pub open spec fn sound_state(c: ContextModel) -> bool {
    &&& forall|i: int|
        0 <= i < c.open_containers.len() ==> #[trigger] c.open_containers[i] == BencodeKind::List
            || c.open_containers[i] == BencodeKind::Dictionary
    &&& (c.kind == Some(BencodeKind::List) || c.kind == Some(BencodeKind::Dictionary)) ==> (c.state
        == Some(BencodeState::Start) || c.state == Some(BencodeState::End))
    &&& json_at(c.value, c.value_path) is Some
    &&& path_shape(c)
    &&& open_along_path(c)
    &&& keys_distinct(c.value)
}

/// The kind of container that `j` is, if it is one.
pub open spec fn container_kind(j: Option<Json>) -> Option<BencodeKind> {
    match j {
        Some(Json::Array(_)) => Some(BencodeKind::List),
        Some(Json::Object(_)) => Some(BencodeKind::Dictionary),
        _ => None,
    }
}

/// The open containers are the containers along the path, outermost first:
/// the last open container is the one the whole path leads to, the one
/// before it the one a step shorter, and so on.
pub open spec fn open_along_path(c: ContextModel) -> bool {
    forall|j: int|
        0 <= j < c.open_containers.len() ==> container_kind(
            json_at(
                c.value,
                c.value_path.take(c.value_path.len() + 1 - c.open_containers.len() + j),
            ),
        ) == Some(#[trigger] c.open_containers[j])
}

/// Putting a value at the end of a path leaves the kinds of the values along
/// the path before it.
proof fn lemma_put_kinds(v: Json, path: Seq<PathStep>, x: Json, i: int)
    requires
        json_at(v, path) is Some,
        0 <= i < path.len(),
    ensures
        container_kind(json_at(json_put(v, path, x), path.take(i))) == container_kind(
            json_at(v, path.take(i)),
        ),
    decreases path.len(),
{
    let empty: Seq<PathStep> = Seq::empty();
    if i == 0 {
        assert(path.take(0) =~= empty);
    } else {
        let t = path.take(i);
        assert(t[0] == path[0]);
        assert(t.drop_first() =~= path.drop_first().take(i - 1));
        match (v, path[0]) {
            (Json::Array(a), PathStep::Index(k)) => {
                lemma_put_kinds(a[k], path.drop_first(), x, i - 1);
            },
            (Json::Object(e), PathStep::Key(key)) => {
                lemma_find_key_range(e, key, 0);
                let p = find_key_from(e, key, 0);
                lemma_put_kinds(e[p].1, path.drop_first(), x, i - 1);
                lemma_find_key_values(e, p, json_put(e[p].1, path.drop_first(), x), key, 0);
            },
            _ => {},
        }
    }
}

/// Along the path, an action turns no container into another kind, and a
/// container just opened is what the new path leads to.
proof fn lemma_act_kinds(c: ContextModel, action: NodeAction)
    requires
        sound_state(c),
        action matches NodeAction::Place(v) ==> (v is Number || v is Str),
    ensures
        act_in_context(c, action) is Ok ==> {
            let m = act_in_context(c, action)->Ok_0;
            &&& forall|i: int|
                0 <= i <= c.value_path.len() && container_kind(json_at(c.value, c.value_path.take(i)))
                    is Some ==> #[trigger] container_kind(json_at(m.value, m.value_path.take(i)))
                    == container_kind(json_at(c.value, c.value_path.take(i)))
            &&& action is OpenArray ==> container_kind(json_at(m.value, m.value_path)) == Some(
                BencodeKind::List,
            )
            &&& action is OpenObject ==> container_kind(json_at(m.value, m.value_path)) == Some(
                BencodeKind::Dictionary,
            )
        },
{
    let v = c.value;
    let path = c.value_path;
    lemma_act_at(v, path, action);
    lemma_act_shape(c, action);
    if act_in_context(c, action) is Ok {
        let m = act_in_context(c, action)->Ok_0;
        let node = json_at(v, path)->Some_0;
        let n = act_here(node, action)->Ok_0.0;
        lemma_at_put(v, path, n);
        assert(path.take(path.len() as int) =~= path);
        if !(action is Place) {
            lemma_open_leads_to_child(c, action, if action is OpenArray {
                Json::Array(Seq::empty())
            } else {
                Json::Object(Seq::empty())
            });
        }
        assert forall|i: int|
            0 <= i <= path.len() && container_kind(json_at(v, path.take(i))) is Some implies #[trigger] container_kind(
            json_at(m.value, m.value_path.take(i)),
        ) == container_kind(json_at(v, path.take(i))) by {
            assert(m.value_path.take(i) =~= path.take(i));
            if i < path.len() {
                lemma_put_kinds(v, path, n, i);
            }
        }
    }
}

/// Placing a value keeps the open containers along the path.
proof fn lemma_place_kinds(c: ContextModel, action: NodeAction)
    requires
        sound_state(c),
        action matches NodeAction::Place(v) ==> (v is Number || v is Str),
        action is Place,
    ensures
        act_in_context(c, action) is Ok ==> open_along_path(act_in_context(c, action)->Ok_0),
{
    lemma_act_kinds(c, action);
    lemma_act_shape(c, action);
    if act_in_context(c, action) is Ok {
        let m = act_in_context(c, action)->Ok_0;
        assert forall|j: int| 0 <= j < m.open_containers.len() implies container_kind(
            json_at(m.value, m.value_path.take(m.value_path.len() + 1 - m.open_containers.len() + j)),
        ) == Some(#[trigger] m.open_containers[j]) by {
            assert(c.open_containers[j] == m.open_containers[j]);
        }
    }
}

/// Opening a container adds it to the open containers along the path.
proof fn lemma_open_kinds(c: ContextModel, action: NodeAction, k: BencodeKind)
    requires
        sound_state(c),
        (action is OpenArray && k == BencodeKind::List) || (action is OpenObject && k
            == BencodeKind::Dictionary),
    ensures
        act_in_context(c, action) is Ok ==> open_along_path(
            ContextModel {
                open_containers: c.open_containers.push(k),
                ..act_in_context(c, action)->Ok_0
            },
        ),
{
    lemma_act_kinds(c, action);
    lemma_act_shape(c, action);
    if act_in_context(c, action) is Ok {
        let m0 = act_in_context(c, action)->Ok_0;
        let m = ContextModel { open_containers: c.open_containers.push(k), ..m0 };
        let n = c.open_containers.len();
        assert forall|j: int| 0 <= j < m.open_containers.len() implies container_kind(
            json_at(m.value, m.value_path.take(m.value_path.len() + 1 - m.open_containers.len() + j)),
        ) == Some(#[trigger] m.open_containers[j]) by {
            if j < n {
                assert(m.open_containers[j] == c.open_containers[j]);
            } else {
                assert(m.value_path.take(m.value_path.len() as int) =~= m.value_path);
            }
        }
    }
}

/// Closing the innermost container drops it from the open containers along
/// the path.
proof fn lemma_close_kinds(c: ContextModel)
    requires
        sound_state(c),
        c.open_containers.len() > 0,
    ensures
        open_along_path(
            ContextModel { open_containers: c.open_containers.drop_last(), ..end_nested(c) },
        ),
{
    let m = ContextModel { open_containers: c.open_containers.drop_last(), ..end_nested(c) };
    assert forall|j: int| 0 <= j < m.open_containers.len() implies container_kind(
        json_at(m.value, m.value_path.take(m.value_path.len() + 1 - m.open_containers.len() + j)),
    ) == Some(#[trigger] m.open_containers[j]) by {
        assert(m.open_containers[j] == c.open_containers[j]);
        let i = c.value_path.len() + 1 - c.open_containers.len() + j;
        assert(m.value_path.take(i) =~= c.value_path.take(i));
    }
}

/// The value that a path leads to is a list or a dictionary.
pub open spec fn is_container(j: Option<Json>) -> bool {
    j matches Some(Json::Array(_)) || j matches Some(Json::Object(_))
}

/// The path and the open containers agree: the path has as many steps as
/// there are open containers, or one fewer; a path with steps ends at a list
/// or a dictionary; and while no value has begun, nothing is open.
pub open spec fn path_shape(c: ContextModel) -> bool {
    &&& c.value_path.len() <= c.open_containers.len() <= c.value_path.len() + 1
    &&& c.value is Null ==> c.open_containers.len() == 0 && c.value_path.len() == 0
    &&& c.value_path.len() > 0 ==> is_container(json_at(c.value, c.value_path))
}

/// What an action does to the path: placing a value leaves it, opening a
/// container adds one step, except at the very start, where the new
/// container becomes the whole value; a path with steps still ends at a list
/// or a dictionary, and the value is no longer `Null`.
proof fn lemma_act_shape(c: ContextModel, action: NodeAction)
    requires
        json_at(c.value, c.value_path) is Some,
        path_shape(c),
        keys_distinct(c.value),
        action matches NodeAction::Place(v) ==> (v is Number || v is Str),
    ensures
        act_in_context(c, action) is Ok ==> {
            let m = act_in_context(c, action)->Ok_0;
            &&& !(m.value is Null)
            &&& m.value_path.len() > 0 ==> is_container(json_at(m.value, m.value_path))
            &&& action is Place ==> m.value_path == c.value_path
            &&& !(action is Place) ==> m.value_path.len() == c.value_path.len() + (if c.value is Null {
                0int
            } else {
                1int
            })
        },
{
    let v = c.value;
    let path = c.value_path;
    lemma_act_at(v, path, action);
    if act_in_context(c, action) is Ok {
        let node = json_at(v, path)->Some_0;
        let n = act_here(node, action)->Ok_0.0;
        lemma_at_put(v, path, n);
        let empty: Seq<PathStep> = Seq::empty();
        if path.len() == 0 {
            assert(path =~= empty);
            assert(node == v);
        } else {
            assert(is_container(json_at(v, path)));
            assert(v is Array || v is Object);
        }
        match action {
            NodeAction::Place(x) => {},
            _ => {
                lemma_open_leads_to_child(c, action, if action is OpenArray {
                    Json::Array(Seq::empty())
                } else {
                    Json::Object(Seq::empty())
                });
            },
        }
    }
}

/// Closing the innermost container keeps the path and the open containers
/// in agreement.
proof fn lemma_close_shape(c: ContextModel)
    requires
        json_at(c.value, c.value_path) is Some,
        path_shape(c),
        c.open_containers.len() > 0,
    ensures
        end_nested(c).value_path.len() <= c.open_containers.len() - 1 <= end_nested(
            c,
        ).value_path.len() + 1,
        !(c.value is Null),
        end_nested(c).value_path.len() > 0 ==> is_container(
            json_at(c.value, end_nested(c).value_path),
        ),
{
    let path = c.value_path;
    if path.len() > 1 {
        let dl = path.drop_last();
        lemma_at_prefix(c.value, path);
        lemma_path_push(c.value, dl, path.last(), c.value);
        assert(dl.push(path.last()) =~= path);
        let x = json_at(c.value, dl)->Some_0;
        assert(json_at(x, seq![path.last()]) is Some);
        assert(seq![path.last()][0] == path.last());
    }
}

/// A shorter path leads somewhere too.
proof fn lemma_at_prefix(root: Json, path: Seq<PathStep>)
    requires
        json_at(root, path) is Some,
        path.len() > 0,
    ensures
        json_at(root, path.drop_last()) is Some,
    decreases path.len(),
{
    if path.len() > 1 {
        assert(path.drop_last().drop_first() =~= path.drop_first().drop_last());
        assert(path.drop_last()[0] == path[0]);
        match (root, path[0]) {
            (Json::Array(a), PathStep::Index(i)) => {
                lemma_at_prefix(a[i], path.drop_first());
            },
            (Json::Object(e), PathStep::Key(k)) => {
                lemma_find_key_range(e, k, 0);
                lemma_at_prefix(e[find_key_from(e, k, 0)].1, path.drop_first());
            },
            _ => {},
        }
    } else {
        assert(path.drop_last() =~= Seq::<PathStep>::empty());
    }
}

/// A key that some entry holds is found.
proof fn lemma_find_key_present(e: Seq<(Seq<char>, Json)>, k: Seq<char>, p: int, i: int)
    requires
        0 <= i <= p < e.len(),
        e[p].0 == k,
    ensures
        find_key_from(e, k, i) >= 0,
    decreases p - i,
{
    if i < p && e[i].0 != k {
        lemma_find_key_present(e, k, p, i + 1);
    }
}

/// An action where the path leads never fails for want of a place, and the
/// path it leaves leads somewhere.
proof fn lemma_act_sound(c: ContextModel, action: NodeAction)
    requires
        json_at(c.value, c.value_path) is Some,
    ensures
        act_in_context(c, action) is Ok ==> json_at(
            act_in_context(c, action)->Ok_0.value,
            act_in_context(c, action)->Ok_0.value_path,
        ) is Some,
        act_in_context(c, action) is Err ==> {
            let f = act_in_context(c, action)->Err_0;
            f != Failure::InvalidValueLocation && f != Failure::NotAContainer && f
                != Failure::KindMismatch
        },
{
    let path = c.value_path;
    lemma_act_at(c.value, path, action);
    let node = json_at(c.value, path)->Some_0;
    if act_here(node, action) is Ok {
        let (n, child) = act_here(node, action)->Ok_0;
        let v1 = json_put(c.value, path, n);
        lemma_at_put(c.value, path, n);
        if let Some(step) = child {
            lemma_path_push(v1, path, step, n);
            let empty: Seq<PathStep> = Seq::empty();
            assert(seq![step].drop_first() =~= empty);
            assert(seq![step][0] == step);
            match node {
                Json::Array(a) => {
                    let a1 = n->Array_0;
                    assert(a1.len() == a.len() + 1);
                    assert(json_at(a1[a.len() as int], empty) is Some);
                    assert(json_at(n, seq![step]) is Some);
                },
                Json::Object(e) => {
                    let p = waiting_entry(e);
                    waiting_entry_sorts_first(e);
                    let e1 = n->Object_0;
                    let k = e[p].0;
                    assert(e1[p].0 == k);
                    lemma_find_key_present(e1, k, p, 0);
                    lemma_find_key_range(e1, k, 0);
                    let q = find_key_from(e1, k, 0);
                    assert(json_at(e1[q].1, empty) is Some);
                    assert(json_at(n, seq![step]) is Some);
                },
                _ => {},
            }
        }
    }
}

proof fn lemma_end_nested_sound(c: ContextModel)
    requires
        json_at(c.value, c.value_path) is Some,
    ensures
        json_at(end_nested(c).value, end_nested(c).value_path) is Some,
{
    if c.value_path.len() > 0 {
        lemma_at_prefix(c.value, c.value_path);
    }
}

/// Everything an action keeps, in one place.
proof fn lemma_act_all(c: ContextModel, action: NodeAction)
    requires
        sound_state(c),
        action matches NodeAction::Place(v) ==> (v is Number || v is Str),
    ensures
        act_in_context(c, action) is Ok ==> {
            let m = act_in_context(c, action)->Ok_0;
            &&& json_at(m.value, m.value_path) is Some
            &&& keys_distinct(m.value)
            &&& !(m.value is Null)
            &&& m.value_path.len() > 0 ==> is_container(json_at(m.value, m.value_path))
            &&& action is Place ==> m.value_path == c.value_path
            &&& !(action is Place) ==> m.value_path.len() == c.value_path.len() + (if c.value is Null {
                0int
            } else {
                1int
            })
        },
        act_in_context(c, action) is Ok && action is Place ==> open_along_path(
            act_in_context(c, action)->Ok_0,
        ),
        act_in_context(c, action) is Ok && action is OpenArray ==> open_along_path(
            ContextModel {
                open_containers: c.open_containers.push(BencodeKind::List),
                ..act_in_context(c, action)->Ok_0
            },
        ),
        act_in_context(c, action) is Ok && action is OpenObject ==> open_along_path(
            ContextModel {
                open_containers: c.open_containers.push(BencodeKind::Dictionary),
                ..act_in_context(c, action)->Ok_0
            },
        ),
        act_in_context(c, action) is Err ==> {
            let f = act_in_context(c, action)->Err_0;
            f != Failure::InvalidValueLocation && f != Failure::NotAContainer && f
                != Failure::KindMismatch
        },
{
    lemma_act_sound(c, action);
    lemma_act_shape(c, action);
    lemma_act_keeps_keys_distinct(c, action);
    match action {
        NodeAction::Place(_) => lemma_place_kinds(c, action),
        NodeAction::OpenArray => lemma_open_kinds(c, action, BencodeKind::List),
        NodeAction::OpenObject => lemma_open_kinds(c, action, BencodeKind::Dictionary),
    }
}

/// One character from a reachable state leads to a reachable state, or fails
/// for a reason other than a missing container, kind or place.
proof fn lemma_step_sound(c: ContextModel, ch: char)
    requires
        sound_state(c),
    ensures
        step(c, ch) is Ok ==> sound_state(step(c, ch)->Ok_0),
        step(c, ch) is Err ==> {
            let f = step(c, ch)->Err_0;
            f != Failure::NotAContainer && f != Failure::KindMismatch && f
                != Failure::InvalidValueLocation
        },
{
    lemma_act_all(c, NodeAction::OpenArray);
    lemma_act_all(c, NodeAction::OpenObject);
    lemma_end_nested_sound(c);
    assert(crate::bencode::character_processor::active_kind(c) != Some(BencodeKind::Dictionary));

    let data = c.data_chars.push(ch);
    lemma_act_all(ContextModel { data_chars: data, ..c }, NodeAction::Place(Json::Str(data)));
    match crate::bencode::number::parse_isize_spec(c.data_chars) {
        Some(n) => lemma_act_all(c, NodeAction::Place(Json::Number(n as int))),
        None => {},
    }
    match crate::bencode::number::parse_usize_spec(c.meta_chars) {
        Some(n) => lemma_act_all(
            ContextModel { value_length: n, ..c },
            NodeAction::Place(Json::Str(c.data_chars)),
        ),
        None => {},
    }
    if c.open_containers.len() > 0 {
        lemma_close_shape(c);
        lemma_close_kinds(c);
        let rest = c.open_containers.drop_last();
        assert(c.open_containers[c.open_containers.len() - 1] == c.open_containers.last());
        assert(c.open_containers.last() == BencodeKind::List || c.open_containers.last()
            == BencodeKind::Dictionary);
        assert forall|i: int| 0 <= i < rest.len() implies #[trigger] rest[i] == BencodeKind::List
            || rest[i] == BencodeKind::Dictionary by {
            assert(rest[i] == c.open_containers[i]);
        }
    }
    assert forall|k: BencodeKind, i: int|
        0 <= i < c.open_containers.push(k).len() && (k == BencodeKind::List || k
            == BencodeKind::Dictionary) implies #[trigger] c.open_containers.push(k)[i]
        == BencodeKind::List || c.open_containers.push(k)[i] == BencodeKind::Dictionary by {
        if i < c.open_containers.len() {
            assert(c.open_containers.push(k)[i] == c.open_containers[i]);
        }
    }
}

/// Decoding never fails for want of a container to close, of a kind to
/// read, or of a place to put a value: every state it reaches has its open
/// containers all lists or dictionaries, a path that leads to a value with
/// as many steps as there are open containers or one fewer, open containers
/// that are the lists and dictionaries along that path, outermost first, and
/// dictionaries without a repeated key.
pub proof fn decoding_reaches_only_sound_states(s: Seq<char>)
    ensures
        run(initial_context(), s) is Ok ==> sound_state(run(initial_context(), s)->Ok_0),
        run(initial_context(), s) is Err ==> {
            let f = run(initial_context(), s)->Err_0;
            f != Failure::NotAContainer && f != Failure::KindMismatch && f
                != Failure::InvalidValueLocation
        },
    decreases s.len(),
{
    if s.len() == 0 {
        assert(json_at(initial_context().value, initial_context().value_path) is Some);
    } else {
        decoding_reaches_only_sound_states(s.drop_last());
        if run(initial_context(), s.drop_last()) is Ok {
            lemma_step_sound(run(initial_context(), s.drop_last())->Ok_0, s.last());
        }
    }
}

/// A decoded value holds no key twice in any dictionary, and at most one
/// key per dictionary that still waits for its value.
pub proof fn decoded_values_are_maps(s: Seq<char>)
    ensures
        decode_spec(s) is Ok ==> keys_distinct(decode_spec(s)->Ok_0) && settled(
            decode_spec(s)->Ok_0,
        ),
{
    decoding_reaches_only_sound_states(s);
    decoding_keeps_one_waiting_key(s);
}

/// A list or dictionary at the top has been closed: the top value is done.
pub open spec fn top_closed(r: Result<ContextModel, Failure>) -> bool {
    r matches Ok(m) && m.open_containers.len() == 0 && (m.value is Array || m.value is Object)
}

/// The path is one step shorter than the open containers, and empty while
/// none is open.
pub open spec fn one_step_shorter(c: ContextModel) -> bool {
    c.value_path.len() == if c.open_containers.len() == 0 {
        0
    } else {
        c.open_containers.len() - 1
    }
}

/// One character keeps the path one step shorter than the open containers,
/// unless the top value was a closed list or dictionary.
pub(crate) proof fn lemma_step_one_shorter(c: ContextModel, ch: char)
    requires
        sound_state(c),
        one_step_shorter(c),
        !top_closed(Ok(c)),
    ensures
        step(c, ch) is Ok ==> one_step_shorter(step(c, ch)->Ok_0),
{
    lemma_act_all(c, NodeAction::OpenArray);
    lemma_act_all(c, NodeAction::OpenObject);
    let data = c.data_chars.push(ch);
    lemma_act_all(ContextModel { data_chars: data, ..c }, NodeAction::Place(Json::Str(data)));
    match crate::bencode::number::parse_isize_spec(c.data_chars) {
        Some(n) => lemma_act_all(c, NodeAction::Place(Json::Number(n as int))),
        None => {},
    }
    match crate::bencode::number::parse_usize_spec(c.meta_chars) {
        Some(n) => lemma_act_all(
            ContextModel { value_length: n, ..c },
            NodeAction::Place(Json::Str(c.data_chars)),
        ),
        None => {},
    }
    if c.open_containers.len() == 0 {
        let empty: Seq<PathStep> = Seq::empty();
        assert(c.value_path =~= empty);
        assert(json_at(c.value, c.value_path) == Some(c.value));
        lemma_act_at(c.value, c.value_path, NodeAction::OpenArray);
        lemma_act_at(c.value, c.value_path, NodeAction::OpenObject);
    }
}

/// Within the text of one value, where no list or dictionary at the top is
/// closed before the last character, the path is exactly one step shorter
/// than the open containers, and empty while none is open.
pub proof fn path_one_step_shorter_within_one_value(s: Seq<char>)
    ensures
        run(initial_context(), s) is Ok && (forall|i: int|
            0 <= i < s.len() ==> !top_closed(#[trigger] run(initial_context(), s.take(i))))
            ==> one_step_shorter(run(initial_context(), s)->Ok_0),
    decreases s.len(),
{
    if s.len() > 0 {
        let d = s.drop_last();
        path_one_step_shorter_within_one_value(d);
        if run(initial_context(), s) is Ok && (forall|i: int|
            0 <= i < s.len() ==> !top_closed(#[trigger] run(initial_context(), s.take(i)))) {
            assert forall|i: int| 0 <= i < d.len() implies !top_closed(
                #[trigger] run(initial_context(), d.take(i)),
            ) by {
                assert(d.take(i) =~= s.take(i));
                assert(!top_closed(run(initial_context(), s.take(i))));
            }
            assert(s.take(d.len() as int) =~= d);
            assert(!top_closed(run(initial_context(), s.take(d.len() as int))));
            decoding_reaches_only_sound_states(d);
            lemma_step_one_shorter(run(initial_context(), d)->Ok_0, s.last());
        }
    }
}

} // verus!
