//! Reading and replacing the value that a path leads to.
use crate::bencode::types::{
    act_at, act_here, act_in_context, find_key_from, lemma_find_key_range, object_insert,
    waiting_entry, waiting_entry_sorts_first, ContextModel, Json, NodeAction, PathStep,
};
use vstd::prelude::*;

verus! {

/// The value that `path` leads to from `node`, if it leads anywhere.
pub open spec fn json_at(node: Json, path: Seq<PathStep>) -> Option<Json>
    decreases path.len(),
{
    if path.len() == 0 {
        Some(node)
    } else {
        match (node, path[0]) {
            (Json::Array(a), PathStep::Index(i)) => if 0 <= i < a.len() {
                json_at(a[i], path.drop_first())
            } else {
                None
            },
            (Json::Object(e), PathStep::Key(k)) => {
                let p = find_key_from(e, k, 0);
                if p >= 0 {
                    json_at(e[p].1, path.drop_first())
                } else {
                    None
                }
            },
            _ => None,
        }
    }
}

/// `node` with the value that `path` leads to replaced by `x`.
pub open spec fn json_put(node: Json, path: Seq<PathStep>, x: Json) -> Json
    decreases path.len(),
{
    if path.len() == 0 {
        x
    } else {
        match (node, path[0]) {
            (Json::Array(a), PathStep::Index(i)) => if 0 <= i < a.len() {
                Json::Array(a.update(i, json_put(a[i], path.drop_first(), x)))
            } else {
                node
            },
            (Json::Object(e), PathStep::Key(k)) => {
                let p = find_key_from(e, k, 0);
                if p >= 0 {
                    Json::Object(e.update(p, (e[p].0, json_put(e[p].1, path.drop_first(), x))))
                } else {
                    node
                }
            },
            _ => node,
        }
    }
}

/// An action at the end of a path is the action on the value found there,
/// put back in its place.
pub proof fn lemma_act_at(node: Json, path: Seq<PathStep>, action: NodeAction)
    ensures
        act_at(node, path, action) == match json_at(node, path) {
            None => Err(crate::bencode::types::Failure::InvalidValueLocation),
            Some(n) => match act_here(n, action) {
                Ok((m, c)) => Ok((json_put(node, path, m), c)),
                Err(f) => Err(f),
            },
        },
    decreases path.len(),
{
    if path.len() > 0 {
        match (node, path[0]) {
            (Json::Array(a), PathStep::Index(i)) => {
                if 0 <= i < a.len() {
                    lemma_act_at(a[i], path.drop_first(), action);
                }
            },
            (Json::Object(e), PathStep::Key(k)) => {
                let p = find_key_from(e, k, 0);
                lemma_find_key_range(e, k, 0);
                if p >= 0 {
                    lemma_act_at(e[p].1, path.drop_first(), action);
                }
            },
            _ => {},
        }
    }
}

/// Changing values leaves the search for a key where it was.
pub proof fn lemma_find_key_values(e: Seq<(Seq<char>, Json)>, p: int, x: Json, k: Seq<char>, i: int)
    requires
        0 <= p < e.len(),
    ensures
        find_key_from(e.update(p, (e[p].0, x)), k, i) == find_key_from(e, k, i),
    decreases e.len() - i,
{
    if 0 <= i < e.len() {
        lemma_find_key_values(e, p, x, k, i + 1);
    }
}

/// What was put is found again.
pub proof fn lemma_at_put(node: Json, path: Seq<PathStep>, x: Json)
    requires
        json_at(node, path) is Some,
    ensures
        json_at(json_put(node, path, x), path) == Some(x),
    decreases path.len(),
{
    if path.len() > 0 {
        match (node, path[0]) {
            (Json::Array(a), PathStep::Index(i)) => {
                lemma_at_put(a[i], path.drop_first(), x);
            },
            (Json::Object(e), PathStep::Key(k)) => {
                let p = find_key_from(e, k, 0);
                lemma_find_key_range(e, k, 0);
                lemma_at_put(e[p].1, path.drop_first(), x);
                lemma_find_key_values(e, p, json_put(e[p].1, path.drop_first(), x), k, 0);
            },
            _ => {},
        }
    }
}

/// A second put at the same place undoes the first.
pub proof fn lemma_put_put(node: Json, path: Seq<PathStep>, x: Json, y: Json)
    requires
        json_at(node, path) is Some,
    ensures
        json_put(json_put(node, path, x), path, y) == json_put(node, path, y),
    decreases path.len(),
{
    if path.len() > 0 {
        match (node, path[0]) {
            (Json::Array(a), PathStep::Index(i)) => {
                lemma_put_put(a[i], path.drop_first(), x, y);
                assert(a.update(i, json_put(a[i], path.drop_first(), x)).update(
                    i,
                    json_put(json_put(a[i], path.drop_first(), x), path.drop_first(), y),
                ) =~= a.update(i, json_put(a[i], path.drop_first(), y)));
            },
            (Json::Object(e), PathStep::Key(k)) => {
                let p = find_key_from(e, k, 0);
                lemma_find_key_range(e, k, 0);
                lemma_put_put(e[p].1, path.drop_first(), x, y);
                let x1 = json_put(e[p].1, path.drop_first(), x);
                lemma_find_key_values(e, p, x1, k, 0);
                assert(e.update(p, (e[p].0, x1)).update(
                    p,
                    (e[p].0, json_put(x1, path.drop_first(), y)),
                ) =~= e.update(p, (e[p].0, json_put(e[p].1, path.drop_first(), y))));
            },
            _ => {},
        }
    }
}

/// One more step: found from the value the path leads to, and put back
/// through it.
pub proof fn lemma_path_push(node: Json, path: Seq<PathStep>, step: PathStep, x: Json)
    requires
        json_at(node, path) is Some,
    ensures
        json_at(node, path.push(step)) == json_at(json_at(node, path)->Some_0, seq![step]),
        json_at(json_at(node, path)->Some_0, seq![step]) is Some ==> json_put(
            node,
            path.push(step),
            x,
        ) == json_put(node, path, json_put(json_at(node, path)->Some_0, seq![step], x)),
    decreases path.len(),
{
    if path.len() == 0 {
        assert(path.push(step) =~= seq![step]);
    } else {
        assert(path.push(step).drop_first() =~= path.drop_first().push(step));
        assert(path.push(step)[0] == path[0]);
        match (node, path[0]) {
            (Json::Array(a), PathStep::Index(i)) => {
                lemma_path_push(a[i], path.drop_first(), step, x);
            },
            (Json::Object(e), PathStep::Key(k)) => {
                let p = find_key_from(e, k, 0);
                lemma_find_key_range(e, k, 0);
                lemma_path_push(e[p].1, path.drop_first(), step, x);
            },
            _ => {},
        }
    }
}


/// Putting back what is there changes nothing.
pub proof fn lemma_put_at(node: Json, path: Seq<PathStep>)
    requires
        json_at(node, path) is Some,
    ensures
        json_put(node, path, json_at(node, path)->Some_0) == node,
    decreases path.len(),
{
    if path.len() > 0 {
        match (node, path[0]) {
            (Json::Array(a), PathStep::Index(i)) => {
                lemma_put_at(a[i], path.drop_first());
                assert(a.update(i, a[i]) =~= a);
            },
            (Json::Object(e), PathStep::Key(k)) => {
                let p = find_key_from(e, k, 0);
                lemma_find_key_range(e, k, 0);
                lemma_put_at(e[p].1, path.drop_first());
                assert(e.update(p, (e[p].0, e[p].1)) =~= e);
            },
            _ => {},
        }
    }
}

/// No key occurs twice.
pub open spec fn distinct_keys(e: Seq<(Seq<char>, Json)>) -> bool {
    forall|i: int, j: int| 0 <= i < j < e.len() ==> #[trigger] e[i].0 != #[trigger] e[j].0
}

/// Every dictionary in `j`, at any depth, holds each key once, as a map
/// does.
pub open spec fn keys_distinct(j: Json) -> bool
    decreases j,
{
    match j {
        Json::Array(items) => forall|i: int| 0 <= i < items.len() ==> keys_distinct(#[trigger] items[i]),
        Json::Object(e) => distinct_keys(e) && forall|i: int|
            0 <= i < e.len() ==> keys_distinct(#[trigger] e[i].1),
        _ => true,
    }
}

/// A key that no entry holds is not found.
pub proof fn lemma_find_key_absent(e: Seq<(Seq<char>, Json)>, k: Seq<char>, i: int)
    requires
        forall|j: int| 0 <= j < e.len() ==> (#[trigger] e[j]).0 != k,
    ensures
        find_key_from(e, k, i) == -1,
    decreases e.len() - i,
{
    if 0 <= i < e.len() {
        lemma_find_key_absent(e, k, i + 1);
    }
}

/// A key that is not found is held by no entry from `i` on.
pub proof fn lemma_find_key_missing(e: Seq<(Seq<char>, Json)>, k: Seq<char>, i: int)
    requires
        0 <= i,
        find_key_from(e, k, i) == -1,
    ensures
        forall|j: int| i <= j < e.len() ==> (#[trigger] e[j]).0 != k,
    decreases e.len() - i,
{
    if i < e.len() {
        lemma_find_key_missing(e, k, i + 1);
    }
}

/// Where keys are distinct, a key is found at the one entry that holds it.
pub proof fn lemma_find_key_distinct(e: Seq<(Seq<char>, Json)>, p: int, i: int)
    requires
        distinct_keys(e),
        0 <= i <= p < e.len(),
    ensures
        find_key_from(e, e[p].0, i) == p,
    decreases p - i,
{
    if i < p {
        assert(e[i].0 != e[p].0);
        lemma_find_key_distinct(e, p, i + 1);
    }
}

/// The value a path leads to keeps its keys distinct.
proof fn lemma_at_distinct(node: Json, path: Seq<PathStep>)
    requires
        keys_distinct(node),
        json_at(node, path) is Some,
    ensures
        keys_distinct(json_at(node, path)->Some_0),
    decreases path.len(),
{
    if path.len() > 0 {
        match (node, path[0]) {
            (Json::Array(a), PathStep::Index(i)) => {
                lemma_at_distinct(a[i], path.drop_first());
            },
            (Json::Object(e), PathStep::Key(k)) => {
                lemma_find_key_range(e, k, 0);
                lemma_at_distinct(e[find_key_from(e, k, 0)].1, path.drop_first());
            },
            _ => {},
        }
    }
}

/// Putting a value with distinct keys in place keeps the keys distinct.
proof fn lemma_put_distinct(node: Json, path: Seq<PathStep>, x: Json)
    requires
        keys_distinct(node),
        keys_distinct(x),
        json_at(node, path) is Some,
    ensures
        keys_distinct(json_put(node, path, x)),
    decreases path.len(),
{
    if path.len() > 0 {
        match (node, path[0]) {
            (Json::Array(a), PathStep::Index(i)) => {
                let y = json_put(a[i], path.drop_first(), x);
                lemma_put_distinct(a[i], path.drop_first(), x);
                let a1 = a.update(i, y);
                assert forall|j: int| 0 <= j < a1.len() implies keys_distinct(#[trigger] a1[j]) by {
                    if j != i {
                        assert(a1[j] == a[j]);
                    }
                }
            },
            (Json::Object(e), PathStep::Key(k)) => {
                lemma_find_key_range(e, k, 0);
                let p = find_key_from(e, k, 0);
                let y = json_put(e[p].1, path.drop_first(), x);
                lemma_put_distinct(e[p].1, path.drop_first(), x);
                let e1 = e.update(p, (e[p].0, y));
                assert forall|j: int| 0 <= j < e1.len() implies keys_distinct(#[trigger] e1[j].1) by {
                    if j != p {
                        assert(e1[j] == e[j]);
                    }
                }
                assert forall|i: int, j: int| 0 <= i < j < e1.len() implies #[trigger] e1[i].0
                    != #[trigger] e1[j].0 by {
                    assert(e1[i].0 == e[i].0 && e1[j].0 == e[j].0);
                }
            },
            _ => {},
        }
    }
}

/// An action keeps the keys distinct where the value it places has
/// distinct keys.
proof fn lemma_act_here_distinct(node: Json, action: NodeAction)
    requires
        keys_distinct(node),
        action matches NodeAction::Place(v) ==> keys_distinct(v),
        act_here(node, action) is Ok,
    ensures
        keys_distinct(act_here(node, action)->Ok_0.0),
{
    let fresh_array = Json::Array(Seq::<Json>::empty());
    let fresh_object = Json::Object(Seq::<(Seq<char>, Json)>::empty());
    let x = match action {
        NodeAction::Place(v) => v,
        NodeAction::OpenArray => fresh_array,
        NodeAction::OpenObject => fresh_object,
    };
    assert(keys_distinct(x));
    match node {
        Json::Array(a) => {
            let a1 = a.push(x);
            assert forall|j: int| 0 <= j < a1.len() implies keys_distinct(#[trigger] a1[j]) by {
                if j < a.len() {
                    assert(a1[j] == a[j]);
                }
            }
        },
        Json::Object(e) => {
            let p = waiting_entry(e);
            waiting_entry_sorts_first(e);
            if p >= 0 {
                let e1 = e.update(p, (e[p].0, x));
                assert forall|j: int| 0 <= j < e1.len() implies keys_distinct(#[trigger] e1[j].1) by {
                    if j != p {
                        assert(e1[j] == e[j]);
                    }
                }
                assert forall|i: int, j: int| 0 <= i < j < e1.len() implies #[trigger] e1[i].0
                    != #[trigger] e1[j].0 by {
                    assert(e1[i].0 == e[i].0 && e1[j].0 == e[j].0);
                }
            } else if let NodeAction::Place(Json::Str(s)) = action {
                let q = find_key_from(e, s, 0);
                lemma_find_key_range(e, s, 0);
                let e1 = object_insert(e, s, Json::Null);
                if q >= 0 {
                    assert(e1 == e.update(q, (s, Json::Null)));
                    assert forall|j: int| 0 <= j < e1.len() implies keys_distinct(#[trigger] e1[j].1) by {
                        if j != q {
                            assert(e1[j] == e[j]);
                        }
                    }
                    assert forall|i: int, j: int| 0 <= i < j < e1.len() implies #[trigger] e1[i].0
                        != #[trigger] e1[j].0 by {
                        assert(e1[i].0 == e[i].0 && e1[j].0 == e[j].0);
                    }
                } else {
                    lemma_find_key_missing(e, s, 0);
                    assert(e1 == e.push((s, Json::Null)));
                    assert forall|j: int| 0 <= j < e1.len() implies keys_distinct(#[trigger] e1[j].1) by {
                        if j < e.len() {
                            assert(e1[j] == e[j]);
                        }
                    }
                    assert forall|i: int, j: int| 0 <= i < j < e1.len() implies #[trigger] e1[i].0
                        != #[trigger] e1[j].0 by {
                        assert(e1[i] == e[i]);
                        if j < e.len() {
                            assert(e1[j] == e[j]);
                        }
                    }
                }
            }
        },
        _ => {},
    }
}

/// An action in a state whose keys are distinct keeps them distinct, where
/// the value it places has distinct keys.
pub proof fn lemma_act_keeps_keys_distinct(c: ContextModel, action: NodeAction)
    requires
        keys_distinct(c.value),
        action matches NodeAction::Place(v) ==> keys_distinct(v),
    ensures
        act_in_context(c, action) is Ok ==> keys_distinct(act_in_context(c, action)->Ok_0.value),
{
    lemma_act_at(c.value, c.value_path, action);
    if act_in_context(c, action) is Ok {
        let node = json_at(c.value, c.value_path)->Some_0;
        lemma_at_distinct(c.value, c.value_path);
        lemma_act_here_distinct(node, action);
        lemma_put_distinct(c.value, c.value_path, act_here(node, action)->Ok_0.0);
    }
}

/// Opening a container in a state whose keys are distinct: the path then
/// leads to the new, empty container.
pub proof fn lemma_open_leads_to_child(c: ContextModel, action: NodeAction, fresh: Json)
    requires
        keys_distinct(c.value),
        (action == NodeAction::OpenArray && fresh == Json::Array(Seq::empty())) || (action
            == NodeAction::OpenObject && fresh == Json::Object(Seq::empty())),
    ensures
        act_in_context(c, action) is Ok ==> json_at(
            act_in_context(c, action)->Ok_0.value,
            act_in_context(c, action)->Ok_0.value_path,
        ) == Some(fresh),
{
    let v = c.value;
    let path = c.value_path;
    lemma_act_at(v, path, action);
    if act_in_context(c, action) is Ok {
        let node = json_at(v, path)->Some_0;
        lemma_at_distinct(v, path);
        let empty: Seq<PathStep> = Seq::empty();
        match node {
            Json::Array(a) => {
                let step = PathStep::Index(a.len() as int);
                let a1 = Json::Array(a.push(fresh));
                let v1 = json_put(v, path, a1);
                lemma_at_put(v, path, a1);
                lemma_path_push(v1, path, step, fresh);
                assert(seq![step].drop_first() =~= empty);
                assert(seq![step][0] == step);
                assert(a.push(fresh)[a.len() as int] == fresh);
                assert(json_at(fresh, empty) == Some(fresh));
                assert(json_at(a1, seq![step]) == Some(fresh));
                assert(path.push(step).drop_last() =~= path);
            },
            Json::Object(e) => {
                let p = waiting_entry(e);
                waiting_entry_sorts_first(e);
                let k = e[p].0;
                let step = PathStep::Key(k);
                let e1 = e.update(p, (k, fresh));
                let o1 = Json::Object(e1);
                let v1 = json_put(v, path, o1);
                lemma_find_key_distinct(e, p, 0);
                lemma_find_key_values(e, p, fresh, k, 0);
                assert(find_key_from(e1, k, 0) == p);
                lemma_at_put(v, path, o1);
                lemma_path_push(v1, path, step, fresh);
                assert(seq![step].drop_first() =~= empty);
                assert(seq![step][0] == step);
                assert(json_at(fresh, empty) == Some(fresh));
                assert(json_at(o1, seq![step]) == Some(fresh));
            },
            _ => {
                lemma_at_put(v, path, fresh);
            },
        }
    }
}

/// Walking `p` and then `q` is walking `p + q`.
pub proof fn lemma_at_concat(node: Json, p: Seq<PathStep>, q: Seq<PathStep>)
    requires
        json_at(node, p) is Some,
    ensures
        json_at(node, p + q) == json_at(json_at(node, p)->Some_0, q),
    decreases p.len(),
{
    if p.len() == 0 {
        assert(p + q =~= q);
    } else {
        assert((p + q).drop_first() =~= p.drop_first() + q);
        assert((p + q)[0] == p[0]);
        match (node, p[0]) {
            (Json::Array(a), PathStep::Index(i)) => {
                lemma_at_concat(a[i], p.drop_first(), q);
            },
            (Json::Object(e), PathStep::Key(k)) => {
                lemma_find_key_range(e, k, 0);
                lemma_at_concat(e[find_key_from(e, k, 0)].1, p.drop_first(), q);
            },
            _ => {},
        }
    }
}

/// Putting at the end of `p + q` is putting, at the end of `p`, what stands
/// there with the end of `q` replaced.
pub proof fn lemma_put_concat(node: Json, p: Seq<PathStep>, q: Seq<PathStep>, x: Json)
    requires
        json_at(node, p) is Some,
    ensures
        json_put(node, p + q, x) == json_put(node, p, json_put(json_at(node, p)->Some_0, q, x)),
    decreases p.len(),
{
    if p.len() == 0 {
        assert(p + q =~= q);
    } else {
        assert((p + q).drop_first() =~= p.drop_first() + q);
        assert((p + q)[0] == p[0]);
        match (node, p[0]) {
            (Json::Array(a), PathStep::Index(i)) => {
                lemma_put_concat(a[i], p.drop_first(), q, x);
            },
            (Json::Object(e), PathStep::Key(k)) => {
                lemma_find_key_range(e, k, 0);
                lemma_put_concat(e[find_key_from(e, k, 0)].1, p.drop_first(), q, x);
            },
            _ => {},
        }
    }
}

/// The value a dictionary holds for `k`, as a map would give it.
pub open spec fn lookup(e: Seq<(Seq<char>, Json)>, k: Seq<char>) -> Option<Json> {
    if find_key_from(e, k, 0) >= 0 {
        Some(e[find_key_from(e, k, 0)].1)
    } else {
        None
    }
}

proof fn lemma_find_key_push(e: Seq<(Seq<char>, Json)>, entry: (Seq<char>, Json), k: Seq<char>, i: int)
    requires
        0 <= i <= e.len(),
    ensures
        find_key_from(e.push(entry), k, i) == if find_key_from(e, k, i) >= 0 {
            find_key_from(e, k, i)
        } else if entry.0 == k {
            e.len() as int
        } else {
            -1
        },
    decreases e.len() - i,
{
    if i < e.len() {
        assert(e.push(entry)[i] == e[i]);
        lemma_find_key_push(e, entry, k, i + 1);
    } else {
        assert(e.push(entry)[i] == entry);
        assert(find_key_from(e.push(entry), k, i + 1) == -1);
    }
}

/// Placing a finished value in a list makes it the new last item and leaves
/// the items before it.
pub proof fn placing_in_a_list(a: Seq<Json>, v: Json)
    ensures
        act_here(Json::Array(a), NodeAction::Place(v)) matches Ok((Json::Array(b), None)) && b.len()
            == a.len() + 1 && b.take(a.len() as int) == a && b.last() == v,
{
    assert(a.push(v).take(a.len() as int) =~= a);
}

/// In place of no value, an integer or a string, a placed value simply
/// stands.
pub proof fn placing_over_a_value(node: Json, v: Json)
    requires
        node is Null || node is Number || node is Str,
    ensures
        act_here(node, NodeAction::Place(v)) == Ok::<(Json, Option<PathStep>), crate::bencode::types::Failure>((v, None)),
{
}

/// Placing a finished value in a dictionary whose keys are distinct, as a
/// map does: where a key waits, that key gets the value and no other key's
/// value changes; where none waits, a string becomes a new key waiting for
/// its value, as `Map::insert(k, Null)` does, no other key's value changing,
/// and anything else is refused. The keys stay distinct.
pub proof fn placing_in_a_dictionary(e: Seq<(Seq<char>, Json)>, v: Json)
    requires
        distinct_keys(e),
    ensures
        ({
            let r = act_here(Json::Object(e), NodeAction::Place(v));
            &&& waiting_entry(e) >= 0 ==> r is Ok && r->Ok_0.1 is None && r->Ok_0.0 is Object
                && distinct_keys(r->Ok_0.0->Object_0) && forall|k: Seq<char>|
                #[trigger] lookup(r->Ok_0.0->Object_0, k) == if k == e[waiting_entry(e)].0 {
                    Some(v)
                } else {
                    lookup(e, k)
                }
            &&& waiting_entry(e) < 0 && v is Str ==> r is Ok && r->Ok_0.1 is None && r->Ok_0.0 is Object
                && distinct_keys(r->Ok_0.0->Object_0) && forall|k: Seq<char>|
                #[trigger] lookup(r->Ok_0.0->Object_0, k) == if k == v->Str_0 {
                    Some(Json::Null)
                } else {
                    lookup(e, k)
                }
            &&& waiting_entry(e) < 0 && !(v is Str) ==> r == Err::<
                (Json, Option<PathStep>),
                crate::bencode::types::Failure,
            >(crate::bencode::types::Failure::NotAString(v))
        }),
{
    let w = waiting_entry(e);
    waiting_entry_sorts_first(e);
    if distinct_keys(e) && w >= 0 {
        let e2 = e.update(w, (e[w].0, v));
        assert(distinct_keys(e2)) by {
            assert forall|i: int, j: int| 0 <= i < j < e2.len() implies #[trigger] e2[i].0
                != #[trigger] e2[j].0 by {
                assert(e2[i].0 == e[i].0 && e2[j].0 == e[j].0);
            }
        }
        assert forall|k: Seq<char>| #[trigger] lookup(e2, k) == if k == e[w].0 {
            Some(v)
        } else {
            lookup(e, k)
        } by {
            lemma_find_key_values(e, w, v, k, 0);
            lemma_find_key_range(e, k, 0);
            if k == e[w].0 {
                lemma_find_key_distinct(e, w, 0);
            }
        }
    }
    if distinct_keys(e) && w < 0 {
        if let Json::Str(key) = v {
            let q = find_key_from(e, key, 0);
            lemma_find_key_range(e, key, 0);
            if q >= 0 {
                let e2 = e.update(q, (key, Json::Null));
                assert(object_insert(e, key, Json::Null) == e2);
                assert(distinct_keys(e2)) by {
                    assert forall|i: int, j: int| 0 <= i < j < e2.len() implies #[trigger] e2[i].0
                        != #[trigger] e2[j].0 by {
                        assert(e2[i].0 == e[i].0 && e2[j].0 == e[j].0);
                    }
                }
                assert forall|k: Seq<char>| #[trigger] lookup(e2, k) == if k == key {
                    Some(Json::Null)
                } else {
                    lookup(e, k)
                } by {
                    lemma_find_key_values(e, q, Json::Null, k, 0);
                    lemma_find_key_range(e, k, 0);
                }
            } else {
                let e2 = e.push((key, Json::Null));
                assert(object_insert(e, key, Json::Null) == e2);
                lemma_find_key_missing(e, key, 0);
                assert(distinct_keys(e2)) by {
                    assert forall|i: int, j: int| 0 <= i < j < e2.len() implies #[trigger] e2[i].0
                        != #[trigger] e2[j].0 by {
                        assert(e2[i] == e[i]);
                        if j < e.len() {
                            assert(e2[j] == e[j]);
                        }
                    }
                }
                assert forall|k: Seq<char>| #[trigger] lookup(e2, k) == if k == key {
                    Some(Json::Null)
                } else {
                    lookup(e, k)
                } by {
                    lemma_find_key_push(e, (key, Json::Null), k, 0);
                    lemma_find_key_range(e, k, 0);
                    if find_key_from(e, k, 0) >= 0 {
                        assert(e2[find_key_from(e, k, 0)] == e[find_key_from(e, k, 0)]);
                    }
                    assert(e2[e.len() as int] == (key, Json::Null));
                }
            }
        }
    }
}

} // verus!
