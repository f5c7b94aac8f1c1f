//! Decoding a list or a dictionary from the texts of its items, whatever
//! texts they are: any text of one value, decoded where a list or a
//! dictionary takes a value, places that value there.
use crate::bencode::character_processor::{active_kind, step};
use crate::bencode::decoder::{decode_spec, lemma_run_concat, lemma_run_failure_persists, run};
use crate::bencode::encoding::{
    lemma_find_null_last, lemma_find_null_none, lemma_place_string, lemma_run_one, placed, ready,
    string_text,
};
use crate::bencode::number::{parse_isize_spec, parse_usize_spec};
use crate::bencode::shape::{
    decoding_reaches_only_sound_states, lemma_step_one_shorter, one_step_shorter, sound_state,
};
use crate::bencode::paths::{
    distinct_keys, json_at, json_put, lemma_act_at, lemma_at_concat, lemma_at_put,
    lemma_find_key_absent, lemma_find_key_distinct, lemma_put_at, lemma_find_key_values, lemma_put_concat, lemma_put_put,
};
use crate::bencode::types::{
    act_here, act_in_context, end_nested, BencodeKind, waiting_entry, waiting_entry_sorts_first,
    initial_context, ContextModel, Failure, Json, NodeAction, PathStep,
};
use vstd::prelude::*;
use vstd::utf8::encode_utf8;

verus! {

/// The path leads to a list, or to a dictionary without a repeated key in
/// which a key waits for its value.
pub open spec fn container_slot(c: ContextModel) -> bool {
    match json_at(c.value, c.value_path) {
        Some(Json::Array(_)) => true,
        Some(Json::Object(e)) => distinct_keys(e) && waiting_entry(e) >= 0,
        _ => false,
    }
}

/// The container the path of `c` leads to.
pub open spec fn slot_node(c: ContextModel) -> Json {
    json_at(c.value, c.value_path)->Some_0
}

/// The value of `c` with `x` placed where its path leads.
pub open spec fn slot_put(c: ContextModel, x: Json) -> Json {
    json_put(c.value, c.value_path, act_here(slot_node(c), NodeAction::Place(x))->Ok_0.0)
}

/// The path of `c` extended into the place where a value goes.
pub open spec fn slot_path(c: ContextModel) -> Seq<PathStep> {
    match slot_node(c) {
        Json::Array(a) => c.value_path.push(PathStep::Index(a.len() as int)),
        Json::Object(e) => c.value_path.push(PathStep::Key(e[waiting_entry(e)].0)),
        _ => c.value_path,
    }
}

/// A state decoded from the start, with value `x` and path `px`, matches a
/// state decoded from `c`, with value `y` and path `py`: nothing read yet
/// leaves `c` as it was; a value read is placed where `c` takes one, and
/// while it is open the path leads on into it.
pub open spec fn value_rel(
    c: ContextModel,
    x: Json,
    px: Seq<PathStep>,
    inside: bool,
    y: Json,
    py: Seq<PathStep>,
) -> bool {
    if x is Null {
        y == c.value && py == c.value_path && px.len() == 0
    } else {
        y == slot_put(c, x) && py == (if inside {
            slot_path(c) + px
        } else {
            c.value_path
        })
    }
}

/// The state `mp`, decoded from `c`, mirrors the state `m`, decoded from the
/// start over the same characters.
pub open spec fn mirrors(c: ContextModel, m: ContextModel, mp: ContextModel) -> bool {
    &&& mp.data_chars == m.data_chars
    &&& mp.meta_chars == m.meta_chars
    &&& mp.value_length == m.value_length
    &&& active_kind(mp) == active_kind(m)
    &&& active_kind(m) is Some ==> (mp.character == m.character && mp.kind == m.kind && mp.state
        == m.state)
    &&& mp.open_containers == c.open_containers + m.open_containers
    &&& value_rel(c, m.value, m.value_path, m.open_containers.len() > 0, mp.value, mp.value_path)
}

/// What a path leads to past the place where `c` takes a value is what it
/// leads to in the value placed there.
proof fn lemma_slot_at(c: ContextModel, x: Json, q: Seq<PathStep>)
    requires
        container_slot(c),
    ensures
        json_at(slot_put(c, x), slot_path(c) + q) == json_at(x, q),
{
    let v = c.value;
    let p = c.value_path;
    let node = slot_node(c);
    let n1 = act_here(node, NodeAction::Place(x))->Ok_0.0;
    lemma_at_put(v, p, n1);
    match node {
        Json::Array(a) => {
            let s = PathStep::Index(a.len() as int);
            assert(p.push(s) + q =~= p + (seq![s] + q));
            lemma_at_concat(json_put(v, p, n1), p, seq![s] + q);
            assert((seq![s] + q)[0] == s);
            assert((seq![s] + q).drop_first() =~= q);
            assert(a.push(x)[a.len() as int] == x);
        },
        Json::Object(e) => {
            let w = waiting_entry(e);
            waiting_entry_sorts_first(e);
            let k = e[w].0;
            let s = PathStep::Key(k);
            assert(p.push(s) + q =~= p + (seq![s] + q));
            lemma_at_concat(json_put(v, p, n1), p, seq![s] + q);
            assert((seq![s] + q)[0] == s);
            assert((seq![s] + q).drop_first() =~= q);
            lemma_find_key_distinct(e, w, 0);
            lemma_find_key_values(e, w, x, k, 0);
        },
        _ => {},
    }
}

/// Putting a value past the place where `c` takes a value is placing the
/// value there with the put made inside it.
proof fn lemma_slot_put(c: ContextModel, x: Json, q: Seq<PathStep>, z: Json)
    requires
        container_slot(c),
    ensures
        json_put(slot_put(c, x), slot_path(c) + q, z) == slot_put(c, json_put(x, q, z)),
{
    let v = c.value;
    let p = c.value_path;
    let node = slot_node(c);
    let n1 = act_here(node, NodeAction::Place(x))->Ok_0.0;
    let y = json_put(x, q, z);
    let n2 = act_here(node, NodeAction::Place(y))->Ok_0.0;
    lemma_at_put(v, p, n1);
    match node {
        Json::Array(a) => {
            let s = PathStep::Index(a.len() as int);
            assert(p.push(s) + q =~= p + (seq![s] + q));
            lemma_put_concat(json_put(v, p, n1), p, seq![s] + q, z);
            assert((seq![s] + q)[0] == s);
            assert((seq![s] + q).drop_first() =~= q);
            assert(a.push(x)[a.len() as int] == x);
            assert(a.push(x).update(a.len() as int, y) =~= a.push(y));
            lemma_put_put(v, p, n1, n2);
        },
        Json::Object(e) => {
            let w = waiting_entry(e);
            waiting_entry_sorts_first(e);
            let k = e[w].0;
            let s = PathStep::Key(k);
            assert(p.push(s) + q =~= p + (seq![s] + q));
            lemma_put_concat(json_put(v, p, n1), p, seq![s] + q, z);
            assert((seq![s] + q)[0] == s);
            assert((seq![s] + q).drop_first() =~= q);
            lemma_find_key_distinct(e, w, 0);
            lemma_find_key_values(e, w, x, k, 0);
            let e1 = e.update(w, (k, x));
            assert(e1.update(w, (k, y)) =~= e.update(w, (k, y)));
            lemma_put_put(v, p, n1, n2);
        },
        _ => {},
    }
}

/// An action on a state decoded from the start, mirrored on the state
/// decoded from `c`, succeeds there too and keeps the two in step.
proof fn lemma_act_mirrored(
    c: ContextModel,
    m: ContextModel,
    mp: ContextModel,
    inside: bool,
    action: NodeAction,
)
    requires
        container_slot(c),
        value_rel(c, m.value, m.value_path, inside, mp.value, mp.value_path),
        m.value is Null ==> !inside,
        !(m.value is Null) ==> inside && json_at(m.value, m.value_path) is Some,
        action matches NodeAction::Place(v) ==> (v is Number || v is Str),
        act_in_context(m, action) is Ok,
    ensures
        act_in_context(mp, action) is Ok,
        value_rel(
            c,
            act_in_context(m, action)->Ok_0.value,
            act_in_context(m, action)->Ok_0.value_path,
            inside || !(action is Place),
            act_in_context(mp, action)->Ok_0.value,
            act_in_context(mp, action)->Ok_0.value_path,
        ),
{
    lemma_act_at(m.value, m.value_path, action);
    lemma_act_at(mp.value, mp.value_path, action);
    let node = slot_node(c);
    let empty: Seq<PathStep> = Seq::empty();
    if m.value is Null {
        assert(m.value_path =~= empty);
        assert(slot_path(c) + empty =~= slot_path(c));
        match node {
            Json::Object(e) => {
                waiting_entry_sorts_first(e);
            },
            _ => {},
        }
    } else {
        let x = m.value;
        let px = m.value_path;
        lemma_slot_at(c, x, px);
        let nm = json_at(x, px)->Some_0;
        let (n, child) = act_here(nm, action)->Ok_0;
        lemma_slot_put(c, x, px, n);
        match child {
            Some(st) => {
                assert(slot_path(c) + px.push(st) =~= (slot_path(c) + px).push(st));
            },
            None => {},
        }
        if px.len() > 0 {
            assert(x is Array || x is Object);
        }
    }
}

/// Closing the innermost container, mirrored: the two paths stay in step.
proof fn lemma_close_mirrored(c: ContextModel, m: ContextModel, mp: ContextModel)
    requires
        container_slot(c),
        mirrors(c, m, mp),
        m.open_containers.len() > 0,
        one_step_shorter(m),
        !(m.value is Null),
    ensures
        value_rel(
            c,
            m.value,
            end_nested(m).value_path,
            m.open_containers.len() > 1,
            mp.value,
            end_nested(mp).value_path,
        ),
{
    let px = m.value_path;
    let sp = slot_path(c);
    match slot_node(c) {
        Json::Object(e) => {
            waiting_entry_sorts_first(e);
        },
        _ => {},
    }
    if px.len() > 0 {
        assert((sp + px).drop_last() =~= sp + px.drop_last());
    } else {
        assert(sp + px =~= sp);
        assert(sp.drop_last() =~= c.value_path);
    }
}

/// One character, taken by a state decoded from the start and by its mirror,
/// is taken by both, and the two stay mirrored; a value done at the top leaves
/// no character pending.
#[verifier::rlimit(60)]
proof fn lemma_step_mirrored(c: ContextModel, m: ContextModel, mp: ContextModel, ch: char)
    requires
        container_slot(c),
        mirrors(c, m, mp),
        sound_state(m),
        one_step_shorter(m),
        m.value is Null || m.open_containers.len() > 0,
        step(m, ch) is Ok,
    ensures
        step(mp, ch) is Ok,
        mirrors(c, step(m, ch)->Ok_0, step(mp, ch)->Ok_0),
        step(m, ch)->Ok_0.open_containers.len() == 0 && !(step(m, ch)->Ok_0.value is Null)
            ==> ready(step(m, ch)->Ok_0),
{
    let inside = m.open_containers.len() > 0;
    if act_in_context(m, NodeAction::OpenArray) is Ok {
        lemma_act_mirrored(c, m, mp, inside, NodeAction::OpenArray);
    }
    if act_in_context(m, NodeAction::OpenObject) is Ok {
        lemma_act_mirrored(c, m, mp, inside, NodeAction::OpenObject);
    }
    let data = m.data_chars.push(ch);
    let md = ContextModel { data_chars: data, ..m };
    let mpd = ContextModel { data_chars: data, ..mp };
    if act_in_context(md, NodeAction::Place(Json::Str(data))) is Ok {
        lemma_act_mirrored(c, md, mpd, inside, NodeAction::Place(Json::Str(data)));
    }
    match parse_isize_spec(m.data_chars) {
        Some(n) => {
            if act_in_context(m, NodeAction::Place(Json::Number(n as int))) is Ok {
                lemma_act_mirrored(c, m, mp, inside, NodeAction::Place(Json::Number(n as int)));
            }
        },
        None => {},
    }
    match parse_usize_spec(m.meta_chars) {
        Some(n) => {
            let ml = ContextModel { value_length: n, ..m };
            let mpl = ContextModel { value_length: n, ..mp };
            if act_in_context(ml, NodeAction::Place(Json::Str(m.data_chars))) is Ok {
                lemma_act_mirrored(c, ml, mpl, inside, NodeAction::Place(Json::Str(m.data_chars)));
            }
        },
        None => {},
    }
    if m.open_containers.len() > 0 {
        lemma_close_mirrored(c, m, mp);
        assert((c.open_containers + m.open_containers).drop_last() =~= c.open_containers
            + m.open_containers.drop_last());
        assert((c.open_containers + m.open_containers).last() == m.open_containers.last());
    }
    assert(c.open_containers + m.open_containers.push(BencodeKind::List) =~= (c.open_containers
        + m.open_containers).push(BencodeKind::List));
    assert(c.open_containers + m.open_containers.push(BencodeKind::Dictionary) =~= (
    c.open_containers + m.open_containers).push(BencodeKind::Dictionary));
}

/// A top-level value was read to its end: nothing is open, the value is no
/// longer `Null`, and no character is pending.
pub open spec fn done(r: Result<ContextModel, Failure>) -> bool {
    r matches Ok(m) && m.open_containers.len() == 0 && !(m.value is Null) && ready(m)
}

/// `t` is the text of exactly one value, `v`: decoding it gives `v`, and the
/// value is done at its last character and not before.
pub open spec fn one_value_text(t: Seq<char>, v: Json) -> bool {
    &&& decode_spec(t) == Ok::<Json, Failure>(v)
    &&& done(run(initial_context(), t))
    &&& forall|i: int| 0 <= i < t.len() ==> !done(#[trigger] run(initial_context(), t.take(i)))
}

proof fn lemma_run_push(c: ContextModel, t: Seq<char>, i: int)
    requires
        0 <= i < t.len(),
    ensures
        run(c, t.take(i + 1)) == match run(c, t.take(i)) {
            Ok(m) => step(m, t[i]),
            Err(f) => Err(f),
        },
{
    assert(t.take(i + 1).drop_last() =~= t.take(i));
    assert(t.take(i + 1).last() == t[i]);
}

/// Over every prefix of the text of one value, the state decoded from `c`
/// mirrors the state decoded from the start.
proof fn lemma_run_mirrored(c: ContextModel, t: Seq<char>, v: Json, i: int)
    requires
        container_slot(c),
        ready(c),
        one_value_text(t, v),
        0 <= i <= t.len(),
    ensures
        run(initial_context(), t.take(i)) is Ok,
        run(c, t.take(i)) is Ok,
        mirrors(c, run(initial_context(), t.take(i))->Ok_0, run(c, t.take(i))->Ok_0),
        one_step_shorter(run(initial_context(), t.take(i))->Ok_0),
        run(initial_context(), t.take(i))->Ok_0.open_containers.len() == 0 && !(run(
            initial_context(),
            t.take(i),
        )->Ok_0.value is Null) ==> ready(run(initial_context(), t.take(i))->Ok_0),
    decreases i,
{
    let init = initial_context();
    if i == 0 {
        let empty: Seq<char> = Seq::empty();
        assert(t.take(0) =~= empty);
        assert(run(init, empty) == Ok::<ContextModel, Failure>(init));
        assert(run(c, empty) == Ok::<ContextModel, Failure>(c));
        assert(c.open_containers + init.open_containers =~= c.open_containers);
        assert(c.data_chars =~= init.data_chars);
        assert(c.meta_chars =~= init.meta_chars);
    } else {
        lemma_run_mirrored(c, t, v, i - 1);
        lemma_run_push(init, t, i - 1);
        lemma_run_push(c, t, i - 1);
        if run(init, t.take(i)) is Err {
            lemma_run_failure_persists(init, t, i);
            assert(t.take(t.len() as int) =~= t);
        }
        let m = run(init, t.take(i - 1))->Ok_0;
        let mp = run(c, t.take(i - 1))->Ok_0;
        assert(!done(run(init, t.take(i - 1))));
        decoding_reaches_only_sound_states(t.take(i - 1));
        lemma_step_one_shorter(m, t[i - 1]);
        lemma_step_mirrored(c, m, mp, t[i - 1]);
    }
}

/// The text of one value, decoded where a list or a dictionary takes a
/// value, places that value there.
pub(crate) proof fn lemma_place_text(c: ContextModel, t: Seq<char>, v: Json)
    requires
        container_slot(c),
        ready(c),
        one_value_text(t, v),
    ensures
        run(c, t) is Ok,
        placed(c, v, run(c, t)->Ok_0),
{
    lemma_run_mirrored(c, t, v, t.len() as int);
    assert(t.take(t.len() as int) =~= t);
    let m = run(initial_context(), t)->Ok_0;
    let mp = run(c, t)->Ok_0;
    assert(t.len() > 0);
    assert(m.value == v);
    assert(c.open_containers + m.open_containers =~= c.open_containers);
    lemma_act_at(c.value, c.value_path, NodeAction::Place(v));
    match slot_node(c) {
        Json::Object(e) => {
            waiting_entry_sorts_first(e);
        },
        _ => {},
    }
}

/// The texts one after another.
pub open spec fn joined(ts: Seq<Seq<char>>) -> Seq<char>
    decreases ts.len(),
{
    if ts.len() == 0 {
        Seq::empty()
    } else {
        joined(ts.drop_last()) + ts.last()
    }
}

/// For each entry, the string text of its key followed by the text of its
/// value, `ts[i]`.
pub open spec fn entry_texts(entries: Seq<(Seq<char>, Json)>, ts: Seq<Seq<char>>) -> Seq<char>
    decreases entries.len(),
{
    if entries.len() == 0 {
        Seq::empty()
    } else {
        entry_texts(entries.drop_last(), ts.drop_last()) + string_text(entries.last().0) + ts.last()
    }
}

/// The texts of the items, decoded where an empty list stands, fill the list
/// with their values.
proof fn lemma_item_texts(c: ContextModel, ts: Seq<Seq<char>>, vs: Seq<Json>)
    requires
        ready(c),
        json_at(c.value, c.value_path) == Some(Json::Array(Seq::empty())),
        ts.len() == vs.len(),
        forall|i: int| 0 <= i < ts.len() ==> one_value_text(#[trigger] ts[i], vs[i]),
    ensures
        run(c, joined(ts)) is Ok,
        ready(run(c, joined(ts))->Ok_0),
        run(c, joined(ts))->Ok_0.value == json_put(c.value, c.value_path, Json::Array(vs)),
        run(c, joined(ts))->Ok_0.value_path == c.value_path,
        run(c, joined(ts))->Ok_0.open_containers == c.open_containers,
    decreases ts.len(),
{
    let path = c.value_path;
    if ts.len() == 0 {
        assert(vs =~= Seq::<Json>::empty());
        assert(run(c, Seq::<char>::empty()) == Ok::<ContextModel, Failure>(c));
        lemma_put_at(c.value, path);
    } else {
        let n = ts.len() - 1;
        let init = vs.drop_last();
        let last = vs.last();
        assert forall|i: int| 0 <= i < n implies one_value_text(#[trigger] ts.drop_last()[i], init[i]) by {
            assert(ts.drop_last()[i] == ts[i]);
            assert(init[i] == vs[i]);
        }
        lemma_item_texts(c, ts.drop_last(), init);
        let cm = run(c, joined(ts.drop_last()))->Ok_0;
        lemma_at_put(c.value, path, Json::Array(init));
        assert(one_value_text(ts[n], vs[n]));
        lemma_place_text(cm, ts.last(), last);
        lemma_run_concat(c, joined(ts.drop_last()), ts.last());
        lemma_act_at(cm.value, path, NodeAction::Place(last));
        assert(init.push(last) =~= vs);
        lemma_put_put(c.value, path, Json::Array(init), Json::Array(vs));
    }
}

/// Each key's text and its value's text, decoded where an empty dictionary
/// stands, fill the dictionary with the entries.
proof fn lemma_entry_texts(c: ContextModel, entries: Seq<(Seq<char>, Json)>, ts: Seq<Seq<char>>)
    requires
        ready(c),
        json_at(c.value, c.value_path) == Some(Json::Object(Seq::empty())),
        ts.len() == entries.len(),
        distinct_keys(entries),
        forall|i: int| 0 <= i < ts.len() ==> one_value_text(#[trigger] ts[i], entries[i].1),
        forall|i: int| 0 <= i < entries.len() ==> encode_utf8(#[trigger] entries[i].0).len() <= usize::MAX,
    ensures
        run(c, entry_texts(entries, ts)) is Ok,
        ready(run(c, entry_texts(entries, ts))->Ok_0),
        run(c, entry_texts(entries, ts))->Ok_0.value == json_put(
            c.value,
            c.value_path,
            Json::Object(entries),
        ),
        run(c, entry_texts(entries, ts))->Ok_0.value_path == c.value_path,
        run(c, entry_texts(entries, ts))->Ok_0.open_containers == c.open_containers,
    decreases entries.len(),
{
    let path = c.value_path;
    if entries.len() == 0 {
        assert(entries =~= Seq::<(Seq<char>, Json)>::empty());
        assert(run(c, Seq::<char>::empty()) == Ok::<ContextModel, Failure>(c));
        lemma_put_at(c.value, path);
    } else {
        let n = entries.len() - 1;
        let init = entries.drop_last();
        let (k, v) = entries.last();
        assert forall|i: int| 0 <= i < n implies one_value_text(#[trigger] ts.drop_last()[i], init[i].1) by {
            assert(ts.drop_last()[i] == ts[i]);
            assert(init[i] == entries[i]);
        }
        assert forall|i: int| 0 <= i < n implies encode_utf8(#[trigger] init[i].0).len() <= usize::MAX by {
            assert(init[i] == entries[i]);
        }
        assert(distinct_keys(init)) by {
            assert forall|i: int, j: int| 0 <= i < j < init.len() implies #[trigger] init[i].0
                != #[trigger] init[j].0 by {
                assert(init[i] == entries[i] && init[j] == entries[j]);
            }
        }
        lemma_entry_texts(c, init, ts.drop_last());
        let cm = run(c, entry_texts(init, ts.drop_last()))->Ok_0;
        lemma_at_put(c.value, path, Json::Object(init));
        // the key
        assert forall|j: int| 0 <= j < init.len() implies !((#[trigger] init[j]).1 is Null) by {
            assert(init[j] == entries[j]);
            assert(one_value_text(ts[j], entries[j].1));
        }
        assert forall|j: int| 0 <= j < init.len() implies (#[trigger] init[j]).0 != k by {
            assert(init[j] == entries[j]);
            assert(entries[j].0 != entries[n].0);
        }
        lemma_find_null_none(init);
        lemma_find_key_absent(init, k, 0);
        let keyed = init.push((k, Json::Null));
        lemma_act_at(cm.value, path, NodeAction::Place(Json::Str(k)));
        assert(act_here(Json::Object(init), NodeAction::Place(Json::Str(k))) == Ok::<
            (Json, Option<PathStep>),
            Failure,
        >((Json::Object(keyed), None)));
        assert(encode_utf8(entries[n].0).len() <= usize::MAX);
        lemma_place_string(cm, k);
        let ck = run(cm, string_text(k))->Ok_0;
        lemma_run_concat(c, entry_texts(init, ts.drop_last()), string_text(k));
        // the value
        lemma_put_put(c.value, path, Json::Object(init), Json::Object(keyed));
        lemma_at_put(c.value, path, Json::Object(keyed));
        lemma_find_null_last(init, k);
        assert(distinct_keys(keyed)) by {
            assert forall|i: int, j: int| 0 <= i < j < keyed.len() implies #[trigger] keyed[i].0
                != #[trigger] keyed[j].0 by {
                if j < init.len() {
                    assert(keyed[i] == entries[i] && keyed[j] == entries[j]);
                } else {
                    assert(keyed[i] == init[i]);
                }
            }
        }
        assert(container_slot(ck));
        assert(one_value_text(ts[n], entries[n].1));
        lemma_place_text(ck, ts.last(), v);
        lemma_run_concat(c, entry_texts(init, ts.drop_last()) + string_text(k), ts.last());
        lemma_act_at(ck.value, path, NodeAction::Place(v));
        assert(keyed.update(init.len() as int, (k, v)) =~= entries);
        lemma_put_put(c.value, path, Json::Object(keyed), Json::Object(entries));
    }
}

/// A list written as `l`, then the texts of its items one after another,
/// then `e`, decodes to the list of their values, whatever text of one value
/// each item has.
pub proof fn list_decodes_from_item_texts(ts: Seq<Seq<char>>, vs: Seq<Json>)
    requires
        ts.len() == vs.len(),
        forall|i: int| 0 <= i < ts.len() ==> one_value_text(#[trigger] ts[i], vs[i]),
    ensures
        decode_spec(seq!['l'] + joined(ts) + seq!['e']) == Ok::<Json, Failure>(Json::Array(vs)),
{
    let init = initial_context();
    let empty: Seq<PathStep> = Seq::empty();
    lemma_run_concat(init, seq!['l'] + joined(ts), seq!['e']);
    lemma_run_concat(init, seq!['l'], joined(ts));
    lemma_run_one(init, 'l');
    let c1 = step(init, 'l')->Ok_0;
    assert(c1.value_path =~= empty);
    assert(json_at(c1.value, c1.value_path) == Some(Json::Array(Seq::empty())));
    lemma_item_texts(c1, ts, vs);
    let c2 = run(c1, joined(ts))->Ok_0;
    lemma_run_one(c2, 'e');
    assert((seq!['l'] + joined(ts) + seq!['e']).len() > 0);
}

/// A dictionary written as `d`, then for each entry the string text of its
/// key followed by any text of one value for its value, then `e`, decodes to
/// the dictionary of those entries, keys distinct.
pub proof fn dictionary_decodes_from_entry_texts(entries: Seq<(Seq<char>, Json)>, ts: Seq<Seq<char>>)
    requires
        ts.len() == entries.len(),
        distinct_keys(entries),
        forall|i: int| 0 <= i < ts.len() ==> one_value_text(#[trigger] ts[i], entries[i].1),
        forall|i: int| 0 <= i < entries.len() ==> encode_utf8(#[trigger] entries[i].0).len() <= usize::MAX,
    ensures
        decode_spec(seq!['d'] + entry_texts(entries, ts) + seq!['e']) == Ok::<Json, Failure>(
            Json::Object(entries),
        ),
{
    let init = initial_context();
    let empty: Seq<PathStep> = Seq::empty();
    lemma_run_concat(init, seq!['d'] + entry_texts(entries, ts), seq!['e']);
    lemma_run_concat(init, seq!['d'], entry_texts(entries, ts));
    lemma_run_one(init, 'd');
    let c1 = step(init, 'd')->Ok_0;
    assert(c1.value_path =~= empty);
    assert(json_at(c1.value, c1.value_path) == Some(Json::Object(Seq::empty())));
    lemma_entry_texts(c1, entries, ts);
    let c2 = run(c1, entry_texts(entries, ts))->Ok_0;
    lemma_run_one(c2, 'e');
    assert((seq!['d'] + entry_texts(entries, ts) + seq!['e']).len() > 0);
}

} // verus!
