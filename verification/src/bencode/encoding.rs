//! The bencode text of a value, and what decoding it gives back.
use crate::bencode::character_processor::{active_kind, no_kind_step, step, string_step};
use crate::bencode::decoder::{decode_spec, lemma_run_concat, run};
use crate::bencode::handlers::{
    byte_len, dictionary_end, dictionary_start, integer_data, integer_start, list_end, list_start,
    string_data, string_meta,
};
use crate::bencode::number::{
    all_digits, digit_value, digits_value, is_digit, parse_isize_spec, parse_usize_spec,
    unsigned_part,
};
use crate::bencode::paths::{
    distinct_keys, json_at, json_put, lemma_act_at, lemma_find_key_absent, lemma_find_key_distinct, lemma_at_put, lemma_find_key_values, lemma_path_push,
    lemma_put_at, lemma_put_put,
};
use crate::bencode::types::{
    act_here, act_in_context, end_nested, find_key_from, waiting_entry, waiting_entry_sorts_first, initial_context,
    BencodeKind, BencodeState, ContextModel, Failure, Json, NodeAction, PathStep,
};
use vstd::prelude::*;
use crate::bencode::json::{serde_image_by_parts, serde_of, serde_string_of};
use vstd::utf8::{encode_scalar, encode_utf8};

verus! {

/// The digit character for `d < 10`.
pub open spec fn digit_char(d: nat) -> char {
    (d + 48) as char
}

/// The decimal numeral of `n`, without leading zeros.
pub open spec fn decimal(n: nat) -> Seq<char>
    decreases n,
{
    if n < 10 {
        seq![digit_char(n)]
    } else {
        decimal(n / 10).push(digit_char(n % 10))
    }
}

/// The numeral of an integer: a `-` before the decimal numeral of its
/// magnitude if it is negative.
pub open spec fn integer_text(n: int) -> Seq<char> {
    if n >= 0 {
        decimal(n as nat)
    } else {
        seq!['-'] + decimal((-n) as nat)
    }
}

proof fn lemma_digit_char(d: nat)
    requires
        d < 10,
    ensures
        is_digit(digit_char(d)),
        digit_value(digit_char(d)) == d,
        digit_char(d) != '+' && digit_char(d) != '-',
{
}

pub proof fn lemma_decimal(n: nat)
    ensures
        decimal(n).len() > 0,
        all_digits(decimal(n)),
        digits_value(decimal(n)) == n,
        is_digit(decimal(n)[0]),
    decreases n,
{
    if n < 10 {
        lemma_digit_char(n);
        assert(decimal(n).drop_last() =~= Seq::<char>::empty());
        assert(digits_value(Seq::<char>::empty()) == 0);
        assert(decimal(n).last() == digit_char(n));
        assert(digits_value(decimal(n)) == n);
    } else {
        lemma_decimal(n / 10);
        assert(n == (n / 10) * 10 + n % 10);
        lemma_digit_char(n % 10);
        let s = decimal(n / 10).push(digit_char(n % 10));
        assert(s.drop_last() =~= decimal(n / 10));
        assert(decimal(n) == s);
        assert(digits_value(s) == digits_value(decimal(n / 10)) * 10 + digit_value(digit_char(n % 10)));
        assert forall|i: int| 0 <= i < s.len() implies is_digit(#[trigger] s[i]) by {
            if i < s.len() - 1 {
                assert(s[i] == decimal(n / 10)[i]);
            }
        }
    }
}

/// `str::parse::<isize>` reads back the numeral of an `isize`.
pub proof fn lemma_parse_integer_text(n: int)
    requires
        isize::MIN <= n <= isize::MAX,
    ensures
        parse_isize_spec(integer_text(n)) == Some(n as isize),
{
    let t = integer_text(n);
    if n >= 0 {
        lemma_decimal(n as nat);
        assert(unsigned_part(t, true) == t);
    } else {
        lemma_decimal((-n) as nat);
        assert(t[0] == '-');
        assert(t.drop_first() =~= decimal((-n) as nat));
    }
}

/// `str::parse::<usize>` reads back the numeral of a `usize`.
pub proof fn lemma_parse_decimal(n: nat)
    requires
        n <= usize::MAX,
    ensures
        parse_usize_spec(decimal(n)) == Some(n as usize),
{
    lemma_decimal(n);
    let t = decimal(n);
    lemma_digit_char(0);
    assert(unsigned_part(t, false) == t);
}


proof fn lemma_encode_utf8_concat(a: Seq<char>, b: Seq<char>)
    ensures
        encode_utf8(a + b) == encode_utf8(a) + encode_utf8(b),
    decreases a.len(),
{
    if a.len() > 0 {
        assert((a + b).drop_first() =~= a.drop_first() + b);
        lemma_encode_utf8_concat(a.drop_first(), b);
        assert(encode_utf8(a + b) =~= encode_utf8(a) + encode_utf8(b));
    } else {
        assert(a + b =~= b);
        assert(encode_utf8(a) + encode_utf8(b) =~= encode_utf8(b));
    }
}

/// Each further character adds at least one byte.
proof fn lemma_encode_utf8_push(s: Seq<char>, c: char)
    ensures
        encode_utf8(s.push(c)).len() >= encode_utf8(s).len() + 1,
{
    lemma_encode_utf8_concat(s, seq![c]);
    assert(s.push(c) =~= s + seq![c]);
    assert(seq![c].drop_first() =~= Seq::<char>::empty());
    assert(encode_scalar(c as u32).len() >= 1);
}

/// A shorter prefix has fewer bytes.
proof fn lemma_encode_utf8_prefix(s: Seq<char>, i: int, j: int)
    requires
        0 <= i < j <= s.len(),
    ensures
        encode_utf8(s.take(i)).len() < encode_utf8(s.take(j)).len(),
    decreases j - i,
{
    lemma_encode_utf8_push(s.take(j - 1), s[j - 1]);
    assert(s.take(j - 1).push(s[j - 1]) =~= s.take(j));
    if i < j - 1 {
        lemma_encode_utf8_prefix(s, i, j - 1);
    }
}


pub(crate) proof fn lemma_run_one(c: ContextModel, ch: char)
    ensures
        run(c, seq![ch]) == step(c, ch),
{
    assert(seq![ch].drop_last() =~= Seq::<char>::empty());
    assert(run(c, Seq::<char>::empty()) == Ok::<ContextModel, Failure>(c));
}

/// Taking the first character, then the rest.
pub(crate) proof fn lemma_run_first(c: ContextModel, t: Seq<char>)
    requires
        t.len() > 0,
    ensures
        run(c, t) == match step(c, t[0]) {
            Ok(m) => run(m, t.drop_first()),
            Err(f) => Err(f),
        },
{
    assert(t =~= seq![t[0]] + t.drop_first());
    lemma_run_concat(c, seq![t[0]], t.drop_first());
    lemma_run_one(c, t[0]);
}

/// Between two values: no characters of a value pending.
pub open spec fn ready(c: ContextModel) -> bool {
    &&& active_kind(c) is None
    &&& c.data_chars.len() == 0
    &&& c.meta_chars.len() == 0
    &&& c.value_length == 0
}

/// `after` is where placing `v` at once from `c` leads: the same decoded
/// value, path and open containers, and no characters pending.
pub open spec fn placed(c: ContextModel, v: Json, after: ContextModel) -> bool {
    &&& act_in_context(c, NodeAction::Place(v)) is Ok
    &&& ready(after)
    &&& after.value == act_in_context(c, NodeAction::Place(v))->Ok_0.value
    &&& after.value_path == c.value_path
    &&& after.open_containers == c.open_containers
}

/// Only the characters of the integer being read differ.
pub open spec fn integer_progress(c: ContextModel, t: Seq<char>, after: ContextModel) -> bool {
    &&& after.data_chars == c.data_chars + t
    &&& after.kind == Some(BencodeKind::Integer)
    &&& (after.state == Some(BencodeState::Start) || after.state == Some(BencodeState::Data))
    &&& after.open_containers == c.open_containers
    &&& after.meta_chars == c.meta_chars
    &&& after.value == c.value
    &&& after.value_length == c.value_length
    &&& after.value_path == c.value_path
}

proof fn lemma_integer_chars(c: ContextModel, t: Seq<char>)
    requires
        c.kind == Some(BencodeKind::Integer),
        c.state == Some(BencodeState::Start) || c.state == Some(BencodeState::Data),
        forall|i: int| 0 <= i < t.len() ==> is_digit(#[trigger] t[i]) || t[i] == '-',
    ensures
        run(c, t) is Ok,
        integer_progress(c, t, run(c, t)->Ok_0),
    decreases t.len(),
{
    if t.len() == 0 {
        assert(c.data_chars + t =~= c.data_chars);
    } else {
        let init = t.drop_last();
        lemma_integer_chars(c, init);
        let m = run(c, init)->Ok_0;
        let ch = t.last();
        assert(is_digit(t[t.len() - 1]) || t[t.len() - 1] == '-');
        assert(step(m, ch) == Ok::<ContextModel, Failure>(integer_data(m, ch)));
        assert(m.data_chars.push(ch) =~= c.data_chars + t);
    }
}

/// The text of an integer, decoded from between two values, places the
/// integer.
proof fn lemma_place_number(c: ContextModel, n: int)
    requires
        ready(c),
        isize::MIN <= n <= isize::MAX,
        act_in_context(c, NodeAction::Place(Json::Number(n))) is Ok,
    ensures
        run(c, seq!['i'] + integer_text(n) + seq!['e']) is Ok,
        placed(c, Json::Number(n), run(c, seq!['i'] + integer_text(n) + seq!['e'])->Ok_0),
{
    let t = integer_text(n);
    if n >= 0 {
        lemma_decimal(n as nat);
    } else {
        lemma_decimal((-n) as nat);
    }
    assert forall|i: int| 0 <= i < t.len() implies is_digit(#[trigger] t[i]) || t[i] == '-' by {
        if n < 0 && i > 0 {
            assert(t[i] == decimal((-n) as nat)[i - 1]);
        }
    }
    lemma_run_one(c, 'i');
    let c1 = integer_start(c);
    assert(step(c, 'i') == Ok::<ContextModel, Failure>(c1));
    lemma_integer_chars(c1, t);
    lemma_run_concat(c, seq!['i'], t);
    let c2 = run(c1, t)->Ok_0;
    lemma_run_concat(c, seq!['i'] + t, seq!['e']);
    lemma_run_one(c2, 'e');
    assert(c2.data_chars =~= t);
    lemma_parse_integer_text(n);
    assert(active_kind(c2) == Some(BencodeKind::Integer));
    assert(act_in_context(c2, NodeAction::Place(Json::Number(n))) is Ok);
    assert(seq!['i'] + integer_text(n) + seq!['e'] == (seq!['i'] + t) + seq!['e']);
    assert(run(c, seq!['i'] + t) == Ok::<ContextModel, Failure>(c2));
    lemma_act_at(c.value, c.value_path, NodeAction::Place(Json::Number(n)));
}


/// The text of a string: its length in bytes, a colon, its characters.
pub open spec fn string_text(s: Seq<char>) -> Seq<char> {
    decimal(encode_utf8(s).len()) + seq![':'] + s
}

/// Only the characters of a string's length differ.
pub open spec fn meta_progress(c: ContextModel, t: Seq<char>, after: ContextModel) -> bool {
    &&& after.meta_chars == c.meta_chars + t
    &&& after.kind == Some(BencodeKind::String)
    &&& after.state == Some(BencodeState::Meta)
    &&& after.character != Some(':')
    &&& after.open_containers == c.open_containers
    &&& after.data_chars == c.data_chars
    &&& after.value == c.value
    &&& after.value_length == c.value_length
    &&& after.value_path == c.value_path
}

proof fn lemma_meta_digits(c: ContextModel, t: Seq<char>)
    requires
        c.kind == Some(BencodeKind::String),
        c.state == Some(BencodeState::Meta),
        c.character != Some(':'),
        all_digits(t),
    ensures
        run(c, t) is Ok,
        meta_progress(c, t, run(c, t)->Ok_0),
    decreases t.len(),
{
    if t.len() == 0 {
        assert(c.meta_chars + t =~= c.meta_chars);
    } else {
        let init = t.drop_last();
        assert(all_digits(init));
        lemma_meta_digits(c, init);
        let m = run(c, init)->Ok_0;
        let ch = t.last();
        assert(is_digit(t[t.len() - 1]));
        assert(step(m, ch) == string_meta(m, ch));
        assert(m.meta_chars.push(ch) =~= c.meta_chars + t);
    }
}

/// The characters of a string after its colon, from the `i`th on, complete
/// the string and place it.
proof fn lemma_string_data(c: ContextModel, s: Seq<char>, i: int)
    requires
        0 <= i < s.len(),
        encode_utf8(s).len() <= usize::MAX,
        c.data_chars == s.take(i),
        c.value_length == encode_utf8(s).len(),
        c.kind == Some(BencodeKind::String),
        (i == 0 && c.character == Some(':') && c.state == Some(BencodeState::Meta)) || (i > 0
            && c.state == Some(BencodeState::Data)),
        act_in_context(c, NodeAction::Place(Json::Str(s))) is Ok,
    ensures
        run(c, s.skip(i)) is Ok,
        ready(run(c, s.skip(i))->Ok_0),
        run(c, s.skip(i))->Ok_0.value == act_in_context(c, NodeAction::Place(Json::Str(s)))->Ok_0.value,
        run(c, s.skip(i))->Ok_0.value_path == act_in_context(c, NodeAction::Place(Json::Str(s)))->Ok_0.value_path,
        run(c, s.skip(i))->Ok_0.open_containers == c.open_containers,
    decreases s.len() - i,
{
    let ch = s[i];
    let t = s.skip(i);
    assert(t[0] == ch);
    assert(t.drop_first() =~= s.skip(i + 1));
    lemma_run_first(c, t);
    assert(step(c, ch) == string_data(c, ch));
    let data = c.data_chars.push(ch);
    assert(data =~= s.take(i + 1));
    if i + 1 == s.len() {
        assert(data =~= s);
        assert(run(step(c, ch)->Ok_0, s.skip(i + 1)) == Ok::<ContextModel, Failure>(step(c, ch)->Ok_0)) by {
            assert(s.skip(i + 1) =~= Seq::<char>::empty());
        }
    } else {
        lemma_encode_utf8_prefix(s, i + 1, s.len() as int);
        assert(s.take(s.len() as int) =~= s);
        assert(byte_len(data) != c.value_length);
        let c1 = step(c, ch)->Ok_0;
        lemma_string_data(c1, s, i + 1);
    }
}


/// The text of a string, decoded from between two values, places the
/// string.
pub(crate) proof fn lemma_place_string(c: ContextModel, s: Seq<char>)
    requires
        ready(c),
        encode_utf8(s).len() <= usize::MAX,
        act_in_context(c, NodeAction::Place(Json::Str(s))) is Ok,
    ensures
        run(c, string_text(s)) is Ok,
        placed(c, Json::Str(s), run(c, string_text(s))->Ok_0),
{
    let len = encode_utf8(s).len();
    let num = decimal(len);
    lemma_decimal(len);
    lemma_digit_char(0);
    let first = num[0];
    let text = string_text(s);
    assert(text[0] == first);
    assert(text.drop_first() =~= num.drop_first() + (seq![':'] + s));
    lemma_run_first(c, text);
    assert(step(c, first) == no_kind_step(c, first));
    assert(first != 'd' && first != 'e' && first != 'i' && first != 'l');
    let c1 = step(c, first)->Ok_0;
    assert(all_digits(num.drop_first()));
    lemma_meta_digits(c1, num.drop_first());
    lemma_run_concat(c1, num.drop_first(), seq![':'] + s);
    let c2 = run(c1, num.drop_first())->Ok_0;
    assert(c2.meta_chars =~= num);
    lemma_parse_decimal(len);
    lemma_run_first(c2, seq![':'] + s);
    assert((seq![':'] + s)[0] == ':');
    assert((seq![':'] + s).drop_first() =~= s);
    assert(step(c2, ':') == string_step(c2, ':'));
    lemma_act_at(c.value, c.value_path, NodeAction::Place(Json::Str(s)));
    if len == 0 {
        if s.len() > 0 {
            lemma_encode_utf8_prefix(s, 0, s.len() as int);
            assert(s.take(s.len() as int) =~= s);
            assert(s.take(0) =~= Seq::<char>::empty());
        }
        assert(s =~= Seq::<char>::empty());
        assert(c2.data_chars =~= s);
        let c3 = step(c2, ':')->Ok_0;
        assert(run(c3, s) == Ok::<ContextModel, Failure>(c3));
    } else {
        let c3 = step(c2, ':')->Ok_0;
        assert(s.len() > 0);
        assert(s.skip(0) =~= s);
        assert(c3.data_chars =~= s.take(0));
        lemma_string_data(c3, s, 0);
    }
}


/// The bencode text of a value: `i<n>e`, `<length>:<chars>`, `l<items>e`,
/// `d<key><value>...e`. `Null` has none.
pub open spec fn encode(v: Json) -> Seq<char>
    decreases v,
{
    match v {
        Json::Null => Seq::empty(),
        Json::Number(n) => seq!['i'] + integer_text(n) + seq!['e'],
        Json::Str(s) => string_text(s),
        Json::Array(items) => seq!['l'] + encode_items(items) + seq!['e'],
        Json::Object(entries) => seq!['d'] + encode_entries(entries) + seq!['e'],
    }
}

pub open spec fn encode_items(items: Seq<Json>) -> Seq<char>
    decreases items,
{
    if items.len() == 0 {
        Seq::empty()
    } else {
        encode_items(items.drop_last()) + encode(items.last())
    }
}

pub open spec fn encode_entries(entries: Seq<(Seq<char>, Json)>) -> Seq<char>
    decreases entries,
{
    if entries.len() == 0 {
        Seq::empty()
    } else {
        encode_entries(entries.drop_last()) + string_text(entries.last().0) + encode(
            entries.last().1,
        )
    }
}

/// A value that has a bencode text: no `Null` in it, integers that fit an
/// `isize`, strings whose length in bytes fits a `usize`, and dictionaries
/// without a repeated key.
pub open spec fn encodable(v: Json) -> bool
    decreases v,
{
    match v {
        Json::Null => false,
        Json::Number(n) => isize::MIN <= n <= isize::MAX,
        Json::Str(s) => encode_utf8(s).len() <= usize::MAX,
        Json::Array(items) => encodable_items(items),
        Json::Object(entries) => encodable_entries(entries) && distinct_keys(entries),
    }
}

pub open spec fn encodable_items(items: Seq<Json>) -> bool
    decreases items,
{
    if items.len() == 0 {
        true
    } else {
        encodable_items(items.drop_last()) && encodable(items.last())
    }
}

pub open spec fn encodable_entries(entries: Seq<(Seq<char>, Json)>) -> bool
    decreases entries,
{
    if entries.len() == 0 {
        true
    } else {
        encodable_entries(entries.drop_last()) && encode_utf8(entries.last().0).len() <= usize::MAX
            && encodable(entries.last().1)
    }
}

/// A position that takes a value: the empty root, a list, or a dictionary
/// whose last key waits for its value.
pub open spec fn value_slot(c: ContextModel) -> bool {
    &&& ready(c)
    &&& match json_at(c.value, c.value_path) {
        Some(Json::Null) => c.value_path.len() == 0,
        Some(Json::Array(_)) => true,
        Some(Json::Object(e)) => distinct_keys(e) && waiting_entry(e) >= 0,
        _ => false,
    }
}

pub(crate) proof fn lemma_find_null_none(e: Seq<(Seq<char>, Json)>)
    requires
        forall|j: int| 0 <= j < e.len() ==> !((#[trigger] e[j]).1 is Null),
    ensures
        waiting_entry(e) == -1,
{
    waiting_entry_sorts_first(e);
}

pub(crate) proof fn lemma_find_null_last(e: Seq<(Seq<char>, Json)>, k: Seq<char>)
    requires
        forall|j: int| 0 <= j < e.len() ==> !((#[trigger] e[j]).1 is Null),
    ensures
        waiting_entry(e.push((k, Json::Null))) == e.len(),
{
    waiting_entry_sorts_first(e);
    assert(e.push((k, Json::Null)).drop_last() =~= e);
}

proof fn lemma_encodable_items(items: Seq<Json>)
    requires
        encodable_items(items),
    ensures
        forall|i: int| 0 <= i < items.len() ==> encodable(#[trigger] items[i]),
    decreases items.len(),
{
    if items.len() > 0 {
        lemma_encodable_items(items.drop_last());
        assert forall|i: int| 0 <= i < items.len() implies encodable(#[trigger] items[i]) by {
            if i < items.len() - 1 {
                assert(items[i] == items.drop_last()[i]);
            }
        }
    }
}

proof fn lemma_encodable_entries(entries: Seq<(Seq<char>, Json)>)
    requires
        encodable_entries(entries),
    ensures
        forall|i: int|
            0 <= i < entries.len() ==> encodable(#[trigger] entries[i].1) && !(entries[i].1 is Null)
                && encode_utf8(entries[i].0).len() <= usize::MAX,
    decreases entries.len(),
{
    if entries.len() > 0 {
        lemma_encodable_entries(entries.drop_last());
        assert forall|i: int|
            0 <= i < entries.len() implies encodable(#[trigger] entries[i].1) && !(
            entries[i].1 is Null) && encode_utf8(entries[i].0).len() <= usize::MAX by {
            if i < entries.len() - 1 {
                assert(entries[i] == entries.drop_last()[i]);
            }
        }
    }
}


/// Opening a container at a position that takes a value: the path then
/// leads to the new, empty container, and whatever is put there stands where
/// placing it at once would have put it.
proof fn lemma_open_child(c: ContextModel, action: NodeAction, fresh: Json, x: Json)
    requires
        value_slot(c),
        (action == NodeAction::OpenArray && fresh == Json::Array(Seq::empty())) || (action
            == NodeAction::OpenObject && fresh == Json::Object(Seq::empty())),
    ensures
        act_in_context(c, action) is Ok,
        act_in_context(c, NodeAction::Place(x)) is Ok,
        json_at(act_in_context(c, action)->Ok_0.value, act_in_context(c, action)->Ok_0.value_path)
            == Some(fresh),
        json_put(
            act_in_context(c, action)->Ok_0.value,
            act_in_context(c, action)->Ok_0.value_path,
            x,
        ) == act_in_context(c, NodeAction::Place(x))->Ok_0.value,
        end_nested(act_in_context(c, action)->Ok_0).value_path == c.value_path,
        act_in_context(c, NodeAction::Place(x))->Ok_0.value_path == c.value_path,
{
    let v = c.value;
    let path = c.value_path;
    lemma_act_at(v, path, action);
    lemma_act_at(v, path, NodeAction::Place(x));
    let node = json_at(v, path)->Some_0;
    let empty: Seq<PathStep> = Seq::empty();
    match node {
        Json::Null => {
            assert(path =~= empty);
        },
        Json::Array(a) => {
            let step = PathStep::Index(a.len() as int);
            let a1 = Json::Array(a.push(fresh));
            let v1 = json_put(v, path, a1);
            lemma_at_put(v, path, a1);
            lemma_path_push(v1, path, step, x);
            assert(seq![step].drop_first() =~= empty);
            assert(seq![step][0] == step);
            assert(a.push(fresh)[a.len() as int] == fresh);
            assert(json_at(fresh, empty) == Some(fresh));
            assert(json_put(fresh, empty, x) == x);
            assert(json_at(a1, seq![step]) == Some(fresh));
            assert(json_put(a1, seq![step], x) == Json::Array(a.push(fresh).update(a.len() as int, x)));
            assert(a.push(fresh).update(a.len() as int, x) =~= a.push(x));
            lemma_put_put(v, path, a1, Json::Array(a.push(x)));
            assert(path.push(step).drop_last() =~= path);
        },
        Json::Object(e) => {
            let p = waiting_entry(e);
            let k = e[p].0;
            let step = PathStep::Key(k);
            let e1 = e.update(p, (k, fresh));
            let o1 = Json::Object(e1);
            let v1 = json_put(v, path, o1);
            waiting_entry_sorts_first(e);
            lemma_find_key_distinct(e, p, 0);
            lemma_find_key_values(e, p, fresh, k, 0);
            assert(find_key_from(e1, k, 0) == p);
            lemma_at_put(v, path, o1);
            lemma_path_push(v1, path, step, x);
            assert(seq![step].drop_first() =~= empty);
            assert(json_at(o1, seq![step]) == Some(fresh));
            assert(json_put(o1, seq![step], x) == Json::Object(e1.update(p, (k, x))));
            assert(e1.update(p, (k, x)) =~= e.update(p, (k, x)));
            lemma_put_put(v, path, o1, Json::Object(e.update(p, (k, x))));
            assert(path.push(step).drop_last() =~= path);
        },
        _ => {},
    }
}


/// The text of a value, decoded from a position that takes a value, places
/// the value there.
proof fn lemma_place_value(c: ContextModel, v: Json)
    requires
        value_slot(c),
        encodable(v),
    ensures
        run(c, encode(v)) is Ok,
        placed(c, v, run(c, encode(v))->Ok_0),
    decreases v,
{
    let path = c.value_path;
    lemma_act_at(c.value, path, NodeAction::Place(v));
    match v {
        Json::Null => {},
        Json::Number(n) => {
            lemma_place_number(c, n);
        },
        Json::Str(s) => {
            lemma_place_string(c, s);
        },
        Json::Array(items) => {
            let fresh = Json::Array(Seq::empty());
            lemma_open_child(c, NodeAction::OpenArray, fresh, v);
            let text = encode(v);
            assert(text[0] == 'l');
            assert(text.drop_first() =~= encode_items(items) + seq!['e']);
            lemma_run_first(c, text);
            assert(step(c, 'l') == list_start(c));
            let c1 = list_start(c)->Ok_0;
            lemma_items(c1, items);
            lemma_run_concat(c1, encode_items(items), seq!['e']);
            let c2 = run(c1, encode_items(items))->Ok_0;
            lemma_run_one(c2, 'e');
            assert(c2.open_containers.last() == BencodeKind::List);
            assert(c2.open_containers.drop_last() =~= c.open_containers);
            assert(step(c2, 'e') == Ok::<ContextModel, Failure>(list_end(c2, c.open_containers)));
        },
        Json::Object(entries) => {
            let fresh = Json::Object(Seq::empty());
            lemma_open_child(c, NodeAction::OpenObject, fresh, v);
            let text = encode(v);
            assert(text[0] == 'd');
            assert(text.drop_first() =~= encode_entries(entries) + seq!['e']);
            lemma_run_first(c, text);
            assert(step(c, 'd') == dictionary_start(c));
            let c1 = dictionary_start(c)->Ok_0;
            lemma_entries(c1, entries);
            lemma_run_concat(c1, encode_entries(entries), seq!['e']);
            let c2 = run(c1, encode_entries(entries))->Ok_0;
            lemma_run_one(c2, 'e');
            assert(c2.open_containers.last() == BencodeKind::Dictionary);
            assert(c2.open_containers.drop_last() =~= c.open_containers);
            assert(step(c2, 'e') == Ok::<ContextModel, Failure>(dictionary_end(c2, c.open_containers)));
        },
    }
}

/// The texts of the items, decoded where an empty list stands, fill the
/// list with them.
proof fn lemma_items(c: ContextModel, items: Seq<Json>)
    requires
        ready(c),
        json_at(c.value, c.value_path) == Some(Json::Array(Seq::empty())),
        encodable_items(items),
    ensures
        run(c, encode_items(items)) is Ok,
        ready(run(c, encode_items(items))->Ok_0),
        run(c, encode_items(items))->Ok_0.value == json_put(c.value, c.value_path, Json::Array(items)),
        run(c, encode_items(items))->Ok_0.value_path == c.value_path,
        run(c, encode_items(items))->Ok_0.open_containers == c.open_containers,
    decreases items,
{
    let path = c.value_path;
    if items.len() == 0 {
        assert(items =~= Seq::<Json>::empty());
        assert(run(c, Seq::<char>::empty()) == Ok::<ContextModel, Failure>(c));
        lemma_put_at(c.value, path);
    } else {
        let init = items.drop_last();
        let last = items.last();
        lemma_items(c, init);
        let cm = run(c, encode_items(init))->Ok_0;
        lemma_at_put(c.value, path, Json::Array(init));
        assert(value_slot(cm));
        lemma_place_value(cm, last);
        lemma_run_concat(c, encode_items(init), encode(last));
        lemma_act_at(cm.value, path, NodeAction::Place(last));
        assert(init.push(last) =~= items);
        lemma_put_put(c.value, path, Json::Array(init), Json::Array(items));
    }
}

/// The texts of the entries, decoded where an empty dictionary stands, fill
/// the dictionary with them.
proof fn lemma_entries(c: ContextModel, entries: Seq<(Seq<char>, Json)>)
    requires
        ready(c),
        json_at(c.value, c.value_path) == Some(Json::Object(Seq::empty())),
        encodable_entries(entries),
        distinct_keys(entries),
    ensures
        run(c, encode_entries(entries)) is Ok,
        ready(run(c, encode_entries(entries))->Ok_0),
        run(c, encode_entries(entries))->Ok_0.value == json_put(
            c.value,
            c.value_path,
            Json::Object(entries),
        ),
        run(c, encode_entries(entries))->Ok_0.value_path == c.value_path,
        run(c, encode_entries(entries))->Ok_0.open_containers == c.open_containers,
    decreases entries,
{
    let path = c.value_path;
    if entries.len() == 0 {
        assert(entries =~= Seq::<(Seq<char>, Json)>::empty());
        assert(run(c, Seq::<char>::empty()) == Ok::<ContextModel, Failure>(c));
        lemma_put_at(c.value, path);
    } else {
        let init = entries.drop_last();
        let (k, v) = entries.last();
        lemma_encodable_entries(entries);
        assert(distinct_keys(init));
        lemma_entries(c, init);
        let cm = run(c, encode_entries(init))->Ok_0;
        lemma_at_put(c.value, path, Json::Object(init));
        // the key
        assert forall|j: int| 0 <= j < init.len() implies !((#[trigger] init[j]).1 is Null) by {
            assert(init[j] == entries[j]);
        }
        assert forall|j: int| 0 <= j < init.len() implies (#[trigger] init[j]).0 != k by {
            assert(init[j] == entries[j]);
            assert(entries[j].0 != entries[entries.len() - 1].0);
        }
        lemma_find_null_none(init);
        lemma_find_key_absent(init, k, 0);
        let keyed = init.push((k, Json::Null));
        lemma_act_at(cm.value, path, NodeAction::Place(Json::Str(k)));
        assert(act_here(Json::Object(init), NodeAction::Place(Json::Str(k))) == Ok::<(Json, Option<PathStep>), Failure>(
            (Json::Object(keyed), None),
        ));
        lemma_place_string(cm, k);
        let ck = run(cm, string_text(k))->Ok_0;
        lemma_run_concat(c, encode_entries(init), string_text(k));
        // the value
        lemma_put_put(c.value, path, Json::Object(init), Json::Object(keyed));
        lemma_at_put(c.value, path, Json::Object(keyed));
        lemma_find_null_last(init, k);
        assert(distinct_keys(keyed)) by {
            assert forall|i: int, j: int| 0 <= i < j < keyed.len() implies #[trigger] keyed[i].0
                != #[trigger] keyed[j].0 by {
                if j < init.len() {
                    assert(keyed[i] == entries[i] && keyed[j] == entries[j]);
                } else {
                    assert(keyed[i] == init[i]);
                }
            }
        }
        assert(value_slot(ck));
        lemma_place_value(ck, v);
        lemma_run_concat(c, encode_entries(init) + string_text(k), encode(v));
        lemma_act_at(ck.value, path, NodeAction::Place(v));
        assert(keyed.update(init.len() as int, (k, v)) =~= entries);
        lemma_put_put(c.value, path, Json::Object(keyed), Json::Object(entries));
    }
}


/// Decoding the bencode text of a value gives back that value: integers,
/// strings of any characters (their length counted in bytes), lists, and
/// dictionaries with their entries in the order of the text.
pub proof fn decode_inverts_encode(v: Json)
    requires
        encodable(v),
    ensures
        decode_spec(encode(v)) == Ok::<Json, Failure>(v),
{
    let c = initial_context();
    let empty: Seq<PathStep> = Seq::empty();
    assert(c.value_path =~= empty);
    assert(json_at(c.value, c.value_path) == Some(Json::Null));
    assert(value_slot(c));
    lemma_place_value(c, v);
    lemma_act_at(c.value, c.value_path, NodeAction::Place(v));
    match v {
        Json::Number(n) => {},
        Json::Str(s) => {
            lemma_decimal(encode_utf8(s).len());
        },
        _ => {},
    }
    assert(encode(v).len() > 0);
}


/// The text of a string decodes to that string whatever characters it holds,
/// a numeral or none at all, and its `serde_json` image is `Value::from` of
/// the string.
pub proof fn strings_decode_to_json_strings(s: Seq<char>)
    requires
        encode_utf8(s).len() <= usize::MAX,
    ensures
        decode_spec(string_text(s)) == Ok::<Json, Failure>(Json::Str(s)),
        serde_of(Json::Str(s)) == serde_string_of(s),
{
    decode_inverts_encode(Json::Str(s));
    serde_image_by_parts(Json::Str(s));
}

} // verus!
