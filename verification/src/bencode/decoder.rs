//! Decoding a whole encoded text.
use crate::bencode::character_processor::{step, CharacterProcessor};
use crate::bencode::json::{message_holds, serde_of, to_serde};
use crate::bencode::paths::lemma_act_at;
use crate::bencode::types::{act_in_context, initial_context, Context, ContextModel, DecodeError, Failure, Json, JsonValue};
use vstd::prelude::*;

verus! {

/// The state after the characters of `s`, taken one by one from `c`, or the
/// first reason a character could not be taken.
pub open spec fn run(c: ContextModel, s: Seq<char>) -> Result<ContextModel, Failure>
    decreases s.len(),
{
    if s.len() == 0 {
        Ok(c)
    } else {
        match run(c, s.drop_last()) {
            Ok(m) => step(m, s.last()),
            Err(f) => Err(f),
        }
    }
}

/// The value that decoding `s` gives, or why it fails.
pub open spec fn decode_spec(s: Seq<char>) -> Result<Json, Failure> {
    if s.len() == 0 {
        Err(Failure::EmptyInput)
    } else {
        match run(initial_context(), s) {
            Ok(m) => Ok(m.value),
            Err(f) => Err(f),
        }
    }
}

/// Once a character fails, every longer text fails with the same reason.
pub proof fn lemma_run_failure_persists(c: ContextModel, s: Seq<char>, i: int)
    requires
        0 <= i <= s.len(),
        run(c, s.take(i)) is Err,
    ensures
        run(c, s) == run(c, s.take(i)),
    decreases s.len() - i,
{
    if i < s.len() {
        assert(s.take(i + 1).drop_last() =~= s.take(i));
        lemma_run_failure_persists(c, s, i + 1);
    } else {
        assert(s.take(i) =~= s);
    }
}

/// Taking the characters of `s` and then those of `t` is taking those of
/// `s + t`.
pub proof fn lemma_run_concat(c: ContextModel, s: Seq<char>, t: Seq<char>)
    ensures
        run(c, s + t) == match run(c, s) {
            Ok(m) => run(m, t),
            Err(f) => Err(f),
        },
    decreases t.len(),
{
    if t.len() == 0 {
        assert(s + t =~= s);
    } else {
        assert((s + t).drop_last() =~= s + t.drop_last());
        assert((s + t).last() == t.last());
        lemma_run_concat(c, s, t.drop_last());
    }
}

/// No action fails for want of input.
proof fn lemma_act_not_empty(c: ContextModel, action: crate::bencode::types::NodeAction)
    ensures
        act_in_context(c, action) != Err::<ContextModel, Failure>(Failure::EmptyInput),
{
    lemma_act_at(c.value, c.value_path, action);
}

/// No character fails for want of input.
proof fn lemma_step_not_empty(c: ContextModel, ch: char)
    ensures
        step(c, ch) != Err::<ContextModel, Failure>(Failure::EmptyInput),
{
    lemma_act_not_empty(c, crate::bencode::types::NodeAction::OpenArray);
    lemma_act_not_empty(c, crate::bencode::types::NodeAction::OpenObject);
    let data = c.data_chars.push(ch);
    lemma_act_not_empty(
        ContextModel { data_chars: data, ..c },
        crate::bencode::types::NodeAction::Place(Json::Str(data)),
    );
    match crate::bencode::number::parse_isize_spec(c.data_chars) {
        Some(n) => lemma_act_not_empty(
            c,
            crate::bencode::types::NodeAction::Place(Json::Number(n as int)),
        ),
        None => {},
    }
    match crate::bencode::number::parse_usize_spec(c.meta_chars) {
        Some(n) => lemma_act_not_empty(
            ContextModel { value_length: n, ..c },
            crate::bencode::types::NodeAction::Place(Json::Str(c.data_chars)),
        ),
        None => {},
    }
}

proof fn lemma_run_not_empty(c: ContextModel, s: Seq<char>)
    ensures
        run(c, s) != Err::<ContextModel, Failure>(Failure::EmptyInput),
    decreases s.len(),
{
    if s.len() > 0 {
        lemma_run_not_empty(c, s.drop_last());
        if run(c, s.drop_last()) is Ok {
            lemma_step_not_empty(run(c, s.drop_last())->Ok_0, s.last());
        }
    }
}

/// Decoding fails for an empty input exactly when the input is empty, and
/// the text "Empty encoded value" explains that failure and no other.
pub proof fn empty_input_fails_alone(s: Seq<char>, f: Failure, text: Seq<char>)
    ensures
        decode_spec(s) == Err::<Json, Failure>(Failure::EmptyInput) <==> s.len() == 0,
        message_holds(f, text) ==> (text == "Empty encoded value"@ <==> f == Failure::EmptyInput),
{
    lemma_run_not_empty(initial_context(), s);
    reveal_strlit("Empty encoded value");
    if message_holds(f, text) && text == "Empty encoded value"@ {
        assert(text[0] == 'E');
        match f {
            Failure::UnhandledValue => { reveal_strlit("Unhandled encoded value"); },
            Failure::NoOpenContainer => { reveal_strlit("No open container to close"); },
            Failure::NotAContainer => {
                reveal_strlit("open_container was not a List or a Dictionary");
            },
            Failure::KindMismatch => { reveal_strlit("Unable to match on context.current_kind"); },
            Failure::IntegerKindChar => {
                reveal_strlit("Unable to match a character for _integer_kind");
            },
            Failure::StringKindChar(c) => {
                reveal_strlit("Unable to match character '");
                assert(text[0] == "Unable to match character '"@[0]);
            },
            Failure::InvalidInteger => { reveal_strlit("invalid integer"); },
            Failure::InvalidStringLength(l) => {
                reveal_strlit("Invalid string length: ");
                assert(text[0] == "Invalid string length: "@[0]);
            },
            Failure::InvalidValueLocation => { reveal_strlit("invalid value location"); },
            Failure::NotAString(v) => {
                reveal_strlit("Value is not a String ");
                assert(text[0] == "Value is not a String "@[0]);
            },
            Failure::NoNullKey(e) => {
                reveal_strlit("Unable to fine NULL value to place new object: ");
                assert(text[0] == "Unable to fine NULL value to place new object: "@[0]);
            },
            Failure::CannotCreateArray(v) => {
                reveal_strlit("cannot create array at current value: ");
                assert(text[0] == "cannot create array at current value: "@[0]);
            },
            Failure::CannotCreateObject(v) => {
                reveal_strlit("cannot create object at current value: ");
                assert(text[0] == "cannot create object at current value: "@[0]);
            },
            Failure::EmptyInput => {},
        }
    }
}

pub struct Decoder;

impl Decoder {
    pub fn new() -> Self {
        Self {  }
    }

    /// Decodes `encoded_value` character by character.
    pub fn decode_value(&self, encoded_value: &str) -> (r: Result<JsonValue, DecodeError>)
        ensures
            match decode_spec(encoded_value@) {
                Ok(v) => r is Ok && r->Ok_0@ == v,
                Err(f) => r is Err && r->Err_0@ == f,
            },
    {
        if encoded_value.is_empty() {
            return Err(DecodeError::EmptyInput);
        }
        let mut context = Context::new();
        let processor = CharacterProcessor::new();
        let ghost text = encoded_value@;
        proof {
            broadcast use vstd::string::group_string_axioms;
            assert(text.take(0) =~= Seq::<char>::empty());
        }
        for c in it: encoded_value.chars()
            invariant
                text == encoded_value@,
                it.seq() == text,
                run(initial_context(), text.take(it.index() as int)) == Ok::<ContextModel, Failure>(context@),
        {
            let ghost i = it.index() as int;
            assert(text.take(i + 1).drop_last() =~= text.take(i));
            assert(text[i] == c);
            context = match processor.next_character(c, context) {
                Ok(next) => next,
                Err(e) => {
                    proof {
                        lemma_run_failure_persists(initial_context(), text, i + 1);
                    }
                    return Err(e);
                },
            };
        }
        let ghost n = text.len();
        assert(text.take(n as int) =~= text);
        Ok(context.value)
    }

    /// Decodes `encoded_value` into a `serde_json::Value`, or gives the text
    /// of the reason it cannot be decoded.
    pub fn decode(&self, encoded_value: &str) -> (r: Result<serde_json::Value, String>)
        ensures
            match decode_spec(encoded_value@) {
                Ok(v) => r == Ok::<serde_json::Value, String>(serde_of(v)),
                Err(f) => r is Err && message_holds(f, r->Err_0@),
            },
    {
        match self.decode_value(encoded_value) {
            Ok(value) => Ok(to_serde(&value)),
            Err(e) => Err(e.message()),
        }
    }
}

} // verus!
