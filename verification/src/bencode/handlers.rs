//! What each kind of value does with the characters that start, fill and end
//! it.
use crate::bencode::number::{parse_isize, parse_isize_spec, parse_usize, parse_usize_spec};
use crate::bencode::types::{
    act_in_context, cleared, context_result, end_nested, BencodeKind, BencodeState, Context,
    ContextModel, DecodeError, Failure, Json, JsonValue, NodeAction,
};
use vstd::prelude::*;
use vstd::utf8::encode_utf8;

verus! {

/// The length in bytes of `s` written in UTF-8, as `String::len` gives it.
pub open spec fn byte_len(s: Seq<char>) -> usize {
    encode_utf8(s).len() as usize
}

/// `c` after `ch` was taken as a character of a value of `kind` in `state`.
pub open spec fn with_phase(c: ContextModel, ch: char, kind: BencodeKind, state: BencodeState) -> ContextModel {
    ContextModel { character: Some(ch), kind: Some(kind), state: Some(state), ..c }
}

pub open spec fn dictionary_start(c: ContextModel) -> Result<ContextModel, Failure> {
    match act_in_context(c, NodeAction::OpenObject) {
        Ok(m) => {
            let m = with_phase(cleared(m), 'd', BencodeKind::Dictionary, BencodeState::Start);
            Ok(ContextModel { open_containers: m.open_containers.push(BencodeKind::Dictionary), ..m })
        },
        Err(f) => Err(f),
    }
}

pub open spec fn dictionary_end(c: ContextModel, open_containers: Seq<BencodeKind>) -> ContextModel {
    ContextModel {
        open_containers,
        ..with_phase(cleared(end_nested(c)), 'e', BencodeKind::Dictionary, BencodeState::End)
    }
}

pub open spec fn list_start(c: ContextModel) -> Result<ContextModel, Failure> {
    match act_in_context(c, NodeAction::OpenArray) {
        Ok(m) => {
            let m = with_phase(cleared(m), 'l', BencodeKind::List, BencodeState::Start);
            Ok(ContextModel { open_containers: m.open_containers.push(BencodeKind::List), ..m })
        },
        Err(f) => Err(f),
    }
}

pub open spec fn list_end(c: ContextModel, open_containers: Seq<BencodeKind>) -> ContextModel {
    ContextModel {
        open_containers,
        ..with_phase(cleared(end_nested(c)), 'e', BencodeKind::List, BencodeState::End)
    }
}

pub open spec fn integer_start(c: ContextModel) -> ContextModel {
    with_phase(c, 'i', BencodeKind::Integer, BencodeState::Start)
}

pub open spec fn integer_data(c: ContextModel, ch: char) -> ContextModel {
    with_phase(
        ContextModel { data_chars: c.data_chars.push(ch), ..c },
        ch,
        BencodeKind::Integer,
        BencodeState::Data,
    )
}

pub open spec fn integer_end(c: ContextModel) -> Result<ContextModel, Failure> {
    match parse_isize_spec(c.data_chars) {
        None => Err(Failure::InvalidInteger),
        Some(n) => match act_in_context(c, NodeAction::Place(Json::Number(n as int))) {
            Ok(m) => Ok(with_phase(cleared(m), 'e', BencodeKind::Integer, BencodeState::End)),
            Err(f) => Err(f),
        },
    }
}

pub open spec fn string_data(c: ContextModel, ch: char) -> Result<ContextModel, Failure> {
    let data = c.data_chars.push(ch);
    let c1 = ContextModel { data_chars: data, ..c };
    if byte_len(data) == c.value_length {
        match act_in_context(c1, NodeAction::Place(Json::Str(data))) {
            Ok(m) => Ok(with_phase(cleared(m), ch, BencodeKind::String, BencodeState::End)),
            Err(f) => Err(f),
        }
    } else {
        Ok(with_phase(c1, ch, BencodeKind::String, BencodeState::Data))
    }
}

pub open spec fn string_meta(c: ContextModel, ch: char) -> Result<ContextModel, Failure> {
    if ch == ':' {
        match parse_usize_spec(c.meta_chars) {
            None => Err(Failure::InvalidStringLength(c.meta_chars)),
            Some(n) => {
                let c1 = ContextModel { value_length: n, ..c };
                if n == 0 {
                    match act_in_context(c1, NodeAction::Place(Json::Str(c1.data_chars))) {
                        Ok(m) => Ok(
                            with_phase(cleared(m), ':', BencodeKind::String, BencodeState::End),
                        ),
                        Err(f) => Err(f),
                    }
                } else {
                    Ok(with_phase(c1, ':', BencodeKind::String, BencodeState::Meta))
                }
            },
        }
    } else {
        Ok(
            with_phase(
                ContextModel { meta_chars: c.meta_chars.push(ch), ..c },
                ch,
                BencodeKind::String,
                BencodeState::Meta,
            ),
        )
    }
}

/// `String::push`: appends one character.
#[verifier::external_body]
fn push_char(s: &mut String, c: char)
    ensures
        final(s)@ == old(s)@.push(c),
{
    s.push(c)
}

pub(crate) struct DictionaryHandler;

impl DictionaryHandler {
    pub(crate) fn start(mut ctxt: Context) -> (r: Result<Context, DecodeError>)
        ensures
            context_result(r, dictionary_start(ctxt@)),
    {
        match ctxt.create_object() {
            Ok(()) => {},
            Err(e) => return Err(e),
        }
        ctxt.clear_type();
        ctxt.character = Some('d');
        ctxt.kind = Some(BencodeKind::Dictionary);
        ctxt.state = Some(BencodeState::Start);
        ctxt.open_containers.push(BencodeKind::Dictionary);
        Ok(ctxt)
    }

    pub(crate) fn end(mut ctxt: Context, open_containers: Vec<BencodeKind>) -> (r: Result<Context, DecodeError>)
        ensures
            context_result(r, Ok(dictionary_end(ctxt@, open_containers@))),
    {
        ctxt.end_nested_value();
        ctxt.clear_type();
        ctxt.character = Some('e');
        ctxt.kind = Some(BencodeKind::Dictionary);
        ctxt.state = Some(BencodeState::End);
        ctxt.open_containers = open_containers;
        Ok(ctxt)
    }
}

pub(crate) struct IntegerHandler;

impl IntegerHandler {
    pub(crate) fn start(mut ctxt: Context) -> (r: Result<Context, DecodeError>)
        ensures
            context_result(r, Ok(integer_start(ctxt@))),
    {
        ctxt.character = Some('i');
        ctxt.kind = Some(BencodeKind::Integer);
        ctxt.state = Some(BencodeState::Start);
        Ok(ctxt)
    }

    pub(crate) fn data(mut ctxt: Context, character: char) -> (r: Result<Context, DecodeError>)
        ensures
            context_result(r, Ok(integer_data(ctxt@, character))),
    {
        push_char(&mut ctxt.data_chars, character);
        ctxt.character = Some(character);
        ctxt.kind = Some(BencodeKind::Integer);
        ctxt.state = Some(BencodeState::Data);
        Ok(ctxt)
    }

    pub(crate) fn end(mut ctxt: Context) -> (r: Result<Context, DecodeError>)
        ensures
            context_result(r, integer_end(ctxt@)),
    {
        let integer = match parse_isize(ctxt.data_chars.as_str()) {
            Some(n) => n,
            None => return Err(DecodeError::InvalidInteger),
        };
        match ctxt.update_value(JsonValue::Number(integer)) {
            Ok(()) => {},
            Err(e) => return Err(e),
        }
        ctxt.clear_type();
        ctxt.character = Some('e');
        ctxt.kind = Some(BencodeKind::Integer);
        ctxt.state = Some(BencodeState::End);
        Ok(ctxt)
    }
}

pub(crate) struct ListHandler;

impl ListHandler {
    pub(crate) fn start(mut ctxt: Context) -> (r: Result<Context, DecodeError>)
        ensures
            context_result(r, list_start(ctxt@)),
    {
        match ctxt.create_array() {
            Ok(()) => {},
            Err(e) => return Err(e),
        }
        ctxt.clear_type();
        ctxt.character = Some('l');
        ctxt.kind = Some(BencodeKind::List);
        ctxt.state = Some(BencodeState::Start);
        ctxt.open_containers.push(BencodeKind::List);
        Ok(ctxt)
    }

    pub(crate) fn end(mut ctxt: Context, open_containers: Vec<BencodeKind>) -> (r: Result<Context, DecodeError>)
        ensures
            context_result(r, Ok(list_end(ctxt@, open_containers@))),
    {
        ctxt.end_nested_value();
        ctxt.clear_type();
        ctxt.character = Some('e');
        ctxt.kind = Some(BencodeKind::List);
        ctxt.state = Some(BencodeState::End);
        ctxt.open_containers = open_containers;
        Ok(ctxt)
    }
}

pub(crate) struct StringHandler;

impl StringHandler {
    pub(crate) fn data(mut ctxt: Context, character: char) -> (r: Result<Context, DecodeError>)
        ensures
            context_result(r, string_data(ctxt@, character)),
    {
        push_char(&mut ctxt.data_chars, character);
        if ctxt.data_chars.as_str().len() == ctxt.value_length {
            let serde_string = JsonValue::String(ctxt.data_chars.clone());
            match ctxt.update_value(serde_string) {
                Ok(()) => {},
                Err(e) => return Err(e),
            }
            ctxt.clear_type();
            ctxt.state = Some(BencodeState::End);
        } else {
            ctxt.state = Some(BencodeState::Data);
        }
        ctxt.character = Some(character);
        ctxt.kind = Some(BencodeKind::String);
        Ok(ctxt)
    }

    pub(crate) fn meta(mut ctxt: Context, character: char) -> (r: Result<Context, DecodeError>)
        ensures
            context_result(r, string_meta(ctxt@, character)),
    {
        if character == ':' {
            ctxt.value_length = match parse_usize(ctxt.meta_chars.as_str()) {
                Some(n) => n,
                None => return Err(DecodeError::InvalidStringLength(ctxt.meta_chars)),
            };
            // a string of length zero ends at its colon
            if ctxt.value_length == 0 {
                let serde_string = JsonValue::String(ctxt.data_chars.clone());
                match ctxt.update_value(serde_string) {
                    Ok(()) => {},
                    Err(e) => return Err(e),
                }
                ctxt.clear_type();
                ctxt.state = Some(BencodeState::End);
            } else {
                ctxt.state = Some(BencodeState::Meta);
            }
            ctxt.character = Some(':');
            ctxt.kind = Some(BencodeKind::String);
        } else {
            push_char(&mut ctxt.meta_chars, character);
            ctxt.character = Some(character);
            ctxt.kind = Some(BencodeKind::String);
            ctxt.state = Some(BencodeState::Meta);
        }
        Ok(ctxt)
    }
}

} // verus!
