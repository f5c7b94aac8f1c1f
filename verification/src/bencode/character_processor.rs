//! The step from one state to the next on one character.
use crate::bencode::handlers::{
    dictionary_end, dictionary_start, integer_data, integer_end, integer_start, list_end,
    list_start, string_data, string_meta, DictionaryHandler, IntegerHandler, ListHandler,
    StringHandler,
};
use crate::bencode::number::is_digit;
use crate::bencode::types::{
    context_result, BencodeKind, BencodeState, Context, ContextModel, DecodeError, Failure,
};
use vstd::prelude::*;

verus! {

/// The kind whose characters are being read; `None` between values, when the
/// next character starts a value or closes a container.
pub open spec fn active_kind(c: ContextModel) -> Option<BencodeKind> {
    let kind_has_ended = c.state == Some(BencodeState::End);
    let just_opened_container = (c.kind == Some(BencodeKind::List) || c.kind == Some(
        BencodeKind::Dictionary,
    )) && c.state == Some(BencodeState::Start);
    if kind_has_ended || just_opened_container {
        None
    } else {
        c.kind
    }
}

/// A character between values: it opens a dictionary, a list or an
/// integer, closes the innermost container, or starts a string's length.
pub open spec fn no_kind_step(c: ContextModel, ch: char) -> Result<ContextModel, Failure> {
    if ch == 'd' {
        dictionary_start(c)
    } else if ch == 'e' {
        if c.open_containers.len() == 0 {
            Err(Failure::NoOpenContainer)
        } else {
            let rest = c.open_containers.drop_last();
            match c.open_containers.last() {
                BencodeKind::List => Ok(list_end(c, rest)),
                BencodeKind::Dictionary => Ok(dictionary_end(c, rest)),
                _ => Err(Failure::NotAContainer),
            }
        }
    } else if ch == 'i' {
        Ok(integer_start(c))
    } else if ch == 'l' {
        list_start(c)
    } else if is_digit(ch) || ch == '-' {
        string_meta(c, ch)
    } else {
        Err(Failure::UnhandledValue)
    }
}

/// A character inside an integer: a digit or `-`, or the closing `e`.
pub open spec fn integer_step(c: ContextModel, ch: char) -> Result<ContextModel, Failure> {
    if ch == 'e' {
        integer_end(c)
    } else if is_digit(ch) || ch == '-' {
        Ok(integer_data(c, ch))
    } else {
        Err(Failure::IntegerKindChar)
    }
}

/// A character of a string: after the colon any character is data; before
/// it, a digit or the colon.
pub open spec fn string_step(c: ContextModel, ch: char) -> Result<ContextModel, Failure> {
    if c.character == Some(':') || c.state == Some(BencodeState::Data) {
        string_data(c, ch)
    } else if ch == ':' && c.state == Some(BencodeState::Meta) {
        string_meta(c, ':')
    } else if is_digit(ch) {
        string_meta(c, ch)
    } else {
        Err(Failure::StringKindChar(ch))
    }
}

/// The state after `ch`, or why `ch` cannot be taken.
pub open spec fn step(c: ContextModel, ch: char) -> Result<ContextModel, Failure> {
    match active_kind(c) {
        None => no_kind_step(c, ch),
        Some(BencodeKind::Integer) => integer_step(c, ch),
        Some(BencodeKind::List) => no_kind_step(c, ch),
        Some(BencodeKind::String) => string_step(c, ch),
        Some(BencodeKind::Dictionary) => Err(Failure::KindMismatch),
    }
}

/// What one character does to the phase and to the open containers: the
/// character is recorded; between values `i`, `l` and `d` start an integer,
/// a list and a dictionary (the last two are opened), a digit or `-` starts
/// a string's length, and `e` closes the innermost container, reporting the
/// kind of the container it closed, ended, and leaving the value as it is;
/// inside an integer the kind stays `Integer` and inside a string `String`,
/// and neither opens or closes a container. Closing succeeds whenever the
/// innermost open container is a list or a dictionary.
pub proof fn step_phase_law(c: ContextModel, ch: char)
    ensures
        step(c, ch) is Ok ==> {
            let m = step(c, ch)->Ok_0;
            let between = active_kind(c) is None || active_kind(c) == Some(BencodeKind::List);
            &&& m.character == Some(ch)
            &&& between && ch == 'e' ==> c.open_containers.len() > 0 && m.kind == Some(
                c.open_containers.last(),
            ) && m.state == Some(BencodeState::End) && m.open_containers
                == c.open_containers.drop_last() && m.value == c.value && m.value_path == (
            if c.value_path.len() > 0 {
                c.value_path.drop_last()
            } else {
                c.value_path
            })
            &&& between && ch == 'l' ==> m.kind == Some(BencodeKind::List) && m.state == Some(
                BencodeState::Start,
            ) && m.open_containers == c.open_containers.push(BencodeKind::List)
            &&& between && ch == 'd' ==> m.kind == Some(BencodeKind::Dictionary) && m.state == Some(
                BencodeState::Start,
            ) && m.open_containers == c.open_containers.push(BencodeKind::Dictionary)
            &&& between && ch == 'i' ==> m.kind == Some(BencodeKind::Integer) && m.state == Some(
                BencodeState::Start,
            ) && m.open_containers == c.open_containers
            &&& between && (is_digit(ch) || ch == '-') ==> m.kind == Some(BencodeKind::String)
                && m.state == Some(BencodeState::Meta) && m.open_containers == c.open_containers
            &&& active_kind(c) == Some(BencodeKind::Integer) ==> m.kind == Some(BencodeKind::Integer)
                && m.state == Some(
                if ch == 'e' {
                    BencodeState::End
                } else {
                    BencodeState::Data
                },
            ) && m.open_containers == c.open_containers
            &&& active_kind(c) == Some(BencodeKind::String) ==> m.kind == Some(BencodeKind::String)
                && m.open_containers == c.open_containers
        },
        (active_kind(c) is None || active_kind(c) == Some(BencodeKind::List)) && ch == 'e'
            && c.open_containers.len() > 0 && (c.open_containers.last() == BencodeKind::List
            || c.open_containers.last() == BencodeKind::Dictionary) ==> step(c, ch) is Ok,
{
}

/// Why a character is refused: between values, an `e` with nothing open
/// closes nothing, and a character that starts no value is unhandled; inside
/// an integer only digits, `-` and the closing `e` are taken, and the closing
/// `e` needs the characters before it to be an `isize` numeral; inside a
/// string's length only digits and the `:` are taken; and no character is
/// read while a dictionary is the kind in progress.
pub proof fn step_refusal_law(c: ContextModel, ch: char)
    ensures
        (active_kind(c) is None || active_kind(c) == Some(BencodeKind::List)) && ch == 'e'
            && c.open_containers.len() == 0 ==> step(c, ch) == Err::<ContextModel, Failure>(
            Failure::NoOpenContainer,
        ),
        (active_kind(c) is None || active_kind(c) == Some(BencodeKind::List)) && !(ch == 'd' || ch
            == 'e' || ch == 'i' || ch == 'l' || ch == '-' || is_digit(ch)) ==> step(c, ch) == Err::<
            ContextModel,
            Failure,
        >(Failure::UnhandledValue),
        active_kind(c) == Some(BencodeKind::Integer) && !(ch == 'e' || ch == '-' || is_digit(ch))
            ==> step(c, ch) == Err::<ContextModel, Failure>(Failure::IntegerKindChar),
        active_kind(c) == Some(BencodeKind::Integer) && ch == 'e'
            && crate::bencode::number::parse_isize_spec(c.data_chars) is None ==> step(c, ch)
            == Err::<ContextModel, Failure>(Failure::InvalidInteger),
        active_kind(c) == Some(BencodeKind::String) && c.character != Some(':') && c.state != Some(
            BencodeState::Data,
        ) && !(ch == ':' || is_digit(ch)) ==> step(c, ch) == Err::<ContextModel, Failure>(
            Failure::StringKindChar(ch),
        ),
        active_kind(c) == Some(BencodeKind::Dictionary) ==> step(c, ch) == Err::<
            ContextModel,
            Failure,
        >(Failure::KindMismatch),
{
}

fn is_ascii_digit(c: char) -> (r: bool)
    ensures
        r == is_digit(c),
{
    '0' <= c && c <= '9'
}

pub struct CharacterProcessor {}

impl CharacterProcessor {
    pub fn new() -> Self {
        Self {  }
    }

    /// Takes one character: the state after it, or why it cannot be taken.
    pub fn next_character(&self, character: char, context: Context) -> (r: Result<Context, DecodeError>)
        ensures
            context_result(r, step(context@, character)),
    {
        let active_kind = get_active_kind(&context);
        match active_kind {
            None => self._no_kind(character, context),
            Some(BencodeKind::Integer) => self._integer_kind(character, context),
            Some(BencodeKind::List) => self._no_kind(character, context),
            Some(BencodeKind::String) => self._string_kind(character, context),
            _ => Err(DecodeError::KindMismatch),
        }
    }

    fn _no_kind(&self, character: char, ctxt: Context) -> (r: Result<Context, DecodeError>)
        ensures
            context_result(r, no_kind_step(ctxt@, character)),
    {
        if character == 'd' {
            DictionaryHandler::start(ctxt)
        } else if character == 'e' {
            // with no kind being read, 'e' closes a container: a list or a dictionary
            let (open_containers, open_container) = match ctxt.pop_next_container() {
                Ok(popped) => popped,
                Err(e) => return Err(e),
            };
            match open_container {
                BencodeKind::List => ListHandler::end(ctxt, open_containers),
                BencodeKind::Dictionary => DictionaryHandler::end(ctxt, open_containers),
                _ => Err(DecodeError::NotAContainer),
            }
        } else if character == 'i' {
            IntegerHandler::start(ctxt)
        } else if character == 'l' {
            ListHandler::start(ctxt)
        } else if is_ascii_digit(character) || character == '-' {
            StringHandler::meta(ctxt, character)
        } else {
            Err(DecodeError::UnhandledValue)
        }
    }

    fn _integer_kind(&self, character: char, ctxt: Context) -> (r: Result<Context, DecodeError>)
        ensures
            context_result(r, integer_step(ctxt@, character)),
    {
        if character == 'e' {
            IntegerHandler::end(ctxt)
        } else if is_ascii_digit(character) || character == '-' {
            IntegerHandler::data(ctxt, character)
        } else {
            Err(DecodeError::IntegerKindChar)
        }
    }

    fn _string_kind(&self, character: char, ctxt: Context) -> (r: Result<Context, DecodeError>)
        ensures
            context_result(r, string_step(ctxt@, character)),
    {
        if ctxt.character == Some(':') || ctxt.state == Some(BencodeState::Data) {
            StringHandler::data(ctxt, character)
        } else if character == ':' && ctxt.state == Some(BencodeState::Meta) {
            StringHandler::meta(ctxt, ':')
        } else if is_ascii_digit(character) {
            StringHandler::meta(ctxt, character)
        } else {
            Err(DecodeError::StringKindChar(character))
        }
    }
}

/// The kind whose characters are being read, if any.
fn get_active_kind(context: &Context) -> (r: Option<BencodeKind>)
    ensures
        r == active_kind(context@),
{
    let kind_has_ended = context.state == Some(BencodeState::End);
    let just_opened_container = (context.kind == Some(BencodeKind::List) || context.kind == Some(
        BencodeKind::Dictionary,
    )) && context.state == Some(BencodeState::Start);
    if kind_has_ended || just_opened_container {
        None
    } else {
        context.kind
    }
}

} // verus!
