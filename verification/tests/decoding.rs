use bittorrent::bencode::character_processor::CharacterProcessor;
use bittorrent::bencode::decoder::Decoder;
use bittorrent::bencode::types::{Context, DecodeError, JsonValue};
use serde_json::Value;

fn decode(text: &str) -> Result<Value, String> {
    Decoder::new().decode(text)
}

fn decode_value(text: &str) -> Result<JsonValue, DecodeError> {
    Decoder::new().decode_value(text)
}

#[test]
fn string_length_counts_bytes() {
    assert_eq!(decode("2:\u{e9}"), Ok(Value::from("\u{e9}")));
    assert_eq!(decode("3:\u{20ac}"), Ok(Value::from("\u{20ac}")));
    assert_eq!(decode("l4:a\u{20ac}i7ee"), Ok(Value::Array(vec![Value::from("a\u{20ac}"), Value::from(7)])));
}

#[test]
fn strings_hold_any_characters() {
    assert_eq!(decode("4:i1el"), Ok(Value::from("i1el")));
    assert_eq!(decode("3:1:e"), Ok(Value::from("1:e")));
}

#[test]
fn encoded_values_decode_back() {
    // d 3:cow 3:moo 4:spam l 1:a 1:b e 1:n d e e
    let text = "d3:cow3:moo4:spaml1:a1:be1:ndee";
    let mut inner = serde_json::Map::new();
    inner.insert("cow".to_string(), Value::from("moo"));
    inner.insert("spam".to_string(), Value::Array(vec![Value::from("a"), Value::from("b")]));
    inner.insert("n".to_string(), Value::Object(serde_json::Map::new()));
    assert_eq!(decode(text), Ok(Value::Object(inner)));
    assert_eq!(
        decode_value("l0:i-3ele1:xe"),
        Ok(JsonValue::Array(vec![
            JsonValue::String(String::new()),
            JsonValue::Number(-3),
            JsonValue::Array(vec![]),
            JsonValue::String("x".to_string()),
        ]))
    );
}

#[test]
fn dictionary_entries_keep_text_order() {
    assert_eq!(
        decode_value("d1:bi1e1:ai2ee"),
        Ok(JsonValue::Object(vec![
            ("b".to_string(), JsonValue::Number(1)),
            ("a".to_string(), JsonValue::Number(2)),
        ]))
    );
    assert_eq!(decode("d1:bi1e1:ai2ee").unwrap().to_string(), "{\"a\":2,\"b\":1}");
}

#[test]
fn repeated_key_takes_last_value() {
    assert_eq!(
        decode_value("d1:ai1e1:ai2ee"),
        Ok(JsonValue::Object(vec![("a".to_string(), JsonValue::Number(2))]))
    );
}

#[test]
fn integer_extremes() {
    assert_eq!(decode("i-0e"), Ok(Value::from(0)));
    assert_eq!(decode("i007e"), Ok(Value::from(7)));
    assert_eq!(decode("i9223372036854775807e"), Ok(Value::from(i64::MAX)));
    assert_eq!(decode("i-9223372036854775808e"), Ok(Value::from(i64::MIN)));
    assert_eq!(decode("i9223372036854775808e"), Err("invalid integer".to_string()));
    assert_eq!(decode("ie"), Err("invalid integer".to_string()));
    assert_eq!(decode("i-e"), Err("invalid integer".to_string()));
    assert_eq!(decode("i1-2e"), Err("invalid integer".to_string()));
}

#[test]
fn unfinished_text_gives_what_was_placed() {
    assert_eq!(decode("5:hel"), Ok(Value::Null));
    assert_eq!(decode("l"), Ok(Value::Array(vec![])));
    assert_eq!(decode("li1e"), Ok(Value::Array(vec![Value::from(1)])));
    assert_eq!(decode("i12"), Ok(Value::Null));
}

#[test]
fn later_top_value_replaces_earlier() {
    assert_eq!(decode("i1ei2e"), Ok(Value::from(2)));
    assert_eq!(decode("i1e3:abc"), Ok(Value::from("abc")));
}

#[test]
fn each_error_has_its_input() {
    assert_eq!(decode_value(""), Err(DecodeError::EmptyInput));
    assert_eq!(decode_value("x"), Err(DecodeError::UnhandledValue));
    assert_eq!(decode_value("e"), Err(DecodeError::NoOpenContainer));
    assert_eq!(decode_value("lee"), Err(DecodeError::NoOpenContainer));
    assert_eq!(decode_value("i1xe"), Err(DecodeError::IntegerKindChar));
    assert_eq!(decode_value("i+1e"), Err(DecodeError::IntegerKindChar));
    assert_eq!(decode_value("5x"), Err(DecodeError::StringKindChar('x')));
    assert_eq!(decode_value("i1.5e"), Err(DecodeError::IntegerKindChar));
    assert_eq!(decode_value("i--1e"), Err(DecodeError::InvalidInteger));
    assert_eq!(
        decode_value("-1:a"),
        Err(DecodeError::InvalidStringLength("-1".to_string()))
    );
    assert_eq!(
        decode_value("di1ee"),
        Err(DecodeError::NotAString(JsonValue::Number(1)))
    );
    assert_eq!(
        decode_value("d1:ai1ele"),
        Err(DecodeError::NoNullKey(vec![("a".to_string(), JsonValue::Number(1))]))
    );
    assert_eq!(
        decode_value("i1el"),
        Err(DecodeError::CannotCreateArray(JsonValue::Number(1)))
    );
    assert_eq!(
        decode_value("2:abd"),
        Err(DecodeError::CannotCreateObject(JsonValue::String("ab".to_string())))
    );
}

#[test]
fn error_texts() {
    assert_eq!(decode("e"), Err("No open container to close".to_string()));
    assert_eq!(decode("i1xe"), Err("Unable to match a character for _integer_kind".to_string()));
    assert_eq!(
        decode("5x"),
        Err("Unable to match character ''x'' in _string_kind CharacterProcessor.".to_string())
    );
    assert_eq!(decode("-1:a"), Err("Invalid string length: -1".to_string()));
    assert_eq!(decode("di1ee"), Err("Value is not a String Number(1)".to_string()));
    assert_eq!(
        decode("d1:ai1ele"),
        Err("Unable to fine NULL value to place new object: {\"a\": Number(1)}".to_string())
    );
    assert_eq!(
        decode("i1el"),
        Err("cannot create array at current value: Number(1)".to_string())
    );
    assert_eq!(
        decode("2:abd"),
        Err("cannot create object at current value: String(\"ab\")".to_string())
    );
    assert_eq!(DecodeError::InvalidInteger.message(), "invalid integer");
    assert_eq!(DecodeError::InvalidValueLocation.message(), "invalid value location");
    assert_eq!(DecodeError::KindMismatch.message(), "Unable to match on context.current_kind");
    assert_eq!(
        DecodeError::NotAContainer.message(),
        "open_container was not a List or a Dictionary"
    );
}

#[test]
fn a_failure_stays_whatever_follows() {
    assert_eq!(decode_value("x5:hello"), Err(DecodeError::UnhandledValue));
    assert_eq!(decode_value("i1xei2e"), Err(DecodeError::IntegerKindChar));
}

#[test]
fn a_text_decodes_as_its_parts_in_turn() {
    let processor = CharacterProcessor::new();
    let mut ctxt = Context::new();
    for c in "l5:hello".chars() {
        ctxt = processor.next_character(c, ctxt).unwrap();
    }
    for c in "i52ee".chars() {
        ctxt = processor.next_character(c, ctxt).unwrap();
    }
    assert_eq!(Ok(ctxt.value), decode_value("l5:helloi52ee"));
}

#[test]
fn no_dictionary_waits_for_two_keys() {
    let processor = CharacterProcessor::new();
    let mut ctxt = Context::new();
    for c in "d1:ai1e1:bd1:c".chars() {
        ctxt = processor.next_character(c, ctxt).unwrap();
    }
    assert_eq!(
        ctxt.value,
        JsonValue::Object(vec![
            ("a".to_string(), JsonValue::Number(1)),
            (
                "b".to_string(),
                JsonValue::Object(vec![("c".to_string(), JsonValue::Null)])
            ),
        ])
    );
}

#[test]
fn only_the_empty_input_is_reported_empty() {
    assert_eq!(decode(""), Err("Empty encoded value".to_string()));
    for text in ["e", "x", "i1x", "1x", "le", "d1:ae", "i99999999999999999999e"] {
        assert_ne!(decode(text), Err("Empty encoded value".to_string()));
    }
}

#[test]
fn opened_containers_take_the_values_that_follow() {
    let mut inner = serde_json::Map::new();
    inner.insert("b".to_string(), Value::Array(vec![Value::from(1), Value::Object(serde_json::Map::new())]));
    let mut outer = serde_json::Map::new();
    outer.insert("a".to_string(), Value::Object(inner));
    outer.insert("c".to_string(), Value::from(2));
    assert_eq!(decode("d1:ad1:bli1edeee1:ci2ee"), Ok(Value::Object(outer)));
}

#[test]
fn a_key_left_waiting_decodes_to_null() {
    let mut m = serde_json::Map::new();
    m.insert("a".to_string(), Value::Null);
    assert_eq!(decode("d1:a"), Ok(Value::Object(m)));
    assert_eq!(decode("li1e"), Ok(Value::Array(vec![Value::from(1)])));
}

#[test]
fn lists_and_dictionaries_take_any_item_texts() {
    assert_eq!(decode("le"), Ok(Value::Array(vec![])));
    assert_eq!(decode("de"), Ok(Value::Object(serde_json::Map::new())));
    assert_eq!(
        decode("li007e03:abci-5ee"),
        Ok(Value::Array(vec![Value::from(7), Value::from("abc"), Value::from(-5)]))
    );
    let mut m = serde_json::Map::new();
    m.insert("b".to_string(), Value::from(0));
    m.insert("a".to_string(), Value::Array(vec![Value::from("xyz")]));
    assert_eq!(decode("d1:bi-0e1:al03:xyzee"), Ok(Value::Object(m)));
}

#[test]
fn one_value_text_paths_follow_open_containers() {
    let processor = CharacterProcessor::new();
    let mut ctxt = Context::new();
    for (c, depth) in "ld1:ali1eeee".chars().zip([1usize, 2, 2, 2, 2, 3, 3, 3, 3, 2, 1, 0]) {
        ctxt = processor.next_character(c, ctxt).unwrap();
        assert_eq!(ctxt.open_containers.len(), depth);
        assert_eq!(ctxt.value_path.len(), depth.saturating_sub(1));
    }
}
