use bittorrent::bencode::character_processor::CharacterProcessor;
use bittorrent::bencode::types::{
    BencodeKind, BencodeState, Context, DecodeError, JsonValue, PathItem,
};

#[test]
fn new_context_is_empty() {
    let ctxt = Context::new();
    assert_eq!(ctxt.character, None);
    assert_eq!(ctxt.kind, None);
    assert_eq!(ctxt.state, None);
    assert!(ctxt.open_containers.is_empty());
    assert_eq!(ctxt.value, JsonValue::Null);
    assert!(ctxt.value_path.is_empty());
}

#[test]
fn update_value_places_by_position() {
    let mut ctxt = Context::new();
    ctxt.update_value(JsonValue::Number(3)).unwrap();
    assert_eq!(ctxt.value, JsonValue::Number(3));

    let mut ctxt = Context::new();
    ctxt.value = JsonValue::Array(vec![]);
    ctxt.update_value(JsonValue::Number(1)).unwrap();
    ctxt.update_value(JsonValue::String("a".to_string())).unwrap();
    assert_eq!(
        ctxt.value,
        JsonValue::Array(vec![JsonValue::Number(1), JsonValue::String("a".to_string())])
    );

    let mut ctxt = Context::new();
    ctxt.value = JsonValue::Object(vec![]);
    ctxt.update_value(JsonValue::String("k".to_string())).unwrap();
    assert_eq!(
        ctxt.value,
        JsonValue::Object(vec![("k".to_string(), JsonValue::Null)])
    );
    ctxt.update_value(JsonValue::Number(9)).unwrap();
    assert_eq!(
        ctxt.value,
        JsonValue::Object(vec![("k".to_string(), JsonValue::Number(9))])
    );
    assert_eq!(
        ctxt.update_value(JsonValue::Number(1)),
        Err(DecodeError::NotAString(JsonValue::Number(1)))
    );
}

#[test]
fn update_value_follows_the_path() {
    let mut ctxt = Context::new();
    ctxt.value = JsonValue::Object(vec![(
        "k".to_string(),
        JsonValue::Array(vec![JsonValue::Array(vec![])]),
    )]);
    ctxt.value_path = vec![PathItem::Key("k".to_string()), PathItem::Index(0)];
    ctxt.update_value(JsonValue::Number(5)).unwrap();
    assert_eq!(
        ctxt.value,
        JsonValue::Object(vec![(
            "k".to_string(),
            JsonValue::Array(vec![JsonValue::Array(vec![JsonValue::Number(5)])]),
        )])
    );
}

#[test]
fn update_value_at_missing_place_fails() {
    let mut ctxt = Context::new();
    ctxt.value = JsonValue::Array(vec![]);
    ctxt.value_path = vec![PathItem::Index(5)];
    assert_eq!(
        ctxt.update_value(JsonValue::Number(1)),
        Err(DecodeError::InvalidValueLocation)
    );
    let mut ctxt = Context::new();
    ctxt.value = JsonValue::Object(vec![]);
    ctxt.value_path = vec![PathItem::Key("missing".to_string())];
    assert_eq!(
        ctxt.update_value(JsonValue::Number(1)),
        Err(DecodeError::InvalidValueLocation)
    );
    assert_eq!(ctxt.value, JsonValue::Object(vec![]));
}

#[test]
fn closing_a_non_container_fails() {
    let processor = CharacterProcessor::new();
    let mut ctxt = Context::new();
    ctxt.open_containers = vec![BencodeKind::Integer];
    ctxt.state = Some(BencodeState::End);
    assert_eq!(
        processor.next_character('e', ctxt),
        Err(DecodeError::NotAContainer)
    );
}

#[test]
fn dictionary_kind_in_progress_fails() {
    let processor = CharacterProcessor::new();
    let mut ctxt = Context::new();
    ctxt.kind = Some(BencodeKind::Dictionary);
    ctxt.state = Some(BencodeState::Data);
    assert_eq!(
        processor.next_character('i', ctxt),
        Err(DecodeError::KindMismatch)
    );
}

#[test]
fn nested_list_path_grows_and_shrinks() {
    let processor = CharacterProcessor::new();
    let mut ctxt = Context::new();
    for c in "ll".chars() {
        ctxt = processor.next_character(c, ctxt).unwrap();
    }
    assert_eq!(ctxt.value_path, vec![PathItem::Index(0)]);
    assert_eq!(ctxt.open_containers, vec![BencodeKind::List, BencodeKind::List]);
    ctxt = processor.next_character('e', ctxt).unwrap();
    assert!(ctxt.value_path.is_empty());
    assert_eq!(ctxt.open_containers, vec![BencodeKind::List]);
}

#[test]
fn update_value_fills_the_waiting_key_that_sorts_first() {
    let mut ctxt = Context::new();
    ctxt.value = JsonValue::Object(vec![
        ("b".to_string(), JsonValue::Null),
        ("a".to_string(), JsonValue::Null),
    ]);
    ctxt.update_value(JsonValue::Number(1)).unwrap();
    assert_eq!(
        ctxt.value,
        JsonValue::Object(vec![
            ("b".to_string(), JsonValue::Null),
            ("a".to_string(), JsonValue::Number(1)),
        ])
    );
    ctxt.update_value(JsonValue::Number(2)).unwrap();
    assert_eq!(
        ctxt.value,
        JsonValue::Object(vec![
            ("b".to_string(), JsonValue::Number(2)),
            ("a".to_string(), JsonValue::Number(1)),
        ])
    );
}

#[test]
fn waiting_keys_compare_by_bytes() {
    let mut ctxt = Context::new();
    ctxt.value = JsonValue::Object(vec![
        ("é".to_string(), JsonValue::Null),
        ("z".to_string(), JsonValue::Null),
        ("ab".to_string(), JsonValue::Null),
        ("a".to_string(), JsonValue::Null),
    ]);
    ctxt.update_value(JsonValue::Number(1)).unwrap();
    ctxt.update_value(JsonValue::Number(2)).unwrap();
    ctxt.update_value(JsonValue::Number(3)).unwrap();
    assert_eq!(
        ctxt.value,
        JsonValue::Object(vec![
            ("é".to_string(), JsonValue::Null),
            ("z".to_string(), JsonValue::Number(3)),
            ("ab".to_string(), JsonValue::Number(2)),
            ("a".to_string(), JsonValue::Number(1)),
        ])
    );
}

#[test]
fn contexts_and_values_clone() {
    let mut ctxt = Context::new();
    ctxt.value = JsonValue::Object(vec![(
        "k".to_string(),
        JsonValue::Array(vec![JsonValue::Number(1), JsonValue::String("s".to_string())]),
    )]);
    ctxt.value_path.push(PathItem::Key("k".to_string()));
    let copy = ctxt.clone();
    assert_eq!(copy, ctxt);
    assert_eq!(ctxt.value.clone(), ctxt.value);
    assert_eq!(PathItem::Index(3).clone(), PathItem::Index(3));
}
