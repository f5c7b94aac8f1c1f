use bittorrent::bencode::decoder::Decoder;
use serde_json::Value;

fn num(n: i64) -> Value {
    Value::from(n)
}

fn text(s: &str) -> Value {
    Value::from(s)
}

fn list(items: Vec<Value>) -> Value {
    Value::Array(items)
}

fn dict(entries: Vec<(&str, Value)>) -> Value {
    let mut map = serde_json::Map::new();
    for (k, v) in entries {
        map.insert(k.to_string(), v);
    }
    Value::Object(map)
}

#[test]
fn decode_value_handles_integers() {
    let cases: Vec<(&str, Result<Value, String>)> = vec![
        ("i12e", Ok(num(12))),
        ("i506712941e", Ok(num(506712941))),
        ("i4294967300e", Ok(num(4294967300i64))),
        ("i-52e", Ok(num(-52))),
    ];
    assert_decode_values(cases);
}

#[test]
fn decode_value_handles_strings() {
    let cases: Vec<(&str, Result<Value, String>)> = vec![
        ("5:hello", Ok(text("hello"))),
        ("4:spam", Ok(text("spam"))),
        ("0:", Ok(text(""))),
        (
            "55:http://bittorrent-test-tracker.codecrafters.io/announce",
            Ok(text("http://bittorrent-test-tracker.codecrafters.io/announce")),
        ),
    ];
    assert_decode_values(cases);
}

#[test]
fn decode_value_handles_lists() {
    let cases: Vec<(&str, Result<Value, String>)> = vec![
        ("li52ee", Ok(list(vec![num(52)]))),
        ("l5:helloi52ee", Ok(list(vec![text("hello"), num(52)]))),
        (
            "llei478e5:applee",
            Ok(list(vec![list(vec![]), num(478), text("apple")])),
        ),
        (
            "lli478e5:appleee",
            Ok(list(vec![list(vec![num(478), text("apple")])])),
        ),
    ];
    assert_decode_values(cases);
}

#[test]
fn decode_value_handles_dictionaries() {
    let cases: Vec<(&str, Result<Value, String>)> = vec![
        (
            "d3:foo3:bar5:helloi52ee",
            Ok(dict(vec![("hello", num(52)), ("foo", text("bar"))])),
        ),
        (
            "d10:inner_dictd4:key16:value14:key2i42e8:list_keyl5:item15:item2i3eeee",
            Ok(dict(vec![(
                "inner_dict",
                dict(vec![
                    ("key1", text("value1")),
                    ("key2", num(42)),
                    ("list_key", list(vec![text("item1"), text("item2"), num(3)])),
                ]),
            )])),
        ),
    ];
    assert_decode_values(cases);
}

#[test]
fn decode_value_handles_errors() {
    let cases = vec![
        ("", "Empty encoded value"),
        ("x", "Unhandled encoded value"),
    ];

    assert_decode_errors(cases);
}

fn assert_decode_errors(cases: Vec<(&str, &str)>) {
    for (input, expected_error) in cases {
        let decoder = Decoder::new();
        let actual = decoder.decode(input);

        match actual {
            Err(actual_error) => {
                assert_eq!(
                    actual_error, expected_error,
                    "decode_value({input:?}) returned the wrong error"
                );
            }

            Ok(actual_value) => {
                panic!("decode_value({input:?}) succeeded unexpectedly with {actual_value:?}");
            }
        }
    }
}

fn assert_decode_values(cases: Vec<(&str, Result<Value, String>)>) {
    for (input, expected) in cases {
        let decoder = Decoder::new();
        let actual = decoder.decode(input);
        assert_eq!(
            actual, expected,
            "decode_value({input:?}) returned the wrong result"
        );
    }
}
