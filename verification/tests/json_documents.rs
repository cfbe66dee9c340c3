use std::collections::BTreeSet;

use qlog_analyzer::double::Double;
use qlog_analyzer::json::{
    collect_json_stream_ids, contains_frame_type, json_f64, json_text, json_u64, json_u64_value,
    total_counter, Json, JsonField, JsonNumber, JsonText,
};
use serde_json::Value;

fn convert(value: &Value) -> Json {
    match value {
        Value::Null => Json::Null,
        Value::Bool(value) => Json::Bool(*value),
        Value::Number(number) => Json::Number(match number.as_u64() {
            Some(value) => JsonNumber::Unsigned {
                value,
                number: Double::from_bits((value as f64).to_bits()),
            },
            None => JsonNumber::Other {
                number: number
                    .as_f64()
                    .map(|number| Double::from_bits(number.to_bits())),
                text: number.to_string(),
            },
        }),
        Value::String(text) => Json::Text(JsonText {
            text: text.clone(),
            number: text
                .parse::<f64>()
                .ok()
                .map(|number| Double::from_bits(number.to_bits())),
        }),
        Value::Array(values) => Json::Array(values.iter().map(convert).collect()),
        Value::Object(fields) => Json::Object(
            fields
                .iter()
                .map(|(key, value)| JsonField {
                    key: key.clone(),
                    value: convert(value),
                })
                .collect(),
        ),
    }
}

fn parse(text: &str) -> (Value, Json) {
    let value: Value = serde_json::from_str(text).unwrap();
    let json = convert(&value);
    (value, json)
}

fn double(value: f64) -> Option<Double> {
    Some(Double::from_bits(value.to_bits()))
}

#[test]
fn documents_are_written_as_serde_json_does() {
    let documents = [
        "true",
        "false",
        "0",
        "-12",
        "18446744073709551615",
        "1.5",
        "1e300",
        "[]",
        "{}",
        "[1,[2,[]],{\"a\":{}}]",
        "{\"b\":[null,true],\"a\":\"x\",\"c\":{\"d\":-0.25}}",
        "[\"\\\"\\\\\\/\\b\\f\\n\\r\\t\\u0000\\u001f\\u007f\\u00e9\\ud83d\\ude00\"]",
        "{\"\\n\":1}",
    ];
    for document in documents {
        let (value, json) = parse(document);
        assert_eq!(json_text(&json), Some(value.to_string()), "{document}");
    }
    let (_, text) = parse("\"a\\n\\\"b\"");
    assert_eq!(json_text(&text), Some("a\n\"b".to_string()));
    assert_eq!(json_text(&Json::Null), None);
}

#[test]
fn numbers_are_read_as_serde_json_does() {
    let documents = [
        "0",
        "7",
        "-7",
        "1.0",
        "18446744073709551615",
        "18446744073709551616",
        "null",
        "true",
        "\"\"",
        "\"+\"",
        "\"+7\"",
        "\"-7\"",
        "\"007\"",
        "\" 7\"",
        "\"7x\"",
        "\"1e3\"",
        "\"inf\"",
        "\"NaN\"",
        "\"18446744073709551615\"",
        "\"18446744073709551616\"",
        "[7]",
        "{\"total\":7}",
    ];
    for document in documents {
        let (value, json) = parse(document);
        let unsigned = value
            .as_u64()
            .or_else(|| value.as_str().and_then(|text| text.parse().ok()));
        assert_eq!(json_u64_value(&json), unsigned, "{document}");
        let number = value
            .as_f64()
            .or_else(|| value.as_str().and_then(|text| text.parse().ok()))
            .filter(|number: &f64| number.is_finite())
            .map(|number| Double::from_bits(number.to_bits()));
        assert_eq!(json_f64(Some(&json)), number, "{document}");
    }
    assert_eq!(json_f64(None), None);
    let (_, text) = parse("\"2.5\"");
    assert_eq!(json_f64(Some(&text)), double(2.5));
}

#[test]
fn members_are_found_by_name() {
    let (_, json) = parse("{\"a\":1,\"b\":\"two\",\"c\":{\"a\":3}}");
    assert_eq!(json_u64(Some(&json), "a"), Some(1));
    assert_eq!(json_u64(Some(&json), "b"), None);
    assert_eq!(json_u64(Some(&json), "x"), None);
    assert_eq!(json_u64(None, "a"), None);
    assert_eq!(json_u64(json.get("c"), "a"), Some(3));
    assert_eq!(json.get("b").and_then(|value| value.as_str()), Some("two"));
    assert!(json.get("b").is_some_and(|value| value.is_text("two")));
    assert!(!json.get("a").is_some_and(|value| value.is_text("1")));
    let (_, list) = parse("[1]");
    assert!(list.get("a").is_none());
}

#[test]
fn counters_are_totals_or_plain_numbers() {
    let total = |text: &str| total_counter(&parse(text).1);
    assert_eq!(total("{\"total\":3,\"delta\":1}"), Some(3));
    assert_eq!(total("{\"total\":\"4\"}"), Some(4));
    assert_eq!(total("5"), Some(5));
    assert_eq!(total("\"6\""), Some(6));
    assert_eq!(total("{\"delta\":1}"), None);
    assert_eq!(total("{\"total\":-1}"), None);
}

#[test]
fn lists_and_objects_pass_their_streams_on() {
    let (_, json) = parse(
        "{\"stream_id\":1,\"x\":[{\"stream_id\":\"2\"},[{\"quarter_stream_id\":3}]],\
         \"stream_ids\":9}",
    );
    let mut ids = BTreeSet::from([40]);
    collect_json_stream_ids(&json, &mut ids);
    assert_eq!(ids, BTreeSet::from([1, 2, 12, 40]));
}

#[test]
fn frames_are_found_by_their_type() {
    let (_, json) = parse("{\"frames\":[{\"frame_type\":\"ping\"},{\"a\":{\"frame_type\":\"x\"}}]}");
    assert!(contains_frame_type(&json, "ping"));
    assert!(contains_frame_type(&json, "x"));
    assert!(!contains_frame_type(&json, "handshake_done"));
    let (_, other) = parse("{\"frame_type\":{\"frame_type\":\"ping\"}}");
    assert!(contains_frame_type(&other, "ping"));
    let (_, bare) = parse("\"ping\"");
    assert!(!contains_frame_type(&bare, "ping"));
}
