use gistdb::codec::{encode_json, parse_json};
use gistdb::json::JsonValue;

fn b(x: &str) -> Vec<u8> {
    x.as_bytes().to_vec()
}

fn enc(v: &JsonValue) -> String {
    String::from_utf8(encode_json(v)).unwrap()
}

fn reparse(text: &str) -> Option<JsonValue> {
    parse_json(text.as_bytes())
}

#[test]
fn encodes_leaves() {
    assert_eq!(enc(&JsonValue::Null), "null");
    assert_eq!(enc(&JsonValue::Bool(true)), "true");
    assert_eq!(enc(&JsonValue::Bool(false)), "false");
    assert_eq!(enc(&JsonValue::Num(b("-12.5e3"))), "-12.5e3");
    assert_eq!(enc(&JsonValue::Str(b("hi"))), "\"hi\"");
}

#[test]
fn encodes_structures() {
    let v = JsonValue::Obj(vec![
        (b("a"), JsonValue::Arr(vec![JsonValue::Num(b("1")), JsonValue::Null])),
        (b("b"), JsonValue::Obj(vec![])),
    ]);
    assert_eq!(enc(&v), "{\"a\":[1,null],\"b\":{}}");
}

#[test]
fn encodes_escapes() {
    let v = JsonValue::Str(b("a\"b\\c\nd"));
    assert_eq!(enc(&v), "\"a\\\"b\\\\c\\u000ad\"");
}

#[test]
fn parses_whitespace_and_nesting() {
    let v = reparse(" { \"k\" : [ 1 , \"x\" , { } ] } ").unwrap();
    assert_eq!(enc(&v), "{\"k\":[1,\"x\",{}]}");
}

#[test]
fn parses_escapes() {
    let v = reparse("\"a\\\"b\\\\c\\n\\t\\u0041\"").unwrap();
    assert_eq!(enc(&v), "\"a\\\"b\\\\c\\u000a\\u0009A\"");
}

#[test]
fn parses_unicode_escape_to_utf8() {
    // U+00E9 (two UTF-8 bytes) and U+20AC (three UTF-8 bytes)
    let v = reparse("\"\\u00e9\\u20ac\"").unwrap();
    match v {
        JsonValue::Str(s) => assert_eq!(s, "\u{e9}\u{20ac}".as_bytes().to_vec()),
        _ => panic!("expected a string"),
    }
}

#[test]
fn keeps_number_spelling() {
    let v = reparse("[0, -1, 2.50, 6.02e23, 1E-9]").unwrap();
    assert_eq!(enc(&v), "[0,-1,2.50,6.02e23,1E-9]");
}

#[test]
fn repeated_keys_last_wins() {
    let v = reparse("{\"a\":1,\"b\":2,\"a\":3}").unwrap();
    assert_eq!(enc(&v), "{\"a\":3,\"b\":2}");
}

#[test]
fn rejects_malformed_texts() {
    for text in [
        "", "  ", "nul", "tru", "falsy", "01", "1.", "1e", "+1", "--1", "\"unterminated",
        "\"bad\\q\"", "\"\\u12g4\"", "\"\\ud800\"", "[1,]", "[1 2]", "{\"a\"}", "{\"a\":}",
        "{a:1}", "{\"a\":1,}", "1 2", "[1]]", "{}{}",
    ] {
        assert!(reparse(text).is_none(), "accepted: {text}");
    }
}

#[test]
fn rejects_raw_control_characters_in_strings() {
    assert!(parse_json(b"\"a\x01b\"").is_none());
}

#[test]
fn roundtrips() {
    for text in [
        "null",
        "true",
        "{}",
        "[]",
        "{\"title\":\"buy milk\"}",
        "{\"a\":[1,2,[3,{\"b\":\"\"}]],\"c\":-0.5e-7}",
        "\"tab\\there\"",
    ] {
        let v = reparse(text).unwrap();
        let encoded = encode_json(&v);
        let v2 = parse_json(&encoded).unwrap();
        assert_eq!(encoded, encode_json(&v2));
    }
}

#[test]
fn deep_clone_preserves_value() {
    let v = reparse("{\"a\":[1,\"x\"],\"b\":null}").unwrap();
    let c = v.deep_clone();
    assert_eq!(encode_json(&v), encode_json(&c));
}
