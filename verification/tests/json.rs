use rwave::json::{Json, Obj};

#[test]
fn compact_object() {
    let j = Obj::new()
        .push("a", Json::Int(1))
        .push("b", Json::str("x"))
        .push("c", Json::Bool(true))
        .build();
    assert_eq!(j.to_compact_string(), r#"{"a":1,"b":"x","c":true}"#);
}

#[test]
fn nested_array() {
    let j = Json::Array(vec![Json::Int(1), Json::Null, Json::str("z")]);
    assert_eq!(j.to_compact_string(), r#"[1,null,"z"]"#);
}

#[test]
fn string_escapes() {
    let j = Json::str("a\"b\\c\nd");
    assert_eq!(j.to_compact_string(), r#""a\"b\\c\nd""#);
}

#[test]
fn unicode_is_literal() {
    // ensure_ascii=False: emit UTF-8 bytes directly.
    let j = Json::str("ns·µ");
    assert_eq!(j.to_compact_string(), "\"ns·µ\"");
}

#[test]
fn every_value_has_a_text_of_its_own() {
    let member = |k: &str, v: Json| Json::Object(vec![(k.to_string(), v)]);
    let values = vec![
        Json::Null,
        Json::str("null"),
        Json::Bool(true),
        Json::Bool(false),
        Json::Int(0),
        Json::Int(-1),
        Json::Int(1),
        Json::Int(10),
        Json::str("1"),
        Json::str(""),
        Json::str("\""),
        Json::str("\\\""),
        Json::str("\u{1}"),
        Json::str("\\u0001"),
        Json::str("\u{11}"),
        Json::Array(vec![]),
        Json::Array(vec![Json::Array(vec![])]),
        Json::Array(vec![Json::Int(1), Json::Int(2)]),
        Json::Array(vec![Json::Int(12)]),
        Json::Array(vec![Json::str("a,b")]),
        Json::Array(vec![Json::str("a"), Json::str("b")]),
        Json::Object(vec![]),
        member("a", Json::Null),
        member("a", Json::Int(1)),
        member("a\":1,\"b", Json::Int(1)),
        Json::Object(vec![("a".to_string(), Json::Int(1)), ("b".to_string(), Json::Int(1))]),
    ];
    let texts: Vec<String> = values.iter().map(|v| v.to_compact_string()).collect();
    for (i, a) in texts.iter().enumerate() {
        for b in &texts[i + 1..] {
            assert_ne!(a, b);
        }
    }
    assert_eq!(Json::str("\u{1}").to_compact_string(), r#""\u0001""#);
}

#[test]
fn spaces_occur_in_strings_alone() {
    let j = Json::Object(vec![
        ("a".to_string(), Json::Array(vec![Json::Int(-1), Json::Null, Json::str("\u{3b1}")])),
        ("b".to_string(), Json::Bool(false)),
    ]);
    assert_eq!(j.to_compact_string(), "{\"a\":[-1,null,\"\u{3b1}\"],\"b\":false}");
    assert_eq!(Json::Array(vec![Json::str("a b"), Json::Int(1)]).to_compact_string(), r#"["a b",1]"#);
}
