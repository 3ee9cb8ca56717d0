use jsonstat::convert::{from_value, parse_document};
use jsonstat::group::{follow, get_member};
use jsonstat::{JsonNumber, JsonValue};

fn number(i: i64) -> JsonValue {
    JsonValue::Number(JsonNumber::Int(i))
}

// A text that tells one document from another, whatever the names of the
// members hold.
fn show(v: &JsonValue) -> String {
    match v {
        JsonValue::Null => "null".to_string(),
        JsonValue::Bool(b) => format!("bool {}", b),
        JsonValue::Number(JsonNumber::Int(i)) => format!("int {}", i),
        JsonValue::Number(JsonNumber::Float(f)) => format!("float {:016x} {:?}", f.bits, f.text),
        JsonValue::String(s) => format!("string {:?}", s),
        JsonValue::Array(items) => {
            let parts: Vec<String> = items.iter().map(show).collect();
            format!("[{}]", parts.join(", "))
        }
        JsonValue::Object(members) => {
            let parts: Vec<String> =
                members.iter().map(|(k, v)| format!("{:?}: {}", k, show(v))).collect();
            format!("{{{}}}", parts.join(", "))
        }
    }
}

#[test]
fn parse_document_reads_every_kind() {
    let text = concat(&[
        r#"{"n": null, "b": true, "i": -7, "f": 2.5, "s": "hé", "#,
        r#""a": [1, [2]], "o": {"k": false}}"#,
    ]);
    let doc = parse_document(&text).unwrap();
    let expected = concat(&[
        r#"{"a": [int 1, [int 2]], "b": bool true, "#,
        r#""f": float 4004000000000000 "2.5", "i": int -7, "n": null, "#,
        r#""o": {"k": bool false}, "s": string "hé"}"#,
    ]);
    assert_eq!(show(&doc), expected);
}

fn concat(parts: &[&str]) -> String {
    parts.iter().map(|p| p.to_string()).collect()
}

#[test]
fn parse_document_reads_numbers_by_their_readings() {
    assert_eq!(show(&parse_document("0").unwrap()), "int 0");
    assert_eq!(show(&parse_document("-1").unwrap()), "int -1");
    assert_eq!(
        show(&parse_document("9223372036854775807").unwrap()),
        "int 9223372036854775807"
    );
    assert_eq!(
        show(&parse_document("-9223372036854775808").unwrap()),
        "int -9223372036854775808"
    );
    let big = parse_document("9223372036854775808").unwrap();
    match big {
        JsonValue::Number(JsonNumber::Float(f)) => {
            assert_eq!(f.bits, 9223372036854775808.0f64.to_bits());
            assert_eq!(f.text, serde_json::to_string(&9223372036854775808.0f64).unwrap());
        }
        _ => panic!("not a float"),
    }
    let whole = parse_document("3.0").unwrap();
    match whole {
        JsonValue::Number(JsonNumber::Float(f)) => {
            assert_eq!(f.bits, 3.0f64.to_bits());
            assert_eq!(f.text, "3.0");
        }
        _ => panic!("not a float"),
    }
}

#[test]
fn parse_document_fails_on_what_is_no_json() {
    assert!(parse_document("not json").is_none());
    assert!(parse_document("").is_none());
    assert!(parse_document("{").is_none());
    assert!(parse_document("[1, 2,]").is_none());
    assert!(parse_document("1 2").is_none());
    assert!(parse_document("1e999").is_none());
    assert!(parse_document("  [ ]  ").is_some());
}

#[test]
fn from_value_keeps_the_document() {
    let text = r#"{"z": [1, 2.5, "three", null, true, {"deep": []}], "a": {"b": {"c": -4}}}"#;
    let value: serde_json::Value = serde_json::from_str(text).unwrap();
    let doc = from_value(&value).unwrap();
    let expected = concat(&[
        r#"{"a": {"b": {"c": int -4}}, "#,
        r#""z": [int 1, float 4004000000000000 "2.5", string "three", null, bool true, "#,
        r#"{"deep": []}]}"#,
    ]);
    assert_eq!(show(&doc), expected);
    assert_eq!(show(&from_value(&serde_json::Value::Null).unwrap()), "null");
    let members = serde_json::Map::new();
    assert_eq!(show(&from_value(&serde_json::Value::Object(members)).unwrap()), "{}");
}

#[test]
fn duplicate_copies_the_whole_document() {
    let doc = parse_document(r#"{"a": [1, 2.5, {"b": "c"}], "d": null}"#).unwrap();
    let copy = doc.duplicate();
    assert_eq!(show(&copy), show(&doc));
    assert_eq!(show(&number(5).duplicate()), "int 5");
}

#[test]
fn size_counts_every_value() {
    assert_eq!(number(1).size(), Some(1));
    assert_eq!(JsonValue::Array(vec![]).size(), Some(1));
    assert_eq!(JsonValue::Object(vec![]).size(), Some(1));
    let doc = parse_document(r#"{"a": [1, 2, [3, 4]], "b": {"c": null}, "d": "x"}"#).unwrap();
    assert_eq!(doc.size(), Some(10));
}

#[test]
fn get_member_finds_the_first_of_a_name() {
    let members = vec![
        ("a".to_string(), number(1)),
        ("b".to_string(), number(2)),
        ("a".to_string(), number(3)),
        ("".to_string(), number(4)),
    ];
    assert_eq!(show(get_member(&members, "a").unwrap()), "int 1");
    assert_eq!(show(get_member(&members, "b").unwrap()), "int 2");
    assert_eq!(show(get_member(&members, "").unwrap()), "int 4");
    assert!(get_member(&members, "c").is_none());
    assert!(get_member(&Vec::new(), "a").is_none());
}

#[test]
fn follow_walks_the_names_between_dots() {
    let doc = parse_document(r#"{"user": {"id": "u1", "tags": [1]}, "x": 1}"#).unwrap();
    assert_eq!(show(follow("user.id", &doc).unwrap()), "string \"u1\"");
    assert_eq!(show(follow("x", &doc).unwrap()), "int 1");
    assert_eq!(show(follow("user.tags", &doc).unwrap()), "[int 1]");
    assert!(follow("user.name", &doc).is_none());
    assert!(follow("x.y", &doc).is_none());
    assert!(follow("", &doc).is_none());
    assert!(follow("user.", &doc).is_none());
    assert!(follow("user", &number(1)).is_none());
}
