use jsonstat::{FloatNumber, JsonNumber, JsonStatItem, JsonValue};

fn number(i: i64) -> JsonValue {
    JsonValue::Number(JsonNumber::Int(i))
}

fn fraction(x: f64) -> JsonValue {
    let text = serde_json::Value::from(x).to_string();
    JsonValue::Number(JsonNumber::Float(FloatNumber::new(x.to_bits(), &text)))
}

fn counts(item: &JsonStatItem) -> [usize; 7] {
    [
        item.string.count,
        item.int.count,
        item.float.count,
        item.bool.count,
        item.null.count,
        item.object.count,
        item.array.count,
    ]
}

#[test]
fn a_new_item_has_seen_nothing() {
    let item = JsonStatItem::new();
    assert_eq!(counts(&item), [0; 7]);
    assert_eq!(item.total(), Some(0));
    assert_eq!(item.to_json_value(), "{}");
    assert_eq!(item.to_string(), "");
}

#[test]
fn stat_files_each_value_under_one_kind() {
    let cases: Vec<(JsonValue, [usize; 7])> = vec![
        (JsonValue::String("abc".to_string()), [1, 0, 0, 0, 0, 0, 0]),
        (number(4), [0, 1, 0, 0, 0, 0, 0]),
        (fraction(4.0), [0, 1, 0, 0, 0, 0, 0]),
        (fraction(4.5), [0, 0, 1, 0, 0, 0, 0]),
        (JsonValue::Bool(false), [0, 0, 0, 1, 0, 0, 0]),
        (JsonValue::Bool(true), [0, 0, 0, 1, 0, 0, 0]),
        (JsonValue::Null, [0, 0, 0, 0, 1, 0, 0]),
        (JsonValue::Object(vec![]), [0, 0, 0, 0, 0, 1, 0]),
        (JsonValue::Array(vec![]), [0, 0, 0, 0, 0, 0, 1]),
    ];
    for (value, expected) in cases {
        let mut item = JsonStatItem::new();
        let children = item.stat("p", &value);
        assert_eq!(counts(&item), expected);
        assert_eq!(item.total(), Some(1));
        assert!(children.is_empty());
    }
}

#[test]
fn stat_returns_the_items_of_an_array_in_order() {
    let mut item = JsonStatItem::new();
    let value = JsonValue::Array(vec![number(1), JsonValue::Null, number(3)]);
    let children = item.stat(".list", &value);
    assert_eq!((item.array.count, item.array.min, item.array.max), (1, 3, 3));
    assert_eq!(children.len(), 3);
    for (path, _) in &children {
        assert_eq!(path, ".list[]");
    }
    assert!(matches!(children[0].1, JsonValue::Number(JsonNumber::Int(1))));
    assert!(matches!(children[1].1, JsonValue::Null));
    assert!(matches!(children[2].1, JsonValue::Number(JsonNumber::Int(3))));
}

#[test]
fn stat_returns_the_members_of_an_object_in_order() {
    let mut item = JsonStatItem::new();
    let value = JsonValue::Object(vec![
        ("z".to_string(), number(1)),
        ("a.b".to_string(), JsonValue::Bool(true)),
        ("".to_string(), JsonValue::Null),
        ("z".to_string(), number(2)),
    ]);
    let children = item.stat("root", &value);
    assert_eq!(item.object.count, 1);
    let paths: Vec<&str> = children.iter().map(|(p, _)| p.as_str()).collect();
    assert_eq!(paths, vec!["root.z", "root.a.b", "root.", "root.z"]);
    assert!(matches!(children[3].1, JsonValue::Number(JsonNumber::Int(2))));
    let mut at_root = JsonStatItem::new();
    let children = at_root.stat("", &value);
    assert_eq!(children[0].0, ".z");
}

#[test]
fn stat_keeps_bounds_over_several_values() {
    let mut item = JsonStatItem::new();
    for v in [number(5), number(-2), fraction(1.5), fraction(7.0), fraction(-3.25)] {
        item.stat("", &v);
    }
    for s in ["", "four", "é"] {
        item.stat("", &JsonValue::String(s.to_string()));
    }
    assert_eq!((item.int.count, item.int.min, item.int.max), (3, -2, 7));
    assert_eq!(item.float.count, 2);
    assert_eq!(item.float.min.text, "-3.25");
    assert_eq!(item.float.max.text, "1.5");
    assert_eq!((item.string.count, item.string.min, item.string.max), (3, 0, 4));
    assert_eq!(item.total(), Some(8));
}

fn seen(values: Vec<JsonValue>) -> JsonStatItem {
    let mut item = JsonStatItem::new();
    for v in &values {
        item.stat("", v);
    }
    item
}

#[test]
fn merge_takes_in_every_kind() {
    let mut a = seen(vec![number(5), JsonValue::Null, JsonValue::String("ab".to_string())]);
    let b = seen(vec![
        number(-1),
        fraction(0.5),
        JsonValue::Bool(true),
        JsonValue::Array(vec![number(1)]),
        JsonValue::Object(vec![]),
        JsonValue::Null,
    ]);
    a.merge(&b);
    assert_eq!(counts(&a), [1, 2, 1, 1, 2, 1, 1]);
    assert_eq!((a.int.min, a.int.max), (-1, 5));
    assert_eq!((a.string.min, a.string.max), (2, 2));
    assert_eq!((a.array.min, a.array.max), (1, 1));
    assert_eq!(a.float.min.text, "0.5");
    assert_eq!(a.total(), Some(9));
    let copy = a.duplicate();
    assert_eq!(copy.to_json_full(), a.to_json_full());
}

#[test]
fn merge_with_an_item_of_another_kind_keeps_the_bounds() {
    let mut a = seen(vec![number(5), number(8)]);
    let b = seen(vec![JsonValue::String("text".to_string())]);
    a.merge(&b);
    assert_eq!((a.int.count, a.int.min, a.int.max), (2, 5, 8));
    assert_eq!((a.string.count, a.string.min, a.string.max), (1, 4, 4));
    a.merge(&JsonStatItem::new());
    assert_eq!((a.int.count, a.int.min, a.int.max), (2, 5, 8));
}

#[test]
fn compact_report_of_an_item() {
    let item = seen(vec![number(5), number(-3), JsonValue::Null]);
    assert_eq!(
        item.to_json_value(),
        r#"{"int":{"count":2,"max":5,"min":-3},"null":{"count":1}}"#
    );
    let item = seen(vec![JsonValue::String("ab".to_string())]);
    assert_eq!(item.to_json_value(), r#"{"string":{"count":1,"max":2,"min":2}}"#);
    let item = seen(vec![JsonValue::Array(vec![]), JsonValue::Bool(true), fraction(0.5)]);
    assert_eq!(
        item.to_json_value(),
        concat(&[
            r#"{"array":{"count":1,"max":0,"min":0},"bool":{"count":1},"#,
            r#""float":{"count":1,"max":0.5,"min":0.5}}"#,
        ])
    );
}

fn concat(parts: &[&str]) -> String {
    parts.iter().map(|p| p.to_string()).collect()
}

#[test]
fn full_report_of_an_item() {
    let item = seen(vec![fraction(2.5), fraction(-1.5), JsonValue::Object(vec![])]);
    assert_eq!(
        item.to_json_full(),
        concat(&[
            r#"{"string":{"count":0,"max":0,"min":0},"int":{"count":0,"max":0,"min":0},"#,
            r#""float":{"count":2,"max":2.5,"min":-1.5},"bool":{"count":0},"#,
            r#""null":{"count":0},"object":{"count":1},"array":{"count":0,"max":0,"min":0}}"#,
        ])
    );
}

#[test]
fn summary_of_an_item() {
    let item = seen(vec![JsonValue::Null, number(4), number(6)]);
    assert_eq!(item.to_string(), "null:1;int:2(4~6);");
    let item = seen(vec![JsonValue::Object(vec![]), JsonValue::Object(vec![])]);
    assert_eq!(item.to_string(), "object:2");
    let item = seen(vec![JsonValue::Array(vec![number(1)]), JsonValue::Object(vec![])]);
    assert_eq!(item.to_string(), "array:1(1~1);object:1");
}
