use jsonstat::{FloatNumber, JsonNumber, JsonStat, JsonValue};

fn whole(i: i64) -> JsonValue {
    JsonValue::Number(JsonNumber::Int(i))
}

fn fraction(x: f64) -> JsonValue {
    let text = serde_json::Number::from_f64(x).unwrap().to_string();
    JsonValue::Number(JsonNumber::Float(FloatNumber::new(x.to_bits(), &text)))
}

fn string(s: &str) -> JsonValue {
    JsonValue::String(s.to_string())
}

fn object(members: Vec<(&str, JsonValue)>) -> JsonValue {
    JsonValue::Object(members.into_iter().map(|(k, v)| (k.to_string(), v)).collect())
}

fn paths(stat: &JsonStat) -> Vec<String> {
    (0..stat.len()).map(|i| stat.path_at(i).to_string()).collect()
}

#[test]
fn round_trip_scenario_items() {
    let mut stat = JsonStat::new();
    assert!(stat.stat_str(r#"{"a": 1, "b": "xy", "c": [1,2,3], "d": null}"#));
    assert_eq!(paths(&stat), vec!["", ".a", ".b", ".c", ".c[]", ".d"]);

    let root = stat.get("").unwrap();
    assert_eq!(root.object.count, 1);
    assert_eq!(root.total(), Some(1));

    let a = stat.get(".a").unwrap();
    assert_eq!((a.int.count, a.int.min, a.int.max), (1, 1, 1));
    assert_eq!(a.total(), Some(1));

    let b = stat.get(".b").unwrap();
    assert_eq!((b.string.count, b.string.min, b.string.max), (1, 2, 2));

    let c = stat.get(".c").unwrap();
    assert_eq!((c.array.count, c.array.min, c.array.max), (1, 3, 3));

    let items = stat.get(".c[]").unwrap();
    assert_eq!((items.int.count, items.int.min, items.int.max), (3, 1, 3));

    let d = stat.get(".d").unwrap();
    assert_eq!(d.null.count, 1);
    assert!(stat.get(".e").is_none());
}

#[test]
fn round_trip_scenario_compact_text() {
    let mut stat = JsonStat::new();
    assert!(stat.stat_str(r#"{"a": 1, "b": "xy", "c": [1,2,3], "d": null}"#));
    let expected = concat_all(&[
        r#"{"":{"object":{"count":1}},"#,
        r#"".a":{"int":{"count":1,"max":1,"min":1}},"#,
        r#"".b":{"string":{"count":1,"max":2,"min":2}},"#,
        r#"".c":{"array":{"count":1,"max":3,"min":3}},"#,
        r#"".c[]":{"int":{"count":3,"max":3,"min":1}},"#,
        r#"".d":{"null":{"count":1}}}"#,
    ]);
    assert_eq!(stat.to_json_str(false), expected);
}

fn concat_all(parts: &[&str]) -> String {
    let mut out = String::new();
    for p in parts {
        out.push_str(p);
    }
    out
}

#[test]
fn round_trip_scenario_encodings_parse_back() {
    let mut stat = JsonStat::new();
    assert!(stat.stat_str(r#"{"a": 1, "b": "xy", "c": [1,2,3], "d": null}"#));

    let compact: serde_json::Value = serde_json::from_str(&stat.to_json_str(false)).unwrap();
    assert_eq!(compact[".a"]["int"]["count"].as_u64(), Some(1));
    assert_eq!(compact[".a"]["int"]["min"].as_i64(), Some(1));
    assert_eq!(compact[".a"]["int"]["max"].as_i64(), Some(1));
    assert_eq!(compact[".b"]["string"]["count"].as_u64(), Some(1));
    assert_eq!(compact[".b"]["string"]["min"].as_u64(), Some(2));
    assert_eq!(compact[".b"]["string"]["max"].as_u64(), Some(2));
    assert_eq!(compact[".c"]["array"]["min"].as_u64(), Some(3));
    assert_eq!(compact[".c"]["array"]["max"].as_u64(), Some(3));
    assert_eq!(compact[".c[]"]["int"]["count"].as_u64(), Some(3));
    assert_eq!(compact[".c[]"]["int"]["min"].as_i64(), Some(1));
    assert_eq!(compact[".c[]"]["int"]["max"].as_i64(), Some(3));
    assert_eq!(compact[".d"]["null"]["count"].as_u64(), Some(1));
    assert!(compact[".d"].get("int").is_none());
    assert_eq!(compact.as_object().unwrap().len(), 6);

    let full: serde_json::Value = serde_json::from_str(&stat.to_json_str(true)).unwrap();
    assert_eq!(full.as_object().unwrap().len(), 6);
    for (_, item) in full.as_object().unwrap() {
        assert_eq!(item.as_object().unwrap().len(), 7);
    }
    assert_eq!(full[".a"]["int"]["count"].as_u64(), Some(1));
    assert_eq!(full[".a"]["int"]["min"].as_i64(), Some(1));
    assert_eq!(full[".a"]["string"]["count"].as_u64(), Some(0));
    assert_eq!(full[".a"]["float"]["count"].as_u64(), Some(0));
    assert_eq!(full[".a"]["float"]["max"].as_f64(), Some(0.0));
    assert_eq!(full[".c[]"]["int"]["max"].as_i64(), Some(3));
    assert_eq!(full[".c[]"]["int"]["min"].as_i64(), Some(1));
    assert_eq!(full[".d"]["null"]["count"].as_u64(), Some(1));
    assert_eq!(full[""]["object"]["count"].as_u64(), Some(1));
}

#[test]
fn full_text_of_one_item() {
    let mut stat = JsonStat::new();
    assert!(stat.stat_str("7"));
    let expected = concat_all(&[
        r#"{"":{"string":{"count":0,"max":0,"min":0},"#,
        r#""int":{"count":1,"max":7,"min":7},"#,
        r#""float":{"count":0,"max":0.0,"min":0.0},"#,
        r#""bool":{"count":0},"null":{"count":0},"object":{"count":0},"#,
        r#""array":{"count":0,"max":0,"min":0}}}"#,
    ]);
    assert_eq!(stat.to_json_str(true), expected);
}

#[test]
fn malformed_line_scenario() {
    let mut stat = JsonStat::new();
    assert!(stat.stat_str(r#"{"a": 1, "b": [true, 2.5]}"#));
    let compact = stat.to_json_str(false);
    let full = stat.to_json_str(true);
    let summary = stat.to_string();
    assert!(!stat.stat_str("not json"));
    assert_eq!(stat.to_json_str(false), compact);
    assert_eq!(stat.to_json_str(true), full);
    assert_eq!(stat.to_string(), summary);
    assert!(!stat.stat_str(""));
    assert!(!stat.stat_str(r#"{"a": "#));
    assert_eq!(stat.to_json_str(true), full);
}

#[test]
fn grouping_scenario() {
    let mut stat = JsonStat::new_by_group("user.id");
    assert!(stat.stat_str(r#"{"user":{"id":"u1"},"x":1}"#));
    assert_eq!(paths(&stat), vec!["u1", "u1.user", "u1.user.id", "u1.x"]);
    assert_eq!(stat.get("u1").unwrap().object.count, 1);
    let x = stat.get("u1.x").unwrap();
    assert_eq!((x.int.count, x.int.min, x.int.max), (1, 1, 1));
    assert!(stat.get("").is_none());
    assert!(stat.get(".x").is_none());

    assert!(stat.stat_str(r#"{"x":2}"#));
    assert_eq!(stat.get("").unwrap().object.count, 1);
    let x = stat.get(".x").unwrap();
    assert_eq!((x.int.count, x.int.min, x.int.max), (1, 2, 2));
    assert_eq!(stat.get("u1.x").unwrap().int.count, 1);
}

#[test]
fn grouping_falls_back_to_the_empty_path() {
    let stat = JsonStat::new_by_group("user.id");
    let not_a_string = object(vec![("user", object(vec![("id", whole(7))]))]);
    assert_eq!(stat.get_group_key(&not_a_string), "");
    let not_an_object = object(vec![("user", string("u1"))]);
    assert_eq!(stat.get_group_key(&not_an_object), "");
    let missing = object(vec![("user", object(vec![("name", string("n"))]))]);
    assert_eq!(stat.get_group_key(&missing), "");
    assert_eq!(stat.get_group_key(&whole(1)), "");
    let found = object(vec![("user", object(vec![("id", string("u9"))]))]);
    assert_eq!(stat.get_group_key(&found), "u9");
    assert_eq!(JsonStat::new().get_group_key(&found), "");
}

#[test]
fn grouping_key_segments() {
    let doc = object(vec![
        ("", object(vec![("", string("empty"))])),
        ("a", object(vec![("", string("tail")), ("b", string("ab"))])),
        ("k", string("top")),
    ]);
    assert_eq!(JsonStat::new_by_group("k").get_group_key(&doc), "top");
    assert_eq!(JsonStat::new_by_group("a.b").get_group_key(&doc), "ab");
    assert_eq!(JsonStat::new_by_group("a.").get_group_key(&doc), "tail");
    assert_eq!(JsonStat::new_by_group(".").get_group_key(&doc), "empty");
    assert_eq!(JsonStat::new_by_group("").get_group_key(&doc), "");
    assert_eq!(JsonStat::new_by_group("a.b.c").get_group_key(&doc), "");
    assert_eq!(JsonStat::new_by_group("a..b").get_group_key(&doc), "");
}

#[test]
fn stat_value_on_a_hand_made_document() {
    let doc = object(vec![
        ("n", whole(-4)),
        ("f", fraction(2.5)),
        ("t", JsonValue::Bool(true)),
        ("list", JsonValue::Array(vec![string("héllo"), JsonValue::Null, fraction(-1.25)])),
    ]);
    let mut stat = JsonStat::new();
    assert!(stat.stat_value(&doc));
    assert_eq!(paths(&stat), vec!["", ".f", ".list", ".list[]", ".n", ".t"]);
    let f = stat.get(".f").unwrap();
    assert_eq!(f.float.count, 1);
    assert_eq!(f.float.min.bits, 2.5f64.to_bits());
    assert_eq!(f.float.max.text, "2.5");
    let items = stat.get(".list[]").unwrap();
    assert_eq!(items.string.count, 1);
    assert_eq!(items.string.min, 6);
    assert_eq!(items.null.count, 1);
    assert_eq!(items.float.count, 1);
    assert_eq!(items.float.min.text, "-1.25");
    assert_eq!(items.total(), Some(3));
    assert_eq!(stat.get(".t").unwrap().bool.count, 1);
    assert_eq!(stat.get(".n").unwrap().int.min, -4);
}

#[test]
fn whole_floats_count_as_integers() {
    let mut stat = JsonStat::new();
    assert!(stat.stat_str("[3.0, 1.5, -2.0, 1e2, 1e30, 0.5, -0.0]"));
    let items = stat.get("[]").unwrap();
    assert_eq!((items.int.count, items.int.min, items.int.max), (4, -2, 100));
    assert_eq!(items.float.count, 3);
    assert_eq!(items.float.min.text, "0.5");
    assert_eq!(items.float.max.text, serde_json::to_string(&1e30f64).unwrap());
    assert_eq!(items.float.max.bits, 1e30f64.to_bits());
}

#[test]
fn integers_beyond_i64_count_as_floats() {
    let mut stat = JsonStat::new();
    assert!(stat.stat_str("[18446744073709551615, 9223372036854775807, -9223372036854775808]"));
    let items = stat.get("[]").unwrap();
    assert_eq!((items.int.count, items.int.min, items.int.max), (2, i64::MIN, i64::MAX));
    assert_eq!(items.float.count, 1);
    assert_eq!(items.float.max.bits, 18446744073709551615f64.to_bits());
    assert_eq!(
        items.float.max.text,
        serde_json::to_string(&18446744073709551615f64).unwrap()
    );
    let text = stat.to_json_str(false);
    let back: serde_json::Value = serde_json::from_str(&text).unwrap();
    assert_eq!(back["[]"]["float"]["max"].as_f64(), Some(18446744073709551615f64));
}

#[test]
fn mixed_kinds_at_one_path_keep_their_bounds() {
    let mut stat = JsonStat::new();
    assert!(stat.stat_str(r#"{"a": 5}"#));
    assert!(stat.stat_str(r#"{"a": "text"}"#));
    assert!(stat.stat_str(r#"{"a": 9}"#));
    assert!(stat.stat_str(r#"{"a": [1]}"#));
    let a = stat.get(".a").unwrap();
    assert_eq!((a.int.count, a.int.min, a.int.max), (2, 5, 9));
    assert_eq!((a.string.count, a.string.min, a.string.max), (1, 4, 4));
    assert_eq!((a.array.count, a.array.min, a.array.max), (1, 1, 1));
    assert_eq!(stat.get("").unwrap().object.count, 4);
}

#[test]
fn nested_arrays_share_one_path_per_level() {
    let mut stat = JsonStat::new();
    assert!(stat.stat_str("[[1, 2], [], [3, [4.5]]]"));
    assert_eq!(paths(&stat), vec!["", "[]", "[][]", "[][][]"]);
    let top = stat.get("").unwrap();
    assert_eq!((top.array.count, top.array.min, top.array.max), (1, 3, 3));
    let inner = stat.get("[]").unwrap();
    assert_eq!((inner.array.count, inner.array.min, inner.array.max), (3, 0, 2));
    let leaves = stat.get("[][]").unwrap();
    assert_eq!((leaves.int.count, leaves.int.min, leaves.int.max), (3, 1, 3));
    assert_eq!(leaves.array.count, 1);
    assert_eq!(stat.get("[][][]").unwrap().float.count, 1);
}

#[test]
fn member_names_with_markers_collide() {
    let mut stat = JsonStat::new();
    assert!(stat.stat_str(r#"{"a": {"b": 1}, "a.b": "x"}"#));
    let item = stat.get(".a.b").unwrap();
    assert_eq!(item.int.count, 1);
    assert_eq!(item.string.count, 1);
    assert_eq!(item.total(), Some(2));
}

#[test]
fn paths_come_out_in_the_order_of_str() {
    let mut stat = JsonStat::new();
    assert!(stat.stat_str(r#"{"b": 1, "a": 2, "é": 3, "B": 4, "ab": 5, "": 6}"#));
    let mut expected = vec!["", ".", ".a", ".ab", ".b", ".B", ".é"];
    expected.sort();
    assert_eq!(paths(&stat), expected);
}

#[test]
fn merge_adds_paths_and_counts() {
    let mut a = JsonStat::new();
    assert!(a.stat_str(r#"{"x": 1, "y": "s"}"#));
    let mut b = JsonStat::new();
    assert!(b.stat_str(r#"{"x": -3, "z": [true]}"#));
    a.merge(&b);
    assert_eq!(paths(&a), vec!["", ".x", ".y", ".z", ".z[]"]);
    let x = a.get(".x").unwrap();
    assert_eq!((x.int.count, x.int.min, x.int.max), (2, -3, 1));
    assert_eq!(a.get("").unwrap().object.count, 2);
    assert_eq!(a.get(".z[]").unwrap().bool.count, 1);
}

#[test]
fn merging_an_empty_accumulator_changes_nothing() {
    let mut a = JsonStat::new();
    assert!(a.stat_str(r#"{"x": [1, 2.5, "t"], "y": {"z": null}}"#));
    let before = a.to_json_str(true);
    a.merge(&JsonStat::new());
    assert_eq!(a.to_json_str(true), before);
    let mut empty = JsonStat::new();
    empty.merge(&a);
    assert_eq!(empty.to_json_str(true), before);
}

fn built(lines: &[&str]) -> JsonStat {
    let mut stat = JsonStat::new();
    for line in lines {
        assert!(stat.stat_str(line));
    }
    stat
}

#[test]
fn merge_is_associative_and_commutative() {
    let a = [r#"{"k": 1, "l": [1.5, 2]}"#, r#"{"k": "s"}"#];
    let b = [r#"{"k": -7, "m": {"n": true}}"#];
    let c = [r#"{"l": [9, null], "k": 3.25}"#, r#"[1, 2]"#, r#"{"k": 100}"#];

    let mut ab_c = built(&a);
    ab_c.merge(&built(&b));
    ab_c.merge(&built(&c));

    let mut bc = built(&b);
    bc.merge(&built(&c));
    let mut a_bc = built(&a);
    a_bc.merge(&bc);

    let mut ac = built(&a);
    ac.merge(&built(&c));
    let mut b_ac = built(&b);
    b_ac.merge(&ac);

    let expected = ab_c.to_json_str(true);
    assert_eq!(a_bc.to_json_str(true), expected);
    assert_eq!(b_ac.to_json_str(true), expected);
    assert_eq!(a_bc.to_string(), ab_c.to_string());
}

#[test]
fn splitting_the_input_and_merging_gives_the_same_map() {
    let docs = [
        r#"{"id": 1, "tags": ["a", "bb"], "score": 1.5}"#,
        r#"{"id": 2, "tags": [], "score": null}"#,
        r#"{"id": -5, "nested": {"deep": [1, [2, 3]]}}"#,
        r#"[true, false]"#,
        r#"{"id": "x", "score": 7}"#,
    ];
    let whole = built(&docs);

    let mut contiguous = built(&docs[..2]);
    contiguous.merge(&built(&docs[2..]));
    assert_eq!(contiguous.to_json_str(true), whole.to_json_str(true));

    let mut scattered = built(&[docs[4], docs[0]]);
    scattered.merge(&built(&[docs[3]]));
    scattered.merge(&built(&[]));
    scattered.merge(&built(&[docs[2], docs[1]]));
    assert_eq!(scattered.to_json_str(true), whole.to_json_str(true));
    assert_eq!(scattered.to_json_str(false), whole.to_json_str(false));
}

#[test]
fn counts_of_top_level_members_are_conserved() {
    let stat = built(&[
        r#"{"a": 1, "b": 2}"#,
        r#"{"a": "s"}"#,
        r#"{"b": [1, 2, 3], "c": {"a": 1}}"#,
        r#"{"a": null, "b": 2.5}"#,
        r#"[{"a": 1}]"#,
        r#"5"#,
    ]);
    assert_eq!(stat.get(".a").unwrap().total(), Some(3));
    assert_eq!(stat.get(".b").unwrap().total(), Some(3));
    assert_eq!(stat.get(".c").unwrap().total(), Some(1));
    assert_eq!(stat.get("").unwrap().total(), Some(6));
    assert_eq!(stat.get(".c.a").unwrap().total(), Some(1));
    assert_eq!(stat.get("[].a").unwrap().total(), Some(1));
}

#[test]
fn stat_key_value_gives_the_item_and_the_children() {
    let stat = JsonStat::new();
    let doc = object(vec![("a", whole(1)), ("b", JsonValue::Array(vec![whole(2)]))]);
    let (item, list) = stat.stat_key_value("root", &doc);
    assert_eq!(item.object.count, 1);
    assert_eq!(item.total(), Some(1));
    assert_eq!(list.len(), 2);
    assert_eq!(list[0].0, "root.a");
    assert_eq!(list[1].0, "root.b");
    let (item, list) = stat.stat_key_value("root.b", &list[1].1);
    assert_eq!((item.array.count, item.array.min, item.array.max), (1, 1, 1));
    assert_eq!(list.len(), 1);
    assert_eq!(list[0].0, "root.b[]");
    let (item, list) = stat.stat_key_value("x", &string("abc"));
    assert_eq!((item.string.count, item.string.min), (1, 3));
    assert!(list.is_empty());
}

#[test]
fn try_stat_str_ingests_where_there_is_room() {
    let mut stat = JsonStat::new();
    assert_eq!(stat.try_stat_str(r#"{"a": [1, 2]}"#), Some(true));
    assert_eq!(stat.try_stat_str("not json"), Some(false));
    assert_eq!(stat.try_stat_str(r#"{"a": []}"#), Some(true));
    let a = stat.get(".a").unwrap();
    assert_eq!((a.array.count, a.array.min, a.array.max), (2, 0, 2));
    assert!(stat.has_room(&whole(1)));
}

// An accumulator whose root item has seen two to the power `times` integers.
fn doubled(times: u32) -> JsonStat {
    let mut stat = JsonStat::new();
    assert!(stat.stat_str("1"));
    for _ in 0..times {
        let mut copy = JsonStat::new();
        copy.merge(&stat);
        assert!(stat.can_merge(&copy));
        stat.merge(&copy);
    }
    stat
}

// An accumulator whose root item has seen as many integers as `usize` can
// count.
fn filled() -> JsonStat {
    let mut stat = JsonStat::new();
    for k in 0..usize::BITS {
        let part = doubled(k);
        assert!(stat.can_merge(&part));
        stat.merge(&part);
    }
    stat
}

#[test]
fn try_stat_str_declines_where_a_count_could_overflow() {
    let mut stat = filled();
    assert_eq!(stat.get("").unwrap().int.count, usize::MAX);
    assert_eq!(stat.get("").unwrap().total(), Some(usize::MAX));
    assert!(!stat.has_room(&whole(1)));
    let before = stat.to_json_str(true);
    assert_eq!(stat.try_stat_str("1"), None);
    assert_eq!(stat.to_json_str(true), before);
    assert_eq!(stat.try_stat_str("[]"), None);
    assert_eq!(stat.to_json_str(true), before);
    assert_eq!(stat.try_stat_str("oops"), Some(false));
    assert_eq!(stat.to_json_str(true), before);
}

#[test]
fn has_room_goes_by_the_fullest_item() {
    let stat = doubled(usize::BITS - 1);
    let two = JsonValue::Array(vec![whole(1)]);
    assert!(stat.has_room(&whole(1)));
    assert!(stat.has_room(&two));
    let mut nearly = filled();
    let mut one_less = JsonStat::new();
    for k in 1..usize::BITS {
        one_less.merge(&doubled(k));
    }
    assert_eq!(one_less.get("").unwrap().int.count, usize::MAX - 1);
    assert!(one_less.has_room(&whole(1)));
    assert!(!one_less.has_room(&two));
    assert_eq!(one_less.try_stat_str("1"), Some(true));
    assert_eq!(one_less.get("").unwrap().int.count, usize::MAX);
    assert!(!nearly.has_room(&whole(1)));
    assert_eq!(nearly.try_stat_str("7"), None);
}

#[test]
fn can_merge_tells_whether_the_counts_fit() {
    let full = filled();
    let unit = doubled(0);
    let empty = JsonStat::new();
    assert!(!full.can_merge(&unit));
    assert!(!unit.can_merge(&full));
    assert!(full.can_merge(&empty));
    assert!(empty.can_merge(&full));
    assert!(unit.can_merge(&unit));
    let mut elsewhere = JsonStat::new();
    assert!(elsewhere.stat_str(r#"{"k": "v"}"#));
    let mut shifted = JsonStat::new_by_group("k");
    assert!(shifted.stat_str(r#"{"k": "v"}"#));
    assert!(full.can_merge(&shifted));
    assert!(!full.can_merge(&elsewhere));
    let half = doubled(usize::BITS - 1);
    assert!(!half.can_merge(&half));
    assert!(half.can_merge(&doubled(usize::BITS - 2)));
}

#[test]
fn default_is_an_empty_accumulator() {
    let mut stat = JsonStat::default();
    assert_eq!(stat.len(), 0);
    assert_eq!(stat.to_json_str(true), "{}");
    assert!(stat.stat_str(r#"{"user": {"id": "u1"}}"#));
    assert!(stat.get("").is_some());
    assert!(stat.get("u1").is_none());
}

#[test]
fn human_summary_text() {
    let stat = built(&[
        r#"{"a": 1, "b": "xy", "c": [1, 2, 3], "d": null, "e": true, "f": 1.5}"#,
        r#"{"a": -4, "f": 0.25}"#,
    ]);
    let expected = concat_all(&[
        ". : object:2\n",
        ".a : int:2(-4~1);\n",
        ".b : string:1(2~2);\n",
        ".c : array:1(3~3);\n",
        ".c[] : int:3(1~3);\n",
        ".d : null:1;\n",
        ".e : bool:1;\n",
        ".f : float:2(0.25~1.5);\n",
    ]);
    assert_eq!(stat.to_string(), expected);
}

#[test]
fn human_summary_keeps_the_order_of_kinds() {
    let stat = built(&["null", "true", "1", "1.5", "\"s\"", "[]", "{}"]);
    assert_eq!(
        stat.to_string(),
        ". : null:1;bool:1;int:1(1~1);float:1(1.5~1.5);string:1(1~1);array:1(0~0);object:1\n"
    );
    assert_eq!(JsonStat::new().to_string(), "");
    assert_eq!(JsonStat::new().to_json_str(false), "{}");
    assert_eq!(JsonStat::new().to_json_str(true), "{}");
}

#[test]
fn compact_text_orders_the_kinds_by_name() {
    let stat = built(&["null", "true", "1", "1.5", "\"s\"", "[]", "{}"]);
    let expected = concat_all(&[
        r#"{"":{"array":{"count":1,"max":0,"min":0},"bool":{"count":1},"#,
        r#""float":{"count":1,"max":1.5,"min":1.5},"int":{"count":1,"max":1,"min":1},"#,
        r#""null":{"count":1},"object":{"count":1},"string":{"count":1,"max":1,"min":1}}}"#,
    ]);
    assert_eq!(stat.to_json_str(false), expected);
}

#[test]
fn paths_are_written_as_json_strings() {
    let mut stat = JsonStat::new();
    assert!(stat.stat_str(r#"{"q\"uote": 1, "line\nbreak": 2, "tab\there\\": 3}"#));
    let text = stat.to_json_str(false);
    assert!(text.contains(r#"".q\"uote":"#));
    assert!(text.contains(r#"".line\nbreak":"#));
    assert!(text.contains(r#"".tab\there\\":"#));
    let back: serde_json::Value = serde_json::from_str(&text).unwrap();
    assert_eq!(back[".q\"uote"]["int"]["max"].as_i64(), Some(1));
    assert_eq!(back[".line\nbreak"]["int"]["max"].as_i64(), Some(2));
    assert_eq!(back[".tab\there\\"]["int"]["max"].as_i64(), Some(3));
}

#[test]
fn string_length_is_counted_in_bytes() {
    let mut stat = JsonStat::new();
    assert!(stat.stat_str(r#"["", "a", "é", "日本語"]"#));
    let items = stat.get("[]").unwrap();
    assert_eq!((items.string.count, items.string.min, items.string.max), (4, 0, 9));
}

#[test]
fn compact_text_is_what_serde_json_writes_for_the_same_value() {
    let stat = built(&[
        r#"{"name": "a\"b", "n": 12, "x": 0.1, "tags": ["t", "u"], "flag": true, "none": null}"#,
        r#"{"name": "", "n": -7, "x": 2.5e-7, "tags": [], "deep": {"k": [1.5, 1e30, 3.0]}}"#,
        r#"[18446744073709551615, 1, {"é": "日本"}]"#,
    ]);
    let text = stat.to_json_str(false);
    let value: serde_json::Value = serde_json::from_str(&text).unwrap();
    assert_eq!(value.to_string(), text);
    let full: serde_json::Value = serde_json::from_str(&stat.to_json_str(true)).unwrap();
    let paths = full.as_object().unwrap();
    assert_eq!(paths.len(), stat.len());
    for (path, item) in paths {
        let kept = stat.get(path).unwrap();
        assert_eq!(item["string"]["count"].as_u64(), Some(kept.string.count as u64));
        assert_eq!(item["int"]["count"].as_u64(), Some(kept.int.count as u64));
        assert_eq!(item["int"]["min"].as_i64(), Some(kept.int.min));
        assert_eq!(item["int"]["max"].as_i64(), Some(kept.int.max));
        assert_eq!(item["float"]["count"].as_u64(), Some(kept.float.count as u64));
        assert_eq!(item["float"]["min"].as_f64().map(f64::to_bits), Some(kept.float.min.bits));
        assert_eq!(item["float"]["max"].as_f64().map(f64::to_bits), Some(kept.float.max.bits));
        assert_eq!(item["bool"]["count"].as_u64(), Some(kept.bool.count as u64));
        assert_eq!(item["null"]["count"].as_u64(), Some(kept.null.count as u64));
        assert_eq!(item["object"]["count"].as_u64(), Some(kept.object.count as u64));
        assert_eq!(item["array"]["count"].as_u64(), Some(kept.array.count as u64));
        assert_eq!(item["array"]["max"].as_u64(), Some(kept.array.max as u64));
        assert_eq!(item["string"]["min"].as_u64(), Some(kept.string.min as u64));
    }
}
