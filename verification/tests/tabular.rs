use crush::transforms::tabular::{fold, fold_value, table, Cell};

#[test]
fn folds_array_of_objects_and_shrinks() {
    let input = r#"[
            {"name":"alice","age":30,"city":"nyc"},
            {"name":"bob","age":25,"city":"sf"},
            {"name":"carol","age":41,"city":"la"}
        ]"#;
    let out = fold(input).expect("should fold");
    assert!(out.len() < input.len());
    assert!(out.contains("name,age,city"));
    assert!(out.contains("alice,30,nyc"));
    assert!(out.contains("@crush/1.table 3 rows"));
}

#[test]
fn handles_missing_keys_with_empty_cells() {
    let input = r#"[{"a":1,"b":2},{"a":3},{"b":4,"c":5}]"#;
    let out = fold(input).unwrap();
    assert!(out.contains("a,b,c"));
    assert!(out.contains("3,,"));
}

#[test]
fn escapes_commas_and_quotes() {
    let input = r#"[{"x":"a,b"},{"x":"he said \"hi\""}]"#;
    let out = fold(input).unwrap();
    assert!(out.contains("\"a,b\""));
    assert!(out.contains("\"he said \"\"hi\"\"\""));
}

#[test]
fn rejects_non_array() {
    assert!(fold(r#"{"a":1}"#).is_none());
    assert!(fold("not json at all").is_none());
    assert!(fold(r#"[1,2,3]"#).is_none());
}

#[test]
fn rejects_single_element_array() {
    assert!(fold(r#"[{"a":1}]"#).is_none());
}

#[test]
fn the_table_of_json_is_this_text() {
    let input = " [{\"k\":null,\"b\":true,\"n\":-1.5},{\"n\":7,\"s\":\"l1\\nl2\",\"o\":{\"z\":[1,\"x\"]}}]\n";
    assert_eq!(
        fold(input).as_deref(),
        Some("@crush/1.table 2 rows\nk,b,n,s,o\n,true,-1.5,,\n,,7,\"l1\nl2\",\"{\"\"z\"\":[1,\"\"x\"\"]}\"")
    );
}

#[test]
fn keys_that_come_twice_keep_the_last_value() {
    assert_eq!(
        fold(r#"[{"a":1,"b":2,"a":3},{"b":4}]"#).as_deref(),
        Some("@crush/1.table 2 rows\na,b\n3,2\n,4")
    );
}

#[test]
fn rejects_arrays_with_other_items_or_without_keys() {
    assert!(fold(r#"[{"a":1},{"a":2},3]"#).is_none());
    assert!(fold("[{},{}]").is_none());
    assert!(fold("[]").is_none());
    assert!(fold("").is_none());
}

#[test]
fn a_table_of_cells_is_this_text() {
    let rows = vec![
        vec![
            ("id".to_string(), Cell::Number("1".to_string())),
            ("ok".to_string(), Cell::Bool(false)),
        ],
        vec![
            ("id".to_string(), Cell::Null),
            ("note,".to_string(), Cell::Text("a\"b\rc".to_string())),
            ("deep".to_string(), Cell::Nested("[1,2]".to_string())),
        ],
    ];
    assert_eq!(
        table(&rows).as_deref(),
        Some("@crush/1.table 2 rows\nid,ok,\"note,\",deep\n1,false,,\n,,\"a\"\"b\rc\",\"[1,2]\"")
    );
    assert!(table(&vec![]).is_none());
    assert!(table(&vec![vec![("a".to_string(), Cell::Null)]]).is_none());
    assert!(table(&vec![vec![], vec![]]).is_none());
}

#[test]
fn a_nested_array_is_folded() {
    assert_eq!(
        fold(r#"{"items":[{"a":1},{"a":2}]}"#).as_deref(),
        Some("@crush/1.table 2 rows in {\"items\":\"@crush/1.table\"}\na\n1\n2")
    );
    // What stands around the array is kept, at every depth.
    assert_eq!(
        fold(r#"{"ok":true,"page":[7,{"rows":[{"a":1},{"b":"x"}],"next":null}],"n":2}"#).as_deref(),
        Some("@crush/1.table 2 rows in {\"ok\":true,\"page\":[7,{\"rows\":\"@crush/1.table\",\"next\":null}],\"n\":2}\na,b\n1,\n,x")
    );
}

#[test]
fn the_largest_nested_array_is_folded() {
    let out = fold(r#"{"x":[{"a":1},{"a":2}],"y":[{"b":1},{"b":2},{"b":3}]}"#).unwrap();
    assert_eq!(
        out,
        "@crush/1.table 3 rows in {\"x\":[{\"a\":1},{\"a\":2}],\"y\":\"@crush/1.table\"}\nb\n1\n2\n3"
    );
    // Of two with as many rows, the one that begins first.
    let out = fold(r#"{"x":[{"a":1},{"a":2}],"y":[{"b":1},{"b":2}]}"#).unwrap();
    assert!(out.ends_with("\na\n1\n2"), "got: {out}");
    // One that is nested in a row of another, where it has more rows.
    let out = fold(r#"{"x":[{"a":1},{"a":[{"c":1},{"c":2},{"c":3}]}]}"#).unwrap();
    assert!(out.ends_with("\nc\n1\n2\n3"), "got: {out}");
    // An array at the top comes before all that is nested in it.
    let out = fold(r#"[{"a":1},{"a":[{"c":1},{"c":2},{"c":3}]}]"#).unwrap();
    assert!(out.starts_with("@crush/1.table 2 rows\na\n1\n"), "got: {out}");
    // Arrays that are no tables are passed over.
    assert!(fold(r#"{"x":[{"a":1}],"y":[{"a":1},2],"z":[{},{}],"t":"[{},{}]"}"#).is_none());
}

#[test]
fn a_value_is_folded_as_its_text_is() {
    let text = r#"[1,{"k":[{"a":1,"b":2},{"a":3}]}]"#;
    let value: serde_json::Value = serde_json::from_str(text).unwrap();
    assert_eq!(fold_value(&value), fold(text));
    assert_eq!(
        fold_value(&value).as_deref(),
        Some("@crush/1.table 2 rows in [1,{\"k\":\"@crush/1.table\"}]\na,b\n1,2\n3,")
    );
    assert!(fold_value(&serde_json::Value::Null).is_none());
}
