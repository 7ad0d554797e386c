use crush::transforms::{generic, run, run_labeled, smallest};

#[test]
fn run_folds_a_json_array() {
    let input = r#"[{"a":1,"b":2},{"a":3,"b":4},{"a":5,"b":6}]"#;
    let out = run(input).expect("tabular should win");
    assert!(out.len() < input.len());
}

#[test]
fn run_returns_none_on_plain_text() {
    assert!(run("just some plain text output\nwith lines\n").is_none());
}

#[test]
fn run_returns_none_where_the_table_is_larger() {
    assert!(run(r#"[{"a":1},{"a":2}]"#).is_none());
}

#[test]
fn the_smallest_candidate_wins_and_the_first_of_equals() {
    let s = |t: &str| Some(t.to_string());
    assert_eq!(smallest(vec![s("aaa"), None, s("bb"), s("cc")], "12345"), s("bb"));
    assert_eq!(smallest(vec![s("aaaaa"), s("éé")], "12345"), s("éé"));
    assert_eq!(smallest(vec![s("aaaaa")], "12345"), None);
    assert_eq!(smallest(vec![], "12345"), None);
}

#[test]
fn generic_prefers_a_smaller_table() {
    let table = Some("t".to_string());
    assert_eq!(generic(table, "a\na\na\n"), Some(("t".to_string(), "tabular")));
    let large = Some("a table that is larger than the text".to_string());
    assert_eq!(
        generic(large, "aaaaaaaa\naaaaaaaa\naaaaaaaa\n"),
        Some(("aaaaaaaa (×3)\n".to_string(), "text"))
    );
    assert_eq!(generic(None, "nothing to do"), None);
}

#[test]
fn transforms_run_in_order_of_priority() {
    let mut ls = String::from("total 4\n");
    for i in 0..8 {
        ls.push_str(&format!("-rw-r--r--  1 root root  100 Jan  1 00:00 f{i}\n"));
    }
    let (body, label) = run_labeled("ls", "", &ls).unwrap();
    assert_eq!(label, "ls");
    assert!(body.starts_with("total 4\n@crush/1.cols "));
    let (body, label) = run_labeled("grep", "", &ls.replace("f1", "f0")).unwrap();
    assert_eq!(label, "text");
    assert!(body.contains(" f0 (×2)\n"));
    let json = r#"[{"alpha":1,"beta":2},{"alpha":3,"beta":4},{"alpha":5,"beta":6}]"#;
    assert_eq!(run_labeled("ls", "", json).unwrap().1, "tabular");
    let log = "same line\nsame line\nsame line\nsame line\n";
    assert_eq!(
        run_labeled("bash", "ls", log),
        Some(("same line (×4)\n".to_string(), "text"))
    );
    assert_eq!(run_labeled("bash", "cat", "prose"), None);
}
