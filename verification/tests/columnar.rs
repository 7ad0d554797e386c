use crush::transforms::columnar::{fold, split_fixed, unfold, Delim, Schema};
use crush::transforms::schema::schema_for;
use crush::transforms::unfold_columnar;

const LS: Schema = Schema {
    cols: &[
        "perms", "links", "owner", "group", "size", "month", "day", "time",
    ],
    tail: "name",
    delim: Delim::Whitespace,
    skip_total: true,
    skip_header: false,
};

const TWO: Schema = Schema {
    cols: &["a", "b"],
    tail: "rest",
    delim: Delim::Whitespace,
    skip_total: false,
    skip_header: false,
};

const PIPES: Schema = Schema {
    cols: &["x", "y"],
    tail: "z",
    delim: Delim::Char('|'),
    skip_total: false,
    skip_header: false,
};

fn ls_sample() -> String {
    let perms = ["-rwxr-xr-x", "lrwxrwxrwx", "drwxr-xr-x"];
    let mut s = String::from("total 1.9G\n");
    for i in 0..40 {
        s.push_str(&format!(
            "{}  1 root root    {:>3}K Jun 28 18:51 binary_{i}.sh\n",
            perms[i % perms.len()],
            10 + i
        ));
    }
    s
}

/// Every line's fixed fields and tail must match, whatever the padding.
fn assert_field_lossless(original: &str, restored: &str, n: usize) {
    let orig_rows: Vec<&str> = original
        .lines()
        .filter(|l| !l.starts_with("total "))
        .collect();
    let rest_rows: Vec<&str> = restored
        .lines()
        .filter(|l| !l.starts_with("total "))
        .collect();
    assert_eq!(orig_rows.len(), rest_rows.len(), "row count differs");
    for (o, r) in orig_rows.iter().zip(&rest_rows) {
        assert_eq!(
            split_fixed(o, n),
            split_fixed(r, n),
            "row mismatch:\n  {o}\n  {r}"
        );
    }
}

#[test]
fn folds_and_shrinks() {
    let input = ls_sample();
    let out = fold(&input, &LS).expect("should fold");
    assert!(out.len() < input.len());
    assert!(out.contains("@crush/1.cols"));
    assert!(out.contains("owner=root"));
    assert!(out.contains("total 1.9G"));
}

#[test]
fn dictionaries_low_cardinality_columns() {
    let out = fold(&ls_sample(), &LS).unwrap();
    assert!(out.contains("@crush/1.dict perms"));
}

#[test]
fn fold_is_field_lossless() {
    let input = ls_sample();
    let folded = fold(&input, &LS).unwrap();
    let restored = unfold(&folded).unwrap();
    assert_field_lossless(&input, &restored, LS.cols.len());
}

#[test]
fn preserves_filenames_with_spaces_in_the_tail() {
    let mut s = String::from("total 4\n");
    for i in 0..6 {
        s.push_str(&format!(
            "-rw-r--r-- 1 root root 100 Jan 1 00:00 my file {i}.txt\n"
        ));
    }
    let folded = fold(&s, &LS).unwrap();
    let restored = unfold(&folded).unwrap();
    assert!(restored.contains("my file 0.txt"));
    assert_field_lossless(&s, &restored, LS.cols.len());
}

#[test]
fn bails_when_a_line_is_short_on_columns() {
    let mut s = String::from("-rwxr-xr-x 1 root root 100 Jan 1 00:00 ok.sh\n");
    s.push_str("malformed line\n");
    for _ in 0..5 {
        s.push_str("-rwxr-xr-x 1 root root 100 Jan 1 00:00 ok.sh\n");
    }
    assert!(fold(&s, &LS).is_none());
}

#[test]
fn bails_on_empty_mid_body_line() {
    let mut s = String::from("-rwxr-xr-x 1 root root 100 Jan 1 00:00 a.sh\n\n");
    for _ in 0..5 {
        s.push_str("-rwxr-xr-x 1 root root 100 Jan 1 00:00 b.sh\n");
    }
    assert!(fold(&s, &LS).is_none());
}

#[test]
fn bails_on_too_few_rows() {
    let s = "-rwxr-xr-x 1 root root 100 Jan 1 00:00 a.sh\n\
             -rwxr-xr-x 1 root root 100 Jan 1 00:00 b.sh\n";
    assert!(fold(s, &LS).is_none());
}

#[test]
fn unfold_guards_empty_header() {
    assert!(unfold("@crush/1.cols\nA B C\n").is_none());
}

#[test]
fn fold_writes_this_form() {
    let mut s = String::from("total 12\n");
    for i in 0..4 {
        s.push_str(&format!("-rwxr-xr-x   1 root root {i} Jun 2{i} 18:51 f {i}\n"));
    }
    let expect = "total 12\n\
        @crush/1.cols perms=-rwxr-xr-x links=1 owner=root group=root size month=Jun day time=18:51 name\n\
        0 20 f 0\n1 21 f 1\n2 22 f 2\n3 23 f 3";
    assert_eq!(fold(&s, &LS).as_deref(), Some(expect));
}

#[test]
fn fold_codes_repeated_values() {
    let mut s = String::new();
    for i in 0..12 {
        let v = if i % 2 == 0 { "alphabet" } else { "bethlehem" };
        s.push_str(&format!("{v} {i} end {i}\n"));
    }
    let out = fold(&s, &TWO).unwrap();
    let lines: Vec<&str> = out.lines().collect();
    assert_eq!(lines[0], "@crush/1.dict a A=alphabet B=bethlehem");
    assert_eq!(lines[1], "@crush/1.cols a b rest");
    assert_eq!(lines[2], "A 0 end 0");
    assert_eq!(lines[3], "B 1 end 1");
    assert_eq!(unfold(&out).unwrap(), s.trim_end());
}

#[test]
fn delimited_lines_are_restored_exactly() {
    let mut s = String::new();
    for i in 0..8 {
        s.push_str(&format!("same-value-here|with  space {i}|tail | {i} with|bars\n"));
    }
    let out = fold(&s, &PIPES).unwrap();
    assert!(out.starts_with(
        "@crush/1.dict delim |\n@crush/1.cols x=same-value-here y z\nwith  space 0|tail | 0 with|bars\n"
    ));
    assert_eq!(unfold(&out).unwrap(), s.trim_end());
}

#[test]
fn a_git_log_round_trips() {
    let schema = schema_for("bash", "git log --pretty=format:%H|%an|%ae|%ad|%s").unwrap();
    let mut s = String::new();
    for i in 0..20 {
        s.push_str(&format!(
            "{:040x}|Ada|ada@example.org|2024-01-{:02}|fix: a|b {i}\n",
            i * 7919,
            i + 1
        ));
    }
    let out = fold(&s, &schema).unwrap();
    assert!(out.len() < s.len());
    assert!(out.starts_with(
        "@crush/1.dict delim |\n@crush/1.cols sha author=Ada email=ada@example.org date subject\n"
    ));
    assert_eq!(unfold_columnar(&out).unwrap(), s.trim_end());
}

#[test]
fn empty_delimited_fields_round_trip() {
    let mut s = String::new();
    for i in 0..80 {
        s.push_str(&format!("|{i}|{}\n", if i % 3 == 0 { "" } else { "t" }));
    }
    let out = fold(&s, &PIPES).unwrap();
    assert!(out.starts_with("@crush/1.dict delim |\n@crush/1.cols x= y z\n0|\n1|t\n"));
    assert_eq!(unfold(&out).unwrap(), s.trim_end());
}

#[test]
fn empty_tails_are_restored() {
    const ONE: Schema = Schema {
        cols: &["a"],
        tail: "t",
        delim: Delim::Whitespace,
        skip_total: false,
        skip_header: false,
    };
    let mut s = String::new();
    for d in 1..5 {
        s.push_str(&format!("{d}         \n"));
    }
    let out = fold(&s, &ONE).unwrap();
    assert_eq!(out, "@crush/1.cols a t\n1\n2\n3\n4");
    assert_eq!(unfold(&out).unwrap(), "1\n2\n3\n4");

    let mut s = String::new();
    for i in 0..10 {
        s.push_str(&format!("same        {i}        \n"));
    }
    let out = fold(&s, &TWO).unwrap();
    assert!(out.starts_with("@crush/1.cols a=same b rest\n0\n1\n"));
    let rows: Vec<String> = (0..10).map(|i| format!("same {i}")).collect();
    assert_eq!(unfold(&out).unwrap(), rows.join("\n"));
}

#[test]
fn rows_of_which_nothing_is_written_are_restored() {
    let s = "same        value    \n".repeat(6);
    let out = fold(&s, &TWO).unwrap();
    assert_eq!(out, "@crush/1.cols a=same b=value rest\n\n\n\n\n\n\n");
    assert_eq!(unfold(&out).unwrap(), ["same value"; 6].join("\n"));

    let s = "sameish|value|\n".repeat(6);
    let out = fold(&s, &PIPES).unwrap();
    assert_eq!(unfold(&out).unwrap(), ["sameish|value|"; 6].join("\n"));
}

#[test]
fn a_carriage_return_that_would_be_lost_is_not_folded() {
    let rows = |end: &str| -> String {
        (0..10).map(|i| format!("sameish|value|tail{i}{end}\n")).collect()
    };
    assert!(fold(&rows("\r"), &PIPES).is_some());
    assert!(fold(&rows("\r\r"), &PIPES).is_none());

    let last = format!("{}sameish|value|end\r", rows(""));
    let out = fold(&last, &PIPES).unwrap();
    assert_eq!(unfold(&out).unwrap(), last);

    let listing = ls_sample();
    assert!(fold(&listing.replacen("1.9G\n", "1.9G\r\n", 1), &LS).is_some());
    assert!(fold(&listing.replacen("1.9G\n", "1.9G\r\r\n", 1), &LS).is_none());
}

#[test]
fn a_row_short_of_cells_is_not_unfolded() {
    assert!(unfold("@crush/1.cols a b t\n1").is_none());
    assert!(unfold("@crush/1.cols a b t\n1 2\n").is_some());
    assert!(unfold("@crush/1.cols a t\n\n1").is_none());
    assert!(unfold("@crush/1.dict delim |\n@crush/1.cols a t\n1").is_none());
}

#[test]
fn only_a_declared_separator_is_read() {
    // What stands directly behind the marker of the header is the name of a column.
    assert_eq!(unfold("@crush/1.cols# a t\nx y z").unwrap(), "x y z");
    assert_eq!(unfold("@crush/1.cols| a t\nx y z").unwrap(), "x y z");
    assert_eq!(unfold("@crush/1.colsx=1 t\nz").unwrap(), "1 z");
    // The line before the header declares the separator.
    let block = "@crush/1.dict a A=left B=right\n@crush/1.dict delim #\n@crush/1.cols a b t\nA#1 2#z\nB##";
    assert_eq!(unfold(block).unwrap(), "left#1 2#z\nright##");
    assert_eq!(unfold("note\n@crush/1.dict delim =\n@crush/1.cols a t\n1=2").unwrap(), "note\n1=2");
    // Anything else that is no dictionary cannot be read.
    assert!(unfold("@crush/1.dict delim #\nnote\n@crush/1.cols a t\n1#2").is_none());
    assert!(unfold("@crush/1.dict delim ##\n@crush/1.cols a t\n1 2").is_none());
    assert!(unfold("@crush/1.dict delim x\n@crush/1.cols a t\n1 2").is_none());
    assert!(unfold("@crush/1.dict other #\n@crush/1.cols a t\n1 2").is_none());
    // A dictionary of a column with that name.
    assert_eq!(unfold("@crush/1.dict delim A=#\n@crush/1.cols delim t\nA 2").unwrap(), "# 2");
}

#[test]
fn an_unusable_separator_is_refused() {
    let schema = Schema {
        cols: &["x"],
        tail: "z",
        delim: Delim::Char('A'),
        skip_total: false,
        skip_header: false,
    };
    let s = "sameAt\nsameAt\nsameAt\nsameAt\nsameAt\nsameAt\nsameAt\nsameAt\nsameAt\nsameAt\n";
    assert!(fold(s, &schema).is_none());
}

#[test]
fn a_schema_without_columns_folds_nothing() {
    let schema = Schema {
        cols: &[],
        tail: "z",
        delim: Delim::Whitespace,
        skip_total: false,
        skip_header: false,
    };
    assert!(fold("a\na\na\na\na\n", &schema).is_none());
}

#[test]
fn unfold_reads_a_block_written_by_hand() {
    let block = "@crush/1.cols perms owner=root size name\nB 4096 .\nB  55K [";
    assert_eq!(unfold(block).unwrap(), "B root 4096 .\nB root 55K [");
}

#[test]
fn unfold_refuses_what_it_cannot_read() {
    assert!(unfold("").is_none());
    assert!(unfold("no header here").is_none());
    assert!(unfold("@crush/1.dict\n@crush/1.cols a b\nx y").is_none());
    assert!(unfold("@crush/1.dict a noequals\n@crush/1.cols a b\nx y").is_none());
    assert!(unfold("@crush/1.cols a b c\nx").is_none());
}

#[test]
fn the_last_dictionary_and_the_last_entry_count() {
    let block = "@crush/1.dict a A=one\n@crush/1.dict a A=two A=three\n@crush/1.cols a t\nA x";
    assert_eq!(unfold(block).unwrap(), "three x");
}

#[test]
fn split_fixed_keeps_the_rest_of_the_line() {
    assert_eq!(
        split_fixed("  a   b  c d ", 2),
        Some((vec!["a".to_string(), "b".to_string()], "c d ".to_string()))
    );
    assert_eq!(split_fixed("a b", 2), None);
    assert_eq!(split_fixed("a b ", 2), Some((vec!["a".to_string(), "b".to_string()], String::new())));
}

#[test]
fn values_with_an_equals_sign_stay_plain() {
    let mut s = String::new();
    for i in 0..10 {
        s.push_str(&format!("k=v      {i}       end\n"));
    }
    let out = fold(&s, &TWO).unwrap();
    assert!(out.starts_with("@crush/1.cols a b rest\n"));
    assert_eq!(unfold(&out).unwrap().lines().next(), Some("k=v 0 end"));
}
