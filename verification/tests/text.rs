use crush::transforms::text::{
    clean, collapse_blank_runs, collapse_dup_runs, elide_blobs, fold_common_prefix, rstrip_lines,
    strip_ansi,
};

#[test]
fn strips_ansi_colour_codes() {
    let input = "\x1b[31mERROR\x1b[0m: \x1b[1mboom\x1b[0m";
    assert_eq!(strip_ansi(input), "ERROR: boom");
}

#[test]
fn strips_ansi_but_keeps_unicode() {
    let input = "\x1b[32m✓ passed\x1b[0m — café";
    assert_eq!(strip_ansi(input), "✓ passed — café");
}

#[test]
fn rstrips_trailing_whitespace_and_normalises_crlf() {
    assert_eq!(rstrip_lines("a   \r\nb\t\n"), "a\nb\n");
}

#[test]
fn collapses_blank_line_runs() {
    assert_eq!(collapse_blank_runs("a\n\n\n\nb\n"), "a\n\nb\n");
}

#[test]
fn collapses_identical_consecutive_lines() {
    let input = "warn: x\nwarn: x\nwarn: x\nok\n";
    assert_eq!(collapse_dup_runs(input), "warn: x (×3)\nok\n");
}

#[test]
fn dup_collapse_leaves_singletons_alone() {
    assert_eq!(collapse_dup_runs("a\nb\nc\n"), "a\nb\nc\n");
}

#[test]
fn elides_long_base64_blob() {
    let blob = "A".repeat(2000);
    let input = format!("data: {blob} end");
    let out = elide_blobs(&input);
    assert!(out.contains("[crush.blob 2000 chars]"));
    assert!(out.len() < input.len());
}

#[test]
fn leaves_short_tokens_and_hashes_untouched() {
    // A hash of 64 characters is information.
    let sha = "a".repeat(64);
    let input = format!("commit {sha}\n");
    assert_eq!(elide_blobs(&input), input);
}

#[test]
fn folds_a_shared_path_prefix() {
    let mut input = String::new();
    for i in 0..10 {
        input.push_str(&format!("/home/haseeb/Projects/app/src/file{i}.rs\n"));
    }
    let out = fold_common_prefix(&input);
    assert!(out.starts_with("@crush.prefix=/home/haseeb/Projects/app/src/"));
    assert!(out.contains("file0.rs"));
    assert!(!out.contains("/home/haseeb/Projects/app/src/file0.rs"));
    assert!(out.len() < input.len());
}

#[test]
fn does_not_fold_when_too_few_lines() {
    let input = "/a/b/c/one\n/a/b/c/two\n";
    assert_eq!(fold_common_prefix(input), input);
}

#[test]
fn does_not_fold_when_no_shared_prefix() {
    let mut input = String::new();
    for i in 0..10 {
        input.push_str(&format!("unique-line-{i}-no-common-root\n"));
    }
    // Without a separator there is no directory to factor out.
    assert_eq!(fold_common_prefix(&input), input);
}

#[test]
fn full_chain_cleans_a_noisy_log() {
    let input = "\x1b[33mBUILD\x1b[0m   \n\n\n\
                 repeat\nrepeat\nrepeat\nrepeat\n\n\ndone   \n";
    let out = clean(input);
    assert!(out.contains("BUILD\n"));
    assert!(out.contains("repeat (×4)"));
    assert!(out.contains("done\n"));
    assert!(out.len() < input.len());
    assert!(!out.contains('\x1b'));
}

#[test]
fn the_full_chain_gives_this_text() {
    let input = "\x1b[33mBUILD\x1b[0m   \n\n\nrepeat\nrepeat\n\n\ndone   ";
    assert_eq!(clean(input), "BUILD\n\nrepeat (×2)\n\ndone");
}

#[test]
fn operating_system_commands_end_at_either_terminator() {
    assert_eq!(strip_ansi("a\x1b]0;title\x07b"), "ab");
    assert_eq!(strip_ansi("a\x1b]0;title\x1b\\b"), "ab");
    assert_eq!(strip_ansi("a\x1b]0;title"), "a");
    assert_eq!(strip_ansi("a\x1b]0;\x1b"), "a");
}

#[test]
fn other_escapes_take_one_character_with_them() {
    assert_eq!(strip_ansi("a\x1bMb"), "ab");
    assert_eq!(strip_ansi("a\x1bébc"), "abc");
    assert_eq!(strip_ansi("a\x1b"), "a");
    assert_eq!(strip_ansi("a\x1b[12;3"), "a");
    assert_eq!(strip_ansi(""), "");
}

#[test]
fn stripping_twice_changes_nothing() {
    for s in ["\x1b[1mx\x1b[0m", "\x1b\x1b[1m", "plain", "\x1b]x\x07\x1b[y"] {
        let once = strip_ansi(s);
        assert!(!once.contains('\x1b'));
        assert_eq!(strip_ansi(&once), once);
    }
}

#[test]
fn trailing_whitespace_of_every_kind_goes() {
    assert_eq!(rstrip_lines("a\u{a0}\u{2003}\nb \u{3000}"), "a\nb");
    assert_eq!(rstrip_lines(""), "");
    assert_eq!(rstrip_lines("  \n  "), "\n");
    assert_eq!(rstrip_lines("a\r\r\n"), "a\n");
}

#[test]
fn blank_runs_at_the_ends_collapse_too() {
    assert_eq!(collapse_blank_runs("\n\n\na\n\n\n"), "\na\n\n");
    assert_eq!(collapse_blank_runs("a"), "a");
    assert_eq!(collapse_blank_runs(""), "");
    assert_eq!(collapse_blank_runs("\n"), "\n");
    assert_eq!(collapse_blank_runs("a\r\n\r\n\r\nb"), "a\n\nb");
}

#[test]
fn collapsing_twice_changes_nothing() {
    for s in ["a\na\nb\nb\nb\n", "x", "\n\n\n", "a\n\n\nb\nb"] {
        let blank = collapse_blank_runs(s);
        assert_eq!(collapse_blank_runs(&blank), blank);
        let dup = collapse_dup_runs(s);
        assert_eq!(collapse_dup_runs(&dup), dup);
    }
}

#[test]
fn annotated_lines_get_no_second_count() {
    assert_eq!(collapse_dup_runs("x (×3)\nx (×3)\n"), "x (×3)\nx (×3)\n");
    let once = collapse_dup_runs("a (×2)\na\na\n");
    assert_eq!(once, "a (×2)\na (×2)\n");
    assert_eq!(collapse_dup_runs(&once), once);
    // What only resembles a count is a line like any other.
    assert_eq!(collapse_dup_runs("a (×)\na (×)"), "a (×) (×2)");
    assert_eq!(collapse_dup_runs("(×2)\n(×2)"), "(×2) (×2)");
    assert_eq!(collapse_dup_runs(" (×2)\n (×2)"), " (×2)\n (×2)");
    assert_eq!(collapse_dup_runs("a (×2x)\na (×2x)"), "a (×2x) (×2)");
}

#[test]
fn an_unended_last_line_belongs_to_its_run() {
    assert_eq!(collapse_dup_runs("a\na"), "a (×2)");
    assert_eq!(collapse_dup_runs("\n\n"), " (×2)\n");
    assert_eq!(collapse_dup_runs(""), "");
}

#[test]
fn the_blob_threshold_is_exact() {
    let kept = "x".repeat(1024);
    assert_eq!(elide_blobs(&kept), kept);
    assert_eq!(elide_blobs(&"x".repeat(1025)), "[crush.blob 1025 chars]");
    let mixed = format!("é{}é{}", "+/=_-".repeat(300), "z".repeat(3));
    assert_eq!(elide_blobs(&mixed), "é[crush.blob 1500 chars]ézzz");
}

#[test]
fn eliding_twice_changes_nothing() {
    let s = format!("{} {} {}", "a".repeat(3000), "b".repeat(10), "c".repeat(1500));
    let once = elide_blobs(&s);
    assert_eq!(once, "[crush.blob 3000 chars] bbbbbbbbbb [crush.blob 1500 chars]");
    assert_eq!(elide_blobs(&once), once);
}

#[test]
fn a_prefix_is_taken_off_every_line() {
    let mut input = String::new();
    let mut expect = String::from("@crush.prefix=/very/long/path/\n");
    for i in 0..8 {
        input.push_str(&format!("/very/long/path/{i}x\n"));
        expect.push_str(&format!("{i}x\n"));
        if i == 3 {
            input.push('\n');
            expect.push('\n');
        }
    }
    assert_eq!(fold_common_prefix(&input), expect);
    // Prepending the prefix gives the lines again.
    let folded = fold_common_prefix(&input);
    let mut lines = folded.lines();
    let prefix = lines.next().unwrap().strip_prefix("@crush.prefix=").unwrap();
    let restored: String = lines
        .map(|l| if l.is_empty() { "\n".to_string() } else { format!("{prefix}{l}\n") })
        .collect();
    assert_eq!(restored, input);
}

#[test]
fn a_prefix_needs_eight_lines_and_twelve_characters() {
    let seven: String = (0..7).map(|i| format!("/very/long/path/{i}\n")).collect();
    assert_eq!(fold_common_prefix(&seven), seven);
    let eleven: String = (0..8).map(|i| format!("/123456789/{i}\n")).collect();
    assert_eq!(fold_common_prefix(&eleven), eleven);
    let twelve: String = (0..8).map(|i| format!("/1234567890/{i}\n")).collect();
    assert!(fold_common_prefix(&twelve).starts_with("@crush.prefix=/1234567890/\n0\n"));
    let wide: String = (0..8).map(|i| format!("/ééééééééé/{i}")).collect::<Vec<_>>().join("\n");
    assert_eq!(fold_common_prefix(&wide), wide);
    let wider = wide.replace("/é", "/éé");
    assert_eq!(
        fold_common_prefix(&wider),
        "@crush.prefix=/éééééééééé/\n0\n1\n2\n3\n4\n5\n6\n7"
    );
}

#[test]
fn plain_text_is_not_changed() {
    let s = "one\n\ntwo\nthree";
    assert_eq!(clean(s), s);
}

#[test]
fn a_directory_that_is_a_line_itself_is_not_factored_out() {
    let mut input = String::from("/very/long/path/\n");
    for i in 0..10 {
        input.push_str(&format!("/very/long/path/file{i}\n"));
    }
    assert_eq!(fold_common_prefix(&input), input);
    let below = input.replacen("/very/long/path/\n", "", 1);
    assert!(fold_common_prefix(&below).starts_with("@crush.prefix=/very/long/path/\nfile0\n"));
}

#[test]
fn carriage_returns_before_line_feeds_are_not_lost() {
    let plain: String = (0..10).map(|i| format!("/very/long/path/file{i}\n")).collect();
    assert!(fold_common_prefix(&plain).starts_with("@crush.prefix="));
    let returns = plain.replace('\n', "\r\n");
    assert_eq!(fold_common_prefix(&returns), returns);
    let one = plain.replacen('\n', "\r\n", 1);
    assert_eq!(fold_common_prefix(&one), one);
    // One that no line feed follows is kept.
    let within = plain.replace("file", "fi\rle");
    let out = fold_common_prefix(&format!("{within}/very/long/path/end\r"));
    assert!(out.starts_with("@crush.prefix=/very/long/path/\nfi\rle0\nfi\rle1\n"));
    assert!(out.ends_with("\nend\r"));
}
