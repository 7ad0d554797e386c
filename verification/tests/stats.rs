use crush::stats::{human_bytes, Stats};

#[test]
fn empty_stats_render_says_no_compressions() {
    let s = Stats::new();
    let r = s.render();
    assert!(r.contains("no compressions yet"), "got: {r}");
    assert_eq!(s.call_count(), 0);
    assert_eq!(s.total_saved_bytes(), 0);
}

#[test]
fn record_accumulates_across_calls_and_buckets() {
    let mut s = Stats::new();
    s.record("ls", 1000, 500); // saved 500
    s.record("ls", 2000, 1000); // saved 1000
    s.record("ps", 800, 600); // saved 200
    assert_eq!(s.call_count(), 3);
    assert_eq!(s.total_saved_bytes(), 1700);
}

#[test]
fn record_ignores_non_wins() {
    let mut s = Stats::new();
    s.record("ls", 100, 100);
    s.record("ls", 100, 200);
    assert_eq!(s.call_count(), 0);
    assert_eq!(s.total_saved_bytes(), 0);
}

#[test]
fn render_sorts_breakdown_by_bytes_saved_desc() {
    let mut s = Stats::new();
    s.record("ps", 800, 600); // 200 saved
    s.record("ls", 5000, 1000); // 4000 saved
    s.record("text", 2000, 1000); // 1000 saved
    let r = s.render();
    let ls_pos = r.find("\n   ls").expect("ls present");
    let text_pos = r.find("\n   text").expect("text present");
    let ps_pos = r.find("\n   ps").expect("ps present");
    assert!(ls_pos < text_pos, "ls should sort first:\n{r}");
    assert!(text_pos < ps_pos, "text before ps:\n{r}");
    assert!(r.contains("3 tool calls"), "got: {r}");
}

#[test]
fn render_includes_per_bucket_percent_and_count() {
    let mut s = Stats::new();
    s.record("ls", 1000, 500); // -50%, 1 call
    let r = s.render();
    assert!(r.contains("ls"), "{r}");
    assert!(r.contains("-50%"), "{r}");
    assert!(r.contains("1 call"), "{r}");
}

#[test]
fn the_report_is_this_text() {
    let mut s = Stats::default();
    assert_eq!(s.render(), "🗜️  crush — no compressions yet this session.");
    s.record("ls", 4000, 1000);
    s.record("git_log", 1000, 950);
    s.record("ls", 100, 99);
    s.record("b", 100, 50);
    assert_eq!(
        s.render(),
        "🗜️  crush — context saved this session\n\
         \x20  3.0 KB saved across 4 tool calls  (59% avg reduction)\n\
         \x20  ───────────────────────────────\n\
         \x20  ls       -73%   (2 calls, 2.9 KB)\n\
         \x20  b        -50%   (1 call, 50 B)\n\
         \x20  git_log  - 5%   (1 call, 50 B)"
    );
    assert!(s.can_take(1));
}

#[test]
fn bytes_are_shown_in_the_unit_that_fits() {
    assert_eq!(human_bytes(0), "0 B");
    assert_eq!(human_bytes(1023), "1023 B");
    assert_eq!(human_bytes(1024), "1.0 KB");
    assert_eq!(human_bytes(1280), "1.2 KB");
    assert_eq!(human_bytes(1536), "1.5 KB");
    assert_eq!(human_bytes(1048575), "1024.0 KB");
    assert_eq!(human_bytes(1048576), "1.0 MB");
    assert_eq!(human_bytes(u64::MAX), "17592186044416.0 MB");
}

/// The same number in floating point.
fn by_float(n: u64) -> String {
    let f = n as f64;
    if f >= 1024.0 * 1024.0 {
        format!("{:.1} MB", f / (1024.0 * 1024.0))
    } else if f >= 1024.0 {
        format!("{:.1} KB", f / 1024.0)
    } else {
        format!("{n} B")
    }
}

#[test]
fn bytes_are_rounded_as_floating_point_rounds() {
    for n in 0..70_000u64 {
        assert_eq!(human_bytes(n), by_float(n));
    }
    let mut x: u64 = 0x9e37_79b9_7f4a_7c15;
    for i in 0..20_000u32 {
        x ^= x << 13;
        x ^= x >> 7;
        x ^= x << 17;
        let n = x >> (i % 60);
        assert_eq!(human_bytes(n), by_float(n), "{n}");
    }
    for shift in 0..64u32 {
        for d in 0..3u64 {
            let n = (1u64 << shift).wrapping_add(d).wrapping_sub(1);
            assert_eq!(human_bytes(n), by_float(n), "{n}");
        }
    }
}

#[test]
fn the_order_of_the_calls_does_not_show_in_the_report() {
    let calls = [("ls", 4000, 1000), ("ps", 900, 100), ("ls", 300, 100), ("df", 1000, 200), ("df", 5, 9)];
    let mut forward = Stats::new();
    for (name, input, output) in calls {
        forward.record(name, input, output);
    }
    let mut backward = Stats::new();
    for (name, input, output) in calls.into_iter().rev() {
        backward.record(name, input, output);
    }
    assert_eq!(forward.call_count(), 4);
    assert_eq!(forward.render(), backward.render());
}
