use crush::stats::Stats;
use crush::{handle_hook, handle_hook_counted, handle_hook_with_stats, pass_through, react};
use serde_json::Value;

fn object(members: Vec<(&str, Value)>) -> Value {
    let mut map = serde_json::Map::new();
    for (key, value) in members {
        map.insert(key.to_string(), value);
    }
    Value::Object(map)
}

fn listing() -> String {
    let mut s = String::from("total 4\n");
    for i in 0..100 {
        s.push_str(&format!("-rw-r--r--  1 root root  100 Jan  1 00:00 file{i}\n"));
    }
    s
}

#[test]
fn non_after_tool_call_events_pass_through() {
    let params = object(vec![
        ("kind", Value::from("before_message")),
        ("message", Value::from("hi")),
    ]);
    assert_eq!(handle_hook(Some(&params))["action"], "continue");
}

#[test]
fn missing_output_passes_through() {
    let params = object(vec![("kind", Value::from("after_tool_call"))]);
    assert_eq!(handle_hook(Some(&params))["action"], "continue");
}

#[test]
fn incompressible_output_passes_through() {
    let mut big = String::new();
    for i in 0..300 {
        big.push_str(&format!("the quick brown fox {i} jumps over a lazy dog\n"));
    }
    let params = object(vec![
        ("kind", Value::from("after_tool_call")),
        ("tool_input", object(vec![("command", Value::from("echo hi"))])),
        ("tool_output", Value::from(big)),
    ]);
    assert_eq!(handle_hook(Some(&params))["action"], "continue");
}

#[test]
fn an_output_is_replaced_and_counted() {
    let text = listing();
    let params = object(vec![
        ("kind", Value::from("after_tool_call")),
        ("tool_name", Value::from("bash")),
        ("tool_input", object(vec![("command", Value::from("ls -l"))])),
        ("tool_output", Value::from(text.as_str())),
    ]);
    let mut stats = Stats::new();
    let r = handle_hook_with_stats(Some(&params), &mut stats);
    assert_eq!(r["action"], "replace");
    let out = r["output"].as_str().unwrap();
    assert!(out.starts_with("[@crush/1 "));
    assert_eq!(stats.call_count(), 1);
    assert_eq!(stats.total_saved_bytes(), (text.len() - out.len()) as u64);
    assert!(stats.render().contains("\n   ls "));
    assert_eq!(handle_hook(Some(&params)), r);
    let again = handle_hook_counted(Some(&params), &mut stats);
    assert_eq!(again, r);
    assert_eq!(stats.call_count(), 2);
    // A result that comes back passes through.
    let mut stats = Stats::new();
    assert_eq!(react("bash", "ls -l", out, &mut stats), None);
    assert_eq!(react("ls", "", &text, &mut stats).as_deref(), Some(out));
    assert_eq!(stats.call_count(), 1);
}

#[test]
fn missing_parts_pass_through() {
    assert_eq!(handle_hook(None), pass_through());
    assert_eq!(handle_hook(Some(&Value::Null)), pass_through());
    let params = object(vec![
        ("kind", Value::from("after_tool_call")),
        ("tool_output", Value::from(5)),
    ]);
    assert_eq!(handle_hook(Some(&params)), pass_through());
    assert_eq!(pass_through().to_string(), r#"{"action":"continue"}"#);
}

#[test]
fn an_event_without_a_tool_is_cleaned_up() {
    let params = object(vec![
        ("kind", Value::from("after_tool_call")),
        ("tool_output", Value::from("again\n".repeat(500))),
    ]);
    let mut stats = Stats::new();
    let r = handle_hook_counted(Some(&params), &mut stats);
    assert_eq!(r["output"], "[@crush/1 3000→14 bytes (-99%)]\nagain (×500)\n");
    assert!(stats.render().contains("\n   text "));
}

#[test]
fn full_counters_let_the_output_pass_through() {
    let event = |output: &str| {
        object(vec![
            ("kind", Value::from("after_tool_call")),
            ("tool_name", Value::from("ls")),
            ("tool_output", Value::from(output)),
        ])
    };
    let mut stats = Stats::new();
    stats.record("ls", usize::MAX, 0);
    let full = stats.render();
    assert_eq!(handle_hook_counted(Some(&event(&listing())), &mut stats), pass_through());
    assert_eq!(stats.render(), full);
    // Nothing is counted of an output that is not replaced, so it needs no room.
    assert_eq!(handle_hook_with_stats(Some(&event("short")), &mut stats), pass_through());
    assert_eq!(react("ls", "", "short", &mut stats), None);
    assert_eq!(stats.call_count(), 1);
}
