use crush::protocol::{read_message, FrameReader};
use crush::session::{handle_command_invoke, handle_message, recognise, report, Method};
use crush::stats::Stats;
use serde_json::Value;

fn json(text: &str) -> Value {
    serde_json::from_str(text).unwrap()
}

fn drain_notifications(buf: &[u8]) -> Vec<Value> {
    let mut cursor = FrameReader::new(buf.to_vec());
    let mut out = Vec::new();
    while let Ok(Some(v)) = read_message(&mut cursor) {
        out.push(v);
    }
    out
}

#[test]
fn command_invoke_crush_streams_report_and_done() {
    let mut stats = Stats::new();
    stats.record("ls", 2000, 1000);
    let mut buf: Vec<u8> = Vec::new();
    let params = json(r#"{"command":"crush","args":[],"request_id":"req-42"}"#);
    let resp = handle_command_invoke(&mut buf, &params, &stats);
    assert_eq!(resp["ok"], true);

    let frames = drain_notifications(&buf);
    assert_eq!(frames.len(), 2, "expected system + done, got: {frames:?}");
    assert_eq!(frames[0]["method"], "command.output");
    assert_eq!(frames[0]["params"]["request_id"], "req-42");
    assert_eq!(frames[0]["params"]["event"]["kind"], "system");
    let text = frames[0]["params"]["event"]["content"].as_str().unwrap();
    assert!(text.contains("crush"), "report should mention crush: {text}");
    assert!(text.contains("ls"), "report should list the ls bucket: {text}");

    assert_eq!(frames[1]["params"]["event"]["kind"], "done");
}

#[test]
fn command_invoke_with_no_stats_reports_empty() {
    let stats = Stats::new();
    let mut buf: Vec<u8> = Vec::new();
    let params = json(r#"{"command":"crush","args":[],"request_id":"r1"}"#);
    let _ = handle_command_invoke(&mut buf, &params, &stats);
    let frames = drain_notifications(&buf);
    let text = frames[0]["params"]["event"]["content"].as_str().unwrap();
    assert!(text.contains("no compressions yet"), "got: {text}");
}

#[test]
fn unknown_commands_are_named() {
    let stats = Stats::new();
    assert_eq!(report("zip", &stats), "crush: unknown command 'zip'");
    assert_eq!(report("/crush", &stats), stats.render());
    assert_eq!(report("", &stats), stats.render());
}

#[test]
fn methods_are_recognised() {
    assert_eq!(recognise("initialize"), Method::Initialize);
    assert_eq!(recognise("hook.handle"), Method::Hook);
    assert_eq!(recognise("command.invoke"), Method::Command);
    assert_eq!(recognise("shutdown"), Method::Shutdown);
    assert_eq!(recognise("info.get"), Method::Other);
    assert_eq!(recognise(""), Method::Other);
}

fn ask(message: &str, stats: &mut Stats) -> (bool, Vec<Value>) {
    let mut out = Vec::new();
    let goes_on = handle_message(&json(message), stats, &mut out);
    (goes_on, drain_notifications(&out))
}

#[test]
fn messages_are_answered() {
    let mut stats = Stats::new();
    let (on, frames) = ask(r#"{"id":1,"method":"initialize"}"#, &mut stats);
    assert!(on);
    assert_eq!(
        frames,
        vec![json(
            r#"{"jsonrpc":"2.0","id":1,"result":{"protocol_version":1,"capabilities":{}}}"#
        )]
    );
    let (on, frames) = ask(r#"{"id":"x","method":"info.get"}"#, &mut stats);
    assert!(on);
    assert_eq!(frames, vec![json(r#"{"jsonrpc":"2.0","id":"x","result":{}}"#)]);
    let (on, frames) = ask(r#"{"method":"shutdown"}"#, &mut stats);
    assert!(!on);
    assert_eq!(frames, vec![json(r#"{"jsonrpc":"2.0","id":null,"result":{}}"#)]);
    let (on, frames) = ask(r#"{"id":2,"method":"command.invoke"}"#, &mut stats);
    assert!(on);
    assert_eq!(frames.len(), 3);
    assert_eq!(frames[0]["params"]["request_id"], "");
    assert_eq!(frames[2], json(r#"{"jsonrpc":"2.0","id":2,"result":{"ok":true}}"#));
}

#[test]
fn hooks_are_answered_and_counted() {
    let mut stats = Stats::new();
    let (on, frames) = ask(r#"{"id":3,"method":"hook.handle"}"#, &mut stats);
    assert!(on);
    assert_eq!(frames[0]["result"]["action"], "continue");
    assert_eq!(stats.call_count(), 0);
    let output = "x y\\n".repeat(800);
    let message = format!(
        r#"{{"id":4,"method":"hook.handle","params":{{"kind":"after_tool_call","tool_output":"{output}"}}}}"#
    );
    let (_, frames) = ask(&message, &mut stats);
    assert_eq!(
        frames[0]["result"]["output"],
        "[@crush/1 3200→12 bytes (-99%)]\nx y (×800)\n"
    );
    assert_eq!(stats.call_count(), 1);
}

#[test]
fn a_command_is_answered_with_three_frames() {
    let mut stats = Stats::new();
    stats.record("ls", 2000, 1000);
    let mut buf: Vec<u8> = Vec::new();
    let message = json(r#"{"id":7,"method":"command.invoke","params":{"command":"crush","request_id":"q"}}"#);
    assert!(handle_message(&message, &mut stats, &mut buf));
    assert!(handle_message(&json(r#"{"id":8,"method":"other"}"#), &mut stats, &mut buf));
    let frames = drain_notifications(&buf);
    assert_eq!(frames.len(), 4);
    assert_eq!(frames[0]["params"]["event"]["content"], stats.render());
    assert_eq!(frames[1]["params"]["event"]["kind"], "done");
    assert_eq!(frames[2]["id"], 7);
    assert_eq!(frames[2]["result"]["ok"], true);
    assert_eq!(frames[3]["id"], 8);
}
