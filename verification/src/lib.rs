//! Compression of tool output for a model's context.
//!
//! The library rewrites the output of tools (`ls`, `ps`, `git log`, JSON lists, build
//! logs) into a dense form before a model reads it. [`handle_hook`] is what the engine
//! calls after a tool has run; [`compress`] is the pipeline, [`transforms`] what it tries,
//! [`protocol`] the transport, [`session`] the requests, and [`stats`] what was saved.
//! [`laws`] states what each operation is for.
//!
//! An output that is small, that no transform helps with, or that is no event of a tool
//! passes through unchanged.
use serde_json::Value;
use vstd::prelude::*;
use crate::json::Json;
use crate::stats::Stats;

pub mod chars;
pub mod compress;
pub mod json;
pub mod laws;
pub mod lines;
pub mod markers;
pub mod protocol;
pub mod session;
pub mod stats;
pub mod transforms;

verus! {

/// What the event of a tool call says: the tool, the command that it ran, and its output.
pub struct Event {
    pub tool_name: Seq<char>,
    pub command: Seq<char>,
    pub output: Seq<char>,
}

/// The text of a member, or nothing.
pub open spec fn text_or_nothing(params: Json, key: Seq<char>) -> Seq<char> {
    match json::member_text(params, key) {
        Some(text) => text,
        None => seq![],
    }
}

/// The event that the parameters of a hook tell of; `None` where they tell of no tool
/// call, or of one without an output.
pub open spec fn event_of(params: Json) -> Option<Event> {
    if text_or_nothing(params, "kind"@) != "after_tool_call"@ {
        None
    } else {
        match json::member_text(params, "tool_output"@) {
            Some(output) => Some(
                Event {
                    tool_name: text_or_nothing(params, "tool_name"@),
                    command: match json::member_of(params, "tool_input"@) {
                        Some(tool_input) => compress::command_of(tool_input),
                        None => seq![],
                    },
                    output,
                },
            ),
            None => None,
        }
    }
}

/// The event that parameters tell of, where there are any.
pub open spec fn event_in(params: Option<&Value>) -> Option<Event> {
    match params {
        Some(value) => event_of(json::contents(*value)),
        None => None,
    }
}

/// What an event's output is replaced by, with the label; `None` where it passes through.
pub open spec fn replacement(event: Option<Event>) -> Option<(Seq<char>, Seq<char>)> {
    match event {
        Some(e) => compress::pipeline(e.tool_name, e.command, e.output),
        None => None,
    }
}

/// The answer to a hook.
pub open spec fn answer(found: Option<(Seq<char>, Seq<char>)>) -> Json {
    match found {
        Some((out, _)) => Json::Object(
            seq![("action"@, Json::Text("replace"@)), ("output"@, Json::Text(out))],
        ),
        None => Json::Object(seq![("action"@, Json::Text("continue"@))]),
    }
}

/// The session after an event: its replacement is counted as a win.
pub open spec fn counted(
    session: stats::StatsModel,
    event: Option<Event>,
) -> stats::StatsModel {
    match (event, replacement(event)) {
        (Some(e), Some((out, label))) => stats::recorded(
            session,
            label,
            chars::byte_len(e.output),
            chars::byte_len(out),
        ),
        _ => session,
    }
}

/// The session's counters can take an output of that many bytes.
pub open spec fn has_room(session: stats::StatsModel, bytes: nat) -> bool {
    session.input + bytes <= u64::MAX && session.calls < u64::MAX
}

/// The session's counters can take the event, where its output is replaced.
pub open spec fn has_room_for(session: stats::StatsModel, event: Option<Event>) -> bool {
    match event {
        Some(e) => replacement(event) is Some ==> has_room(session, chars::byte_len(e.output)),
        None => true,
    }
}

/// A replaced output is always a win, so that every replacement is counted.
pub proof fn lemma_replacement_is_a_win(session: stats::StatsModel, event: Event)
    ensures
        match replacement(Some(event)) {
            Some(_) => counted(session, Some(event)).calls == session.calls + 1,
            None => counted(session, Some(event)) == session,
        },
{
}

/// The answer that lets an output pass through.
pub fn pass_through() -> (r: Value)
    ensures
        json::contents(r) == answer(None),
{
    json::object_of_one(("action", json::text("continue")))
}

/// Compresses the output of a tool call, and counts the win. Gives what replaces the
/// output; `None` where it passes through.
pub fn react(tool_name: &str, command: &str, output: &str, stats: &mut Stats) -> (r: Option<String>)
    requires
        compress::pipeline(tool_name@, command@, output@) is Some ==> has_room(
            old(stats)@,
            chars::byte_len(output@),
        ),
    ensures
        match compress::pipeline(tool_name@, command@, output@) {
            Some((out, label)) => {
                &&& transforms::option_view(r) == Some(out)
                &&& final(stats)@ == stats::recorded(
                    old(stats)@,
                    label,
                    chars::byte_len(output@),
                    chars::byte_len(out),
                )
            },
            None => r is None && final(stats)@ == old(stats)@,
        },
{
    match compress::compress_command(tool_name, command, output) {
        Some((out, label)) => {
            stats.record(label, chars::byte_length(output), chars::byte_length(out.as_str()));
            Some(out)
        },
        None => None,
    }
}

/// What the parameters of a hook tell of a tool call: the tool, the command and the output.
fn parts<'a>(params: Option<&'a Value>) -> (r: Option<(&'a str, &'a str, &'a str)>)
    ensures
        match event_in(params) {
            Some(e) => r matches Some((tool_name, command, output)) && tool_name@ == e.tool_name
                && command@ == e.command && output@ == e.output,
            None => r is None,
        },
{
    let params = match params {
        Some(params) => params,
        None => {
            return None;
        },
    };
    if !chars::same_str(json::text_or_empty(params, "kind"), "after_tool_call") {
        return None;
    }
    let output = match json::member(params, "tool_output") {
        Some(value) => match value.as_str() {
            Some(output) => output,
            None => {
                return None;
            },
        },
        None => {
            return None;
        },
    };
    let tool_name = json::text_or_empty(params, "tool_name");
    let command = match json::member(params, "tool_input") {
        Some(tool_input) => compress::command(tool_input),
        None => {
            proof {
                reveal_strlit("");
                assert(""@ =~= Seq::<char>::empty());
            }
            ""
        },
    };
    Some((tool_name, command, output))
}

/// The answer with what replaces the output, or the one that lets it pass through.
fn reply(out: Option<String>) -> (r: Value)
    ensures
        match out {
            Some(text) => json::contents(r) == answer(Some((text@, seq![]))),
            None => json::contents(r) == answer(None),
        },
{
    match out {
        Some(text) => {
            proof {
                reveal_strlit("action");
                reveal_strlit("output");
                assert("action"@[0] == 'a' && "output"@[0] == 'o');
            }
            json::object_of_two(
                ("action", json::text("replace")),
                ("output", json::text(text.as_str())),
            )
        },
        None => pass_through(),
    }
}

/// Handles the event of a tool call. Gives `{"action":"replace","output":...}` where the
/// output is compressed, else `{"action":"continue"}`.
#[must_use]
pub fn handle_hook(params: Option<&Value>) -> (r: Value)
    ensures
        json::contents(r) == answer(replacement(event_in(params))),
{
    match parts(params) {
        Some((tool_name, command, output)) => match compress::compress_command(
            tool_name,
            command,
            output,
        ) {
            Some((out, _)) => reply(Some(out)),
            None => reply(None),
        },
        None => reply(None),
    }
}

/// Like [`handle_hook`], and records every win in `stats`.
#[must_use]
pub fn handle_hook_with_stats(params: Option<&Value>, stats: &mut Stats) -> (r: Value)
    requires
        has_room_for(old(stats)@, event_in(params)),
    ensures
        json::contents(r) == answer(replacement(event_in(params))),
        final(stats)@ == counted(old(stats)@, event_in(params)),
{
    match parts(params) {
        Some((tool_name, command, output)) => reply(react(tool_name, command, output, stats)),
        None => reply(None),
    }
}

/// Like [`handle_hook_with_stats`], for any session: where its counters cannot take an
/// output that would be replaced, the output passes through and nothing is counted.
#[must_use]
pub fn handle_hook_counted(params: Option<&Value>, stats: &mut Stats) -> (r: Value)
    ensures
        ({
            let event = event_in(params);
            if has_room_for(old(stats)@, event) {
                &&& json::contents(r) == answer(replacement(event))
                &&& final(stats)@ == counted(old(stats)@, event)
            } else {
                json::contents(r) == answer(None) && final(stats)@ == old(stats)@
            }
        }),
{
    if let Some((_, _, output)) = parts(params) {
        if !stats.can_take(chars::byte_length(output)) {
            return pass_through();
        }
    }
    handle_hook_with_stats(params, stats)
}

} // verus!
