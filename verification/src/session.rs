//! The requests of a session.
//!
//! [`handle_message`] takes one message and appends the frames that answer it.
use serde_json::Value;
use vstd::prelude::*;
use crate::chars;
use crate::json;
use crate::json::Json;
use crate::protocol;
use crate::stats;
use crate::stats::Stats;

verus! {

/// The version of the protocol.
pub const PROTOCOL_VERSION: u64 = 1;

/// What a message asks for.
#[derive(Clone, Copy, Debug, PartialEq, Eq, Structural)]
pub enum Method {
    Initialize,
    Hook,
    Command,
    Shutdown,
    /// Anything else, which gets an empty answer.
    Other,
}

/// What a message with that method asks for.
pub open spec fn method_named(name: Seq<char>) -> Method {
    if name == "initialize"@ {
        Method::Initialize
    } else if name == "hook.handle"@ {
        Method::Hook
    } else if name == "command.invoke"@ {
        Method::Command
    } else if name == "shutdown"@ {
        Method::Shutdown
    } else {
        Method::Other
    }
}

/// What a command reports: the session's report for the one command there is.
pub open spec fn report_of(command: Seq<char>, session: stats::StatsModel) -> Seq<char> {
    if command == "crush"@ || command == "/crush"@ || command.len() == 0 {
        stats::report(session)
    } else {
        "crush: unknown command '"@ + command + "'"@
    }
}

/// The notification that shows a text.
pub open spec fn shown(request_id: Seq<char>, content: Seq<char>) -> Json {
    Json::Object(
        seq![
            ("request_id"@, Json::Text(request_id)),
            (
                "event"@,
                Json::Object(
                    seq![("kind"@, Json::Text("system"@)), ("content"@, Json::Text(content))],
                ),
            ),
        ],
    )
}

/// The notification that ends what a command shows.
pub open spec fn done(request_id: Seq<char>) -> Json {
    Json::Object(
        seq![
            ("request_id"@, Json::Text(request_id)),
            ("event"@, Json::Object(seq![("kind"@, Json::Text("done"@))])),
        ],
    )
}

/// The frames that a command streams: its report, and the end of it.
pub open spec fn streamed(params: Json, session: stats::StatsModel) -> Seq<u8> {
    let request_id = crate::text_or_nothing(params, "request_id"@);
    let content = report_of(crate::text_or_nothing(params, "command"@), session);
    protocol::framed(
        json::written_bytes(
            protocol::notification("command.output"@, shown(request_id, content)),
        ),
    ) + protocol::framed(
        json::written_bytes(protocol::notification("command.output"@, done(request_id))),
    )
}

/// The answer to the first request.
pub open spec fn capabilities() -> Json {
    Json::Object(
        seq![
            ("protocol_version"@, Json::Number(chars::decimal(PROTOCOL_VERSION as nat))),
            ("capabilities"@, Json::Object(Seq::empty())),
        ],
    )
}

/// What a message asks for.
pub open spec fn method_of(message: Json) -> Method {
    method_named(crate::text_or_nothing(message, "method"@))
}

/// The identifier that the answer repeats.
pub open spec fn id_of(message: Json) -> Json {
    match json::member_of(message, "id"@) {
        Some(id) => id,
        None => Json::Null,
    }
}

/// The event that a hook's message tells of.
pub open spec fn event_of(message: Json) -> Option<crate::Event> {
    match json::member_of(message, "params"@) {
        Some(params) => crate::event_of(params),
        None => None,
    }
}

/// What the event of a hook's message is replaced by, as far as the counters can take it.
pub open spec fn replacement(message: Json, session: stats::StatsModel) -> Option<
    (Seq<char>, Seq<char>),
> {
    if crate::has_room_for(session, event_of(message)) {
        crate::replacement(event_of(message))
    } else {
        None
    }
}

/// The parameters of a message; null where it has none.
pub open spec fn params_of(message: Json) -> Json {
    match json::member_of(message, "params"@) {
        Some(params) => params,
        None => Json::Null,
    }
}

/// The result that a message is answered with.
pub open spec fn result_of(message: Json, session: stats::StatsModel) -> Json {
    match method_of(message) {
        Method::Initialize => capabilities(),
        Method::Hook => crate::answer(replacement(message, session)),
        Method::Command => Json::Object(seq![("ok"@, Json::Bool(true))]),
        _ => Json::Object(Seq::empty()),
    }
}

/// The frames that answer a message.
pub open spec fn answered(message: Json, session: stats::StatsModel) -> Seq<u8> {
    (if method_of(message) is Command {
        streamed(params_of(message), session)
    } else {
        seq![]
    }) + protocol::framed(
        json::written_bytes(
            protocol::response(id_of(message), result_of(message, session)),
        ),
    )
}

/// The session after a message.
pub open spec fn session_after(message: Json, session: stats::StatsModel) -> stats::StatsModel {
    if method_of(message) is Hook && crate::has_room_for(session, event_of(message)) {
        crate::counted(session, event_of(message))
    } else {
        session
    }
}

/// The messages that answer a message: what a command reports and the end of it, and in any
/// case the response, with the message's identifier.
pub open spec fn answers(message: Json, session: stats::StatsModel) -> Seq<Json> {
    let last = protocol::response(id_of(message), result_of(message, session));
    if method_of(message) is Command {
        let request_id = crate::text_or_nothing(params_of(message), "request_id"@);
        let content = report_of(
            crate::text_or_nothing(params_of(message), "command"@),
            session,
        );
        seq![
            protocol::notification("command.output"@, shown(request_id, content)),
            protocol::notification("command.output"@, done(request_id)),
            last,
        ]
    } else {
        seq![last]
    }
}

/// The bodies of the frames that answer a message.
pub open spec fn answer_bodies(message: Json, session: stats::StatsModel) -> Seq<Seq<u8>> {
    answers(message, session).map_values(|m: Json| json::written_bytes(m))
}

/// The answer to a message reads back as its frames, and what follows it is left: three
/// frames of a command, the report, the end of it and the response, and one frame, the
/// response, of any other message.
pub proof fn lemma_answer_reads_back(message: Json, session: stats::StatsModel, rest: Seq<u8>)
    requires
        forall|i: int|
            0 <= i < answer_bodies(message, session).len() ==> (#[trigger] answer_bodies(
                message,
                session,
            )[i]).len() <= protocol::MAX_FRAME_BYTES,
    ensures
        protocol::reads_frames(
            answered(message, session) + rest,
            answer_bodies(message, session),
            rest,
        ),
{
    let bodies = answer_bodies(message, session);
    let frames = protocol::framed_all(bodies);
    assert(answered(message, session) =~= frames) by {
        reveal_with_fuel(protocol::framed_all, 4);
        if method_of(message) is Command {
            assert(bodies.skip(1).skip(1).skip(1) =~= seq![]);
            assert(bodies.skip(1)[0] == bodies[1]);
            assert(bodies.skip(1).skip(1)[0] == bodies[2]);
        } else {
            assert(bodies.skip(1) =~= seq![]);
        }
    }
    protocol::lemma_frames_read_back(bodies, rest);
}

/// What a message with that method asks for.
pub fn recognise(name: &str) -> (r: Method)
    ensures
        r == method_named(name@),
{
    if chars::same_str(name, "initialize") {
        Method::Initialize
    } else if chars::same_str(name, "hook.handle") {
        Method::Hook
    } else if chars::same_str(name, "command.invoke") {
        Method::Command
    } else if chars::same_str(name, "shutdown") {
        Method::Shutdown
    } else {
        Method::Other
    }
}

/// What a command reports.
pub fn report(command: &str, stats: &Stats) -> (r: String)
    ensures
        r@ == report_of(command@, stats@),
{
    if chars::same_str(command, "crush") || chars::same_str(command, "/crush")
        || chars::byte_length(command) == 0 {
        proof {
            chars::lemma_byte_len_bounds(command@);
        }
        stats.render()
    } else {
        proof {
            if command@.len() == 0 {
                chars::lemma_byte_len_bounds(command@);
            }
        }
        let mut out = chars::to_chars("crush: unknown command '");
        chars::append_str(&mut out, command);
        chars::append_str(&mut out, "'");
        chars::to_text(out.as_slice())
    }
}

/// Streams a text.
fn emit_system(writer: &mut Vec<u8>, request_id: &str, content: &str)
    ensures
        final(writer)@ == old(writer)@ + protocol::framed(
            json::written_bytes(
                protocol::notification("command.output"@, shown(request_id@, content@)),
            ),
        ),
{
    proof {
        reveal_strlit("kind");
        reveal_strlit("content");
        reveal_strlit("request_id");
        reveal_strlit("event");
        assert("kind"@.len() == 4 && "content"@.len() == 7);
        assert("request_id"@.len() == 10 && "event"@.len() == 5);
    }
    let event = json::object_of_two(
        ("kind", json::text("system")),
        ("content", json::text(content)),
    );
    let params = json::object_of_two(
        ("request_id", json::text(request_id)),
        ("event", event),
    );
    let _ = protocol::write_notification(writer, "command.output", params);
}

/// Streams the end of what a command shows.
fn emit_done(writer: &mut Vec<u8>, request_id: &str)
    ensures
        final(writer)@ == old(writer)@ + protocol::framed(
            json::written_bytes(
                protocol::notification("command.output"@, done(request_id@)),
            ),
        ),
{
    proof {
        reveal_strlit("request_id");
        reveal_strlit("event");
        assert("request_id"@.len() == 10 && "event"@.len() == 5);
    }
    let event = json::object_of_one(("kind", json::text("done")));
    let params = json::object_of_two(
        ("request_id", json::text(request_id)),
        ("event", event),
    );
    let _ = protocol::write_notification(writer, "command.output", params);
}

/// Streams what a command reports, and gives the result `{"ok":true}`.
pub fn handle_command_invoke(writer: &mut Vec<u8>, params: &Value, stats: &Stats) -> (r: Value)
    ensures
        json::contents(r) == Json::Object(seq![("ok"@, Json::Bool(true))]),
        final(writer)@ == old(writer)@ + streamed(json::contents(*params), stats@),
{
    let ghost start = writer@;
    let command = json::text_or_empty(params, "command");
    let request_id = json::text_or_empty(params, "request_id");
    let body = report(command, stats);
    emit_system(writer, request_id, body.as_str());
    emit_done(writer, request_id);
    proof {
        assert(writer@ =~= start + streamed(json::contents(*params), stats@));
    }
    json::object_of_one(("ok", json::boolean(true)))
}

/// The result that the first request is answered with.
fn initialize() -> (r: Value)
    ensures
        json::contents(r) == capabilities(),
{
    proof {
        reveal_strlit("protocol_version");
        reveal_strlit("capabilities");
        assert("protocol_version"@.len() == 16 && "capabilities"@.len() == 12);
    }
    json::object_of_two(
        ("protocol_version", json::number(PROTOCOL_VERSION)),
        ("capabilities", json::empty_object()),
    )
}

/// Appends the frames that answer a message, and counts what it replaced. Tells whether
/// the session goes on: a shutdown ends it.
pub fn handle_message(message: &Value, stats: &mut Stats, writer: &mut Vec<u8>) -> (r: bool)
    ensures
        r == !(method_of(json::contents(*message)) is Shutdown),
        final(writer)@ == old(writer)@ + answered(json::contents(*message), old(stats)@),
        final(stats)@ == session_after(json::contents(*message), old(stats)@),
{
    let ghost start = writer@;
    let ghost m = json::contents(*message);
    let id = match json::member(message, "id") {
        Some(id) => json::copy(id),
        None => json::null(),
    };
    let method = recognise(json::text_or_empty(message, "method"));
    let result = match method {
        Method::Initialize => initialize(),
        Method::Hook => crate::handle_hook_counted(json::member(message, "params"), stats),
        Method::Command => match json::member(message, "params") {
            Some(params) => handle_command_invoke(writer, params, stats),
            None => handle_command_invoke(writer, &json::null(), stats),
        },
        Method::Shutdown => json::empty_object(),
        Method::Other => json::empty_object(),
    };
    let ghost before = writer@;
    let _ = protocol::write_response(writer, &id, result);
    proof {
        let frame = protocol::framed(
            json::written_bytes(protocol::response(id_of(m), result_of(m, old(stats)@))),
        );
        assert(writer@ == before + frame);
        assert(writer@ =~= start + answered(m, old(stats)@));
    }
    method != Method::Shutdown
}

} // verus!
