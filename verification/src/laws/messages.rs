//! Frames, messages, and the answers of a session.
use serde_json::Value;
use vstd::prelude::*;
use vstd::utf8::{decode_utf8, encode_utf8, valid_utf8};
use crate::chars;
use crate::compress;
use crate::json;
use crate::json::Json;
use crate::laws::characters;
use crate::laws::tools;
use crate::protocol;
use crate::protocol::{Frame, FrameError};
use crate::session;
use crate::session::Method;
use crate::stats;

verus! {

// ---- reading frames ----

/// A frame is read line by line: a line ends with a line feed, or where the bytes end. One
/// that is no text is an error behind which reading goes on, and an end without an empty
/// line is a frame that was cut off.
pub proof fn lemma_headers_are_read(line: Seq<u8>, rest: Seq<u8>, length: Option<nat>)
    requires
        forall|j: int| 0 <= j < line.len() ==> #[trigger] line[j] != 10,
    ensures
        protocol::read_frame(Seq::<u8>::empty()) == (Frame::End, Seq::<u8>::empty()),
        protocol::read_frame(line.push(10) + rest) == protocol::read_headers(
            line.push(10) + rest,
            None,
        ),
        protocol::read_headers(Seq::<u8>::empty(), length) == (
            Frame::Truncated,
            Seq::<u8>::empty(),
        ),
        protocol::read_headers(line.push(10) + rest, length) == if !valid_utf8(line.push(10)) {
            (Frame::NotText, rest)
        } else {
            match protocol::after_header(length, decode_utf8(line.push(10))) {
                Some(known) => protocol::read_headers(rest, known),
                None => protocol::read_body(rest, length),
            }
        },
        line.len() > 0 ==> protocol::read_headers(line, length) == if !valid_utf8(line) {
            (Frame::NotText, Seq::<u8>::empty())
        } else {
            match protocol::after_header(length, decode_utf8(line)) {
                Some(known) => (Frame::Truncated, Seq::<u8>::empty()),
                None => protocol::read_body(Seq::<u8>::empty(), length),
            }
        },
{
    let first = line.push(10);
    let data = first + rest;
    let k = first.len() as int;
    assert forall|j: int| 0 <= j < k - 1 implies data[j] != 10 by {
        assert(data[j] == line[j]);
    }
    assert(data[k - 1] == 10);
    protocol::lemma_line_len_is(data, k);
    assert(data.take(k) =~= first);
    assert(data.skip(k) =~= rest);
    let none = Seq::<u8>::empty();
    if line.len() > 0 {
        protocol::lemma_line_len_is(line, line.len() as int);
        assert(line.take(line.len() as int) =~= line);
        assert(line.skip(line.len() as int) =~= none);
        match protocol::after_header(length, decode_utf8(line)) {
            Some(known) => {
                assert(protocol::read_headers(none, known) == (Frame::Truncated, none));
                assert(protocol::read_headers(line, length) == if !valid_utf8(line) {
                    (Frame::NotText, none)
                } else {
                    protocol::read_headers(none, known)
                });
            },
            None => {},
        }
    }
}

/// The name of a header is compared without regard to the case of its letters and the
/// whitespace around it. `Content-Length` declares the length, the last one counts, and any
/// other header makes no difference.
pub proof fn lemma_header_lines(
    length: Option<nat>,
    name: Seq<char>,
    value: Seq<char>,
    ending: Seq<char>,
)
    requires
        forall|j: int| 0 <= j < name.len() ==> #[trigger] name[j] != ':',
        forall|j: int| 0 <= j < ending.len() ==> #[trigger] ending[j] == '\r' || ending[j] == '\n',
        value.len() > 0 ==> value.last() != '\r' && value.last() != '\n',
    ensures
        protocol::after_header(length, ending) is None,
        name.len() > 0 && name.last() != '\r' && name.last() != '\n' ==> protocol::after_header(length, name + ending) == Some(length),
        protocol::after_header(length, name + seq![':'] + value + ending) == if same_name(
            chars::trim(name),
            "content-length"@,
        ) {
            Some(protocol::declared(chars::trim(value)))
        } else {
            Some(length)
        },
{
    let none = Seq::<char>::empty();
    lemma_without_ending(none, ending);
    assert(none + ending =~= ending);
    if name.len() > 0 && name.last() != '\r' && name.last() != '\n' {
        lemma_without_ending(name, ending);
    }
    characters::lemma_first_place(name, ':', value);
    let text = name + seq![':'] + value;
    if value.len() > 0 {
        assert(text.last() == value.last());
    } else {
        assert(text.last() == ':');
    }
    lemma_without_ending(text, ending);
    assert(text.take(name.len() as int) =~= name);
    assert(text.skip(name.len() as int + 1) =~= value);
    let a = chars::trim(name);
    let b = "content-length"@;
    assert(protocol::same_letters(a, b) == same_name(a, b)) by {
        if a.len() == b.len() {
            assert forall|j: int| 0 <= j < a.len() implies (protocol::small(#[trigger] a[j])
                == protocol::small(b[j])) == same_letter(a[j], b[j]) by {
                lemma_small(a[j], b[j]);
            }
        }
    }
}

/// The letters are the same, or the capital and the small form of one.
pub open spec fn same_letter(a: char, b: char) -> bool {
    ||| a == b
    ||| exists|k: int|
        0 <= k < 26 && ((a == #[trigger] "ABCDEFGHIJKLMNOPQRSTUVWXYZ"@[k] && b
            == "abcdefghijklmnopqrstuvwxyz"@[k]) || (b == "ABCDEFGHIJKLMNOPQRSTUVWXYZ"@[k] && a
            == "abcdefghijklmnopqrstuvwxyz"@[k]))
}

/// The names are the same but for the case of their letters.
pub open spec fn same_name(a: Seq<char>, b: Seq<char>) -> bool {
    a.len() == b.len() && forall|j: int| 0 <= j < a.len() ==> same_letter(#[trigger] a[j], b[j])
}

proof fn lemma_small(a: char, b: char)
    ensures
        protocol::small(a) == protocol::small(b) <==> same_letter(a, b),
{
    reveal_strlit("ABCDEFGHIJKLMNOPQRSTUVWXYZ");
    reveal_strlit("abcdefghijklmnopqrstuvwxyz");
    let capitals = "ABCDEFGHIJKLMNOPQRSTUVWXYZ"@;
    let smalls = "abcdefghijklmnopqrstuvwxyz"@;
    assert forall|k: int| 0 <= k < 26 implies #[trigger] capitals[k] == (65 + k) as char
        && smalls[k] == (97 + k) as char && protocol::small(capitals[k]) == smalls[k] by {}
    if protocol::small(a) == protocol::small(b) && a != b {
        if 'A' <= a <= 'Z' {
            let k = a as int - 65;
            assert(a == capitals[k]);
            assert(b == smalls[k]);
        } else {
            let k = b as int - 65;
            assert(b == capitals[k]);
            assert(a == smalls[k]);
        }
    }
}

proof fn lemma_without_ending(text: Seq<char>, ending: Seq<char>)
    requires
        forall|j: int| 0 <= j < ending.len() ==> #[trigger] ending[j] == '\r' || ending[j] == '\n',
        text.len() > 0 ==> text.last() != '\r' && text.last() != '\n',
    ensures
        protocol::without_ending(text + ending) == text,
    decreases ending.len(),
{
    let line = text + ending;
    if ending.len() == 0 {
        assert(line =~= text);
    } else {
        let init = ending.drop_last();
        assert forall|j: int| 0 <= j < init.len() implies #[trigger] init[j] == '\r' || init[j]
            == '\n' by {
            assert(init[j] == ending[j]);
        }
        lemma_without_ending(text, init);
        assert(line.drop_last() =~= text + init);
        assert(line.last() == ending[ending.len() - 1]);
    }
}

/// A length is decimal digits, with a plus sign before them or not, for a number that fits.
pub proof fn lemma_lengths_are_read(digits: Seq<char>)
    ensures
        ({
            let good = digits.len() > 0 && (forall|j: int|
                0 <= j < digits.len() ==> '0' <= #[trigger] digits[j] <= '9') && chars::number(
                digits,
            ) <= usize::MAX;
            &&& protocol::declared(seq!['+'] + digits) == if good {
                Some(chars::number(digits))
            } else {
                None
            }
            &&& !(digits.len() > 0 && digits[0] == '+') ==> protocol::declared(digits) == if good {
                Some(chars::number(digits))
            } else {
                None
            }
        }),
{
    assert((seq!['+'] + digits).skip(1) =~= digits);
    assert(chars::all_digits(digits) <==> forall|j: int|
        0 <= j < digits.len() ==> '0' <= #[trigger] digits[j] <= '9') by {
        if chars::all_digits(digits) {
            assert forall|j: int| 0 <= j < digits.len() implies '0' <= #[trigger] digits[j]
                <= '9' by {
                assert(chars::is_digit(digits[j]));
            }
        }
        if forall|j: int| 0 <= j < digits.len() ==> '0' <= #[trigger] digits[j] <= '9' {
            assert forall|j: int| 0 <= j < digits.len() implies chars::is_digit(
                #[trigger] digits[j],
            ) by {}
        }
    }
}

/// The body is as many bytes as were declared, at most 64 MiB of them, and the next frame
/// begins right behind it.
pub proof fn lemma_bodies_are_read(body: Seq<u8>, rest: Seq<u8>, n: nat)
    ensures
        protocol::read_body(rest, None) == (Frame::MissingLength, rest),
        body.len() <= 67108864 ==> protocol::read_body(body + rest, Some(body.len())) == (
            Frame::Body(body),
            rest,
        ),
        n > 67108864 ==> protocol::read_body(rest, Some(n)) == (Frame::TooLong, rest),
        rest.len() < n <= 67108864 ==> protocol::read_body(rest, Some(n)) == (
            Frame::Truncated,
            Seq::<u8>::empty(),
        ),
{
    assert((body + rest).take(body.len() as int) =~= body);
    assert((body + rest).skip(body.len() as int) =~= rest);
}

/// A frame is the length of its body in decimal notation, an empty line, and the body.
pub proof fn lemma_frames_are_written(body: Seq<u8>)
    ensures
        protocol::framed(body) == encode_utf8(
            "Content-Length: "@ + chars::decimal(body.len()) + "\r\n\r\n"@,
        ) + body,
{
}

/// The message is what the body holds, the end is an end only before a frame, and every
/// other outcome is its own error.
pub proof fn lemma_outcomes_are_told_apart(bytes: Seq<u8>, r: Result<Option<Value>, FrameError>)
    ensures
        protocol::reads_as(Frame::End, r) <==> r matches Ok(None),
        protocol::reads_as(Frame::Body(bytes), r) <==> match json::parsed_bytes(bytes) {
            Some(message) => r matches Ok(Some(value)) && json::contents(value) == message,
            None => r matches Err(FrameError::Malformed(_)),
        },
        protocol::reads_as(Frame::NotText, r) <==> r matches Err(FrameError::NotText),
        protocol::reads_as(Frame::MissingLength, r) <==> r matches Err(FrameError::MissingLength),
        protocol::reads_as(Frame::TooLong, r) <==> r matches Err(FrameError::TooLong),
        protocol::reads_as(Frame::Truncated, r) <==> r matches Err(FrameError::Truncated),
{
}

// ---- messages ----

/// The keys of an object, in order.
pub open spec fn keys(json: Json) -> Seq<Seq<char>> {
    json->Object_0.map_values(|m: (Seq<char>, Json)| m.0)
}

/// An object of two members has those members.
proof fn lemma_two(a: (Seq<char>, Json), b: (Seq<char>, Json))
    requires
        a.0 != b.0,
    ensures
        keys(Json::Object(seq![a, b])) == seq![a.0, b.0],
        json::member_of(Json::Object(seq![a, b]), a.0) == Some(a.1),
        json::member_of(Json::Object(seq![a, b]), b.0) == Some(b.1),
{
    assert(keys(Json::Object(seq![a, b])) =~= seq![a.0, b.0]);
    tools::lemma_members_are_found(seq![a, b], 0, a.0);
    tools::lemma_members_are_found(seq![a, b], 1, b.0);
}

proof fn lemma_three(a: (Seq<char>, Json), b: (Seq<char>, Json), c: (Seq<char>, Json))
    requires
        a.0 != b.0,
        a.0 != c.0,
        b.0 != c.0,
    ensures
        keys(Json::Object(seq![a, b, c])) == seq![a.0, b.0, c.0],
        json::member_of(Json::Object(seq![a, b, c]), a.0) == Some(a.1),
        json::member_of(Json::Object(seq![a, b, c]), b.0) == Some(b.1),
        json::member_of(Json::Object(seq![a, b, c]), c.0) == Some(c.1),
{
    assert(keys(Json::Object(seq![a, b, c])) =~= seq![a.0, b.0, c.0]);
    tools::lemma_members_are_found(seq![a, b, c], 0, a.0);
    tools::lemma_members_are_found(seq![a, b, c], 1, b.0);
    tools::lemma_members_are_found(seq![a, b, c], 2, c.0);
}

/// A response carries the identifier of its request and the result, a notification its
/// method and parameters, and both the version of JSON-RPC. Neither has any other member.
pub proof fn lemma_messages_are_built(id: Json, result: Json, method: Seq<char>, params: Json)
    ensures
        ({
            let m = protocol::response(id, result);
            &&& json::member_of(m, "jsonrpc"@) == Some(Json::Text("2.0"@))
            &&& json::member_of(m, "id"@) == Some(id)
            &&& json::member_of(m, "result"@) == Some(result)
            &&& keys(m) == seq!["jsonrpc"@, "id"@, "result"@]
        }),
        ({
            let m = protocol::notification(method, params);
            &&& json::member_of(m, "jsonrpc"@) == Some(Json::Text("2.0"@))
            &&& json::member_of(m, "method"@) == Some(Json::Text(method))
            &&& json::member_of(m, "params"@) == Some(params)
            &&& keys(m) == seq!["jsonrpc"@, "method"@, "params"@]
        }),
{
    reveal_strlit("jsonrpc");
    reveal_strlit("id");
    reveal_strlit("result");
    reveal_strlit("method");
    reveal_strlit("params");
    assert("jsonrpc"@[0] == 'j' && "id"@[0] == 'i' && "result"@[0] == 'r' && "method"@[0] == 'm'
        && "params"@[0] == 'p');
    lemma_three(("jsonrpc"@, Json::Text("2.0"@)), ("id"@, id), ("result"@, result));
    lemma_three(
        ("jsonrpc"@, Json::Text("2.0"@)),
        ("method"@, Json::Text(method)),
        ("params"@, params),
    );
}

// ---- hooks ----

/// A hook is answered with the replaced output, or told to go on.
pub proof fn lemma_hooks_are_answered(out: Seq<char>, label: Seq<char>)
    ensures
        json::member_of(crate::answer(Some((out, label))), "action"@) == Some(
            Json::Text("replace"@),
        ),
        json::member_of(crate::answer(Some((out, label))), "output"@) == Some(Json::Text(out)),
        json::member_of(crate::answer(None), "action"@) == Some(Json::Text("continue"@)),
        json::member_of(crate::answer(None), "output"@) is None,
        keys(crate::answer(None)) == seq!["action"@],
        keys(crate::answer(Some((out, label)))) == seq!["action"@, "output"@],
{
    reveal_strlit("action");
    reveal_strlit("output");
    assert("action"@[0] == 'a' && "output"@[0] == 'o');
    lemma_two(("action"@, Json::Text("replace"@)), ("output"@, Json::Text(out)));
    let one = seq![("action"@, Json::Text("continue"@))];
    tools::lemma_members_are_found(one, 0, "action"@);
    tools::lemma_members_are_found(one, 1, "output"@);
    assert(keys(Json::Object(one)) =~= seq!["action"@]);
}

/// An event is told of by its kind and its output, which is a text. The tool and the
/// command may be missing.
pub proof fn lemma_events_are_read(params: Json)
    ensures
        ({
            let kind = json::member_of(params, "kind"@);
            let output = json::member_of(params, "tool_output"@);
            let name = json::member_of(params, "tool_name"@);
            let input = json::member_of(params, "tool_input"@);
            let told = kind == Some(Json::Text("after_tool_call"@)) && output is Some
                && output->0 is Text;
            &&& crate::event_of(params) is Some <==> told
            &&& told ==> {
                let event = crate::event_of(params)->0;
                &&& event.output == output->0->Text_0
                &&& event.tool_name == if name is Some && name->0 is Text {
                    name->0->Text_0
                } else {
                    seq![]
                }
                &&& event.command == if input is Some {
                    compress::command_of(input->0)
                } else {
                    seq![]
                }
            }
        }),
{
    reveal_strlit("after_tool_call");
    assert("after_tool_call"@.len() > 0);
}

/// The event of a hook is that of its parameters, and there is none without.
pub proof fn lemma_events_of_parameters(params: &Value)
    ensures
        crate::event_in(None) is None,
        crate::event_in(Some(params)) == crate::event_of(json::contents(*params)),
{
}

/// An output is replaced by what the pipeline makes of it, and by nothing else. What was
/// saved is counted under its label, with the bytes of the output and of what replaces it.
pub proof fn lemma_replacements_are_counted(event: crate::Event, before: stats::StatsModel)
    ensures
        crate::replacement(None) is None,
        crate::replacement(Some(event)) == compress::pipeline(
            event.tool_name,
            event.command,
            event.output,
        ),
        crate::counted(before, None) == before,
        crate::counted(before, Some(event)) == match crate::replacement(Some(event)) {
            Some((out, label)) => stats::recorded(
                before,
                label,
                chars::byte_len(event.output),
                chars::byte_len(out),
            ),
            None => before,
        },
        crate::has_room_for(before, Some(event)) <==> (crate::replacement(Some(event)) is Some
            ==> before.input + chars::byte_len(event.output) <= u64::MAX && before.calls
            < u64::MAX),
{
}

// ---- the session ----

/// What the messages of a session ask for.
pub proof fn lemma_methods_are_recognised(name: Seq<char>)
    ensures
        session::method_named("initialize"@) == Method::Initialize,
        session::method_named("hook.handle"@) == Method::Hook,
        session::method_named("command.invoke"@) == Method::Command,
        session::method_named("shutdown"@) == Method::Shutdown,
        name != "initialize"@ && name != "hook.handle"@ && name != "command.invoke"@ && name
            != "shutdown"@ ==> session::method_named(name) == Method::Other,
{
    reveal_strlit("initialize");
    reveal_strlit("hook.handle");
    reveal_strlit("command.invoke");
    reveal_strlit("shutdown");
    assert("initialize"@.len() == 10 && "hook.handle"@.len() == 11 && "command.invoke"@.len() == 14
        && "shutdown"@.len() == 8);
}

/// The report is given of the session for the command `crush`, with a slash before it or
/// not, and for none. Any other command is named as unknown.
pub proof fn lemma_commands_are_reported(command: Seq<char>, s: stats::StatsModel)
    ensures
        session::report_of(command, s) == if command == "crush"@ || command == "/crush"@ || command
            == Seq::<char>::empty() {
            stats::report(s)
        } else {
            "crush: unknown command '"@ + command + "'"@
        },
{
    if command.len() == 0 {
        assert(command =~= Seq::<char>::empty());
    }
}

/// Every message is answered last by a response with its identifier, or with null where it
/// has none. The result says what the session can do, what becomes of an output, that a
/// command was carried out, or nothing.
pub proof fn lemma_messages_are_answered(message: Json, s: stats::StatsModel)
    ensures
        ({
            let answers = session::answers(message, s);
            let last = answers.last();
            let method = match json::member_of(message, "method"@) {
                Some(Json::Text(name)) => session::method_named(name),
                _ => Method::Other,
            };
            let result = json::member_of(last, "result"@)->0;
            &&& answers.len() == if method is Command {
                3nat
            } else {
                1
            }
            &&& json::member_of(last, "id"@) == Some(
                match json::member_of(message, "id"@) {
                    Some(id) => id,
                    None => Json::Null,
                },
            )
            &&& method is Initialize ==> json::member_of(result, "protocol_version"@) == Some(
                Json::Number("1"@),
            ) && json::member_of(result, "capabilities"@) == Some(Json::Object(Seq::empty()))
                && keys(result) == seq!["protocol_version"@, "capabilities"@]
            &&& method is Hook ==> result == crate::answer(session::replacement(message, s))
            &&& method is Command ==> json::member_of(result, "ok"@) == Some(Json::Bool(true))
                && keys(result) == seq!["ok"@]
            &&& method is Shutdown || method is Other ==> result == Json::Object(Seq::empty())
        }),
{
    let id = session::id_of(message);
    let result = session::result_of(message, s);
    lemma_messages_are_built(id, result, seq![], Json::Null);
    reveal_strlit("");
    reveal_strlit("1");
    reveal_strlit("initialize");
    reveal_strlit("hook.handle");
    reveal_strlit("command.invoke");
    reveal_strlit("shutdown");
    assert("initialize"@.len() == 10 && "hook.handle"@.len() == 11 && "command.invoke"@.len() == 14
        && "shutdown"@.len() == 8);
    reveal_strlit("protocol_version");
    reveal_strlit("capabilities");
    assert("protocol_version"@[0] == 'p' && "capabilities"@[0] == 'c');
    let one = chars::decimal(1);
    assert(one =~= "1"@);
    lemma_two(
        ("protocol_version"@, Json::Number(one)),
        ("capabilities"@, Json::Object(Seq::empty())),
    );
    tools::lemma_members_are_found(seq![("ok"@, Json::Bool(true))], 0, "ok"@);
    assert(keys(Json::Object(seq![("ok"@, Json::Bool(true))])) =~= seq!["ok"@]);
}

/// A command is answered by two notifications before the response. The first shows the
/// report, the second ends it, and both carry the request that the command was given with.
pub proof fn lemma_commands_are_answered(message: Json, s: stats::StatsModel)
    requires
        session::method_of(message) is Command,
    ensures
        ({
            let answers = session::answers(message, s);
            let params = match json::member_of(message, "params"@) {
                Some(params) => params,
                None => Json::Null,
            };
            let request = match json::member_of(params, "request_id"@) {
                Some(Json::Text(t)) => t,
                _ => seq![],
            };
            let command = match json::member_of(params, "command"@) {
                Some(Json::Text(t)) => t,
                _ => seq![],
            };
            let first = json::member_of(answers[0], "params"@)->0;
            let second = json::member_of(answers[1], "params"@)->0;
            let shown = json::member_of(first, "event"@)->0;
            &&& json::member_of(answers[0], "method"@) == Some(Json::Text("command.output"@))
            &&& json::member_of(answers[1], "method"@) == Some(Json::Text("command.output"@))
            &&& json::member_of(first, "request_id"@) == Some(Json::Text(request))
            &&& json::member_of(second, "request_id"@) == Some(Json::Text(request))
            &&& keys(first) == seq!["request_id"@, "event"@]
            &&& keys(second) == seq!["request_id"@, "event"@]
            &&& keys(shown) == seq!["kind"@, "content"@]
            &&& json::member_of(shown, "kind"@) == Some(Json::Text("system"@))
            &&& json::member_of(shown, "content"@) == Some(
                Json::Text(session::report_of(command, s)),
            )
            &&& json::member_of(second, "event"@) == Some(
                Json::Object(seq![("kind"@, Json::Text("done"@))]),
            )
        }),
{
    let params = session::params_of(message);
    let request = crate::text_or_nothing(params, "request_id"@);
    let content = session::report_of(crate::text_or_nothing(params, "command"@), s);
    let shown = session::shown(request, content);
    let done = session::done(request);
    lemma_messages_are_built(Json::Null, Json::Null, "command.output"@, shown);
    lemma_messages_are_built(Json::Null, Json::Null, "command.output"@, done);
    reveal_strlit("request_id");
    reveal_strlit("event");
    reveal_strlit("kind");
    reveal_strlit("content");
    assert("request_id"@[0] == 'r' && "event"@[0] == 'e' && "kind"@[0] == 'k' && "content"@[0]
        == 'c');
    let event = Json::Object(seq![("kind"@, Json::Text("system"@)), ("content"@, Json::Text(content))]);
    lemma_two(("request_id"@, Json::Text(request)), ("event"@, event));
    lemma_two(("kind"@, Json::Text("system"@)), ("content"@, Json::Text(content)));
    lemma_two(
        ("request_id"@, Json::Text(request)),
        ("event"@, Json::Object(seq![("kind"@, Json::Text("done"@))])),
    );
}

/// The answers are written as frames, one after the other, each with the JSON of its
/// message as its body.
pub proof fn lemma_answers_are_framed(
    message: Json,
    s: stats::StatsModel,
    body: Seq<u8>,
    bodies: Seq<Seq<u8>>,
)
    ensures
        session::answer_bodies(message, s).len() == session::answers(message, s).len(),
        forall|i: int|
            0 <= i < session::answers(message, s).len() ==> #[trigger] session::answer_bodies(
                message,
                s,
            )[i] == json::written_bytes(session::answers(message, s)[i]),
        protocol::framed_all(Seq::empty()) == Seq::<u8>::empty(),
        protocol::framed_all(seq![body] + bodies) == protocol::framed(body)
            + protocol::framed_all(bodies),
{
    assert((seq![body] + bodies).skip(1) =~= bodies);
}

/// Only a hook changes what a session has counted, and only where its output is replaced.
pub proof fn lemma_sessions_count_hooks(message: Json, s: stats::StatsModel)
    ensures
        ({
            let event = match json::member_of(message, "params"@) {
                Some(params) => crate::event_of(params),
                None => None,
            };
            let roomy = crate::has_room_for(s, event);
            &&& session::replacement(message, s) == if roomy {
                crate::replacement(event)
            } else {
                None
            }
            &&& session::session_after(message, s) == if session::method_of(message) is Hook
                && roomy {
                crate::counted(s, event)
            } else {
                s
            }
            &&& session::answered(message, s) == protocol::framed_all(
                session::answer_bodies(message, s),
            )
        }),
{
    let bodies = session::answer_bodies(message, s);
    reveal_with_fuel(protocol::framed_all, 4);
    if session::method_of(message) is Command {
        assert(bodies.skip(1).skip(1).skip(1) =~= seq![]);
        assert(bodies.skip(1)[0] == bodies[1]);
        assert(bodies.skip(1).skip(1)[0] == bodies[2]);
    } else {
        assert(bodies.skip(1) =~= seq![]);
    }
    assert(session::answered(message, s) =~= protocol::framed_all(bodies));
}

} // verus!
