//! The compression pipeline.
//!
//! [`compress`] gives a smaller text where a transform shrinks the output enough, and
//! `None` where the output is to be passed through unchanged. The name of the tool, and
//! the command that a shell tool ran, choose the transform.
//!
//! What is kept, whatever the output: the result is never larger than the output, the
//! provenance line counted in; a result is never compressed again; and the same output
//! gives the same result.
use serde_json::Value;
use vstd::prelude::*;
use crate::chars;
use crate::json;
use crate::json::Json;
use crate::lines;
use crate::markers;
use crate::transforms;
use crate::transforms::columnar::lossless;
use crate::transforms::columnar::model;
use crate::transforms::schema;

verus! {

/// No output that is smaller than this is compressed.
pub const MIN_RAW_BYTES: usize = 2048;

/// The result, provenance line included, is at least this much smaller than the output.
pub const MIN_BYTES_SAVED: usize = 256;

/// The share that is saved, in percent, rounded down.
pub open spec fn percent(before: nat, after: nat) -> nat {
    ((before - after) * 100 / before as int) as nat
}

/// The line that says by how much an output was shrunk.
pub open spec fn provenance(before: nat, after: nat) -> Seq<char> {
    seq!['['] + markers::VERSION@ + seq![' '] + chars::decimal(before) + seq!['→']
        + chars::decimal(after) + " bytes (-"@ + chars::decimal(percent(before, after)) + "%)]"@
}

/// A text below its provenance line.
pub open spec fn headed(before: nat, after: nat, body: Seq<char>) -> Seq<char> {
    provenance(before, after) + seq!['\n'] + body
}

/// `output` holds a marker of the format.
pub open spec fn crushed(output: Seq<char>) -> bool {
    chars::occurs(markers::NS@, output)
}

/// What is made of an output, given what the transforms make of it, with the label.
pub open spec fn compressed(output: Seq<char>, found: Option<(Seq<char>, Seq<char>)>) -> Option<
    (Seq<char>, Seq<char>),
> {
    let size = chars::byte_len(output);
    if size < MIN_RAW_BYTES || crushed(output) || found is None {
        None
    } else {
        let (body, label) = found->0;
        let whole = headed(size, chars::byte_len(body), body);
        if chars::byte_len(whole) + MIN_BYTES_SAVED > size {
            None
        } else {
            Some((whole, label))
        }
    }
}

/// The command that a tool's input holds; empty where it holds none.
pub open spec fn command_of(tool_input: Json) -> Seq<char> {
    match json::member_text(tool_input, "command"@) {
        Some(command) => command,
        None => seq![],
    }
}

/// What the whole pipeline makes of a tool call's output.
pub open spec fn pipeline(tool_name: Seq<char>, command: Seq<char>, output: Seq<char>) -> Option<
    (Seq<char>, Seq<char>),
> {
    compressed(
        output,
        transforms::picked(tool_name, command, output, transforms::table_of(output)),
    )
}

// ---- laws ----

/// Nothing is ever enlarged: a result is smaller than the output by at least
/// [`MIN_BYTES_SAVED`] bytes.
pub proof fn lemma_never_enlarges(output: Seq<char>, found: Option<(Seq<char>, Seq<char>)>)
    ensures
        match compressed(output, found) {
            Some((out, _)) => chars::byte_len(out) + MIN_BYTES_SAVED <= chars::byte_len(output),
            None => true,
        },
{
}

/// A provenance line is one line, and none of the columnar format's.
proof fn lemma_provenance(before: nat, after: nat)
    ensures
        lossless::is_note(provenance(before, after)),
        crushed(provenance(before, after)),
{
    let line = provenance(before, after);
    let a = chars::decimal(before);
    let b = chars::decimal(after);
    let c = chars::decimal(percent(before, after));
    markers::lemma_markers();
    markers::lemma_columnar_markers();
    reveal_strlit(" bytes (-");
    reveal_strlit("%)]");
    reveal_strlit("@crush/1.cols");
    reveal_strlit("@crush/1.dict");
    chars::lemma_decimal(before);
    chars::lemma_decimal(after);
    chars::lemma_decimal(percent(before, after));
    assert(line[0] == '[');
    assert(markers::COLS@[0] == '@');
    assert(markers::DICT@[0] == '@');
    if model::is_header_line(line) {
        assert(line.subrange(0, markers::COLS@.len() as int)[0] == line[0]);
    }
    if model::is_dict_line(line) {
        assert(line.subrange(0, markers::DICT@.len() as int)[0] == line[0]);
    }
    let rest = seq![' '] + a + seq!['→'] + b + " bytes (-"@ + c + "%)]"@;
    assert(line =~= seq!['['] + markers::VERSION@ + rest);
    assert(chars::occurs_at(markers::NS@, markers::VERSION@, 0));
    chars::lemma_occurs_in(markers::NS@, seq!['['], markers::VERSION@, rest);
    assert(line.last() == "%)]"@[2]);
    lemma_digits_are_line(a);
    lemma_digits_are_line(b);
    lemma_digits_are_line(c);
    lemma_add_is_line(seq!['['], markers::VERSION@);
    lemma_add_is_line(seq!['['] + markers::VERSION@, seq![' ']);
    let x1 = seq!['['] + markers::VERSION@ + seq![' '];
    lemma_add_is_line(x1, a);
    lemma_add_is_line(x1 + a, seq!['→']);
    lemma_add_is_line(x1 + a + seq!['→'], b);
    let x2 = x1 + a + seq!['→'] + b;
    lemma_add_is_line(x2, " bytes (-"@);
    lemma_add_is_line(x2 + " bytes (-"@, c);
    lemma_add_is_line(x2 + " bytes (-"@ + c, "%)]"@);
}

proof fn lemma_digits_are_line(s: Seq<char>)
    requires
        chars::all_digits(s),
    ensures
        lines::is_line(s),
{
    assert forall|j: int| 0 <= j < s.len() implies s[j] != '\n' by {
        assert(chars::is_digit(s[j]));
    }
}

proof fn lemma_add_is_line(a: Seq<char>, b: Seq<char>)
    requires
        lines::is_line(a),
        lines::is_line(b),
    ensures
        lines::is_line(a + b),
{
    assert forall|j: int| 0 <= j < (a + b).len() implies (a + b)[j] != '\n' by {
        if j >= a.len() {
            assert((a + b)[j] == b[j - a.len()]);
        }
    }
}

/// A result holds a marker, so that it can be told from an output.
pub proof fn lemma_result_is_crushed(output: Seq<char>, found: Option<(Seq<char>, Seq<char>)>)
    ensures
        match compressed(output, found) {
            Some((out, _)) => crushed(out),
            None => true,
        },
{
    if compressed(output, found) is Some {
        let size = chars::byte_len(output);
        let (body, _) = found->0;
        let line = provenance(size, chars::byte_len(body));
        lemma_provenance(size, chars::byte_len(body));
        chars::lemma_occurs_in(markers::NS@, seq![], line, seq!['\n'] + body);
        assert(headed(size, chars::byte_len(body), body) =~= seq![] + line + (seq!['\n'] + body));
    }
}

/// Nothing is compressed twice: a result that comes back as an output passes through,
/// whatever tool it comes from and whatever the transforms make of it.
pub proof fn lemma_never_compresses_twice(
    output: Seq<char>,
    found: Option<(Seq<char>, Seq<char>)>,
    again: Option<(Seq<char>, Seq<char>)>,
)
    ensures
        match compressed(output, found) {
            Some((out, _)) => compressed(out, again) is None,
            None => true,
        },
{
    lemma_result_is_crushed(output, found);
}

/// A text without a marker begins with none.
pub proof fn lemma_no_marker_line(text: Seq<char>, marker: Seq<char>, i: int)
    requires
        !crushed(text),
        markers::NS@.is_prefix_of(marker),
        0 <= i < lines::lines(text).len(),
    ensures
        !marker.is_prefix_of(lines::lines(text)[i]),
    decreases text.len(),
{
    let ns = markers::NS@;
    let line = lines::lines(text)[i];
    chars::lemma_find_char(text, '\n');
    let k = chars::find_char(text, '\n') as int;
    if marker.is_prefix_of(line) {
        assert(ns =~= line.subrange(0, ns.len() as int)) by {
            assert forall|j: int| 0 <= j < ns.len() implies ns[j] == line[j] by {
                assert(ns[j] == marker.subrange(0, ns.len() as int)[j]);
                assert(marker[j] == line.subrange(0, marker.len() as int)[j]);
            }
        }
        if i == 0 {
            assert(text.subrange(0, ns.len() as int) =~= ns) by {
                assert forall|j: int| 0 <= j < ns.len() implies text[j] == ns[j] by {
                    assert(ns[j] == line.subrange(0, ns.len() as int)[j]);
                    assert(line[j] == text[j]);
                }
            }
            assert(chars::occurs_at(ns, text, 0));
        } else {
            let rest = text.skip(k + 1);
            assert(lines::lines(rest)[i - 1] == line);
            assert(!crushed(rest)) by {
                if crushed(rest) {
                    let head = text.take(k + 1);
                    chars::lemma_occurs_in(ns, head, rest, seq![]);
                    assert(head + rest + seq![] =~= text);
                }
            }
            lemma_no_marker_line(rest, marker, i - 1);
        }
    }
}

/// The lossless contract of the whole pipeline: unfolding what [`compress`] gives of the
/// output of a columnar tool restores the rows, with every field value and every tail as
/// it was, below the line that the tool's output began with or, where it had none, below
/// the provenance line.
pub proof fn lemma_columnar_result_unfolds(
    tool_name: Seq<char>,
    command: Seq<char>,
    output: Seq<char>,
    tool: schema::Tool,
)
    requires
        schema::tool_for(tool_name, command) == Some(tool),
        model::folded(output, schema::layout_of(tool)) is Some,
        pipeline(tool_name, command, output) is Some,
    ensures
        ({
            let layout = schema::layout_of(tool);
            let body = model::folded(output, layout)->0;
            let (out, label) = pipeline(tool_name, command, output)->0;
            let rows = lossless::restored_lines(output, layout);
            &&& label == schema::label_of(tool)
            &&& model::unfolded(out) == Some(
                lines::join_lines(
                    if model::preamble(output, layout).len() == 0 {
                        seq![provenance(chars::byte_len(output), chars::byte_len(body))] + rows
                    } else {
                        rows
                    },
                ),
            )
        }),
{
    let layout = schema::layout_of(tool);
    let body = model::folded(output, layout)->0;
    let line = provenance(chars::byte_len(output), chars::byte_len(body));
    let notes = seq![line];
    let (out, _) = pipeline(tool_name, command, output)->0;
    schema::lemma_layouts_are_well_named(tool);
    lemma_provenance(chars::byte_len(output), chars::byte_len(body));
    markers::lemma_columnar_markers();
    let pre = model::preamble(output, layout);
    assert forall|i: int| 0 <= i < pre.len() implies {
        let held = #[trigger] pre[i];
        !model::is_header_line(held) && !model::is_dict_line(held)
    } by {
        assert(pre[i] == lines::lines(output)[i]);
        lemma_no_marker_line(output, markers::COLS@, i);
        lemma_no_marker_line(output, markers::DICT@, i);
    }
    lossless::lemma_unfold_with_notes(output, layout, notes);
    let wire = model::folded_lines(output, layout);
    let all = notes + wire;
    assert(all.skip(1) =~= wire);
    assert(wire.len() > 0);
    assert(all.last() == wire.last());
    lines::lemma_end_lines_head(all);
    assert(model::wire_text(all) =~= out);
    assert(notes.last() == line);
}

// ---- executable ----

/// Whether the text holds a marker of the format: it is, or holds, a result.
#[must_use]
pub fn looks_crushed(s: &str) -> (r: bool)
    ensures
        r == crushed(s@),
{
    chars::has_part(chars::to_chars(s).as_slice(), chars::to_chars(markers::NS).as_slice())
}

/// Puts the provenance line before a text.
pub fn with_header(before: usize, after: usize, body: &str) -> (r: String)
    requires
        0 < before,
        after <= before,
    ensures
        r@ == headed(before as nat, after as nat, body@),
{
    let saved: u128 = (before - after) as u128;
    proof {
        assert(saved * 100 / before as int <= 100) by (nonlinear_arith)
            requires
                0 <= saved <= before,
                0 < before,
        ;
        assert(0 <= saved * 100 / before as int) by (nonlinear_arith)
            requires
                0 <= saved,
                0 < before,
        ;
    }
    let pct: u64 = (saved * 100 / before as u128) as u64;
    let mut out: Vec<char> = Vec::new();
    out.push('[');
    chars::append_str(&mut out, markers::VERSION);
    out.push(' ');
    chars::append_decimal(&mut out, before as u64);
    out.push('→');
    chars::append_decimal(&mut out, after as u64);
    chars::append_str(&mut out, " bytes (-");
    chars::append_decimal(&mut out, pct);
    chars::append_str(&mut out, "%)]");
    out.push('\n');
    chars::append_str(&mut out, body);
    proof {
        assert(pct == percent(before as nat, after as nat));
        assert(out@ =~= headed(before as nat, after as nat, body@));
    }
    chars::to_text(out.as_slice())
}

/// What is made of an output, given what the transforms make of it.
#[must_use]
pub fn finish(output: &str, found: Option<(String, &'static str)>) -> (r: Option<
    (String, &'static str),
>)
    requires
        match found {
            Some((body, _)) => chars::byte_len(body@) <= chars::byte_len(output@),
            None => true,
        },
    ensures
        transforms::labeled_view(r) == compressed(output@, transforms::labeled_view(found)),
{
    let size = chars::byte_length(output);
    if size < MIN_RAW_BYTES || looks_crushed(output) {
        return None;
    }
    match found {
        None => None,
        Some((body, label)) => {
            let whole = with_header(size, chars::byte_length(body.as_str()), body.as_str());
            if chars::byte_length(whole.as_str()) > size - MIN_BYTES_SAVED {
                None
            } else {
                Some((whole, label))
            }
        },
    }
}

/// The command that a tool's input holds; empty where it holds none.
pub fn command<'a>(tool_input: &'a Value) -> (r: &'a str)
    ensures
        r@ == command_of(json::contents(*tool_input)),
{
    json::text_or_empty(tool_input, "command")
}

/// [`compress_labeled`] with the command instead of the tool's input.
#[must_use]
pub fn compress_command(tool_name: &str, command: &str, output: &str) -> (r: Option<
    (String, &'static str),
>)
    ensures
        transforms::labeled_view(r) == pipeline(tool_name@, command@, output@),
{
    if chars::byte_length(output) < MIN_RAW_BYTES || looks_crushed(output) {
        return None;
    }
    let found = transforms::run_labeled(tool_name, command, output);
    proof {
        transforms::lemma_picked_shrinks(
            tool_name@,
            command@,
            output@,
            transforms::table_of(output@),
        );
    }
    finish(output, found)
}

/// Like [`compress`], and gives the label under which the savings are counted: `ls`, `ps`
/// or `git_log` for the output of those tools, `tabular` for a table, `text` for a text
/// that was cleaned up.
#[must_use]
pub fn compress_labeled(tool_name: &str, tool_input: &Value, output: &str) -> (r: Option<
    (String, &'static str),
>)
    ensures
        transforms::labeled_view(r) == pipeline(
            tool_name@,
            command_of(json::contents(*tool_input)),
            output@,
        ),
{
    compress_command(tool_name, command(tool_input), output)
}

/// Compresses a tool call's output. Gives the smaller text, below a line that says by how
/// much it was shrunk; `None` where the output is small, holds a marker of the format, or
/// does not get smaller by enough.
#[must_use]
pub fn compress(tool_name: &str, tool_input: &Value, output: &str) -> (r: Option<String>)
    ensures
        transforms::option_view(r) == match pipeline(
            tool_name@,
            command_of(json::contents(*tool_input)),
            output@,
        ) {
            Some((out, _)) => Some(out),
            None => None,
        },
{
    match compress_labeled(tool_name, tool_input, output) {
        Some((out, _)) => Some(out),
        None => None,
    }
}

} // verus!
