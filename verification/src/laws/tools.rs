//! Which tools are recognised, what their output is made of, and when it is compressed.
use vstd::prelude::*;
use crate::chars;
use crate::compress;
use crate::json;
use crate::json::Json;
use crate::laws::characters;
use crate::laws::columns;
use crate::lines;
use crate::markers;
use crate::transforms;
use crate::transforms::columnar::model;
use crate::transforms::columnar::model::Delim;
use crate::transforms::schema;
use crate::transforms::schema::Tool;
use crate::transforms::text;

verus! {

// ---- tools ----

/// What stands behind the last path separator of a path.
proof fn lemma_base_name(dir: Seq<char>, name: Seq<char>)
    requires
        dir.len() > 0 ==> dir.last() == '/',
        forall|j: int| 0 <= j < name.len() ==> #[trigger] name[j] != '/',
    ensures
        schema::base_name(dir + name) == name,
    decreases dir.len(),
{
    let path = dir + name;
    if dir.len() == 0 {
        assert(path =~= name);
        chars::lemma_find_char_is(name, '/', name.len());
    } else {
        chars::lemma_find_char(path, '/');
        let k = chars::find_char(path, '/') as int;
        assert(k < dir.len()) by {
            if k >= dir.len() {
                assert(path[dir.len() - 1] == '/');
            }
        }
        let rest = dir.skip(k + 1);
        assert(path.skip(k + 1) =~= rest + name);
        if rest.len() > 0 {
            assert(rest.last() == dir.last());
        }
        lemma_base_name(rest, name);
    }
}

/// A shell runs the program that the first word of its command names that is no variable
/// assignment, whatever directory it is in. `ls` and `ps` are recognised, and `git` where
/// the command speaks of the log.
pub proof fn lemma_programs_are_recognised(
    tool_name: Seq<char>,
    command: Seq<char>,
    assigned: Seq<Seq<char>>,
    dir: Seq<char>,
    name: Seq<char>,
    rest: Seq<Seq<char>>,
)
    requires
        tool_name == "bash"@ || tool_name == "shell"@ || tool_name == "shell_send"@,
        lines::words(command) == assigned + seq![dir + name] + rest,
        forall|i: int| 0 <= i < assigned.len() ==> (#[trigger] assigned[i]).contains('='),
        !(dir + name).contains('='),
        dir.len() > 0 ==> dir.last() == '/',
        forall|j: int| 0 <= j < name.len() ==> #[trigger] name[j] != '/',
    ensures
        schema::tool_for(tool_name, command) == if name == "ls"@ {
            Some(Tool::Ls)
        } else if name == "ps"@ {
            Some(Tool::Ps)
        } else if name == "git"@ && exists|a: Seq<char>, b: Seq<char>|
            command == #[trigger] (a + "log"@ + b) {
            Some(Tool::GitLog)
        } else {
            None
        },
{
    lemma_tool_names();
    lemma_program(assigned, dir + name, rest);
    lemma_base_name(dir, name);
    characters::lemma_occurs_between("log"@, command);
}

proof fn lemma_tool_names()
    ensures
        "ls"@ != "bash"@,
        "ls"@ != "shell"@,
        "ls"@ != "shell_send"@,
{
    reveal_strlit("ls");
    reveal_strlit("bash");
    reveal_strlit("shell");
    reveal_strlit("shell_send");
    assert("ls"@.len() == 2 && "bash"@.len() == 4 && "shell"@.len() == 5 && "shell_send"@.len()
        == 10);
}

proof fn lemma_program(assigned: Seq<Seq<char>>, word: Seq<char>, rest: Seq<Seq<char>>)
    requires
        forall|i: int| 0 <= i < assigned.len() ==> (#[trigger] assigned[i]).contains('='),
        !word.contains('='),
    ensures
        schema::program(assigned + seq![word] + rest) == schema::base_name(word),
    decreases assigned.len(),
{
    let all = assigned + seq![word] + rest;
    if assigned.len() == 0 {
        assert(all[0] == word);
        chars::lemma_find_char(word, '=');
        let k = chars::find_char(word, '=') as int;
        if k < word.len() {
            assert(word.contains('='));
        }
    } else {
        let more = assigned.skip(1);
        assert(assigned[0].contains('='));
        let j = choose|j: int| 0 <= j < assigned[0].len() && assigned[0][j] == '=';
        chars::lemma_find_char(assigned[0], '=');
        assert(all[0] == assigned[0]);
        assert(chars::find_char(all[0], '=') < all[0].len());
        assert forall|i: int| 0 <= i < more.len() implies (#[trigger] more[i]).contains('=') by {
            assert(more[i] == assigned[i + 1]);
        }
        lemma_program(more, word, rest);
        assert(all.skip(1) =~= more + seq![word] + rest);
    }
}

/// A command of nothing but variable assignments runs no program, the tool `ls` needs no
/// command, and no other tool is recognised.
pub proof fn lemma_other_tools(tool_name: Seq<char>, command: Seq<char>)
    ensures
        tool_name == "ls"@ ==> schema::tool_for(tool_name, command) == Some(Tool::Ls),
        tool_name != "ls"@ && tool_name != "bash"@ && tool_name != "shell"@ && tool_name
            != "shell_send"@ ==> schema::tool_for(tool_name, command) is None,
        tool_name != "ls"@ && (forall|i: int|
            0 <= i < lines::words(command).len() ==> (#[trigger] lines::words(
                command,
            )[i]).contains('=')) ==> schema::tool_for(tool_name, command) is None,
{
    if forall|i: int|
        0 <= i < lines::words(command).len() ==> (#[trigger] lines::words(command)[i]).contains(
            '=',
        ) {
        lemma_no_program(lines::words(command));
        reveal_strlit("ls");
        reveal_strlit("ps");
        reveal_strlit("git");
        assert("ls"@.len() == 2 && "ps"@.len() == 2 && "git"@.len() == 3);
    }
}

proof fn lemma_no_program(words: Seq<Seq<char>>)
    requires
        forall|i: int| 0 <= i < words.len() ==> (#[trigger] words[i]).contains('='),
    ensures
        schema::program(words).len() == 0,
    decreases words.len(),
{
    if words.len() > 0 {
        let more = words.skip(1);
        assert(words[0].contains('='));
        let j = choose|j: int| 0 <= j < words[0].len() && words[0][j] == '=';
        chars::lemma_find_char(words[0], '=');
        assert forall|i: int| 0 <= i < more.len() implies (#[trigger] more[i]).contains('=') by {
            assert(more[i] == words[i + 1]);
        }
        lemma_no_program(more);
    }
}

/// The columns of the tools, as a listing would name them, and the labels under which their
/// savings are counted.
pub proof fn lemma_tool_columns()
    ensures
        ({
            let ls = schema::layout_of(Tool::Ls);
            let ps = schema::layout_of(Tool::Ps);
            let log = schema::layout_of(Tool::GitLog);
            &&& ls.cols.len() == 8 && ls.delim is Whitespace && ls.skip_total && !ls.skip_header
            &&& ps.cols.len() == 10 && ps.delim is Whitespace && !ps.skip_total && ps.skip_header
            &&& log.cols.len() == 4 && log.delim == Delim::Char('|') && !log.skip_total
                && !log.skip_header
            &&& ls.cols.push(ls.tail) == seq![
                "perms"@,
                "links"@,
                "owner"@,
                "group"@,
                "size"@,
                "month"@,
                "day"@,
                "time"@,
                "name"@,
            ]
            &&& ps.cols.push(ps.tail) == seq![
                "USER"@,
                "PID"@,
                "%CPU"@,
                "%MEM"@,
                "VSZ"@,
                "RSS"@,
                "TTY"@,
                "STAT"@,
                "START"@,
                "TIME"@,
                "COMMAND"@,
            ]
            &&& log.cols.push(log.tail) == seq!["sha"@, "author"@, "email"@, "date"@, "subject"@]
        }),
        schema::label_of(Tool::Ls) == "ls"@,
        schema::label_of(Tool::Ps) == "ps"@,
        schema::label_of(Tool::GitLog) == "git_log"@,
{
    let ls = schema::layout_of(Tool::Ls);
    let ps = schema::layout_of(Tool::Ps);
    let log = schema::layout_of(Tool::GitLog);
    assert(ls.cols.push(ls.tail) =~= seq![
        "perms"@,
        "links"@,
        "owner"@,
        "group"@,
        "size"@,
        "month"@,
        "day"@,
        "time"@,
        "name"@,
    ]);
    assert(ps.cols.push(ps.tail) =~= seq![
        "USER"@,
        "PID"@,
        "%CPU"@,
        "%MEM"@,
        "VSZ"@,
        "RSS"@,
        "TTY"@,
        "STAT"@,
        "START"@,
        "TIME"@,
        "COMMAND"@,
    ]);
    assert(log.cols.push(log.tail) =~= seq![
        "sha"@,
        "author"@,
        "email"@,
        "date"@,
        "subject"@,
    ]);
}

// ---- listings ----

/// Nothing of a listing is lost but padding. Unfolding what the output of `ls`, `ps` or
/// `git log` was folded into gives as many lines, each in its place: the `total` line of
/// `ls`, the header line of `ps` and every line of a log as they were, and every file and
/// every process with the same words, its name or command as it was.
pub proof fn lemma_listing_comes_back(tool: Tool, text: Seq<char>, out: Seq<char>)
    requires
        !exists|a: Seq<char>, b: Seq<char>| text == #[trigger] (a + "@crush/"@ + b),
        model::folded(text, schema::layout_of(tool)) == Some(out),
    ensures
        model::unfolded(out) is Some,
        chars::byte_len(out) < chars::byte_len(text),
        ({
            let given = lines::lines(text);
            let back = lines::lines(model::unfolded(out)->0);
            &&& back.len() == given.len()
            &&& forall|i: int|
                0 <= i < given.len() ==> match tool {
                    Tool::GitLog => #[trigger] back[i] == given[i],
                    Tool::Ps => if i == 0 {
                        back[i] == given[i]
                    } else {
                        columns::comes_back(given[i], back[i], 10)
                    },
                    Tool::Ls => if i == 0 && "total "@.is_prefix_of(given[0]) {
                        back[i] == given[i]
                    } else {
                        columns::comes_back(given[i], back[i], 8)
                    },
                }
        }),
{
    let layout = schema::layout_of(tool);
    schema::lemma_layouts_are_well_named(tool);
    characters::lemma_occurs_between("@crush/"@, text);
    reveal_strlit("@crush/1.");
    reveal_strlit("@crush/");
    assert("@crush/"@ =~= "@crush/1."@.subrange(0, 7));
    assert forall|i: int| 0 <= i < lines::lines(text).len() implies !"@crush/1."@.is_prefix_of(
        #[trigger] lines::lines(text)[i],
    ) by {
        compress::lemma_no_marker_line(text, "@crush/1."@, i);
    }
    columns::lemma_every_line_comes_back(text, layout, out);
    columns::lemma_shape_decides(text, layout);
}

// ---- the pipeline ----

/// An output is compressed where it has at least 2048 bytes, holds no marker, and some
/// transform makes it smaller by at least 256 bytes, the line that says so counted in. That
/// line gives the bytes before and after, and the share that was saved, in percent and
/// rounded down.
pub proof fn lemma_outputs_are_compressed(
    output: Seq<char>,
    body: Seq<char>,
    label: Seq<char>,
    share: nat,
)
    requires
        chars::byte_len(body) <= chars::byte_len(output),
        share * chars::byte_len(output) <= 100 * (chars::byte_len(output) - chars::byte_len(body)),
        100 * (chars::byte_len(output) - chars::byte_len(body)) < (share + 1) * chars::byte_len(
            output,
        ),
    ensures
        compress::compressed(output, None) is None,
        ({
            let size = chars::byte_len(output);
            let whole = "[@crush/1 "@ + chars::decimal(size) + seq!['→'] + chars::decimal(
                chars::byte_len(body),
            ) + " bytes (-"@ + chars::decimal(share) + "%)]\n"@ + body;
            compress::compressed(output, Some((body, label))) == if size >= 2048
                && chars::byte_len(whole) + 256 <= size && !exists|a: Seq<char>, b: Seq<char>|
                output == #[trigger] (a + "@crush/"@ + b) {
                Some((whole, label))
            } else {
                None
            }
        }),
{
    let size = chars::byte_len(output);
    let after = chars::byte_len(body);
    characters::lemma_occurs_between("@crush/"@, output);
    assert(compress::percent(size, after) == share) by (nonlinear_arith)
        requires
            compress::percent(size, after) == ((size - after) * 100 / size as int) as nat,
            share * size <= 100 * (size - after),
            100 * (size - after) < (share + 1) * size,
            after <= size,
    ;
    reveal_strlit("[@crush/1 ");
    reveal_strlit("@crush/1");
    reveal_strlit("%)]\n");
    reveal_strlit("%)]");
    reveal_strlit(" bytes (-");
    assert(seq!['['] + markers::VERSION@ + seq![' '] =~= "[@crush/1 "@);
    assert("%)]"@ + seq!['\n'] =~= "%)]\n"@);
    let whole = "[@crush/1 "@ + chars::decimal(size) + seq!['→'] + chars::decimal(after)
        + " bytes (-"@ + chars::decimal(share) + "%)]\n"@ + body;
    assert(compress::headed(size, after, body) =~= whole);
}

/// The transforms are tried in order, and the first that helps is taken: the columnar fold
/// of a tool that is recognised, the table where it is smaller, the cleaned-up text where
/// it is smaller.
pub proof fn lemma_first_transform_that_helps(
    tool_name: Seq<char>,
    command: Seq<char>,
    output: Seq<char>,
    table: Option<Seq<char>>,
)
    ensures
        ({
            let tool = schema::tool_for(tool_name, command);
            let size = chars::byte_len(output);
            let fold = model::folded(output, schema::layout_of(tool->0));
            let folds = tool is Some && fold is Some;
            let tables = table is Some && chars::byte_len(table->0) < size;
            let cleans = chars::byte_len(text::cleaned(output)) < size;
            let found = transforms::picked(tool_name, command, output, table);
            &&& folds ==> found == Some((fold->0, schema::label_of(tool->0)))
            &&& !folds && tables ==> found == Some((table->0, "tabular"@))
            &&& !folds && !tables && cleans ==> found == Some((text::cleaned(output), "text"@))
            &&& !folds && !tables && !cleans ==> found is None
            &&& found is Some ==> chars::byte_len((found->0).0) < size
        }),
{
}

/// Of several candidates the smallest is taken that is smaller than the limit, and of
/// several that are as small the first.
pub proof fn lemma_smallest_candidate(
    candidates: Seq<Option<Seq<char>>>,
    more: Option<Seq<char>>,
    size: nat,
)
    ensures
        transforms::smallest_of(Seq::empty(), size) is None,
        ({
            let best = transforms::smallest_of(candidates, size);
            let limit = if best is Some {
                chars::byte_len(best->0)
            } else {
                size
            };
            transforms::smallest_of(candidates.push(more), size) == if more is Some
                && chars::byte_len(more->0) < limit {
                more
            } else {
                best
            }
        }),
{
    assert(candidates.push(more).drop_last() =~= candidates);
}

/// A text that may be missing is seen as it is, and so is its label.
pub proof fn lemma_results_are_seen(t: String, label: &'static str, texts: Seq<Option<String>>)
    ensures
        transforms::option_view(Some(t)) == Some(t@),
        transforms::option_view(None) is None,
        transforms::labeled_view(Some((t, label))) == Some((t@, label@)),
        transforms::labeled_view(None) is None,
        transforms::option_views(texts).len() == texts.len(),
        forall|i: int|
            0 <= i < texts.len() ==> #[trigger] transforms::option_views(texts)[i]
                == transforms::option_view(texts[i]),
{
}

/// The whole pipeline is the transforms on the output, with its own table, and then the
/// limits on what they give.
pub proof fn lemma_pipeline(tool_name: Seq<char>, command: Seq<char>, output: Seq<char>)
    ensures
        compress::pipeline(tool_name, command, output) == compress::compressed(
            output,
            transforms::picked(
                tool_name,
                command,
                output,
                match json::parsed(chars::trim(output)) {
                    Some(value) => crate::transforms::tabular::folded(value),
                    None => None,
                },
            ),
        ),
{
}

/// The command of a tool's input is the text of its member `command`.
pub proof fn lemma_commands_are_read(members: Seq<(Seq<char>, Json)>, k: int, input: Json)
    requires
        0 <= k <= members.len(),
        forall|j: int| 0 <= j < k ==> (#[trigger] members[j]).0 != "command"@,
        k < members.len() ==> members[k].0 == "command"@,
    ensures
        compress::command_of(Json::Object(members)) == if k < members.len() && members[k].1 is Text {
            members[k].1->Text_0
        } else {
            seq![]
        },
        !(input is Object) ==> compress::command_of(input) == Seq::<char>::empty(),
{
    lemma_members_are_found(members, k, "command"@);
}

/// The member with a key is the first one with that key.
pub proof fn lemma_members_are_found(members: Seq<(Seq<char>, Json)>, k: int, key: Seq<char>)
    requires
        0 <= k <= members.len(),
        forall|j: int| 0 <= j < k ==> (#[trigger] members[j]).0 != key,
        k < members.len() ==> members[k].0 == key,
    ensures
        json::member_of(Json::Object(members), key) == if k < members.len() {
            Some(members[k].1)
        } else {
            None
        },
        json::lookup(members, key) == json::member_of(Json::Object(members), key),
    decreases k,
{
    if k > 0 {
        let rest = members.skip(1);
        assert(members[0].0 != key);
        assert forall|j: int| 0 <= j < k - 1 implies (#[trigger] rest[j]).0 != key by {
            assert(rest[j] == members[j + 1]);
        }
        lemma_members_are_found(rest, k - 1, key);
    }
}

} // verus!
