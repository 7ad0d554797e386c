//! The schemas of the tools whose output is columnar.
//!
//! A tool is recognised by its name, or by the first word of the command that a shell
//! tool runs. Taking the wrong schema is safe: [`crate::transforms::columnar::fold`]
//! does not fold a text that does not have the shape of the schema.
use vstd::prelude::*;
use crate::chars;
use crate::lines;
use crate::transforms::columnar::lossless;
use crate::transforms::columnar::model::{Delim, Layout, Schema};

verus! {

/// A tool whose output is columnar.
#[derive(Clone, Copy, Debug, PartialEq, Eq, Structural)]
pub enum Tool {
    /// `ls -lah`.
    Ls,
    /// `ps aux`.
    Ps,
    /// `git log --pretty=format:%H|%an|%ae|%ad|%s`.
    GitLog,
}

/// The columns of a tool's output.
pub open spec fn layout_of(tool: Tool) -> Layout {
    match tool {
        Tool::Ls => Layout {
            cols: seq![
                "perms"@,
                "links"@,
                "owner"@,
                "group"@,
                "size"@,
                "month"@,
                "day"@,
                "time"@,
            ],
            tail: "name"@,
            delim: Delim::Whitespace,
            skip_total: true,
            skip_header: false,
        },
        Tool::Ps => Layout {
            cols: seq![
                "USER"@,
                "PID"@,
                "%CPU"@,
                "%MEM"@,
                "VSZ"@,
                "RSS"@,
                "TTY"@,
                "STAT"@,
                "START"@,
                "TIME"@,
            ],
            tail: "COMMAND"@,
            delim: Delim::Whitespace,
            skip_total: false,
            skip_header: true,
        },
        Tool::GitLog => Layout {
            cols: seq!["sha"@, "author"@, "email"@, "date"@],
            tail: "subject"@,
            delim: Delim::Char('|'),
            skip_total: false,
            skip_header: false,
        },
    }
}

/// The label under which a tool's savings are counted.
pub open spec fn label_of(tool: Tool) -> Seq<char> {
    match tool {
        Tool::Ls => "ls"@,
        Tool::Ps => "ps"@,
        Tool::GitLog => "git_log"@,
    }
}

/// What stands behind the last path separator.
pub open spec fn base_name(path: Seq<char>) -> Seq<char>
    decreases path.len(),
{
    let k = chars::find_char(path, '/') as int;
    if k >= path.len() {
        path
    } else {
        base_name(path.skip(k + 1))
    }
}

/// The program that a command of these words runs: the first word that is no variable
/// assignment, without its directory.
pub open spec fn program(words: Seq<Seq<char>>) -> Seq<char>
    decreases words.len(),
{
    if words.len() == 0 {
        seq![]
    } else if chars::find_char(words[0], '=') < words[0].len() {
        program(words.skip(1))
    } else {
        base_name(words[0])
    }
}

/// The tool whose output a tool call gives, where it is one with a schema.
pub open spec fn tool_for(tool_name: Seq<char>, command: Seq<char>) -> Option<Tool> {
    let run = program(lines::words(command));
    if tool_name == "ls"@ {
        Some(Tool::Ls)
    } else if tool_name != "bash"@ && tool_name != "shell"@ && tool_name != "shell_send"@ {
        None
    } else if run == "ls"@ {
        Some(Tool::Ls)
    } else if run == "ps"@ {
        Some(Tool::Ps)
    } else if run == "git"@ && chars::occurs("log"@, command) {
        Some(Tool::GitLog)
    } else {
        None
    }
}

/// The names of every layout can be read back, so that what the columnar laws promise
/// holds of each of these tools.
pub proof fn lemma_layouts_are_well_named(tool: Tool)
    ensures
        lossless::well_named(layout_of(tool)),
{
    match tool {
        Tool::Ls => {
            reveal_strlit("perms");
            reveal_strlit("links");
            reveal_strlit("owner");
            reveal_strlit("group");
            reveal_strlit("size");
            reveal_strlit("month");
            reveal_strlit("day");
            reveal_strlit("time");
            reveal_strlit("name");
            assert("perms"@[0] == 'p' && "links"@[0] == 'l' && "owner"@[0] == 'o' && "group"@[0]
                == 'g' && "size"@[0] == 's' && "month"@[0] == 'm' && "day"@[0] == 'd' && "time"@[0]
                == 't');
        },
        Tool::Ps => {
            reveal_strlit("USER");
            reveal_strlit("PID");
            reveal_strlit("%CPU");
            reveal_strlit("%MEM");
            reveal_strlit("VSZ");
            reveal_strlit("RSS");
            reveal_strlit("TTY");
            reveal_strlit("STAT");
            reveal_strlit("START");
            reveal_strlit("TIME");
            reveal_strlit("COMMAND");
            assert("USER"@[0] == 'U' && "PID"@[0] == 'P' && "%CPU"@[1] == 'C' && "%MEM"@[1] == 'M'
                && "VSZ"@[0] == 'V' && "RSS"@[0] == 'R' && "TTY"@[1] == 'T' && "STAT"@.len() == 4
                && "START"@.len() == 5 && "TIME"@[1] == 'I');
        },
        Tool::GitLog => {
            reveal_strlit("sha");
            reveal_strlit("author");
            reveal_strlit("email");
            reveal_strlit("date");
            reveal_strlit("subject");
            assert("sha"@[0] == 's' && "author"@[0] == 'a' && "email"@[0] == 'e' && "date"@[0]
                == 'd');
        },
    }
}

/// No two tools have the same label.
pub proof fn lemma_labels_differ(a: Tool, b: Tool)
    requires
        label_of(a) == label_of(b),
    ensures
        a == b,
{
    reveal_strlit("ls");
    reveal_strlit("ps");
    reveal_strlit("git_log");
    assert("ls"@[0] == 'l' && "ps"@[0] == 'p' && "git_log"@[0] == 'g');
}

impl Tool {
    /// The schema of the tool's output.
    pub fn schema(self) -> (r: Schema)
        ensures
            r@ == layout_of(self),
    {
        match self {
            Tool::Ls => {
                let s = Schema {
                    cols: &["perms", "links", "owner", "group", "size", "month", "day", "time"],
                    tail: "name",
                    delim: Delim::Whitespace,
                    skip_total: true,
                    skip_header: false,
                };
                proof {
                    assert(s@.cols =~= layout_of(self).cols);
                }
                s
            },
            Tool::Ps => {
                let s = Schema {
                    cols: &[
                        "USER",
                        "PID",
                        "%CPU",
                        "%MEM",
                        "VSZ",
                        "RSS",
                        "TTY",
                        "STAT",
                        "START",
                        "TIME",
                    ],
                    tail: "COMMAND",
                    delim: Delim::Whitespace,
                    skip_total: false,
                    skip_header: true,
                };
                proof {
                    assert(s@.cols =~= layout_of(self).cols);
                }
                s
            },
            Tool::GitLog => {
                let s = Schema {
                    cols: &["sha", "author", "email", "date"],
                    tail: "subject",
                    delim: Delim::Char('|'),
                    skip_total: false,
                    skip_header: false,
                };
                proof {
                    assert(s@.cols =~= layout_of(self).cols);
                }
                s
            },
        }
    }

    /// The label under which the tool's savings are counted.
    pub fn label(self) -> (r: &'static str)
        ensures
            r@ == label_of(self),
    {
        match self {
            Tool::Ls => "ls",
            Tool::Ps => "ps",
            Tool::GitLog => "git_log",
        }
    }
}

/// The program that a command runs, behind any variable assignments.
fn leading_program<'a>(command: &'a [char]) -> (r: &'a [char])
    ensures
        r@ == program(lines::words(command@)),
{
    let words = lines::split_words(command);
    let ghost all = lines::words(command@);
    let mut i: usize = 0;
    proof {
        assert(all.skip(0) =~= all);
    }
    while i < words.len()
        invariant
            i <= words@.len(),
            all == chars::views(words@),
            all == lines::words(command@),
            program(all) == program(all.skip(i as int)),
        decreases words@.len() - i,
    {
        let word = words[i];
        proof {
            assert(all.skip(i as int)[0] == word@);
            assert(all.skip(i as int).skip(1) =~= all.skip(i as int + 1));
        }
        if chars::index_of(word, '=') == word.len() {
            return file_name(word);
        }
        i = i + 1;
    }
    vstd::slice::slice_subrange(command, 0, 0)
}

/// What stands behind the last path separator.
fn file_name<'a>(path: &'a [char]) -> (r: &'a [char])
    ensures
        r@ == base_name(path@),
{
    let mut rest: &'a [char] = path;
    let mut k = chars::index_of(rest, '/');
    while k < rest.len()
        invariant
            k == chars::find_char(rest@, '/'),
            k <= rest@.len(),
            base_name(path@) == base_name(rest@),
        decreases rest@.len(),
    {
        let ghost before = rest@;
        rest = vstd::slice::slice_subrange(rest, k + 1, rest.len());
        proof {
            assert(rest@ =~= before.skip(k as int + 1));
        }
        k = chars::index_of(rest, '/');
    }
    rest
}

/// The tool whose output a tool call gives.
pub fn recognise(tool_name: &str, command: &str) -> (r: Option<Tool>)
    ensures
        r == tool_for(tool_name@, command@),
{
    if chars::same_str(tool_name, "ls") {
        return Some(Tool::Ls);
    }
    if !chars::same_str(tool_name, "bash") && !chars::same_str(tool_name, "shell")
        && !chars::same_str(tool_name, "shell_send") {
        return None;
    }
    let given = chars::to_chars(command);
    let run = leading_program(given.as_slice());
    if chars::same(run, chars::to_chars("ls").as_slice()) {
        Some(Tool::Ls)
    } else if chars::same(run, chars::to_chars("ps").as_slice()) {
        Some(Tool::Ps)
    } else if chars::same(run, chars::to_chars("git").as_slice()) && chars::has_part(
        given.as_slice(),
        chars::to_chars("log").as_slice(),
    ) {
        Some(Tool::GitLog)
    } else {
        None
    }
}

/// The schema of a tool call's output; `None` where there is no specialist for it.
#[must_use]
pub fn schema_for(tool_name: &str, command: &str) -> (r: Option<Schema>)
    ensures
        match (r, tool_for(tool_name@, command@)) {
            (Some(schema), Some(tool)) => schema@ == layout_of(tool),
            (None, None) => true,
            _ => false,
        },
{
    match recognise(tool_name, command) {
        Some(tool) => Some(tool.schema()),
        None => None,
    }
}

/// The label under which a tool call's savings are counted: that of the tool whose
/// schema [`schema_for`] gives, and `columnar` where it gives none.
#[must_use]
pub fn label_for(tool_name: &str, command: &str) -> (r: &'static str)
    ensures
        r@ == match tool_for(tool_name@, command@) {
            Some(tool) => label_of(tool),
            None => "columnar"@,
        },
{
    match recognise(tool_name, command) {
        Some(tool) => tool.label(),
        None => "columnar",
    }
}

} // verus!
