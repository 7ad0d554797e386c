//! The clean-up of logs: escape sequences, trailing whitespace, blank and repeated lines,
//! and encoded data.
use vstd::prelude::*;
use crate::chars;
use crate::laws::characters;
use crate::lines;
use crate::transforms::text;
use crate::transforms::text::blobs;
use crate::transforms::text::escapes;
use crate::transforms::text::prefix;
use crate::transforms::text::runs;

verus! {

// ---- escape sequences ----

/// A control sequence takes exactly its own characters away: the escape character, the
/// bracket, the parameters, and the final character, which is any from `@` to `~`.
pub proof fn lemma_control_sequence_goes(params: Seq<char>, last: char, rest: Seq<char>)
    requires
        forall|j: int| 0 <= j < params.len() ==> !('@' <= #[trigger] params[j] <= '~'),
        '@' <= last <= '~',
    ensures
        escapes::stripped(seq!['\u{1b}', '['] + params + seq![last] + rest) == escapes::stripped(
            rest,
        ),
        escapes::stripped(seq!['\u{1b}', '['] + params) == Seq::<char>::empty(),
{
    let s = seq!['\u{1b}', '['] + params + seq![last] + rest;
    let t = params + seq![last] + rest;
    assert(s.skip(2) =~= t);
    lemma_control_len(params, last, rest);
    assert(escapes::escape_len(s) == params.len() + 3);
    assert(s.skip(params.len() as int + 3) =~= rest);
    let u = seq!['\u{1b}', '['] + params;
    assert(u.skip(2) =~= params);
    assert(escapes::escape_len(u) == u.len());
    assert(u.skip(u.len() as int) =~= Seq::<char>::empty());
    assert(escapes::stripped(Seq::<char>::empty()) =~= Seq::<char>::empty());
}

proof fn lemma_control_len(params: Seq<char>, last: char, rest: Seq<char>)
    requires
        forall|j: int| 0 <= j < params.len() ==> !('@' <= #[trigger] params[j] <= '~'),
        '@' <= last <= '~',
    ensures
        escapes::control_len(params + seq![last] + rest) == params.len() + 1,
        escapes::control_len(params) == params.len(),
    decreases params.len(),
{
    let t = params + seq![last] + rest;
    if params.len() == 0 {
        assert(t[0] == last);
    } else {
        let more = params.skip(1);
        assert forall|j: int| 0 <= j < more.len() implies !('@' <= #[trigger] more[j] <= '~') by {
            assert(more[j] == params[j + 1]);
        }
        lemma_control_len(more, last, rest);
        assert(!('@' <= params[0] <= '~'));
        assert(t[0] == params[0]);
        assert(t.skip(1) =~= more + seq![last] + rest);
    }
}

/// An operating system command goes with all that it holds, up to the bell or the string
/// terminator that ends it; to the end of the text where nothing ends it.
pub proof fn lemma_system_command_goes(held: Seq<char>, rest: Seq<char>)
    requires
        forall|j: int| 0 <= j < held.len() ==> #[trigger] held[j] != '\u{7}',
        forall|j: int|
            0 <= j < held.len() - 1 && #[trigger] held[j] == '\u{1b}' ==> held[j + 1] != '\\',
    ensures
        escapes::stripped(seq!['\u{1b}', ']'] + held + seq!['\u{7}'] + rest) == escapes::stripped(
            rest,
        ),
        escapes::stripped(seq!['\u{1b}', ']'] + held + seq!['\u{1b}', '\\'] + rest)
            == escapes::stripped(rest),
        escapes::stripped(seq!['\u{1b}', ']'] + held) == Seq::<char>::empty(),
{
    let bell = seq!['\u{7}'];
    let string = seq!['\u{1b}', '\\'];
    let s = seq!['\u{1b}', ']'] + held + bell + rest;
    let t = seq!['\u{1b}', ']'] + held + string + rest;
    let u = seq!['\u{1b}', ']'] + held;
    lemma_command_len(held, rest);
    assert(s.skip(2) =~= held + bell + rest);
    assert(escapes::escape_len(s) == held.len() + 3);
    assert(s.skip(held.len() as int + 3) =~= rest);
    assert(t.skip(2) =~= held + string + rest);
    assert(escapes::escape_len(t) == held.len() + 4);
    assert(t.skip(held.len() as int + 4) =~= rest);
    assert(u.skip(2) =~= held);
    assert(escapes::escape_len(u) == u.len());
    assert(u.skip(u.len() as int) =~= Seq::<char>::empty());
    assert(escapes::stripped(Seq::<char>::empty()) =~= Seq::<char>::empty());
}

proof fn lemma_command_len(held: Seq<char>, rest: Seq<char>)
    requires
        forall|j: int| 0 <= j < held.len() ==> #[trigger] held[j] != '\u{7}',
        forall|j: int|
            0 <= j < held.len() - 1 && #[trigger] held[j] == '\u{1b}' ==> held[j + 1] != '\\',
    ensures
        escapes::command_len(held + seq!['\u{7}'] + rest) == held.len() + 1,
        escapes::command_len(held + seq!['\u{1b}', '\\'] + rest) == held.len() + 2,
        escapes::command_len(held) == held.len(),
    decreases held.len(),
{
    let bell = seq!['\u{7}'];
    let string = seq!['\u{1b}', '\\'];
    let s = held + bell + rest;
    let t = held + string + rest;
    if held.len() == 0 {
        assert(s[0] == '\u{7}');
        assert(t[0] == '\u{1b}' && t[1] == '\\');
    } else {
        let more = held.skip(1);
        assert forall|j: int| 0 <= j < more.len() implies #[trigger] more[j] != '\u{7}' by {
            assert(more[j] == held[j + 1]);
        }
        assert forall|j: int|
            0 <= j < more.len() - 1 && #[trigger] more[j] == '\u{1b}' implies more[j + 1]
            != '\\' by {
            assert(more[j] == held[j + 1]);
        }
        lemma_command_len(more, rest);
        assert(held[0] != '\u{7}');
        assert(s[0] == held[0] && t[0] == held[0]);
        assert(s.skip(1) =~= more + bell + rest);
        assert(t.skip(1) =~= more + string + rest);
        if held.len() > 1 {
            assert(s[1] == held[1] && t[1] == held[1]);
        } else {
            assert(s[1] == '\u{7}' && t[1] == '\u{1b}');
        }
    }
}

/// Any other escape is the escape character and the one character behind it. What is no
/// escape stays.
pub proof fn lemma_short_escape_goes(c: char, rest: Seq<char>)
    ensures
        escapes::stripped(Seq::<char>::empty()) == Seq::<char>::empty(),
        escapes::stripped(seq!['\u{1b}']) == Seq::<char>::empty(),
        c != '[' && c != ']' ==> escapes::stripped(seq!['\u{1b}', c] + rest) == escapes::stripped(
            rest,
        ),
        c != '\u{1b}' ==> escapes::stripped(seq![c] + rest) == seq![c] + escapes::stripped(rest),
{
    let one = seq!['\u{1b}'];
    assert(escapes::escape_len(one) == 1);
    assert(one.skip(1) =~= Seq::<char>::empty());
    assert(escapes::stripped(Seq::<char>::empty()) =~= Seq::<char>::empty());
    let s = seq!['\u{1b}', c] + rest;
    assert(s.skip(2) =~= rest);
    let t = seq![c] + rest;
    assert(t.skip(1) =~= rest);
}

// ---- line by line ----

/// The text of one more line before the lines of a text.
proof fn lemma_text_cons(x: Seq<char>, parts: Seq<Seq<char>>, rest: Seq<char>, s: Seq<char>)
    requires
        rest.len() == 0 <==> parts.len() == 0,
        lines::closed(s) == (rest.len() == 0 || lines::closed(rest)),
    ensures
        lines::text_of(seq![x] + parts, lines::closed(s)) == x + seq!['\n'] + lines::text_of(
            parts,
            lines::closed(rest),
        ),
{
    let all = seq![x] + parts;
    assert(all.skip(1) =~= parts);
    lines::lemma_end_lines_head(all);
    if rest.len() == 0 {
        assert(parts =~= seq![]);
        assert(lines::end_lines(parts) =~= seq![]);
        assert(lines::text_of(parts, false) =~= seq![]);
    }
}

/// A text that is not empty has a line.
proof fn lemma_has_line(s: Seq<char>)
    ensures
        s.len() == 0 <==> lines::lines(s).len() == 0,
{
}

/// `first` before a text, with a line feed between them.
proof fn lemma_first_line(first: Seq<char>, rest: Seq<char>)
    requires
        forall|j: int| 0 <= j < first.len() ==> #[trigger] first[j] != '\n',
    ensures
        ({
            let s = first + seq!['\n'] + rest;
            &&& lines::lines(s) == seq![lines::chomp(first)] + lines::lines(rest)
            &&& lines::closed(s) == (rest.len() == 0 || lines::closed(rest))
            &&& (rest.len() == 0 <==> lines::lines(rest).len() == 0)
        }),
{
    let s = first + seq!['\n'] + rest;
    assert forall|j: int| 0 <= j < first.len() implies s[j] != '\n' by {
        assert(s[j] == first[j]);
    }
    assert(s[first.len() as int] == '\n');
    chars::lemma_find_char_is(s, '\n', first.len());
    assert(s.take(first.len() as int) =~= first);
    assert(s.skip(first.len() as int + 1) =~= rest);
    lemma_has_line(rest);
}

/// Whether lines end with a line feed or with a carriage return and a line feed makes no
/// difference to the clean-up of lines.
pub proof fn lemma_line_endings_are_alike(line: Seq<char>, rest: Seq<char>)
    requires
        forall|j: int| 0 <= j < line.len() ==> #[trigger] line[j] != '\n',
        !(line.len() > 0 && line.last() == '\r'),
    ensures
        ({
            let s = line + seq!['\n'] + rest;
            let t = line + seq!['\r', '\n'] + rest;
            &&& runs::rstripped(t) == runs::rstripped(s)
            &&& runs::without_blank_runs(t) == runs::without_blank_runs(s)
            &&& runs::without_dup_runs(t) == runs::without_dup_runs(s)
        }),
{
    let s = line + seq!['\n'] + rest;
    let t = line + seq!['\r', '\n'] + rest;
    characters::lemma_lines(line, rest);
    assert(rest.len() > 0 ==> s.last() == rest.last() && t.last() == rest.last());
    assert(rest.len() == 0 ==> s.last() == '\n' && t.last() == '\n');
}

// ---- trailing whitespace ----

/// Only the whitespace at the end of a line goes: the line keeps all that stands before
/// it, its indentation too, and the lines behind it are stripped alike.
pub proof fn lemma_line_keeps_all_but_its_end(kept: Seq<char>, blank: Seq<char>, rest: Seq<char>)
    requires
        forall|j: int| 0 <= j < kept.len() ==> #[trigger] kept[j] != '\n',
        kept.len() > 0 ==> !chars::whitespace(kept.last()),
        forall|j: int|
            0 <= j < blank.len() ==> chars::whitespace(#[trigger] blank[j]) && blank[j] != '\n',
    ensures
        runs::rstripped(kept + blank) == kept,
        runs::rstripped(kept + blank + seq!['\n'] + rest) == kept + seq!['\n'] + runs::rstripped(
            rest,
        ),
{
    let first = kept + blank;
    assert forall|j: int| 0 <= j < first.len() implies #[trigger] first[j] != '\n' by {
        if j >= kept.len() {
            assert(first[j] == blank[j - kept.len()]);
        } else {
            assert(first[j] == kept[j]);
        }
    }
    lemma_trims_to(kept, blank);
    let s = first + seq!['\n'] + rest;
    lemma_first_line(first, rest);
    let parts = lines::lines(rest);
    assert(runs::trimmed_lines(lines::lines(s)) =~= seq![kept] + runs::trimmed_lines(parts));
    lemma_text_cons(kept, runs::trimmed_lines(parts), rest, s);
    if first.len() > 0 {
        characters::lemma_lines(first, rest);
        assert(runs::trimmed_lines(lines::lines(first)) =~= seq![kept]);
        assert(first.last() == first[first.len() - 1]);
        assert(!lines::closed(first));
    } else {
        assert(runs::trimmed_lines(lines::lines(first)) =~= seq![]);
        assert(kept =~= seq![]);
    }
}

proof fn lemma_trims_to(kept: Seq<char>, blank: Seq<char>)
    requires
        kept.len() > 0 ==> !chars::whitespace(kept.last()),
        forall|j: int| 0 <= j < blank.len() ==> chars::whitespace(#[trigger] blank[j]),
    ensures
        chars::trim_end(kept + blank) == kept,
        chars::trim_end(lines::chomp(kept + blank)) == kept,
{
    let first = kept + blank;
    let k = kept.len() as int;
    assert forall|j: int| k <= j < first.len() implies chars::whitespace(first[j]) by {
        assert(first[j] == blank[j - k]);
    }
    if k > 0 {
        assert(first[k - 1] == kept.last());
    }
    chars::lemma_trim_end_is(first, k);
    assert(first.take(k) =~= kept);
    let c = lines::chomp(first);
    if first.len() > 0 && first.last() == '\r' {
        assert(first.len() > k) by {
            if first.len() == k {
                assert(first.last() == kept.last());
            }
        }
        assert forall|j: int| k <= j < c.len() implies chars::whitespace(c[j]) by {
            assert(c[j] == first[j]);
        }
        if k > 0 {
            assert(c[k - 1] == kept.last());
        }
        chars::lemma_trim_end_is(c, k);
        assert(c.take(k) =~= kept);
    }
}

/// Every line of the result begins the line of the text at the same place, and what was
/// taken off that line is whitespace at its end. No line is lost but an unended last one
/// that held nothing else.
pub proof fn lemma_lines_are_cut_at_their_ends(s: Seq<char>)
    ensures
        ({
            let given = lines::lines(s);
            let out = lines::lines(runs::rstripped(s));
            &&& out.len() == given.len() || (out.len() + 1 == given.len() && !lines::closed(s)
                && forall|j: int|
                0 <= j < given.last().len() ==> chars::whitespace(#[trigger] given.last()[j]))
            &&& forall|i: int|
                #![trigger out[i]]
                0 <= i < out.len() ==> {
                    &&& out[i].len() <= given[i].len()
                    &&& out[i] == given[i].take(out[i].len() as int)
                    &&& forall|j: int|
                        out[i].len() <= j < given[i].len() ==> chars::whitespace(
                            #[trigger] given[i][j],
                        )
                    &&& out[i].len() > 0 ==> !chars::whitespace(out[i].last())
                }
        }),
{
    let given = lines::lines(s);
    let cut = runs::trimmed_lines(given);
    lines::lemma_lines_are_lines(s);
    assert forall|i: int| 0 <= i < cut.len() implies lines::is_line(#[trigger] cut[i])
        && !lines::ends_with_return(cut[i]) by {
        assert(lines::is_line(given[i]));
        chars::lemma_trim_end(given[i]);
    }
    lines::lemma_lines_of_text(cut, lines::closed(s));
    let out = lines::lines(runs::rstripped(s));
    assert forall|i: int| #![trigger out[i]] 0 <= i < out.len() implies {
        &&& out[i].len() <= given[i].len()
        &&& out[i] == given[i].take(out[i].len() as int)
        &&& forall|j: int|
            out[i].len() <= j < given[i].len() ==> chars::whitespace(#[trigger] given[i][j])
        &&& out[i].len() > 0 ==> !chars::whitespace(out[i].last())
    } by {
        assert(out[i] == cut[i]);
        chars::lemma_trim_end(given[i]);
    }
    if out.len() != given.len() {
        assert(cut.last() == chars::trim_end(given.last()));
        chars::lemma_trim_end(given.last());
    }
}

// ---- blank lines ----

/// A run of blank lines is made one blank line, and every other line stays where it is.
/// `s` is any text with the line before the lines of `rest`, however the line ends.
pub proof fn lemma_blank_lines_are_made_one(s: Seq<char>, line: Seq<char>, rest: Seq<char>)
    requires
        lines::lines(s) == seq![line] + lines::lines(rest),
        lines::closed(s) == (rest.len() == 0 || lines::closed(rest)),
    ensures
        runs::without_blank_runs(Seq::<char>::empty()) == Seq::<char>::empty(),
        line.len() > 0 || rest.len() == 0 || lines::lines(rest)[0].len() > 0
            ==> runs::without_blank_runs(s) == line + seq!['\n'] + runs::without_blank_runs(rest),
        line.len() == 0 && rest.len() > 0 && lines::lines(rest)[0].len() == 0
            ==> runs::without_blank_runs(s) == runs::without_blank_runs(rest),
{
    let parts = lines::lines(rest);
    let none = Seq::<char>::empty();
    assert(lines::lines(none) =~= seq![]);
    assert(runs::squeezed(lines::lines(none)) =~= seq![]);
    assert(runs::without_blank_runs(none) =~= none);
    lemma_has_line(rest);
    lemma_squeezed_cons(line, parts);
    lemma_squeezed_some(parts);
    if line.len() == 0 && rest.len() > 0 && parts[0].len() == 0 {
        lemma_squeezed_first(parts);
        assert(line =~= parts[0]);
        assert(seq![line] + runs::squeezed(parts).skip(1) =~= runs::squeezed(parts));
    } else {
        lemma_text_cons(line, runs::squeezed(parts), rest, s);
    }
}

/// One line that nothing ends is not changed.
pub proof fn lemma_one_line_stays(line: Seq<char>)
    requires
        forall|j: int| 0 <= j < line.len() ==> #[trigger] line[j] != '\n',
    ensures
        runs::without_blank_runs(line) == line,
        runs::without_dup_runs(line) == line,
{
    if line.len() == 0 {
        assert(lines::lines(line) =~= seq![]);
        assert(runs::squeezed(lines::lines(line)) =~= seq![]);
        assert(runs::run_lines(runs::runs(lines::lines(line))) =~= seq![]);
        assert(runs::without_blank_runs(line) =~= line);
        assert(runs::without_dup_runs(line) =~= line);
    } else {
        characters::lemma_lines(line, seq![]);
        assert(line.last() == line[line.len() - 1]);
        assert(!lines::closed(line));
        lemma_squeezed_cons(line, seq![]);
        let one = seq![line];
        let none = Seq::<Seq<char>>::empty();
        assert(one + none =~= one);
        assert(runs::squeezed(none) =~= none);
        assert(runs::without_blank_runs(line) =~= line);
        lemma_runs_cons(line, 1, none);
        assert(runs::repeated(line, 1) + none =~= one);
        assert(runs::runs(none) =~= seq![]);
        lemma_run_lines_cons((line, 1), runs::runs(none));
        assert(runs::run_lines(runs::runs(none)) =~= none);
        assert(runs::run_text((line, 1)) =~= one);
        assert(runs::without_dup_runs(line) =~= line);
    }
}

proof fn lemma_squeezed_some(parts: Seq<Seq<char>>)
    ensures
        parts.len() == 0 <==> runs::squeezed(parts).len() == 0,
{
    runs::lemma_squeezed(parts);
}

proof fn lemma_squeezed_first(parts: Seq<Seq<char>>)
    requires
        parts.len() > 0,
    ensures
        runs::squeezed(parts).len() > 0,
        runs::squeezed(parts)[0] == parts[0],
    decreases parts.len(),
{
    if parts.len() > 1 {
        lemma_squeezed_first(parts.drop_last());
    } else {
        assert(runs::squeezed(parts.drop_last()) =~= seq![]);
    }
}

proof fn lemma_squeezed_cons(x: Seq<char>, parts: Seq<Seq<char>>)
    ensures
        runs::squeezed(seq![x] + parts) == if x.len() == 0 && parts.len() > 0 && parts[0].len()
            == 0 {
            seq![x] + runs::squeezed(parts).skip(1)
        } else {
            seq![x] + runs::squeezed(parts)
        },
    decreases parts.len(),
{
    let all = seq![x] + parts;
    if parts.len() == 0 {
        assert(all.drop_last() =~= parts);
        assert(runs::squeezed(parts) =~= seq![]);
        assert(runs::squeezed(all) =~= seq![x]);
        assert(seq![x] + runs::squeezed(parts) =~= seq![x]);
    } else {
        let init = parts.drop_last();
        lemma_squeezed_cons(x, init);
        assert(all.drop_last() =~= seq![x] + init);
        assert(all.last() == parts.last());
        if parts.len() == 1 {
            assert(init =~= seq![]);
            assert(runs::squeezed(init) =~= seq![]);
            assert(runs::squeezed(parts) =~= seq![parts[0]]);
            assert(all[0] == x && all[1] == parts[0]);
            assert(runs::squeezed(all.drop_last()) =~= seq![x]);
            assert(seq![x] + seq![parts[0]].skip(1) =~= seq![x]);
            assert(seq![x].push(parts[0]) =~= seq![x] + seq![parts[0]]);
        } else {
            lemma_squeezed_first(init);
            assert(init[0] == parts[0]);
            assert(all[all.len() - 1] == parts[parts.len() - 1]);
            assert(all[all.len() - 2] == parts[parts.len() - 2]);
            let q = runs::squeezed(init);
            assert((seq![x] + q).push(parts.last()) =~= seq![x] + q.push(parts.last()));
            assert((seq![x] + q.skip(1)).push(parts.last()) =~= seq![x] + q.push(
                parts.last(),
            ).skip(1));
        }
    }
}

// ---- repeated lines ----

/// A line `n` times, each with a line feed behind it.
pub open spec fn again(line: Seq<char>, n: nat) -> Seq<char>
    decreases n,
{
    if n == 0 {
        seq![]
    } else {
        line + seq!['\n'] + again(line, (n - 1) as nat)
    }
}

/// What ends with a count: a space, and in round brackets the sign for "times" and a
/// number.
pub proof fn lemma_counts(line: Seq<char>)
    ensures
        runs::looks_annotated(line) <==> exists|base: Seq<char>, digits: Seq<char>|
            {
                &&& line == #[trigger] (base + " (×"@ + digits + ")"@)
                &&& digits.len() > 0
                &&& forall|j: int| 0 <= j < digits.len() ==> '0' <= #[trigger] digits[j] <= '9'
            },
{
    reveal_strlit(" (×");
    reveal_strlit(")");
    if runs::looks_annotated(line) {
        let k = choose|k: int| #[trigger] runs::count_at(line, k);
        let base = line.take(k);
        let digits = line.subrange(k + 3, line.len() - 1);
        assert(line =~= base + " (×"@ + digits + ")"@);
        assert forall|j: int| 0 <= j < digits.len() implies '0' <= #[trigger] digits[j]
            <= '9' by {
            assert(digits[j] == line[k + 3 + j]);
            assert(chars::is_digit(line[k + 3 + j]));
        }
    }
    if exists|base: Seq<char>, digits: Seq<char>|
        {
            &&& line == #[trigger] (base + " (×"@ + digits + ")"@)
            &&& digits.len() > 0
            &&& forall|j: int| 0 <= j < digits.len() ==> '0' <= #[trigger] digits[j] <= '9'
        } {
        let (base, digits) = choose|base: Seq<char>, digits: Seq<char>|
            {
                &&& line == #[trigger] (base + " (×"@ + digits + ")"@)
                &&& digits.len() > 0
                &&& forall|j: int| 0 <= j < digits.len() ==> '0' <= #[trigger] digits[j] <= '9'
            };
        let k = base.len() as int;
        assert(line.last() == ')');
        assert forall|j: int| k + 3 <= j < line.len() - 1 implies chars::is_digit(
            #[trigger] line[j],
        ) by {
            assert(line[j] == digits[j - k - 3]);
        }
        assert(runs::count_at(line, k));
    }
}

/// A line that stands there `n` times in a row is written once, with the count behind it,
/// and the lines behind the run are written alike. A line that stands there once stays, and
/// so does a run of a line that already ends with a count. `s` is any text with the run
/// before the lines of `rest`, however its lines end.
pub proof fn lemma_repeated_lines_are_counted(s: Seq<char>, line: Seq<char>, n: nat, rest: Seq<char>)
    requires
        n > 0,
        lines::lines(s) == Seq::new(n, |i: int| line) + lines::lines(rest),
        lines::closed(s) == (rest.len() == 0 || lines::closed(rest)),
        rest.len() > 0 ==> lines::lines(rest)[0] != line,
    ensures
        runs::without_dup_runs(s) == (if n > 1 && !runs::looks_annotated(line) {
            line + " (×"@ + chars::decimal(n) + ")\n"@
        } else {
            again(line, n)
        }) + runs::without_dup_runs(rest),
{
    let parts = lines::lines(rest);
    assert(Seq::new(n, |i: int| line) =~= runs::repeated(line, n));
    lemma_has_line(rest);
    lemma_runs_cons(line, n, parts);
    let run = (line, n);
    let later = runs::runs(parts);
    lemma_run_lines_cons(run, later);
    reveal_strlit(" (×");
    reveal_strlit(")\n");
    let tail = lines::text_of(runs::run_lines(later), lines::closed(rest));
    assert(tail == runs::without_dup_runs(rest));
    lemma_run_lines_some(parts);
    if n > 1 && !runs::looks_annotated(line) {
        let whole = runs::annotated(run);
        assert(whole =~= line + " (×"@ + chars::decimal(n) + seq![')']);
        lemma_text_cons(whole, runs::run_lines(later), rest, s);
        assert(whole + seq!['\n'] + tail =~= line + " (×"@ + chars::decimal(n) + ")\n"@ + tail);
    } else {
        lemma_text_again(line, n, runs::run_lines(later), rest, lines::closed(s));
    }
}

/// The same holds of a run that ends the text without a line feed behind it.
pub proof fn lemma_last_run_is_counted(s: Seq<char>, line: Seq<char>, n: nat)
    requires
        n > 0,
        lines::lines(s) == Seq::new(n, |i: int| line),
        !lines::closed(s),
    ensures
        runs::without_dup_runs(s) == if n > 1 && !runs::looks_annotated(line) {
            line + " (×"@ + chars::decimal(n) + ")"@
        } else {
            again(line, (n - 1) as nat) + line
        },
{
    let run = (line, n);
    let m = (n - 1) as nat;
    let none = Seq::<Seq<char>>::empty();
    reveal_strlit(" (×");
    reveal_strlit(")");
    assert(Seq::new(n, |i: int| line) =~= runs::repeated(line, n) + none);
    lemma_runs_cons(line, n, none);
    lemma_run_lines_cons(run, runs::runs(none));
    assert(runs::run_lines(runs::runs(none)) =~= none);
    assert(runs::run_text(run) + none =~= runs::run_text(run));
    if n > 1 && !runs::looks_annotated(line) {
        assert(runs::without_dup_runs(s) =~= runs::annotated(run));
        assert(runs::annotated(run) =~= line + " (×"@ + chars::decimal(n) + ")"@);
    } else {
        lemma_join_again(line, m);
        assert(runs::repeated(line, n) =~= runs::repeated(line, m).push(line));
    }
}

proof fn lemma_join_again(line: Seq<char>, m: nat)
    ensures
        lines::join_lines(runs::repeated(line, m).push(line)) == again(line, m) + line,
    decreases m,
{
    let all = runs::repeated(line, m).push(line);
    if m == 0 {
        assert(all =~= seq![line]);
        assert(again(line, m) + line =~= line);
    } else {
        let k = (m - 1) as nat;
        lemma_join_again(line, k);
        assert(all.skip(1) =~= runs::repeated(line, k).push(line));
        assert(all[0] == line);
        assert(again(line, m) + line =~= line + seq!['\n'] + (again(line, k) + line));
    }
}

proof fn lemma_run_lines_some(parts: Seq<Seq<char>>)
    ensures
        parts.len() == 0 <==> runs::run_lines(runs::runs(parts)).len() == 0,
{
    runs::lemma_runs_expand(parts);
    if parts.len() > 0 {
        let rs = runs::runs(parts);
        assert(rs[rs.len() - 1].1 > 0);
        assert(runs::run_text(rs.last()).len() > 0);
    }
}

proof fn lemma_text_again(
    line: Seq<char>,
    n: nat,
    parts: Seq<Seq<char>>,
    rest: Seq<char>,
    ended: bool,
)
    requires
        n > 0,
        rest.len() == 0 <==> parts.len() == 0,
        ended == (rest.len() == 0 || lines::closed(rest)),
    ensures
        lines::text_of(runs::repeated(line, n) + parts, ended) == again(line, n) + lines::text_of(
            parts,
            lines::closed(rest),
        ),
    decreases n,
{
    let tail = lines::text_of(parts, lines::closed(rest));
    let k = (n - 1) as nat;
    let later = runs::repeated(line, k) + parts;
    let all = runs::repeated(line, n) + parts;
    assert(all =~= seq![line] + later);
    assert(all.skip(1) =~= later);
    lines::lemma_end_lines_head(all);
    if k == 0 {
        assert(later =~= parts);
        assert(again(line, 0) =~= seq![]);
        assert(again(line, 1) =~= line + seq!['\n']);
        if rest.len() == 0 {
            assert(parts =~= seq![]);
            assert(lines::end_lines(parts) =~= seq![]);
            assert(tail =~= seq![]);
        }
        assert(lines::text_of(all, ended) =~= again(line, n) + tail);
    } else {
        lemma_text_again(line, k, parts, rest, ended);
        assert(later.len() > 0);
        assert(lines::text_of(all, ended) =~= again(line, n) + tail);
    }
}

proof fn lemma_runs_cons(line: Seq<char>, n: nat, parts: Seq<Seq<char>>)
    requires
        n > 0,
        parts.len() > 0 ==> parts[0] != line,
    ensures
        runs::runs(runs::repeated(line, n) + parts) == seq![(line, n)] + runs::runs(parts),
    decreases n + parts.len(),
{
    let all = runs::repeated(line, n) + parts;
    if parts.len() == 0 {
        assert(all =~= runs::repeated(line, n));
        assert(runs::runs(parts) =~= seq![]);
        assert(all.last() == line);
        assert(seq![(line, n)] + runs::runs(parts) =~= seq![(line, n)]);
        if n == 1 {
            assert(all.drop_last() =~= seq![]);
            assert(runs::runs(all.drop_last()) =~= seq![]);
            assert(runs::runs(all) =~= seq![(line, n)]);
        } else {
            let k = (n - 1) as nat;
            lemma_runs_cons(line, k, parts);
            assert(runs::repeated(line, k) + parts =~= runs::repeated(line, k));
            assert(all.drop_last() =~= runs::repeated(line, k));
            let init = runs::runs(runs::repeated(line, k));
            assert(init =~= seq![(line, k)]);
            assert(runs::runs(all) =~= seq![(line, n)]);
        }
    } else {
        let init = parts.drop_last();
        lemma_runs_cons(line, n, init);
        assert(all.drop_last() =~= runs::repeated(line, n) + init);
        assert(all.last() == parts.last());
        let before = runs::runs(init);
        let x = parts.last();
        if init.len() == 0 {
            assert(before =~= seq![]);
            assert(seq![(line, n)] + before =~= seq![(line, n)]);
            assert(runs::runs(all) =~= seq![(line, n)].push((x, 1nat)));
            assert(runs::runs(parts) =~= seq![(x, 1nat)]);
            assert(runs::runs(all) =~= seq![(line, n)] + runs::runs(parts));
        } else {
            runs::lemma_runs_expand(init);
            let whole = seq![(line, n)] + before;
            assert(whole.last() == before.last());
            assert(whole.drop_last() =~= seq![(line, n)] + before.drop_last());
            assert(runs::runs(all) =~= seq![(line, n)] + runs::runs(parts));
        }
    }
}

proof fn lemma_run_lines_cons(run: runs::Run, rs: Seq<runs::Run>)
    ensures
        runs::run_lines(seq![run] + rs) == runs::run_text(run) + runs::run_lines(rs),
    decreases rs.len(),
{
    let all = seq![run] + rs;
    if rs.len() == 0 {
        assert(all.drop_last() =~= seq![]);
        assert(runs::run_lines(all.drop_last()) =~= seq![]);
        assert(runs::run_lines(all) =~= runs::run_text(run));
        assert(runs::run_text(run) + runs::run_lines(rs) =~= runs::run_text(run));
    } else {
        lemma_run_lines_cons(run, rs.drop_last());
        assert(all.drop_last() =~= seq![run] + rs.drop_last());
        assert(all.last() == rs.last());
        assert(runs::run_lines(all) =~= runs::run_text(run) + runs::run_lines(rs));
    }
}

// ---- encoded data ----

/// What a run is made of: letters, digits, and `+`, `/`, `=`, `_` and `-`. No whitespace, and
/// no line feed, is part of one.
pub proof fn lemma_blob_characters(c: char)
    ensures
        blobs::blob_char(c) <==> ('A' <= c <= 'Z' || 'a' <= c <= 'z' || '0' <= c <= '9' || c == '+'
            || c == '/' || c == '=' || c == '_' || c == '-'),
        chars::whitespace(c) || c == '\n' ==> !blobs::blob_char(c),
{
}

/// A run of up to 1024 such characters stays, a longer one is named by its length, and any
/// other character stays.
pub proof fn lemma_long_runs_are_named(run: Seq<char>, rest: Seq<char>, c: char)
    requires
        run.len() > 0,
        forall|j: int|
            0 <= j < run.len() ==> {
                let x = #[trigger] run[j];
                'A' <= x <= 'Z' || 'a' <= x <= 'z' || '0' <= x <= '9' || x == '+' || x == '/' || x
                    == '=' || x == '_' || x == '-'
            },
        rest.len() > 0 ==> !('A' <= rest[0] <= 'Z' || 'a' <= rest[0] <= 'z' || '0' <= rest[0] <= '9'
            || rest[0] == '+' || rest[0] == '/' || rest[0] == '=' || rest[0] == '_' || rest[0]
            == '-'),
        !('A' <= c <= 'Z' || 'a' <= c <= 'z' || '0' <= c <= '9' || c == '+' || c == '/' || c == '='
            || c == '_' || c == '-'),
    ensures
        blobs::elided(Seq::<char>::empty()) == Seq::<char>::empty(),
        run.len() <= 1024 ==> blobs::elided(run + rest) == run + blobs::elided(rest),
        run.len() > 1024 ==> blobs::elided(run + rest) == "[crush.blob "@ + chars::decimal(
            run.len(),
        ) + " chars]"@ + blobs::elided(rest),
        blobs::elided(seq![c] + rest) == seq![c] + blobs::elided(rest),
{
    let s = run + rest;
    assert forall|j: int| 0 <= j < run.len() implies blobs::blob_char(#[trigger] s[j]) by {
        assert(s[j] == run[j]);
    }
    if rest.len() > 0 {
        assert(s[run.len() as int] == rest[0]);
    }
    blobs::lemma_blob_len_is(s, run.len());
    assert(s.take(run.len() as int) =~= run);
    assert(s.skip(run.len() as int) =~= rest);
    let t = seq![c] + rest;
    assert(t[0] == c);
    assert(t.skip(1) =~= rest);
}

/// Hashes, tokens and short identifiers are left alone: a text of which every 1025
/// characters in a row hold one that is no letter, no digit and none of `+`, `/`, `=`, `_`
/// and `-`, such as a line feed, is not changed.
pub proof fn lemma_short_runs_stay(s: Seq<char>)
    requires
        forall|i: int|
            #![trigger s.skip(i)]
            0 <= i <= s.len() - 1025 ==> exists|j: int|
                {
                    let x = #[trigger] s[j];
                    i <= j < i + 1025 && !('A' <= x <= 'Z' || 'a' <= x <= 'z' || '0' <= x <= '9'
                        || x == '+' || x == '/' || x == '=' || x == '_' || x == '-')
                },
    ensures
        blobs::elided(s) == s,
{
    assert forall|i: int| 0 <= i <= s.len() implies blobs::blob_len(#[trigger] s.skip(i))
        <= blobs::THRESHOLD by {
        let t = s.skip(i);
        blobs::lemma_blob_len(t);
        if blobs::blob_len(t) > blobs::THRESHOLD {
            assert(i <= s.len() - 1025);
            let j = choose|j: int|
                {
                    let x = #[trigger] s[j];
                    i <= j < i + 1025 && !('A' <= x <= 'Z' || 'a' <= x <= 'z' || '0' <= x <= '9'
                        || x == '+' || x == '/' || x == '=' || x == '_' || x == '-')
                };
            assert(t[j - i] == s[j]);
            assert(blobs::blob_char(t[j - i]));
        }
    }
    blobs::lemma_elided_keeps_short_runs(s);
}

/// Eliding works line by line: a line feed is never part of what is elided.
pub proof fn lemma_lines_are_elided_one_by_one(a: Seq<char>, b: Seq<char>)
    ensures
        blobs::elided(a + seq!['\n'] + b) == blobs::elided(a) + seq!['\n'] + blobs::elided(b),
    decreases a.len(),
{
    let s = a + seq!['\n'] + b;
    if a.len() == 0 {
        assert(s[0] == '\n');
        assert(s.skip(1) =~= b);
        assert(blobs::blob_len(s) == 0);
        assert(blobs::elided(a) =~= seq![]);
        assert(blobs::elided(s) =~= blobs::elided(a) + seq!['\n'] + blobs::elided(b));
    } else {
        let k = blobs::blob_len(a);
        blobs::lemma_blob_len(a);
        assert forall|j: int| 0 <= j < k implies blobs::blob_char(#[trigger] s[j]) by {
            assert(s[j] == a[j]);
        }
        if k < a.len() {
            assert(s[k as int] == a[k as int]);
        } else {
            assert(s[k as int] == '\n');
        }
        blobs::lemma_blob_len_is(s, k);
        let step: int = if k == 0 {
            1
        } else {
            k as int
        };
        lemma_lines_are_elided_one_by_one(a.skip(step), b);
        assert(s.skip(step) =~= a.skip(step) + seq!['\n'] + b);
        assert(s[0] == a[0]);
        assert(s.take(k as int) =~= a.take(k as int));
        assert(blobs::elided(s) =~= blobs::elided(a) + seq!['\n'] + blobs::elided(b));
    }
}

// ---- the whole clean-up ----

/// Colours make no difference to the clean-up.
pub proof fn lemma_clean_ignores_escapes(s: Seq<char>)
    ensures
        text::cleaned(escapes::stripped(s)) == text::cleaned(s),
{
    escapes::lemma_stripped_is_idempotent(s);
}

/// Trailing whitespace makes no difference to the clean-up of a text without escapes.
pub proof fn lemma_clean_ignores_trailing_whitespace(s: Seq<char>)
    requires
        chars::lacks(s, '\u{1b}'),
    ensures
        text::cleaned(runs::rstripped(s)) == text::cleaned(s),
{
    escapes::lemma_stripped_keeps_plain_text(s);
    text::lemma_rstripped_lacks(s, '\u{1b}');
    escapes::lemma_stripped_keeps_plain_text(runs::rstripped(s));
    runs::lemma_rstripped_is_idempotent(s);
}

/// Nor does the number of blank lines in a row, where no line ends with whitespace.
pub proof fn lemma_clean_ignores_more_blank_lines(s: Seq<char>)
    requires
        chars::lacks(s, '\u{1b}'),
        runs::rstripped(s) == s,
    ensures
        text::cleaned(runs::without_blank_runs(s)) == text::cleaned(s),
{
    let parts = lines::lines(s);
    let q = runs::squeezed(parts);
    let t = runs::without_blank_runs(s);
    escapes::lemma_stripped_keeps_plain_text(s);
    text::lemma_blank_lacks(s, '\u{1b}');
    escapes::lemma_stripped_keeps_plain_text(t);
    runs::lemma_rstripped_lines(s);
    lines::lemma_lines_are_lines(s);
    runs::lemma_squeezed(parts);
    assert forall|i: int| 0 <= i < parts.len() implies !lines::ends_with_return(
        #[trigger] parts[i],
    ) by {
        chars::lemma_trim_end(parts[i]);
    }
    assert forall|i: int| 0 <= i < q.len() implies lines::is_line(#[trigger] q[i])
        && !lines::ends_with_return(q[i]) && chars::trim_end(q[i]) == q[i] by {
        assert(parts.contains(q[i]));
        let r = choose|r: int| 0 <= r < parts.len() && parts[r] == q[i];
        assert(lines::is_line(parts[r]));
    }
    lines::lemma_lines_of_text(q, lines::closed(s));
    let back = lines::lines(t);
    assert forall|i: int| 0 <= i < back.len() implies chars::trim_end(#[trigger] back[i])
        == back[i] by {
        assert(back[i] == q[i]);
    }
    assert(runs::trimmed_lines(back) =~= back);
    runs::lemma_blank_runs_idempotent(s);
}

/// Of a text without escapes, trailing whitespace and runs of blank lines, the clean-up
/// counts the repeated lines, names the long runs of encoded data, and factors out a path
/// prefix, in this order.
pub proof fn lemma_clean_ends_with(s: Seq<char>)
    requires
        chars::lacks(s, '\u{1b}'),
        runs::rstripped(s) == s,
        runs::without_blank_runs(s) == s,
    ensures
        text::cleaned(s) == prefix::factored(blobs::elided(runs::without_dup_runs(s))),
{
    escapes::lemma_stripped_keeps_plain_text(s);
}

// ---- path prefixes ----

/// Every line that is not blank begins with `start`.
pub open spec fn begin_with(parts: Seq<Seq<char>>, start: Seq<char>) -> bool {
    forall|i: int|
        0 <= i < parts.len() && (#[trigger] parts[i]).len() > 0 ==> start.is_prefix_of(parts[i])
}

/// A directory that all lines share is declared once, in the first line, and taken off
/// every line that is not blank: put before what is left it gives the line again. It is a
/// whole directory of at least twelve characters, no longer one is shared, and at least
/// eight lines share it. A text where there is none is not changed.
pub proof fn lemma_shared_directory_is_declared_once(s: Seq<char>)
    ensures
        prefix::factored(s) == s || ({
            let given = lines::lines(s);
            let out = lines::lines(prefix::factored(s));
            let dir = out[0].skip(14);
            &&& out.len() == given.len() + 1
            &&& out[0] == "@crush.prefix="@ + dir
            &&& dir.len() >= 12 && dir.last() == '/'
            &&& given.filter(|line: Seq<char>| line.len() > 0).len() >= 8
            &&& forall|longer: Seq<char>|
                longer.len() > dir.len() && longer.last() == '/' ==> !#[trigger] begin_with(
                    given,
                    longer,
                )
            &&& forall|i: int|
                #![trigger given[i]]
                0 <= i < given.len() ==> if given[i].len() > 0 {
                    dir + out[i + 1] == given[i] && out[i + 1].len() > 0
                } else {
                    out[i + 1].len() == 0
                }
            &&& prefix::factored(s) == lines::join(out, seq!['\n']) + (if lines::closed(s) {
                seq!['\n']
            } else {
                seq![]
            })
            &&& forall|j: int|
                0 <= j < s.len() - 1 && #[trigger] s[j] == '\r' ==> s[j + 1] != '\n'
        }),
{
    if prefix::factors(s) {
        let given = lines::lines(s);
        let dir = prefix::shared_directory(s);
        let done = prefix::factored_lines(s);
        prefix::lemma_factored_lines(s);
        lemma_filled(given);
        reveal_strlit("@crush.prefix=");
        prefix::lemma_directory(prefix::common_prefix(lines::filled(given)));
        assert(done[0].skip(14) =~= dir);
        lines::lemma_end_lines(done);
        assert(lines::join_lines(done).push('\n') =~= lines::join(done, seq!['\n']) + seq!['\n']);
        assert(lines::join(done, seq!['\n']) + Seq::<char>::empty() =~= lines::join(
            done,
            seq!['\n'],
        ));
        assert forall|longer: Seq<char>|
            longer.len() > dir.len() && longer.last() == '/' implies !#[trigger] begin_with(
            given,
            longer,
        ) by {
            if begin_with(given, longer) {
                lemma_longest_directory(s, longer);
            }
        }
        assert forall|i: int| #![trigger given[i]] 0 <= i < given.len() implies if given[i].len()
            > 0 {
            dir + done[i + 1] == given[i] && done[i + 1].len() > 0
        } else {
            done[i + 1].len() == 0
        } by {
            prefix::lemma_prefix_restores_lines(s, i);
            if given[i].len() > 0 && done[i + 1].len() == 0 {
                assert(dir + done[i + 1] =~= dir);
                assert(given.contains(dir));
            }
        }
    }
}

proof fn lemma_filled(parts: Seq<Seq<char>>)
    ensures
        lines::filled(parts) == parts.filter(|line: Seq<char>| line.len() > 0),
    decreases parts.len(),
{
    reveal(Seq::filter);
    if parts.len() > 0 {
        lemma_filled(parts.drop_last());
    }
}

/// A directory with which all lines begin begins the shared one.
proof fn lemma_longest_directory(s: Seq<char>, dir: Seq<char>)
    requires
        lines::filled(lines::lines(s)).len() > 0,
        dir.len() > 0,
        dir.last() == '/',
        begin_with(lines::lines(s), dir),
    ensures
        dir.is_prefix_of(prefix::shared_directory(s)),
{
    let given = lines::lines(s);
    let f = lines::filled(given);
    lemma_filled_given(given);
    assert forall|i: int| 0 <= i < f.len() implies dir.is_prefix_of(#[trigger] f[i]) by {
        assert(given.contains(f[i]));
        let r = choose|r: int| 0 <= r < given.len() && given[r] == f[i];
        assert(given[r].len() > 0);
    }
    let common = prefix::common_prefix(f);
    prefix::lemma_common_prefix_is_longest(f, dir);
    prefix::lemma_directory(common);
    let d = prefix::shared_directory(s);
    assert(common[dir.len() - 1] == '/') by {
        assert(dir.last() == common.subrange(0, dir.len() as int)[dir.len() - 1]);
    }
    assert(d.len() >= dir.len());
    assert(d =~= common.subrange(0, d.len() as int));
    assert(d.subrange(0, dir.len() as int) =~= common.subrange(0, dir.len() as int));
}

/// The prefix is factored out whenever nothing would be lost: where at least eight lines
/// are not blank, all of those begin with a directory of at least twelve characters, none
/// of them is itself a directory with which all begin, and no carriage return stands
/// before a line feed.
pub proof fn lemma_shared_directory_is_found(s: Seq<char>, dir: Seq<char>)
    requires
        lines::lines(s).filter(|line: Seq<char>| line.len() > 0).len() >= 8,
        dir.len() >= 12,
        dir.last() == '/',
        begin_with(lines::lines(s), dir),
        forall|i: int|
            0 <= i < lines::lines(s).len() && (#[trigger] lines::lines(s)[i]).len() > 0
                && lines::lines(s)[i].last() == '/' ==> !begin_with(
                lines::lines(s),
                lines::lines(s)[i],
            ),
        forall|j: int| 0 <= j < s.len() - 1 && #[trigger] s[j] == '\r' ==> s[j + 1] != '\n',
    ensures
        prefix::factored(s) != s,
        dir.is_prefix_of(lines::lines(prefix::factored(s))[0].skip(14)),
{
    let given = lines::lines(s);
    let d = prefix::shared_directory(s);
    lemma_filled(given);
    lemma_longest_directory(s, dir);
    prefix::lemma_directory(prefix::common_prefix(lines::filled(given)));
    assert(!given.contains(d)) by {
        if given.contains(d) {
            let r = choose|r: int| 0 <= r < given.len() && given[r] == d;
            assert forall|i: int| 0 <= i < given.len() && (#[trigger] given[i]).len()
                > 0 implies d.is_prefix_of(given[i]) by {
                prefix::lemma_prefix_restores_lines(s, i);
            }
            assert(given[r].len() > 0);
            assert(begin_with(given, given[r]));
        }
    }
    assert(prefix::factors(s));
    prefix::lemma_factored_lines(s);
    reveal_strlit("@crush.prefix=");
    assert(prefix::factored_lines(s)[0].skip(14) =~= d);
    // The text has a line more, and so is another text.
    assert(lines::lines(prefix::factored(s)).len() == given.len() + 1);
}

proof fn lemma_filled_given(parts: Seq<Seq<char>>)
    ensures
        forall|i: int|
            0 <= i < lines::filled(parts).len() ==> parts.contains(
                #[trigger] lines::filled(parts)[i],
            ) && lines::filled(parts)[i].len() > 0,
    decreases parts.len(),
{
    if parts.len() > 0 {
        let init = parts.drop_last();
        lemma_filled_given(init);
        let f = lines::filled(parts);
        let g = lines::filled(init);
        assert forall|i: int| 0 <= i < f.len() implies parts.contains(#[trigger] f[i]) && f[i].len()
            > 0 by {
            if i < g.len() {
                assert(f[i] == g[i]);
                let r = choose|r: int| 0 <= r < init.len() && init[r] == g[i];
                assert(parts[r] == f[i]);
            } else {
                assert(parts[parts.len() - 1] == f[i]);
            }
        }
    }
}

} // verus!
