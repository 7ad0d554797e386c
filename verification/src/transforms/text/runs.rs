//! Trailing whitespace, blank lines and repeated lines.
use vstd::prelude::*;
use crate::chars;
use crate::lines;

verus! {

// ---- trailing whitespace ----

/// The lines, each without its trailing whitespace.
pub open spec fn trimmed_lines(parts: Seq<Seq<char>>) -> Seq<Seq<char>> {
    parts.map_values(|line: Seq<char>| chars::trim_end(line))
}

/// `s` with every line trimmed at its end, and every line ending a line feed.
pub open spec fn rstripped(s: Seq<char>) -> Seq<char> {
    lines::text_of(trimmed_lines(lines::lines(s)), lines::closed(s))
}

/// Trimming leaves lines that are lines, and that do not end with whitespace.
proof fn lemma_trimmed_lines(parts: Seq<Seq<char>>)
    requires
        forall|i: int| 0 <= i < parts.len() ==> lines::is_line(#[trigger] parts[i]),
    ensures
        forall|i: int|
            0 <= i < parts.len() ==> {
                let line = #[trigger] trimmed_lines(parts)[i];
                &&& lines::is_line(line)
                &&& !lines::ends_with_return(line)
                &&& chars::trim_end(line) == line
            },
{
    assert forall|i: int| 0 <= i < parts.len() implies {
        let line = #[trigger] trimmed_lines(parts)[i];
        &&& lines::is_line(line)
        &&& !lines::ends_with_return(line)
        &&& chars::trim_end(line) == line
    } by {
        let line = trimmed_lines(parts)[i];
        assert(lines::is_line(parts[i]));
        chars::lemma_trim_end(parts[i]);
        chars::lemma_trim_end_is(line, line.len() as int);
        assert(line.take(line.len() as int) =~= line);
    }
}

/// No line of a stripped text ends with whitespace.
pub proof fn lemma_rstripped_lines(s: Seq<char>)
    ensures
        forall|i: int|
            0 <= i < lines::lines(rstripped(s)).len() ==> chars::trim_end(
                #[trigger] lines::lines(rstripped(s))[i],
            ) == lines::lines(rstripped(s))[i],
{
    let parts = lines::lines(s);
    lines::lemma_lines_are_lines(s);
    lemma_trimmed_lines(parts);
    lines::lemma_lines_of_text(trimmed_lines(parts), lines::closed(s));
}

/// Stripping a stripped text changes nothing.
pub proof fn lemma_rstripped_is_idempotent(s: Seq<char>)
    ensures
        rstripped(rstripped(s)) == rstripped(s),
{
    let parts = lines::lines(s);
    lines::lemma_lines_are_lines(s);
    lemma_trimmed_lines(parts);
    lines::lemma_lines_of_text(trimmed_lines(parts), lines::closed(s));
    lemma_rstripped_lines(s);
    let again = lines::lines(rstripped(s));
    assert(trimmed_lines(again) =~= again);
}

/// The text with every line trimmed at its end.
pub fn rstrip(s: &[char]) -> (r: Vec<char>)
    ensures
        r@ == rstripped(s@),
{
    let all = lines::split_lines(s);
    let ghost parts = lines::lines(s@);
    let ghost done = trimmed_lines(parts);
    let mut out: Vec<char> = Vec::with_capacity(s.len());
    let mut i: usize = 0;
    proof {
        assert(done.take(0) =~= seq![]);
    }
    while i < all.len()
        invariant
            i <= all@.len(),
            parts == chars::views(all@),
            done == trimmed_lines(parts),
            out@ == lines::end_lines(done.take(i as int)),
        decreases all@.len() - i,
    {
        let ghost before = out@;
        let line = chars::trimmed_end(all[i]);
        chars::append(&mut out, line);
        out.push('\n');
        proof {
            assert(parts[i as int] == all@[i as int]@);
            assert(done.take(i as int + 1) =~= done.take(i as int).push(line@));
            lines::lemma_end_lines_push(done.take(i as int), line@);
            assert(out@ =~= lines::end_lines(done.take(i as int + 1)));
        }
        i = i + 1;
    }
    proof {
        assert(done.take(i as int) =~= done);
        lines::lemma_text_of(done, lines::closed(s@));
    }
    lines::close(&mut out, s);
    out
}

// ---- blank lines ----

/// The lines without those that are blank and follow a blank line.
pub open spec fn squeezed(parts: Seq<Seq<char>>) -> Seq<Seq<char>>
    decreases parts.len(),
{
    if parts.len() == 0 {
        seq![]
    } else {
        let init = squeezed(parts.drop_last());
        if parts.len() > 1 && parts[parts.len() - 1].len() == 0 && parts[parts.len() - 2].len()
            == 0 {
            init
        } else {
            init.push(parts.last())
        }
    }
}

/// `s` with every run of blank lines made one blank line.
pub open spec fn without_blank_runs(s: Seq<char>) -> Seq<char> {
    lines::text_of(squeezed(lines::lines(s)), lines::closed(s))
}

/// No two blank lines follow each other.
pub open spec fn no_blank_runs(parts: Seq<Seq<char>>) -> bool {
    forall|i: int, j: int|
        0 <= i && j == i + 1 && j < parts.len() ==> (#[trigger] parts[i]).len() > 0 || (
        #[trigger] parts[j]).len() > 0
}

/// Squeezing keeps every line that is not blank, in order, and leaves no run of blank
/// lines.
pub proof fn lemma_squeezed(parts: Seq<Seq<char>>)
    ensures
        no_blank_runs(squeezed(parts)),
        lines::filled(squeezed(parts)) == lines::filled(parts),
        parts.len() > 0 ==> squeezed(parts).len() > 0 && squeezed(parts).last() == parts.last(),
        forall|k: int|
            0 <= k < squeezed(parts).len() ==> parts.contains(#[trigger] squeezed(parts)[k]),
    decreases parts.len(),
{
    if parts.len() > 0 {
        let init = parts.drop_last();
        let q = squeezed(init);
        lemma_squeezed(init);
        let all = squeezed(parts);
        assert(all.len() > q.len() ==> all.drop_last() =~= q);
        assert(init.len() > 0 ==> init.last() == parts[parts.len() - 2]);
        assert forall|k: int| 0 <= k < all.len() implies parts.contains(#[trigger] all[k]) by {
            if k < q.len() {
                assert(init.contains(q[k]));
                let r = choose|r: int| 0 <= r < init.len() && init[r] == q[k];
                assert(parts[r] == q[k]);
            } else {
                assert(parts[parts.len() - 1] == all[k]);
            }
        }
    }
}

/// Lines without a run of blank lines are not changed.
pub proof fn lemma_squeezed_keeps(parts: Seq<Seq<char>>)
    requires
        no_blank_runs(parts),
    ensures
        squeezed(parts) == parts,
    decreases parts.len(),
{
    if parts.len() > 0 {
        let init = parts.drop_last();
        assert forall|i: int, j: int| 0 <= i && j == i + 1 && j < init.len() implies (
        #[trigger] init[i]).len() > 0 || (#[trigger] init[j]).len() > 0 by {
            assert(init[i] == parts[i] && init[j] == parts[j]);
        }
        lemma_squeezed_keeps(init);
        if parts.len() > 1 {
            assert(parts[parts.len() - 2].len() > 0 || parts[parts.len() - 1].len() > 0);
        }
        assert(init.push(parts.last()) =~= parts);
    } else {
        assert(parts =~= seq![]);
    }
}

/// Squeezing keeps carriage returns where they were.
proof fn lemma_squeezed_unreturned(parts: Seq<Seq<char>>, ended: bool)
    requires
        lines::unreturned(parts, ended),
    ensures
        lines::unreturned(squeezed(parts), ended),
{
    if parts.len() > 0 {
        let init = parts.drop_last();
        let before = squeezed(init);
        let q = squeezed(parts);
        lemma_squeezed(init);
        lemma_squeezed(parts);
        assert forall|i: int| 0 <= i < q.len() && (ended || i < q.len() - 1) implies
            !lines::ends_with_return(#[trigger] q[i]) by {
            if i < before.len() {
                assert(init.contains(before[i]));
                let r = choose|r: int| 0 <= r < init.len() && init[r] == before[i];
                assert(parts[r] == q[i]);
            } else {
                assert(q[i] == parts[parts.len() - 1]);
            }
        }
    }
}

/// Collapsing the runs of blank lines once is enough, where no line that a line feed
/// ends has more than one carriage return before it.
pub proof fn lemma_blank_runs_idempotent(s: Seq<char>)
    requires
        lines::unreturned(lines::lines(s), lines::closed(s)),
    ensures
        without_blank_runs(without_blank_runs(s)) == without_blank_runs(s),
{
    let parts = lines::lines(s);
    let q = squeezed(parts);
    lines::lemma_lines_are_lines(s);
    lemma_squeezed(parts);
    assert forall|i: int| 0 <= i < q.len() implies lines::is_line(#[trigger] q[i]) by {
        assert(parts.contains(q[i]));
        let r = choose|r: int| 0 <= r < parts.len() && parts[r] == q[i];
        assert(lines::is_line(parts[r]));
    }
    lemma_squeezed_unreturned(parts, lines::closed(s));
    lines::lemma_lines_of_text(q, lines::closed(s));
    let again = lines::lines(without_blank_runs(s));
    assert forall|i: int, j: int| 0 <= i && j == i + 1 && j < again.len() implies (
    #[trigger] again[i]).len() > 0 || (#[trigger] again[j]).len() > 0 by {
        assert(again[i] == q[i] && again[j] == q[j]);
    }
    lemma_squeezed_keeps(again);
}

/// The text with every run of blank lines made one blank line.
pub fn collapse_blank(s: &[char]) -> (r: Vec<char>)
    ensures
        r@ == without_blank_runs(s@),
{
    let all = lines::split_lines(s);
    let ghost parts = lines::lines(s@);
    let mut out: Vec<char> = Vec::with_capacity(s.len());
    let mut blank: bool = false;
    let mut i: usize = 0;
    proof {
        assert(parts.take(0) =~= seq![]);
    }
    while i < all.len()
        invariant
            i <= all@.len(),
            parts == chars::views(all@),
            blank == (i > 0 && parts[i - 1].len() == 0),
            out@ == lines::end_lines(squeezed(parts.take(i as int))),
        decreases all@.len() - i,
    {
        let line = all[i];
        let ghost q = squeezed(parts.take(i as int));
        proof {
            assert(parts[i as int] == line@);
            let upto = parts.take(i as int + 1);
            assert(upto.drop_last() =~= parts.take(i as int));
            assert(upto.last() == line@);
            lines::lemma_end_lines_push(q, line@);
        }
        if line.len() == 0 {
            if !blank {
                out.push('\n');
                proof {
                    assert(out@ =~= lines::end_lines(q.push(line@)));
                }
            }
            blank = true;
        } else {
            chars::append(&mut out, line);
            out.push('\n');
            proof {
                assert(out@ =~= lines::end_lines(q.push(line@)));
            }
            blank = false;
        }
        i = i + 1;
    }
    proof {
        assert(parts.take(i as int) =~= parts);
        lines::lemma_text_of(squeezed(parts), lines::closed(s@));
        lines::lemma_end_lines(squeezed(parts));
    }
    lines::close(&mut out, s);
    out
}

// ---- repeated lines ----

/// A line, and how often it stands there in a row.
pub type Run = (Seq<char>, nat);

/// The runs of equal lines.
pub open spec fn runs(parts: Seq<Seq<char>>) -> Seq<Run>
    decreases parts.len(),
{
    if parts.len() == 0 {
        seq![]
    } else {
        let init = runs(parts.drop_last());
        if init.len() > 0 && init.last().0 == parts.last() {
            init.drop_last().push((parts.last(), init.last().1 + 1))
        } else {
            init.push((parts.last(), 1))
        }
    }
}

/// What stands behind the line of a run of `n` lines.
pub open spec fn times(n: nat) -> Seq<char> {
    seq![' ', '(', '×'] + chars::decimal(n) + seq![')']
}

/// A line with the count of its run behind it.
pub open spec fn annotated(run: Run) -> Seq<char> {
    run.0 + times(run.1)
}

/// A count begins at index `k` of the line, and ends it.
pub open spec fn count_at(line: Seq<char>, k: int) -> bool {
    &&& 0 <= k
    &&& k + 4 < line.len()
    &&& line[k] == ' '
    &&& line[k + 1] == '('
    &&& line[k + 2] == '×'
    &&& line.last() == ')'
    &&& forall|j: int| k + 3 <= j < line.len() - 1 ==> chars::is_digit(#[trigger] line[j])
}

/// `line` already ends with a count, `(×N)`.
pub open spec fn looks_annotated(line: Seq<char>) -> bool {
    exists|k: int| #[trigger] count_at(line, k)
}

/// A line `n` times.
pub open spec fn repeated(line: Seq<char>, n: nat) -> Seq<Seq<char>> {
    Seq::new(n, |i: int| line)
}

/// How a run is written: one line with the count behind it, where the line stood there
/// more than once. A line that already ends with a count gets no second one: it is written
/// as often as it stood there.
pub open spec fn run_text(run: Run) -> Seq<Seq<char>> {
    if run.1 > 1 && !looks_annotated(run.0) {
        seq![annotated(run)]
    } else {
        repeated(run.0, run.1)
    }
}

/// The runs as they are written.
pub open spec fn run_lines(runs: Seq<Run>) -> Seq<Seq<char>>
    decreases runs.len(),
{
    if runs.len() == 0 {
        seq![]
    } else {
        run_lines(runs.drop_last()) + run_text(runs.last())
    }
}

/// `s` with every run of equal lines made one line.
pub open spec fn without_dup_runs(s: Seq<char>) -> Seq<char> {
    lines::text_of(run_lines(runs(lines::lines(s))), lines::closed(s))
}

/// The lines of the runs.
pub open spec fn expanded(runs: Seq<Run>) -> Seq<Seq<char>>
    decreases runs.len(),
{
    if runs.len() == 0 {
        seq![]
    } else {
        expanded(runs.drop_last()) + repeated(runs.last().0, runs.last().1)
    }
}

/// Two lines that follow each other are equal only where they end with a count.
pub open spec fn no_dup_runs(parts: Seq<Seq<char>>) -> bool {
    forall|i: int, j: int|
        0 <= i && j == i + 1 && j < parts.len() && #[trigger] parts[i] == #[trigger] parts[j]
            ==> looks_annotated(parts[j])
}

/// The runs of lines hold all those lines, in order, and each run is as long as it can be.
pub proof fn lemma_runs_expand(parts: Seq<Seq<char>>)
    ensures
        expanded(runs(parts)) == parts,
        forall|i: int| 0 <= i < runs(parts).len() ==> (#[trigger] runs(parts)[i]).1 > 0,
        forall|i: int|
            0 <= i < runs(parts).len() ==> parts.contains((#[trigger] runs(parts)[i]).0),
        forall|i: int, j: int|
            0 <= i && j == i + 1 && j < runs(parts).len() ==> (#[trigger] runs(parts)[i]).0 != (
            #[trigger] runs(parts)[j]).0,
        parts.len() > 0 ==> runs(parts).len() > 0 && runs(parts).last().0 == parts.last(),
    decreases parts.len(),
{
    if parts.len() > 0 {
        let before = parts.drop_last();
        let init = runs(before);
        let all = runs(parts);
        let line = parts.last();
        lemma_runs_expand(before);
        assert(before.push(line) =~= parts);
        assert forall|i: int| 0 <= i < all.len() implies (#[trigger] all[i]).1 > 0
            && parts.contains(all[i].0) by {
            if i < all.len() - 1 {
                assert(all[i] == init[i]);
                assert(before.contains(init[i].0));
                let r = choose|r: int| 0 <= r < before.len() && before[r] == init[i].0;
                assert(parts[r] == init[i].0);
            } else {
                assert(parts[parts.len() - 1] == all[i].0);
            }
        }
        if init.len() > 0 && init.last().0 == line {
            assert(all.drop_last() =~= init.drop_last());
            assert(repeated(line, init.last().1 + 1) =~= repeated(line, init.last().1).push(line));
            assert(expanded(all) =~= expanded(init).push(line));
            assert forall|i: int, j: int| 0 <= i && j == i + 1 && j < all.len() implies (
            #[trigger] all[i]).0 != (#[trigger] all[j]).0 by {
                assert(all[i].0 == init[i].0 && all[j].0 == init[j].0);
            }
        } else {
            assert(all.drop_last() =~= init);
            assert(repeated(line, 1) =~= seq![line]);
            assert(expanded(all) =~= expanded(init).push(line));
            assert forall|i: int, j: int| 0 <= i && j == i + 1 && j < all.len() implies (
            #[trigger] all[i]).0 != (#[trigger] all[j]).0 by {
                assert(all[i] == init[i]);
                if j < init.len() {
                    assert(all[j] == init[j]);
                }
            }
        }
    }
}

/// The sign for "times" occurs once in what stands behind the line of a run.
proof fn lemma_times(n: nat)
    ensures
        times(n).len() == chars::decimal(n).len() + 4,
        times(n)[2] == '×',
        forall|j: int| 2 < j < times(n).len() ==> #[trigger] times(n)[j] != '×',
{
    let m = chars::decimal(n);
    chars::lemma_decimal(n);
    assert forall|j: int| 2 < j < times(n).len() implies #[trigger] times(n)[j] != '×' by {
        if j < 3 + m.len() {
            assert(times(n)[j] == m[j - 3]);
        }
    }
}

/// A line with a count behind it ends with a count.
proof fn lemma_annotated(run: Run)
    ensures
        looks_annotated(annotated(run)),
        annotated(run).last() == ')',
        lines::is_line(run.0) ==> lines::is_line(annotated(run)),
{
    let base = run.0;
    let s = annotated(run);
    let m = chars::decimal(run.1);
    chars::lemma_decimal(run.1);
    assert forall|j: int| base.len() + 3 <= j < s.len() - 1 implies chars::is_digit(
        #[trigger] s[j],
    ) by {
        assert(s[j] == m[j - base.len() - 3]);
    }
    assert(s.last() == ')');
    assert(count_at(s, base.len() as int));
    if lines::is_line(base) {
        assert forall|j: int| 0 <= j < s.len() implies s[j] != '\n' by {
            if j < base.len() {
                assert(s[j] == base[j]);
            } else if base.len() + 3 <= j < s.len() - 1 {
                assert(chars::is_digit(s[j]));
            }
        }
    }
}

/// Two lines with the same count behind them are the same, and so are the counts.
proof fn lemma_annotated_injective(a: Run, b: Run)
    requires
        annotated(a) == annotated(b),
    ensures
        a == b,
{
    let s = annotated(a);
    let m = chars::decimal(a.1);
    let n = chars::decimal(b.1);
    chars::lemma_decimal(a.1);
    chars::lemma_decimal(b.1);
    let p = a.0.len() + 2;
    let q = b.0.len() + 2;
    lemma_times(a.1);
    lemma_times(b.1);
    assert(s == b.0 + times(b.1));
    assert(s[p as int] == times(a.1)[2]);
    assert(s[q as int] == times(b.1)[2]);
    if p < q {
        assert(s[q as int] == times(a.1)[q - a.0.len()]);
    } else if q < p {
        assert(s[p as int] == times(b.1)[p - b.0.len()]);
    }
    assert(p == q);
    assert(a.0 =~= s.take(a.0.len() as int));
    assert(b.0 =~= s.take(b.0.len() as int));
    assert(m =~= s.subrange(p as int + 1, s.len() - 1));
    assert(n =~= s.subrange(q as int + 1, s.len() - 1));
    chars::lemma_decimal_injective(a.1, b.1);
}

/// What one more line does to the written lines: it is added, or it changes the last one
/// to one with a count. A line that is added is equal to the one before it only where both
/// end with a count.
proof fn lemma_run_lines_step(parts: Seq<Seq<char>>)
    requires
        parts.len() > 0,
    ensures
        ({
            let before = run_lines(runs(parts.drop_last()));
            let after = run_lines(runs(parts));
            let line = parts.last();
            ||| after == before.push(line) && (before.len() > 0 && before.last() == line
                ==> looks_annotated(line))
            ||| before.len() > 0 && exists|n: nat|
                n > 1 && after == before.drop_last().push(#[trigger] annotated((line, n)))
        }),
{
    let line = parts.last();
    let init = runs(parts.drop_last());
    let all = runs(parts);
    let before = run_lines(init);
    let after = run_lines(all);
    lemma_runs_expand(parts.drop_last());
    if init.len() > 0 && init.last().0 == line {
        let n = init.last().1;
        let rest = init.drop_last();
        assert(init[init.len() - 1].1 > 0);
        assert(all.drop_last() =~= rest);
        assert(before == run_lines(rest) + run_text((line, n)));
        assert(after == run_lines(rest) + run_text((line, n + 1)));
        if looks_annotated(line) {
            assert(repeated(line, n + 1) =~= repeated(line, n).push(line));
            assert(after =~= before.push(line));
        } else {
            assert(n == 1 ==> repeated(line, n) =~= seq![line]);
            assert(after =~= before.drop_last().push(annotated((line, n + 1))));
        }
    } else {
        assert(all.drop_last() =~= init);
        assert(repeated(line, 1) =~= seq![line]);
        assert(after =~= before.push(line));
        if init.len() > 0 {
            let run = init.last();
            assert(init[init.len() - 1].1 > 0);
            assert(before == run_lines(init.drop_last()) + run_text(run));
            if run.1 > 1 && !looks_annotated(run.0) {
                lemma_annotated(run);
                assert(before.last() == annotated(run));
            } else {
                assert(before.last() == run.0);
            }
        }
    }
}

/// The written lines hold no line feed, and two that follow each other are equal only
/// where they end with a count.
pub proof fn lemma_run_lines(parts: Seq<Seq<char>>)
    ensures
        (forall|i: int| 0 <= i < parts.len() ==> lines::is_line(#[trigger] parts[i])) ==> forall|
            i: int,
        |
            0 <= i < run_lines(runs(parts)).len() ==> lines::is_line(
                #[trigger] run_lines(runs(parts))[i],
            ),
        no_dup_runs(run_lines(runs(parts))),
    decreases parts.len(),
{
    if parts.len() > 0 {
        let init = parts.drop_last();
        let line = parts.last();
        let before = run_lines(runs(init));
        let after = run_lines(runs(parts));
        lemma_run_lines(init);
        lemma_run_lines_step(parts);
        if after == before.push(line) && (before.len() > 0 && before.last() == line
            ==> looks_annotated(line)) {
            assert forall|i: int, j: int|
                0 <= i && j == i + 1 && j < after.len() && #[trigger] after[i]
                    == #[trigger] after[j] implies looks_annotated(after[j]) by {
                if j < before.len() {
                    assert(before[i] == after[i] && before[j] == after[j]);
                } else {
                    assert(after[i] == before.last());
                }
            }
        } else {
            let n = choose|n: nat|
                n > 1 && after == before.drop_last().push(#[trigger] annotated((line, n)));
            lemma_annotated((line, n));
            assert forall|i: int, j: int|
                0 <= i && j == i + 1 && j < after.len() && #[trigger] after[i]
                    == #[trigger] after[j] implies looks_annotated(after[j]) by {
                if j < before.len() - 1 {
                    assert(before[i] == after[i] && before[j] == after[j]);
                }
            }
        }
        if forall|i: int| 0 <= i < parts.len() ==> lines::is_line(#[trigger] parts[i]) {
            assert forall|i: int| 0 <= i < init.len() implies lines::is_line(#[trigger] init[i]) by {
                assert(init[i] == parts[i]);
            }
            assert(lines::is_line(parts[parts.len() - 1]));
            assert forall|i: int| 0 <= i < after.len() implies lines::is_line(
                #[trigger] after[i],
            ) by {
                if i < after.len() - 1 {
                    assert(after[i] == before[i]);
                }
            }
        }
    }
}

/// Where no line that a line feed ends has a carriage return at its end, none of the
/// written lines has.
pub proof fn lemma_run_lines_unreturned(parts: Seq<Seq<char>>, ended: bool)
    requires
        lines::unreturned(parts, ended),
    ensures
        lines::unreturned(run_lines(runs(parts)), ended),
    decreases parts.len(),
{
    if parts.len() > 0 {
        let init = parts.drop_last();
        let line = parts.last();
        let before = run_lines(runs(init));
        let after = run_lines(runs(parts));
        assert forall|i: int| 0 <= i < init.len() implies !lines::ends_with_return(
            #[trigger] init[i],
        ) by {
            assert(init[i] == parts[i]);
        }
        lemma_run_lines_unreturned(init, true);
        lemma_run_lines_step(parts);
        assert forall|i: int| 0 <= i < after.len() && (ended || i < after.len() - 1) implies
            !lines::ends_with_return(#[trigger] after[i]) by {
            if i < after.len() - 1 {
                assert(after[i] == before[i]);
            } else if after == before.push(line) {
                assert(line == parts[parts.len() - 1]);
            } else {
                let n = choose|n: nat|
                    n > 1 && after == before.drop_last().push(#[trigger] annotated((line, n)));
                lemma_annotated((line, n));
            }
        }
    }
}

/// The count behind a line is a faithful stand-in for the repeated lines: two texts
/// whose runs are written the same have the same lines, unless a line already ends with a
/// count.
pub proof fn lemma_dup_runs_faithful(p: Seq<Seq<char>>, q: Seq<Seq<char>>)
    requires
        run_lines(runs(p)) == run_lines(runs(q)),
        forall|i: int| 0 <= i < p.len() ==> !looks_annotated(#[trigger] p[i]),
        forall|i: int| 0 <= i < q.len() ==> !looks_annotated(#[trigger] q[i]),
    ensures
        p == q,
{
    let a = runs(p);
    let b = runs(q);
    lemma_runs_expand(p);
    lemma_runs_expand(q);
    assert forall|i: int| 0 <= i < a.len() implies a[i].1 > 0 && !looks_annotated(
        (#[trigger] a[i]).0,
    ) by {
        assert(p.contains(a[i].0));
    }
    assert forall|i: int| 0 <= i < b.len() implies b[i].1 > 0 && !looks_annotated(
        (#[trigger] b[i]).0,
    ) by {
        assert(q.contains(b[i].0));
    }
    lemma_run_lines_plain(a);
    lemma_run_lines_plain(b);
    let out = run_lines(a);
    assert forall|i: int| 0 <= i < a.len() implies a[i] == b[i] by {
        assert(out[i] == plain_text(a[i]) && out[i] == plain_text(b[i]));
        if a[i].1 > 1 && b[i].1 > 1 {
            lemma_annotated_injective(a[i], b[i]);
        } else if a[i].1 > 1 {
            lemma_annotated(a[i]);
        } else if b[i].1 > 1 {
            lemma_annotated(b[i]);
        }
    }
    assert(a =~= b);
}

/// How a run of a line without a count is written.
spec fn plain_text(run: Run) -> Seq<char> {
    if run.1 > 1 {
        annotated(run)
    } else {
        run.0
    }
}

proof fn lemma_run_lines_plain(rs: Seq<Run>)
    requires
        forall|i: int|
            0 <= i < rs.len() ==> rs[i].1 > 0 && !looks_annotated((#[trigger] rs[i]).0),
    ensures
        run_lines(rs).len() == rs.len(),
        forall|i: int| 0 <= i < rs.len() ==> #[trigger] run_lines(rs)[i] == plain_text(rs[i]),
    decreases rs.len(),
{
    if rs.len() > 0 {
        let init = rs.drop_last();
        let last = rs[rs.len() - 1];
        assert forall|i: int| 0 <= i < init.len() implies init[i].1 > 0 && !looks_annotated(
            (#[trigger] init[i]).0,
        ) by {
            assert(init[i] == rs[i]);
        }
        lemma_run_lines_plain(init);
        assert(last.1 > 0 && !looks_annotated(last.0));
        assert(last.1 == 1 ==> repeated(last.0, 1) =~= seq![last.0]);
        assert(run_text(last) =~= seq![plain_text(last)]);
        assert forall|i: int| 0 <= i < rs.len() implies #[trigger] run_lines(rs)[i] == plain_text(
            rs[i],
        ) by {
            if i < init.len() {
                assert(run_lines(rs)[i] == run_lines(init)[i]);
                assert(init[i] == rs[i]);
            }
        }
    }
}

/// Lines of which two that follow each other are equal only where they end with a count
/// are not changed.
pub proof fn lemma_dup_runs_keep(parts: Seq<Seq<char>>)
    requires
        no_dup_runs(parts),
    ensures
        run_lines(runs(parts)) == parts,
    decreases parts.len(),
{
    if parts.len() > 0 {
        let init = parts.drop_last();
        let line = parts.last();
        assert forall|i: int, j: int|
            0 <= i && j == i + 1 && j < init.len() && #[trigger] init[i]
                == #[trigger] init[j] implies looks_annotated(init[j]) by {
            assert(init[i] == parts[i] && init[j] == parts[j]);
        }
        lemma_dup_runs_keep(init);
        lemma_keep_step(parts);
        assert(init.push(line) =~= parts);
    } else {
        assert(run_lines(runs(parts)) =~= parts);
    }
}

/// Where the last line differs from the one before it, or ends with a count, it is added.
proof fn lemma_keep_step(parts: Seq<Seq<char>>)
    requires
        parts.len() > 0,
        parts.len() > 1 && parts[parts.len() - 2] == parts[parts.len() - 1] ==> looks_annotated(
            parts[parts.len() - 1],
        ),
    ensures
        run_lines(runs(parts)) == run_lines(runs(parts.drop_last())).push(parts.last()),
{
    let line = parts.last();
    let before = parts.drop_last();
    let init = runs(before);
    let all = runs(parts);
    lemma_runs_expand(before);
    if init.len() > 0 && init.last().0 == line {
        assert(before.len() > 0) by {
            if before.len() == 0 {
                assert(init.len() == 0);
            }
        }
        assert(before.last() == parts[parts.len() - 2]);
        let n = init.last().1;
        assert(all.drop_last() =~= init.drop_last());
        assert(repeated(line, n + 1) =~= repeated(line, n).push(line));
        assert(run_lines(all) =~= run_lines(init).push(line));
    } else {
        assert(all.drop_last() =~= init);
        assert(repeated(line, 1) =~= seq![line]);
        assert(run_lines(all) =~= run_lines(init).push(line));
    }
}

/// Collapsing repeated lines once is enough, where what it writes has no carriage return
/// before a line feed. [`lemma_run_lines_unreturned`] says when that is so.
pub proof fn lemma_dup_runs_idempotent(s: Seq<char>)
    requires
        lines::unreturned(run_lines(runs(lines::lines(s))), lines::closed(s)),
    ensures
        without_dup_runs(without_dup_runs(s)) == without_dup_runs(s),
{
    let parts = lines::lines(s);
    let out = run_lines(runs(parts));
    lines::lemma_lines_are_lines(s);
    lemma_run_lines(parts);
    lines::lemma_lines_of_text(out, lines::closed(s));
    let again = lines::lines(without_dup_runs(s));
    assert forall|i: int, j: int|
        0 <= i && j == i + 1 && j < again.len() && #[trigger] again[i]
            == #[trigger] again[j] implies looks_annotated(again[j]) by {
        assert(again[i] == out[i] && again[j] == out[j]);
    }
    lemma_dup_runs_keep(again);
}

/// Whether the line already ends with a count.
fn ends_with_count(line: &[char]) -> (r: bool)
    ensures
        r == looks_annotated(line@),
{
    let n: usize = line.len();
    if n == 0 || line[n - 1] != ')' {
        return false;
    }
    let mut k: usize = n - 1;
    while k > 0 && '0' <= line[k - 1] && line[k - 1] <= '9'
        invariant
            n == line@.len(),
            0 < n,
            k <= n - 1,
            forall|j: int| k <= j < n - 1 ==> chars::is_digit(#[trigger] line@[j]),
        decreases k,
    {
        k = k - 1;
    }
    let found = k < n - 1 && k >= 3 && line[k - 1] == '×' && line[k - 2] == '(' && line[k - 3]
        == ' ';
    proof {
        if found {
            assert(count_at(line@, k - 3));
        } else if looks_annotated(line@) {
            let c = choose|c: int| #[trigger] count_at(line@, c);
            if c + 3 < k {
                assert(chars::is_digit(line@[k - 1]));
            } else if c + 3 > k {
                assert(chars::is_digit(line@[c + 2]));
            }
            assert(c + 3 == k);
        }
    }
    found
}

/// Appends a run as it is written, with a line feed behind each line.
fn emit_run(out: &mut Vec<char>, line: &[char], count: usize)
    ensures
        final(out)@ == old(out)@ + lines::end_lines(run_text((line@, count as nat))),
{
    let ghost start = out@;
    if count > 1 && !ends_with_count(line) {
        chars::append(out, line);
        out.push(' ');
        out.push('(');
        out.push('×');
        chars::append_decimal(out, count as u64);
        out.push(')');
        out.push('\n');
        proof {
            let whole = annotated((line@, count as nat));
            let none = Seq::<Seq<char>>::empty();
            lines::lemma_end_lines_push(none, whole);
            assert(none.push(whole) =~= run_text((line@, count as nat)));
            assert(out@ =~= start + lines::end_lines(none.push(whole)));
        }
        return;
    }
    let mut i: usize = 0;
    proof {
        assert(repeated(line@, 0) =~= seq![]);
        assert(start + lines::end_lines(repeated(line@, 0)) =~= start);
    }
    while i < count
        invariant
            i <= count,
            out@ == start + lines::end_lines(repeated(line@, i as nat)),
        decreases count - i,
    {
        chars::append(out, line);
        out.push('\n');
        proof {
            let part = repeated(line@, i as nat);
            lines::lemma_end_lines_push(part, line@);
            assert(repeated(line@, (i + 1) as nat) =~= part.push(line@));
            assert(out@ =~= start + lines::end_lines(part.push(line@)));
        }
        i = i + 1;
    }
}

/// The text with every run of equal lines made one line.
pub fn collapse_dup(s: &[char]) -> (r: Vec<char>)
    ensures
        r@ == without_dup_runs(s@),
{
    let all = lines::split_lines(s);
    let n: usize = all.len();
    let ghost parts = lines::lines(s@);
    let ghost mut done: Seq<Run> = seq![];
    let mut out: Vec<char> = Vec::with_capacity(s.len());
    let mut i: usize = 0;
    proof {
        assert(parts.take(0) =~= seq![]);
        assert(run_lines(done) =~= seq![]);
    }
    while i < n
        invariant
            i <= n == all@.len(),
            parts == chars::views(all@),
            done == runs(parts.take(i as int)),
            0 < i < n ==> done.last().0 != parts[i as int],
            out@ == lines::end_lines(run_lines(done)),
        decreases n - i,
    {
        let line = all[i];
        let ghost start = done;
        let ghost first = i;
        let mut count: usize = 1;
        i = i + 1;
        proof {
            lemma_runs_expand(parts.take(first as int));
            let upto = parts.take(i as int);
            assert(upto.drop_last() =~= parts.take(first as int));
            assert(upto.last() == line@);
        }
        while i < n && chars::same(all[i], line)
            invariant
                first < i <= n == all@.len(),
                parts == chars::views(all@),
                1 <= count <= i,
                runs(parts.take(i as int)) == start.push((line@, count as nat)),
            decreases n - i,
        {
            proof {
                let upto = parts.take(i as int + 1);
                assert(upto.drop_last() =~= parts.take(i as int));
                assert(upto.last() == line@);
                assert(start.push((line@, count as nat)).drop_last() =~= start);
            }
            i = i + 1;
            count = count + 1;
        }
        emit_run(&mut out, line, count);
        proof {
            let run = (line@, count as nat);
            done = start.push(run);
            assert(done.drop_last() =~= start);
            lines::lemma_end_lines_add(run_lines(start), run_text(run));
            assert(out@ =~= lines::end_lines(run_lines(done)));
        }
    }
    proof {
        assert(parts.take(i as int) =~= parts);
        lines::lemma_text_of(run_lines(done), lines::closed(s@));
        lines::lemma_end_lines(run_lines(done));
    }
    lines::close(&mut out, s);
    out
}

} // verus!
