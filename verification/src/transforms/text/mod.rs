//! Clean-up of unstructured tool output: build logs, test runs, verbose traces.
//!
//! Each function does one thing, and [`clean`] runs them one after the other: escape
//! sequences go, then trailing whitespace, then runs of blank lines, then runs of equal
//! lines, then long runs of encoded data, and a path prefix that all lines share is
//! declared once.
use vstd::prelude::*;
use crate::chars;
use crate::lines;

pub mod blobs;
pub mod escapes;
pub mod prefix;
pub mod runs;

verus! {

/// `s` cleaned up.
pub open spec fn cleaned(s: Seq<char>) -> Seq<char> {
    prefix::factored(
        blobs::elided(
            runs::without_dup_runs(runs::without_blank_runs(runs::rstripped(escapes::stripped(s)))),
        ),
    )
}

/// Runs the whole clean-up.
pub fn clean(s: &str) -> (r: String)
    ensures
        r@ == cleaned(s@),
{
    let given = chars::to_chars(s);
    let plain = escapes::strip(given.as_slice());
    let trimmed = runs::rstrip(plain.as_slice());
    let squeezed = runs::collapse_blank(trimmed.as_slice());
    let counted = runs::collapse_dup(squeezed.as_slice());
    let short = blobs::elide(counted.as_slice());
    let folded = prefix::fold(short.as_slice());
    chars::to_text(folded.as_slice())
}

/// Strips ANSI escape sequences: control sequences (colours, cursor movements),
/// operating system commands, and other escapes of two characters.
pub fn strip_ansi(s: &str) -> (r: String)
    ensures
        r@ == escapes::stripped(s@),
{
    let given = chars::to_chars(s);
    chars::to_text(escapes::strip(given.as_slice()).as_slice())
}

/// Strips trailing whitespace from every line, and makes every line ending a line feed.
pub fn rstrip_lines(s: &str) -> (r: String)
    ensures
        r@ == runs::rstripped(s@),
{
    let given = chars::to_chars(s);
    chars::to_text(runs::rstrip(given.as_slice()).as_slice())
}

/// Collapses every run of two or more blank lines into one blank line.
pub fn collapse_blank_runs(s: &str) -> (r: String)
    ensures
        r@ == runs::without_blank_runs(s@),
{
    let given = chars::to_chars(s);
    chars::to_text(runs::collapse_blank(given.as_slice()).as_slice())
}

/// Collapses every run of `N`, two or more, equal lines into `line (×N)`. A line that
/// already ends with a count gets no second one: a run of such lines stays as it is.
pub fn collapse_dup_runs(s: &str) -> (r: String)
    ensures
        r@ == runs::without_dup_runs(s@),
{
    let given = chars::to_chars(s);
    chars::to_text(runs::collapse_dup(given.as_slice()).as_slice())
}

/// Puts a note in place of every run of more than 1024 characters of base64 or
/// hexadecimal data. Hashes, tokens and short identifiers stay. This step loses data.
pub fn elide_blobs(s: &str) -> (r: String)
    ensures
        r@ == blobs::elided(s@),
{
    let given = chars::to_chars(s);
    chars::to_text(blobs::elide(given.as_slice()).as_slice())
}

/// Factors a directory that all lines share out of output that is mostly paths: it is
/// declared once and taken off each line, where there are at least eight lines and it
/// has at least twelve characters. Where something would be lost the output stays as it
/// is: where the directory is a line itself, or a carriage return stands before a line
/// feed.
pub fn fold_common_prefix(s: &str) -> (r: String)
    ensures
        r@ == prefix::factored(s@),
{
    let given = chars::to_chars(s);
    chars::to_text(prefix::fold(given.as_slice()).as_slice())
}

// ---- laws of the whole clean-up ----

/// A text that has nothing to clean up passes through unchanged.
pub proof fn lemma_clean_keeps_plain_text(s: Seq<char>)
    requires
        chars::lacks(s, escapes::ESC),
        runs::rstripped(s) == s,
        runs::no_blank_runs(lines::lines(s)),
        runs::no_dup_runs(lines::lines(s)),
        blobs::no_long_run(s),
        !prefix::factors(s),
    ensures
        cleaned(s) == s,
{
    let parts = lines::lines(s);
    escapes::lemma_stripped_keeps_plain_text(s);
    runs::lemma_rstripped_lines(s);
    assert(runs::trimmed_lines(parts) =~= parts);
    runs::lemma_squeezed_keeps(parts);
    runs::lemma_dup_runs_keep(parts);
    blobs::lemma_elided_keeps_short_runs(s);
}

/// No escape character is left in a cleaned text.
pub proof fn lemma_clean_has_no_escape(s: Seq<char>)
    ensures
        chars::lacks(cleaned(s), escapes::ESC),
{
    let c = escapes::ESC;
    let s1 = escapes::stripped(s);
    escapes::lemma_stripped_has_no_escape(s);
    let s2 = runs::rstripped(s1);
    lemma_rstripped_lacks(s1, c);
    let s3 = runs::without_blank_runs(s2);
    lemma_blank_lacks(s2, c);
    let s4 = runs::without_dup_runs(s3);
    lemma_dup_lacks(s3);
    let s5 = blobs::elided(s4);
    lemma_elided_lacks(s4);
    lemma_factored_lacks(s5);
}

/// What does not occur in a text does not occur in it without trailing whitespace.
pub proof fn lemma_rstripped_lacks(s: Seq<char>, c: char)
    requires
        chars::lacks(s, c),
        c != '\n',
    ensures
        chars::lacks(runs::rstripped(s), c),
{
    let parts = lines::lines(s);
    let out = runs::trimmed_lines(parts);
    lines::lemma_lines_lack(s, c);
    assert forall|i: int| 0 <= i < out.len() implies chars::lacks(#[trigger] out[i], c) by {
        chars::lemma_trim_end(parts[i]);
        assert(chars::lacks(parts[i], c));
        assert forall|j: int| 0 <= j < out[i].len() implies #[trigger] out[i][j] != c by {
            assert(out[i][j] == parts[i][j]);
        }
    }
    lines::lemma_text_lacks(out, lines::closed(s), c);
}

/// What does not occur in a text does not occur in it without runs of blank lines.
pub proof fn lemma_blank_lacks(s: Seq<char>, c: char)
    requires
        chars::lacks(s, c),
        c != '\n',
    ensures
        chars::lacks(runs::without_blank_runs(s), c),
{
    let parts = lines::lines(s);
    let out = runs::squeezed(parts);
    lines::lemma_lines_lack(s, c);
    runs::lemma_squeezed(parts);
    assert forall|i: int| 0 <= i < out.len() implies chars::lacks(#[trigger] out[i], c) by {
        assert(parts.contains(out[i]));
        let r = choose|r: int| 0 <= r < parts.len() && parts[r] == out[i];
        assert(chars::lacks(parts[r], c));
    }
    lines::lemma_text_lacks(out, lines::closed(s), c);
}

proof fn lemma_dup_lacks(s: Seq<char>)
    requires
        chars::lacks(s, escapes::ESC),
    ensures
        chars::lacks(runs::without_dup_runs(s), escapes::ESC),
{
    let parts = lines::lines(s);
    lines::lemma_lines_lack(s, escapes::ESC);
    lemma_run_lines_lack(runs::runs(parts), parts);
    lines::lemma_text_lacks(
        runs::run_lines(runs::runs(parts)),
        lines::closed(s),
        escapes::ESC,
    );
}

proof fn lemma_run_lines_lack(rs: Seq<runs::Run>, parts: Seq<Seq<char>>)
    requires
        rs == runs::runs(parts),
        forall|i: int| 0 <= i < parts.len() ==> chars::lacks(#[trigger] parts[i], escapes::ESC),
    ensures
        forall|i: int|
            0 <= i < runs::run_lines(rs).len() ==> chars::lacks(
                #[trigger] runs::run_lines(rs)[i],
                escapes::ESC,
            ),
{
    runs::lemma_runs_expand(parts);
    assert forall|i: int| 0 <= i < rs.len() implies chars::lacks(
        (#[trigger] rs[i]).0,
        escapes::ESC,
    ) by {
        assert(parts.contains(rs[i].0));
        let r = choose|r: int| 0 <= r < parts.len() && parts[r] == rs[i].0;
        assert(chars::lacks(parts[r], escapes::ESC));
    }
    lemma_runs_lack(rs);
}

proof fn lemma_runs_lack(rs: Seq<runs::Run>)
    requires
        forall|i: int| 0 <= i < rs.len() ==> chars::lacks((#[trigger] rs[i]).0, escapes::ESC),
    ensures
        forall|i: int|
            0 <= i < runs::run_lines(rs).len() ==> chars::lacks(
                #[trigger] runs::run_lines(rs)[i],
                escapes::ESC,
            ),
    decreases rs.len(),
{
    let c = escapes::ESC;
    if rs.len() > 0 {
        let init = rs.drop_last();
        let run = rs[rs.len() - 1];
        assert forall|i: int| 0 <= i < init.len() implies chars::lacks((#[trigger] init[i]).0, c) by {
            assert(init[i] == rs[i]);
        }
        lemma_runs_lack(init);
        assert(chars::lacks(run.0, c));
        let whole = runs::annotated(run);
        let m = chars::decimal(run.1);
        chars::lemma_decimal(run.1);
        assert forall|j: int| 0 <= j < whole.len() implies #[trigger] whole[j] != c by {
            if j < run.0.len() {
                assert(whole[j] == run.0[j]);
            } else if run.0.len() + 3 <= j < run.0.len() + 3 + m.len() {
                assert(whole[j] == m[j - run.0.len() - 3]);
            }
        }
        let before = runs::run_lines(init);
        let all = runs::run_lines(rs);
        assert forall|i: int| 0 <= i < all.len() implies chars::lacks(#[trigger] all[i], c) by {
            if i < before.len() {
                assert(all[i] == before[i]);
            } else {
                assert(all[i] == runs::run_text(run)[i - before.len()]);
            }
        }
    }
}

proof fn lemma_elided_lacks(s: Seq<char>)
    requires
        chars::lacks(s, escapes::ESC),
    ensures
        chars::lacks(blobs::elided(s), escapes::ESC),
    decreases s.len(),
{
    let c = escapes::ESC;
    let out = blobs::elided(s);
    let k = blobs::blob_len(s);
    if s.len() > 0 {
        blobs::lemma_blob_len(s);
        let step: int = if k == 0 {
            1
        } else {
            k as int
        };
        let rest = s.skip(step);
        assert forall|j: int| 0 <= j < rest.len() implies #[trigger] rest[j] != c by {
            assert(rest[j] == s[step + j]);
        }
        lemma_elided_lacks(rest);
        let head = if k > blobs::THRESHOLD {
            blobs::blob_note(k)
        } else {
            s.take(step)
        };
        if k > blobs::THRESHOLD {
            reveal_strlit("[crush.blob ");
            reveal_strlit(" chars]");
            let m = chars::decimal(k);
            chars::lemma_decimal(k);
            assert forall|j: int| 0 <= j < head.len() implies #[trigger] head[j] != c by {
                if 12 <= j < 12 + m.len() {
                    assert(head[j] == m[j - 12]);
                } else if j >= 12 + m.len() {
                    assert(head[j] == " chars]"@[j - 12 - m.len()]);
                } else {
                    assert(head[j] == "[crush.blob "@[j]);
                }
            }
        } else {
            assert(k == 0 ==> seq![s[0]] =~= head);
            assert forall|j: int| 0 <= j < head.len() implies #[trigger] head[j] != c by {
                assert(head[j] == s[j]);
            }
        }
        assert(out == head + blobs::elided(rest));
        assert forall|j: int| 0 <= j < out.len() implies #[trigger] out[j] != c by {
            if j < head.len() {
                assert(out[j] == head[j]);
            } else {
                assert(out[j] == blobs::elided(rest)[j - head.len()]);
            }
        }
    }
}

proof fn lemma_factored_lacks(s: Seq<char>)
    requires
        chars::lacks(s, escapes::ESC),
    ensures
        chars::lacks(prefix::factored(s), escapes::ESC),
{
    let c = escapes::ESC;
    if prefix::factors(s) {
        let parts = lines::lines(s);
        let d = prefix::shared_directory(s);
        let out = prefix::factored_lines(s);
        reveal_strlit("@crush.prefix=");
        lines::lemma_lines_lack(s, c);
        prefix::lemma_some_line(parts);
        let r = choose|r: int| 0 <= r < parts.len() && (#[trigger] parts[r]).len() > 0;
        prefix::lemma_prefix_restores_lines(s, r);
        assert(chars::lacks(parts[r], c));
        assert forall|i: int| 0 <= i < out.len() implies chars::lacks(#[trigger] out[i], c) by {
            if i == 0 {
                assert forall|j: int| 0 <= j < out[0].len() implies #[trigger] out[0][j] != c by {
                    if j >= 14 {
                        assert(out[0][j] == d[j - 14]);
                        assert(d[j - 14] == parts[r].subrange(0, d.len() as int)[j - 14]);
                    } else {
                        assert(out[0][j] == "@crush.prefix="@[j]);
                    }
                }
            } else {
                let line = parts[i - 1];
                prefix::lemma_prefix_restores_lines(s, i - 1);
                assert(chars::lacks(line, c));
                assert forall|j: int| 0 <= j < out[i].len() implies #[trigger] out[i][j] != c by {
                    if line.len() > 0 {
                        assert(out[i][j] == line[d.len() + j]);
                    }
                }
            }
        }
        lines::lemma_text_lacks(out, lines::closed(s), c);
    }
}

} // verus!
