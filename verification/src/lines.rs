//! Text as lines, and a line as words.
use vstd::prelude::*;
use vstd::slice::slice_subrange;
use crate::chars;

verus! {

/// `line` without one carriage return at its end.
pub open spec fn chomp(line: Seq<char>) -> Seq<char> {
    if line.len() > 0 && line.last() == '\r' {
        line.drop_last()
    } else {
        line
    }
}

/// The lines of `s`: each line ends with a line feed, which may have a carriage
/// return before it, or at the end of `s`. Neither belongs to the line.
pub open spec fn lines(s: Seq<char>) -> Seq<Seq<char>>
    decreases s.len(),
{
    if s.len() == 0 {
        seq![]
    } else {
        let k = chars::find_char(s, '\n') as int;
        if k < s.len() {
            seq![chomp(s.take(k))] + lines(s.skip(k + 1))
        } else {
            seq![s]
        }
    }
}

/// The parts, with `sep` between each two.
pub open spec fn join(parts: Seq<Seq<char>>, sep: Seq<char>) -> Seq<char>
    decreases parts.len(),
{
    if parts.len() == 0 {
        seq![]
    } else if parts.len() == 1 {
        parts[0]
    } else {
        parts[0] + sep + join(parts.skip(1), sep)
    }
}

/// The lines, with a line feed between each two.
pub open spec fn join_lines(parts: Seq<Seq<char>>) -> Seq<char> {
    join(parts, seq!['\n'])
}

/// The lines, with a line feed after each.
pub open spec fn end_lines(parts: Seq<Seq<char>>) -> Seq<char>
    decreases parts.len(),
{
    if parts.len() == 0 {
        seq![]
    } else {
        end_lines(parts.drop_last()) + parts.last() + seq!['\n']
    }
}

/// The lines as a text that ends with a line feed exactly where `closed` says so.
pub open spec fn text_of(parts: Seq<Seq<char>>, closed: bool) -> Seq<char> {
    if closed {
        end_lines(parts)
    } else {
        join_lines(parts)
    }
}

/// `s` ends with a line feed.
pub open spec fn closed(s: Seq<char>) -> bool {
    s.len() > 0 && s.last() == '\n'
}

/// No line feed occurs in `line`.
pub open spec fn is_line(line: Seq<char>) -> bool {
    forall|j: int| 0 <= j < line.len() ==> line[j] != '\n'
}

/// A carriage return at the end of `line`.
pub open spec fn ends_with_return(line: Seq<char>) -> bool {
    line.len() > 0 && line.last() == '\r'
}

/// No line feed of `s` has a carriage return before it.
pub open spec fn lacks_crlf(s: Seq<char>) -> bool {
    forall|j: int| 0 <= j < s.len() - 1 && #[trigger] s[j] == '\r' ==> s[j + 1] != '\n'
}

/// No line that a line feed ends when the lines are written ends with a carriage return.
pub open spec fn unreturned(parts: Seq<Seq<char>>, closed: bool) -> bool {
    forall|i: int|
        0 <= i < parts.len() && (closed || i < parts.len() - 1) ==> !ends_with_return(
            #[trigger] parts[i],
        )
}

/// The words of `s`: the parts between its runs of whitespace.
pub open spec fn words(s: Seq<char>) -> Seq<Seq<char>>
    decreases s.len(),
{
    let t = chars::trim_start(s);
    if t.len() == 0 {
        seq![]
    } else {
        proof {
            chars::lemma_trim_start(s);
            chars::lemma_find_white(t);
        }
        let k = chars::find_white(t) as int;
        seq![t.take(k)] + words(t.skip(k))
    }
}

/// The lines that are not blank.
pub open spec fn filled(parts: Seq<Seq<char>>) -> Seq<Seq<char>>
    decreases parts.len(),
{
    if parts.len() == 0 {
        seq![]
    } else if parts.last().len() > 0 {
        filled(parts.drop_last()).push(parts.last())
    } else {
        filled(parts.drop_last())
    }
}

/// The number of characters in all the parts.
pub open spec fn total_len(parts: Seq<Seq<char>>) -> nat
    decreases parts.len(),
{
    if parts.len() == 0 {
        0
    } else {
        total_len(parts.drop_last()) + parts.last().len()
    }
}

/// Appending a part to a join.
pub proof fn lemma_join_push(parts: Seq<Seq<char>>, sep: Seq<char>, x: Seq<char>)
    ensures
        join(parts.push(x), sep) == if parts.len() == 0 {
            x
        } else {
            join(parts, sep) + sep + x
        },
    decreases parts.len(),
{
    let all = parts.push(x);
    if parts.len() == 0 {
    } else if parts.len() == 1 {
        assert(all.skip(1) =~= seq![x]);
        assert(join(all.skip(1), sep) == x);
    } else {
        assert(all.skip(1) =~= parts.skip(1).push(x));
        lemma_join_push(parts.skip(1), sep, x);
        assert(parts[0] + sep + (join(parts.skip(1), sep) + sep + x) =~= parts[0] + sep + join(
            parts.skip(1),
            sep,
        ) + sep + x);
    }
}

/// A text that ends with a line feed is a joined text with one more line feed.
pub proof fn lemma_end_lines(parts: Seq<Seq<char>>)
    ensures
        parts.len() > 0 ==> end_lines(parts) == join_lines(parts).push('\n'),
        parts.len() == 0 ==> end_lines(parts) == Seq::<char>::empty(),
    decreases parts.len(),
{
    if parts.len() > 0 {
        let init = parts.drop_last();
        lemma_end_lines(init);
        assert(init.push(parts.last()) =~= parts);
        lemma_join_push(init, seq!['\n'], parts.last());
        assert(end_lines(parts) =~= join_lines(parts).push('\n'));
    }
}

/// Appending a line to a text that ends with a line feed.
pub proof fn lemma_end_lines_push(parts: Seq<Seq<char>>, x: Seq<char>)
    ensures
        end_lines(parts.push(x)) == end_lines(parts) + x + seq!['\n'],
{
    assert(parts.push(x).drop_last() =~= parts);
}

/// Ended lines after ended lines.
pub proof fn lemma_end_lines_add(a: Seq<Seq<char>>, b: Seq<Seq<char>>)
    ensures
        end_lines(a + b) == end_lines(a) + end_lines(b),
    decreases b.len(),
{
    if b.len() == 0 {
        assert(a + b =~= a);
        assert(end_lines(a) + end_lines(b) =~= end_lines(a));
    } else {
        lemma_end_lines_add(a, b.drop_last());
        assert((a + b).drop_last() =~= a + b.drop_last());
        assert((a + b).last() == b.last());
        assert(end_lines(a + b) =~= end_lines(a) + end_lines(b));
    }
}

/// The lines of a text that begins with a whole line.
pub proof fn lemma_lines_cons(x: Seq<char>, rest: Seq<char>)
    requires
        is_line(x),
    ensures
        lines(x + seq!['\n'] + rest) == seq![chomp(x)] + lines(rest),
{
    let s = x + seq!['\n'] + rest;
    chars::lemma_find_char_is(s, '\n', x.len());
    assert(s.take(x.len() as int) =~= x);
    assert(s.skip(x.len() as int + 1) =~= rest);
}

/// The lines of a text without a line feed.
pub proof fn lemma_lines_single(x: Seq<char>)
    requires
        is_line(x),
    ensures
        lines(x) == if x.len() == 0 {
            Seq::<Seq<char>>::empty()
        } else {
            seq![x]
        },
{
    if x.len() > 0 {
        chars::lemma_find_char_is(x, '\n', x.len());
    }
}

/// Splitting undoes joining, where no line but the last ends with a carriage return
/// and the last is not empty.
pub proof fn lemma_lines_join(parts: Seq<Seq<char>>)
    requires
        forall|i: int| 0 <= i < parts.len() ==> is_line(#[trigger] parts[i]),
        forall|i: int| 0 <= i < parts.len() - 1 ==> !ends_with_return(#[trigger] parts[i]),
        parts.len() > 0 ==> parts.last().len() > 0,
    ensures
        lines(join_lines(parts)) == parts,
    decreases parts.len(),
{
    if parts.len() == 0 {
    } else if parts.len() == 1 {
        lemma_lines_single(parts[0]);
        assert(parts =~= seq![parts[0]]);
    } else {
        let rest = parts.skip(1);
        assert forall|i: int| 0 <= i < rest.len() implies is_line(#[trigger] rest[i]) by {
            assert(rest[i] == parts[i + 1]);
        }
        assert forall|i: int| 0 <= i < rest.len() - 1 implies !ends_with_return(
            #[trigger] rest[i],
        ) by {
            assert(rest[i] == parts[i + 1]);
        }
        assert(rest.last() == parts.last());
        lemma_lines_join(rest);
        assert(is_line(parts[0]) && !ends_with_return(parts[0]));
        lemma_lines_cons(parts[0], join_lines(rest));
        assert(parts =~= seq![parts[0]] + rest);
    }
}

/// Splitting undoes ending each line with a line feed, where no line ends with a
/// carriage return.
pub proof fn lemma_lines_end(parts: Seq<Seq<char>>)
    requires
        forall|i: int| 0 <= i < parts.len() ==> is_line(#[trigger] parts[i]),
        forall|i: int| 0 <= i < parts.len() ==> !ends_with_return(#[trigger] parts[i]),
    ensures
        lines(end_lines(parts)) == parts,
    decreases parts.len(),
{
    if parts.len() == 0 {
        lemma_end_lines(parts);
        assert(parts =~= Seq::<Seq<char>>::empty());
    } else {
        let rest = parts.skip(1);
        assert forall|i: int| 0 <= i < rest.len() implies is_line(#[trigger] rest[i])
            && !ends_with_return(rest[i]) by {
            assert(rest[i] == parts[i + 1]);
        }
        lemma_lines_end(rest);
        lemma_end_lines_head(parts);
        assert(is_line(parts[0]) && !ends_with_return(parts[0]));
        lemma_lines_cons(parts[0], end_lines(rest));
        assert(parts =~= seq![parts[0]] + rest);
    }
}

/// How the text of lines relates to the text of ended lines.
pub proof fn lemma_text_of(parts: Seq<Seq<char>>, closed: bool)
    ensures
        text_of(parts, closed) == if closed || parts.len() == 0 {
            end_lines(parts)
        } else {
            end_lines(parts).drop_last()
        },
        parts.len() > 0 ==> end_lines(parts).len() > 0,
{
    lemma_end_lines(parts);
    if parts.len() > 0 {
        assert(join_lines(parts).push('\n').drop_last() =~= join_lines(parts));
    }
}

/// The lines of the text of lines without line feeds, and without carriage returns
/// before the line feeds that end them: those lines, but for an empty last line that
/// nothing ends. Written again they give the same text.
pub proof fn lemma_lines_of_text(parts: Seq<Seq<char>>, ended: bool)
    requires
        forall|i: int| 0 <= i < parts.len() ==> is_line(#[trigger] parts[i]),
        unreturned(parts, ended),
    ensures
        ({
            let t = text_of(parts, ended);
            &&& lines(t) == if parts.len() > 0 && !ended && parts.last().len() == 0 {
                parts.drop_last()
            } else {
                parts
            }
            &&& text_of(lines(t), closed(t)) == t
        }),
{
    let t = text_of(parts, ended);
    if parts.len() == 0 {
        assert(t =~= Seq::<char>::empty());
        assert(parts =~= Seq::<Seq<char>>::empty());
    } else {
        lemma_end_lines(parts);
        let init = parts.drop_last();
        assert(init.push(parts.last()) =~= parts);
        lemma_join_push(init, seq!['\n'], parts.last());
        assert forall|i: int| 0 <= i < init.len() implies is_line(#[trigger] init[i])
            && !ends_with_return(init[i]) by {
            assert(init[i] == parts[i]);
        }
        assert(is_line(parts[parts.len() - 1]));
        if ended {
            lemma_lines_end(parts);
        } else if parts.last().len() > 0 {
            lemma_lines_join(parts);
            assert(t.last() == parts.last().last());
        } else if init.len() > 0 {
            lemma_end_lines(init);
            assert(t =~= end_lines(init));
            lemma_lines_end(init);
        } else {
            assert(t =~= Seq::<char>::empty());
            assert(init =~= Seq::<Seq<char>>::empty());
        }
    }
}

/// A text without a carriage return before a line feed is the text of its lines, none of
/// which ends with one before its line feed.
pub proof fn lemma_text_of_lines(s: Seq<char>)
    requires
        lacks_crlf(s),
    ensures
        text_of(lines(s), closed(s)) == s,
        unreturned(lines(s), closed(s)),
    decreases s.len(),
{
    let all = lines(s);
    if s.len() == 0 {
        assert(join_lines(all) =~= s);
    } else {
        chars::lemma_find_char(s, '\n');
        let k = chars::find_char(s, '\n') as int;
        if k < s.len() {
            let first = s.take(k);
            let rest = s.skip(k + 1);
            assert forall|j: int| 0 <= j < rest.len() - 1 && #[trigger] rest[j]
                == '\r' implies rest[j + 1] != '\n' by {
                assert(rest[j] == s[k + 1 + j]);
            }
            lemma_text_of_lines(rest);
            assert(chomp(first) == first && !ends_with_return(first)) by {
                if k > 0 {
                    assert(first.last() == s[k - 1]);
                }
            }
            assert(all =~= seq![first] + lines(rest));
            assert forall|i: int|
                0 <= i < all.len() && (closed(s) || i < all.len() - 1) implies !ends_with_return(
                #[trigger] all[i],
            ) by {
                if i > 0 {
                    assert(all[i] == lines(rest)[i - 1]);
                    assert(rest.len() > 0);
                    assert(rest.last() == s.last());
                }
            }
            assert(all.skip(1) =~= lines(rest));
            assert(s =~= first + seq!['\n'] + rest);
            if rest.len() > 0 {
                assert(rest.last() == s.last());
                lemma_lines_some(rest);
                if closed(s) {
                    lemma_end_lines_head(all);
                }
            } else {
                assert(s.last() == '\n');
                lemma_end_lines_head(all);
                assert(all.skip(1) =~= Seq::<Seq<char>>::empty());
                assert(end_lines(all.skip(1)) =~= rest);
            }
        } else {
            assert(s.last() != '\n');
            assert(all =~= seq![s]);
        }
    }
}

/// A text that is not empty has a line.
proof fn lemma_lines_some(s: Seq<char>)
    requires
        s.len() > 0,
    ensures
        lines(s).len() > 0,
{
}

/// A text of ended lines, with its first line taken off.
pub proof fn lemma_end_lines_head(parts: Seq<Seq<char>>)
    requires
        parts.len() > 0,
    ensures
        end_lines(parts) == parts[0] + seq!['\n'] + end_lines(parts.skip(1)),
    decreases parts.len(),
{
    if parts.len() == 1 {
        assert(parts.drop_last() =~= Seq::<Seq<char>>::empty());
        assert(parts.skip(1) =~= Seq::<Seq<char>>::empty());
        assert(end_lines(parts) =~= parts[0] + seq!['\n'] + end_lines(parts.skip(1)));
    } else {
        let init = parts.drop_last();
        lemma_end_lines_head(init);
        assert(init.skip(1) =~= parts.skip(1).drop_last());
        assert(end_lines(parts) =~= parts[0] + seq!['\n'] + end_lines(parts.skip(1)));
    }
}

/// Every line is free of line feeds.
pub proof fn lemma_lines_are_lines(s: Seq<char>)
    ensures
        forall|i: int| 0 <= i < lines(s).len() ==> is_line(#[trigger] lines(s)[i]),
    decreases s.len(),
{
    if s.len() > 0 {
        chars::lemma_find_char(s, '\n');
        let k = chars::find_char(s, '\n') as int;
        if k < s.len() {
            let rest = s.skip(k + 1);
            lemma_lines_are_lines(rest);
            assert forall|i: int| 0 <= i < lines(s).len() implies is_line(#[trigger] lines(s)[i]) by {
                if i > 0 {
                    assert(lines(s)[i] == lines(rest)[i - 1]);
                } else {
                    assert(lines(s)[0] == chomp(s.take(k)));
                }
            }
        }
    }
}

/// The lines of a text lack what the text lacks.
pub proof fn lemma_lines_lack(s: Seq<char>, c: char)
    requires
        chars::lacks(s, c),
    ensures
        forall|i: int| 0 <= i < lines(s).len() ==> chars::lacks(#[trigger] lines(s)[i], c),
    decreases s.len(),
{
    if s.len() > 0 {
        chars::lemma_find_char(s, '\n');
        let k = chars::find_char(s, '\n') as int;
        if k < s.len() {
            let rest = s.skip(k + 1);
            assert forall|j: int| 0 <= j < rest.len() implies #[trigger] rest[j] != c by {
                assert(rest[j] == s[k + 1 + j]);
            }
            lemma_lines_lack(rest, c);
            let first = chomp(s.take(k));
            assert forall|j: int| 0 <= j < first.len() implies #[trigger] first[j] != c by {
                assert(first[j] == s[j]);
            }
            assert forall|i: int| 0 <= i < lines(s).len() implies chars::lacks(
                #[trigger] lines(s)[i],
                c,
            ) by {
                if i > 0 {
                    assert(lines(s)[i] == lines(rest)[i - 1]);
                }
            }
        }
    }
}

/// A text of lines lacks what the lines lack.
pub proof fn lemma_text_lacks(parts: Seq<Seq<char>>, ended: bool, c: char)
    requires
        c != '\n',
        forall|i: int| 0 <= i < parts.len() ==> chars::lacks(#[trigger] parts[i], c),
    ensures
        chars::lacks(text_of(parts, ended), c),
{
    lemma_end_lines_lack(parts, c);
    lemma_text_of(parts, ended);
    let s = end_lines(parts);
    let t = text_of(parts, ended);
    assert forall|j: int| 0 <= j < t.len() implies #[trigger] t[j] != c by {
        assert(t[j] == s[j]);
    }
}

proof fn lemma_end_lines_lack(parts: Seq<Seq<char>>, c: char)
    requires
        c != '\n',
        forall|i: int| 0 <= i < parts.len() ==> chars::lacks(#[trigger] parts[i], c),
    ensures
        chars::lacks(end_lines(parts), c),
    decreases parts.len(),
{
    if parts.len() > 0 {
        let init = parts.drop_last();
        let last = parts[parts.len() - 1];
        assert forall|i: int| 0 <= i < init.len() implies chars::lacks(#[trigger] init[i], c) by {
            assert(init[i] == parts[i]);
        }
        lemma_end_lines_lack(init, c);
        assert(chars::lacks(last, c));
        let a = end_lines(init);
        let s = end_lines(parts);
        assert forall|j: int| 0 <= j < s.len() implies #[trigger] s[j] != c by {
            if j < a.len() {
                assert(s[j] == a[j]);
            } else if j < a.len() + last.len() {
                assert(s[j] == last[j - a.len()]);
            }
        }
    }
}

/// The lines hold no more characters than the text.
pub proof fn lemma_lines_total(s: Seq<char>)
    ensures
        total_len(lines(s)) <= s.len(),
    decreases s.len(),
{
    if s.len() > 0 {
        chars::lemma_find_char(s, '\n');
        let k = chars::find_char(s, '\n') as int;
        if k < s.len() {
            let rest = s.skip(k + 1);
            lemma_lines_total(rest);
            lemma_total_cons(chomp(s.take(k)), lines(rest));
        } else {
            lemma_total_cons(s, seq![]);
            assert(seq![s] + Seq::<Seq<char>>::empty() =~= seq![s]);
        }
    }
}

/// The length of all parts, with the first part taken off.
pub proof fn lemma_total_cons(x: Seq<char>, parts: Seq<Seq<char>>)
    ensures
        total_len(seq![x] + parts) == x.len() + total_len(parts),
    decreases parts.len(),
{
    let all = seq![x] + parts;
    if parts.len() == 0 {
        assert(all =~= seq![x]);
        assert(all.drop_last() =~= parts);
        assert(all.last() == x);
    } else {
        lemma_total_cons(x, parts.drop_last());
        assert(all.drop_last() =~= seq![x] + parts.drop_last());
        assert(all.last() == parts.last());
    }
}

/// The first word of a text that begins with a word.
pub proof fn lemma_words_cons(w: Seq<char>, rest: Seq<char>)
    requires
        w.len() > 0,
        forall|j: int| 0 <= j < w.len() ==> !chars::whitespace(w[j]),
        rest.len() > 0 ==> chars::whitespace(rest[0]),
    ensures
        words(w + rest) == seq![w] + words(rest),
{
    let s = w + rest;
    assert(s[0] == w[0]);
    chars::lemma_trim_start_is(s, 0);
    assert(s.skip(0) =~= s);
    chars::lemma_find_white_is(s, w.len());
    assert(s.take(w.len() as int) =~= w);
    assert(s.skip(w.len() as int) =~= rest);
}

/// A space before a text does not change its words.
pub proof fn lemma_words_space(rest: Seq<char>)
    ensures
        words(seq![' '] + rest) == words(rest),
{
    let s = seq![' '] + rest;
    assert(s.skip(1) =~= rest);
    assert(chars::trim_start(s) == chars::trim_start(rest));
}

/// The lines of `s`.
pub fn split_lines<'a>(s: &'a [char]) -> (r: Vec<&'a [char]>)
    ensures
        chars::views(r@) == lines(s@),
{
    let mut out: Vec<&'a [char]> = Vec::new();
    let mut rest: &'a [char] = s;
    proof {
        assert(chars::views(out@) + lines(rest@) =~= lines(s@));
    }
    while rest.len() > 0
        invariant
            chars::views(out@) + lines(rest@) == lines(s@),
        decreases rest@.len(),
    {
        let k = chars::index_of(rest, '\n');
        let ghost before = out@;
        let ghost old_rest = rest@;
        if k < rest.len() {
            let end: usize = if k > 0 && rest[k - 1] == '\r' {
                k - 1
            } else {
                k
            };
            let line = slice_subrange(rest, 0, end);
            proof {
                assert(line@ =~= chomp(rest@.take(k as int)));
            }
            out.push(line);
            rest = slice_subrange(rest, k + 1, rest.len());
            proof {
                assert(rest@ =~= old_rest.skip(k + 1));
                assert(chars::views(out@) + lines(rest@) =~= chars::views(before) + lines(old_rest));
            }
        } else {
            out.push(rest);
            rest = slice_subrange(rest, k, k);
            proof {
                assert(chars::views(out@) + lines(rest@) =~= chars::views(before) + lines(old_rest));
            }
        }
    }
    proof {
        assert(chars::views(out@) + lines(rest@) =~= chars::views(out@));
    }
    out
}

/// Whether the text ends with a line feed.
pub fn is_closed(s: &[char]) -> (r: bool)
    ensures
        r == closed(s@),
{
    s.len() > 0 && s[s.len() - 1] == '\n'
}

/// Takes off the last line feed of `out` where `s` does not end with one.
pub fn close(out: &mut Vec<char>, s: &[char])
    ensures
        final(out)@ == if closed(s@) || old(out)@.len() == 0 {
            old(out)@
        } else {
            old(out)@.drop_last()
        },
{
    if !is_closed(s) {
        out.pop();
    }
}

/// The words of `s`.
pub fn split_words<'a>(s: &'a [char]) -> (r: Vec<&'a [char]>)
    ensures
        chars::views(r@) == words(s@),
{
    let mut out: Vec<&'a [char]> = Vec::new();
    let mut rest: &'a [char] = chars::trimmed_start(s);
    proof {
        chars::lemma_trim_start(s@);
        chars::lemma_trim_start_is(rest@, 0);
        assert(rest@.skip(0) =~= rest@);
        assert(words(rest@) == words(s@));
        assert(chars::views(out@) + words(rest@) =~= words(s@));
    }
    while rest.len() > 0
        invariant
            chars::views(out@) + words(rest@) == words(s@),
            chars::trim_start(rest@) == rest@,
        decreases rest@.len(),
    {
        let k = chars::index_of_white(rest);
        let ghost before = out@;
        let ghost old_rest = rest@;
        proof {
            chars::lemma_find_white(rest@);
            chars::lemma_trim_start(rest@);
        }
        let word = slice_subrange(rest, 0, k);
        out.push(word);
        let after = slice_subrange(rest, k, rest.len());
        rest = chars::trimmed_start(after);
        proof {
            chars::lemma_trim_start(after@);
            chars::lemma_trim_start_is(rest@, 0);
            assert(rest@.skip(0) =~= rest@);
            assert(words(rest@) == words(after@));
            assert(after@ =~= old_rest.skip(k as int));
            assert(word@ =~= old_rest.take(k as int));
            assert(chars::views(out@) + words(rest@) =~= chars::views(before) + words(old_rest));
        }
    }
    proof {
        assert(chars::views(out@) + words(rest@) =~= chars::views(out@));
    }
    out
}

} // verus!
