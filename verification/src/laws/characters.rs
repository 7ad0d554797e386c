//! Characters, numbers, lines and words.
use vstd::prelude::*;
use crate::chars;
use crate::lines;

verus! {

// ---- characters and numbers ----

/// What counts as whitespace: the characters with the Unicode property `White_Space`, and
/// among the characters of ASCII the space and the five from tab to carriage return.
pub proof fn lemma_whitespace(c: char)
    ensures
        chars::whitespace(c) <==> (c == ' ' || '\t' <= c <= '\r' || c == '\u{85}' || c == '\u{a0}'
            || c == '\u{1680}' || '\u{2000}' <= c <= '\u{200a}' || c == '\u{2028}' || c
            == '\u{2029}' || c == '\u{202f}' || c == '\u{205f}' || c == '\u{3000}'),
        '!' <= c <= '~' ==> !chars::whitespace(c),
{
}

/// Trimming takes off the margins, and nothing else: of a text between whitespace and
/// whitespace it leaves the text.
pub proof fn lemma_trim_takes_the_margins(a: Seq<char>, s: Seq<char>, b: Seq<char>)
    requires
        forall|j: int| 0 <= j < a.len() ==> chars::whitespace(#[trigger] a[j]),
        forall|j: int| 0 <= j < b.len() ==> chars::whitespace(#[trigger] b[j]),
        s.len() > 0 ==> !chars::whitespace(s[0]) && !chars::whitespace(s.last()),
    ensures
        chars::trim(a + s + b) == s,
        s.len() > 0 ==> chars::trim_start(a + s + b) == s + b,
        s.len() > 0 ==> chars::trim_end(a + s + b) == a + s,
        s.len() == 0 ==> chars::trim_start(a + s + b) == s && chars::trim_end(a + s + b) == s,
{
    let t = a + s + b;
    if s.len() == 0 {
        assert forall|j: int| 0 <= j < t.len() implies chars::whitespace(t[j]) by {
            if j >= a.len() {
                assert(t[j] == b[j - a.len()]);
            } else {
                assert(t[j] == a[j]);
            }
        }
        chars::lemma_trim_start_is(t, t.len() as int);
        chars::lemma_trim_end_is(t, 0);
        assert(t.skip(t.len() as int) =~= s);
        assert(t.take(0) =~= s);
        chars::lemma_trim_end_is(s, 0);
        assert(s.take(0) =~= s);
    } else {
        let k = a.len() as int;
        let m = k + s.len();
        assert forall|j: int| 0 <= j < k implies chars::whitespace(t[j]) by {
            assert(t[j] == a[j]);
        }
        assert(t[k] == s[0]);
        chars::lemma_trim_start_is(t, k);
        assert(t.skip(k) =~= s + b);
        assert forall|j: int| m <= j < t.len() implies chars::whitespace(t[j]) by {
            assert(t[j] == b[j - m]);
        }
        assert(t[m - 1] == s.last());
        chars::lemma_trim_end_is(t, m);
        assert(t.take(m) =~= a + s);
        let u = s + b;
        assert forall|j: int| s.len() <= j < u.len() implies chars::whitespace(u[j]) by {
            assert(u[j] == b[j - s.len()]);
        }
        assert(u[s.len() - 1] == s.last());
        chars::lemma_trim_end_is(u, s.len() as int);
        assert(u.take(s.len() as int) =~= s);
    }
}

/// Decimal notation: ten times a number and a digit is written as the number and the digit.
pub proof fn lemma_decimal_notation(n: nat, d: nat)
    requires
        d < 10,
    ensures
        n == 0 ==> chars::decimal(d) == seq!["0123456789"@[d as int]],
        n > 0 ==> chars::decimal(10 * n + d) == chars::decimal(n).push("0123456789"@[d as int]),
{
    reveal_strlit("0123456789");
    assert("0123456789"@[d as int] == chars::digit(d));
    if n > 0 {
        assert((10 * n + d) / 10 == n);
        assert((10 * n + d) % 10 == d as int);
    }
}

/// A number that is written in decimal notation is read as that number, with any zeros
/// before it.
pub proof fn lemma_decimal_is_read(n: nat)
    ensures
        chars::number(chars::decimal(n)) == n,
        chars::number(seq!['0'] + chars::decimal(n)) == n,
        n > 0 ==> chars::decimal(n)[0] != '0',
    decreases n,
{
    chars::lemma_decimal(n);
    let s = chars::decimal(n);
    lemma_zero_before(s);
    if n >= 10 {
        lemma_decimal_is_read(n / 10);
        chars::lemma_decimal(n / 10);
        assert(s[0] == chars::decimal(n / 10)[0]);
    }
}

proof fn lemma_zero_before(s: Seq<char>)
    ensures
        chars::number(seq!['0'] + s) == chars::number(s),
    decreases s.len(),
{
    let t = seq!['0'] + s;
    if s.len() == 0 {
        assert(t.drop_last() =~= s);
        assert(t.last() == '0');
    } else {
        assert(t.drop_last() =~= seq!['0'] + s.drop_last());
        assert(t.last() == s.last());
        lemma_zero_before(s.drop_last());
    }
}

/// The number that digits stand for, digit by digit.
pub proof fn lemma_digits_are_read(s: Seq<char>, d: nat)
    requires
        d < 10,
    ensures
        chars::number(Seq::<char>::empty()) == 0,
        chars::number(s.push("0123456789"@[d as int])) == 10 * chars::number(s) + d,
{
    reveal_strlit("0123456789");
    let t = s.push("0123456789"@[d as int]);
    assert("0123456789"@[d as int] == chars::digit(d));
    assert(t.drop_last() =~= s);
}

/// A text occurs in another exactly where the other is that text between two others.
pub proof fn lemma_occurs_between(part: Seq<char>, s: Seq<char>)
    ensures
        chars::occurs(part, s) <==> exists|a: Seq<char>, b: Seq<char>| s == #[trigger] (a + part + b),
{
    if chars::occurs(part, s) {
        let i = choose|i: int| #[trigger] chars::occurs_at(part, s, i);
        let a = s.take(i);
        let b = s.skip(i + part.len());
        assert(a + part + b =~= s);
    }
    if exists|a: Seq<char>, b: Seq<char>| s == #[trigger] (a + part + b) {
        let (a, b) = choose|a: Seq<char>, b: Seq<char>| s == #[trigger] (a + part + b);
        let i = a.len() as int;
        assert(s.subrange(i, i + part.len()) =~= part);
        assert(chars::occurs_at(part, s, i));
    }
}

/// The bytes of a text: one for a character of ASCII, up to four for others.
pub proof fn lemma_bytes_are_counted(s: Seq<char>, c: char)
    ensures
        chars::byte_len(Seq::<char>::empty()) == 0,
        chars::byte_len(s.push(c)) == chars::byte_len(s) + if c <= '\u{7f}' {
            1nat
        } else if c <= '\u{7ff}' {
            2
        } else if c <= '\u{ffff}' {
            3
        } else {
            4
        },
{
    chars::lemma_byte_len_add(s, seq![c]);
    chars::lemma_byte_len_one(c);
    assert(s.push(c) =~= s + seq![c]);
}

/// The first place of a character: it stands there, and nowhere before.
pub proof fn lemma_first_place(a: Seq<char>, c: char, b: Seq<char>)
    requires
        forall|j: int| 0 <= j < a.len() ==> #[trigger] a[j] != c,
    ensures
        chars::find_char(a, c) == a.len(),
        chars::find_char(a + seq![c] + b, c) == a.len(),
{
    let s = a + seq![c] + b;
    chars::lemma_find_char_is(a, c, a.len());
    assert forall|j: int| 0 <= j < a.len() implies s[j] != c by {
        assert(s[j] == a[j]);
    }
    assert(s[a.len() as int] == c);
    chars::lemma_find_char_is(s, c, a.len());
}

// ---- lines ----

/// The lines of a text: what stands before a line feed is a line, the carriage return
/// before the line feed is no part of it, and what stands behind the last line feed is a
/// line where there is anything.
pub proof fn lemma_lines(line: Seq<char>, rest: Seq<char>)
    requires
        forall|j: int| 0 <= j < line.len() ==> #[trigger] line[j] != '\n',
    ensures
        lines::lines(Seq::<char>::empty()) == Seq::<Seq<char>>::empty(),
        line.len() > 0 ==> lines::lines(line) == seq![line],
        lines::lines(line + seq!['\r', '\n'] + rest) == seq![line] + lines::lines(rest),
        !(line.len() > 0 && line.last() == '\r') ==> lines::lines(line + seq!['\n'] + rest) == seq![
            line,
        ] + lines::lines(rest),
{
    if line.len() > 0 {
        chars::lemma_find_char_is(line, '\n', line.len());
    }
    let s = line + seq!['\n'] + rest;
    assert forall|j: int| 0 <= j < line.len() implies s[j] != '\n' by {
        assert(s[j] == line[j]);
    }
    assert(s[line.len() as int] == '\n');
    chars::lemma_find_char_is(s, '\n', line.len());
    assert(s.take(line.len() as int) =~= line);
    assert(s.skip(line.len() as int + 1) =~= rest);
    let t = line + seq!['\r', '\n'] + rest;
    let m = (line.len() + 1) as nat;
    assert forall|j: int| 0 <= j < m implies t[j] != '\n' by {
        if j < line.len() {
            assert(t[j] == line[j]);
        }
    }
    assert(t[m as int] == '\n');
    chars::lemma_find_char_is(t, '\n', m);
    assert(t.take(m as int) =~= line.push('\r'));
    assert(line.push('\r').drop_last() =~= line);
    assert(t.skip(m as int + 1) =~= rest);
}

/// Joining puts the separator between each two parts, and nowhere else.
pub proof fn lemma_join(first: Seq<char>, rest: Seq<Seq<char>>, sep: Seq<char>)
    ensures
        lines::join(Seq::<Seq<char>>::empty(), sep) == Seq::<char>::empty(),
        lines::join(seq![first], sep) == first,
        rest.len() > 0 ==> lines::join(seq![first] + rest, sep) == first + sep + lines::join(
            rest,
            sep,
        ),
        lines::join_lines(rest) == lines::join(rest, seq!['\n']),
{
    assert((seq![first] + rest).skip(1) =~= rest);
}

/// The words of a text: the parts between its runs of whitespace.
pub proof fn lemma_words(margin: Seq<char>, word: Seq<char>, rest: Seq<char>)
    requires
        forall|j: int| 0 <= j < margin.len() ==> chars::whitespace(#[trigger] margin[j]),
        forall|j: int| 0 <= j < word.len() ==> !chars::whitespace(#[trigger] word[j]),
        word.len() > 0,
        rest.len() > 0 ==> chars::whitespace(rest[0]),
    ensures
        lines::words(margin) == Seq::<Seq<char>>::empty(),
        lines::words(margin + word + rest) == seq![word] + lines::words(rest),
{
    chars::lemma_trim_start_is(margin, margin.len() as int);
    assert(chars::trim_start(margin).len() == 0);
    let s = margin + word + rest;
    let k = margin.len() as int;
    assert forall|j: int| 0 <= j < k implies chars::whitespace(s[j]) by {
        assert(s[j] == margin[j]);
    }
    assert(s[k] == word[0]);
    chars::lemma_trim_start_is(s, k);
    let t = word + rest;
    assert(s.skip(k) =~= t);
    assert forall|j: int| 0 <= j < word.len() implies !chars::whitespace(t[j]) by {
        assert(t[j] == word[j]);
    }
    if rest.len() > 0 {
        assert(t[word.len() as int] == rest[0]);
    }
    chars::lemma_find_white_is(t, word.len());
    assert(t.take(word.len() as int) =~= word);
    assert(t.skip(word.len() as int) =~= rest);
}

} // verus!
