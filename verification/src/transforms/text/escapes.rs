//! ANSI escape sequences.
use vstd::prelude::*;
use crate::chars;

verus! {

/// The escape character.
pub const ESC: char = '\u{1b}';

/// The bell character, which can end an operating system command.
pub const BEL: char = '\u{7}';

/// `c` ends a control sequence.
pub open spec fn is_final(c: char) -> bool {
    '@' <= c <= '~'
}

/// The length of what follows the introducer of a control sequence: all up to the
/// first final character, and that character.
pub open spec fn control_len(t: Seq<char>) -> nat
    decreases t.len(),
{
    if t.len() == 0 {
        0
    } else if is_final(t[0]) {
        1
    } else {
        1 + control_len(t.skip(1))
    }
}

/// The length of what follows the introducer of an operating system command: all up
/// to the first bell or string terminator, and that terminator.
pub open spec fn command_len(t: Seq<char>) -> nat
    decreases t.len(),
{
    if t.len() == 0 {
        0
    } else if t[0] == BEL {
        1
    } else if t[0] == ESC && t.len() > 1 && t[1] == '\\' {
        2
    } else {
        1 + command_len(t.skip(1))
    }
}

/// The length of the escape sequence that begins `s`, where `s` begins with an escape
/// character: a control sequence (`ESC [`), an operating system command (`ESC ]`), or
/// the escape character and the character after it.
pub open spec fn escape_len(s: Seq<char>) -> nat {
    if s.len() < 2 {
        s.len()
    } else if s[1] == '[' {
        2 + control_len(s.skip(2))
    } else if s[1] == ']' {
        2 + command_len(s.skip(2))
    } else {
        2
    }
}

/// `s` without its escape sequences.
pub open spec fn stripped(s: Seq<char>) -> Seq<char>
    decreases s.len(),
{
    if s.len() == 0 {
        seq![]
    } else if s[0] == ESC {
        proof {
            lemma_escape_len(s);
        }
        stripped(s.skip(escape_len(s) as int))
    } else {
        seq![s[0]] + stripped(s.skip(1))
    }
}

proof fn lemma_control_len(t: Seq<char>)
    ensures
        control_len(t) <= t.len(),
    decreases t.len(),
{
    if t.len() > 0 && !is_final(t[0]) {
        lemma_control_len(t.skip(1));
    }
}

proof fn lemma_command_len(t: Seq<char>)
    ensures
        command_len(t) <= t.len(),
    decreases t.len(),
{
    if t.len() > 0 && t[0] != BEL && !(t[0] == ESC && t.len() > 1 && t[1] == '\\') {
        lemma_command_len(t.skip(1));
    }
}

/// An escape sequence is not empty, and ends in the text.
pub proof fn lemma_escape_len(s: Seq<char>)
    ensures
        escape_len(s) <= s.len(),
        s.len() > 0 ==> escape_len(s) > 0,
{
    if s.len() >= 2 {
        lemma_control_len(s.skip(2));
        lemma_command_len(s.skip(2));
    }
}

/// No escape character is left.
pub proof fn lemma_stripped_has_no_escape(s: Seq<char>)
    ensures
        chars::lacks(stripped(s), ESC),
    decreases s.len(),
{
    if s.len() > 0 {
        if s[0] == ESC {
            lemma_escape_len(s);
            lemma_stripped_has_no_escape(s.skip(escape_len(s) as int));
        } else {
            let rest = stripped(s.skip(1));
            lemma_stripped_has_no_escape(s.skip(1));
            assert forall|j: int| 0 <= j < stripped(s).len() implies #[trigger] stripped(s)[j]
                != ESC by {
                if j > 0 {
                    assert(stripped(s)[j] == rest[j - 1]);
                }
            }
        }
    }
}

/// A text without escape characters is not changed.
pub proof fn lemma_stripped_keeps_plain_text(s: Seq<char>)
    requires
        chars::lacks(s, ESC),
    ensures
        stripped(s) == s,
    decreases s.len(),
{
    if s.len() > 0 {
        let rest = s.skip(1);
        assert forall|j: int| 0 <= j < rest.len() implies #[trigger] rest[j] != ESC by {
            assert(rest[j] == s[j + 1]);
        }
        lemma_stripped_keeps_plain_text(rest);
        assert(s[0] != ESC);
        assert(seq![s[0]] + rest =~= s);
    }
}

/// Stripping a stripped text changes nothing.
pub proof fn lemma_stripped_is_idempotent(s: Seq<char>)
    ensures
        stripped(stripped(s)) == stripped(s),
{
    lemma_stripped_has_no_escape(s);
    lemma_stripped_keeps_plain_text(stripped(s));
}

/// Plain text before an escape sequence stays, and the sequence goes.
pub proof fn lemma_stripped_passes_plain_text(plain: Seq<char>, rest: Seq<char>)
    requires
        chars::lacks(plain, ESC),
    ensures
        stripped(plain + rest) == plain + stripped(rest),
    decreases plain.len(),
{
    let s = plain + rest;
    if plain.len() == 0 {
        assert(s =~= rest);
        assert(plain + stripped(rest) =~= stripped(rest));
    } else {
        let more = plain.skip(1);
        assert forall|j: int| 0 <= j < more.len() implies #[trigger] more[j] != ESC by {
            assert(more[j] == plain[j + 1]);
        }
        lemma_stripped_passes_plain_text(more, rest);
        assert(plain[0] != ESC);
        assert(s[0] == plain[0]);
        assert(s.skip(1) =~= more + rest);
        assert(seq![plain[0]] + (more + stripped(rest)) =~= plain + stripped(rest));
    }
}

/// The index behind the escape sequence that begins at `start`.
fn skip_escape(s: &[char], start: usize) -> (r: usize)
    requires
        start < s@.len(),
    ensures
        r == start + escape_len(s@.skip(start as int)),
        start < r <= s@.len(),
{
    let ghost t = s@.skip(start as int);
    proof {
        lemma_escape_len(t);
    }
    let n: usize = s.len();
    if n - start < 2 {
        return n;
    }
    let mut i: usize = start + 2;
    let second = s[start + 1];
    proof {
        assert(t[1] == second);
        assert(t.skip(2) =~= s@.skip(i as int));
    }
    if second == '[' {
        let ghost whole = control_len(s@.skip(i as int));
        while i < n
            invariant
                n == s@.len(),
                start + 2 <= i <= n,
                escape_len(s@.skip(start as int)) == 2 + whole,
                start + 2 + whole == i + control_len(s@.skip(i as int)),
            decreases n - i,
        {
            proof {
                assert(s@.skip(i as int)[0] == s@[i as int]);
                assert(s@.skip(i as int).skip(1) =~= s@.skip(i as int + 1));
            }
            let c = s[i];
            i = i + 1;
            if '@' <= c && c <= '~' {
                return i;
            }
        }
        i
    } else if second == ']' {
        let ghost whole = command_len(s@.skip(i as int));
        while i < n
            invariant
                n == s@.len(),
                start + 2 <= i <= n,
                escape_len(s@.skip(start as int)) == 2 + whole,
                start + 2 + whole == i + command_len(s@.skip(i as int)),
            decreases n - i,
        {
            proof {
                assert(s@.skip(i as int)[0] == s@[i as int]);
                assert(i + 1 < n ==> s@.skip(i as int)[1] == s@[i as int + 1]);
                assert(s@.skip(i as int).skip(1) =~= s@.skip(i as int + 1));
            }
            let c = s[i];
            if c == BEL {
                return i + 1;
            }
            if c == ESC && n - i > 1 && s[i + 1] == '\\' {
                return i + 2;
            }
            i = i + 1;
        }
        i
    } else {
        i
    }
}

/// The text without its escape sequences.
pub fn strip(s: &[char]) -> (r: Vec<char>)
    ensures
        r@ == stripped(s@),
{
    let mut out: Vec<char> = Vec::with_capacity(s.len());
    let mut i: usize = 0;
    proof {
        assert(s@.skip(0) =~= s@);
        assert(out@ + stripped(s@) =~= stripped(s@));
    }
    while i < s.len()
        invariant
            i <= s@.len(),
            out@ + stripped(s@.skip(i as int)) == stripped(s@),
        decreases s@.len() - i,
    {
        let ghost before = out@;
        let ghost t = s@.skip(i as int);
        proof {
            assert(t[0] == s@[i as int]);
        }
        if s[i] == ESC {
            let next = skip_escape(s, i);
            proof {
                assert(t.skip(escape_len(t) as int) =~= s@.skip(next as int));
            }
            i = next;
        } else {
            out.push(s[i]);
            proof {
                assert(t.skip(1) =~= s@.skip(i as int + 1));
                assert(before + (seq![t[0]] + stripped(t.skip(1))) =~= out@ + stripped(t.skip(1)));
            }
            i = i + 1;
        }
    }
    proof {
        assert(s@.skip(i as int) =~= seq![]);
        assert(out@ + stripped(s@.skip(i as int)) =~= out@);
    }
    out
}

} // verus!
