//! Long runs of encoded data.
use vstd::prelude::*;
use vstd::slice::slice_subrange;
use crate::chars;

verus! {

/// The longest run that is kept.
pub const THRESHOLD: usize = 1024;

/// `c` occurs in base64 or hexadecimal data.
pub open spec fn blob_char(c: char) -> bool {
    ||| '0' <= c <= '9'
    ||| 'A' <= c <= 'Z'
    ||| 'a' <= c <= 'z'
    ||| c == '+'
    ||| c == '/'
    ||| c == '='
    ||| c == '_'
    ||| c == '-'
}

/// The length of the run of such characters that begins `s`.
pub open spec fn blob_len(s: Seq<char>) -> nat
    decreases s.len(),
{
    if s.len() == 0 || !blob_char(s[0]) {
        0
    } else {
        1 + blob_len(s.skip(1))
    }
}

/// What stands for a run of `n` characters.
pub open spec fn blob_note(n: nat) -> Seq<char> {
    "[crush.blob "@ + chars::decimal(n) + " chars]"@
}

/// `s` with a note in place of every run that is longer than [`THRESHOLD`].
pub open spec fn elided(s: Seq<char>) -> Seq<char>
    decreases s.len(),
{
    let k = blob_len(s);
    if s.len() == 0 {
        seq![]
    } else if k == 0 {
        seq![s[0]] + elided(s.skip(1))
    } else {
        proof {
            lemma_blob_len(s);
        }
        (if k > THRESHOLD {
            blob_note(k)
        } else {
            s.take(k as int)
        }) + elided(s.skip(k as int))
    }
}

/// What [`blob_len`] finds.
pub proof fn lemma_blob_len(s: Seq<char>)
    ensures
        blob_len(s) <= s.len(),
        forall|j: int| 0 <= j < blob_len(s) ==> blob_char(#[trigger] s[j]),
        blob_len(s) < s.len() ==> !blob_char(s[blob_len(s) as int]),
    decreases s.len(),
{
    if s.len() > 0 && blob_char(s[0]) {
        let rest = s.skip(1);
        lemma_blob_len(rest);
        assert forall|j: int| 0 <= j < blob_len(s) implies blob_char(#[trigger] s[j]) by {
            if j > 0 {
                assert(s[j] == rest[j - 1]);
            }
        }
        if blob_len(s) < s.len() {
            assert(s[blob_len(s) as int] == rest[blob_len(rest) as int]);
        }
    }
}

/// Only one length can be what [`blob_len`] finds.
pub proof fn lemma_blob_len_is(s: Seq<char>, k: nat)
    requires
        k <= s.len(),
        forall|j: int| 0 <= j < k ==> blob_char(#[trigger] s[j]),
        k < s.len() ==> !blob_char(s[k as int]),
    ensures
        blob_len(s) == k,
{
    lemma_blob_len(s);
    let f = blob_len(s);
    if f < k {
        assert(blob_char(s[f as int]));
    } else if k < f {
        assert(blob_char(s[k as int]));
    }
}

/// No run in `s` is longer than [`THRESHOLD`].
pub open spec fn no_long_run(s: Seq<char>) -> bool {
    forall|i: int| 0 <= i <= s.len() ==> blob_len(#[trigger] s.skip(i)) <= THRESHOLD
}

/// A part behind some index of a text without long runs has none.
proof fn lemma_no_long_run_skip(s: Seq<char>, k: int)
    requires
        no_long_run(s),
        0 <= k <= s.len(),
    ensures
        no_long_run(s.skip(k)),
{
    let t = s.skip(k);
    assert forall|i: int| 0 <= i <= t.len() implies blob_len(#[trigger] t.skip(i)) <= THRESHOLD by {
        assert(t.skip(i) =~= s.skip(k + i));
    }
}

/// A text without long runs, such as one of hashes and short tokens, is not changed.
pub proof fn lemma_elided_keeps_short_runs(s: Seq<char>)
    requires
        no_long_run(s),
    ensures
        elided(s) == s,
    decreases s.len(),
{
    if s.len() > 0 {
        let k = blob_len(s);
        lemma_blob_len(s);
        assert(s.skip(0) =~= s);
        if k == 0 {
            lemma_no_long_run_skip(s, 1);
            lemma_elided_keeps_short_runs(s.skip(1));
            assert(seq![s[0]] + s.skip(1) =~= s);
        } else {
            lemma_no_long_run_skip(s, k as int);
            lemma_elided_keeps_short_runs(s.skip(k as int));
            assert(s.take(k as int) + s.skip(k as int) =~= s);
        }
    }
}

/// Where `b` does not go on with a run that ends `a`, the runs of `a` and those of `b`
/// are the runs of both.
proof fn lemma_no_long_run_join(a: Seq<char>, b: Seq<char>)
    requires
        no_long_run(a),
        no_long_run(b),
        (a.len() > 0 && !blob_char(a.last())) || b.len() == 0 || !blob_char(b[0]),
    ensures
        no_long_run(a + b),
{
    let s = a + b;
    assert forall|i: int| 0 <= i <= s.len() implies blob_len(#[trigger] s.skip(i)) <= THRESHOLD by {
        if i >= a.len() {
            assert(s.skip(i) =~= b.skip(i - a.len()));
        } else {
            let t = a.skip(i);
            let k = blob_len(t);
            lemma_blob_len(t);
            assert(k <= THRESHOLD);
            assert forall|j: int| 0 <= j < k implies blob_char(#[trigger] s.skip(i)[j]) by {
                assert(s.skip(i)[j] == t[j]);
            }
            if k < t.len() {
                assert(s.skip(i)[k as int] == t[k as int]);
            } else {
                assert(blob_char(t[k - 1]));
                assert(t[k - 1] == a.last());
                if b.len() > 0 {
                    assert(s.skip(i)[k as int] == b[0]);
                }
            }
            lemma_blob_len_is(s.skip(i), k);
        }
    }
}

/// A note is short.
proof fn lemma_blob_note(n: nat)
    requires
        n <= u64::MAX,
    ensures
        no_long_run(blob_note(n)),
        blob_note(n).len() > 0,
        blob_note(n).len() <= 39,
        blob_note(n)[0] == '[',
        blob_note(n).last() == ']',
{
    reveal_strlit("[crush.blob ");
    reveal_strlit(" chars]");
    reveal_with_fuel(chars::ten_to, 21);
    chars::lemma_decimal_len(n, 20);
    let s = blob_note(n);
    assert(s.last() == " chars]"@[6]);
    assert forall|i: int| 0 <= i <= s.len() implies blob_len(#[trigger] s.skip(i)) <= THRESHOLD by {
        lemma_blob_len(s.skip(i));
    }
}

/// No long run is left.
pub proof fn lemma_elided_has_no_long_run(s: Seq<char>)
    requires
        s.len() <= u64::MAX,
    ensures
        no_long_run(elided(s)),
        s.len() > 0 && !blob_char(s[0]) ==> elided(s).len() > 0 && elided(s)[0] == s[0],
        s.len() == 0 ==> elided(s).len() == 0,
    decreases s.len(),
{
    let k = blob_len(s);
    lemma_blob_len(s);
    if s.len() == 0 {
        assert forall|i: int| 0 <= i <= elided(s).len() implies blob_len(
            #[trigger] elided(s).skip(i),
        ) <= THRESHOLD by {
            lemma_blob_len(elided(s).skip(i));
        }
    } else if k == 0 {
        lemma_elided_has_no_long_run(s.skip(1));
        let a = seq![s[0]];
        assert forall|i: int| 0 <= i <= a.len() implies blob_len(#[trigger] a.skip(i))
            <= THRESHOLD by {
            lemma_blob_len(a.skip(i));
        }
        lemma_no_long_run_join(a, elided(s.skip(1)));
    } else {
        let rest = s.skip(k as int);
        lemma_elided_has_no_long_run(rest);
        if k > THRESHOLD {
            lemma_blob_note(k);
            lemma_no_long_run_join(blob_note(k), elided(rest));
        } else {
            let a = s.take(k as int);
            assert forall|i: int| 0 <= i <= a.len() implies blob_len(#[trigger] a.skip(i))
                <= THRESHOLD by {
                lemma_blob_len(a.skip(i));
            }
            assert(rest.len() > 0 ==> rest[0] == s[k as int]);
            lemma_no_long_run_join(a, elided(rest));
        }
    }
}

/// Eliding once is enough.
pub proof fn lemma_elided_is_idempotent(s: Seq<char>)
    requires
        s.len() <= u64::MAX,
    ensures
        elided(elided(s)) == elided(s),
{
    lemma_elided_has_no_long_run(s);
    lemma_elided_keeps_short_runs(elided(s));
}

/// Eliding never makes a text longer.
pub proof fn lemma_elided_shrinks(s: Seq<char>)
    requires
        s.len() <= u64::MAX,
    ensures
        elided(s).len() <= s.len(),
        !no_long_run(s) ==> elided(s).len() < s.len(),
    decreases s.len(),
{
    let k = blob_len(s);
    lemma_blob_len(s);
    if s.len() > 0 {
        if k == 0 {
            lemma_elided_shrinks(s.skip(1));
            if no_long_run(s.skip(1)) {
                let a = seq![s[0]];
                assert forall|i: int| 0 <= i <= a.len() implies blob_len(#[trigger] a.skip(i))
                    <= THRESHOLD by {
                    lemma_blob_len(a.skip(i));
                }
                lemma_no_long_run_join(a, s.skip(1));
                assert(a + s.skip(1) =~= s);
            }
        } else {
            let rest = s.skip(k as int);
            lemma_elided_shrinks(rest);
            if k > THRESHOLD {
                lemma_blob_note(k);
            } else if no_long_run(rest) {
                let a = s.take(k as int);
                assert forall|i: int| 0 <= i <= a.len() implies blob_len(#[trigger] a.skip(i))
                    <= THRESHOLD by {
                    lemma_blob_len(a.skip(i));
                }
                assert(rest.len() > 0 ==> rest[0] == s[k as int]);
                lemma_no_long_run_join(a, rest);
                assert(a + rest =~= s);
            }
        }
    } else {
        assert forall|i: int| 0 <= i <= s.len() implies blob_len(#[trigger] s.skip(i))
            <= THRESHOLD by {
            lemma_blob_len(s.skip(i));
        }
    }
}

/// Whether `c` occurs in base64 or hexadecimal data.
fn is_blob_char(c: char) -> (r: bool)
    ensures
        r == blob_char(c),
{
    ('0' <= c && c <= '9') || ('A' <= c && c <= 'Z') || ('a' <= c && c <= 'z') || c == '+' || c
        == '/' || c == '=' || c == '_' || c == '-'
}

/// The text with a note in place of every long run of encoded data.
pub fn elide(s: &[char]) -> (r: Vec<char>)
    ensures
        r@ == elided(s@),
{
    let n: usize = s.len();
    let mut out: Vec<char> = Vec::with_capacity(n);
    let mut i: usize = 0;
    proof {
        assert(s@.skip(0) =~= s@);
        assert(out@ + elided(s@) =~= elided(s@));
    }
    while i < n
        invariant
            i <= n == s@.len(),
            out@ + elided(s@.skip(i as int)) == elided(s@),
        decreases n - i,
    {
        let start = i;
        let ghost before = out@;
        let ghost t = s@.skip(start as int);
        while i < n && is_blob_char(s[i])
            invariant
                start <= i <= n == s@.len(),
                t == s@.skip(start as int),
                forall|j: int| 0 <= j < i - start ==> blob_char(#[trigger] t[j]),
            decreases n - i,
        {
            i = i + 1;
        }
        let run: usize = i - start;
        proof {
            assert(i < n ==> t[run as int] == s@[i as int]);
            lemma_blob_len_is(t, run as nat);
        }
        if run == 0 {
            out.push(s[i]);
            proof {
                assert(t.skip(1) =~= s@.skip(i as int + 1));
                assert(before + (seq![t[0]] + elided(t.skip(1))) =~= out@ + elided(t.skip(1)));
            }
            i = i + 1;
        } else {
            if run > THRESHOLD {
                chars::append_str(&mut out, "[crush.blob ");
                chars::append_decimal(&mut out, run as u64);
                chars::append_str(&mut out, " chars]");
                proof {
                    assert(out@ =~= before + blob_note(run as nat));
                }
            } else {
                let kept = slice_subrange(s, start, i);
                chars::append(&mut out, kept);
                proof {
                    assert(kept@ =~= t.take(run as int));
                }
            }
            proof {
                let piece = if run > THRESHOLD {
                    blob_note(run as nat)
                } else {
                    t.take(run as int)
                };
                let after = elided(t.skip(run as int));
                assert(t.skip(run as int) =~= s@.skip(i as int));
                assert(before + (piece + after) =~= out@ + after);
            }
        }
    }
    proof {
        assert(s@.skip(i as int) =~= seq![]);
        assert(out@ + elided(s@.skip(i as int)) =~= out@);
    }
    out
}

} // verus!
