//! Shared path prefixes.
use vstd::prelude::*;
use vstd::slice::slice_subrange;
use crate::chars;
use crate::lines;

verus! {

/// The fewest lines that a prefix is factored out of.
pub const MIN_LINES: usize = 8;

/// The fewest characters of a prefix that is factored out.
pub const MIN_PREFIX_CHARS: usize = 12;

/// The number of characters with which both sequences begin.
pub open spec fn shared_len(a: Seq<char>, b: Seq<char>) -> nat
    decreases a.len(),
{
    if a.len() == 0 || b.len() == 0 || a[0] != b[0] {
        0
    } else {
        1 + shared_len(a.skip(1), b.skip(1))
    }
}

/// The longest sequence with which all the parts begin.
pub open spec fn common_prefix(parts: Seq<Seq<char>>) -> Seq<char>
    decreases parts.len(),
{
    if parts.len() == 0 {
        seq![]
    } else if parts.len() == 1 {
        parts[0]
    } else {
        let p = common_prefix(parts.drop_last());
        p.take(shared_len(p, parts.last()) as int)
    }
}

/// `p` up to its last path separator, which it includes; empty where there is none.
pub open spec fn directory(p: Seq<char>) -> Seq<char>
    decreases p.len(),
{
    if p.len() == 0 || p.last() == '/' {
        p
    } else {
        directory(p.drop_last())
    }
}

/// The directory that all lines share which are not blank.
pub open spec fn shared_directory(s: Seq<char>) -> Seq<char> {
    directory(common_prefix(lines::filled(lines::lines(s))))
}

/// `s` has lines enough, and shares a directory that is long enough. Nothing would be lost:
/// the directory is not itself a line, of which nothing would be left, and no carriage
/// return stands before a line feed.
pub open spec fn factors(s: Seq<char>) -> bool {
    &&& lines::filled(lines::lines(s)).len() >= MIN_LINES
    &&& shared_directory(s).len() >= MIN_PREFIX_CHARS
    &&& !lines::lines(s).contains(shared_directory(s))
    &&& lines::lacks_crlf(s)
}

/// The line that declares the prefix.
pub open spec fn prefix_line(prefix: Seq<char>) -> Seq<char> {
    "@crush.prefix="@ + prefix
}

/// What is left of a line that begins with the prefix; a blank line stays.
pub open spec fn unprefixed(line: Seq<char>, prefix: Seq<char>) -> Seq<char> {
    if line.len() == 0 {
        line
    } else {
        line.skip(prefix.len() as int)
    }
}

/// The lines with the prefix declared first and taken off each.
pub open spec fn factored_lines(s: Seq<char>) -> Seq<Seq<char>> {
    let prefix = shared_directory(s);
    seq![prefix_line(prefix)] + lines::lines(s).map_values(
        |line: Seq<char>| unprefixed(line, prefix),
    )
}

/// `s` with its shared directory factored out, where it is worth it.
pub open spec fn factored(s: Seq<char>) -> Seq<char> {
    if factors(s) {
        lines::text_of(factored_lines(s), lines::closed(s))
    } else {
        s
    }
}

// ---- facts ----

/// What [`shared_len`] counts.
pub proof fn lemma_shared_len(a: Seq<char>, b: Seq<char>)
    ensures
        shared_len(a, b) <= a.len(),
        shared_len(a, b) <= b.len(),
        forall|j: int| 0 <= j < shared_len(a, b) ==> a[j] == b[j],
        shared_len(a, b) < a.len() && shared_len(a, b) < b.len() ==> a[shared_len(a, b) as int]
            != b[shared_len(a, b) as int],
    decreases a.len(),
{
    if a.len() > 0 && b.len() > 0 && a[0] == b[0] {
        let x = a.skip(1);
        let y = b.skip(1);
        lemma_shared_len(x, y);
        assert forall|j: int| 0 <= j < shared_len(a, b) implies a[j] == b[j] by {
            if j > 0 {
                assert(a[j] == x[j - 1] && b[j] == y[j - 1]);
            }
        }
        if shared_len(a, b) < a.len() && shared_len(a, b) < b.len() {
            let k = shared_len(x, y) as int;
            assert(a[k + 1] == x[k] && b[k + 1] == y[k]);
        }
    }
}

/// Only one number can be what [`shared_len`] counts.
proof fn lemma_shared_len_is(a: Seq<char>, b: Seq<char>, k: nat)
    requires
        k <= a.len(),
        k <= b.len(),
        forall|j: int| 0 <= j < k ==> a[j] == b[j],
        k < a.len() && k < b.len() ==> a[k as int] != b[k as int],
    ensures
        shared_len(a, b) == k,
{
    lemma_shared_len(a, b);
    let f = shared_len(a, b);
    if f < k {
        assert(a[f as int] == b[f as int]);
    } else if k < f {
        assert(a[k as int] == b[k as int]);
    }
}

/// All the parts begin with their common prefix.
pub proof fn lemma_common_prefix(parts: Seq<Seq<char>>)
    ensures
        forall|i: int|
            0 <= i < parts.len() ==> common_prefix(parts).is_prefix_of(#[trigger] parts[i]),
    decreases parts.len(),
{
    if parts.len() == 1 {
        assert(parts[0].subrange(0, parts[0].len() as int) =~= parts[0]);
    } else if parts.len() > 1 {
        let init = parts.drop_last();
        let p = common_prefix(init);
        let q = common_prefix(parts);
        lemma_common_prefix(init);
        lemma_shared_len(p, parts.last());
        assert forall|i: int| 0 <= i < parts.len() implies q.is_prefix_of(#[trigger] parts[i]) by {
            if i < init.len() {
                assert(p.is_prefix_of(init[i]));
                assert(init[i] == parts[i]);
                assert forall|j: int| 0 <= j < q.len() implies q[j] == parts[i].subrange(
                    0,
                    q.len() as int,
                )[j] by {
                    assert(p[j] == parts[i].subrange(0, p.len() as int)[j]);
                }
                assert(q =~= parts[i].subrange(0, q.len() as int));
            } else {
                assert(q =~= parts[i].subrange(0, q.len() as int));
            }
        }
    }
}

/// No longer sequence begins all the parts.
pub proof fn lemma_common_prefix_is_longest(parts: Seq<Seq<char>>, q: Seq<char>)
    requires
        parts.len() > 0,
        forall|i: int| 0 <= i < parts.len() ==> q.is_prefix_of(#[trigger] parts[i]),
    ensures
        q.is_prefix_of(common_prefix(parts)),
    decreases parts.len(),
{
    if parts.len() == 1 {
        assert(q.is_prefix_of(parts[0]));
    } else {
        let init = parts.drop_last();
        let last = parts[parts.len() - 1];
        let p = common_prefix(init);
        assert forall|i: int| 0 <= i < init.len() implies q.is_prefix_of(#[trigger] init[i]) by {
            assert(init[i] == parts[i]);
        }
        lemma_common_prefix_is_longest(init, q);
        assert(q.is_prefix_of(last));
        lemma_shared_len(p, last);
        let k = shared_len(p, last);
        if k < q.len() {
            assert(p.subrange(0, q.len() as int)[k as int] == p[k as int]);
            assert(last.subrange(0, q.len() as int)[k as int] == last[k as int]);
        }
        assert(q =~= common_prefix(parts).subrange(0, q.len() as int));
    }
}

/// A directory is a prefix that ends with a path separator, or nothing.
pub proof fn lemma_directory(p: Seq<char>)
    ensures
        directory(p).is_prefix_of(p),
        directory(p).len() > 0 ==> directory(p).last() == '/',
        forall|j: int| directory(p).len() <= j < p.len() ==> p[j] != '/',
    decreases p.len(),
{
    if p.len() == 0 || p.last() == '/' {
        assert(p.subrange(0, p.len() as int) =~= p);
    } else {
        let init = p.drop_last();
        let d = directory(init);
        lemma_directory(init);
        assert(p.subrange(0, d.len() as int) =~= init.subrange(0, d.len() as int));
        assert forall|j: int| d.len() <= j < p.len() implies p[j] != '/' by {
            if j < init.len() {
                assert(p[j] == init[j]);
            }
        }
    }
}

/// Only one prefix can be the directory.
proof fn lemma_directory_is(p: Seq<char>, k: int)
    requires
        0 <= k <= p.len(),
        k > 0 ==> p[k - 1] == '/',
        forall|j: int| k <= j < p.len() ==> p[j] != '/',
    ensures
        directory(p) == p.take(k),
{
    lemma_directory(p);
    let d = directory(p);
    if d.len() < k {
        assert(p[k - 1] != '/');
    } else if k < d.len() {
        assert(d.last() == p.subrange(0, d.len() as int)[d.len() - 1]);
    }
    assert(d =~= p.take(k));
}

/// A line that is not blank is one of the filled lines.
proof fn lemma_filled_contains(parts: Seq<Seq<char>>, i: int)
    requires
        0 <= i < parts.len(),
        parts[i].len() > 0,
    ensures
        lines::filled(parts).contains(parts[i]),
    decreases parts.len(),
{
    let init = parts.drop_last();
    let all = lines::filled(parts);
    if i == init.len() {
        assert(all[all.len() - 1] == parts[i]);
    } else {
        lemma_filled_contains(init, i);
        let f = lines::filled(init);
        assert(init[i] == parts[i]);
        let r = choose|r: int| 0 <= r < f.len() && f[r] == init[i];
        assert(all[r] == parts[i]);
    }
}

/// Prepending the declared prefix to a line that is not blank gives the line that it
/// was taken off; a blank line stays as it is.
pub proof fn lemma_prefix_restores_lines(s: Seq<char>, i: int)
    requires
        0 <= i < lines::lines(s).len(),
    ensures
        ({
            let line = lines::lines(s)[i];
            let left = factored_lines(s)[i + 1];
            &&& line.len() > 0 ==> shared_directory(s).is_prefix_of(line) && shared_directory(s)
                + left == line
            &&& line.len() == 0 ==> left.len() == 0
        }),
{
    let all = lines::lines(s);
    let line = all[i];
    let p = common_prefix(lines::filled(all));
    let d = shared_directory(s);
    assert(factored_lines(s)[i + 1] == unprefixed(line, d));
    if line.len() > 0 {
        lemma_filled_contains(all, i);
        lemma_common_prefix(lines::filled(all));
        let f = lines::filled(all);
        let r = choose|r: int| 0 <= r < f.len() && f[r] == line;
        assert(p.is_prefix_of(f[r]));
        lemma_directory(p);
        assert forall|j: int| 0 <= j < d.len() implies d[j] == line[j] by {
            assert(d[j] == p.subrange(0, d.len() as int)[j]);
            assert(p[j] == line.subrange(0, p.len() as int)[j]);
        }
        assert(d =~= line.subrange(0, d.len() as int));
        assert(d + line.skip(d.len() as int) =~= line);
    }
}

/// The text that a text with a declared prefix stands for: the prefix before every line
/// that is not blank.
pub open spec fn prefix_restored(t: Seq<char>) -> Seq<char> {
    let all = lines::lines(t);
    let prefix = all[0].skip("@crush.prefix="@.len() as int);
    lines::text_of(
        all.skip(1).map_values(
            |line: Seq<char>|
                if line.len() == 0 {
                    line
                } else {
                    prefix + line
                },
        ),
        lines::closed(t),
    )
}

/// The lines of a text with a declared prefix are those that were written, and it ends as
/// the text did.
pub proof fn lemma_factored_lines(s: Seq<char>)
    requires
        factors(s),
    ensures
        lines::lines(factored(s)) == factored_lines(s),
        lines::closed(factored(s)) == lines::closed(s),
{
    lines::lemma_text_of_lines(s);
    let all = lines::lines(s);
    let d = shared_directory(s);
    let out = factored_lines(s);
    let t = factored(s);
    let ended = lines::closed(s);
    reveal_strlit("@crush.prefix=");
    let mark = "@crush.prefix="@;
    lines::lemma_lines_are_lines(s);
    lemma_directory(common_prefix(lines::filled(all)));
    lemma_some_line(all);
    let r = choose|r: int| 0 <= r < all.len() && (#[trigger] all[r]).len() > 0;
    lemma_prefix_restores_lines(s, r);
    assert forall|i: int| 0 <= i < out.len() implies lines::is_line(#[trigger] out[i]) && (ended
        || i < out.len() - 1 ==> !lines::ends_with_return(out[i])) by {
        if i == 0 {
            assert(lines::is_line(d)) by {
                assert forall|j: int| 0 <= j < d.len() implies d[j] != '\n' by {
                    assert(d[j] == all[r].subrange(0, d.len() as int)[j]);
                    assert(lines::is_line(all[r]));
                }
            }
            assert forall|j: int| 0 <= j < out[0].len() implies out[0][j] != '\n' by {
                if j >= mark.len() {
                    assert(out[0][j] == d[j - mark.len()]);
                }
            }
            assert(out[0].last() == d.last());
        } else {
            let line = all[i - 1];
            lemma_prefix_restores_lines(s, i - 1);
            assert(lines::is_line(line));
            assert(ended || i < out.len() - 1 ==> !lines::ends_with_return(all[i - 1]));
            if line.len() > 0 {
                assert forall|j: int| 0 <= j < out[i].len() implies out[i][j] != '\n' by {
                    assert(out[i][j] == line[d.len() + j]);
                }
                if out[i].len() > 0 {
                    assert(out[i].last() == line.last());
                }
            }
        }
    }
    lines::lemma_lines_of_text(out, ended);
    // No line is lost at the end, and the end is as it was.
    if !ended {
        lemma_last_line(s);
        lemma_prefix_restores_lines(s, all.len() - 1);
        assert(out.last() == out[all.len() as int]);
        assert(all.last() == all[all.len() - 1]);
        assert(all[all.len() - 1] != d);
        assert(out.last().len() > 0);
        let init = out.drop_last();
        assert(init.push(out.last()) =~= out);
        lines::lemma_join_push(init, seq!['\n'], out.last());
        assert(t.last() == out.last().last());
        assert(lines::is_line(out[all.len() as int]));
        assert(lines::closed(t) == ended);
    } else {
        lines::lemma_end_lines(out);
        assert(lines::closed(t) == ended);
    }
    assert(lines::lines(t) == out);
}

/// Factoring out a prefix loses nothing: prepending it gives the text again.
pub proof fn lemma_prefix_restores_text(s: Seq<char>)
    requires
        factors(s),
    ensures
        prefix_restored(factored(s)) == s,
{
    let all = lines::lines(s);
    let d = shared_directory(s);
    let out = factored_lines(s);
    let mark = "@crush.prefix="@;
    lines::lemma_text_of_lines(s);
    lemma_factored_lines(s);
    assert(out[0].skip(mark.len() as int) =~= d);
    let rest = out.skip(1);
    let again = rest.map_values(
        |line: Seq<char>|
            if line.len() == 0 {
                line
            } else {
                d + line
            },
    );
    assert forall|i: int| 0 <= i < all.len() implies again[i] == all[i] by {
        lemma_prefix_restores_lines(s, i);
        assert(rest[i] == out[i + 1]);
        if all[i].len() > 0 && rest[i].len() == 0 {
            assert(d + rest[i] =~= d);
        }
    }
    assert(again =~= all);
}

/// Where some line is not blank there is such a line.
pub proof fn lemma_some_line(parts: Seq<Seq<char>>)
    requires
        lines::filled(parts).len() > 0,
    ensures
        exists|r: int| 0 <= r < parts.len() && (#[trigger] parts[r]).len() > 0,
    decreases parts.len(),
{
    if parts.len() > 0 {
        if parts.last().len() > 0 {
            assert(parts[parts.len() - 1].len() > 0);
        } else {
            lemma_some_line(parts.drop_last());
            let init = parts.drop_last();
            let r = choose|r: int| 0 <= r < init.len() && (#[trigger] init[r]).len() > 0;
            assert(parts[r] == init[r]);
        }
    }
}

/// The last line of a text that does not end with a line feed is not blank.
proof fn lemma_last_line(s: Seq<char>)
    requires
        s.len() > 0,
        !lines::closed(s),
    ensures
        lines::lines(s).len() > 0,
        lines::lines(s).last().len() > 0,
    decreases s.len(),
{
    chars::lemma_find_char(s, '\n');
    let k = chars::find_char(s, '\n') as int;
    if k < s.len() {
        let rest = s.skip(k + 1);
        assert(rest.len() > 0);
        assert(rest.last() == s.last());
        lemma_last_line(rest);
    }
}

// ---- executable ----

/// The number of characters with which both slices begin.
fn shared(a: &[char], b: &[char]) -> (r: usize)
    ensures
        r == shared_len(a@, b@),
        r <= a@.len(),
{
    let mut k: usize = 0;
    while k < a.len() && k < b.len() && a[k] == b[k]
        invariant
            k <= a@.len(),
            k <= b@.len(),
            forall|j: int| 0 <= j < k ==> a@[j] == b@[j],
        decreases a@.len() - k,
    {
        k = k + 1;
    }
    proof {
        lemma_shared_len_is(a@, b@, k as nat);
    }
    k
}

/// The longest slice with which all lines begin that are not blank, and the number of
/// those lines.
fn longest_common_prefix<'a>(all: &Vec<&'a [char]>) -> (r: (&'a [char], usize))
    requires
        all@.len() > 0,
    ensures
        r.0@ == common_prefix(lines::filled(chars::views(all@))),
        r.1 == lines::filled(chars::views(all@)).len(),
{
    let ghost parts = chars::views(all@);
    let n: usize = all.len();
    let mut common: &'a [char] = slice_subrange(all[0], 0, 0);
    let mut count: usize = 0;
    let mut i: usize = 0;
    proof {
        assert(parts.take(0) =~= seq![]);
        assert(common@ =~= seq![]);
    }
    while i < n
        invariant
            i <= n == all@.len(),
            parts == chars::views(all@),
            count <= i,
            count == lines::filled(parts.take(i as int)).len(),
            common@ == common_prefix(lines::filled(parts.take(i as int))),
        decreases n - i,
    {
        let line = all[i];
        let ghost before = lines::filled(parts.take(i as int));
        proof {
            let upto = parts.take(i as int + 1);
            assert(upto.drop_last() =~= parts.take(i as int));
            assert(upto.last() == line@);
            assert(before.push(line@).drop_last() =~= before);
        }
        if line.len() > 0 {
            if count == 0 {
                common = line;
            } else {
                let k = shared(common, line);
                let ghost p = common@;
                common = slice_subrange(common, 0, k);
                proof {
                    assert(common@ =~= p.take(k as int));
                }
            }
            count = count + 1;
        }
        i = i + 1;
    }
    proof {
        assert(parts.take(i as int) =~= parts);
    }
    (common, count)
}

/// The part of `p` up to its last path separator.
fn directory_of<'a>(p: &'a [char]) -> (r: &'a [char])
    ensures
        r@ == directory(p@),
{
    let mut k: usize = p.len();
    while k > 0 && p[k - 1] != '/'
        invariant
            k <= p@.len(),
            forall|j: int| k <= j < p@.len() ==> p@[j] != '/',
        decreases k,
    {
        k = k - 1;
    }
    proof {
        lemma_directory_is(p@, k as int);
    }
    slice_subrange(p, 0, k)
}

/// Whether the line is among the lines.
fn has_line(all: &Vec<&[char]>, line: &[char]) -> (r: bool)
    ensures
        r == chars::views(all@).contains(line@),
{
    let mut k: usize = 0;
    while k < all.len()
        invariant
            k <= all@.len(),
            forall|j: int| 0 <= j < k ==> chars::views(all@)[j] != line@,
        decreases all@.len() - k,
    {
        if chars::same(all[k], line) {
            proof {
                assert(chars::views(all@)[k as int] == line@);
            }
            return true;
        }
        k = k + 1;
    }
    false
}

/// Whether some line feed has a carriage return before it.
fn has_crlf(s: &[char]) -> (r: bool)
    ensures
        r == !lines::lacks_crlf(s@),
{
    let mut k: usize = 1;
    while k < s.len()
        invariant
            1 <= k,
            k <= s@.len() || s@.len() == 0,
            forall|j: int| 0 <= j < k - 1 && #[trigger] s@[j] == '\r' ==> s@[j + 1] != '\n',
        decreases s@.len() - k,
    {
        if s[k - 1] == '\r' && s[k] == '\n' {
            return true;
        }
        k = k + 1;
    }
    false
}

/// The text with its shared directory factored out, where it is worth it.
pub fn fold(s: &[char]) -> (r: Vec<char>)
    ensures
        r@ == factored(s@),
{
    let all = lines::split_lines(s);
    let ghost parts = lines::lines(s@);
    let mut out: Vec<char> = Vec::new();
    if all.len() == 0 {
        proof {
            assert(parts.len() == 0);
        }
        chars::append(&mut out, s);
        return out;
    }
    let (common, count) = longest_common_prefix(&all);
    let prefix = directory_of(common);
    if count < MIN_LINES || prefix.len() < MIN_PREFIX_CHARS || has_line(
        &all,
        prefix,
    ) || has_crlf(s) {
        chars::append(&mut out, s);
        return out;
    }
    let m: usize = prefix.len();
    let ghost done = factored_lines(s@);
    chars::append_str(&mut out, "@crush.prefix=");
    chars::append(&mut out, prefix);
    out.push('\n');
    proof {
        assert(done.take(1) =~= Seq::<Seq<char>>::empty().push(prefix_line(prefix@)));
        lines::lemma_end_lines_push(Seq::<Seq<char>>::empty(), prefix_line(prefix@));
        assert(out@ =~= lines::end_lines(done.take(1)));
    }
    let mut i: usize = 0;
    while i < all.len()
        invariant
            i <= all@.len(),
            parts == chars::views(all@),
            parts == lines::lines(s@),
            done == factored_lines(s@),
            prefix@ == shared_directory(s@),
            m == prefix@.len(),
            out@ == lines::end_lines(done.take(i + 1)),
        decreases all@.len() - i,
    {
        let line = all[i];
        proof {
            assert(parts[i as int] == line@);
            lemma_prefix_restores_lines(s@, i as int);
            assert(done.take(i + 2) =~= done.take(i + 1).push(done[i + 1]));
            lines::lemma_end_lines_push(done.take(i + 1), done[i + 1]);
            assert(done[i + 1] == unprefixed(line@, prefix@));
        }
        if line.len() > 0 {
            let left = slice_subrange(line, m, line.len());
            chars::append(&mut out, left);
            proof {
                assert(left@ =~= line@.skip(m as int));
            }
        }
        out.push('\n');
        proof {
            assert(out@ =~= lines::end_lines(done.take(i + 2)));
        }
        i = i + 1;
    }
    proof {
        assert(done.take(i + 1) =~= done);
        lines::lemma_text_of(done, lines::closed(s@));
    }
    lines::close(&mut out, s);
    out
}

} // verus!
