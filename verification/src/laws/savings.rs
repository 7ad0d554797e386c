//! What a session has saved, and its report.
use vstd::prelude::*;
use crate::chars;
use crate::lines;
use crate::stats;
use crate::stats::{BucketModel, StatsModel};

verus! {

// ---- counting ----

/// What was saved is the bytes that went in without those that are left, and never less
/// than nothing. The share is its percentage, rounded down.
pub proof fn lemma_savings(input: nat, output: nat, saved: nat, share: nat)
    ensures
        stats::saved(output + saved, output) == saved,
        input <= output ==> stats::saved(input, output) == 0,
        stats::share(saved, 0) == 0,
        saved * 100 > u64::MAX ==> stats::share(saved, input) == 0,
        input > 0 && saved * 100 <= u64::MAX && share * input <= 100 * saved && 100 * saved < (share
            + 1) * input ==> stats::share(saved, input) == share,
{
    if input > 0 && saved * 100 <= u64::MAX && share * input <= 100 * saved && 100 * saved < (share
        + 1) * input {
        assert(saved * 100 / input == share) by (nonlinear_arith)
            requires
                input > 0,
                share * input <= 100 * saved,
                100 * saved < (share + 1) * input,
        ;
    }
}

/// A call that saved nothing leaves a session as it is. One that did adds its bytes to the
/// totals and to its bucket, and counts one call in each.
pub proof fn lemma_wins_are_added(
    session: StatsModel,
    name: Seq<char>,
    input: nat,
    output: nat,
)
    requires
        stats::consistent(session),
    ensures
        output >= input ==> stats::recorded(session, name, input, output) == session,
        output < input ==> {
            let after = stats::recorded(session, name, input, output);
            &&& after.input == session.input + input
            &&& after.output == session.output + output
            &&& after.calls == session.calls + 1
            &&& stats::consistent(after)
            &&& forall|b: BucketModel|
                b.name != name ==> (#[trigger] after.buckets.contains(b)
                    <==> session.buckets.contains(b))
            &&& forall|b: BucketModel|
                b.name == name && session.buckets.contains(b) ==> #[trigger] after.buckets.contains(
                    with(b, input, output),
                )
            &&& (forall|i: int|
                0 <= i < session.buckets.len() ==> (#[trigger] session.buckets[i]).name != name)
                ==> after.buckets.contains(BucketModel { name, input, output, calls: 1 })
        },
{
    if output < input {
        stats::lemma_recorded_is_consistent(session, name, input, output);
        let p = session.buckets;
        let after = stats::recorded(session, name, input, output);
        let q = after.buckets;
        stats::lemma_bucket_index(p, name);
        let k = stats::bucket_index(p, name) as int;
        assert forall|b: BucketModel| b.name != name implies (#[trigger] q.contains(b)
            <==> p.contains(b)) by {
            if q.contains(b) {
                let i = choose|i: int| 0 <= i < q.len() && q[i] == b;
                assert(i != k);
                assert(p[i] == b);
            }
            if p.contains(b) {
                let i = choose|i: int| 0 <= i < p.len() && p[i] == b;
                assert(i != k);
                assert(q[i] == b);
            }
        }
        assert forall|b: BucketModel|
            b.name == name && p.contains(b) implies #[trigger] q.contains(
            with(b, input, output),
        ) by {
            let i = choose|i: int| 0 <= i < p.len() && p[i] == b;
            if i < k {
                assert(p[i].name != name);
            } else if k < i {
                assert(p[k].name != p[i].name);
            }
            assert(q[k] == with(b, input, output));
        }
        if forall|i: int| 0 <= i < p.len() ==> (#[trigger] p[i]).name != name {
            if k < p.len() {
                assert(p[k].name != name);
            }
            assert(q[k] == BucketModel { name, input, output, calls: 1 });
        }
    }
}

/// The bucket with one more call.
pub open spec fn with(b: BucketModel, input: nat, output: nat) -> BucketModel {
    BucketModel {
        name: b.name,
        input: b.input + input,
        output: b.output + output,
        calls: b.calls + 1,
    }
}

/// What is kept of every session: the totals are the sums over its buckets, each bucket has
/// a name of its own, and each has saved something.
pub proof fn lemma_sessions_add_up(session: StatsModel, buckets: Seq<BucketModel>, b: BucketModel)
    ensures
        stats::consistent(session) ==> session.input == stats::total_input(session.buckets)
            && session.output == stats::total_output(session.buckets) && session.calls
            == stats::total_calls(session.buckets) && (forall|i: int, j: int|
            0 <= i < j < session.buckets.len() ==> (#[trigger] session.buckets[i]).name != (
            #[trigger] session.buckets[j]).name) && (forall|i: int|
            0 <= i < session.buckets.len() ==> (#[trigger] session.buckets[i]).output
                < session.buckets[i].input && session.buckets[i].calls > 0),
        stats::total_input(Seq::empty()) == 0,
        stats::total_output(Seq::empty()) == 0,
        stats::total_calls(Seq::empty()) == 0,
        stats::total_input(buckets.push(b)) == stats::total_input(buckets) + b.input,
        stats::total_output(buckets.push(b)) == stats::total_output(buckets) + b.output,
        stats::total_calls(buckets.push(b)) == stats::total_calls(buckets) + b.calls,
{
    assert(buckets.push(b).drop_last() =~= buckets);
}

// ---- ranking ----

/// The bucket that saved more stands above, and of two that saved as much the one whose
/// name comes first.
pub proof fn lemma_ranks(a: BucketModel, b: BucketModel)
    requires
        a.output <= a.input,
        b.output <= b.input,
    ensures
        stats::above(a, b) <==> a.input - a.output > b.input - b.output || (a.input - a.output
            == b.input - b.output && stats::text_before(a.name, b.name)),
{
}

/// Names are ordered like words in a dictionary: by the first character in which they
/// differ, and the shorter first where there is none.
pub proof fn lemma_names_are_ordered(
    start: Seq<char>,
    a: char,
    b: char,
    x: Seq<char>,
    y: Seq<char>,
)
    requires
        a != b,
    ensures
        stats::text_before(start + seq![a] + x, start + seq![b] + y) <==> a < b,
        stats::text_before(start, start + seq![a] + x),
        !stats::text_before(start + seq![a] + x, start),
        !stats::text_before(start, start),
    decreases start.len(),
{
    let p = start + seq![a] + x;
    let q = start + seq![b] + y;
    if start.len() == 0 {
        assert(p[0] == a && q[0] == b);
    } else {
        let more = start.skip(1);
        lemma_names_are_ordered(more, a, b, x, y);
        assert(p[0] == start[0] && q[0] == start[0]);
        assert(p.skip(1) =~= more + seq![a] + x);
        assert(q.skip(1) =~= more + seq![b] + y);
    }
}

/// The report lists every bucket of the session once, the one that saved most first.
pub proof fn lemma_report_lists_every_bucket(session: StatsModel)
    requires
        stats::consistent(session),
    ensures
        ({
            let rows = stats::ranked(session.buckets);
            &&& rows.len() == session.buckets.len()
            &&& rows.to_multiset() == session.buckets.to_multiset()
            &&& forall|i: int, j: int|
                0 <= i < j < rows.len() ==> {
                    let x = #[trigger] rows[i];
                    let y = #[trigger] rows[j];
                    x.input - x.output > y.input - y.output || (x.input - x.output == y.input
                        - y.output && stats::text_before(x.name, y.name))
                }
        }),
{
    broadcast use vstd::seq_lib::group_to_multiset_ensures;

    let p = session.buckets;
    let rows = stats::ranked(p);
    stats::lemma_ranked(p);
    assert(rows.to_multiset().len() == rows.len());
    assert(p.to_multiset().len() == p.len());
    assert(p.no_duplicates());
    p.lemma_multiset_has_no_duplicates();
    rows.lemma_multiset_has_no_duplicates_conv();
    assert forall|i: int, j: int| 0 <= i < j < rows.len() implies {
        let x = #[trigger] rows[i];
        let y = #[trigger] rows[j];
        x.input - x.output > y.input - y.output || (x.input - x.output == y.input - y.output
            && stats::text_before(x.name, y.name))
    } by {
        let x = rows[i];
        let y = rows[j];
        assert(x != y);
        assert(rows.to_multiset().contains(x) && rows.to_multiset().contains(y));
        assert(p.contains(x) && p.contains(y));
        let a = choose|a: int| 0 <= a < p.len() && p[a] == x;
        let b = choose|b: int| 0 <= b < p.len() && p[b] == y;
        assert(p[a].output < p[a].input && p[b].output < p[b].input);
        if a < b {
            assert(p[a].name != p[b].name);
        } else {
            assert(p[b].name != p[a].name);
        }
        assert(!stats::above(y, x));
        stats::lemma_text_order(x.name, y.name);
    }
}

// ---- numbers for people ----

/// A number of bytes is shown as it is below 1024, in units of 1024 bytes below 1048576,
/// and in units of 1048576 bytes from there on, with one decimal: the nearest number of
/// tenths, and the even one of two that are as near. A number of more than 53 bits is
/// first rounded to 53, see [`lemma_large_numbers_are_rounded`].
pub proof fn lemma_bytes_are_shown(n: nat, whole: nat, tenth: nat, unit: nat)
    requires
        tenth < 10,
        unit == 1024 || unit == 1048576,
        ({
            let t = 10 * whole + tenth;
            let off = 2 * (10 * stats::nearest(n) - t * unit);
            -unit < off < unit || ((off == unit || off == -unit) && t % 2 == 0)
        }),
    ensures
        n < 1024 ==> stats::human(n) == chars::decimal(n) + " B"@,
        1024 <= n < 1048576 && unit == 1024 ==> stats::human(n) == chars::decimal(whole)
            + seq!['.', "0123456789"@[tenth as int]] + " KB"@,
        n >= 1048576 && unit == 1048576 ==> stats::human(n) == chars::decimal(whole)
            + seq!['.', "0123456789"@[tenth as int]] + " MB"@,
{
    let t = 10 * whole + tenth;
    let m = 10 * stats::nearest(n);
    reveal_strlit("0123456789");
    assert("0123456789"@[tenth as int] == chars::digit(tenth));
    lemma_rounds_to(m, unit, t);
    assert(t / 10 == whole && t % 10 == tenth);
}

proof fn lemma_rounds_to(m: nat, d: nat, t: nat)
    requires
        d == 1024 || d == 1048576,
        ({
            let off = 2 * (m - t * d);
            -d < off < d || ((off == d || off == -d) && t % 2 == 0)
        }),
    ensures
        stats::rounded(m, d) == t,
{
    let q = m / d;
    let r = m % d;
    assert(m == q * d + r && 0 <= r < d) by (nonlinear_arith)
        requires
            q == m / d,
            r == m % d,
            d > 0,
    ;
    if d == 1024 {
        assert(2 * (m - t * d) == 2 * ((q - t) * 1024 + r)) by (nonlinear_arith)
            requires
                m == q * d + r,
                d == 1024,
        ;
    } else {
        assert(2 * (m - t * d) == 2 * ((q - t) * 1048576 + r)) by (nonlinear_arith)
            requires
                m == q * d + r,
                d == 1048576,
        ;
    }
}

/// Larger numbers of bytes are first rounded to 53 bits.
pub proof fn lemma_large_numbers_are_rounded(n: nat)
    requires
        n <= u64::MAX,
    ensures
        ({
            let unit = stats::spacing(n);
            let near = stats::nearest(n);
            &&& n < 0x20_0000_0000_0000 ==> unit == 1 && near == n
            &&& n >= 0x20_0000_0000_0000 ==> stats::spacing(n) == 2 * stats::spacing(n / 2)
            &&& unit > 0
            &&& -(unit as int) <= 2 * (near - n) <= unit
            &&& near % unit == 0
            &&& 2 * (near - n) == unit || 2 * (n - near) == unit ==> (near / unit) % 2 == 0
        }),
{
    lemma_spacing(n);
    let unit = stats::spacing(n);
    let q = n / unit;
    let r = n % unit;
    assert(n == q * unit + r && 0 <= r < unit) by (nonlinear_arith)
        requires
            q == n / unit,
            r == n % unit,
            unit > 0,
    ;
    let near = stats::nearest(n);
    if 2 * r > unit || (2 * r == unit && q % 2 == 1) {
        assert(near == q * unit + unit) by (nonlinear_arith)
            requires
                near == (q + 1) * unit,
        ;
        assert(near % unit == 0) by (nonlinear_arith)
            requires
                near == (q + 1) * unit,
                unit > 0,
        ;
        assert(near / unit == q + 1) by (nonlinear_arith)
            requires
                near == (q + 1) * unit,
                unit > 0,
        ;
    } else {
        assert(near % unit == 0) by (nonlinear_arith)
            requires
                near == q * unit,
                unit > 0,
        ;
        assert(near / unit == q) by (nonlinear_arith)
            requires
                near == q * unit,
                unit > 0,
        ;
    }
    if unit == 1 {
        assert(r == 0);
        assert(near == q);
    }
}

proof fn lemma_spacing(n: nat)
    ensures
        stats::spacing(n) > 0,
        n < 0x20_0000_0000_0000 ==> stats::spacing(n) == 1,
    decreases n,
{
    if n >= 0x20_0000_0000_0000 {
        lemma_spacing(n / 2);
    }
}

// ---- the report ----

/// The column of names is as wide as the longest name, in bytes, and at least four. A name
/// is filled up with spaces.
pub proof fn lemma_names_are_aligned(rows: Seq<BucketModel>, name: Seq<char>, width: nat)
    ensures
        stats::label_width(rows) >= 4,
        forall|i: int|
            0 <= i < rows.len() ==> chars::byte_len((#[trigger] rows[i]).name)
                <= stats::label_width(rows),
        stats::label_width(rows) == 4 || exists|i: int|
            0 <= i < rows.len() && chars::byte_len((#[trigger] rows[i]).name)
                == stats::label_width(rows),
        stats::padded(name, width).len() == if name.len() < width {
            width
        } else {
            name.len()
        },
        stats::padded(name, width).take(name.len() as int) == name,
        forall|j: int|
            name.len() <= j < stats::padded(name, width).len() ==> #[trigger] stats::padded(
                name,
                width,
            )[j] == ' ',
    decreases rows.len(),
{
    if rows.len() > 0 {
        let init = rows.drop_last();
        lemma_names_are_aligned(init, name, width);
        assert forall|i: int| 0 <= i < rows.len() implies chars::byte_len((#[trigger] rows[i]).name)
            <= stats::label_width(rows) by {
            if i < init.len() {
                assert(init[i] == rows[i]);
            }
        }
        let w = stats::label_width(rows);
        if w != 4 {
            if w == stats::label_width(init) {
                let i = choose|i: int|
                    0 <= i < init.len() && chars::byte_len((#[trigger] init[i]).name) == w;
                assert(rows[i] == init[i]);
            } else {
                assert(rows[rows.len() - 1].name == rows.last().name);
            }
        }
    }
    assert(stats::padded(name, width).take(name.len() as int) =~= name);
}

/// A line of the report: the name, the share that was saved, the calls, and the bytes.
pub proof fn lemma_report_line(b: BucketModel, width: nat)
    ensures
        ({
            let saved = stats::saved(b.input, b.output);
            let share = chars::decimal(stats::share(saved, b.input));
            stats::bucket_line(b, width) == "   "@ + stats::padded(b.name, width) + (if share.len()
                == 1 {
                "  - "@
            } else {
                "  -"@
            }) + share + "%   ("@ + chars::decimal(b.calls) + (if b.calls == 1 {
                " call, "@
            } else {
                " calls, "@
            }) + stats::human(saved) + ")"@
        }),
{
    let saved = stats::saved(b.input, b.output);
    let share = chars::decimal(stats::share(saved, b.input));
    chars::lemma_decimal(stats::share(saved, b.input));
    reveal_strlit("  - ");
    reveal_strlit("  -");
    reveal_strlit(" call");
    reveal_strlit(" call, ");
    reveal_strlit(" calls, ");
    reveal_strlit(", ");
    assert("  -"@ + stats::spaces(1) =~= "  - "@);
    assert(" call"@ + Seq::<char>::empty() + ", "@ =~= " call, "@);
    assert(" call"@ + seq!['s'] + ", "@ =~= " calls, "@);
    let a = "   "@ + stats::padded(b.name, width) + "  -"@;
    let wide = if share.len() == 1 {
        "  - "@
    } else {
        "  -"@
    };
    let gap = if share.len() < 2 {
        stats::spaces((2 - share.len()) as nat)
    } else {
        seq![]
    };
    assert(a + gap =~= "   "@ + stats::padded(b.name, width) + wide);
    let c = "   "@ + stats::padded(b.name, width) + wide + share + "%   ("@ + chars::decimal(
        b.calls,
    );
    let calls = if b.calls == 1 {
        " call, "@
    } else {
        " calls, "@
    };
    assert(c + " call"@ + stats::plural(b.calls) + ", "@ =~= c + calls);
}

/// The report: a title, the bytes that were saved, the calls and the share in all, and a
/// line for each bucket.
pub proof fn lemma_report_text(s: StatsModel)
    ensures
        s.calls == 0 ==> stats::report(s) == "🗜️  crush — no compressions yet this session."@,
        s.calls > 0 ==> {
            let rows = stats::ranked(s.buckets);
            let saved = stats::saved(s.input, s.output);
            let all = stats::report_lines(s);
            &&& stats::report(s) == lines::join(all, seq!['\n'])
            &&& all.len() == rows.len() + 3
            &&& all[0] == "🗜️  crush — context saved this session"@
            &&& all[1] == "   "@ + stats::human(saved) + " saved across "@ + chars::decimal(s.calls)
                + (if s.calls == 1 {
                " tool call  ("@
            } else {
                " tool calls  ("@
            }) + chars::decimal(stats::share(saved, s.input)) + "% avg reduction)"@
            &&& all[2] == "   ───────────────────────────────"@
            &&& forall|i: int|
                0 <= i < rows.len() ==> #[trigger] all[i + 3] == stats::bucket_line(
                    rows[i],
                    stats::label_width(rows),
                )
        },
{
    reveal_strlit(" tool call");
    reveal_strlit(" tool call  (");
    reveal_strlit(" tool calls  (");
    reveal_strlit("  (");
    let saved = stats::saved(s.input, s.output);
    let a = "   "@ + stats::human(saved) + " saved across "@ + chars::decimal(s.calls);
    let calls = if s.calls == 1 {
        " tool call  ("@
    } else {
        " tool calls  ("@
    };
    assert(a + " tool call"@ + stats::plural(s.calls) + "  ("@ =~= a + calls);
}

} // verus!
