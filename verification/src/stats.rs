//! What a session has saved so far.
//!
//! Only wins are counted: calls whose output was replaced by a smaller one. They are
//! counted per bucket, the label of the tool or of the transform, and in all.
use vstd::prelude::*;
use crate::chars;
use crate::lines;

verus! {

/// The totals of one bucket.
pub struct BucketModel {
    pub name: Seq<char>,
    pub input: nat,
    pub output: nat,
    pub calls: nat,
}

/// The totals of a session, and its buckets in the order in which they were first used.
pub struct StatsModel {
    pub input: nat,
    pub output: nat,
    pub calls: nat,
    pub buckets: Seq<BucketModel>,
}

/// What was saved of `input` bytes of which `output` are left.
pub open spec fn saved(input: nat, output: nat) -> nat {
    if output <= input {
        (input - output) as nat
    } else {
        0
    }
}

/// The saved share in percent, rounded down; zero where nothing went in or the product
/// does not fit into 64 bits.
pub open spec fn share(saved: nat, input: nat) -> nat {
    if input == 0 || saved * 100 > u64::MAX {
        0
    } else {
        saved * 100 / input
    }
}

/// The index of the bucket with the name; the number of buckets where there is none.
pub open spec fn bucket_index(buckets: Seq<BucketModel>, name: Seq<char>) -> nat
    decreases buckets.len(),
{
    if buckets.len() == 0 || buckets[0].name == name {
        0
    } else {
        1 + bucket_index(buckets.skip(1), name)
    }
}

/// The buckets with one more win.
pub open spec fn with_win(
    buckets: Seq<BucketModel>,
    name: Seq<char>,
    input: nat,
    output: nat,
) -> Seq<BucketModel> {
    let k = bucket_index(buckets, name) as int;
    if k < buckets.len() {
        buckets.update(
            k,
            BucketModel {
                name,
                input: buckets[k].input + input,
                output: buckets[k].output + output,
                calls: buckets[k].calls + 1,
            },
        )
    } else {
        buckets.push(BucketModel { name, input, output, calls: 1 })
    }
}

/// The session with one more call: a win is counted, anything else is not.
pub open spec fn recorded(
    session: StatsModel,
    name: Seq<char>,
    input: nat,
    output: nat,
) -> StatsModel {
    if output >= input {
        session
    } else {
        StatsModel {
            input: session.input + input,
            output: session.output + output,
            calls: session.calls + 1,
            buckets: with_win(session.buckets, name, input, output),
        }
    }
}

/// The bytes that went into all buckets.
pub open spec fn total_input(buckets: Seq<BucketModel>) -> nat
    decreases buckets.len(),
{
    if buckets.len() == 0 {
        0
    } else {
        total_input(buckets.drop_last()) + buckets.last().input
    }
}

/// The bytes that all buckets are left with.
pub open spec fn total_output(buckets: Seq<BucketModel>) -> nat
    decreases buckets.len(),
{
    if buckets.len() == 0 {
        0
    } else {
        total_output(buckets.drop_last()) + buckets.last().output
    }
}

/// The calls of all buckets.
pub open spec fn total_calls(buckets: Seq<BucketModel>) -> nat
    decreases buckets.len(),
{
    if buckets.len() == 0 {
        0
    } else {
        total_calls(buckets.drop_last()) + buckets.last().calls
    }
}

/// What holds of every session: the totals are those of the buckets, no two buckets have
/// the same name, and every bucket has a call and saved something.
pub open spec fn consistent(session: StatsModel) -> bool {
    &&& session.input == total_input(session.buckets)
    &&& session.output == total_output(session.buckets)
    &&& session.calls == total_calls(session.buckets)
    &&& forall|i: int, j: int|
        0 <= i < j < session.buckets.len() ==> (#[trigger] session.buckets[i]).name != (
        #[trigger] session.buckets[j]).name
    &&& forall|i: int|
        0 <= i < session.buckets.len() ==> {
            let b = #[trigger] session.buckets[i];
            b.calls > 0 && b.output < b.input
        }
}

// ---- the report ----

/// `a` comes before `b` in the order of their characters.
pub open spec fn text_before(a: Seq<char>, b: Seq<char>) -> bool
    decreases a.len(),
{
    if b.len() == 0 {
        false
    } else if a.len() == 0 {
        true
    } else if a[0] != b[0] {
        a[0] < b[0]
    } else {
        text_before(a.skip(1), b.skip(1))
    }
}

/// `a` stands above `b` in the report: it saved more, or as much and its name comes first.
pub open spec fn above(a: BucketModel, b: BucketModel) -> bool {
    let x = saved(a.input, a.output);
    let y = saved(b.input, b.output);
    x > y || (x == y && text_before(a.name, b.name))
}

/// The ranked buckets with one more, below all that it does not stand above.
pub open spec fn insert_ranked(ranked: Seq<BucketModel>, bucket: BucketModel) -> Seq<BucketModel>
    decreases ranked.len(),
{
    if ranked.len() == 0 || !above(bucket, ranked.last()) {
        ranked.push(bucket)
    } else {
        insert_ranked(ranked.drop_last(), bucket).push(ranked.last())
    }
}

/// The buckets as they stand in the report.
pub open spec fn ranked(buckets: Seq<BucketModel>) -> Seq<BucketModel>
    decreases buckets.len(),
{
    if buckets.len() == 0 {
        seq![]
    } else {
        insert_ranked(ranked(buckets.drop_last()), buckets.last())
    }
}

/// The width of the column of names: that of the longest name, in bytes, and at least four.
pub open spec fn label_width(buckets: Seq<BucketModel>) -> nat
    decreases buckets.len(),
{
    if buckets.len() == 0 {
        4
    } else {
        let w = label_width(buckets.drop_last());
        let n = chars::byte_len(buckets.last().name);
        if n > w {
            n
        } else {
            w
        }
    }
}

/// `n` spaces.
pub open spec fn spaces(n: nat) -> Seq<char> {
    Seq::new(n, |i: int| ' ')
}

/// `s` with spaces behind it, up to `width` characters.
pub open spec fn padded(s: Seq<char>, width: nat) -> Seq<char> {
    if s.len() < width {
        s + spaces((width - s.len()) as nat)
    } else {
        s
    }
}

/// The plural ending for `n` things.
pub open spec fn plural(n: nat) -> Seq<char> {
    if n == 1 {
        seq![]
    } else {
        seq!['s']
    }
}

/// The distance between the 53-bit numbers around `n`.
pub open spec fn spacing(n: nat) -> nat
    decreases n,
{
    if n < 0x20_0000_0000_0000 {
        1
    } else {
        2 * spacing(n / 2)
    }
}

/// `n` over `d`, rounded to the nearest whole number, and to the even one of two.
pub open spec fn rounded(n: nat, d: nat) -> nat {
    let q = n / d;
    let r = n % d;
    if 2 * r > d || (2 * r == d && q % 2 == 1) {
        q + 1
    } else {
        q
    }
}

/// The 53-bit number nearest to `n`.
pub open spec fn nearest(n: nat) -> nat {
    rounded(n, spacing(n)) * spacing(n)
}

/// `n` units with one decimal, where a unit has `unit` bytes.
pub open spec fn one_decimal(n: nat, unit: nat) -> Seq<char> {
    let tenths = rounded(10 * nearest(n), unit);
    chars::decimal(tenths / 10) + seq!['.', chars::digit(tenths % 10)]
}

/// A number of bytes, for people.
pub open spec fn human(n: nat) -> Seq<char> {
    if n >= 0x10_0000 {
        one_decimal(n, 0x10_0000) + " MB"@
    } else if n >= 0x400 {
        one_decimal(n, 0x400) + " KB"@
    } else {
        chars::decimal(n) + " B"@
    }
}

/// The line of a bucket: its name, the share that was saved, the calls, and the bytes.
pub open spec fn bucket_line(bucket: BucketModel, width: nat) -> Seq<char> {
    let bytes = saved(bucket.input, bucket.output);
    let pct = chars::decimal(share(bytes, bucket.input));
    "   "@ + padded(bucket.name, width) + "  -"@ + (if pct.len() < 2 {
        spaces((2 - pct.len()) as nat)
    } else {
        seq![]
    }) + pct + "%   ("@ + chars::decimal(bucket.calls) + " call"@ + plural(bucket.calls) + ", "@
        + human(bytes) + ")"@
}

/// The line of the totals.
pub open spec fn totals_line(session: StatsModel) -> Seq<char> {
    let bytes = saved(session.input, session.output);
    "   "@ + human(bytes) + " saved across "@ + chars::decimal(session.calls) + " tool call"@
        + plural(session.calls) + "  ("@ + chars::decimal(share(bytes, session.input))
        + "% avg reduction)"@
}

/// The lines of the report of a session with wins.
pub open spec fn report_lines(session: StatsModel) -> Seq<Seq<char>> {
    let rows = ranked(session.buckets);
    seq![
        "🗜️  crush — context saved this session"@,
        totals_line(session),
        "   ───────────────────────────────"@,
    ] + rows.map_values(|b: BucketModel| bucket_line(b, label_width(rows)))
}

/// The report of a session.
pub open spec fn report(session: StatsModel) -> Seq<char> {
    if session.calls == 0 {
        "🗜️  crush — no compressions yet this session."@
    } else {
        lines::join_lines(report_lines(session))
    }
}

// ---- executable ----

/// One bucket's running totals.
#[derive(Debug)]
struct Bucket {
    name: String,
    input_bytes: u64,
    output_bytes: u64,
    calls: u64,
}

impl Bucket {
    spec fn model(self) -> BucketModel {
        BucketModel {
            name: self.name@,
            input: self.input_bytes as nat,
            output: self.output_bytes as nat,
            calls: self.calls as nat,
        }
    }

    fn saved(&self) -> (r: u64)
        ensures
            r == saved(self.model().input, self.model().output),
    {
        difference(self.input_bytes, self.output_bytes)
    }

    fn pct(&self) -> (r: u64)
        ensures
            r == share(saved(self.model().input, self.model().output), self.model().input),
    {
        percentage(self.saved(), self.input_bytes)
    }
}

/// What was saved of `input` bytes of which `output` are left.
fn difference(input: u64, output: u64) -> (r: u64)
    ensures
        r == saved(input as nat, output as nat),
{
    if output <= input {
        input - output
    } else {
        0
    }
}

/// The saved share in percent.
fn percentage(bytes: u64, input: u64) -> (r: u64)
    ensures
        r == share(bytes as nat, input as nat),
{
    match bytes.checked_mul(100) {
        Some(product) => if input == 0 {
            0
        } else {
            product / input
        },
        None => 0,
    }
}

/// The session's totals, and its buckets.
#[derive(Debug)]
pub struct Stats {
    total_input_bytes: u64,
    total_output_bytes: u64,
    call_count: u64,
    by_bucket: Vec<Bucket>,
}

impl View for Stats {
    type V = StatsModel;

    closed spec fn view(&self) -> StatsModel {
        StatsModel {
            input: self.total_input_bytes as nat,
            output: self.total_output_bytes as nat,
            calls: self.call_count as nat,
            buckets: bucket_models(self.by_bucket@),
        }
    }
}

spec fn bucket_models(buckets: Seq<Bucket>) -> Seq<BucketModel> {
    buckets.map_values(|b: Bucket| b.model())
}

/// The index of the bucket with the name; the number of buckets where there is none.
fn find_bucket(buckets: &Vec<Bucket>, name: &str) -> (r: usize)
    ensures
        r == bucket_index(bucket_models(buckets@), name@),
        r <= buckets@.len(),
{
    let ghost all = bucket_models(buckets@);
    let mut k: usize = 0;
    proof {
        assert(all.skip(0) =~= all);
    }
    while k < buckets.len()
        invariant
            k <= buckets@.len(),
            all == bucket_models(buckets@),
            bucket_index(all, name@) == k + bucket_index(all.skip(k as int), name@),
        decreases buckets@.len() - k,
    {
        proof {
            assert(all.skip(k as int)[0] == buckets@[k as int].model());
            assert(all.skip(k as int).skip(1) =~= all.skip(k as int + 1));
        }
        if chars::same_str(buckets[k].name.as_str(), name) {
            return k;
        }
        k = k + 1;
    }
    k
}

/// No bucket has more than all buckets.
proof fn lemma_bucket_bounds(buckets: Seq<BucketModel>, k: int)
    requires
        0 <= k < buckets.len(),
    ensures
        buckets[k].input <= total_input(buckets),
        buckets[k].output <= total_output(buckets),
        buckets[k].calls <= total_calls(buckets),
    decreases buckets.len(),
{
    if k < buckets.len() - 1 {
        let init = buckets.drop_last();
        lemma_bucket_bounds(init, k);
        assert(init[k] == buckets[k]);
    }
}

/// What a change of one bucket does to the totals.
proof fn lemma_totals_update(buckets: Seq<BucketModel>, k: int, b: BucketModel)
    requires
        0 <= k < buckets.len(),
    ensures
        total_input(buckets.update(k, b)) == total_input(buckets) - buckets[k].input + b.input,
        total_output(buckets.update(k, b)) == total_output(buckets) - buckets[k].output + b.output,
        total_calls(buckets.update(k, b)) == total_calls(buckets) - buckets[k].calls + b.calls,
    decreases buckets.len(),
{
    let init = buckets.drop_last();
    let all = buckets.update(k, b);
    if k < init.len() {
        lemma_totals_update(init, k, b);
        assert(all.drop_last() =~= init.update(k, b));
        assert(init[k] == buckets[k]);
    } else {
        assert(all.drop_last() =~= init);
    }
}

/// What [`bucket_index`] finds.
pub proof fn lemma_bucket_index(buckets: Seq<BucketModel>, name: Seq<char>)
    ensures
        bucket_index(buckets, name) <= buckets.len(),
        bucket_index(buckets, name) < buckets.len() ==> buckets[bucket_index(
            buckets,
            name,
        ) as int].name == name,
        forall|j: int|
            0 <= j < bucket_index(buckets, name) ==> (#[trigger] buckets[j]).name != name,
    decreases buckets.len(),
{
    if buckets.len() > 0 && buckets[0].name != name {
        let rest = buckets.skip(1);
        lemma_bucket_index(rest, name);
        assert forall|j: int| 0 <= j < bucket_index(buckets, name) implies (
        #[trigger] buckets[j]).name != name by {
            if j > 0 {
                assert(buckets[j] == rest[j - 1]);
            }
        }
        if bucket_index(buckets, name) < buckets.len() {
            assert(buckets[bucket_index(buckets, name) as int] == rest[bucket_index(
                rest,
                name,
            ) as int]);
        }
    }
}

/// Recording keeps a session consistent: the totals stay those of the buckets.
pub proof fn lemma_recorded_is_consistent(
    session: StatsModel,
    name: Seq<char>,
    input: nat,
    output: nat,
)
    requires
        consistent(session),
    ensures
        consistent(recorded(session, name, input, output)),
{
    if output < input {
        let before = session.buckets;
        let after = with_win(before, name, input, output);
        let k = bucket_index(before, name) as int;
        lemma_bucket_index(before, name);
        if k < before.len() {
            lemma_totals_update(before, k, after[k]);
            lemma_bucket_bounds(before, k);
            assert(before[k].calls > 0);
        } else {
            assert(after.drop_last() =~= before);
        }
        assert forall|i: int, j: int| 0 <= i < j < after.len() implies (#[trigger] after[i]).name
            != (#[trigger] after[j]).name by {
            if j < before.len() {
                assert(after[i].name == before[i].name && after[j].name == before[j].name);
            } else {
                assert(after[i] == before[i]);
            }
        }
        assert forall|i: int| 0 <= i < after.len() implies {
            let b = #[trigger] after[i];
            b.calls > 0 && b.output < b.input
        } by {
            if i < before.len() {
                assert(before[i].calls > 0);
            }
        }
    }
}

impl Stats {
    /// Every session is consistent.
    #[verifier::type_invariant]
    pub open spec fn well_formed(self) -> bool {
        consistent(self@)
    }

    /// A session without calls.
    #[must_use]
    pub fn new() -> (r: Self)
        ensures
            r@.input == 0,
            r@.output == 0,
            r@.calls == 0,
            r@.buckets == Seq::<BucketModel>::empty(),
    {
        let by_bucket: Vec<Bucket> = Vec::new();
        proof {
            assert(bucket_models(by_bucket@) =~= Seq::<BucketModel>::empty());
        }
        Stats { total_input_bytes: 0, total_output_bytes: 0, call_count: 0, by_bucket }
    }

    /// Records one call: a win is counted in its bucket and in all, and a call that saved
    /// nothing is not counted.
    pub fn record(&mut self, bucket: &str, input_bytes: usize, output_bytes: usize)
        requires
            output_bytes < input_bytes ==> old(self)@.input + input_bytes <= u64::MAX && old(
                self,
            )@.calls < u64::MAX,
        ensures
            final(self)@ == recorded(
                old(self)@,
                bucket@,
                input_bytes as nat,
                output_bytes as nat,
            ),
    {
        proof {
            use_type_invariant(&*self);
            lemma_recorded_is_consistent(
                self@,
                bucket@,
                input_bytes as nat,
                output_bytes as nat,
            );
        }
        if output_bytes >= input_bytes {
            return;
        }
        let ghost before = bucket_models(self.by_bucket@);
        proof {
            lemma_output_below_input(before);
        }
        let mut taken = Stats::new();
        std::mem::swap(self, &mut taken);
        let Stats { total_input_bytes, total_output_bytes, call_count, mut by_bucket } = taken;
        let k = find_bucket(&by_bucket, bucket);
        if k < by_bucket.len() {
            proof {
                lemma_bucket_bounds(before, k as int);
                lemma_bucket_index(before, bucket@);
                assert(before[k as int] == by_bucket@[k as int].model());
            }
            let old_bucket = &by_bucket[k];
            let changed = Bucket {
                name: chars::owned(bucket),
                input_bytes: old_bucket.input_bytes + input_bytes as u64,
                output_bytes: old_bucket.output_bytes + output_bytes as u64,
                calls: old_bucket.calls + 1,
            };
            by_bucket.set(k, changed);
        } else {
            let first = Bucket {
                name: chars::owned(bucket),
                input_bytes: input_bytes as u64,
                output_bytes: output_bytes as u64,
                calls: 1,
            };
            by_bucket.push(first);
        }
        proof {
            assert(bucket_models(by_bucket@) =~= with_win(
                before,
                bucket@,
                input_bytes as nat,
                output_bytes as nat,
            ));
        }
        *self = Stats {
            total_input_bytes: total_input_bytes + input_bytes as u64,
            total_output_bytes: total_output_bytes + output_bytes as u64,
            call_count: call_count + 1,
            by_bucket,
        };
    }

    /// Whether the counters can take one more win of that many bytes.
    #[must_use]
    pub fn can_take(&self, input_bytes: usize) -> (r: bool)
        ensures
            r == (self@.input + input_bytes <= u64::MAX && self@.calls < u64::MAX),
    {
        self.total_input_bytes <= u64::MAX - input_bytes as u64 && self.call_count < u64::MAX
    }

    /// The number of wins.
    #[must_use]
    pub fn call_count(&self) -> (r: u64)
        ensures
            r == self@.calls,
    {
        self.call_count
    }

    /// The bytes that were saved in all.
    #[must_use]
    pub fn total_saved_bytes(&self) -> (r: u64)
        ensures
            r == saved(self@.input, self@.output),
    {
        difference(self.total_input_bytes, self.total_output_bytes)
    }
}

/// Where every bucket saved something, no more is left than went in.
proof fn lemma_output_below_input(buckets: Seq<BucketModel>)
    requires
        forall|i: int| 0 <= i < buckets.len() ==> (#[trigger] buckets[i]).output < buckets[i].input,
    ensures
        total_output(buckets) <= total_input(buckets),
    decreases buckets.len(),
{
    if buckets.len() > 0 {
        let init = buckets.drop_last();
        assert forall|i: int| 0 <= i < init.len() implies (#[trigger] init[i]).output
            < init[i].input by {
            assert(init[i] == buckets[i]);
        }
        assert(buckets[buckets.len() - 1].output < buckets[buckets.len() - 1].input);
        lemma_output_below_input(init);
    }
}

// ---- ranking ----

/// No text comes before itself, and of two texts at most one comes first.
pub proof fn lemma_text_order(a: Seq<char>, b: Seq<char>)
    ensures
        !(text_before(a, b) && text_before(b, a)),
        a != b ==> text_before(a, b) || text_before(b, a),
    decreases a.len(),
{
    if a.len() > 0 && b.len() > 0 && a[0] == b[0] {
        lemma_text_order(a.skip(1), b.skip(1));
        if a != b && a.skip(1) == b.skip(1) {
            assert(a =~= seq![a[0]] + a.skip(1));
            assert(b =~= seq![b[0]] + b.skip(1));
        }
    } else if a.len() == 0 && b.len() == 0 {
        assert(a =~= b);
    }
}

/// What does not come before a text does not come before one that is not after it.
proof fn lemma_text_order_transitive(a: Seq<char>, b: Seq<char>, c: Seq<char>)
    requires
        !text_before(a, b),
        !text_before(b, c),
    ensures
        !text_before(a, c),
    decreases a.len(),
{
    if a.len() > 0 && b.len() > 0 && c.len() > 0 && a[0] == b[0] && b[0] == c[0] {
        lemma_text_order_transitive(a.skip(1), b.skip(1), c.skip(1));
    }
}

/// Where a bucket is inserted.
proof fn lemma_insert_ranked(rows: Seq<BucketModel>, bucket: BucketModel, k: int)
    requires
        0 <= k <= rows.len(),
        forall|j: int| k <= j < rows.len() ==> above(bucket, #[trigger] rows[j]),
        k > 0 ==> !above(bucket, rows[k - 1]),
    ensures
        insert_ranked(rows, bucket) == rows.insert(k, bucket),
    decreases rows.len(),
{
    if k == rows.len() {
        assert(rows.insert(k, bucket) =~= rows.push(bucket));
    } else {
        let init = rows.drop_last();
        assert(above(bucket, rows[rows.len() - 1]));
        assert forall|j: int| k <= j < init.len() implies above(bucket, #[trigger] init[j]) by {
            assert(init[j] == rows[j]);
        }
        lemma_insert_ranked(init, bucket, k);
        assert(rows.insert(k, bucket) =~= init.insert(k, bucket).push(rows.last()));
    }
}

/// No bucket stands below one that it stands above.
pub open spec fn in_order(rows: Seq<BucketModel>) -> bool {
    forall|i: int, j: int|
        0 <= i < j < rows.len() ==> !above(#[trigger] rows[j], #[trigger] rows[i])
}

/// Inserting a bucket keeps the rows in order, and adds that bucket and no other.
proof fn lemma_insert_in_order(rows: Seq<BucketModel>, bucket: BucketModel)
    requires
        in_order(rows),
    ensures
        in_order(insert_ranked(rows, bucket)),
        insert_ranked(rows, bucket).to_multiset() == rows.to_multiset().insert(bucket),
        forall|k: int|
            0 <= k < insert_ranked(rows, bucket).len() ==> rows.contains(
                #[trigger] insert_ranked(rows, bucket)[k],
            ) || insert_ranked(rows, bucket)[k] == bucket,
    decreases rows.len(),
{
    broadcast use vstd::seq_lib::group_to_multiset_ensures;

    let all = insert_ranked(rows, bucket);
    if rows.len() == 0 {
        assert(all[0] == bucket);
    } else if !above(bucket, rows.last()) {
        assert forall|i: int, j: int| 0 <= i < j < all.len() implies !above(
            #[trigger] all[j],
            #[trigger] all[i],
        ) by {
            if j == rows.len() {
                let last = rows[rows.len() - 1];
                if i < rows.len() - 1 {
                    assert(!above(last, rows[i]));
                }
                lemma_above_transitive(bucket, last, rows[i]);
            } else {
                assert(all[j] == rows[j] && all[i] == rows[i]);
            }
        }
        assert forall|k: int| 0 <= k < all.len() implies rows.contains(#[trigger] all[k]) || all[k]
            == bucket by {
            if k < rows.len() {
                assert(rows[k] == all[k]);
            }
        }
    } else {
        let init = rows.drop_last();
        let last = rows[rows.len() - 1];
        assert forall|i: int, j: int| 0 <= i < j < init.len() implies !above(
            #[trigger] init[j],
            #[trigger] init[i],
        ) by {
            assert(init[j] == rows[j] && init[i] == rows[i]);
        }
        lemma_insert_in_order(init, bucket);
        let part = insert_ranked(init, bucket);
        assert(all =~= part.push(last));
        assert(rows =~= init.push(last));
        assert forall|i: int, j: int| 0 <= i < j < all.len() implies !above(
            #[trigger] all[j],
            #[trigger] all[i],
        ) by {
            if j == part.len() {
                assert(all[i] == part[i]);
                if part[i] == bucket {
                    lemma_above_asymmetric(bucket, last);
                } else {
                    assert(init.contains(part[i]));
                    let r = choose|r: int| 0 <= r < init.len() && init[r] == part[i];
                    assert(rows[r] == part[i]);
                    assert(!above(last, rows[r]));
                }
            } else {
                assert(all[j] == part[j] && all[i] == part[i]);
            }
        }
        assert forall|k: int| 0 <= k < all.len() implies rows.contains(#[trigger] all[k]) || all[k]
            == bucket by {
            if k < part.len() {
                assert(all[k] == part[k]);
                if init.contains(part[k]) {
                    let r = choose|r: int| 0 <= r < init.len() && init[r] == part[k];
                    assert(rows[r] == all[k]);
                }
            } else {
                assert(all[k] == rows[rows.len() - 1]);
            }
        }
        assert(all.to_multiset() =~= rows.to_multiset().insert(bucket));
    }
}

proof fn lemma_above_asymmetric(a: BucketModel, b: BucketModel)
    ensures
        !(above(a, b) && above(b, a)),
{
    lemma_text_order(a.name, b.name);
}

proof fn lemma_above_transitive(a: BucketModel, b: BucketModel, c: BucketModel)
    requires
        !above(a, b),
        !above(b, c) || b == c,
    ensures
        !above(a, c),
{
    if b != c && !text_before(a.name, b.name) && !text_before(b.name, c.name) {
        lemma_text_order_transitive(a.name, b.name, c.name);
    }
}

/// The report shows every bucket once, and those that saved more above those that saved
/// less; of two that saved the same, the one whose name comes first.
pub proof fn lemma_ranked(buckets: Seq<BucketModel>)
    ensures
        in_order(ranked(buckets)),
        ranked(buckets).to_multiset() == buckets.to_multiset(),
    decreases buckets.len(),
{
    broadcast use vstd::seq_lib::group_to_multiset_ensures;

    if buckets.len() > 0 {
        let init = buckets.drop_last();
        lemma_ranked(init);
        lemma_insert_in_order(ranked(init), buckets.last());
        assert(buckets =~= init.push(buckets.last()));
        assert(ranked(buckets).to_multiset() =~= buckets.to_multiset());
    } else {
        assert(ranked(buckets) =~= buckets);
    }
}

// ---- the order of the calls ----

/// A call that a session was told of.
pub struct CallModel {
    pub name: Seq<char>,
    pub input: nat,
    pub output: nat,
}

/// The session that was told of these calls, one after the other.
pub open spec fn session_of(calls: Seq<CallModel>) -> StatsModel
    decreases calls.len(),
{
    if calls.len() == 0 {
        StatsModel { input: 0, output: 0, calls: 0, buckets: seq![] }
    } else {
        let call = calls.last();
        recorded(session_of(calls.drop_last()), call.name, call.input, call.output)
    }
}

/// A session without the order of its buckets.
ghost struct Tally {
    input: nat,
    output: nat,
    calls: nat,
    by_name: Map<Seq<char>, BucketModel>,
}

spec fn tallied(call: CallModel, t: Tally) -> Tally {
    if call.output >= call.input {
        t
    } else {
        let before = if t.by_name.contains_key(call.name) {
            t.by_name[call.name]
        } else {
            BucketModel { name: call.name, input: 0, output: 0, calls: 0 }
        };
        Tally {
            input: t.input + call.input,
            output: t.output + call.output,
            calls: t.calls + 1,
            by_name: t.by_name.insert(
                call.name,
                BucketModel {
                    name: call.name,
                    input: before.input + call.input,
                    output: before.output + call.output,
                    calls: before.calls + 1,
                },
            ),
        }
    }
}

spec fn by_name(buckets: Seq<BucketModel>) -> Map<Seq<char>, BucketModel> {
    Map::new(
        |name: Seq<char>| bucket_index(buckets, name) < buckets.len(),
        |name: Seq<char>| buckets[bucket_index(buckets, name) as int],
    )
}

spec fn tally_of(session: StatsModel) -> Tally {
    Tally {
        input: session.input,
        output: session.output,
        calls: session.calls,
        by_name: by_name(session.buckets),
    }
}

/// Where the names differ, the bucket with a name is found where it is.
proof fn lemma_found(buckets: Seq<BucketModel>, k: int)
    requires
        0 <= k < buckets.len(),
        forall|i: int, j: int|
            0 <= i < j < buckets.len() ==> (#[trigger] buckets[i]).name != (
            #[trigger] buckets[j]).name,
    ensures
        bucket_index(buckets, buckets[k].name) == k,
{
    let r = bucket_index(buckets, buckets[k].name) as int;
    lemma_bucket_index(buckets, buckets[k].name);
    if k < r {
        assert(buckets[k].name != buckets[k].name);
    } else if r < k {
        assert(buckets[r].name != buckets[k].name);
    }
}

proof fn lemma_tally_step(session: StatsModel, call: CallModel)
    requires
        consistent(session),
    ensures
        tally_of(recorded(session, call.name, call.input, call.output)) == tallied(
            call,
            tally_of(session),
        ),
{
    if call.output < call.input {
        let after = recorded(session, call.name, call.input, call.output);
        lemma_recorded_is_consistent(session, call.name, call.input, call.output);
        let p = session.buckets;
        let q = after.buckets;
        let a = by_name(q);
        let b = tallied(call, tally_of(session)).by_name;
        lemma_bucket_index(p, call.name);
        let at = bucket_index(p, call.name) as int;
        lemma_found(q, at);
        assert forall|name: Seq<char>| #[trigger] a.contains_key(name) == b.contains_key(name) && (
        a.contains_key(name) ==> a[name] == b[name]) by {
            lemma_bucket_index(p, name);
            lemma_bucket_index(q, name);
            let k = bucket_index(p, name) as int;
            let r = bucket_index(q, name) as int;
            if name != call.name {
                if k < p.len() {
                    assert(q[k] == p[k]);
                    lemma_found(q, k);
                } else if r < q.len() {
                    assert(r != at);
                    assert(q[r] == p[r]);
                    assert(p[r].name == name);
                }
            }
        }
        assert(a =~= b);
    }
}

proof fn lemma_tallied_commutes(x: CallModel, y: CallModel, t: Tally)
    ensures
        tallied(x, tallied(y, t)) == tallied(y, tallied(x, t)),
{
    if x.output < x.input && y.output < y.input {
        let a = tallied(x, tallied(y, t));
        let b = tallied(y, tallied(x, t));
        assert(a.by_name =~= b.by_name);
    }
}

/// The tally of a session is the sum over its calls.
proof fn lemma_tally_of_calls(calls: Seq<CallModel>)
    ensures
        consistent(session_of(calls)),
        tally_of(session_of(calls)) == calls.fold_right(
            |c: CallModel, t: Tally| tallied(c, t),
            tally_of(session_of(seq![])),
        ),
    decreases calls.len(),
{
    let f = |c: CallModel, t: Tally| tallied(c, t);
    let zero = tally_of(session_of(seq![]));
    if calls.len() == 0 {
        assert(calls =~= seq![]);
    } else {
        let init = calls.drop_last();
        let call = calls.last();
        lemma_tally_of_calls(init);
        lemma_recorded_is_consistent(session_of(init), call.name, call.input, call.output);
        lemma_tally_step(session_of(init), call);
        assert(vstd::seq_lib::commutative_foldr(f)) by {
            assert forall|x: CallModel, y: CallModel, t: Tally| #[trigger]
                f(x, f(y, t)) == f(y, f(x, t)) by {
                lemma_tallied_commutes(x, y, t);
            }
        }
        init.lemma_fold_right_commute_one(call, f, zero);
    }
}

/// Buckets in order are told apart by what they are.
proof fn lemma_in_order_unique(p: Seq<BucketModel>, q: Seq<BucketModel>)
    requires
        in_order(p),
        in_order(q),
        p.to_multiset() == q.to_multiset(),
        forall|i: int, j: int|
            0 <= i < p.len() && 0 <= j < p.len() && (#[trigger] p[i]).name == (
            #[trigger] p[j]).name ==> p[i] == p[j],
    ensures
        p == q,
    decreases p.len(),
{
    broadcast use vstd::seq_lib::group_to_multiset_ensures;

    assert(p.to_multiset().len() == p.len());
    assert(q.to_multiset().len() == q.len());
    if p.len() == 0 {
        assert(p =~= q);
    } else {
        let n = p.len() - 1;
        let a = p[n];
        let b = q[n];
        assert(p.to_multiset().contains(a));
        assert(q.contains(a));
        let j = choose|j: int| 0 <= j < q.len() && q[j] == a;
        assert(q.to_multiset().contains(b));
        assert(p.contains(b));
        let i = choose|i: int| 0 <= i < p.len() && p[i] == b;
        if i < n && j < n {
            assert(!above(p[n], p[i]));
            assert(!above(q[n], q[j]));
            lemma_text_order(a.name, b.name);
            assert(a.name == b.name);
            assert(p[i] == p[n]);
        }
        assert(a == b);
        let pi = p.drop_last();
        let qi = q.drop_last();
        assert(p =~= pi.push(a));
        assert(q =~= qi.push(a));
        assert(pi.to_multiset() =~= p.to_multiset().remove(a));
        assert(qi.to_multiset() =~= q.to_multiset().remove(a));
        assert forall|i: int, j: int| 0 <= i < j < pi.len() implies !above(
            #[trigger] pi[j],
            #[trigger] pi[i],
        ) by {
            assert(pi[j] == p[j] && pi[i] == p[i]);
        }
        assert forall|i: int, j: int| 0 <= i < j < qi.len() implies !above(
            #[trigger] qi[j],
            #[trigger] qi[i],
        ) by {
            assert(qi[j] == q[j] && qi[i] == q[i]);
        }
        assert forall|i: int, j: int|
            0 <= i < pi.len() && 0 <= j < pi.len() && (#[trigger] pi[i]).name == (
            #[trigger] pi[j]).name implies pi[i] == pi[j] by {
            assert(pi[j] == p[j] && pi[i] == p[i]);
        }
        lemma_in_order_unique(pi, qi);
    }
}

/// Of two sessions with the same tally, each bucket of one is a bucket of the other.
proof fn lemma_tally_contains(a: StatsModel, b: StatsModel, k: int)
    requires
        consistent(a),
        consistent(b),
        tally_of(a) == tally_of(b),
        0 <= k < a.buckets.len(),
    ensures
        b.buckets.contains(a.buckets[k]),
{
    let name = a.buckets[k].name;
    lemma_found(a.buckets, k);
    assert(by_name(a.buckets).contains_key(name));
    assert(by_name(b.buckets).contains_key(name));
    assert(by_name(b.buckets)[name] == by_name(a.buckets)[name]);
    assert(b.buckets[bucket_index(b.buckets, name) as int] == a.buckets[k]);
}

proof fn lemma_tally_fixes_report(a: StatsModel, b: StatsModel)
    requires
        consistent(a),
        consistent(b),
        tally_of(a) == tally_of(b),
    ensures
        report(a) == report(b),
{
    broadcast use vstd::seq_lib::group_to_multiset_ensures;

    let p = a.buckets;
    let q = b.buckets;
    assert(p.no_duplicates());
    assert(q.no_duplicates());
    p.lemma_multiset_has_no_duplicates();
    q.lemma_multiset_has_no_duplicates();
    assert forall|x: BucketModel| #[trigger] p.to_multiset().count(x) == q.to_multiset().count(
        x,
    ) by {
        if p.contains(x) {
            let k = choose|k: int| 0 <= k < p.len() && p[k] == x;
            lemma_tally_contains(a, b, k);
        }
        if q.contains(x) {
            let k = choose|k: int| 0 <= k < q.len() && q[k] == x;
            lemma_tally_contains(b, a, k);
        }
        assert(p.to_multiset().contains(x) == q.to_multiset().contains(x));
    }
    assert(p.to_multiset() =~= q.to_multiset());
    lemma_ranked(p);
    lemma_ranked(q);
    let rows = ranked(p);
    assert forall|i: int, j: int|
        0 <= i < rows.len() && 0 <= j < rows.len() && (#[trigger] rows[i]).name == (
        #[trigger] rows[j]).name implies rows[i] == rows[j] by {
        assert(rows.to_multiset().contains(rows[i]) && rows.to_multiset().contains(rows[j]));
        assert(p.contains(rows[i]) && p.contains(rows[j]));
        let x = choose|x: int| 0 <= x < p.len() && p[x] == rows[i];
        let y = choose|y: int| 0 <= y < p.len() && p[y] == rows[j];
        if x < y {
            assert(p[x].name != p[y].name);
        } else if y < x {
            assert(p[y].name != p[x].name);
        }
    }
    lemma_in_order_unique(rows, ranked(q));
}

/// The order in which calls are recorded does not show in the report: two sessions that
/// were told of the same calls, each as often, report the same.
pub proof fn lemma_report_ignores_order(p: Seq<CallModel>, q: Seq<CallModel>)
    requires
        p.to_multiset() == q.to_multiset(),
    ensures
        report(session_of(p)) == report(session_of(q)),
{
    let f = |c: CallModel, t: Tally| tallied(c, t);
    let zero = tally_of(session_of(seq![]));
    assert(vstd::seq_lib::commutative_foldr(f)) by {
        assert forall|x: CallModel, y: CallModel, t: Tally| #[trigger] f(x, f(y, t)) == f(
            y,
            f(x, t),
        ) by {
            lemma_tallied_commutes(x, y, t);
        }
    }
    lemma_tally_of_calls(p);
    lemma_tally_of_calls(q);
    vstd::seq_lib::lemma_fold_right_permutation(p, q, f, zero);
    lemma_tally_fixes_report(session_of(p), session_of(q));
}

/// Whether `a` comes before `b` in the order of their characters.
fn comes_before(a: &str, b: &str) -> (r: bool)
    ensures
        r == text_before(a@, b@),
{
    let x = chars::to_chars(a);
    let y = chars::to_chars(b);
    let mut i: usize = 0;
    proof {
        assert(a@.skip(0) =~= a@);
        assert(b@.skip(0) =~= b@);
    }
    while i < x.len() && i < y.len()
        invariant
            x@ == a@,
            y@ == b@,
            i <= x@.len(),
            i <= y@.len(),
            text_before(a@, b@) == text_before(a@.skip(i as int), b@.skip(i as int)),
        decreases x@.len() - i,
    {
        proof {
            let s = a@.skip(i as int);
            let t = b@.skip(i as int);
            assert(s[0] == x@[i as int] && t[0] == y@[i as int]);
            assert(s.skip(1) =~= a@.skip(i as int + 1));
            assert(t.skip(1) =~= b@.skip(i as int + 1));
        }
        if x[i] != y[i] {
            return x[i] < y[i];
        }
        i = i + 1;
    }
    x.len() < y.len()
}

impl Bucket {
    /// Whether the bucket stands above another in the report.
    fn is_above(&self, other: &Bucket) -> (r: bool)
        ensures
            r == above(self.model(), other.model()),
    {
        let x = self.saved();
        let y = other.saved();
        x > y || (x == y && comes_before(self.name.as_str(), other.name.as_str()))
    }
}

spec fn row_models(rows: Seq<&Bucket>) -> Seq<BucketModel> {
    rows.map_values(|b: &Bucket| b.model())
}

/// The buckets as they stand in the report.
fn rank<'a>(buckets: &'a Vec<Bucket>) -> (r: Vec<&'a Bucket>)
    ensures
        row_models(r@) == ranked(bucket_models(buckets@)),
{
    let ghost all = bucket_models(buckets@);
    let mut rows: Vec<&'a Bucket> = Vec::new();
    let mut i: usize = 0;
    proof {
        assert(all.take(0) =~= seq![]);
        assert(row_models(rows@) =~= seq![]);
    }
    while i < buckets.len()
        invariant
            i <= buckets@.len(),
            all == bucket_models(buckets@),
            row_models(rows@) == ranked(all.take(i as int)),
        decreases buckets@.len() - i,
    {
        let bucket = &buckets[i];
        let ghost ms = row_models(rows@);
        let mut k: usize = rows.len();
        while k > 0 && bucket.is_above(rows[k - 1])
            invariant
                k <= rows@.len(),
                ms == row_models(rows@),
                forall|j: int| k <= j < ms.len() ==> above(bucket.model(), #[trigger] ms[j]),
            decreases k,
        {
            k = k - 1;
        }
        proof {
            if k > 0 {
                assert(ms[k - 1] == rows@[k - 1].model());
            }
            lemma_insert_ranked(ms, bucket.model(), k as int);
            let upto = all.take(i as int + 1);
            assert(upto.drop_last() =~= all.take(i as int));
            assert(upto.last() == bucket.model());
        }
        rows.insert(k, bucket);
        proof {
            assert(row_models(rows@) =~= ms.insert(k as int, bucket.model()));
        }
        i = i + 1;
    }
    proof {
        assert(all.take(i as int) =~= all);
    }
    rows
}

// ---- numbers for people ----

/// `n` over `d`, rounded to the nearest whole number, and to the even one of two.
fn round(n: u128, d: u128) -> (r: u128)
    requires
        0 < d < 0x1_0000_0000_0000_0000,
        n < 0x1_0000_0000_0000_0000_0000_0000,
    ensures
        r == rounded(n as nat, d as nat),
        r <= n / d + 1,
{
    let q = n / d;
    let rest = n % d;
    if 2 * rest > d || (2 * rest == d && q % 2 == 1) {
        proof {
            assert(n / d <= n) by (nonlinear_arith)
                requires
                    0 < d,
                    0 <= n,
            ;
        }
        q + 1
    } else {
        q
    }
}

/// The distance between the 53-bit numbers around `n`.
fn spacing_of(n: u64) -> (r: u64)
    ensures
        r == spacing(n as nat),
        0 < r <= 4096,
{
    let mut m: u64 = n;
    let mut unit: u64 = 1;
    while m >= 0x20_0000_0000_0000
        invariant
            0 < unit <= 4096,
            unit * m <= n,
            spacing(n as nat) == unit * spacing(m as nat),
        decreases m,
    {
        proof {
            let half: int = m as int / 2;
            assert(unit < 2048) by (nonlinear_arith)
                requires
                    unit * m <= 0xffff_ffff_ffff_ffff,
                    m >= 0x20_0000_0000_0000,
            ;
            assert((2 * unit) * half <= unit * m) by (nonlinear_arith)
                requires
                    2 * half <= m,
                    0 < unit,
            ;
            assert(unit * (2 * spacing(half as nat)) == (2 * unit) * spacing(half as nat))
                by (nonlinear_arith);
        }
        m = m / 2;
        unit = unit * 2;
    }
    proof {
        assert(unit * 1 == unit);
    }
    unit
}

/// The 53-bit number nearest to `n`.
fn nearest_of(n: u64) -> (r: u128)
    ensures
        r == nearest(n as nat),
        r < 0x2_0000_0000_0000_0000,
{
    let unit = spacing_of(n) as u128;
    let count = round(n as u128, unit);
    proof {
        let q: int = n as int / unit as int;
        vstd::arithmetic::div_mod::lemma_fundamental_div_mod(n as int, unit as int);
        assert(unit * q <= n) by {
            vstd::arithmetic::div_mod::lemma_mod_bound(n as int, unit as int);
        }
        assert(count * unit <= unit * q + unit) by (nonlinear_arith)
            requires
                count <= q + 1,
                0 < unit,
        ;
    }
    count * unit
}

/// Appends `n` units with one decimal.
fn append_one_decimal(out: &mut Vec<char>, n: u64, unit: u64)
    requires
        1024 <= unit,
    ensures
        final(out)@ == old(out)@ + one_decimal(n as nat, unit as nat),
{
    let f = nearest_of(n);
    let tenths = round(10 * f, unit as u128);
    proof {
        assert((10 * f) / unit as int <= 0x500_0000_0000_0000) by (nonlinear_arith)
            requires
                0 <= 10 * f <= 0x14_0000_0000_0000_0000,
                1024 <= unit,
        ;
    }
    chars::append_decimal(out, (tenths / 10) as u64);
    out.push('.');
    let last: u8 = (tenths % 10) as u8;
    out.push((48 + last) as char);
    proof {
        assert(out@ =~= old(out)@ + one_decimal(n as nat, unit as nat));
    }
}

/// Appends a number of bytes, for people.
fn append_human(out: &mut Vec<char>, n: u64)
    ensures
        final(out)@ == old(out)@ + human(n as nat),
{
    let ghost start = out@;
    if n >= 0x10_0000 {
        append_one_decimal(out, n, 0x10_0000);
        chars::append_str(out, " MB");
    } else if n >= 0x400 {
        append_one_decimal(out, n, 0x400);
        chars::append_str(out, " KB");
    } else {
        chars::append_decimal(out, n);
        chars::append_str(out, " B");
    }
    proof {
        assert(out@ =~= start + human(n as nat));
    }
}

/// A number of bytes, for people: in bytes below a kilobyte, else in kilobytes or
/// megabytes with one decimal.
#[must_use]
pub fn human_bytes(n: u64) -> (r: String)
    ensures
        r@ == human(n as nat),
{
    let mut out: Vec<char> = Vec::new();
    append_human(&mut out, n);
    proof {
        assert(out@ =~= human(n as nat));
    }
    chars::to_text(out.as_slice())
}

// ---- the report ----

/// Appends `n` spaces.
fn append_spaces(out: &mut Vec<char>, n: usize)
    ensures
        final(out)@ == old(out)@ + spaces(n as nat),
{
    let ghost start = out@;
    let mut i: usize = 0;
    proof {
        assert(start + spaces(0) =~= start);
    }
    while i < n
        invariant
            i <= n,
            out@ == start + spaces(i as nat),
        decreases n - i,
    {
        out.push(' ');
        proof {
            assert(out@ =~= start + spaces((i + 1) as nat));
        }
        i = i + 1;
    }
}

/// The name with spaces behind it.
fn padded_name(name: &str, width: usize) -> (r: Vec<char>)
    ensures
        r@ == padded(name@, width as nat),
{
    let mut out = chars::to_chars(name);
    if out.len() < width {
        let missing: usize = width - out.len();
        append_spaces(&mut out, missing);
    }
    out
}

/// The share with spaces before it, two characters wide.
fn aligned_share(pct: u64) -> (r: Vec<char>)
    ensures
        r@ == (if chars::decimal(pct as nat).len() < 2 {
            spaces((2 - chars::decimal(pct as nat).len()) as nat)
        } else {
            seq![]
        }) + chars::decimal(pct as nat),
{
    let mut digits: Vec<char> = Vec::new();
    chars::append_decimal(&mut digits, pct);
    proof {
        assert(digits@ =~= chars::decimal(pct as nat));
    }
    let mut out: Vec<char> = Vec::new();
    if digits.len() < 2 {
        append_spaces(&mut out, 2 - digits.len());
        proof {
            assert(out@ =~= spaces((2 - digits@.len()) as nat));
        }
    }
    chars::append(&mut out, digits.as_slice());
    out
}

/// The line of a bucket.
fn bucket_text(bucket: &Bucket, width: usize) -> (r: Vec<char>)
    ensures
        r@ == bucket_line(bucket.model(), width as nat),
{
    let ghost b = bucket.model();
    let ghost bytes = saved(b.input, b.output);
    let mut out = chars::to_chars("   ");
    chars::append(&mut out, padded_name(bucket.name.as_str(), width).as_slice());
    chars::append_str(&mut out, "  -");
    let ghost head = out@;
    chars::append(&mut out, aligned_share(bucket.pct()).as_slice());
    proof {
        let text = chars::decimal(share(bytes, b.input));
        let fill = if text.len() < 2 {
            spaces((2 - text.len()) as nat)
        } else {
            seq![]
        };
        assert(head + (fill + text) =~= head + fill + text);
    }
    chars::append_str(&mut out, "%   (");
    chars::append_decimal(&mut out, bucket.calls);
    chars::append_str(&mut out, " call");
    let ghost counted = out@;
    if bucket.calls != 1 {
        out.push('s');
    }
    proof {
        assert(out@ =~= counted + plural(b.calls));
    }
    chars::append_str(&mut out, ", ");
    append_human(&mut out, bucket.saved());
    chars::append_str(&mut out, ")");
    out
}

/// The width of the column of names.
fn width_of(rows: &Vec<&Bucket>) -> (r: usize)
    ensures
        r == label_width(row_models(rows@)),
{
    let ghost all = row_models(rows@);
    let mut width: usize = 4;
    let mut i: usize = 0;
    proof {
        assert(all.take(0) =~= seq![]);
    }
    while i < rows.len()
        invariant
            i <= rows@.len(),
            all == row_models(rows@),
            width == label_width(all.take(i as int)),
        decreases rows@.len() - i,
    {
        proof {
            let upto = all.take(i as int + 1);
            assert(upto.drop_last() =~= all.take(i as int));
            assert(upto.last() == rows@[i as int].model());
        }
        let n = chars::byte_length(rows[i].name.as_str());
        if n > width {
            width = n;
        }
        i = i + 1;
    }
    proof {
        assert(all.take(i as int) =~= all);
    }
    width
}

impl Stats {
    /// The line of the totals.
    fn totals_text(&self) -> (r: Vec<char>)
        ensures
            r@ == totals_line(self@),
    {
        let bytes = self.total_saved_bytes();
        let mut out = chars::to_chars("   ");
        append_human(&mut out, bytes);
        chars::append_str(&mut out, " saved across ");
        chars::append_decimal(&mut out, self.call_count);
        chars::append_str(&mut out, " tool call");
        let ghost counted = out@;
        if self.call_count != 1 {
            out.push('s');
        }
        proof {
            assert(out@ =~= counted + plural(self@.calls));
        }
        chars::append_str(&mut out, "  (");
        chars::append_decimal(&mut out, percentage(bytes, self.total_input_bytes));
        chars::append_str(&mut out, "% avg reduction)");
        out
    }

    /// The report of the session, for people: the totals, and the buckets, those that
    /// saved most first.
    #[must_use]
    pub fn render(&self) -> (r: String)
        ensures
            r@ == report(self@),
    {
        let mut out: Vec<char> = Vec::new();
        if self.call_count == 0 {
            chars::append_str(&mut out, "🗜️  crush — no compressions yet this session.");
            proof {
                assert(out@ =~= report(self@));
            }
            return chars::to_text(out.as_slice());
        }
        let ghost all = report_lines(self@);
        chars::append_str(&mut out, "🗜️  crush — context saved this session");
        out.push('\n');
        proof {
            assert(all.take(1) =~= seq![all[0]]);
            assert(out@ =~= lines::join_lines(all.take(1)).push('\n'));
        }
        chars::append(&mut out, self.totals_text().as_slice());
        proof {
            assert(all.take(2) =~= all.take(1).push(all[1]));
            lines::lemma_join_push(all.take(1), seq!['\n'], all[1]);
            assert(out@ =~= lines::join_lines(all.take(2)));
        }
        out.push('\n');
        chars::append_str(&mut out, "   ───────────────────────────────");
        proof {
            assert(all.take(3) =~= all.take(2).push(all[2]));
            lines::lemma_join_push(all.take(2), seq!['\n'], all[2]);
            assert(out@ =~= lines::join_lines(all.take(3)));
        }
        let rows = rank(&self.by_bucket);
        let width = width_of(&rows);
        let mut i: usize = 0;
        while i < rows.len()
            invariant
                i <= rows@.len(),
                all == report_lines(self@),
                row_models(rows@) == ranked(self@.buckets),
                width == label_width(row_models(rows@)),
                out@ == lines::join_lines(all.take(i + 3)),
            decreases rows@.len() - i,
        {
            out.push('\n');
            chars::append(&mut out, bucket_text(rows[i], width).as_slice());
            proof {
                assert(row_models(rows@)[i as int] == rows@[i as int].model());
                assert(all[i + 3] == bucket_line(rows@[i as int].model(), width as nat));
                assert(all.take(i + 4) =~= all.take(i + 3).push(all[i + 3]));
                lines::lemma_join_push(all.take(i + 3), seq!['\n'], all[i + 3]);
                assert(out@ =~= lines::join_lines(all.take(i + 4)));
            }
            i = i + 1;
        }
        proof {
            assert(all.take(i + 3) =~= all);
        }
        chars::to_text(out.as_slice())
    }
}

impl Default for Stats {
    fn default() -> (r: Self)
        ensures
            r@.input == 0,
            r@.output == 0,
            r@.calls == 0,
            r@.buckets == Seq::<BucketModel>::empty(),
    {
        Stats::new()
    }
}

} // verus!
