//! What the columnar fold loses: the padding between columns, and nothing else.
//!
//! [`lemma_unfold_restores_rows`] states the contract of the pair
//! [`super::fold`] and [`super::unfold`]: unfolding a folded text gives the
//! line that was held aside and, for every row, its field values and its tail, each
//! exactly as it was, with one separator between each two.
use vstd::prelude::*;
use crate::chars;
use crate::lines;
use crate::markers;
use crate::transforms::columnar::model;
use crate::transforms::columnar::model::{Coding, Delim, DictModel, Layout, RowModel};

verus! {

// ---- what is promised ----

/// The names of a layout can be read back from a header: each is one word without an
/// equals sign, no two columns share one, and the tail has a name.
pub open spec fn well_named(schema: Layout) -> bool {
    &&& forall|i: int|
        0 <= i < schema.cols.len() ==> (#[trigger] schema.cols[i]).len() > 0 && model::is_token(
            schema.cols[i],
        )
    &&& schema.cols.no_duplicates()
    &&& is_word(schema.tail)
}

/// `s` is not empty and holds no whitespace.
pub open spec fn is_word(s: Seq<char>) -> bool {
    s.len() > 0 && forall|j: int| 0 <= j < s.len() ==> !chars::whitespace(#[trigger] s[j])
}

/// The line that is held aside is no line of the folded form.
pub open spec fn plain_preamble(text: Seq<char>, schema: Layout) -> bool {
    forall|i: int|
        0 <= i < model::preamble(text, schema).len() ==> {
            let line = #[trigger] model::preamble(text, schema)[i];
            !model::is_header_line(line) && !model::is_dict_line(line)
        }
}

/// The lines that unfolding restores: the line held aside, and the rows, each with one
/// separator between its parts.
pub open spec fn restored_lines(text: Seq<char>, schema: Layout) -> Seq<Seq<char>> {
    model::preamble(text, schema) + model::rows(text, schema).map_values(
        |r: RowModel| model::line_of(r.0, r.1, schema.delim),
    )
}

// ---- words and fields ----

/// The words of spaced words are those words.
proof fn lemma_words_spaced(tokens: Seq<Seq<char>>)
    requires
        forall|i: int| 0 <= i < tokens.len() ==> is_word(#[trigger] tokens[i]),
    ensures
        lines::words(model::spaced(tokens)) == tokens,
    decreases tokens.len(),
{
    if tokens.len() == 0 {
        assert(lines::words(Seq::<char>::empty()) =~= tokens);
    } else {
        let rest = tokens.skip(1);
        assert forall|i: int| 0 <= i < rest.len() implies is_word(#[trigger] rest[i]) by {
            assert(rest[i] == tokens[i + 1]);
        }
        lemma_words_spaced(rest);
        let tail = model::spaced(rest);
        assert(is_word(tokens[0]));
        assert(rest.len() > 0 ==> tail[0] == ' ');
        lines::lemma_words_cons(tokens[0], tail);
        lines::lemma_words_space(tokens[0] + tail);
        assert(seq![' '] + (tokens[0] + tail) =~= seq![' '] + tokens[0] + tail);
        assert(seq![tokens[0]] + rest =~= tokens);
    }
}

/// What fields and tails are made of.
pub open spec fn sound_row(fields: Seq<Seq<char>>, tail: Seq<char>, delim: Delim) -> bool {
    match delim {
        Delim::Whitespace => {
            &&& forall|i: int| 0 <= i < fields.len() ==> is_word(#[trigger] fields[i])
            &&& tail.len() > 0 ==> !chars::whitespace(tail[0])
        },
        Delim::Char(c) => forall|i: int| 0 <= i < fields.len() ==> chars::lacks(#[trigger] fields[i], c),
    }
}

/// The fields and the tail of a line are what [`sound_row`] says, and hold no line feed.
pub proof fn lemma_row_is_sound(line: Seq<char>, n: nat, delim: Delim)
    requires
        model::row_of(line, n, delim) is Some,
        lines::is_line(line),
    ensures
        sound_row(
            (model::row_of(line, n, delim)->0).0,
            (model::row_of(line, n, delim)->0).1,
            delim,
        ),
        lines::is_line((model::row_of(line, n, delim)->0).1),
        forall|i: int|
            0 <= i < n ==> lines::is_line(#[trigger] (model::row_of(line, n, delim)->0).0[i]),
    decreases n,
{
    let row = model::row_of(line, n, delim)->0;
    match delim {
        Delim::Whitespace => {
            chars::lemma_trim_start(line);
            let t = chars::trim_start(line);
            assert(lines::is_line(t));
            if n > 0 {
                chars::lemma_find_white(t);
                let k = chars::find_white(t) as int;
                assert(lines::is_line(t.skip(k)));
                lemma_row_is_sound(t.skip(k), (n - 1) as nat, delim);
                let inner = model::row_of(t.skip(k), (n - 1) as nat, delim)->0;
                model::lemma_row_fields(t.skip(k), (n - 1) as nat, delim, false);
                assert(is_word(t.take(k)));
                assert(lines::is_line(t.take(k)));
                assert forall|i: int| 0 <= i < row.0.len() implies is_word(#[trigger] row.0[i])
                    && lines::is_line(row.0[i]) by {
                    if i > 0 {
                        assert(row.0[i] == inner.0[i - 1]);
                    }
                }
            }
        },
        Delim::Char(c) => {
            if n > 0 {
                chars::lemma_find_char(line, c);
                let k = chars::find_char(line, c) as int;
                assert(lines::is_line(line.skip(k + 1)));
                lemma_row_is_sound(line.skip(k + 1), (n - 1) as nat, delim);
                let inner = model::row_of(line.skip(k + 1), (n - 1) as nat, delim)->0;
                model::lemma_row_fields(line.skip(k + 1), (n - 1) as nat, delim, false);
                assert(chars::lacks(line.take(k), c));
                assert(lines::is_line(line.take(k)));
                assert forall|i: int| 0 <= i < row.0.len() implies chars::lacks(#[trigger] row.0[i], c)
                    && lines::is_line(row.0[i]) by {
                    if i > 0 {
                        assert(row.0[i] == inner.0[i - 1]);
                    }
                }
            }
        },
    }
}

/// A line of cells and a tail, with the first cell taken off.
pub proof fn lemma_line_cons(cells: Seq<Seq<char>>, tail: Seq<char>, delim: Delim)
    requires
        cells.len() > 0,
        delim is Whitespace ==> tail.len() > 0 || cells.len() > 1,
    ensures
        model::line_of(cells, tail, delim) == cells[0] + seq![model::separator(delim)]
            + model::line_of(cells.skip(1), tail, delim),
{
    let parts = cells + model::tail_part(tail, delim);
    assert(parts.skip(1) =~= cells.skip(1) + model::tail_part(tail, delim));
}

/// Splitting undoes joining: a line of cells and a tail has those cells and that tail.
pub proof fn lemma_row_of_line(cells: Seq<Seq<char>>, tail: Seq<char>, delim: Delim)
    requires
        sound_row(cells, tail, delim),
    ensures
        model::wire_row(model::line_of(cells, tail, delim), cells.len(), delim) == Some(
            (cells, tail),
        ),
    decreases cells.len(),
{
    let line = model::line_of(cells, tail, delim);
    if cells.len() == 0 {
        assert(cells =~= Seq::<Seq<char>>::empty());
        if delim is Whitespace && tail.len() == 0 {
            assert(line =~= Seq::<char>::empty());
            assert(chars::trim_start(line) =~= tail);
        } else {
            assert(cells + seq![tail] =~= seq![tail]);
            assert(line == tail);
            if delim is Whitespace {
                chars::lemma_trim_start_is(tail, 0);
                assert(tail.skip(0) =~= tail);
            }
        }
    } else if delim is Whitespace && tail.len() == 0 && cells.len() == 1 {
        // The cell ends the line.
        assert(cells + model::tail_part(tail, delim) =~= cells);
        assert(line == cells[0]);
        assert(is_word(cells[0]));
        chars::lemma_trim_start_is(line, 0);
        assert(line.skip(0) =~= line);
        chars::lemma_find_white_is(line, line.len());
        assert(cells =~= seq![line]);
        assert(tail =~= seq![]);
    } else {
        let rest = cells.skip(1);
        let inner = model::line_of(rest, tail, delim);
        let w = cells[0];
        lemma_line_cons(cells, tail, delim);
        match delim {
            Delim::Whitespace => {
                assert forall|i: int| 0 <= i < rest.len() implies is_word(#[trigger] rest[i]) by {
                    assert(rest[i] == cells[i + 1]);
                }
                assert(is_word(w));
                lemma_row_of_line(rest, tail, delim);
                assert(line[0] == w[0]);
                chars::lemma_trim_start_is(line, 0);
                assert(line.skip(0) =~= line);
                assert(line[w.len() as int] == ' ');
                chars::lemma_find_white_is(line, w.len());
                assert(line.take(w.len() as int) =~= w);
                let after = line.skip(w.len() as int);
                assert(after =~= seq![' '] + inner);
                assert(after.skip(1) =~= inner);
                assert(chars::trim_start(after) == chars::trim_start(inner));
                lemma_fixed_fields_trimmed(after, inner, rest.len());
            },
            Delim::Char(c) => {
                assert forall|i: int| 0 <= i < rest.len() implies chars::lacks(#[trigger] rest[i], c) by {
                    assert(rest[i] == cells[i + 1]);
                }
                assert(chars::lacks(w, c));
                lemma_row_of_line(rest, tail, delim);
                chars::lemma_find_char_is(line, c, w.len());
                assert(line.take(w.len() as int) =~= w);
                assert(line.skip(w.len() as int + 1) =~= inner);
            },
        }
        assert(seq![w] + rest =~= cells);
    }
}

/// Leading whitespace does not change the fields of a line.
proof fn lemma_fixed_fields_trimmed(a: Seq<char>, b: Seq<char>, n: nat)
    requires
        chars::trim_start(a) == chars::trim_start(b),
    ensures
        model::fixed_fields(a, n, true) == model::fixed_fields(b, n, true),
{
    reveal_with_fuel(model::fixed_fields, 2);
}

/// A line of cells and a tail without line feeds has none.
pub proof fn lemma_line_of_is_line(cells: Seq<Seq<char>>, tail: Seq<char>, delim: Delim)
    requires
        forall|i: int| 0 <= i < cells.len() ==> lines::is_line(#[trigger] cells[i]),
        lines::is_line(tail),
        model::separator(delim) != '\n',
    ensures
        lines::is_line(model::line_of(cells, tail, delim)),
{
    let parts = cells + model::tail_part(tail, delim);
    assert forall|i: int| 0 <= i < parts.len() implies lines::is_line(#[trigger] parts[i]) by {
        if i < cells.len() {
            assert(parts[i] == cells[i]);
        }
    }
    lemma_join_is_line(parts, model::separator(delim));
}

proof fn lemma_join_is_line(parts: Seq<Seq<char>>, sep: char)
    requires
        forall|i: int| 0 <= i < parts.len() ==> lines::is_line(#[trigger] parts[i]),
        sep != '\n',
    ensures
        lines::is_line(lines::join(parts, seq![sep])),
    decreases parts.len(),
{
    if parts.len() == 0 {
    } else if parts.len() == 1 {
        assert(lines::is_line(parts[0]));
    } else {
        let rest = parts.skip(1);
        assert forall|i: int| 0 <= i < rest.len() implies lines::is_line(#[trigger] rest[i]) by {
            assert(rest[i] == parts[i + 1]);
        }
        lemma_join_is_line(rest, sep);
        assert(lines::is_line(parts[0]));
    }
}

// ---- codes and dictionaries ----

/// The entries of the dictionary of the values.
pub open spec fn entries_of(values: Seq<Seq<char>>) -> DictModel {
    Seq::new(values.len(), |k: int| (model::code(k as nat), values[k]))
}

/// The dictionaries of the columns that have one, by name.
pub open spec fn dicts_of(cols: Seq<Seq<char>>, codings: Seq<Coding>) -> Seq<
    (Seq<char>, DictModel),
>
    decreases cols.len(),
{
    if cols.len() == 0 {
        seq![]
    } else {
        let rest = dicts_of(cols.skip(1), codings.skip(1));
        match codings[0] {
            Coding::Dict(values) => seq![(cols[0], entries_of(values))] + rest,
            _ => rest,
        }
    }
}

/// The values that a coding declares are tokens, and there are codes enough for them.
pub open spec fn sound_coding(coding: Coding) -> bool {
    match coding {
        Coding::Constant(value) => model::is_token(value),
        Coding::Dict(values) => values.len() <= model::CODES && forall|k: int|
            0 <= k < values.len() ==> model::is_token(#[trigger] values[k]),
        Coding::Plain => true,
    }
}

/// The coding can write the field.
pub open spec fn writes(coding: Coding, field: Seq<char>) -> bool {
    match coding {
        Coding::Constant(value) => field == value,
        Coding::Dict(values) => values.contains(field),
        Coding::Plain => true,
    }
}

/// A column's coding declares tokens only, and can write every field of the column.
proof fn lemma_coding_is_sound(rows: Seq<RowModel>, i: int)
    requires
        rows.len() > 0,
    ensures
        sound_coding(model::coding(model::column(rows, i))),
        forall|r: int|
            0 <= r < rows.len() ==> writes(
                model::coding(model::column(rows, i)),
                (#[trigger] rows[r]).0[i],
            ),
{
    let values = model::column(rows, i);
    let d = model::distinct(values);
    model::lemma_distinct(values);
    if forall|r: int| 0 <= r < values.len() ==> model::is_token(#[trigger] values[r]) {
        assert forall|k: int| 0 <= k < d.len() implies model::is_token(#[trigger] d[k]) by {
            assert(values.contains(d[k]));
            let r = choose|r: int| 0 <= r < values.len() && values[r] == d[k];
            assert(model::is_token(values[r]));
        }
        assert(values[0] == rows[0].0[i]);
    }
    assert forall|r: int| 0 <= r < rows.len() implies writes(
        model::coding(values),
        (#[trigger] rows[r]).0[i],
    ) by {
        assert(values[r] == rows[r].0[i]);
        assert(d.contains(values[r]));
    }
}

/// Codes are letters and digits, and no two are the same.
proof fn lemma_codes()
    ensures
        forall|k: nat|
            k < model::CODES ==> {
                let c = #[trigger] model::code(k);
                !chars::whitespace(c) && c != '=' && !model::usable(c)
            },
        forall|j: nat, k: nat|
            j < k < model::CODES ==> #[trigger] model::code(j) != #[trigger] model::code(k),
{
}

/// The last entry with a key is the only one, where no two entries share a key.
proof fn lemma_latest_at<K, V>(entries: Seq<(K, V)>, k: int)
    requires
        0 <= k < entries.len(),
        forall|i: int, j: int|
            0 <= i < j < entries.len() ==> (#[trigger] entries[i]).0 != (#[trigger] entries[j]).0,
    ensures
        model::latest(entries, entries[k].0) == Some(entries[k].1),
    decreases entries.len(),
{
    let init = entries.drop_last();
    if k < init.len() {
        assert(init[k] == entries[k]);
        assert(entries[k].0 != entries[entries.len() - 1].0);
        lemma_latest_at(init, k);
    }
}

/// Looking up a key in entries with one more at the front.
proof fn lemma_latest_cons<K, V>(x: (K, V), rest: Seq<(K, V)>, key: K)
    ensures
        model::latest(seq![x] + rest, key) == match model::latest(rest, key) {
            Some(v) => Some(v),
            None => if x.0 == key {
                Some(x.1)
            } else {
                None
            },
        },
    decreases rest.len(),
{
    let all = seq![x] + rest;
    if rest.len() == 0 {
        assert(all.last() == x);
        assert(all.drop_last() =~= rest);
    } else {
        assert(all.last() == rest.last());
        assert(all.drop_last() =~= seq![x] + rest.drop_last());
        lemma_latest_cons(x, rest.drop_last(), key);
    }
}

/// A code stands for the value at whose place it was taken.
proof fn lemma_decode_code(values: Seq<Seq<char>>, field: Seq<char>)
    requires
        values.len() <= model::CODES,
        values.contains(field),
    ensures
        model::latest(
            entries_of(values),
            model::code(model::place(values, field)),
        ) == Some(field),
{
    model::lemma_place(values, field);
    lemma_codes();
    let p = model::place(values, field) as int;
    let entries = entries_of(values);
    assert forall|i: int, j: int| 0 <= i < j < entries.len() implies (#[trigger] entries[i]).0 != (
    #[trigger] entries[j]).0 by {
        assert(model::code(i as nat) != model::code(j as nat));
    }
    lemma_latest_at(entries, p);
}

/// No dictionary is found for a name that is no column's.
proof fn lemma_no_dict(cols: Seq<Seq<char>>, codings: Seq<Coding>, name: Seq<char>)
    requires
        !cols.contains(name),
    ensures
        model::latest(dicts_of(cols, codings), name) is None,
    decreases cols.len(),
{
    if cols.len() > 0 {
        let rest = cols.skip(1);
        assert(!rest.contains(name)) by {
            if rest.contains(name) {
                let i = choose|i: int| 0 <= i < rest.len() && rest[i] == name;
                assert(cols[i + 1] == name);
            }
        }
        lemma_no_dict(rest, codings.skip(1), name);
        assert(cols[0] != name);
        match codings[0] {
            Coding::Dict(values) => {
                lemma_latest_cons(
                    (cols[0], entries_of(values)),
                    dicts_of(rest, codings.skip(1)),
                    name,
                );
            },
            _ => {},
        }
    }
}

/// The dictionary that is found for a column is that of its coding.
proof fn lemma_dict_found(cols: Seq<Seq<char>>, codings: Seq<Coding>, i: int)
    requires
        cols.no_duplicates(),
        cols.len() == codings.len(),
        0 <= i < cols.len(),
    ensures
        model::latest(dicts_of(cols, codings), cols[i]) == match codings[i] {
            Coding::Dict(values) => Some(entries_of(values)),
            _ => None,
        },
    decreases cols.len(),
{
    let rest = cols.skip(1);
    let more = codings.skip(1);
    assert forall|a: int, b: int| 0 <= a < rest.len() && 0 <= b < rest.len() && a != b implies rest[a]
        != rest[b] by {
        assert(rest[a] == cols[a + 1] && rest[b] == cols[b + 1]);
    }
    if i == 0 {
        assert(!rest.contains(cols[0])) by {
            if rest.contains(cols[0]) {
                let k = choose|k: int| 0 <= k < rest.len() && rest[k] == cols[0];
                assert(cols[k + 1] == cols[0]);
            }
        }
        lemma_no_dict(rest, more, cols[0]);
    } else {
        lemma_dict_found(rest, more, i - 1);
        assert(rest[i - 1] == cols[i] && more[i - 1] == codings[i]);
        assert(cols[0] != cols[i]);
    }
    match codings[0] {
        Coding::Dict(values) => {
            lemma_latest_cons((cols[0], entries_of(values)), dicts_of(rest, more), cols[i]);
        },
        _ => {},
    }
}

// ---- the lines of the folded form ----

/// Every entry of tokens that are entries is read.
proof fn lemma_read_entries(tokens: Seq<Seq<char>>, entries: DictModel)
    requires
        tokens.len() == entries.len(),
        forall|k: int|
            0 <= k < tokens.len() ==> model::read_entry(#[trigger] tokens[k]) == Some(
                entries[k],
            ),
    ensures
        model::read_entries(tokens) == Some(entries),
    decreases tokens.len(),
{
    if tokens.len() == 0 {
        assert(entries =~= seq![]);
    } else {
        let rest = tokens.skip(1);
        let more = entries.skip(1);
        assert forall|k: int| 0 <= k < rest.len() implies model::read_entry(#[trigger] rest[k])
            == Some(more[k]) by {
            assert(rest[k] == tokens[k + 1]);
        }
        lemma_read_entries(rest, more);
        assert(model::read_entry(tokens[0]) == Some(entries[0]));
        assert(seq![entries[0]] + more =~= entries);
    }
}

/// What stands before and behind the equals sign of an assignment.
proof fn lemma_split_assignment(name: Seq<char>, value: Seq<char>)
    requires
        chars::lacks(name, '='),
    ensures
        model::split_once(model::assignment(name, value), '=') == Some((name, value)),
{
    let s = model::assignment(name, value);
    assert forall|j: int| 0 <= j < name.len() implies s[j] != '=' by {
        assert(s[j] == name[j]);
    }
    assert(s[name.len() as int] == '=');
    chars::lemma_find_char_is(s, '=', name.len());
    assert(s.take(name.len() as int) =~= name);
    assert(s.skip(name.len() as int + 1) =~= value);
}

/// An assignment of a token to a word is a word.
proof fn lemma_assignment_is_word(name: Seq<char>, value: Seq<char>)
    requires
        is_word(name),
        model::is_token(value),
    ensures
        is_word(model::assignment(name, value)),
{
    let s = model::assignment(name, value);
    assert forall|j: int| 0 <= j < s.len() implies !chars::whitespace(#[trigger] s[j]) by {
        if j < name.len() {
            assert(s[j] == name[j]);
        } else if j > name.len() {
            assert(s[j] == value[j - name.len() - 1]);
        }
    }
}

/// Spaced words hold no line feed, and do not end with a carriage return.
proof fn lemma_spaced_is_line(tokens: Seq<Seq<char>>)
    requires
        tokens.len() > 0,
        forall|i: int| 0 <= i < tokens.len() ==> is_word(#[trigger] tokens[i]),
    ensures
        lines::is_line(model::spaced(tokens)),
        model::spaced(tokens).len() > 0,
        !lines::ends_with_return(model::spaced(tokens)),
    decreases tokens.len(),
{
    let rest = tokens.skip(1);
    let w = tokens[0];
    assert(is_word(w));
    assert(lines::is_line(w));
    assert(w.last() == w[w.len() - 1]);
    if rest.len() > 0 {
        assert forall|i: int| 0 <= i < rest.len() implies is_word(#[trigger] rest[i]) by {
            assert(rest[i] == tokens[i + 1]);
        }
        lemma_spaced_is_line(rest);
    }
    let s = model::spaced(tokens);
    let more = model::spaced(rest);
    assert forall|j: int| 0 <= j < s.len() implies s[j] != '\n' by {
        if 0 < j <= w.len() {
            assert(s[j] == w[j - 1]);
        } else if j > w.len() {
            assert(s[j] == more[j - 1 - w.len()]);
        }
    }
}

/// The words of a dictionary line.
pub open spec fn dict_tokens(name: Seq<char>, values: Seq<Seq<char>>) -> Seq<Seq<char>> {
    seq![name] + model::dict_entries(values)
}

/// A dictionary line is read back.
proof fn lemma_read_dict_line(name: Seq<char>, values: Seq<Seq<char>>)
    requires
        name.len() > 0 && model::is_token(name),
        sound_coding(Coding::Dict(values)),
    ensures
        ({
            let line = model::dict_line(name, values);
            &&& model::is_dict_line(line)
            &&& !model::is_header_line(line)
            &&& lines::is_line(line)
            &&& !lines::ends_with_return(line)
            &&& model::read_delim(seq![line]) is Whitespace
            &&& model::read_dict(line.skip(markers::DICT@.len() as int)) == Some(
                (name, entries_of(values)),
            )
        }),
{
    markers::lemma_columnar_markers();
    lemma_codes();
    let line = model::dict_line(name, values);
    let items = model::dict_entries(values);
    let tokens = dict_tokens(name, values);
    let tail = model::spaced(tokens);
    assert forall|k: int| 0 <= k < items.len() implies is_word(#[trigger] items[k])
        && model::read_entry(items[k]) == Some(entries_of(values)[k]) by {
        let key = seq![model::code(k as nat)];
        assert(model::is_token(values[k]));
        lemma_assignment_is_word(key, values[k]);
        lemma_split_assignment(key, values[k]);
    }
    assert forall|k: int| 0 <= k < tokens.len() implies is_word(#[trigger] tokens[k]) by {
        if k > 0 {
            assert(tokens[k] == items[k - 1]);
        }
    }
    lemma_words_spaced(tokens);
    lemma_spaced_is_line(tokens);
    assert(line.skip(markers::DICT@.len() as int) =~= tail);
    assert(tokens.skip(1) =~= items);
    lemma_read_entries(items, entries_of(values));
    assert(tokens.len() == 2 ==> tokens[1] == items[0] && items[0].len() >= 2);
    assert(line.subrange(0, markers::DICT@.len() as int) =~= markers::DICT@);
    assert(line[9] == 'd');
    if model::is_header_line(line) {
        assert(line.subrange(0, markers::COLS@.len() as int)[9] == line[9]);
    }
    assert forall|j: int| 0 <= j < line.len() implies line[j] != '\n' by {
        if j < markers::DICT@.len() {
            assert(line[j] == markers::DICT@[j]);
        } else {
            assert(line[j] == tail[j - markers::DICT@.len()]);
        }
    }
    assert(line.last() == tail.last());
}

/// The dictionary lines are read back.
proof fn lemma_read_dict_lines(cols: Seq<Seq<char>>, codings: Seq<Coding>)
    requires
        cols.len() == codings.len(),
        forall|i: int|
            0 <= i < cols.len() ==> (#[trigger] cols[i]).len() > 0 && model::is_token(cols[i]),
        forall|i: int| 0 <= i < codings.len() ==> sound_coding(#[trigger] codings[i]),
    ensures
        model::read_dicts(model::dict_lines(cols, codings)) == Some(dicts_of(cols, codings)),
        forall|k: int|
            0 <= k < model::dict_lines(cols, codings).len() ==> {
                let line = #[trigger] model::dict_lines(cols, codings)[k];
                model::is_dict_line(line) && !model::is_header_line(line) && lines::is_line(
                    line,
                ) && !lines::ends_with_return(line) && model::read_delim(seq![line]) is Whitespace
            },
    decreases cols.len(),
{
    if cols.len() > 0 {
        let rest = cols.skip(1);
        let more = codings.skip(1);
        assert forall|i: int| 0 <= i < rest.len() implies (#[trigger] rest[i]).len() > 0
            && model::is_token(rest[i]) by {
            assert(rest[i] == cols[i + 1]);
        }
        assert forall|i: int| 0 <= i < more.len() implies sound_coding(#[trigger] more[i]) by {
            assert(more[i] == codings[i + 1]);
        }
        lemma_read_dict_lines(rest, more);
        let all = model::dict_lines(cols, codings);
        let tail = model::dict_lines(rest, more);
        assert(sound_coding(codings[0]));
        assert(cols[0].len() > 0);
        match codings[0] {
            Coding::Dict(values) => {
                lemma_read_dict_line(cols[0], values);
                assert(all.skip(1) =~= tail);
                assert forall|k: int| 0 <= k < all.len() implies {
                    let line = #[trigger] all[k];
                    model::is_dict_line(line) && !model::is_header_line(line)
                        && lines::is_line(line) && !lines::ends_with_return(line)
                        && model::read_delim(seq![line]) is Whitespace
                } by {
                    if k > 0 {
                        assert(all[k] == tail[k - 1]);
                    }
                }
            },
            _ => {},
        }
    }
}

/// The columns that a header declares.
pub open spec fn columns_of(cols: Seq<Seq<char>>, codings: Seq<Coding>) -> Seq<
    (Seq<char>, Option<Seq<char>>),
> {
    Seq::new(
        cols.len(),
        |i: int|
            (
                cols[i],
                match codings[i] {
                    Coding::Constant(value) => Some(value),
                    _ => None,
                },
            ),
    )
}

/// A header line is read back.
proof fn lemma_read_header_line(schema: Layout, codings: Seq<Coding>)
    requires
        well_named(schema),
        schema.cols.len() == codings.len(),
        forall|i: int| 0 <= i < codings.len() ==> sound_coding(#[trigger] codings[i]),
    ensures
        ({
            let line = model::header_line(schema, codings);
            let tokens = lines::words(line.skip(markers::COLS@.len() as int));
            &&& model::is_header_line(line)
            &&& lines::is_line(line)
            &&& !lines::ends_with_return(line)
            &&& tokens.len() > 0
            &&& model::read_columns(tokens) == columns_of(schema.cols, codings)
        }),
{
    markers::lemma_columnar_markers();
    let line = model::header_line(schema, codings);
    let tokens = model::header_tokens(schema, codings);
    let tail = model::spaced(tokens);
    let rest = line.skip(markers::COLS@.len() as int);
    assert forall|i: int| 0 <= i < tokens.len() implies is_word(#[trigger] tokens[i]) by {
        if i < schema.cols.len() {
            assert(schema.cols[i].len() > 0 && model::is_token(schema.cols[i]));
            assert(sound_coding(codings[i]));
            match codings[i] {
                Coding::Constant(value) => {
                    lemma_assignment_is_word(schema.cols[i], value);
                },
                _ => {},
            }
        }
    }
    lemma_words_spaced(tokens);
    lemma_spaced_is_line(tokens);
    assert(rest =~= tail);
    assert(lines::words(rest) == tokens);
    let columns = model::read_columns(tokens);
    let expect = columns_of(schema.cols, codings);
    assert forall|i: int| 0 <= i < schema.cols.len() implies columns[i] == expect[i] by {
        let name = schema.cols[i];
        assert(name.len() > 0 && model::is_token(name));
        assert(chars::lacks(name, '='));
        assert(tokens.drop_last()[i] == model::header_token(name, codings[i]));
        match codings[i] {
            Coding::Constant(value) => {
                lemma_split_assignment(name, value);
            },
            _ => {
                chars::lemma_find_char_is(name, '=', name.len());
            },
        }
    }
    assert(columns =~= expect);
    assert(line.subrange(0, markers::COLS@.len() as int) =~= markers::COLS@);
    assert forall|j: int| 0 <= j < line.len() implies line[j] != '\n' by {
        let m = markers::COLS@.len() as int;
        if j < m {
            assert(line[j] == markers::COLS@[j]);
        } else {
            assert(line[j] == tail[j - m]);
        }
    }
    assert(line.last() == tail.last());
}

/// The line that declares a separator is read back, and is no other line of the folded form.
proof fn lemma_read_delim_line(c: char)
    requires
        model::usable(c),
    ensures
        ({
            let line = model::delim_lines(Delim::Char(c))[0];
            &&& model::is_dict_line(line)
            &&& !model::is_header_line(line)
            &&& lines::is_line(line)
            &&& !lines::ends_with_return(line)
            &&& model::read_delim(seq![line]) == Delim::Char(c)
        }),
{
    markers::lemma_columnar_markers();
    reveal_strlit("delim");
    let line = model::delim_lines(Delim::Char(c))[0];
    let name = "delim"@;
    let tokens = seq![name, seq![c]];
    let tail = model::spaced(tokens);
    assert forall|k: int| 0 <= k < tokens.len() implies is_word(#[trigger] tokens[k]) by {
        if k == 0 {
            assert forall|j: int| 0 <= j < name.len() implies !chars::whitespace(
                #[trigger] name[j],
            ) by {}
        }
    }
    lemma_words_spaced(tokens);
    lemma_spaced_is_line(tokens);
    assert(line.skip(markers::DICT@.len() as int) =~= tail);
    assert(line.subrange(0, markers::DICT@.len() as int) =~= markers::DICT@);
    assert(line[9] == 'd');
    if model::is_header_line(line) {
        assert(line.subrange(0, markers::COLS@.len() as int)[9] == line[9]);
    }
    assert forall|j: int| 0 <= j < line.len() implies line[j] != '\n' by {
        if j < markers::DICT@.len() {
            assert(line[j] == markers::DICT@[j]);
        } else {
            assert(line[j] == tail[j - markers::DICT@.len()]);
        }
    }
    assert(line.last() == tail.last());
}

/// A separator is declared by a line that cannot be read as a dictionary: a block is read
/// with another separator than whitespace only where no dictionary could be read from the
/// line before its header.
pub proof fn lemma_delim_line_is_no_dict(head: Seq<Seq<char>>)
    requires
        model::read_delim(head) is Char,
    ensures
        model::read_dict(head.last().skip(markers::DICT@.len() as int)) is None,
        model::read_dicts(head) is None,
    decreases head.len(),
{
    let line = head.last();
    let tokens = lines::words(line.skip(markers::DICT@.len() as int));
    let entry = tokens[1];
    assert(tokens.skip(1)[0] == entry);
    chars::lemma_find_char(entry, '=');
    assert(model::read_entry(entry) is None) by {
        if chars::find_char(entry, '=') < entry.len() {
            assert(entry.take(0) =~= seq![]);
        }
    }
    if head.len() == 1 {
        assert(head[0] == line);
    } else {
        let rest = head.skip(1);
        assert(rest.last() == line);
        lemma_delim_line_is_no_dict(rest);
    }
}

// ---- rows ----

/// As many cells are written of a row as its header has columns that vary.
proof fn lemma_cells_count(
    cols: Seq<Seq<char>>,
    codings: Seq<Coding>,
    fields: Seq<Seq<char>>,
)
    requires
        cols.len() == codings.len() == fields.len(),
    ensures
        model::cells(codings, fields).len() == model::varying(columns_of(cols, codings)),
    decreases cols.len(),
{
    let columns = columns_of(cols, codings);
    if cols.len() > 0 {
        lemma_cells_count(cols.skip(1), codings.skip(1), fields.skip(1));
        assert(columns.skip(1) =~= columns_of(cols.skip(1), codings.skip(1)));
    }
}

/// The cells of a row stand for its fields.
proof fn lemma_decode_cells(
    cols: Seq<Seq<char>>,
    codings: Seq<Coding>,
    fields: Seq<Seq<char>>,
    dicts: Seq<(Seq<char>, DictModel)>,
)
    requires
        cols.len() == codings.len() == fields.len(),
        forall|i: int|
            0 <= i < cols.len() ==> sound_coding(#[trigger] codings[i]) && writes(
                codings[i],
                fields[i],
            ),
        forall|i: int|
            0 <= i < cols.len() ==> model::latest(dicts, #[trigger] cols[i]) == match codings[i] {
                Coding::Dict(values) => Some(entries_of(values)),
                _ => None,
            },
    ensures
        model::decoded(columns_of(cols, codings), dicts, model::cells(codings, fields))
            == fields,
    decreases cols.len(),
{
    let columns = columns_of(cols, codings);
    let raw = model::cells(codings, fields);
    if cols.len() == 0 {
        assert(fields =~= seq![]);
    } else {
        let c1 = cols.skip(1);
        let k1 = codings.skip(1);
        let f1 = fields.skip(1);
        assert forall|i: int| 0 <= i < c1.len() implies sound_coding(#[trigger] k1[i]) && writes(
            k1[i],
            f1[i],
        ) by {
            assert(k1[i] == codings[i + 1]);
        }
        assert forall|i: int| 0 <= i < c1.len() implies model::latest(dicts, #[trigger] c1[i])
            == match k1[i] {
            Coding::Dict(values) => Some(entries_of(values)),
            _ => None,
        } by {
            assert(c1[i] == cols[i + 1]);
        }
        lemma_decode_cells(c1, k1, f1, dicts);
        assert(columns.skip(1) =~= columns_of(c1, k1));
        assert(sound_coding(codings[0]) && writes(codings[0], fields[0]));
        assert(columns[0].0 == cols[0]);
        let rest = model::cells(k1, f1);
        match codings[0] {
            Coding::Constant(value) => {},
            Coding::Dict(values) => {
                lemma_decode_code(values, fields[0]);
                assert(raw.skip(1) =~= rest);
            },
            Coding::Plain => {
                assert(raw.skip(1) =~= rest);
            },
        }
        assert(seq![fields[0]] + f1 =~= fields);
    }
}

/// The cells of a sound row are sound too, and hold no line feed.
proof fn lemma_cells_are_sound(
    codings: Seq<Coding>,
    fields: Seq<Seq<char>>,
    tail: Seq<char>,
    delim: Delim,
)
    requires
        codings.len() == fields.len(),
        sound_row(fields, tail, delim),
        match delim {
            Delim::Whitespace => true,
            Delim::Char(c) => model::usable(c),
        },
        forall|i: int| 0 <= i < fields.len() ==> lines::is_line(#[trigger] fields[i]),
        forall|i: int|
            0 <= i < codings.len() ==> sound_coding(#[trigger] codings[i]) && writes(
                codings[i],
                fields[i],
            ),
    ensures
        sound_row(model::cells(codings, fields), tail, delim),
        forall|i: int|
            0 <= i < model::cells(codings, fields).len() ==> lines::is_line(
                #[trigger] model::cells(codings, fields)[i],
            ),
    decreases fields.len(),
{
    if fields.len() > 0 {
        let k1 = codings.skip(1);
        let f1 = fields.skip(1);
        assert forall|i: int| 0 <= i < k1.len() implies sound_coding(#[trigger] k1[i]) && writes(
            k1[i],
            f1[i],
        ) by {
            assert(k1[i] == codings[i + 1]);
        }
        assert forall|i: int| 0 <= i < f1.len() implies lines::is_line(#[trigger] f1[i]) && (
        match delim {
            Delim::Whitespace => is_word(f1[i]),
            Delim::Char(c) => chars::lacks(f1[i], c),
        }) by {
            assert(f1[i] == fields[i + 1]);
        }
        lemma_cells_are_sound(k1, f1, tail, delim);
        let all = model::cells(codings, fields);
        let rest = model::cells(k1, f1);
        assert(sound_coding(codings[0]) && writes(codings[0], fields[0]));
        assert(lines::is_line(fields[0]));
        match codings[0] {
            Coding::Constant(_) => {},
            Coding::Dict(values) => {
                lemma_codes();
                model::lemma_place(values, fields[0]);
                let cell = seq![model::code(model::place(values, fields[0]))];
                assert(cell[0] == model::code(model::place(values, fields[0])));
                assert(lines::is_line(cell) && is_word(cell));
                assert forall|i: int| 0 <= i < all.len() implies lines::is_line(#[trigger] all[i])
                    && (match delim {
                    Delim::Whitespace => is_word(all[i]),
                    Delim::Char(c) => chars::lacks(all[i], c),
                }) by {
                    if i > 0 {
                        assert(all[i] == rest[i - 1]);
                    }
                }
            },
            Coding::Plain => {
                assert forall|i: int| 0 <= i < all.len() implies lines::is_line(#[trigger] all[i])
                    && (match delim {
                    Delim::Whitespace => is_word(all[i]),
                    Delim::Char(c) => chars::lacks(all[i], c),
                }) by {
                    if i > 0 {
                        assert(all[i] == rest[i - 1]);
                    }
                }
            },
        }
    }
}

/// A line of cells and a tail ends with a carriage return only where the tail does.
pub proof fn lemma_line_end(cells: Seq<Seq<char>>, tail: Seq<char>, delim: Delim)
    requires
        sound_row(cells, tail, delim),
        model::separator(delim) != '\r',
        !lines::ends_with_return(tail),
    ensures
        !lines::ends_with_return(model::line_of(cells, tail, delim)),
{
    let sep = seq![model::separator(delim)];
    if tail.len() > 0 || delim is Char {
        assert(cells + model::tail_part(tail, delim) =~= cells.push(tail));
        lines::lemma_join_push(cells, sep, tail);
        let line = model::line_of(cells, tail, delim);
        if tail.len() > 0 {
            assert(line[line.len() - 1] == tail[tail.len() - 1]);
        }
    } else {
        assert(cells + model::tail_part(tail, delim) =~= cells);
        if cells.len() > 0 {
            let init = cells.drop_last();
            let w = cells[cells.len() - 1];
            assert(is_word(w));
            assert(cells =~= init.push(w));
            lines::lemma_join_push(init, sep, w);
            let line = model::line_of(cells, tail, delim);
            assert(line.last() == w[w.len() - 1]);
        }
    }
}

/// What holds of every row of a folded text: how it is written, and what it is read
/// back as.
proof fn lemma_wire_row(text: Seq<char>, schema: Layout, r: int)
    requires
        model::foldable(text, schema),
        well_named(schema),
        0 <= r < model::rows(text, schema).len(),
    ensures
        ({
            let rows = model::rows(text, schema);
            let codings = model::codings(rows, schema.cols.len());
            let columns = columns_of(schema.cols, codings);
            let dicts = dicts_of(schema.cols, codings);
            let wire = model::row_lines(rows, codings, schema.delim)[r];
            &&& lines::is_line(wire)
            &&& r < rows.len() - 1 ==> !lines::ends_with_return(wire)
            &&& model::wire_row(wire, model::varying(columns), schema.delim) is Some
            &&& model::unfolded_line(columns, dicts, schema.delim, wire) == model::line_of(
                rows[r].0,
                rows[r].1,
                schema.delim,
            )
        }),
{
    let n = schema.cols.len();
    let rows = model::rows(text, schema);
    let codings = model::codings(rows, n);
    let columns = columns_of(schema.cols, codings);
    let dicts = dicts_of(schema.cols, codings);
    let body = model::body(text, schema);
    let row = rows[r];
    let cells = model::cells(codings, row.0);
    let wire = model::row_lines(rows, codings, schema.delim)[r];
    assert(wire == model::line_of(cells, row.1, schema.delim));
    // The row itself.
    lines::lemma_lines_are_lines(text);
    assert(lines::is_line(body[r]));
    assert(model::fits(body[r], n, schema.delim));
    model::lemma_row_fields(body[r], n, schema.delim, false);
    lemma_row_is_sound(body[r], n, schema.delim);
    assert(row == model::row_of(body[r], n, schema.delim)->0);
    assert forall|i: int| 0 <= i < n implies sound_coding(#[trigger] codings[i]) && writes(
        codings[i],
        row.0[i],
    ) by {
        lemma_coding_is_sound(rows, i);
    }
    assert forall|i: int| 0 <= i < row.0.len() implies lines::is_line(#[trigger] row.0[i]) by {}
    lemma_cells_are_sound(codings, row.0, row.1, schema.delim);
    lemma_line_of_is_line(cells, row.1, schema.delim);
    // The row as it is written.
    if r < rows.len() - 1 {
        assert(!lines::ends_with_return(rows[r].1));
        lemma_line_end(cells, row.1, schema.delim);
    }
    // The row as it is read.
    lemma_cells_count(schema.cols, codings, row.0);
    lemma_row_of_line(cells, row.1, schema.delim);
    assert forall|i: int| 0 <= i < n implies model::latest(dicts, #[trigger] schema.cols[i])
        == match codings[i] {
        Coding::Dict(values) => Some(entries_of(values)),
        _ => None,
    } by {
        lemma_dict_found(schema.cols, codings, i);
    }
    lemma_decode_cells(schema.cols, codings, row.0, dicts);
}

/// The first header line is the one that has none before it.
proof fn lemma_header_index_is(all: Seq<Seq<char>>, k: nat)
    requires
        k < all.len(),
        model::is_header_line(all[k as int]),
        forall|j: int| 0 <= j < k ==> !model::is_header_line(#[trigger] all[j]),
    ensures
        model::header_index(all) == k,
    decreases k,
{
    if k > 0 {
        let rest = all.skip(1);
        assert(!model::is_header_line(all[0]));
        assert(rest[k - 1] == all[k as int]);
        assert forall|j: int| 0 <= j < k - 1 implies !model::is_header_line(
            #[trigger] rest[j],
        ) by {
            assert(rest[j] == all[j + 1]);
        }
        lemma_header_index_is(rest, (k - 1) as nat);
    }
}

/// The last line before the dictionary lines is found again.
proof fn lemma_read_preamble(front: Seq<Seq<char>>, dicts: Seq<Seq<char>>)
    requires
        forall|i: int| 0 <= i < front.len() ==> !model::is_dict_line(#[trigger] front[i]),
        forall|i: int| 0 <= i < dicts.len() ==> model::is_dict_line(#[trigger] dicts[i]),
    ensures
        model::read_preamble(front + dicts) == if front.len() > 0 {
            seq![front.last()]
        } else {
            seq![]
        },
    decreases dicts.len(),
{
    let head = front + dicts;
    if dicts.len() == 0 {
        assert(head =~= front);
        if front.len() > 0 {
            assert(!model::is_dict_line(front[front.len() - 1]));
        }
    } else {
        let init = dicts.drop_last();
        assert(head.drop_last() =~= front + init);
        assert(head.last() == dicts[dicts.len() - 1]);
        assert forall|i: int| 0 <= i < init.len() implies model::is_dict_line(
            #[trigger] init[i],
        ) by {
            assert(init[i] == dicts[i]);
        }
        lemma_read_preamble(front, init);
    }
}

/// Lines that are no dictionary lines are passed over where dictionaries are read.
proof fn lemma_read_dicts_behind(front: Seq<Seq<char>>, dicts: Seq<Seq<char>>)
    requires
        forall|i: int| 0 <= i < front.len() ==> !model::is_dict_line(#[trigger] front[i]),
    ensures
        model::read_dicts(front + dicts) == model::read_dicts(dicts),
    decreases front.len(),
{
    let head = front + dicts;
    if front.len() == 0 {
        assert(head =~= dicts);
    } else {
        let rest = front.skip(1);
        assert(!model::is_dict_line(front[0]));
        assert(head.skip(1) =~= rest + dicts);
        assert forall|i: int| 0 <= i < rest.len() implies !model::is_dict_line(
            #[trigger] rest[i],
        ) by {
            assert(rest[i] == front[i + 1]);
        }
        lemma_read_dicts_behind(rest, dicts);
    }
}

/// `line` can stand before the folded form: it is one line, and none of the format's.
pub open spec fn is_note(line: Seq<char>) -> bool {
    &&& lines::is_line(line)
    &&& !lines::ends_with_return(line)
    &&& !model::is_header_line(line)
    &&& !model::is_dict_line(line)
}

/// Unfolding undoes folding with notes before the folded form. The last line before
/// the dictionaries is kept: the line that was held aside, or the last note.
pub proof fn lemma_unfold_with_notes(text: Seq<char>, schema: Layout, notes: Seq<Seq<char>>)
    requires
        well_named(schema),
        model::foldable(text, schema),
        plain_preamble(text, schema),
        forall|i: int| 0 <= i < notes.len() ==> is_note(#[trigger] notes[i]),
    ensures
        model::unfolded(model::wire_text(notes + model::folded_lines(text, schema))) == Some(
            lines::join_lines(
                if model::preamble(text, schema).len() == 0 && notes.len() > 0 {
                    seq![notes.last()] + restored_lines(text, schema)
                } else {
                    restored_lines(text, schema)
                },
            ),
        ),
{
    let delim = schema.delim;
    let n = schema.cols.len();
    let rows = model::rows(text, schema);
    let codings = model::codings(rows, n);
    let columns = columns_of(schema.cols, codings);
    let dicts = dicts_of(schema.cols, codings);
    let pre = model::preamble(text, schema);
    let front = notes + pre;
    let dl = model::dict_lines(schema.cols, codings);
    let header = model::header_line(schema, codings);
    let rl = model::row_lines(rows, codings, delim);
    let sep = model::delim_lines(delim);
    let wire = front + dl + sep + seq![header] + rl;
    let m = (front.len() + dl.len()) as int;
    let h = m + sep.len();
    assert(wire =~= notes + model::folded_lines(text, schema));
    assert forall|i: int| 0 <= i < n implies sound_coding(#[trigger] codings[i]) by {
        lemma_coding_is_sound(rows, i);
    }
    lemma_read_dict_lines(schema.cols, codings);
    lemma_read_header_line(schema, codings);
    if delim is Char {
        lemma_read_delim_line(delim->Char_0);
    }
    lines::lemma_lines_are_lines(text);
    assert forall|i: int| 0 <= i < front.len() implies is_note(#[trigger] front[i])
        && !model::is_dict_line(front[i]) by {
        if i < notes.len() {
            assert(front[i] == notes[i]);
        } else {
            assert(front[i] == pre[i - notes.len()]);
            assert(pre[i - notes.len()] == lines::lines(text)[i - notes.len()]);
        }
    }
    // The lines of the folded text are those that were written.
    assert forall|i: int| 0 <= i < wire.len() implies lines::is_line(#[trigger] wire[i]) && (i
        < wire.len() - 1 ==> !lines::ends_with_return(wire[i])) by {
        if i < front.len() {
            assert(wire[i] == front[i]);
        } else if i < m {
            assert(wire[i] == dl[i - front.len()]);
        } else if i < h {
            assert(wire[i] == sep[i - m]);
        } else if i == h {
            assert(wire[i] == header);
        } else {
            lemma_wire_row(text, schema, i - h - 1);
            assert(wire[i] == rl[i - h - 1]);
        }
    }
    assert(wire.last() == wire[wire.len() - 1]);
    lines::lemma_lines_of_text(wire, wire.last().len() == 0);
    // The header, and what stands before it.
    assert(wire[h] == header);
    assert forall|j: int| 0 <= j < h implies !model::is_header_line(#[trigger] wire[j]) by {
        if j < front.len() {
            assert(wire[j] == front[j]);
        } else if j < m {
            assert(wire[j] == dl[j - front.len()]);
        } else {
            assert(wire[j] == sep[j - m]);
        }
    }
    lemma_header_index_is(wire, h as nat);
    let above = wire.take(h);
    assert(model::read_delim(above) == delim) by {
        if h > 0 {
            assert(above.last() == wire[h - 1]);
            assert(model::read_delim(above) == model::read_delim(seq![wire[h - 1]]));
            if sep.len() > 0 {
                assert(wire[h - 1] == sep[0]);
            } else if dl.len() > 0 {
                assert(wire[h - 1] == dl[dl.len() - 1]);
            } else {
                assert(wire[h - 1] == front[h - 1]);
            }
        }
    }
    let head = wire.take(m);
    assert(head =~= front + dl);
    lemma_read_preamble(front, dl);
    lemma_read_dicts_behind(front, dl);
    // The rows.
    let lower = wire.skip(h + 1);
    assert(lower =~= rl);
    assert forall|i: int| 0 <= i < lower.len() implies model::wire_row(
        #[trigger] lower[i],
        model::varying(columns),
        delim,
    ) is Some by {
        lemma_wire_row(text, schema, i);
    }
    let restored = lower.map_values(
        |line: Seq<char>| model::unfolded_line(columns, dicts, delim, line),
    );
    let expect = rows.map_values(|r: RowModel| model::line_of(r.0, r.1, delim));
    assert forall|i: int| 0 <= i < lower.len() implies restored[i] == expect[i] by {
        lemma_wire_row(text, schema, i);
    }
    assert(restored =~= expect);
    if pre.len() > 0 {
        assert(front.last() == pre[0]);
        assert(seq![front.last()] =~= pre);
    } else if notes.len() > 0 {
        assert(front =~= notes);
        assert(seq![notes.last()] + expect =~= seq![notes.last()] + restored_lines(text, schema));
    } else {
        assert(Seq::<Seq<char>>::empty() + expect =~= restored_lines(text, schema));
    }
}

/// Unfolding undoes folding, up to the padding between columns: of a folded text it
/// restores the line that was held aside and every row, with each field value and the
/// tail exactly as they were.
pub proof fn lemma_unfold_restores_rows(text: Seq<char>, schema: Layout, out: Seq<char>)
    requires
        well_named(schema),
        model::folded(text, schema) == Some(out),
        plain_preamble(text, schema),
    ensures
        model::unfolded(out) == Some(lines::join_lines(restored_lines(text, schema))),
{
    let none = Seq::<Seq<char>>::empty();
    lemma_unfold_with_notes(text, schema, none);
    assert(none + model::folded_lines(text, schema) =~= model::folded_lines(text, schema));
}

/// Where a character separates the columns, a line is restored as it was.
pub proof fn lemma_delimited_line_is_restored(line: Seq<char>, n: nat, c: char)
    requires
        model::row_of(line, n, Delim::Char(c)) is Some,
    ensures
        ({
            let row = model::row_of(line, n, Delim::Char(c))->0;
            model::line_of(row.0, row.1, Delim::Char(c)) == line
        }),
    decreases n,
{
    let delim = Delim::Char(c);
    let row = model::row_of(line, n, delim)->0;
    if n == 0 {
        assert(row.0 + model::tail_part(row.1, delim) =~= seq![line]);
    } else {
        chars::lemma_find_char(line, c);
        let k = chars::find_char(line, c) as int;
        let rest = line.skip(k + 1);
        lemma_delimited_line_is_restored(rest, (n - 1) as nat, c);
        let inner = model::row_of(rest, (n - 1) as nat, delim)->0;
        lemma_line_cons(row.0, row.1, delim);
        assert(row.0.skip(1) =~= inner.0);
        assert(line =~= line.take(k) + seq![c] + rest);
    }
}

/// A folded git log, or any text whose columns a character separates, is restored
/// line by line.
pub proof fn lemma_unfold_restores_delimited_lines(
    text: Seq<char>,
    schema: Layout,
    out: Seq<char>,
)
    requires
        well_named(schema),
        schema.delim is Char,
        model::folded(text, schema) == Some(out),
        plain_preamble(text, schema),
    ensures
        model::unfolded(out) == Some(lines::join_lines(lines::lines(text))),
{
    lemma_unfold_restores_rows(text, schema, out);
    let n = schema.cols.len();
    let all = lines::lines(text);
    let body = model::body(text, schema);
    let rows = model::rows(text, schema);
    let restored = rows.map_values(
        |r: RowModel| model::line_of(r.0, r.1, schema.delim),
    );
    assert forall|i: int| 0 <= i < body.len() implies restored[i] == body[i] by {
        assert(model::fits(body[i], n, schema.delim));
        lemma_delimited_line_is_restored(body[i], n, schema.delim->Char_0);
    }
    assert(restored =~= body);
    assert(restored_lines(text, schema) =~= all);
}

/// Every row of a restored text has the fields and the tail that it had: reading the
/// restored line gives the row that splitting the line that was folded gave.
pub proof fn lemma_restored_rows_split_alike(text: Seq<char>, schema: Layout, r: int)
    requires
        model::foldable(text, schema),
        0 <= r < model::rows(text, schema).len(),
    ensures
        ({
            let line = model::body(text, schema)[r];
            let row = model::rows(text, schema)[r];
            model::wire_row(
                model::line_of(row.0, row.1, schema.delim),
                schema.cols.len(),
                schema.delim,
            ) == model::row_of(line, schema.cols.len(), schema.delim)
        }),
{
    let n = schema.cols.len();
    let line = model::body(text, schema)[r];
    lines::lemma_lines_are_lines(text);
    assert(lines::is_line(line));
    assert(model::fits(line, n, schema.delim));
    model::lemma_row_fields(line, n, schema.delim, false);
    lemma_row_is_sound(line, n, schema.delim);
    let row = model::rows(text, schema)[r];
    assert(row == model::row_of(line, n, schema.delim)->0);
    lemma_row_of_line(row.0, row.1, schema.delim);
}

} // verus!
