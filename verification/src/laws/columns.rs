//! The columnar fold and its inverse.
use vstd::prelude::*;
use crate::chars;
use crate::laws::characters;
use crate::lines;
use crate::transforms::columnar;
use crate::transforms::columnar::lossless;
use crate::transforms::columnar::model;
use crate::transforms::columnar::model::{Coding, Delim, Layout, RowModel, Schema};

verus! {

// ---- rows ----

/// Nothing of a text is left out: the line that is held aside and the rows are all its
/// lines. Every line but a first one that is held aside is a row, in its place.
pub proof fn lemma_rows_cover_the_text(text: Seq<char>, schema: Layout)
    ensures
        ({
            let all = lines::lines(text);
            let held = model::preamble(text, schema);
            let rows = model::rows(text, schema);
            &&& held.len() + rows.len() == all.len()
            &&& held.len() == 1 <==> all.len() > 0 && (schema.skip_header || (schema.skip_total
                && "total "@.is_prefix_of(all[0])))
            &&& held.len() == 1 ==> held[0] == all[0]
            &&& held.len() <= 1
            &&& forall|i: int|
                0 <= i < rows.len() ==> #[trigger] rows[i] == model::row_of(
                    all[i + held.len()],
                    schema.cols.len(),
                    schema.delim,
                )->0
        }),
{
}

/// The fields of a line are its first words, and its tail is the end of the line from the
/// next word on, with all the whitespace that it holds. A line has a tail where it goes on
/// behind the last field, be it with whitespace only.
pub proof fn lemma_fields_are_the_first_words(line: Seq<char>, n: nat)
    ensures
        ({
            let words = lines::words(line);
            let row = model::row_of(line, n, Delim::Whitespace);
            &&& row is Some <==> n == 0 || words.len() > n || (words.len() == n
                && chars::whitespace(line.last()))
            &&& row is Some ==> is_row(line, n, row->0)
        }),
        ({
            let words = lines::words(line);
            let row = model::wire_row(line, n, Delim::Whitespace);
            &&& row is Some <==> words.len() >= n
            &&& row is Some ==> is_row(line, n, row->0)
        }),
{
    lemma_cut(line, n, false);
    lemma_cut(line, n, true);
}

/// The first `n` words of the line, and its end from the next word on.
pub open spec fn is_row(line: Seq<char>, n: nat, row: RowModel) -> bool {
    let words = lines::words(line);
    &&& row.0 == words.take(n as int)
    &&& lines::words(row.1) == words.skip(n as int)
    &&& row.1.len() <= line.len()
    &&& row.1 == line.skip(line.len() - row.1.len())
    &&& row.1.len() > 0 ==> !chars::whitespace(row.1[0])
}

proof fn lemma_words_trimmed(line: Seq<char>)
    ensures
        lines::words(chars::trim_start(line)) == lines::words(line),
{
    let t = chars::trim_start(line);
    chars::lemma_trim_start(line);
    chars::lemma_trim_start_is(t, 0);
    assert(t.skip(0) =~= t);
}

proof fn lemma_cut(line: Seq<char>, n: nat, ends: bool)
    ensures
        ({
            let words = lines::words(line);
            let row = model::cut(line, n, Delim::Whitespace, ends);
            &&& row is Some <==> n == 0 || words.len() > n || (words.len() == n && (ends
                || chars::whitespace(line.last())))
            &&& row is Some ==> is_row(line, n, row->0)
        }),
    decreases n,
{
    let words = lines::words(line);
    let row = model::cut(line, n, Delim::Whitespace, ends);
    let t = chars::trim_start(line);
    chars::lemma_trim_start(line);
    if n == 0 {
        lemma_words_trimmed(line);
        assert(words.take(0) =~= seq![]);
        assert(words.skip(0) =~= words);
    } else {
        let k = chars::find_white(t) as int;
        chars::lemma_find_white(t);
        if t.len() == 0 {
            assert(words.len() == 0);
        } else if k == t.len() {
            assert(t.skip(k) =~= seq![]);
            assert(lines::words(t.skip(k)).len() == 0);
            assert(t.take(k) =~= t);
            assert(words =~= seq![t]);
            assert(!chars::whitespace(line.last())) by {
                assert(line.last() == t[t.len() - 1]);
            }
            if n == 1 {
                assert(words.take(1) =~= seq![t]);
                assert(words.skip(1) =~= seq![]);
                assert(lines::words(Seq::<char>::empty()) =~= seq![]);
                assert(line.skip(line.len() as int) =~= seq![]);
            }
        } else {
            let after = t.skip(k);
            let m = (n - 1) as nat;
            lemma_cut(after, m, ends);
            let more = lines::words(after);
            let first = t.take(k);
            assert(words == seq![first] + more);
            assert(after.last() == line.last());
            if m == 0 {
                assert(more.len() == 0 ==> chars::whitespace(line.last())) by {
                    if more.len() == 0 {
                        let u = chars::trim_start(after);
                        chars::lemma_trim_start(after);
                        assert(u.len() == 0);
                        assert(chars::whitespace(after[after.len() - 1]));
                    }
                }
            }
            if row is Some {
                let inner = model::cut(after, m, Delim::Whitespace, ends)->0;
                assert(words.take(n as int) =~= seq![first] + more.take(m as int));
                assert(words.skip(n as int) =~= more.skip(m as int));
                assert(inner.1 =~= line.skip(line.len() - inner.1.len()));
            }
        }
    }
}

/// Where a character separates the columns, the fields are what stands before its first
/// `n` places, and the tail is all that follows, with any more of them.
pub proof fn lemma_fields_stand_between_separators(
    field: Seq<char>,
    rest: Seq<char>,
    n: nat,
    c: char,
)
    requires
        forall|j: int| 0 <= j < field.len() ==> #[trigger] field[j] != c,
    ensures
        model::row_of(rest, 0, Delim::Char(c)) == Some((Seq::<Seq<char>>::empty(), rest)),
        n > 0 ==> model::row_of(field, n, Delim::Char(c)) is None,
        model::row_of(field + seq![c] + rest, n + 1, Delim::Char(c)) == match model::row_of(
            rest,
            n,
            Delim::Char(c),
        ) {
            Some((fields, tail)) => Some((seq![field] + fields, tail)),
            None => None,
        },
        model::wire_row(rest, n, Delim::Char(c)) == model::row_of(rest, n, Delim::Char(c)),
{
    characters::lemma_first_place(field, c, rest);
    let s = field + seq![c] + rest;
    assert(s.take(field.len() as int) =~= field);
    assert(s.skip(field.len() as int + 1) =~= rest);
}

/// What can separate columns: anything but whitespace, letters and digits.
pub proof fn lemma_usable_separators(c: char)
    ensures
        model::usable(c) <==> !(chars::whitespace(c) || 'A' <= c <= 'Z' || 'a' <= c <= 'z' || '0'
            <= c <= '9'),
{
}

/// A line of fields and a tail has those words, with one space between each two.
proof fn lemma_words_of_line(cells: Seq<Seq<char>>, tail: Seq<char>)
    requires
        lossless::sound_row(cells, tail, Delim::Whitespace),
    ensures
        lines::words(model::line_of(cells, tail, Delim::Whitespace)) == cells + lines::words(tail),
    decreases cells.len(),
{
    let delim = Delim::Whitespace;
    let line = model::line_of(cells, tail, delim);
    if cells.len() == 0 {
        assert(cells + lines::words(tail) =~= lines::words(tail));
        if tail.len() == 0 {
            assert(cells + model::tail_part(tail, delim) =~= seq![]);
            assert(line =~= tail);
        } else {
            assert(cells + model::tail_part(tail, delim) =~= seq![tail]);
        }
    } else {
        let rest = cells.skip(1);
        let w = cells[0];
        assert(lossless::is_word(w));
        assert forall|i: int| 0 <= i < rest.len() implies lossless::is_word(#[trigger] rest[i]) by {
            assert(rest[i] == cells[i + 1]);
        }
        let none = Seq::<char>::empty();
        if cells.len() == 1 && tail.len() == 0 {
            assert(cells + model::tail_part(tail, delim) =~= seq![w]);
            characters::lemma_words(none, w, none);
            assert(none + w + none =~= w);
            characters::lemma_words(none, w, none);
            assert(lines::words(none) =~= seq![]);
            assert(lines::words(tail) =~= seq![]);
            assert(seq![w] + lines::words(none) =~= cells + lines::words(tail));
        } else {
            lossless::lemma_line_cons(cells, tail, delim);
            let inner = model::line_of(rest, tail, delim);
            lemma_words_of_line(rest, tail);
            let after = seq![' '] + inner;
            characters::lemma_words(none, w, after);
            assert(none + w + after =~= line);
            lines::lemma_words_space(inner);
            assert(seq![w] + (rest + lines::words(tail)) =~= cells + lines::words(tail));
        }
    }
}

/// A schema is seen as it is: its names, its separator, and what it holds aside. So is a
/// line that was split.
pub proof fn lemma_schemas_are_seen(schema: Schema, row: (Vec<String>, String))
    ensures
        schema@.cols.len() == schema.cols@.len(),
        forall|i: int|
            0 <= i < schema.cols@.len() ==> #[trigger] schema@.cols[i] == schema.cols@[i]@,
        schema@.tail == schema.tail@,
        schema@.delim == schema.delim,
        schema@.skip_total == schema.skip_total,
        schema@.skip_header == schema.skip_header,
        columnar::row_view(row).1 == row.1@,
        columnar::row_view(row).0.len() == row.0@.len(),
        forall|i: int|
            0 <= i < row.0@.len() ==> #[trigger] columnar::row_view(row).0[i] == row.0@[i]@,
{
}

/// The names of a layout can be read back where each is a word without an equals sign, no
/// two columns share one, and the tail has a name.
pub proof fn lemma_good_names(schema: Layout)
    requires
        forall|i: int| 0 <= i < schema.cols.len() ==> (#[trigger] schema.cols[i]).len() > 0,
        forall|i: int, j: int|
            0 <= i < schema.cols.len() && 0 <= j < schema.cols[i].len() ==> !chars::whitespace(
                #[trigger] schema.cols[i][j],
            ) && schema.cols[i][j] != '=',
        forall|i: int, j: int|
            0 <= i < j < schema.cols.len() ==> #[trigger] schema.cols[i]
                != #[trigger] schema.cols[j],
        schema.tail.len() > 0,
        forall|j: int|
            0 <= j < schema.tail.len() ==> !chars::whitespace(#[trigger] schema.tail[j]),
    ensures
        lossless::well_named(schema),
{
    assert forall|i: int| 0 <= i < schema.cols.len() implies (#[trigger] schema.cols[i]).len() > 0
        && model::is_token(schema.cols[i]) by {
        assert forall|j: int| 0 <= j < schema.cols[i].len() implies !chars::whitespace(
            #[trigger] schema.cols[i][j],
        ) && schema.cols[i][j] != '=' by {}
    }
    assert forall|i: int, j: int|
        0 <= i < schema.cols.len() && 0 <= j < schema.cols.len() && i != j implies schema.cols[i]
        != schema.cols[j] by {
        if i < j {
            assert(schema.cols[i] != schema.cols[j]);
        } else {
            assert(schema.cols[j] != schema.cols[i]);
        }
    }
}

// ---- what comes back ----

/// A text without a marker: none of its lines is a line of the folded form.
pub open spec fn unmarked(text: Seq<char>) -> bool {
    forall|i: int|
        0 <= i < lines::lines(text).len() ==> !"@crush/1."@.is_prefix_of(
            #[trigger] lines::lines(text)[i],
        )
}

/// Every line comes back. Unfolding a folded text gives as many lines as the text has, each
/// in its place: a line that was held aside, and where a character separates the columns
/// any line, as it was; any other with the same words in the same order, with one space
/// between each two of its fields, and with its tail as it was.
pub proof fn lemma_every_line_comes_back(text: Seq<char>, schema: Layout, out: Seq<char>)
    requires
        lossless::well_named(schema),
        unmarked(text),
        model::folded(text, schema) == Some(out),
    ensures
        model::unfolded(out) is Some,
        ({
            let given = lines::lines(text);
            let back = lines::lines(model::unfolded(out)->0);
            let held = schema.skip_header || (schema.skip_total && "total "@.is_prefix_of(
                given[0],
            ));
            &&& back.len() == given.len()
            &&& given.len() > 0 && held ==> back[0] == given[0]
            &&& forall|i: int|
                0 <= i < given.len() ==> match schema.delim {
                    Delim::Char(_) => #[trigger] back[i] == given[i],
                    Delim::Whitespace => (held && i == 0) || comes_back(
                        given[i],
                        #[trigger] back[i],
                        schema.cols.len(),
                    ),
                }
        }),
{
    let n = schema.cols.len();
    let given = lines::lines(text);
    let held = model::preamble(text, schema);
    let rows = model::rows(text, schema);
    let restored = lossless::restored_lines(text, schema);
    lemma_rows_cover_the_text(text, schema);
    lines::lemma_lines_are_lines(text);
    lemma_unmarked_is_plain(text, schema);
    lossless::lemma_unfold_restores_rows(text, schema, out);
    assert forall|i: int| 0 <= i < restored.len() implies lines::is_line(#[trigger] restored[i])
        && (i < restored.len() - 1 ==> !lines::ends_with_return(restored[i])) && (i
        == restored.len() - 1 ==> restored[i].len() > 0) && (held.len() <= i ==> match schema.delim {
        Delim::Char(_) => restored[i] == given[i],
        Delim::Whitespace => comes_back(given[i], restored[i], n),
    }) by {
        if i < held.len() {
            assert(restored[i] == held[i]);
            assert(lines::is_line(given[0]));
        } else {
            let r = i - held.len();
            let line = given[i];
            let row = rows[r];
            assert(model::body(text, schema)[r] == line);
            assert(model::fits(line, n, schema.delim));
            assert(lines::is_line(line));
            assert(row == model::row_of(line, n, schema.delim)->0);
            lossless::lemma_row_is_sound(line, n, schema.delim);
            model::lemma_row_fields(line, n, schema.delim, false);
            lossless::lemma_line_of_is_line(row.0, row.1, schema.delim);
            if r < rows.len() - 1 {
                lossless::lemma_line_end(row.0, row.1, schema.delim);
            }
            assert(restored[i] == model::line_of(row.0, row.1, schema.delim));
            match schema.delim {
                Delim::Char(c) => {
                    lossless::lemma_delimited_line_is_restored(line, n, c);
                },
                Delim::Whitespace => {
                    lemma_fields_are_the_first_words(line, n);
                    lemma_words_of_line(row.0, row.1);
                    assert(lines::words(line).take(n as int) + lines::words(line).skip(n as int)
                        =~= lines::words(line));
                    lemma_line_is_joined(row.0, row.1);
                    assert(is_row(line, n, row));
                },
            }
        }
    }
    lines::lemma_lines_join(restored);
}

/// The same words, the first `n` of them with one space between each two, and the same
/// tail: the end of the line from the next word on.
pub open spec fn comes_back(given: Seq<char>, back: Seq<char>, n: nat) -> bool {
    let words = lines::words(given);
    &&& lines::words(back) == words
    &&& words.len() >= n
    &&& exists|tail: Seq<char>|
        {
            &&& tail.len() <= given.len() && tail == #[trigger] given.skip(
                given.len() - tail.len(),
            )
            &&& lines::words(tail) == words.skip(n as int)
            &&& tail.len() > 0 ==> !chars::whitespace(tail[0])
            &&& back == lines::join(words.take(n as int), seq![' ']) + (if tail.len() > 0 {
                seq![' '] + tail
            } else {
                seq![]
            })
        }
}

proof fn lemma_line_is_joined(fields: Seq<Seq<char>>, tail: Seq<char>)
    requires
        fields.len() > 0,
    ensures
        model::line_of(fields, tail, Delim::Whitespace) == lines::join(fields, seq![' ']) + (
        if tail.len() > 0 {
            seq![' '] + tail
        } else {
            seq![]
        }),
{
    let delim = Delim::Whitespace;
    if tail.len() > 0 {
        assert(fields + model::tail_part(tail, delim) =~= fields.push(tail));
        lines::lemma_join_push(fields, seq![' '], tail);
        assert(model::line_of(fields, tail, delim) =~= lines::join(fields, seq![' ']) + (seq![' ']
            + tail));
    } else {
        assert(fields + model::tail_part(tail, delim) =~= fields);
        assert(lines::join(fields, seq![' ']) + Seq::<char>::empty() =~= lines::join(
            fields,
            seq![' '],
        ));
    }
}

proof fn lemma_unmarked_is_plain(text: Seq<char>, schema: Layout)
    requires
        unmarked(text),
    ensures
        lossless::plain_preamble(text, schema),
{
    reveal_strlit("@crush/1.");
    reveal_strlit("@crush/1.cols");
    reveal_strlit("@crush/1.dict");
    let held = model::preamble(text, schema);
    assert forall|i: int| 0 <= i < held.len() implies {
        let line = #[trigger] held[i];
        !model::is_header_line(line) && !model::is_dict_line(line)
    } by {
        let line = held[i];
        assert(line == lines::lines(text)[i]);
        if model::is_header_line(line) {
            assert("@crush/1."@ =~= line.subrange(0, 9)) by {
                assert forall|j: int| 0 <= j < 9 implies "@crush/1."@[j] == line[j] by {
                    assert(crate::markers::COLS@[j] == line.subrange(0, 13)[j]);
                }
            }
        }
        if model::is_dict_line(line) {
            assert("@crush/1."@ =~= line.subrange(0, 9)) by {
                assert forall|j: int| 0 <= j < 9 implies "@crush/1."@[j] == line[j] by {
                    assert(crate::markers::DICT@[j] == line.subrange(0, 13)[j]);
                }
            }
        }
    }
}

// ---- how columns are written ----

/// The codes are the capital letters, the small letters and the digits, in this order.
pub proof fn lemma_code_alphabet(k: nat)
    requires
        k < 62,
    ensures
        model::code(k)
            == "ABCDEFGHIJKLMNOPQRSTUVWXYZabcdefghijklmnopqrstuvwxyz0123456789"@[k as int],
{
    reveal_strlit("ABCDEFGHIJKLMNOPQRSTUVWXYZabcdefghijklmnopqrstuvwxyz0123456789");
}

/// The distinct values are collected as they are first seen, and their bytes are added up.
pub proof fn lemma_values_are_collected(values: Seq<Seq<char>>, x: Seq<char>, extra: nat)
    ensures
        model::distinct(Seq::<Seq<char>>::empty()) == Seq::<Seq<char>>::empty(),
        model::distinct(values.push(x)) == if values.contains(x) {
            model::distinct(values)
        } else {
            model::distinct(values).push(x)
        },
        model::total_bytes(Seq::<Seq<char>>::empty(), extra) == 0,
        model::total_bytes(values.push(x), extra) == model::total_bytes(values, extra)
            + chars::byte_len(x) + extra,
{
    let all = values.push(x);
    assert(all.drop_last() =~= values);
    assert(all.last() == x);
    model::lemma_distinct(values);
    if values.contains(x) {
        let r = choose|r: int| 0 <= r < values.len() && values[r] == x;
        assert(model::distinct(values).contains(values[r]));
    } else if model::distinct(values).contains(x) {
        let d = model::distinct(values);
        let k = choose|k: int| 0 <= k < d.len() && d[k] == x;
        assert(values.contains(d[k]));
    }
}

/// Some value holds whitespace or an equals sign, so that it cannot be told apart in a
/// header.
pub open spec fn some_unsafe(values: Seq<Seq<char>>) -> bool {
    exists|r: int, j: int|
        0 <= r < values.len() && 0 <= j < values[r].len() && (chars::whitespace(
            #[trigger] values[r][j],
        ) || values[r][j] == '=')
}

/// A column of one value is declared once. One of at most 62 values is coded where a code
/// for each row and three bytes and the value for each code are fewer bytes than the
/// values. Any other stays as it is, and so does one with a value that holds whitespace or
/// an equals sign.
pub proof fn lemma_columns_are_coded(values: Seq<Seq<char>>)
    requires
        values.len() > 0,
    ensures
        ({
            let d = model::distinct(values);
            let same = forall|r: int| 0 <= r < values.len() ==> #[trigger] values[r] == values[0];
            let pays = d.len() <= 62 && values.len() + model::total_bytes(d, 3)
                < model::total_bytes(values, 0);
            model::coding(values) == if some_unsafe(values) {
                Coding::Plain
            } else if same {
                Coding::Constant(values[0])
            } else if pays {
                Coding::Dict(d)
            } else {
                Coding::Plain
            }
        }),
{
    let d = model::distinct(values);
    model::lemma_distinct(values);
    if some_unsafe(values) {
        let (r, j) = choose|r: int, j: int|
            0 <= r < values.len() && 0 <= j < values[r].len() && (chars::whitespace(
                #[trigger] values[r][j],
            ) || values[r][j] == '=');
        assert(!model::is_token(values[r]));
    } else {
        assert forall|r: int| 0 <= r < values.len() implies model::is_token(#[trigger] values[r]) by {
            assert forall|j: int| 0 <= j < values[r].len() implies !chars::whitespace(
                #[trigger] values[r][j],
            ) && values[r][j] != '=' by {}
        }
        assert(d.contains(values[0]));
        if d.len() == 1 {
            assert forall|r: int| 0 <= r < values.len() implies #[trigger] values[r] == values[0] by {
                assert(d.contains(values[r]));
            }
        } else if forall|r: int| 0 <= r < values.len() ==> #[trigger] values[r] == values[0] {
            assert(values.contains(d[0]) && values.contains(d[1]));
            assert(d[0] != d[1]);
        }
    }
}

proof fn lemma_spaced_is_joined(first: Seq<char>, tokens: Seq<Seq<char>>)
    ensures
        first + model::spaced(tokens) == lines::join(seq![first] + tokens, seq![' ']),
    decreases tokens.len(),
{
    let all = seq![first] + tokens;
    if tokens.len() == 0 {
        assert(all =~= seq![first]);
        assert(first + model::spaced(tokens) =~= first);
    } else {
        lemma_spaced_is_joined(tokens[0], tokens.skip(1));
        assert(all.skip(1) =~= tokens);
        assert(seq![tokens[0]] + tokens.skip(1) =~= tokens);
        assert(first + model::spaced(tokens) =~= first + seq![' '] + (tokens[0] + model::spaced(
            tokens.skip(1),
        )));
    }
}

/// A dictionary line is the marker, the name of the column, and for each value its code, an
/// equals sign and the value, with one space between each two.
pub proof fn lemma_dictionary_line(name: Seq<char>, values: Seq<Seq<char>>)
    requires
        values.len() <= 62,
    ensures
        model::dict_line(name, values) == lines::join(
            seq!["@crush/1.dict"@, name] + Seq::new(
                values.len(),
                |k: int|
                    seq![
                        "ABCDEFGHIJKLMNOPQRSTUVWXYZabcdefghijklmnopqrstuvwxyz0123456789"@[k],
                        '=',
                    ] + values[k],
            ),
            seq![' '],
        ),
        forall|c: char|
            #[trigger] model::delim_lines(Delim::Char(c)) == seq!["@crush/1.dict delim "@ + seq![c]],
        model::delim_lines(Delim::Whitespace) == Seq::<Seq<char>>::empty(),
{
    let entries = Seq::new(
        values.len(),
        |k: int|
            seq!["ABCDEFGHIJKLMNOPQRSTUVWXYZabcdefghijklmnopqrstuvwxyz0123456789"@[k], '=']
                + values[k],
    );
    assert forall|k: int| 0 <= k < values.len() implies model::dict_entries(values)[k]
        == entries[k] by {
        lemma_code_alphabet(k as nat);
        assert(model::dict_entries(values)[k] =~= entries[k]);
    }
    assert(model::dict_entries(values) =~= entries);
    lemma_spaced_is_joined("@crush/1.dict"@, seq![name] + entries);
    assert(seq!["@crush/1.dict"@] + (seq![name] + entries) =~= seq!["@crush/1.dict"@, name]
        + entries);
    reveal_strlit("@crush/1.dict");
    reveal_strlit("@crush/1.dict delim ");
    reveal_strlit("delim");
    assert forall|c: char| #[trigger] model::delim_lines(Delim::Char(c)) == seq![
        "@crush/1.dict delim "@ + seq![c],
    ] by {
        let none = Seq::<Seq<char>>::empty();
        model::lemma_spaced_push(none, "delim"@);
        model::lemma_spaced_push(none.push("delim"@), seq![c]);
        assert(seq!["delim"@, seq![c]] =~= none.push("delim"@).push(seq![c]));
        assert(model::delim_lines(Delim::Char(c))[0] =~= "@crush/1.dict delim "@ + seq![c]);
        assert(model::delim_lines(Delim::Char(c)) =~= seq!["@crush/1.dict delim "@ + seq![c]]);
    }
}

/// The header line is the marker, the names of the columns, each with an equals sign and
/// its value where it has one value only, and the name of the tail.
pub proof fn lemma_header_line(schema: Layout, codings: Seq<Coding>)
    ensures
        model::header_line(schema, codings) == lines::join(
            seq!["@crush/1.cols"@] + Seq::new(
                schema.cols.len(),
                |i: int|
                    match codings[i] {
                        Coding::Constant(value) => schema.cols[i] + seq!['='] + value,
                        _ => schema.cols[i],
                    },
            ).push(schema.tail),
            seq![' '],
        ),
{
    let tokens = Seq::new(
        schema.cols.len(),
        |i: int|
            match codings[i] {
                Coding::Constant(value) => schema.cols[i] + seq!['='] + value,
                _ => schema.cols[i],
            },
    ).push(schema.tail);
    assert(model::header_tokens(schema, codings) =~= tokens);
    lemma_spaced_is_joined("@crush/1.cols"@, tokens);
}

/// Of a row nothing is written for a column of one value, a code for a value of a
/// dictionary, and any other value as it is, in the order of the columns.
pub proof fn lemma_cells_are_written(
    coding: Coding,
    codings: Seq<Coding>,
    field: Seq<char>,
    fields: Seq<Seq<char>>,
    k: int,
)
    requires
        codings.len() == fields.len(),
        coding matches Coding::Dict(values) ==> values.no_duplicates() && 0 <= k < values.len()
            && k < 62 && values[k] == field,
    ensures
        model::cells(Seq::<Coding>::empty(), Seq::<Seq<char>>::empty()) == Seq::<
            Seq<char>,
        >::empty(),
        model::cells(seq![coding] + codings, seq![field] + fields) == (match coding {
            Coding::Constant(_) => seq![],
            Coding::Dict(_) => seq![
                seq!["ABCDEFGHIJKLMNOPQRSTUVWXYZabcdefghijklmnopqrstuvwxyz0123456789"@[k]],
            ],
            Coding::Plain => seq![field],
        }) + model::cells(codings, fields),
{
    assert((seq![coding] + codings).skip(1) =~= codings);
    assert((seq![field] + fields).skip(1) =~= fields);
    match coding {
        Coding::Dict(values) => {
            lemma_code_alphabet(k as nat);
            assert forall|j: int| 0 <= j < k implies values[j] != field by {}
            model::lemma_place_is(values, field, k as nat);
        },
        Coding::Constant(_) => {
            assert(Seq::<Seq<char>>::empty() + model::cells(codings, fields) =~= model::cells(
                codings,
                fields,
            ));
        },
        _ => {},
    }
}

/// The line of a row is its cells and its tail, with the separator between each two. An
/// empty tail is not written where the separator is a space.
pub proof fn lemma_row_line(cells: Seq<Seq<char>>, tail: Seq<char>, c: char)
    ensures
        model::line_of(cells, tail, Delim::Char(c)) == lines::join(cells.push(tail), seq![c]),
        tail.len() > 0 ==> model::line_of(cells, tail, Delim::Whitespace) == lines::join(
            cells.push(tail),
            seq![' '],
        ),
        model::line_of(cells, Seq::<char>::empty(), Delim::Whitespace) == lines::join(
            cells,
            seq![' '],
        ),
{
    assert(cells + seq![tail] =~= cells.push(tail));
    assert(cells + Seq::<Seq<char>>::empty() =~= cells);
}

/// The folded form: the line that was held aside, the dictionaries in the order of their
/// columns, the separator where it is no whitespace, the header, and the rows.
pub proof fn lemma_folded_form(text: Seq<char>, schema: Layout)
    ensures
        ({
            let rows = model::rows(text, schema);
            let codings = Seq::new(
                schema.cols.len(),
                |i: int|
                    model::coding(Seq::new(rows.len(), |r: int| rows[r].0[i])),
            );
            let all = model::folded_lines(text, schema);
            let dicts = model::dict_lines(schema.cols, codings);
            let sep = model::delim_lines(schema.delim);
            let held = model::preamble(text, schema);
            let top = (held.len() + dicts.len() + sep.len()) as int;
            &&& all.len() == top + 1 + rows.len()
            &&& all.take(top) == held + dicts + sep
            &&& all[top] == model::header_line(schema, codings)
            &&& forall|r: int|
                0 <= r < rows.len() ==> #[trigger] all[top + 1 + r] == model::line_of(
                    model::cells(codings, rows[r].0),
                    rows[r].1,
                    schema.delim,
                )
        }),
{
    let rows = model::rows(text, schema);
    let codings = Seq::new(
        schema.cols.len(),
        |i: int| model::coding(Seq::new(rows.len(), |r: int| rows[r].0[i])),
    );
    assert forall|i: int| 0 <= i < codings.len() implies codings[i] == model::codings(
        rows,
        schema.cols.len(),
    )[i] by {
        assert(Seq::new(rows.len(), |r: int| rows[r].0[i]) =~= model::column(rows, i));
    }
    assert(codings =~= model::codings(rows, schema.cols.len()));
    let all = model::folded_lines(text, schema);
    let dicts = model::dict_lines(schema.cols, codings);
    let sep = model::delim_lines(schema.delim);
    let held = model::preamble(text, schema);
    let top = (held.len() + dicts.len() + sep.len()) as int;
    assert(all.take(top) =~= held + dicts + sep);
}

/// A column has a dictionary line exactly where its values are coded.
pub proof fn lemma_dictionaries_are_written(
    name: Seq<char>,
    names: Seq<Seq<char>>,
    coding: Coding,
    codings: Seq<Coding>,
)
    requires
        names.len() == codings.len(),
    ensures
        model::dict_lines(Seq::<Seq<char>>::empty(), Seq::<Coding>::empty()) == Seq::<
            Seq<char>,
        >::empty(),
        model::dict_lines(seq![name] + names, seq![coding] + codings) == (match coding {
            Coding::Dict(values) => seq![model::dict_line(name, values)],
            _ => seq![],
        }) + model::dict_lines(names, codings),
{
    assert((seq![coding] + codings).skip(1) =~= codings);
    assert((seq![name] + names).skip(1) =~= names);
    assert(Seq::<Seq<char>>::empty() + model::dict_lines(names, codings) =~= model::dict_lines(
        names,
        codings,
    ));
}

/// When a text folds: it has at least four rows, every row has its columns and is not
/// empty, no carriage return would be lost, and the folded form, with line feeds between
/// its lines, has fewer bytes than the text.
pub proof fn lemma_shape_decides(text: Seq<char>, schema: Layout)
    ensures
        ({
            let given = lines::lines(text);
            let held = model::preamble(text, schema).len() as int;
            let n = schema.cols.len();
            let shaped = n > 0 && (schema.delim matches Delim::Char(c) ==> model::usable(c))
                && given.len() - held >= 4 && (forall|i: int|
                held <= i < given.len() ==> (#[trigger] given[i]).len() > 0 && model::row_of(
                    given[i],
                    n,
                    schema.delim,
                ) is Some) && (forall|i: int|
                0 <= i < held ==> !((#[trigger] given[i]).len() > 0 && given[i].last() == '\r'))
                && (forall|i: int|
                held <= i < given.len() - 1 ==> !((#[trigger] model::row_of(
                    given[i],
                    n,
                    schema.delim,
                )->0).1.len() > 0 && (model::row_of(given[i], n, schema.delim)->0).1.last()
                    == '\r'));
            let wire = model::folded_lines(text, schema);
            let out = lines::join_lines(wire) + (if wire.last().len() == 0 {
                seq!['\n']
            } else {
                seq![]
            });
            model::folded(text, schema) == if shaped && chars::byte_len(out) < chars::byte_len(
                text,
            ) {
                Some(out)
            } else {
                None
            }
        }),
{
    let given = lines::lines(text);
    let held = model::preamble(text, schema);
    let body = model::body(text, schema);
    let rows = model::rows(text, schema);
    let n = schema.cols.len();
    let h = held.len() as int;
    let wire = model::folded_lines(text, schema);
    lemma_rows_cover_the_text(text, schema);
    lemma_folded_form(text, schema);
    lines::lemma_end_lines(wire);
    assert(lines::join_lines(wire) + Seq::<char>::empty() =~= lines::join_lines(wire));
    assert(lines::join_lines(wire) + seq!['\n'] =~= lines::join_lines(wire).push('\n'));
    assert forall|i: int| 0 <= i < body.len() implies #[trigger] body[i] == given[i + h] by {}
    assert forall|i: int| 0 <= i < h implies #[trigger] held[i] == given[i] by {}
    if model::foldable(text, schema) {
        assert forall|i: int| h <= i < given.len() implies (#[trigger] given[i]).len() > 0
            && model::row_of(given[i], n, schema.delim) is Some by {
            assert(model::fits(body[i - h], n, schema.delim));
        }
        assert forall|i: int| 0 <= i < h implies !((#[trigger] given[i]).len() > 0
            && given[i].last() == '\r') by {
            assert(!lines::ends_with_return(held[i]));
        }
        assert forall|i: int| h <= i < given.len() - 1 implies !((#[trigger] model::row_of(
            given[i],
            n,
            schema.delim,
        )->0).1.len() > 0 && (model::row_of(given[i], n, schema.delim)->0).1.last() == '\r') by {
            assert(!lines::ends_with_return(rows[i - h].1));
        }
    } else if n > 0 && (schema.delim matches Delim::Char(c) ==> model::usable(c)) && given.len() - h
        >= 4 && (forall|i: int|
        h <= i < given.len() ==> (#[trigger] given[i]).len() > 0 && model::row_of(
            given[i],
            n,
            schema.delim,
        ) is Some) && (forall|i: int|
        0 <= i < h ==> !((#[trigger] given[i]).len() > 0 && given[i].last() == '\r')) && (forall|
        i: int,
    |
        h <= i < given.len() - 1 ==> !((#[trigger] model::row_of(
            given[i],
            n,
            schema.delim,
        )->0).1.len() > 0 && (model::row_of(given[i], n, schema.delim)->0).1.last() == '\r')) {
        assert forall|i: int| 0 <= i < body.len() implies model::fits(
            #[trigger] body[i],
            n,
            schema.delim,
        ) by {
            assert(given[i + h].len() > 0);
        }
        assert forall|i: int| 0 <= i < held.len() implies !lines::ends_with_return(
            #[trigger] held[i],
        ) by {}
        assert forall|i: int| 0 <= i < rows.len() - 1 implies !lines::ends_with_return(
            (#[trigger] rows[i]).1,
        ) by {
            assert(rows[i] == model::row_of(given[i + h], n, schema.delim)->0);
        }
        assert(model::foldable(text, schema));
    }
}

} // verus!
