//! Reading folded blocks, whoever wrote them.
use vstd::prelude::*;
use crate::chars;
use crate::laws::characters;
use crate::lines;
use crate::transforms::columnar::model;
use crate::transforms::columnar::model::{Delim, DictModel};

verus! {

/// A text without a header line is no folded block.
pub proof fn lemma_block_needs_a_header(text: Seq<char>)
    requires
        forall|i: int|
            0 <= i < lines::lines(text).len() ==> !"@crush/1.cols"@.is_prefix_of(
                #[trigger] lines::lines(text)[i],
            ),
    ensures
        model::unfolded(text) is None,
{
    lemma_no_header(lines::lines(text));
}

proof fn lemma_no_header(all: Seq<Seq<char>>)
    requires
        forall|i: int| 0 <= i < all.len() ==> !"@crush/1.cols"@.is_prefix_of(#[trigger] all[i]),
    ensures
        model::header_index(all) == all.len(),
    decreases all.len(),
{
    if all.len() > 0 {
        let rest = all.skip(1);
        assert(!"@crush/1.cols"@.is_prefix_of(all[0]));
        assert forall|i: int| 0 <= i < rest.len() implies !"@crush/1.cols"@.is_prefix_of(
            #[trigger] rest[i],
        ) by {
            assert(rest[i] == all[i + 1]);
        }
        lemma_no_header(rest);
    }
}

/// How many cells a row of the columns has: one for each column without a value.
pub open spec fn open_columns(columns: Seq<(Seq<char>, Option<Seq<char>>)>) -> nat {
    columns.filter(|c: (Seq<char>, Option<Seq<char>>)| c.1 is None).len()
}

/// A block is read from its first header line on: the words of that line but the last are
/// the columns, and every line below it is a row, which comes back in its place. A header
/// without words, a dictionary line that is none, and a row short of cells make the text no
/// block. Before the rows stands the last line above the header that is no dictionary line.
pub proof fn lemma_block_is_read(text: Seq<char>, h: int)
    requires
        0 <= h < lines::lines(text).len(),
        "@crush/1.cols"@.is_prefix_of(lines::lines(text)[h]),
        forall|i: int|
            0 <= i < h ==> !"@crush/1.cols"@.is_prefix_of(#[trigger] lines::lines(text)[i]),
    ensures
        ({
            let all = lines::lines(text);
            let delim = model::read_delim(all.take(h));
            let head = all.take(
                if delim is Char {
                    h - 1
                } else {
                    h
                },
            );
            let words = lines::words(all[h].skip(13));
            let columns = model::read_columns(words);
            let rows = all.skip(h + 1);
            let dicts = model::read_dicts(head);
            let n = open_columns(columns);
            let back = rows.map_values(
                |line: Seq<char>|
                    {
                        let row = model::wire_row(line, n, delim)->0;
                        model::line_of(model::decoded(columns, dicts->0, row.0), row.1, delim)
                    },
            );
            model::unfolded(text) == if words.len() > 0 && dicts is Some && (forall|i: int|
                0 <= i < rows.len() ==> model::wire_row(#[trigger] rows[i], n, delim) is Some) {
                Some(lines::join_lines(model::read_preamble(head) + back))
            } else {
                None
            }
        }),
{
    let all = lines::lines(text);
    lemma_header_at(all, h as nat);
    reveal_strlit("@crush/1.cols");
    let delim = model::read_delim(all.take(h));
    let head = all.take(h - model::delim_lines(delim).len());
    let words = lines::words(all[h].skip(13));
    let columns = model::read_columns(words);
    let rows = all.skip(h + 1);
    let dicts = model::read_dicts(head);
    let n = open_columns(columns);
    lemma_open_columns(columns);
    let back = rows.map_values(
        |line: Seq<char>|
            {
                let row = model::wire_row(line, n, delim)->0;
                model::line_of(model::decoded(columns, dicts->0, row.0), row.1, delim)
            },
    );
    let there = rows.map_values(
        |line: Seq<char>| model::unfolded_line(columns, dicts->0, delim, line),
    );
    assert(back =~= there);
    if forall|i: int|
        0 <= i < rows.len() ==> model::wire_row(#[trigger] rows[i], n, delim) is Some {
        assert(!model::short(rows, n, delim));
    } else {
        let i = choose|i: int|
            0 <= i < rows.len() && !(model::wire_row(#[trigger] rows[i], n, delim) is Some);
        assert(model::wire_row(rows[i], n, delim) is None);
        assert(model::short(rows, n, delim));
    }
}

proof fn lemma_header_at(all: Seq<Seq<char>>, h: nat)
    requires
        h < all.len(),
        "@crush/1.cols"@.is_prefix_of(all[h as int]),
        forall|i: int| 0 <= i < h ==> !"@crush/1.cols"@.is_prefix_of(#[trigger] all[i]),
    ensures
        model::header_index(all) == h,
    decreases h,
{
    if h > 0 {
        let rest = all.skip(1);
        assert(!"@crush/1.cols"@.is_prefix_of(all[0]));
        assert forall|i: int| 0 <= i < h - 1 implies !"@crush/1.cols"@.is_prefix_of(
            #[trigger] rest[i],
        ) by {
            assert(rest[i] == all[i + 1]);
        }
        lemma_header_at(rest, (h - 1) as nat);
    }
}

proof fn lemma_open_columns(columns: Seq<(Seq<char>, Option<Seq<char>>)>)
    ensures
        model::varying(columns) == open_columns(columns),
    decreases columns.len(),
{
    let p = |c: (Seq<char>, Option<Seq<char>>)| c.1 is None;
    if columns.len() == 0 {
        assert(columns.filter(p).len() == 0) by {
            reveal(Seq::filter);
        }
    } else {
        let first = seq![columns[0]];
        let rest = columns.skip(1);
        lemma_open_columns(rest);
        assert(columns =~= first + rest);
        Seq::filter_distributes_over_add(first, rest, p);
        assert(first.filter(p).len() == if columns[0].1 is None {
            1nat
        } else {
            0
        }) by {
            reveal(Seq::filter);
            assert(first.drop_last() =~= seq![]);
            assert(first.last() == columns[0]);
            assert(first.drop_last().filter(p).len() == 0);
        }
    }
}

/// A column of a header is a name, with a value behind the first equals sign where it has
/// one. All words of a header but the last are columns.
pub proof fn lemma_columns_are_read(
    name: Seq<char>,
    value: Seq<char>,
    words: Seq<Seq<char>>,
    last: Seq<char>,
)
    requires
        forall|j: int| 0 <= j < name.len() ==> #[trigger] name[j] != '=',
    ensures
        model::read_column(name) == (name, None::<Seq<char>>),
        model::read_column(name + seq!['='] + value) == (name, Some(value)),
        model::read_columns(words.push(last)) == Seq::new(
            words.len(),
            |i: int| model::read_column(words[i]),
        ),
{
    characters::lemma_first_place(name, '=', value);
    let s = name + seq!['='] + value;
    assert(s.take(name.len() as int) =~= name);
    assert(s.skip(name.len() as int + 1) =~= value);
    assert(words.push(last).drop_last() =~= words);
    assert(model::read_columns(words.push(last)) =~= Seq::new(
        words.len(),
        |i: int| model::read_column(words[i]),
    ));
}

/// A row has the value of every column that has one, and for the others, in order, what
/// its cells stand for.
pub proof fn lemma_cells_are_read(
    name: Seq<char>,
    value: Seq<char>,
    columns: Seq<(Seq<char>, Option<Seq<char>>)>,
    dicts: Seq<(Seq<char>, DictModel)>,
    cell: Seq<char>,
    cells: Seq<Seq<char>>,
)
    ensures
        model::decoded(Seq::empty(), dicts, cells) == Seq::<Seq<char>>::empty(),
        model::decoded(seq![(name, Some(value))] + columns, dicts, cells) == seq![value]
            + model::decoded(columns, dicts, cells),
        model::decoded(
            seq![(name, None::<Seq<char>>)] + columns,
            dicts,
            seq![cell] + cells,
        ) == seq![model::decode(dicts, name, cell)] + model::decoded(columns, dicts, cells),
{
    assert((seq![(name, Some(value))] + columns).skip(1) =~= columns);
    assert((seq![(name, None::<Seq<char>>)] + columns).skip(1) =~= columns);
    assert((seq![cell] + cells).skip(1) =~= cells);
}

/// A cell stands for the value that the dictionary of its column has for its first
/// character, and for itself where there is no such dictionary or no such value. What is
/// declared later counts.
pub proof fn lemma_cells_are_decoded(
    dicts: Seq<(Seq<char>, DictModel)>,
    dict: DictModel,
    name: Seq<char>,
    code: char,
    value: Seq<char>,
    cell: Seq<char>,
)
    requires
        cell.len() > 0,
    ensures
        model::decode(dicts, name, Seq::<char>::empty()) == Seq::<char>::empty(),
        (forall|i: int| 0 <= i < dicts.len() ==> (#[trigger] dicts[i]).0 != name) ==> model::decode(
            dicts,
            name,
            cell,
        ) == cell,
        model::decode(dicts.push((name, dict.push((code, value)))), name, cell) == if cell[0]
            == code {
            value
        } else {
            model::decode(dicts.push((name, dict)), name, cell)
        },
        (forall|i: int| 0 <= i < dict.len() ==> (#[trigger] dict[i]).0 != cell[0])
            ==> model::decode(dicts.push((name, dict)), name, cell) == cell,
        forall|other: Seq<char>|
            other != name ==> #[trigger] model::decode(dicts.push((other, dict)), name, cell)
                == model::decode(dicts, name, cell),
{
    let a = dicts.push((name, dict.push((code, value))));
    let b = dicts.push((name, dict));
    assert(a.drop_last() =~= dicts && b.drop_last() =~= dicts);
    assert(dict.push((code, value)).drop_last() =~= dict);
    if forall|i: int| 0 <= i < dicts.len() ==> (#[trigger] dicts[i]).0 != name {
        lemma_none_latest(dicts, name);
    }
    if forall|i: int| 0 <= i < dict.len() ==> (#[trigger] dict[i]).0 != cell[0] {
        lemma_none_latest(dict, cell[0]);
    }
    assert forall|other: Seq<char>|
        other != name implies #[trigger] model::decode(dicts.push((other, dict)), name, cell)
        == model::decode(dicts, name, cell) by {
        assert(dicts.push((other, dict)).drop_last() =~= dicts);
    }
}

proof fn lemma_none_latest<K, V>(entries: Seq<(K, V)>, key: K)
    requires
        forall|i: int| 0 <= i < entries.len() ==> (#[trigger] entries[i]).0 != key,
    ensures
        model::latest(entries, key) is None,
    decreases entries.len(),
{
    if entries.len() > 0 {
        let init = entries.drop_last();
        assert(entries[entries.len() - 1].0 != key);
        assert forall|i: int| 0 <= i < init.len() implies (#[trigger] init[i]).0 != key by {
            assert(init[i] == entries[i]);
        }
        lemma_none_latest(init, key);
    }
}

/// The lines above a header: one that begins with the marker of a dictionary is one, or
/// makes the text no block, and of the others the last is kept.
pub proof fn lemma_lines_above_a_header(line: Seq<char>, above: Seq<Seq<char>>)
    ensures
        model::read_dicts(Seq::<Seq<char>>::empty()) == Some(Seq::<(Seq<char>, DictModel)>::empty()),
        model::read_preamble(Seq::<Seq<char>>::empty()) == Seq::<Seq<char>>::empty(),
        "@crush/1.dict"@.is_prefix_of(line) ==> model::read_preamble(above.push(line))
            == model::read_preamble(above),
        !"@crush/1.dict"@.is_prefix_of(line) ==> model::read_preamble(above.push(line)) == seq![
            line,
        ],
        !"@crush/1.dict"@.is_prefix_of(line) ==> model::read_dicts(seq![line] + above)
            == model::read_dicts(above),
        "@crush/1.dict"@.is_prefix_of(line) ==> model::read_dicts(seq![line] + above) == match (
            model::read_dict(line.skip(13)),
            model::read_dicts(above),
        ) {
            (Some(dict), Some(rest)) => Some(seq![dict] + rest),
            _ => None,
        },
{
    reveal_strlit("@crush/1.dict");
    assert(above.push(line).drop_last() =~= above);
    assert((seq![line] + above).skip(1) =~= above);
}

/// A dictionary line names its column, and then for each value its code, an equals sign and
/// the value.
pub proof fn lemma_dictionaries_are_read(
    name: Seq<char>,
    code: char,
    more: Seq<char>,
    value: Seq<char>,
    rest: Seq<Seq<char>>,
    entry: Seq<char>,
    text: Seq<char>,
)
    requires
        code != '=',
        forall|j: int| 0 <= j < more.len() ==> #[trigger] more[j] != '=',
    ensures
        model::read_entry(seq![code] + more + seq!['='] + value) == Some((code, value)),
        model::read_entry(more) is None,
        model::read_entry(seq!['='] + value) is None,
        model::read_entries(Seq::<Seq<char>>::empty()) == Some(Seq::<(char, Seq<char>)>::empty()),
        model::read_entries(seq![entry] + rest) == match (
            model::read_entry(entry),
            model::read_entries(rest),
        ) {
            (Some(e), Some(es)) => Some(seq![e] + es),
            _ => None,
        },
        lines::words(text).len() == 0 ==> model::read_dict(text) is None,
        lines::words(text) == seq![name] + rest ==> model::read_dict(text) == match model::read_entries(
            rest,
        ) {
            Some(es) => Some((name, es)),
            None => None,
        },
{
    let key = seq![code] + more;
    assert forall|j: int| 0 <= j < key.len() implies #[trigger] key[j] != '=' by {
        if j > 0 {
            assert(key[j] == more[j - 1]);
        }
    }
    characters::lemma_first_place(key, '=', value);
    let s = key + seq!['='] + value;
    assert(s.take(key.len() as int) =~= key);
    assert(s.skip(key.len() as int + 1) =~= value);
    assert(key[0] == code);
    characters::lemma_first_place(more, '=', value);
    let none = Seq::<char>::empty();
    characters::lemma_first_place(none, '=', value);
    assert(none + seq!['='] + value =~= seq!['='] + value);
    assert((seq!['='] + value).take(0) =~= none);
    assert((seq![entry] + rest).skip(1) =~= rest);
    assert((seq![name] + rest).skip(1) =~= rest);
}

/// The separator is declared in the line above the header, by the word `delim` and one
/// character that is no whitespace, no letter and no digit; without such a line it is
/// whitespace.
pub proof fn lemma_separator_is_read(above: Seq<Seq<char>>, line: Seq<char>, c: char)
    ensures
        model::read_delim(Seq::<Seq<char>>::empty()) is Whitespace,
        model::read_delim(above.push(line)) == Delim::Char(c) <==> "@crush/1.dict"@.is_prefix_of(
            line,
        ) && lines::words(line.skip(13)) == seq!["delim"@, seq![c]] && !(chars::whitespace(c) || 'A'
            <= c <= 'Z' || 'a' <= c <= 'z' || '0' <= c <= '9'),
{
    reveal_strlit("@crush/1.dict");
    let head = above.push(line);
    assert(head.last() == line);
    let tokens = lines::words(line.skip(13));
    if model::read_delim(head) == Delim::Char(c) {
        assert(tokens[1] =~= seq![c]);
        assert(tokens =~= seq!["delim"@, seq![c]]);
    }
}

} // verus!
