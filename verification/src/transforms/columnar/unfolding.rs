//! Reading the folded form.
use vstd::prelude::*;
use vstd::slice::slice_subrange;
use crate::chars;
use crate::lines;
use crate::markers;
use crate::transforms::columnar::model;
use crate::transforms::columnar::model::{Delim, DictModel};
use crate::transforms::columnar::rows;
use crate::transforms::columnar::rows::Row;

verus! {

/// A dictionary as parts of its line.
pub struct Dict<'a> {
    pub name: &'a [char],
    pub entries: Vec<(char, &'a [char])>,
}

/// The views of dictionary entries.
pub open spec fn entry_views(entries: Seq<(char, &[char])>) -> DictModel {
    entries.map_values(|e: (char, &[char])| (e.0, e.1@))
}

impl<'a> View for Dict<'a> {
    type V = (Seq<char>, DictModel);

    open spec fn view(&self) -> (Seq<char>, DictModel) {
        (self.name@, entry_views(self.entries@))
    }
}

/// The views of dictionaries.
pub open spec fn dict_views(dicts: Seq<Dict<'_>>) -> Seq<(Seq<char>, DictModel)> {
    dicts.map_values(|d: Dict<'_>| d@)
}

/// A fixed column of a header as parts of its line.
pub struct Column<'a> {
    pub name: &'a [char],
    pub value: Option<&'a [char]>,
}

impl<'a> View for Column<'a> {
    type V = (Seq<char>, Option<Seq<char>>);

    open spec fn view(&self) -> (Seq<char>, Option<Seq<char>>) {
        (
            self.name@,
            match self.value {
                Some(v) => Some(v@),
                None => None,
            },
        )
    }
}

/// The views of columns.
pub open spec fn column_views(columns: Seq<Column<'_>>) -> Seq<(Seq<char>, Option<Seq<char>>)> {
    columns.map_values(|c: Column<'_>| c@)
}

/// Reads an entry of a dictionary line.
fn parse_entry<'a>(token: &'a [char]) -> (r: Option<(char, &'a [char])>)
    ensures
        match r {
            Some(e) => model::read_entry(token@) == Some((e.0, e.1@)),
            None => model::read_entry(token@) is None,
        },
{
    let k = chars::index_of(token, '=');
    proof {
        chars::lemma_find_char(token@, '=');
    }
    if k == token.len() || k == 0 {
        return None;
    }
    let value = slice_subrange(token, k + 1, token.len());
    proof {
        assert(value@ =~= token@.skip(k as int + 1));
    }
    Some((token[0], value))
}

/// Reads what stands behind the marker of a dictionary line.
fn parse_dict<'a>(rest: &'a [char]) -> (r: Option<Dict<'a>>)
    ensures
        match r {
            Some(d) => model::read_dict(rest@) == Some(d@),
            None => model::read_dict(rest@) is None,
        },
{
    let tokens = lines::split_words(rest);
    let ghost ts = chars::views(tokens@);
    proof {
        assert(ts.len() == tokens@.len());
    }
    if tokens.len() == 0 {
        return None;
    }
    let mut entries: Vec<(char, &'a [char])> = Vec::new();
    let mut k: usize = 1;
    let ghost whole = model::read_entries(ts.skip(1));
    proof {
        match whole {
            Some(all) => {
                assert(entry_views(entries@) + all =~= all);
            },
            None => {},
        }
    }
    while k < tokens.len()
        invariant
            1 <= k <= tokens@.len(),
            ts == chars::views(tokens@),
            whole == match model::read_entries(ts.skip(k as int)) {
                Some(more) => Some(entry_views(entries@) + more),
                None => None,
            },
            whole == model::read_entries(ts.skip(1)),
            model::read_dict(rest@) is None <==> whole is None,
        decreases tokens@.len() - k,
    {
        let ghost before = entries@;
        proof {
            assert(ts.skip(k as int)[0] == tokens@[k as int]@);
            assert(ts.skip(k as int).skip(1) =~= ts.skip(k as int + 1));
        }
        match parse_entry(tokens[k]) {
            None => {
                return None;
            },
            Some(entry) => {
                entries.push(entry);
                proof {
                    assert(entry_views(entries@) =~= entry_views(before).push((entry.0, entry.1@)));
                    match model::read_entries(ts.skip(k as int + 1)) {
                        Some(more) => {
                            assert(entry_views(before) + (seq![(entry.0, entry.1@)] + more)
                                =~= entry_views(entries@) + more);
                        },
                        None => {},
                    }
                }
            },
        }
        k = k + 1;
    }
    proof {
        assert(ts.skip(k as int) =~= seq![]);
        assert(entry_views(entries@) + Seq::<(char, Seq<char>)>::empty() =~= entry_views(entries@));
        assert(ts[0] == tokens@[0]@);
    }
    Some(Dict { name: tokens[0], entries })
}

/// The value of the last entry for `key`.
fn find_entry<'a>(entries: &Vec<(char, &'a [char])>, key: char) -> (r: Option<&'a [char]>)
    ensures
        match r {
            Some(v) => model::latest(entry_views(entries@), key) == Some(v@),
            None => model::latest(entry_views(entries@), key) is None,
        },
{
    let ghost all = entry_views(entries@);
    let mut k: usize = entries.len();
    proof {
        assert(all.take(k as int) =~= all);
    }
    while k > 0
        invariant
            k <= entries@.len(),
            all == entry_views(entries@),
            model::latest(all, key) == model::latest(all.take(k as int), key),
        decreases k,
    {
        k = k - 1;
        proof {
            assert(all.take(k as int + 1).drop_last() =~= all.take(k as int));
            assert(all.take(k as int + 1).last() == (entries@[k as int].0, entries@[k as int].1@));
        }
        if entries[k].0 == key {
            return Some(entries[k].1);
        }
    }
    None
}

/// The last dictionary of the named column.
fn find_dict<'b, 'a>(dicts: &'b Vec<Dict<'a>>, name: &[char]) -> (r: Option<&'b Dict<'a>>)
    ensures
        match r {
            Some(d) => model::latest(dict_views(dicts@), name@) == Some(d@.1),
            None => model::latest(dict_views(dicts@), name@) is None,
        },
{
    let ghost all = dict_views(dicts@);
    let mut k: usize = dicts.len();
    proof {
        assert(all.take(k as int) =~= all);
    }
    while k > 0
        invariant
            k <= dicts@.len(),
            all == dict_views(dicts@),
            model::latest(all, name@) == model::latest(all.take(k as int), name@),
        decreases k,
    {
        k = k - 1;
        proof {
            assert(all.take(k as int + 1).drop_last() =~= all.take(k as int));
            assert(all.take(k as int + 1).last() == dicts@[k as int]@);
        }
        if chars::same(dicts[k].name, name) {
            return Some(&dicts[k]);
        }
    }
    None
}

/// The value that a written cell of the named column stands for.
fn decode_cell<'a>(dicts: &Vec<Dict<'a>>, name: &[char], raw: &'a [char]) -> (r: &'a [char])
    ensures
        r@ == model::decode(dict_views(dicts@), name@, raw@),
{
    match find_dict(dicts, name) {
        Some(dict) => {
            if raw.len() > 0 {
                match find_entry(&dict.entries, raw[0]) {
                    Some(value) => value,
                    None => raw,
                }
            } else {
                raw
            }
        },
        None => raw,
    }
}

/// The index of the first header line; the number of lines where there is none.
fn find_header(all: &Vec<&[char]>) -> (r: usize)
    ensures
        r == model::header_index(chars::views(all@)),
        r <= all@.len(),
        r < all@.len() ==> model::is_header_line(all@[r as int]@),
{
    let marker = chars::to_chars(markers::COLS);
    let ghost vs = chars::views(all@);
    let mut h: usize = 0;
    proof {
        assert(vs.skip(0) =~= vs);
    }
    while h < all.len()
        invariant
            h <= all@.len(),
            marker@ == markers::COLS@,
            vs == chars::views(all@),
            model::header_index(vs) == h + model::header_index(vs.skip(h as int)),
        decreases all@.len() - h,
    {
        proof {
            assert(vs.skip(h as int)[0] == all@[h as int]@);
            assert(vs.skip(h as int).skip(1) =~= vs.skip(h as int + 1));
        }
        if chars::has_prefix(all[h], marker.as_slice()) {
            return h;
        }
        h = h + 1;
    }
    h
}

/// Reads the dictionaries of the first `h` lines.
fn parse_dicts<'a>(all: &Vec<&'a [char]>, h: usize) -> (r: Option<Vec<Dict<'a>>>)
    requires
        h <= all@.len(),
    ensures
        match r {
            Some(dicts) => model::read_dicts(chars::views(all@).take(h as int)) == Some(
                dict_views(dicts@),
            ),
            None => model::read_dicts(chars::views(all@).take(h as int)) is None,
        },
{
    let marker = chars::to_chars(markers::DICT);
    let m: usize = marker.len();
    let ghost head = chars::views(all@).take(h as int);
    let ghost whole = model::read_dicts(head);
    let mut dicts: Vec<Dict<'a>> = Vec::new();
    let mut k: usize = 0;
    proof {
        assert(head.skip(0) =~= head);
        match whole {
            Some(ds) => {
                assert(dict_views(dicts@) + ds =~= ds);
            },
            None => {},
        }
    }
    while k < h
        invariant
            k <= h <= all@.len(),
            marker@ == markers::DICT@,
            m == marker@.len(),
            head == chars::views(all@).take(h as int),
            whole == model::read_dicts(head),
            whole == match model::read_dicts(head.skip(k as int)) {
                Some(more) => Some(dict_views(dicts@) + more),
                None => None,
            },
        decreases h - k,
    {
        let line = all[k];
        let ghost before = dicts@;
        proof {
            assert(head.skip(k as int)[0] == line@);
            assert(head.skip(k as int).skip(1) =~= head.skip(k as int + 1));
        }
        if chars::has_prefix(line, marker.as_slice()) {
            let rest = slice_subrange(line, m, line.len());
            proof {
                assert(rest@ =~= line@.skip(m as int));
            }
            match parse_dict(rest) {
                None => {
                    return None;
                },
                Some(dict) => {
                    dicts.push(dict);
                    proof {
                        assert(dict_views(dicts@) =~= dict_views(before).push(dict@));
                        match model::read_dicts(head.skip(k as int + 1)) {
                            Some(more) => {
                                assert(dict_views(before) + (seq![dict@] + more) =~= dict_views(
                                    dicts@,
                                ) + more);
                            },
                            None => {},
                        }
                    }
                },
            }
        }
        k = k + 1;
    }
    proof {
        assert(head.skip(k as int) =~= seq![]);
        assert(dict_views(dicts@) + Seq::<(Seq<char>, DictModel)>::empty() =~= dict_views(dicts@));
    }
    Some(dicts)
}

/// The last of the first `h` lines that is no dictionary line.
fn find_preamble<'a>(all: &Vec<&'a [char]>, h: usize) -> (r: Option<&'a [char]>)
    requires
        h <= all@.len(),
    ensures
        model::read_preamble(chars::views(all@).take(h as int)) == match r {
            Some(line) => seq![line@],
            None => seq![],
        },
{
    let marker = chars::to_chars(markers::DICT);
    let ghost head = chars::views(all@).take(h as int);
    let mut k: usize = h;
    proof {
        assert(head.take(k as int) =~= head);
    }
    while k > 0
        invariant
            k <= h <= all@.len(),
            marker@ == markers::DICT@,
            head == chars::views(all@).take(h as int),
            model::read_preamble(head) == model::read_preamble(head.take(k as int)),
        decreases k,
    {
        k = k - 1;
        proof {
            assert(head.take(k as int + 1).drop_last() =~= head.take(k as int));
            assert(head.take(k as int + 1).last() == all@[k as int]@);
        }
        if !chars::has_prefix(all[k], marker.as_slice()) {
            return Some(all[k]);
        }
    }
    None
}

/// Reads a fixed column of a header.
fn parse_column<'a>(token: &'a [char]) -> (r: Column<'a>)
    ensures
        r@ == model::read_column(token@),
{
    let k = chars::index_of(token, '=');
    proof {
        chars::lemma_find_char(token@, '=');
    }
    if k < token.len() {
        let name = slice_subrange(token, 0, k);
        let value = slice_subrange(token, k + 1, token.len());
        proof {
            assert(name@ =~= token@.take(k as int));
            assert(value@ =~= token@.skip(k as int + 1));
        }
        Column { name, value: Some(value) }
    } else {
        Column { name: token, value: None }
    }
}

/// Reads the separator that the last of the first `h` lines declares.
fn parse_delim(all: &Vec<&[char]>, h: usize) -> (r: Delim)
    requires
        h <= all@.len(),
    ensures
        r == model::read_delim(chars::views(all@).take(h as int)),
        model::delim_lines(r).len() <= h,
{
    let ghost head = chars::views(all@).take(h as int);
    if h == 0 {
        return Delim::Whitespace;
    }
    let line = all[h - 1];
    let marker = chars::to_chars(markers::DICT);
    proof {
        assert(head.last() == line@);
    }
    if !chars::has_prefix(line, marker.as_slice()) {
        return Delim::Whitespace;
    }
    let rest = slice_subrange(line, marker.len(), line.len());
    let tokens = lines::split_words(rest);
    let name = chars::to_chars("delim");
    proof {
        assert(rest@ =~= line@.skip(markers::DICT@.len() as int));
        assert(chars::views(tokens@).len() == tokens@.len());
    }
    if tokens.len() == 2 && chars::same(tokens[0], name.as_slice()) && tokens[1].len() == 1
        && rows::is_usable(tokens[1][0]) {
        Delim::Char(tokens[1][0])
    } else {
        Delim::Whitespace
    }
}

/// Reads the fixed columns of a header's words, and counts those that are not constant.
fn parse_columns<'a>(tokens: &Vec<&'a [char]>) -> (r: (Vec<Column<'a>>, usize))
    requires
        tokens@.len() > 0,
    ensures
        column_views(r.0@) == model::read_columns(chars::views(tokens@)),
        r.1 == model::varying(column_views(r.0@)),
{
    let n: usize = tokens.len() - 1;
    let ghost expect = model::read_columns(chars::views(tokens@));
    let mut columns: Vec<Column<'a>> = Vec::new();
    let mut k: usize = 0;
    while k < n
        invariant
            k <= n,
            n == tokens@.len() - 1,
            expect == model::read_columns(chars::views(tokens@)),
            column_views(columns@) == expect.take(k as int),
        decreases n - k,
    {
        let ghost before = columns@;
        let column = parse_column(tokens[k]);
        columns.push(column);
        proof {
            assert(expect[k as int] == column@);
            assert(column_views(columns@) =~= column_views(before).push(column@));
            assert(column_views(columns@) =~= expect.take(k as int + 1));
        }
        k = k + 1;
    }
    proof {
        assert(expect.take(k as int) =~= expect);
    }
    let ghost all = column_views(columns@);
    let total: usize = columns.len();
    let mut count: usize = 0;
    let mut j: usize = total;
    while j > 0
        invariant
            j <= total == columns@.len(),
            all == column_views(columns@),
            count <= total - j,
            count == model::varying(all.skip(j as int)),
        decreases j,
    {
        j = j - 1;
        proof {
            assert(all.skip(j as int).skip(1) =~= all.skip(j as int + 1));
            assert(all.skip(j as int)[0] == columns@[j as int]@);
        }
        if columns[j].value.is_none() {
            count = count + 1;
        }
    }
    proof {
        assert(all.skip(0) =~= all);
    }
    (columns, count)
}

/// Appends the restored line of a row.
fn emit_unfolded<'a>(
    out: &mut Vec<char>,
    columns: &Vec<Column<'a>>,
    dicts: &Vec<Dict<'a>>,
    delim: Delim,
    row: &Row<'a>,
)
    requires
        row.fields@.len() == model::varying(column_views(columns@)),
    ensures
        final(out)@ == old(out)@ + model::line_of(
            model::decoded(column_views(columns@), dict_views(dicts@), row@.0),
            row@.1,
            delim,
        ),
{
    let sep: char = match delim {
        Delim::Whitespace => ' ',
        Delim::Char(c) => c,
    };
    let ghost start = out@;
    let ghost cols = column_views(columns@);
    let ghost ds = dict_views(dicts@);
    let ghost raw = chars::views(row.fields@);
    let ghost whole = model::decoded(cols, ds, raw);
    let ghost mut done: Seq<Seq<char>> = seq![];
    let given: usize = row.fields.len();
    let mut i: usize = 0;
    let mut vi: usize = 0;
    proof {
        assert(cols.skip(0) =~= cols);
        assert(raw.skip(0) =~= raw);
        assert(done + whole =~= whole);
        assert(out@ =~= start + lines::join(done, seq![sep]));
    }
    while i < columns.len()
        invariant
            i <= columns@.len(),
            vi + model::varying(cols.skip(i as int)) == given,
            given == row.fields@.len(),
            cols == column_views(columns@),
            ds == dict_views(dicts@),
            raw == chars::views(row.fields@),
            whole == model::decoded(cols, ds, raw),
            whole == done + model::decoded(cols.skip(i as int), ds, raw.skip(vi as int)),
            done.len() == i,
            out@ == start + lines::join(done, seq![sep]),
        decreases columns@.len() - i,
    {
        let ghost old_done = done;
        let ghost cs = cols.skip(i as int);
        let ghost rs = raw.skip(vi as int);
        proof {
            assert(cs.skip(1) =~= cols.skip(i as int + 1));
            assert(cs[0] == columns@[i as int]@);
        }
        let value: &[char] = match columns[i].value {
            Some(v) => v,
            None => {
                proof {
                    assert(rs[0] == row.fields@[vi as int]@);
                    assert(rs.skip(1) =~= raw.skip(vi as int + 1));
                }
                let v = decode_cell(dicts, columns[i].name, row.fields[vi]);
                vi = vi + 1;
                v
            },
        };
        if i > 0 {
            out.push(sep);
        }
        chars::append(out, value);
        proof {
            done = done.push(value@);
            model::lemma_tail_join(old_done, value@, sep);
            assert(out@ =~= start + lines::join(done, seq![sep]));
            let after = model::decoded(cs.skip(1), ds, raw.skip(vi as int));
            assert(old_done + (seq![value@] + after) =~= done + after);
        }
        i = i + 1;
    }
    proof {
        assert(cols.skip(i as int) =~= seq![]);
        assert(done + model::decoded(cols.skip(i as int), ds, raw.skip(vi as int)) =~= done);
    }
    let bare = match delim {
        Delim::Whitespace => row.tail.len() == 0,
        Delim::Char(_) => false,
    };
    if !bare {
        if columns.len() > 0 {
            out.push(sep);
        }
        chars::append(out, row.tail);
        proof {
            assert(done + model::tail_part(row.tail@, delim) =~= done.push(row.tail@));
            model::lemma_tail_join(done, row.tail@, sep);
            assert(out@ =~= start + lines::join(done.push(row.tail@), seq![sep]));
        }
    } else {
        proof {
            assert(done + model::tail_part(row.tail@, delim) =~= done);
        }
    }
}

/// Restores a folded text.
pub fn unfold_slice(text: &[char]) -> (r: Option<Vec<char>>)
    ensures
        match r {
            Some(out) => model::unfolded(text@) == Some(out@),
            None => model::unfolded(text@) is None,
        },
{
    let all = lines::split_lines(text);
    let ghost vs = chars::views(all@);
    let h = find_header(&all);
    proof {
        assert(vs.len() == all@.len());
    }
    if h == all.len() {
        return None;
    }
    let header = all[h];
    let marker = chars::to_chars(markers::COLS);
    let rest = slice_subrange(header, marker.len(), header.len());
    let delim = parse_delim(&all, h);
    let top: usize = match delim {
        Delim::Whitespace => h,
        Delim::Char(_) => h - 1,
    };
    let tokens = lines::split_words(rest);
    proof {
        assert(vs[h as int] == header@);
        assert(rest@ =~= vs[h as int].skip(markers::COLS@.len() as int));
        assert(chars::views(tokens@).len() == tokens@.len());
        assert(top == h - model::delim_lines(delim).len());
    }
    if tokens.len() == 0 {
        return None;
    }
    let dicts = match parse_dicts(&all, top) {
        None => {
            return None;
        },
        Some(dicts) => dicts,
    };
    let (columns, count) = parse_columns(&tokens);
    let ghost cols = column_views(columns@);
    let ghost ds = dict_views(dicts@);
    let ghost lower = vs.skip(h as int + 1);
    let ghost pre = model::read_preamble(vs.take(top as int));
    let ghost restored = lower.map_values(
        |line: Seq<char>| model::unfolded_line(cols, ds, delim, line),
    );
    let mut out: Vec<char> = Vec::new();
    match find_preamble(&all, top) {
        Some(line) => {
            chars::append(&mut out, line);
            out.push('\n');
            proof {
                lines::lemma_end_lines_push(seq![], line@);
                assert(Seq::<Seq<char>>::empty().push(line@) =~= pre);
                assert(out@ =~= lines::end_lines(pre));
            }
        },
        None => {
            proof {
                assert(out@ =~= lines::end_lines(pre));
            }
        },
    }
    let ghost result = model::unfolded(text@);
    let mut j: usize = h + 1;
    proof {
        assert(pre + restored.take(0) =~= pre);
    }
    while j < all.len()
        invariant
            h < j <= all@.len(),
            vs == chars::views(all@),
            lower == vs.skip(h as int + 1),
            cols == column_views(columns@),
            ds == dict_views(dicts@),
            count == model::varying(cols),
            restored == lower.map_values(|line: Seq<char>| model::unfolded_line(cols, ds, delim, line)),
            result == model::unfolded(text@),
            model::short(lower, model::varying(cols), delim) ==> result is None,
            forall|i: int|
                0 <= i < j - h - 1 ==> model::wire_row(#[trigger] lower[i], model::varying(cols), delim) is Some,
            out@ == lines::end_lines(pre + restored.take(j - h - 1)),
        decreases all@.len() - j,
    {
        let line = all[j];
        let ghost at = j - h - 1;
        proof {
            assert(lower[at] == line@);
        }
        match rows::take_row(line, count, delim, true) {
            None => {
                proof {
                    assert(model::wire_row(lower[at], model::varying(cols), delim) is None);
                }
                return None;
            },
            Some(row) => {
                proof {
                    model::lemma_row_fields(line@, count as nat, delim, true);
                }
                emit_unfolded(&mut out, &columns, &dicts, delim, &row);
                out.push('\n');
                proof {
                    let piece = model::unfolded_line(cols, ds, delim, line@);
                    assert(restored[at] == piece);
                    lines::lemma_end_lines_push(pre + restored.take(at), piece);
                    assert((pre + restored.take(at)).push(piece) =~= pre + restored.take(at + 1));
                    assert(out@ =~= lines::end_lines(pre + restored.take(at + 1)));
                }
            },
        }
        j = j + 1;
    }
    let ghost wire = pre + restored;
    proof {
        assert(restored.take(j - h - 1) =~= restored);
        lines::lemma_end_lines(wire);
        if wire.len() > 0 {
            assert(lines::join_lines(wire) =~= lines::end_lines(wire).drop_last());
        }
    }
    out.pop();
    proof {
        assert(out@ =~= lines::join_lines(wire));
    }
    Some(out)
}

} // verus!
