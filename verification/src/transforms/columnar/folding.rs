//! Writing the folded form.
use vstd::prelude::*;
use crate::chars;
use crate::lines;
use crate::markers;
use crate::transforms::columnar::model;
use crate::transforms::columnar::model::{Coding, Delim, RowModel, Schema, CODES};
use crate::transforms::columnar::rows;
use crate::transforms::columnar::rows::Row;

verus! {

/// How a column is written, with the values as parts of the text.
pub enum Enc<'a> {
    Constant(&'a [char]),
    Dict(Vec<&'a [char]>),
    Plain,
}

impl<'a> View for Enc<'a> {
    type V = Coding;

    open spec fn view(&self) -> Coding {
        match self {
            Enc::Constant(v) => Coding::Constant(v@),
            Enc::Dict(values) => Coding::Dict(chars::views(values@)),
            Enc::Plain => Coding::Plain,
        }
    }
}

/// The place of `value` among the values; their number where it is not among them.
fn find_value(values: &Vec<&[char]>, value: &[char]) -> (r: usize)
    ensures
        r == model::place(chars::views(values@), value@),
        r <= values@.len(),
{
    let ghost all = chars::views(values@);
    let mut k: usize = 0;
    while k < values.len() && !chars::same(values[k], value)
        invariant
            all == chars::views(values@),
            k <= values@.len(),
            forall|j: int| 0 <= j < k ==> all[j] != value@,
        decreases values@.len() - k,
    {
        k = k + 1;
    }
    proof {
        model::lemma_place_is(all, value@, k as nat);
    }
    k
}

/// Whether `value` can be written as one word behind an equals sign.
fn token_safe(value: &[char]) -> (r: bool)
    ensures
        r == model::is_token(value@),
{
    let mut j: usize = 0;
    while j < value.len()
        invariant
            j <= value@.len(),
            forall|i: int|
                0 <= i < j ==> !chars::whitespace(#[trigger] value@[i]) && value@[i] != '=',
        decreases value@.len() - j,
    {
        if chars::is_whitespace(value[j]) || value[j] == '=' {
            proof {
                assert(!(!chars::whitespace(value@[j as int]) && value@[j as int] != '='));
            }
            return false;
        }
        j = j + 1;
    }
    true
}

/// How the `i`-th column of the rows is written.
fn choose_enc<'a>(rows: &Vec<Row<'a>>, i: usize) -> (r: Enc<'a>)
    requires
        rows@.len() > 0,
        forall|k: int| 0 <= k < rows@.len() ==> i < (#[trigger] rows@[k]).fields@.len(),
        lines::total_len(model::column(rows::models(rows@), i as int)) <= usize::MAX,
    ensures
        r@ == model::coding(model::column(rows::models(rows@), i as int)),
{
    let ghost values = model::column(rows::models(rows@), i as int);
    let mut found: Vec<&'a [char]> = Vec::new();
    let mut plain: u128 = 0;
    let mut k: usize = 0;
    proof {
        assert(values.take(0) =~= seq![]);
        assert(chars::views(found@) =~= model::distinct(values.take(0)));
    }
    while k < rows.len()
        invariant
            k <= rows@.len(),
            forall|k: int| 0 <= k < rows@.len() ==> i < (#[trigger] rows@[k]).fields@.len(),
            values == model::column(rows::models(rows@), i as int),
            lines::total_len(values) <= usize::MAX,
            forall|j: int| 0 <= j < k ==> model::is_token(#[trigger] values[j]),
            chars::views(found@) == model::distinct(values.take(k as int)),
            found@.len() <= CODES,
            plain == model::total_bytes(values.take(k as int), 0),
        decreases rows@.len() - k,
    {
        let value = rows[k].fields[i];
        proof {
            assert(value@ == values[k as int]);
        }
        if !token_safe(value) {
            return Enc::Plain;
        }
        let ghost before = found@;
        let at = find_value(&found, value);
        proof {
            model::lemma_place(chars::views(found@), value@);
            assert(values.take(k as int + 1).drop_last() =~= values.take(k as int));
        }
        if at == found.len() {
            found.push(value);
            proof {
                assert(chars::views(found@) =~= chars::views(before).push(value@));
                model::lemma_distinct_grows(values, k as int + 1);
                model::lemma_distinct(values);
            }
            if found.len() > CODES {
                return Enc::Plain;
            }
        }
        proof {
            model::lemma_total_bytes(values.take(k as int), 0);
            model::lemma_total_bytes(values.take(k as int + 1), 0);
            model::lemma_total_len_take(values, k as int + 1);
        }
        plain = plain + chars::slice_bytes(value);
        k = k + 1;
    }
    proof {
        assert(values.take(k as int) =~= values);
        model::lemma_distinct(values);
        model::lemma_distinct_total(values);
    }
    if found.len() == 1 {
        return Enc::Constant(found[0]);
    }
    let mut dict: u128 = 0;
    let mut j: usize = 0;
    let ghost d = model::distinct(values);
    proof {
        assert(d.take(0) =~= seq![]);
    }
    while j < found.len()
        invariant
            j <= found@.len(),
            found@.len() <= CODES,
            d == chars::views(found@),
            lines::total_len(d) <= usize::MAX,
            dict == model::total_bytes(d.take(j as int), 3),
        decreases found@.len() - j,
    {
        proof {
            assert(d.take(j as int + 1).drop_last() =~= d.take(j as int));
            model::lemma_total_bytes(d.take(j as int + 1), 3);
            model::lemma_total_len_take(d, j as int + 1);
        }
        dict = dict + chars::slice_bytes(found[j]) + 3;
        j = j + 1;
    }
    proof {
        assert(d.take(j as int) =~= d);
        model::lemma_total_bytes(d, 3);
    }
    if rows.len() as u128 + dict >= plain {
        return Enc::Plain;
    }
    Enc::Dict(found)
}

/// A column has no more characters than the lines.
proof fn lemma_column_total(body: Seq<Seq<char>>, n: nat, delim: Delim, i: int)
    requires
        0 <= i < n,
        forall|k: int| 0 <= k < body.len() ==> model::row_of(#[trigger] body[k], n, delim) is Some,
    ensures
        lines::total_len(model::column(model::rows_of(body, n, delim), i)) <= lines::total_len(body),
    decreases body.len(),
{
    let col = model::column(model::rows_of(body, n, delim), i);
    if body.len() > 0 {
        let init = body.drop_last();
        assert forall|k: int| 0 <= k < init.len() implies model::row_of(#[trigger] init[k], n, delim) is Some by {
            assert(init[k] == body[k]);
        }
        lemma_column_total(init, n, delim, i);
        assert(col.drop_last() =~= model::column(model::rows_of(init, n, delim), i));
        let last = body[body.len() - 1];
        assert(model::row_of(last, n, delim) is Some);
        model::lemma_row_fields(last, n, delim, false);
        assert(col.last() == (model::row_of(last, n, delim)->0).0[i]);
    }
}

/// The views of the encodings.
pub open spec fn enc_views(encs: Seq<Enc<'_>>) -> Seq<Coding> {
    encs.map_values(|e: Enc<'_>| e@)
}

/// The `k`-th code.
fn code_char(k: usize) -> (r: char)
    requires
        k < CODES,
    ensures
        r == model::code(k as nat),
{
    if k < 26 {
        (65 + k as u8) as char
    } else if k < 52 {
        (97 + (k - 26) as u8) as char
    } else {
        (48 + (k - 52) as u8) as char
    }
}

/// Appends a dictionary line.
fn emit_dict(out: &mut Vec<char>, name: &str, values: &Vec<&[char]>)
    requires
        values@.len() <= CODES,
    ensures
        final(out)@ == old(out)@ + model::dict_line(name@, chars::views(values@)),
{
    let ghost start = out@;
    let ghost vs = chars::views(values@);
    let ghost tokens = seq![name@] + model::dict_entries(vs);
    chars::append_str(out, markers::DICT);
    out.push(' ');
    chars::append_str(out, name);
    let mut k: usize = 0;
    proof {
        assert(tokens.take(1) =~= Seq::<Seq<char>>::empty().push(name@));
        model::lemma_spaced_push(seq![], name@);
        assert(out@ =~= start + markers::DICT@ + model::spaced(tokens.take(1)));
    }
    while k < values.len()
        invariant
            k <= values@.len(),
            values@.len() <= CODES,
            vs == chars::views(values@),
            tokens == seq![name@] + model::dict_entries(vs),
            out@ == start + markers::DICT@ + model::spaced(tokens.take(k as int + 1)),
        decreases values@.len() - k,
    {
        let ghost before = out@;
        out.push(' ');
        out.push(code_char(k));
        out.push('=');
        chars::append(out, values[k]);
        proof {
            let entry = model::assignment(seq![model::code(k as nat)], vs[k as int]);
            assert(tokens.take(k as int + 2) =~= tokens.take(k as int + 1).push(entry));
            model::lemma_spaced_push(tokens.take(k as int + 1), entry);
            assert(out@ =~= before + (seq![' '] + entry));
            assert(out@ =~= start + markers::DICT@ + model::spaced(tokens.take(k as int + 2)));
        }
        k = k + 1;
    }
    proof {
        assert(tokens.take(k as int + 1) =~= tokens);
        assert(out@ =~= start + model::dict_line(name@, vs));
    }
}

/// Appends the line that declares the separator.
fn emit_delim(out: &mut Vec<char>, c: char)
    ensures
        final(out)@ == old(out)@ + model::delim_lines(Delim::Char(c))[0],
{
    chars::append_str(out, markers::DICT);
    out.push(' ');
    chars::append_str(out, "delim");
    out.push(' ');
    out.push(c);
    proof {
        let tokens = seq!["delim"@, seq![c]];
        let none = Seq::<Seq<char>>::empty();
        model::lemma_spaced_push(none, "delim"@);
        model::lemma_spaced_push(none.push("delim"@), seq![c]);
        assert(tokens =~= none.push("delim"@).push(seq![c]));
        assert(out@ =~= old(out)@ + model::delim_lines(Delim::Char(c))[0]);
    }
}

/// Appends the header line.
fn emit_header(out: &mut Vec<char>, schema: &Schema, encs: &Vec<Enc<'_>>)
    requires
        encs@.len() == schema.cols@.len(),
    ensures
        final(out)@ == old(out)@ + model::header_line(schema@, enc_views(encs@)),
{
    let ghost start = out@;
    let ghost codes = enc_views(encs@);
    let ghost tokens = model::header_tokens(schema@, codes);
    chars::append_str(out, markers::COLS);
    let ghost marked = start + markers::COLS@;
    let mut i: usize = 0;
    proof {
        assert(tokens.take(0) =~= seq![]);
        assert(out@ =~= marked + model::spaced(tokens.take(0)));
    }
    while i < encs.len()
        invariant
            i <= encs@.len(),
            encs@.len() == schema.cols@.len(),
            codes == enc_views(encs@),
            tokens == model::header_tokens(schema@, codes),
            out@ == marked + model::spaced(tokens.take(i as int)),
        decreases encs@.len() - i,
    {
        let ghost before = out@;
        out.push(' ');
        chars::append_str(out, schema.cols[i]);
        match &encs[i] {
            Enc::Constant(v) => {
                out.push('=');
                chars::append(out, v);
            },
            _ => {},
        }
        proof {
            let token = model::header_token(schema@.cols[i as int], codes[i as int]);
            assert(tokens[i as int] == token);
            assert(tokens.take(i as int + 1) =~= tokens.take(i as int).push(token));
            model::lemma_spaced_push(tokens.take(i as int), token);
            assert(out@ =~= before + (seq![' '] + token));
            assert(out@ =~= marked + model::spaced(tokens.take(i as int + 1)));
        }
        i = i + 1;
    }
    let ghost before = out@;
    out.push(' ');
    chars::append_str(out, schema.tail);
    proof {
        assert(tokens =~= tokens.take(i as int).push(schema.tail@));
        model::lemma_spaced_push(tokens.take(i as int), schema.tail@);
        assert(out@ =~= before + (seq![' '] + schema.tail@));
        assert(out@ =~= start + model::header_line(schema@, codes));
    }
}

/// Appends the line of a row.
fn emit_row(out: &mut Vec<char>, encs: &Vec<Enc<'_>>, row: &Row<'_>, delim: Delim)
    requires
        encs@.len() == row.fields@.len(),
        forall|i: int|
            #![trigger encs@[i]]
            0 <= i < encs@.len() ==> match encs@[i] {
                Enc::Dict(values) => values@.len() <= CODES && chars::views(values@).contains(
                    row.fields@[i]@,
                ),
                _ => true,
            },
    ensures
        final(out)@ == old(out)@ + model::line_of(model::cells(enc_views(encs@), row@.0), row@.1, delim),
{
    let sep: char = match delim {
        Delim::Whitespace => ' ',
        Delim::Char(c) => c,
    };
    let ghost start = out@;
    let ghost codes = enc_views(encs@);
    let ghost fields = chars::views(row.fields@);
    let ghost mut done: Seq<Seq<char>> = seq![];
    let mut first: bool = true;
    let mut i: usize = 0;
    proof {
        assert(codes.skip(0) =~= codes);
        assert(fields.skip(0) =~= fields);
        assert(done + model::cells(codes.skip(0), fields.skip(0)) =~= model::cells(codes, fields));
        assert(out@ =~= start + lines::join(done, seq![sep]));
    }
    while i < encs.len()
        invariant
            i <= encs@.len(),
            encs@.len() == row.fields@.len(),
            forall|i: int|
                #![trigger encs@[i]]
                0 <= i < encs@.len() ==> match encs@[i] {
                    Enc::Dict(values) => values@.len() <= CODES && chars::views(values@).contains(
                        row.fields@[i]@,
                    ),
                    _ => true,
                },
            codes == enc_views(encs@),
            fields == chars::views(row.fields@),
            done + model::cells(codes.skip(i as int), fields.skip(i as int)) == model::cells(codes, fields),
            first == (done.len() == 0),
            out@ == start + lines::join(done, seq![sep]),
        decreases encs@.len() - i,
    {
        let value = row.fields[i];
        let ghost before = out@;
        let ghost old_done = done;
        let ghost cs = codes.skip(i as int);
        let ghost fs = fields.skip(i as int);
        proof {
            assert(cs.skip(1) =~= codes.skip(i as int + 1));
            assert(fs.skip(1) =~= fields.skip(i as int + 1));
            assert(cs[0] == encs@[i as int]@);
            assert(fs[0] == value@);
        }
        match &encs[i] {
            Enc::Constant(_) => {},
            Enc::Dict(values) => {
                let k = find_value(values, value);
                proof {
                    model::lemma_place(chars::views(values@), value@);
                }
                if !first {
                    out.push(sep);
                }
                out.push(code_char(k));
                first = false;
                proof {
                    let cell = seq![model::code(k as nat)];
                    done = done.push(cell);
                    model::lemma_tail_join(old_done, cell, sep);
                    assert(out@ =~= start + lines::join(done, seq![sep]));
                    assert(old_done + (seq![cell] + model::cells(cs.skip(1), fs.skip(1))) =~= done + model::cells(
                        cs.skip(1),
                        fs.skip(1),
                    ));
                }
            },
            Enc::Plain => {
                if !first {
                    out.push(sep);
                }
                chars::append(out, value);
                first = false;
                proof {
                    done = done.push(value@);
                    model::lemma_tail_join(old_done, value@, sep);
                    assert(out@ =~= start + lines::join(done, seq![sep]));
                    assert(old_done + (seq![value@] + model::cells(cs.skip(1), fs.skip(1))) =~= done
                        + model::cells(cs.skip(1), fs.skip(1)));
                }
            },
        }
        i = i + 1;
    }
    proof {
        assert(fields.skip(i as int) =~= seq![]);
        assert(done + model::cells(codes.skip(i as int), fields.skip(i as int)) =~= done);
    }
    let bare = match delim {
        Delim::Whitespace => row.tail.len() == 0,
        Delim::Char(_) => false,
    };
    if !bare {
        if !first {
            out.push(sep);
        }
        chars::append(out, row.tail);
        proof {
            assert(done + model::tail_part(row.tail@, delim) =~= done.push(row.tail@));
            model::lemma_tail_join(done, row.tail@, sep);
            assert(out@ =~= start + lines::join(done.push(row.tail@), seq![sep]));
        }
    } else {
        proof {
            assert(done + model::tail_part(row.tail@, delim) =~= done);
        }
    }
}

/// The lines that are rows, from all lines.
fn take_rows<'a>(all: &Vec<&'a [char]>, start: usize, n: usize, delim: Delim) -> (r: Option<
    Vec<Row<'a>>,
>)
    requires
        start <= all@.len(),
    ensures
        ({
            let body = chars::views(all@).skip(start as int);
            match r {
                Some(rows) => {
                    &&& rows::models(rows@) == model::rows_of(body, n as nat, delim)
                    &&& forall|i: int|
                        0 <= i < body.len() ==> model::fits(#[trigger] body[i], n as nat, delim)
                },
                None => exists|i: int|
                    0 <= i < body.len() && !model::fits(#[trigger] body[i], n as nat, delim),
            }
        }),
{
    let ghost body = chars::views(all@).skip(start as int);
    let mut rows: Vec<Row<'a>> = Vec::new();
    let mut j: usize = start;
    proof {
        assert(rows::models(rows@) =~= model::rows_of(body.take(0), n as nat, delim));
    }
    while j < all.len()
        invariant
            start <= j <= all@.len(),
            body == chars::views(all@).skip(start as int),
            rows::models(rows@) == model::rows_of(body.take(j - start), n as nat, delim),
            forall|i: int| 0 <= i < j - start ==> model::fits(#[trigger] body[i], n as nat, delim),
        decreases all@.len() - j,
    {
        let line = all[j];
        let ghost before = rows@;
        proof {
            assert(body[j - start] == line@);
        }
        if line.len() == 0 {
            proof {
                assert(!model::fits(body[j - start], n as nat, delim));
            }
            return None;
        }
        match rows::take_row(line, n, delim, false) {
            None => {
                proof {
                    assert(!model::fits(body[j - start], n as nat, delim));
                }
                return None;
            },
            Some(row) => {
                rows.push(row);
                proof {
                    assert(model::fits(body[j - start], n as nat, delim));
                    assert(rows::models(rows@) =~= rows::models(before).push(row@));
                    assert(rows::models(rows@) =~= model::rows_of(body.take(j + 1 - start), n as nat, delim));
                }
            },
        }
        j = j + 1;
    }
    proof {
        assert(body.take(j - start) =~= body);
    }
    Some(rows)
}

/// Whether a carriage return ends the line.
fn ends_with_return(line: &[char]) -> (r: bool)
    ensures
        r == lines::ends_with_return(line@),
{
    line.len() > 0 && line[line.len() - 1] == '\r'
}

/// Whether a carriage return ends the tail of a row that is not the last.
fn some_tail_returns(rows: &Vec<Row<'_>>) -> (r: bool)
    requires
        rows@.len() > 0,
    ensures
        r == exists|i: int|
            0 <= i < rows@.len() - 1 && lines::ends_with_return(
                (#[trigger] rows::models(rows@)[i]).1,
            ),
{
    let ghost ms = rows::models(rows@);
    let mut i: usize = 0;
    while i < rows.len() - 1
        invariant
            ms == rows::models(rows@),
            0 < rows@.len(),
            i <= rows@.len() - 1,
            forall|k: int| 0 <= k < i ==> !lines::ends_with_return((#[trigger] ms[k]).1),
        decreases rows@.len() - i,
    {
        proof {
            assert(ms[i as int] == rows@[i as int]@);
        }
        if ends_with_return(rows[i].tail) {
            return true;
        }
        i = i + 1;
    }
    false
}

/// Every coding of a dictionary has few values, and every row's field among them.
proof fn lemma_coding_covers(rows: Seq<RowModel>, i: int, r: int)
    requires
        0 <= r < rows.len(),
    ensures
        match model::coding(model::column(rows, i)) {
            Coding::Dict(values) => values.len() <= CODES && values.contains(rows[r].0[i]),
            _ => true,
        },
{
    let values = model::column(rows, i);
    model::lemma_distinct(values);
    assert(values[r] == rows[r].0[i]);
    assert(model::distinct(values).contains(values[r]));
}

/// Folds columnar text per `schema`.
pub fn fold_slice(text: &[char], schema: &Schema) -> (r: Option<Vec<char>>)
    ensures
        match r {
            Some(out) => model::folded(text@, schema@) == Some(out@),
            None => model::folded(text@, schema@) is None,
        },
{
    let n: usize = schema.cols.len();
    if n == 0 {
        return None;
    }
    match schema.delim {
        Delim::Whitespace => {},
        Delim::Char(c) => {
            if !rows::is_usable(c) {
                return None;
            }
        },
    }
    let all = lines::split_lines(text);
    let total = chars::to_chars("total ");
    let ghost views = chars::views(all@);
    let aside: bool = all.len() > 0 && (schema.skip_header || (schema.skip_total
        && chars::has_prefix(all[0], total.as_slice())));
    proof {
        assert(all@.len() == views.len());
        if all@.len() > 0 {
            assert(views[0] == all@[0]@);
        }
        assert(aside == model::holds_aside(views, schema@));
    }
    let start: usize = if aside {
        1
    } else {
        0
    };
    let ghost body = model::body(text@, schema@);
    proof {
        assert(body =~= views.skip(start as int));
    }
    let rows = match take_rows(&all, start, n, schema.delim) {
        None => {
            return None;
        },
        Some(rows) => rows,
    };
    proof {
        assert(rows@.len() == rows::models(rows@).len());
    }
    if rows.len() < 4 {
        return None;
    }
    let ghost ms = rows::models(rows@);
    let ghost pre = model::preamble(text@, schema@);
    proof {
        assert(ms == model::rows(text@, schema@));
        if aside {
            assert(pre[0] == views[0]);
        }
    }
    if (aside && ends_with_return(all[0])) || some_tail_returns(&rows) {
        return None;
    }
    proof {
        assert(model::foldable(text@, schema@));
        lines::lemma_lines_total(text@);
        if aside {
            assert(views =~= seq![views[0]] + body);
            lines::lemma_total_cons(views[0], body);
        }
        assert forall|k: int| 0 <= k < rows@.len() implies (#[trigger] rows@[k]).fields@.len() == n by {
            assert(ms[k] == rows@[k]@);
            assert(model::fits(body[k], n as nat, schema.delim));
            model::lemma_row_fields(body[k], n as nat, schema.delim, false);
        }
        assert forall|k: int| 0 <= k < body.len() implies model::row_of(
            #[trigger] body[k],
            n as nat,
            schema.delim,
        ) is Some by {
            assert(model::fits(body[k], n as nat, schema.delim));
        }
    }
    let text_len: usize = text.len();
    let ghost codes = model::codings(ms, n as nat);
    let mut encs: Vec<Enc<'_>> = Vec::new();
    let mut i: usize = 0;
    while i < n
        invariant
            i <= n,
            n == schema@.cols.len(),
            text_len == text@.len(),
            rows@.len() >= 4,
            ms == rows::models(rows@),
            ms == model::rows_of(body, n as nat, schema.delim),
            codes == model::codings(ms, n as nat),
            forall|k: int| 0 <= k < rows@.len() ==> (#[trigger] rows@[k]).fields@.len() == n,
            forall|k: int|
                0 <= k < body.len() ==> model::row_of(#[trigger] body[k], n as nat, schema.delim) is Some,
            lines::total_len(body) <= text_len,
            encs@.len() == i,
            forall|k: int| 0 <= k < i ==> (#[trigger] encs@[k])@ == codes[k],
        decreases n - i,
    {
        proof {
            lemma_column_total(body, n as nat, schema.delim, i as int);
        }
        let enc = choose_enc(&rows, i);
        encs.push(enc);
        i = i + 1;
    }
    proof {
        assert(enc_views(encs@) =~= codes);
    }
    // The held-aside line, then the dictionaries, so that a reader has them before the header.
    let mut out: Vec<char> = Vec::new();
    let ghost mut emitted: Seq<Seq<char>> = seq![];
    proof {
        assert(out@ =~= lines::end_lines(emitted));
    }
    if aside {
        chars::append(&mut out, all[0]);
        out.push('\n');
        proof {
            emitted = seq![views[0]];
            lines::lemma_end_lines_push(seq![], views[0]);
            assert(Seq::<Seq<char>>::empty().push(views[0]) =~= emitted);
            assert(out@ =~= lines::end_lines(emitted));
        }
    }
    proof {
        assert(emitted =~= pre);
        assert(schema@.cols.skip(0) =~= schema@.cols);
        assert(codes.skip(0) =~= codes);
    }
    let mut i: usize = 0;
    while i < n
        invariant
            i <= n,
            n == schema.cols@.len(),
            n == schema@.cols.len(),
            n == encs@.len(),
            rows@.len() >= 4,
            ms == rows::models(rows@),
            codes == model::codings(ms, n as nat),
            forall|k: int| 0 <= k < n ==> (#[trigger] encs@[k])@ == codes[k],
            out@ == lines::end_lines(emitted),
            emitted + model::dict_lines(schema@.cols.skip(i as int), codes.skip(i as int)) == pre
                + model::dict_lines(schema@.cols, codes),
        decreases n - i,
    {
        let ghost cs = schema@.cols.skip(i as int);
        let ghost ds = codes.skip(i as int);
        proof {
            assert(cs.skip(1) =~= schema@.cols.skip(i as int + 1));
            assert(ds.skip(1) =~= codes.skip(i as int + 1));
            assert(ds[0] == encs@[i as int]@);
            assert(cs[0] == schema.cols@[i as int]@);
            lemma_coding_covers(ms, i as int, 0);
        }
        match &encs[i] {
            Enc::Dict(values) => {
                let ghost before = out@;
                emit_dict(&mut out, schema.cols[i], values);
                out.push('\n');
                proof {
                    let line = model::dict_line(cs[0], chars::views(values@));
                    lines::lemma_end_lines_push(emitted, line);
                    assert(out@ =~= lines::end_lines(emitted.push(line)));
                    assert(emitted + (seq![line] + model::dict_lines(cs.skip(1), ds.skip(1)))
                        =~= emitted.push(line) + model::dict_lines(cs.skip(1), ds.skip(1)));
                    emitted = emitted.push(line);
                }
            },
            _ => {},
        }
        i = i + 1;
    }
    proof {
        assert(schema@.cols.skip(i as int) =~= seq![]);
        assert(emitted + model::dict_lines(schema@.cols.skip(i as int), codes.skip(i as int)) =~= emitted);
    }
    match schema.delim {
        Delim::Whitespace => {
            proof {
                assert(emitted + model::delim_lines(schema.delim) =~= emitted);
            }
        },
        Delim::Char(c) => {
            emit_delim(&mut out, c);
            out.push('\n');
            proof {
                let line = model::delim_lines(schema.delim)[0];
                lines::lemma_end_lines_push(emitted, line);
                assert(out@ =~= lines::end_lines(emitted.push(line)));
                assert(emitted + model::delim_lines(schema.delim) =~= emitted.push(line));
                emitted = emitted.push(line);
            }
        },
    }
    emit_header(&mut out, schema, &encs);
    out.push('\n');
    proof {
        let line = model::header_line(schema@, codes);
        lines::lemma_end_lines_push(emitted, line);
        assert(out@ =~= lines::end_lines(emitted.push(line)));
        emitted = emitted.push(line);
    }
    let ghost top = emitted;
    let ghost written = model::row_lines(ms, codes, schema.delim);
    let mut blank: bool = false;
    let mut j: usize = 0;
    proof {
        assert(top + written.take(0) =~= top);
    }
    while j < rows.len()
        invariant
            j <= rows@.len(),
            written.len() == rows@.len(),
            j > 0 ==> blank == (written[j - 1].len() == 0),
            n == encs@.len(),
            ms == rows::models(rows@),
            codes == model::codings(ms, n as nat),
            codes == enc_views(encs@),
            forall|k: int| 0 <= k < rows@.len() ==> (#[trigger] rows@[k]).fields@.len() == n,
            written == model::row_lines(ms, codes, schema.delim),
            out@ == lines::end_lines(top + written.take(j as int)),
        decreases rows@.len() - j,
    {
        proof {
            assert forall|i: int|
                #![trigger encs@[i]]
                0 <= i < encs@.len() implies match encs@[i] {
                Enc::Dict(values) => values@.len() <= CODES && chars::views(values@).contains(
                    rows@[j as int].fields@[i]@,
                ),
                _ => true,
            } by {
                lemma_coding_covers(ms, i, j as int);
                assert(enc_views(encs@)[i] == encs@[i]@);
                assert(ms[j as int].0[i] == rows@[j as int].fields@[i]@);
            }
        }
        let before: usize = out.len();
        emit_row(&mut out, &encs, &rows[j], schema.delim);
        blank = out.len() == before;
        out.push('\n');
        proof {
            let line = written[j as int];
            assert(line == model::line_of(model::cells(codes, ms[j as int].0), ms[j as int].1, schema.delim));
            lines::lemma_end_lines_push(top + written.take(j as int), line);
            assert((top + written.take(j as int)).push(line) =~= top + written.take(j as int + 1));
            assert(out@ =~= lines::end_lines(top + written.take(j as int + 1)));
        }
        j = j + 1;
    }
    let ghost wire = model::folded_lines(text@, schema@);
    proof {
        assert(written.take(j as int) =~= written);
        assert(top + written =~= wire);
        lines::lemma_end_lines(wire);
        assert(lines::join_lines(wire) =~= lines::end_lines(wire).drop_last());
        assert(wire.last() == written[j - 1]);
    }
    // The last row is not followed by a line feed, unless nothing is written of it.
    if !blank {
        out.pop();
    }
    proof {
        assert(out@ == model::wire_text(wire));
    }
    if chars::slice_bytes(out.as_slice()) < chars::slice_bytes(text) {
        Some(out)
    } else {
        None
    }
}

} // verus!
