//! The folded form, as mathematics: rows, codings, lines, and reading them back.
use vstd::prelude::*;
use crate::chars;
use crate::lines;
use crate::markers;

verus! {

/// How the fixed columns of a line are separated.
#[derive(Clone, Copy)]
pub enum Delim {
    /// By runs of whitespace; the tail begins after the whitespace too.
    Whitespace,
    /// By one character; the tail is all that follows the last separator.
    Char(char),
}

/// Describes the fixed columns that precede a free-text tail in a tool's output.
#[derive(Clone, Copy)]
pub struct Schema {
    /// Names of the fixed columns, in order.
    pub cols: &'static [&'static str],
    /// Name of the trailing free-text column.
    pub tail: &'static str,
    /// How the columns are separated.
    pub delim: Delim,
    /// Whether to hold aside a leading `total <n>` line.
    pub skip_total: bool,
    /// Whether to hold aside the first line as a column-name header.
    pub skip_header: bool,
}

/// The names that a schema holds, as sequences.
pub struct Layout {
    pub cols: Seq<Seq<char>>,
    pub tail: Seq<char>,
    pub delim: Delim,
    pub skip_total: bool,
    pub skip_header: bool,
}

impl View for Schema {
    type V = Layout;

    open spec fn view(&self) -> Layout {
        Layout {
            cols: self.cols@.map_values(|s: &'static str| s@),
            tail: self.tail@,
            delim: self.delim,
            skip_total: self.skip_total,
            skip_header: self.skip_header,
        }
    }
}

/// A row: its fixed fields and its tail.
pub type RowModel = (Seq<Seq<char>>, Seq<char>);

/// How a column is written.
pub enum Coding {
    /// The same value on every row, declared once in the header.
    Constant(Seq<char>),
    /// Each value is written as the one-character code of its place in this list.
    Dict(Seq<Seq<char>>),
    /// Each value is written as it is.
    Plain,
}

/// The number of one-character codes.
pub const CODES: usize = 62;

/// The `k`-th code: `A` to `Z`, then `a` to `z`, then `0` to `9`.
pub open spec fn code(k: nat) -> char {
    if k < 26 {
        (65 + k) as char
    } else if k < 52 {
        (97 + k - 26) as char
    } else {
        (48 + k - 52) as char
    }
}

/// `c` can be told apart from whitespace and from every code.
pub open spec fn usable(c: char) -> bool {
    &&& !chars::whitespace(c)
    &&& !('A' <= c <= 'Z')
    &&& !('a' <= c <= 'z')
    &&& !('0' <= c <= '9')
}

/// What is written between the parts of a row.
pub open spec fn separator(delim: Delim) -> char {
    match delim {
        Delim::Whitespace => ' ',
        Delim::Char(c) => c,
    }
}

// ---- rows ----

/// The first `n` whitespace-separated fields of `line` and the rest after them. `None`
/// where a field has no whitespace behind it. The last field may end the line, where
/// `ends` says so: the rest is empty then.
pub open spec fn fixed_fields(line: Seq<char>, n: nat, ends: bool) -> Option<RowModel>
    decreases n,
{
    let t = chars::trim_start(line);
    if n == 0 {
        Some((seq![], t))
    } else {
        let k = chars::find_white(t) as int;
        if k == t.len() {
            if ends && n == 1 && k > 0 {
                Some((seq![t], seq![]))
            } else {
                None
            }
        } else {
            match fixed_fields(t.skip(k), (n - 1) as nat, ends) {
                Some((fields, tail)) => Some((seq![t.take(k)] + fields, tail)),
                None => None,
            }
        }
    }
}

/// The first `n` fields of `line`, each with a `c` behind it, and the rest after them.
pub open spec fn delimited_fields(line: Seq<char>, n: nat, c: char) -> Option<RowModel>
    decreases n,
{
    if n == 0 {
        Some((seq![], line))
    } else {
        let k = chars::find_char(line, c) as int;
        if k == line.len() {
            None
        } else {
            match delimited_fields(line.skip(k + 1), (n - 1) as nat, c) {
                Some((fields, tail)) => Some((seq![line.take(k)] + fields, tail)),
                None => None,
            }
        }
    }
}

/// The first `n` fields of `line`, and its tail. Where whitespace separates, the last
/// field may end the line if `ends` says so.
pub open spec fn cut(line: Seq<char>, n: nat, delim: Delim, ends: bool) -> Option<RowModel> {
    match delim {
        Delim::Whitespace => fixed_fields(line, n, ends),
        Delim::Char(c) => delimited_fields(line, n, c),
    }
}

/// The row that a line of a tool's output holds: `n` fields, and a tail behind them.
pub open spec fn row_of(line: Seq<char>, n: nat, delim: Delim) -> Option<RowModel> {
    cut(line, n, delim, false)
}

/// The row that a line of the folded form holds: `n` cells, and a tail. Nothing is
/// written of an empty tail, so the last cell may end the line.
pub open spec fn wire_row(line: Seq<char>, n: nat, delim: Delim) -> Option<RowModel> {
    cut(line, n, delim, true)
}

/// What is written of a tail: nothing of an empty one, where whitespace separates.
pub open spec fn tail_part(tail: Seq<char>, delim: Delim) -> Seq<Seq<char>> {
    if delim is Whitespace && tail.len() == 0 {
        seq![]
    } else {
        seq![tail]
    }
}

/// A line of the given cells and the tail.
pub open spec fn line_of(cells: Seq<Seq<char>>, tail: Seq<char>, delim: Delim) -> Seq<char> {
    lines::join(cells + tail_part(tail, delim), seq![separator(delim)])
}

// ---- folding ----

/// The first line is held aside.
pub open spec fn holds_aside(all: Seq<Seq<char>>, schema: Layout) -> bool {
    all.len() > 0 && (schema.skip_header || (schema.skip_total && "total "@.is_prefix_of(all[0])))
}

/// The line that is held aside, or none.
pub open spec fn preamble(text: Seq<char>, schema: Layout) -> Seq<Seq<char>> {
    let all = lines::lines(text);
    if holds_aside(all, schema) {
        all.take(1)
    } else {
        seq![]
    }
}

/// The lines that are rows.
pub open spec fn body(text: Seq<char>, schema: Layout) -> Seq<Seq<char>> {
    let all = lines::lines(text);
    if holds_aside(all, schema) {
        all.skip(1)
    } else {
        all
    }
}

/// `line` is a row of `n` fields and a tail.
pub open spec fn fits(line: Seq<char>, n: nat, delim: Delim) -> bool {
    line.len() > 0 && row_of(line, n, delim) is Some
}

/// The rows of the lines.
pub open spec fn rows_of(body: Seq<Seq<char>>, n: nat, delim: Delim) -> Seq<RowModel> {
    body.map_values(|line: Seq<char>| row_of(line, n, delim)->0)
}

/// The rows of `text`.
pub open spec fn rows(text: Seq<char>, schema: Layout) -> Seq<RowModel> {
    rows_of(body(text, schema), schema.cols.len(), schema.delim)
}

/// No carriage return stands where the folded form puts a line feed behind it: neither at
/// the end of the line that is held aside, nor at the end of a tail but the last.
pub open spec fn unreturned(text: Seq<char>, schema: Layout) -> bool {
    &&& forall|i: int|
        0 <= i < preamble(text, schema).len() ==> !lines::ends_with_return(
            #[trigger] preamble(text, schema)[i],
        )
    &&& forall|i: int|
        0 <= i < rows(text, schema).len() - 1 ==> !lines::ends_with_return(
            (#[trigger] rows(text, schema)[i]).1,
        )
}

/// `text` has the shape that `schema` describes, with at least four rows, and no line end
/// that would be lost.
pub open spec fn foldable(text: Seq<char>, schema: Layout) -> bool {
    &&& schema.cols.len() > 0
    &&& match schema.delim {
        Delim::Whitespace => true,
        Delim::Char(c) => usable(c),
    }
    &&& forall|i: int|
        0 <= i < body(text, schema).len() ==> fits(
            #[trigger] body(text, schema)[i],
            schema.cols.len(),
            schema.delim,
        )
    &&& body(text, schema).len() >= 4
    &&& unreturned(text, schema)
}

/// The `i`-th field of every row.
pub open spec fn column(rows: Seq<RowModel>, i: int) -> Seq<Seq<char>> {
    rows.map_values(|r: RowModel| r.0[i])
}

/// `value` can be written as one word behind an equals sign.
pub open spec fn is_token(value: Seq<char>) -> bool {
    forall|j: int|
        0 <= j < value.len() ==> !chars::whitespace(#[trigger] value[j]) && value[j] != '='
}

/// The distinct values, in the order in which they are first seen.
pub open spec fn distinct(values: Seq<Seq<char>>) -> Seq<Seq<char>>
    decreases values.len(),
{
    if values.len() == 0 {
        seq![]
    } else {
        let d = distinct(values.drop_last());
        if d.contains(values.last()) {
            d
        } else {
            d.push(values.last())
        }
    }
}

/// The byte lengths of the values, each with `extra` more, in all.
pub open spec fn total_bytes(values: Seq<Seq<char>>, extra: nat) -> nat
    decreases values.len(),
{
    if values.len() == 0 {
        0
    } else {
        total_bytes(values.drop_last(), extra) + chars::byte_len(values.last()) + extra
    }
}

/// How a column is written: constant where all its values are the same, coded where
/// its values are few and the codes with their dictionary are shorter than the
/// values, and plain where neither helps or a value is no token.
pub open spec fn coding(values: Seq<Seq<char>>) -> Coding {
    let d = distinct(values);
    if exists|r: int| 0 <= r < values.len() && !is_token(#[trigger] values[r]) {
        Coding::Plain
    } else if d.len() == 1 {
        Coding::Constant(d[0])
    } else if d.len() > CODES {
        Coding::Plain
    } else if values.len() + total_bytes(d, 3) >= total_bytes(values, 0) {
        Coding::Plain
    } else {
        Coding::Dict(d)
    }
}

/// How the first `n` columns of the rows are written.
pub open spec fn codings(rows: Seq<RowModel>, n: nat) -> Seq<Coding> {
    Seq::new(n, |i: int| coding(column(rows, i)))
}

/// Each word with a space before it.
pub open spec fn spaced(tokens: Seq<Seq<char>>) -> Seq<char>
    decreases tokens.len(),
{
    if tokens.len() == 0 {
        seq![]
    } else {
        seq![' '] + tokens[0] + spaced(tokens.skip(1))
    }
}

/// `name=value`.
pub open spec fn assignment(name: Seq<char>, value: Seq<char>) -> Seq<char> {
    name + seq!['='] + value
}

/// The entries of a dictionary line: `code=value`.
pub open spec fn dict_entries(values: Seq<Seq<char>>) -> Seq<Seq<char>> {
    Seq::new(values.len(), |k: int| assignment(seq![code(k as nat)], values[k]))
}

/// A dictionary line.
pub open spec fn dict_line(name: Seq<char>, values: Seq<Seq<char>>) -> Seq<char> {
    markers::DICT@ + spaced(seq![name] + dict_entries(values))
}

/// The dictionary lines of the columns that have a dictionary.
pub open spec fn dict_lines(cols: Seq<Seq<char>>, codings: Seq<Coding>) -> Seq<Seq<char>>
    decreases cols.len(),
{
    if cols.len() == 0 {
        seq![]
    } else {
        let rest = dict_lines(cols.skip(1), codings.skip(1));
        match codings[0] {
            Coding::Dict(values) => seq![dict_line(cols[0], values)] + rest,
            _ => rest,
        }
    }
}

/// A column in the header: its name, with its value where it is constant.
pub open spec fn header_token(name: Seq<char>, coding: Coding) -> Seq<char> {
    match coding {
        Coding::Constant(value) => assignment(name, value),
        _ => name,
    }
}

/// The columns in the header, and the name of the tail.
pub open spec fn header_tokens(schema: Layout, codings: Seq<Coding>) -> Seq<Seq<char>> {
    Seq::new(schema.cols.len(), |i: int| header_token(schema.cols[i], codings[i])).push(
        schema.tail,
    )
}

/// The line before the header that declares the separator, unless it is whitespace. It has
/// the marker of a dictionary line, and its one entry has no value, so that no dictionary
/// line looks like it.
pub open spec fn delim_lines(delim: Delim) -> Seq<Seq<char>> {
    match delim {
        Delim::Whitespace => seq![],
        Delim::Char(c) => seq![markers::DICT@ + spaced(seq!["delim"@, seq![c]])],
    }
}

/// The header line.
pub open spec fn header_line(schema: Layout, codings: Seq<Coding>) -> Seq<char> {
    markers::COLS@ + spaced(header_tokens(schema, codings))
}

/// The place of `value` among the values; their number where it is not among them.
pub open spec fn place(values: Seq<Seq<char>>, value: Seq<char>) -> nat
    decreases values.len(),
{
    if values.len() == 0 || values[0] == value {
        0
    } else {
        1 + place(values.skip(1), value)
    }
}

/// What is written of a row's fields: nothing of a constant, a code, or the value.
pub open spec fn cells(codings: Seq<Coding>, fields: Seq<Seq<char>>) -> Seq<Seq<char>>
    decreases fields.len(),
{
    if fields.len() == 0 {
        seq![]
    } else {
        let rest = cells(codings.skip(1), fields.skip(1));
        match codings[0] {
            Coding::Constant(_) => rest,
            Coding::Dict(values) => seq![seq![code(place(values, fields[0]))]] + rest,
            Coding::Plain => seq![fields[0]] + rest,
        }
    }
}

/// The lines of the rows.
pub open spec fn row_lines(rows: Seq<RowModel>, codings: Seq<Coding>, delim: Delim) -> Seq<
    Seq<char>,
> {
    rows.map_values(|r: RowModel| line_of(cells(codings, r.0), r.1, delim))
}

/// The lines of the folded form.
pub open spec fn folded_lines(text: Seq<char>, schema: Layout) -> Seq<Seq<char>> {
    let rows = rows(text, schema);
    let codings = codings(rows, schema.cols.len());
    preamble(text, schema) + dict_lines(schema.cols, codings) + delim_lines(schema.delim) + seq![
        header_line(schema, codings),
    ] + row_lines(rows, codings, schema.delim)
}

/// The text of the lines. A line feed stands behind an empty last line, which would be no
/// line without it.
pub open spec fn wire_text(parts: Seq<Seq<char>>) -> Seq<char> {
    lines::text_of(parts, parts.len() > 0 && parts.last().len() == 0)
}

/// The folded form of `text`, where `text` has the shape of `schema` and the folded
/// form is smaller.
pub open spec fn folded(text: Seq<char>, schema: Layout) -> Option<Seq<char>> {
    let out = wire_text(folded_lines(text, schema));
    if foldable(text, schema) && chars::byte_len(out) < chars::byte_len(text) {
        Some(out)
    } else {
        None
    }
}

// ---- unfolding ----

/// `s` before and behind its first `c`; `None` where there is none.
pub open spec fn split_once(s: Seq<char>, c: char) -> Option<(Seq<char>, Seq<char>)> {
    let k = chars::find_char(s, c) as int;
    if k < s.len() {
        Some((s.take(k), s.skip(k + 1)))
    } else {
        None
    }
}

/// The value of the last entry with the given key.
pub open spec fn latest<K, V>(entries: Seq<(K, V)>, key: K) -> Option<V>
    decreases entries.len(),
{
    if entries.len() == 0 {
        None
    } else if entries.last().0 == key {
        Some(entries.last().1)
    } else {
        latest(entries.drop_last(), key)
    }
}

/// An entry of a dictionary line: the first character before the equals sign, and all
/// that follows the sign.
pub open spec fn read_entry(token: Seq<char>) -> Option<(char, Seq<char>)> {
    match split_once(token, '=') {
        Some((key, value)) => if key.len() > 0 {
            Some((key[0], value))
        } else {
            None
        },
        None => None,
    }
}

/// A dictionary: the entries of its line.
pub type DictModel = Seq<(char, Seq<char>)>;

/// The entries that the tokens stand for; `None` where one of them is no entry.
pub open spec fn read_entries(tokens: Seq<Seq<char>>) -> Option<DictModel>
    decreases tokens.len(),
{
    if tokens.len() == 0 {
        Some(seq![])
    } else {
        match (read_entry(tokens[0]), read_entries(tokens.skip(1))) {
            (Some(entry), Some(rest)) => Some(seq![entry] + rest),
            _ => None,
        }
    }
}

/// The column and the dictionary that stand behind the marker of a dictionary line.
pub open spec fn read_dict(rest: Seq<char>) -> Option<(Seq<char>, DictModel)> {
    let tokens = lines::words(rest);
    if tokens.len() == 0 {
        None
    } else {
        match read_entries(tokens.skip(1)) {
            Some(entries) => Some((tokens[0], entries)),
            None => None,
        }
    }
}

/// `line` is a dictionary line.
pub open spec fn is_dict_line(line: Seq<char>) -> bool {
    markers::DICT@.is_prefix_of(line)
}

/// `line` is a header line.
pub open spec fn is_header_line(line: Seq<char>) -> bool {
    markers::COLS@.is_prefix_of(line)
}

/// The dictionaries of the lines before the header, by column; `None` where a
/// dictionary line cannot be read.
pub open spec fn read_dicts(head: Seq<Seq<char>>) -> Option<Seq<(Seq<char>, DictModel)>>
    decreases head.len(),
{
    if head.len() == 0 {
        Some(seq![])
    } else {
        let rest = read_dicts(head.skip(1));
        if !is_dict_line(head[0]) {
            rest
        } else {
            match (read_dict(head[0].skip(markers::DICT@.len() as int)), rest) {
                (Some(dict), Some(rest)) => Some(seq![dict] + rest),
                _ => None,
            }
        }
    }
}

/// The last line before the header that is no dictionary line, or none.
pub open spec fn read_preamble(head: Seq<Seq<char>>) -> Seq<Seq<char>>
    decreases head.len(),
{
    if head.len() == 0 {
        seq![]
    } else if is_dict_line(head.last()) {
        read_preamble(head.drop_last())
    } else {
        seq![head.last()]
    }
}

/// The index of the first header line; the number of lines where there is none.
pub open spec fn header_index(all: Seq<Seq<char>>) -> nat
    decreases all.len(),
{
    if all.len() == 0 || is_header_line(all[0]) {
        0
    } else {
        1 + header_index(all.skip(1))
    }
}

/// A fixed column in the header: its name, and its value where it is constant.
pub open spec fn read_column(token: Seq<char>) -> (Seq<char>, Option<Seq<char>>) {
    match split_once(token, '=') {
        Some((name, value)) => (name, Some(value)),
        None => (token, None),
    }
}

/// The separator that the last of the lines before the header declares: whitespace, unless
/// the line is a declaration of a usable character.
pub open spec fn read_delim(head: Seq<Seq<char>>) -> Delim {
    if head.len() > 0 && is_dict_line(head.last()) {
        let tokens = lines::words(head.last().skip(markers::DICT@.len() as int));
        if tokens.len() == 2 && tokens[0] == "delim"@ && tokens[1].len() == 1 && usable(
            tokens[1][0],
        ) {
            Delim::Char(tokens[1][0])
        } else {
            Delim::Whitespace
        }
    } else {
        Delim::Whitespace
    }
}

/// The fixed columns of a header: all its words but the last.
pub open spec fn read_columns(tokens: Seq<Seq<char>>) -> Seq<(Seq<char>, Option<Seq<char>>)> {
    tokens.drop_last().map_values(|token: Seq<char>| read_column(token))
}

/// The number of columns that are not constant.
pub open spec fn varying(columns: Seq<(Seq<char>, Option<Seq<char>>)>) -> nat
    decreases columns.len(),
{
    if columns.len() == 0 {
        0
    } else {
        varying(columns.skip(1)) + if columns[0].1 is None {
            1nat
        } else {
            0
        }
    }
}

/// The value that a written cell of the named column stands for.
pub open spec fn decode(
    dicts: Seq<(Seq<char>, DictModel)>,
    name: Seq<char>,
    raw: Seq<char>,
) -> Seq<char> {
    match latest(dicts, name) {
        Some(dict) => if raw.len() > 0 {
            match latest(dict, raw[0]) {
                Some(value) => value,
                None => raw,
            }
        } else {
            raw
        },
        None => raw,
    }
}

/// The fields of a row from its written cells.
pub open spec fn decoded(
    columns: Seq<(Seq<char>, Option<Seq<char>>)>,
    dicts: Seq<(Seq<char>, DictModel)>,
    raw: Seq<Seq<char>>,
) -> Seq<Seq<char>>
    decreases columns.len(),
{
    if columns.len() == 0 {
        seq![]
    } else {
        match columns[0].1 {
            Some(value) => seq![value] + decoded(columns.skip(1), dicts, raw),
            None => seq![decode(dicts, columns[0].0, raw[0])] + decoded(
                columns.skip(1),
                dicts,
                raw.skip(1),
            ),
        }
    }
}

/// A restored line.
pub open spec fn unfolded_line(
    columns: Seq<(Seq<char>, Option<Seq<char>>)>,
    dicts: Seq<(Seq<char>, DictModel)>,
    delim: Delim,
    line: Seq<char>,
) -> Seq<char> {
    let row = wire_row(line, varying(columns), delim)->0;
    line_of(decoded(columns, dicts, row.0), row.1, delim)
}

/// Some line is short of `n` cells.
pub open spec fn short(rows: Seq<Seq<char>>, n: nat, delim: Delim) -> bool {
    exists|i: int| 0 <= i < rows.len() && wire_row(#[trigger] rows[i], n, delim) is None
}

/// The text that a folded text stands for; `None` where it has no header line, the
/// header names no column, a dictionary line cannot be read, or a row is short of cells.
pub open spec fn unfolded(text: Seq<char>) -> Option<Seq<char>> {
    let all = lines::lines(text);
    let h = header_index(all) as int;
    let delim = read_delim(all.take(h));
    let head = all.take(h - delim_lines(delim).len());
    let tokens = lines::words(all[h].skip(markers::COLS@.len() as int));
    let columns = read_columns(tokens);
    let rows = all.skip(h + 1);
    if h == all.len() || tokens.len() == 0 || read_dicts(head) is None || short(
        rows,
        varying(columns),
        delim,
    ) {
        None
    } else {
        let dicts = read_dicts(head)->0;
        Some(
            lines::join_lines(
                read_preamble(head) + rows.map_values(
                    |line: Seq<char>| unfolded_line(columns, dicts, delim, line),
                ),
            ),
        )
    }
}

// ---- facts ----

// ---- choosing how to write a column ----

/// What `place` finds.
pub proof fn lemma_place(values: Seq<Seq<char>>, value: Seq<char>)
    ensures
        place(values, value) <= values.len(),
        place(values, value) < values.len() ==> values[place(values, value) as int] == value,
        forall|j: int| 0 <= j < place(values, value) ==> values[j] != value,
        values.contains(value) <==> place(values, value) < values.len(),
    decreases values.len(),
{
    if values.len() > 0 && values[0] != value {
        let rest = values.skip(1);
        lemma_place(rest, value);
        assert forall|j: int| 0 <= j < place(values, value) implies values[j] != value by {
            if j > 0 {
                assert(values[j] == rest[j - 1]);
            }
        }
        if place(values, value) < values.len() {
            assert(values[place(values, value) as int] == rest[place(rest, value) as int]);
        }
    }
}

/// Only one place can be what `place` finds.
pub proof fn lemma_place_is(values: Seq<Seq<char>>, value: Seq<char>, k: nat)
    requires
        k <= values.len(),
        forall|j: int| 0 <= j < k ==> values[j] != value,
        k < values.len() ==> values[k as int] == value,
    ensures
        place(values, value) == k,
{
    lemma_place(values, value);
    let p = place(values, value);
    if p < k {
        assert(values[p as int] != value);
    } else if k < p {
        assert(values[k as int] != value);
    }
}

/// There are no more distinct values in a part than in the whole.
pub proof fn lemma_distinct_grows(values: Seq<Seq<char>>, k: int)
    requires
        0 <= k <= values.len(),
    ensures
        distinct(values.take(k)).len() <= distinct(values).len(),
    decreases values.len(),
{
    if k < values.len() {
        lemma_distinct_grows(values.drop_last(), k);
        assert(values.drop_last().take(k) =~= values.take(k));
    } else {
        assert(values.take(k) =~= values);
    }
}

/// Every value has one of at most as many distinct values, each of which is a value.
pub proof fn lemma_distinct(values: Seq<Seq<char>>)
    ensures
        distinct(values).len() <= values.len(),
        distinct(values).no_duplicates(),
        forall|r: int| 0 <= r < values.len() ==> distinct(values).contains(#[trigger] values[r]),
        forall|k: int|
            0 <= k < distinct(values).len() ==> values.contains(#[trigger] distinct(values)[k]),
        values.len() > 0 ==> distinct(values).len() > 0,
    decreases values.len(),
{
    if values.len() > 0 {
        let init = values.drop_last();
        lemma_distinct(init);
        let d = distinct(init);
        let all = distinct(values);
        assert forall|r: int| 0 <= r < values.len() implies all.contains(#[trigger] values[r]) by {
            if r < init.len() {
                assert(values[r] == init[r]);
                assert(d.contains(init[r]));
                let k = choose|k: int| 0 <= k < d.len() && d[k] == init[r];
                assert(all[k] == d[k]);
            } else if !d.contains(values.last()) {
                assert(all[d.len() as int] == values.last());
            }
        }
        assert forall|k: int| 0 <= k < all.len() implies values.contains(#[trigger] all[k]) by {
            if k < d.len() {
                assert(all[k] == d[k]);
                assert(init.contains(d[k]));
                let r = choose|r: int| 0 <= r < init.len() && init[r] == d[k];
                assert(values[r] == all[k]);
            } else {
                assert(values[values.len() - 1] == all[k]);
            }
        }
        assert(all.no_duplicates()) by {
            if !d.contains(values.last()) {
                assert forall|i: int, j: int|
                    0 <= i < all.len() && 0 <= j < all.len() && i != j implies all[i] != all[j] by {
                    if i < d.len() && j < d.len() {
                        assert(d[i] != d[j]);
                    } else if i < d.len() {
                        assert(d.contains(d[i]));
                    } else {
                        assert(d.contains(d[j]));
                    }
                }
            }
        }
    }
}

/// The values have at most four bytes for each character.
pub proof fn lemma_total_bytes(values: Seq<Seq<char>>, extra: nat)
    ensures
        total_bytes(values, extra) <= 4 * lines::total_len(values) + extra * values.len(),
    decreases values.len(),
{
    if values.len() > 0 {
        lemma_total_bytes(values.drop_last(), extra);
        chars::lemma_byte_len_bounds(values.last());
        assert(extra * values.len() == extra * (values.len() - 1) + extra) by (nonlinear_arith)
            requires
                values.len() > 0,
        ;
    } else {
        assert(extra * values.len() == 0) by (nonlinear_arith)
            requires
                values.len() == 0,
        ;
    }
}

/// A part of the values has no more characters than the whole.
pub proof fn lemma_total_len_take(values: Seq<Seq<char>>, k: int)
    requires
        0 <= k <= values.len(),
    ensures
        lines::total_len(values.take(k)) <= lines::total_len(values),
    decreases values.len(),
{
    if k < values.len() {
        lemma_total_len_take(values.drop_last(), k);
        assert(values.drop_last().take(k) =~= values.take(k));
    } else {
        assert(values.take(k) =~= values);
    }
}

/// The distinct values have no more characters than the values.
pub proof fn lemma_distinct_total(values: Seq<Seq<char>>)
    ensures
        lines::total_len(distinct(values)) <= lines::total_len(values),
    decreases values.len(),
{
    if values.len() > 0 {
        lemma_distinct_total(values.drop_last());
        let d = distinct(values.drop_last());
        assert(d.push(values.last()).drop_last() =~= d);
    }
}

// ---- writing the folded form ----

/// Appending a word to spaced words.
pub proof fn lemma_spaced_push(tokens: Seq<Seq<char>>, x: Seq<char>)
    ensures
        spaced(tokens.push(x)) == spaced(tokens) + seq![' '] + x,
    decreases tokens.len(),
{
    let all = tokens.push(x);
    if tokens.len() == 0 {
        assert(all.skip(1) =~= tokens);
        assert(all[0] == x);
        assert(spaced(all) =~= spaced(tokens) + seq![' '] + x);
    } else {
        assert(all.skip(1) =~= tokens.skip(1).push(x));
        lemma_spaced_push(tokens.skip(1), x);
        assert(spaced(all) =~= spaced(tokens) + seq![' '] + x);
    }
}

/// A row has as many fields as were asked for, none longer than its line.
pub proof fn lemma_row_fields(line: Seq<char>, n: nat, delim: Delim, ends: bool)
    requires
        cut(line, n, delim, ends) is Some,
    ensures
        (cut(line, n, delim, ends)->0).0.len() == n,
        forall|i: int|
            0 <= i < n ==> (#[trigger] (cut(line, n, delim, ends)->0).0[i]).len() <= line.len(),
    decreases n,
{
    if n > 0 {
        let whole = (cut(line, n, delim, ends)->0).0;
        let (k, t, after) = match delim {
            Delim::Whitespace => {
                let t = chars::trim_start(line);
                chars::lemma_trim_start(line);
                chars::lemma_find_white(t);
                let k = chars::find_white(t) as int;
                (k, t, t.skip(k))
            },
            Delim::Char(c) => {
                chars::lemma_find_char(line, c);
                let k = chars::find_char(line, c) as int;
                (k, line, line.skip(k + 1))
            },
        };
        if k == t.len() {
            assert(whole == seq![t]);
        } else {
            lemma_row_fields(after, (n - 1) as nat, delim, ends);
            let rest = (cut(after, (n - 1) as nat, delim, ends)->0).0;
            assert(whole == seq![t.take(k)] + rest);
            assert forall|i: int| 0 <= i < n implies (#[trigger] whole[i]).len() <= line.len() by {
                if i > 0 {
                    assert(whole[i] == rest[i - 1]);
                }
            }
        }
    }
}

/// Appending a part to joined parts.
pub proof fn lemma_tail_join(parts: Seq<Seq<char>>, x: Seq<char>, sep: char)
    ensures
        lines::join(parts.push(x), seq![sep]) == lines::join(parts, seq![sep]) + if parts.len()
            == 0 {
            seq![]
        } else {
            seq![sep]
        } + x,
{
    lines::lemma_join_push(parts, seq![sep], x);
    if parts.len() == 0 {
        assert(lines::join(parts, seq![sep]) + Seq::<char>::empty() + x =~= x);
    }
}

} // verus!
