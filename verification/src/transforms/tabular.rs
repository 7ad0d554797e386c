//! Tabular fold: a JSON array of objects becomes a header row and CSV rows.
//!
//! An array of objects repeats every key on every element. The table writes each key
//! once. It keeps the meaning, not the bytes: null and the empty text are both an empty
//! cell, `true` and `"true"` are the same text, and the order of keys within a row is
//! that of the header.
//!
//! The array is the whole value, or the largest one nested in it. What stands around a
//! nested one is kept: the title of the table ends with that JSON text, in which the
//! table's marker stands for the array.
use serde_json::Value;
use vstd::prelude::*;
use crate::chars;
use crate::json;
use crate::json::Json;
use crate::lines;
use crate::markers;
use crate::transforms::columnar::model;

verus! {

/// A cell of a row, before it is written.
#[derive(Debug)]
pub enum Cell {
    Null,
    Bool(bool),
    /// A number, as it is written.
    Number(String),
    Text(String),
    /// An array or an object, as its JSON text.
    Nested(String),
}

impl Cell {
    /// The text of the cell, before it is escaped.
    pub open spec fn text(self) -> Seq<char> {
        match self {
            Cell::Null => seq![],
            Cell::Bool(b) => if b {
                "true"@
            } else {
                "false"@
            },
            Cell::Number(s) => s@,
            Cell::Text(s) => s@,
            Cell::Nested(s) => s@,
        }
    }
}

/// A row: the keys of an object, each with the text of its cell.
pub type RowModel = Seq<(Seq<char>, Seq<char>)>;

/// The rows of cells as keys and texts.
pub open spec fn row_models(rows: Seq<Vec<(String, Cell)>>) -> Seq<RowModel> {
    rows.map_values(|row: Vec<(String, Cell)>| row_model(row@))
}

/// The cells of a row as keys and texts.
pub open spec fn row_model(row: Seq<(String, Cell)>) -> RowModel {
    row.map_values(|entry: (String, Cell)| (entry.0@, entry.1.text()))
}

/// The keys of a row.
pub open spec fn keys(row: RowModel) -> Seq<Seq<char>> {
    row.map_values(|entry: (Seq<char>, Seq<char>)| entry.0)
}

/// The keys of all rows, one row after the other.
pub open spec fn all_keys(rows: Seq<RowModel>) -> Seq<Seq<char>>
    decreases rows.len(),
{
    if rows.len() == 0 {
        seq![]
    } else {
        all_keys(rows.drop_last()) + keys(rows.last())
    }
}

/// The columns: every key once, in the order in which the keys are first seen.
pub open spec fn columns(rows: Seq<RowModel>) -> Seq<Seq<char>> {
    model::distinct(all_keys(rows))
}

/// The text of the row's cell in the column; empty where the row has no such key.
pub open spec fn cell_at(row: RowModel, column: Seq<char>) -> Seq<char>
    decreases row.len(),
{
    if row.len() == 0 {
        seq![]
    } else if row[0].0 == column {
        row[0].1
    } else {
        cell_at(row.skip(1), column)
    }
}

/// `c` cannot stand in a field without quotes.
pub open spec fn special(c: char) -> bool {
    c == ',' || c == '"' || c == '\n' || c == '\r'
}

/// Some character of the field cannot stand there without quotes.
pub open spec fn needs_quotes(field: Seq<char>) -> bool {
    exists|j: int| 0 <= j < field.len() && special(#[trigger] field[j])
}

/// The characters, with every quote doubled.
pub open spec fn doubled(s: Seq<char>) -> Seq<char>
    decreases s.len(),
{
    if s.len() == 0 {
        seq![]
    } else if s.last() == '"' {
        doubled(s.drop_last()) + seq!['"', '"']
    } else {
        doubled(s.drop_last()).push(s.last())
    }
}

/// A field as it is written: in quotes, with its own quotes doubled, where it holds a
/// comma, a quote or a line ending.
pub open spec fn escaped(field: Seq<char>) -> Seq<char> {
    if needs_quotes(field) {
        seq!['"'] + doubled(field) + seq!['"']
    } else {
        field
    }
}

/// The fields as they are written, each two with a comma between them.
pub open spec fn csv(fields: Seq<Seq<char>>) -> Seq<char> {
    lines::join(fields.map_values(|f: Seq<char>| escaped(f)), seq![','])
}

/// The cells of a row, in the order of the columns.
pub open spec fn cells(row: RowModel, columns: Seq<Seq<char>>) -> Seq<Seq<char>> {
    columns.map_values(|column: Seq<char>| cell_at(row, column))
}

/// The line above the table.
pub open spec fn title(count: nat) -> Seq<char> {
    markers::TABLE@ + seq![' '] + chars::decimal(count) + " rows"@
}

/// The lines of the table: the title with a note behind it, the header row, and the rows.
pub open spec fn table_lines(rows: Seq<RowModel>, note: Seq<char>) -> Seq<Seq<char>> {
    seq![title(rows.len()) + note, csv(columns(rows))] + rows.map_values(
        |row: RowModel| csv(cells(row, columns(rows))),
    )
}

/// The table of the rows, where there are at least two rows and some key.
pub open spec fn table_of(rows: Seq<RowModel>) -> Option<Seq<char>> {
    if rows.len() >= 2 && columns(rows).len() > 0 {
        Some(lines::join_lines(table_lines(rows, seq![])))
    } else {
        None
    }
}

/// The text of a JSON value in a cell.
pub open spec fn cell_text(value: Json) -> Seq<char> {
    match value {
        Json::Null => seq![],
        Json::Bool(b) => if b {
            "true"@
        } else {
            "false"@
        },
        Json::Number(s) => s,
        Json::Text(s) => s,
        _ => json::written(value),
    }
}

/// The row of a JSON object.
pub open spec fn row_of(value: Json) -> RowModel {
    value->Object_0.map_values(|m: (Seq<char>, Json)| (m.0, cell_text(m.1)))
}

/// The rows of a JSON array of objects; `None` of any other value.
pub open spec fn rows_of(value: Json) -> Option<Seq<RowModel>> {
    match value {
        Json::Array(items) => if forall|i: int|
            0 <= i < items.len() ==> #[trigger] items[i] is Object {
            Some(items.map_values(|item: Json| row_of(item)))
        } else {
            None
        },
        _ => None,
    }
}

/// The value is an array of at least two objects, with some key.
pub open spec fn is_table(value: Json) -> bool {
    match value {
        Json::Array(items) => {
            &&& items.len() >= 2
            &&& forall|i: int| 0 <= i < items.len() ==> #[trigger] items[i] is Object
            &&& exists|i: int| 0 <= i < items.len() && (#[trigger] items[i])->Object_0.len() > 0
        },
        _ => false,
    }
}

// ---- nested arrays ----

/// The number of the items of an array, or of the members of an object.
pub open spec fn child_count(value: Json) -> nat {
    match value {
        Json::Array(items) => items.len(),
        Json::Object(members) => members.len(),
        _ => 0,
    }
}

/// The item of an array, or the value of the member of an object, at the index.
pub open spec fn child(value: Json, i: int) -> Json {
    match value {
        Json::Array(items) => items[i],
        Json::Object(members) => members[i].1,
        _ => value,
    }
}

/// The array or the object with another value at the index.
pub open spec fn with_child(value: Json, i: int, x: Json) -> Json {
    match value {
        Json::Array(items) => Json::Array(items.update(i, x)),
        Json::Object(members) => Json::Object(members.update(i, (members[i].0, x))),
        _ => value,
    }
}

/// The way from a value to one nested in it: the index at each level.
pub type Path = Seq<nat>;

/// The path leads to a nested value.
pub open spec fn leads(value: Json, path: Path) -> bool
    decreases path.len(),
{
    path.len() == 0 || (path[0] < child_count(value) && leads(
        child(value, path[0] as int),
        path.skip(1),
    ))
}

/// The nested value to which the path leads.
pub open spec fn at(value: Json, path: Path) -> Json
    decreases path.len(),
{
    if path.len() == 0 {
        value
    } else {
        at(child(value, path[0] as int), path.skip(1))
    }
}

/// The value with another one where the path leads.
pub open spec fn replaced(value: Json, path: Path, x: Json) -> Json
    decreases path.len(),
{
    if path.len() == 0 {
        x
    } else {
        let i = path[0] as int;
        with_child(value, i, replaced(child(value, i), path.skip(1), x))
    }
}

/// What is nested in a value is smaller than the value.
pub proof fn lemma_child_is_smaller(value: Json, i: int)
    requires
        0 <= i < child_count(value),
    ensures
        decreases_to!(value => child(value, i)),
{
    match value {
        Json::Array(items) => {
            assert(decreases_to!(items => items[i]));
        },
        Json::Object(members) => {
            assert(decreases_to!(members => members[i]));
            assert(decreases_to!(members[i] => members[i].1));
        },
        _ => {},
    }
}

/// A table in a tree: where it is, and how many rows it has.
pub struct Place {
    pub path: Path,
    pub size: nat,
}

/// The one with more rows; the first of two with as many.
pub open spec fn larger(a: Option<Place>, b: Option<Place>) -> Option<Place> {
    match (a, b) {
        (Some(x), Some(y)) => if y.size > x.size {
            b
        } else {
            a
        },
        (None, _) => b,
        _ => a,
    }
}

/// The place, seen from the value in which it is nested at the index.
pub open spec fn nested_in(i: nat, inner: Option<Place>) -> Option<Place> {
    match inner {
        Some(p) => Some(Place { path: seq![i] + p.path, size: p.size }),
        None => None,
    }
}

/// The largest table nested in the first `n` items or members of the value.
pub open spec fn largest_below(value: Json, n: nat) -> Option<Place>
    decreases value, 0nat, n,
{
    if n == 0 || n > child_count(value) {
        None
    } else {
        proof {
            lemma_child_is_smaller(value, n - 1);
        }
        larger(
            largest_below(value, (n - 1) as nat),
            nested_in((n - 1) as nat, largest(child(value, n - 1))),
        )
    }
}

/// The largest table among the value and all that is nested in it: the one with the most
/// rows, and of those with as many, the one that begins first.
pub open spec fn largest(value: Json) -> Option<Place>
    decreases value, 1nat, 0nat,
{
    let own = if is_table(value) {
        Some(Place { path: seq![], size: child_count(value) })
    } else {
        None
    };
    larger(own, largest_below(value, child_count(value)))
}

/// Where the table of a value is: the value itself, or the largest table nested in it.
pub open spec fn chosen(value: Json) -> Option<Path> {
    if is_table(value) {
        Some(seq![])
    } else {
        match largest_below(value, child_count(value)) {
            Some(place) => Some(place.path),
            None => None,
        }
    }
}

/// The rows of the table of a value: of the value itself, where it is an array of at least
/// two objects with some key, or else of the largest such array nested in it.
pub open spec fn largest_rows(value: Json) -> Option<Seq<RowModel>> {
    match chosen(value) {
        Some(path) => rows_of(at(value, path)),
        None => None,
    }
}

/// What stands around the table at the path, with the table's marker in its place.
pub open spec fn frame(value: Json, path: Path) -> Json {
    replaced(value, path, Json::Text(markers::TABLE@))
}

/// What the title says of the place of the table: nothing where it is the whole value.
pub open spec fn place_note(value: Json, path: Path) -> Seq<char> {
    if path.len() == 0 {
        seq![]
    } else {
        " in "@ + json::written(frame(value, path))
    }
}

/// The table of a JSON value, where it is or holds an array of at least two objects with
/// some key.
pub open spec fn folded(value: Json) -> Option<Seq<char>> {
    match largest_rows(value) {
        Some(rows) => Some(
            lines::join_lines(table_lines(rows, place_note(value, chosen(value)->0))),
        ),
        None => None,
    }
}

// ---- writing ----

/// Whether some character of the field cannot stand there without quotes.
fn has_special(field: &str) -> (r: bool)
    ensures
        r == needs_quotes(field@),
{
    for c in it: field.chars()
        invariant
            it.seq() == field@,
            forall|j: int| 0 <= j < it.index() ==> !special(#[trigger] field@[j]),
    {
        if c == ',' || c == '"' || c == '\n' || c == '\r' {
            proof {
                assert(special(field@[it.index() as int]));
            }
            return true;
        }
    }
    false
}

/// Appends a field as it is written.
fn write_escaped(out: &mut Vec<char>, field: &str)
    ensures
        final(out)@ == old(out)@ + escaped(field@),
{
    if !has_special(field) {
        chars::append_str(out, field);
        return;
    }
    out.push('"');
    let ghost start = out@;
    proof {
        assert(field@.take(0) =~= seq![]);
    }
    for c in it: field.chars()
        invariant
            it.seq() == field@,
            out@ == start + doubled(field@.take(it.index() as int)),
    {
        proof {
            let k = it.index() as int;
            assert(field@.take(k + 1).drop_last() =~= field@.take(k));
            assert(field@.take(k + 1).last() == c);
        }
        if c == '"' {
            out.push('"');
        }
        out.push(c);
    }
    proof {
        assert(field@.take(field@.len() as int) =~= field@);
    }
    out.push('"');
    proof {
        assert(out@ =~= old(out)@ + escaped(field@));
    }
}

impl Cell {
    /// The text of the cell.
    fn as_text(&self) -> (r: &str)
        ensures
            r@ == self.text(),
    {
        match self {
            Cell::Null => {
                proof {
                    reveal_strlit("");
                    assert(""@ =~= seq![]);
                }
                ""
            },
            Cell::Bool(b) => if *b {
                "true"
            } else {
                "false"
            },
            Cell::Number(s) => s.as_str(),
            Cell::Text(s) => s.as_str(),
            Cell::Nested(s) => s.as_str(),
        }
    }
}

/// The views of the names.
pub open spec fn names(columns: Seq<&str>) -> Seq<Seq<char>> {
    columns.map_values(|c: &str| c@)
}

/// Whether the name is among the columns.
fn has_name(columns: &Vec<&str>, name: &str) -> (r: bool)
    ensures
        r == names(columns@).contains(name@),
{
    let mut k: usize = 0;
    while k < columns.len()
        invariant
            k <= columns@.len(),
            forall|j: int| 0 <= j < k ==> names(columns@)[j] != name@,
        decreases columns@.len() - k,
    {
        if chars::same_str(columns[k], name) {
            proof {
                assert(names(columns@)[k as int] == name@);
            }
            return true;
        }
        k = k + 1;
    }
    false
}

/// The columns of the rows.
fn find_columns<'a>(rows: &'a Vec<Vec<(String, Cell)>>) -> (r: Vec<&'a str>)
    ensures
        names(r@) == columns(row_models(rows@)),
{
    let ghost ms = row_models(rows@);
    let mut found: Vec<&'a str> = Vec::new();
    let mut i: usize = 0;
    proof {
        assert(ms.take(0) =~= seq![]);
        assert(names(found@) =~= seq![]);
    }
    while i < rows.len()
        invariant
            i <= rows@.len(),
            ms == row_models(rows@),
            names(found@) == model::distinct(all_keys(ms.take(i as int))),
        decreases rows@.len() - i,
    {
        let row = &rows[i];
        let ghost before = all_keys(ms.take(i as int));
        let ghost ks = keys(ms[i as int]);
        let mut j: usize = 0;
        proof {
            assert(before + ks.take(0) =~= before);
        }
        while j < row.len()
            invariant
                j <= row@.len(),
                i < rows@.len(),
                *row == rows@[i as int],
                ms == row_models(rows@),
                ks == keys(ms[i as int]),
                names(found@) == model::distinct(before + ks.take(j as int)),
            decreases row@.len() - j,
        {
            let key: &'a str = row[j].0.as_str();
            let ghost shown = before + ks.take(j as int);
            let ghost old_found = found@;
            proof {
                assert(ks[j as int] == key@);
                let upto = before + ks.take(j as int + 1);
                assert(upto.drop_last() =~= shown);
                assert(upto.last() == key@);
            }
            if !has_name(&found, key) {
                found.push(key);
                proof {
                    assert(names(found@) =~= names(old_found).push(key@));
                }
            }
            j = j + 1;
        }
        proof {
            let upto = ms.take(i as int + 1);
            assert(upto.drop_last() =~= ms.take(i as int));
            assert(upto.last() == ms[i as int]);
            assert(ks.take(j as int) =~= ks);
        }
        i = i + 1;
    }
    proof {
        assert(ms.take(i as int) =~= ms);
    }
    found
}

/// Appends the header row.
fn write_header(out: &mut Vec<char>, columns: &Vec<&str>)
    ensures
        final(out)@ == old(out)@ + csv(names(columns@)),
{
    let ghost start = out@;
    let ghost fields = names(columns@).map_values(|f: Seq<char>| escaped(f));
    let mut k: usize = 0;
    proof {
        assert(fields.take(0) =~= seq![]);
        assert(start + lines::join(fields.take(0), seq![',']) =~= start);
    }
    while k < columns.len()
        invariant
            k <= columns@.len(),
            fields == names(columns@).map_values(|f: Seq<char>| escaped(f)),
            out@ == start + lines::join(fields.take(k as int), seq![',']),
        decreases columns@.len() - k,
    {
        if k > 0 {
            out.push(',');
        }
        write_escaped(out, columns[k]);
        proof {
            assert(fields.take(k as int + 1) =~= fields.take(k as int).push(fields[k as int]));
            lines::lemma_join_push(fields.take(k as int), seq![','], fields[k as int]);
            assert(out@ =~= start + lines::join(fields.take(k as int + 1), seq![',']));
        }
        k = k + 1;
    }
    proof {
        assert(fields.take(k as int) =~= fields);
    }
}

/// The text of the row's cell in the column.
fn find_cell<'a>(row: &'a Vec<(String, Cell)>, column: &str) -> (r: &'a str)
    ensures
        r@ == cell_at(row_model(row@), column@),
{
    let ghost m = row_model(row@);
    let mut k: usize = 0;
    proof {
        assert(m.skip(0) =~= m);
    }
    while k < row.len()
        invariant
            k <= row@.len(),
            m == row_model(row@),
            cell_at(m, column@) == cell_at(m.skip(k as int), column@),
        decreases row@.len() - k,
    {
        proof {
            assert(m.skip(k as int)[0] == m[k as int]);
            assert(m.skip(k as int).skip(1) =~= m.skip(k as int + 1));
        }
        if chars::same_str(row[k].0.as_str(), column) {
            return row[k].1.as_text();
        }
        k = k + 1;
    }
    proof {
        reveal_strlit("");
        assert(""@ =~= seq![]);
    }
    ""
}

/// Appends a row.
fn write_row(out: &mut Vec<char>, row: &Vec<(String, Cell)>, columns: &Vec<&str>)
    ensures
        final(out)@ == old(out)@ + csv(cells(row_model(row@), names(columns@))),
{
    let ghost start = out@;
    let ghost texts = cells(row_model(row@), names(columns@));
    let ghost fields = texts.map_values(|f: Seq<char>| escaped(f));
    let mut k: usize = 0;
    proof {
        assert(fields.take(0) =~= seq![]);
        assert(start + lines::join(fields.take(0), seq![',']) =~= start);
    }
    while k < columns.len()
        invariant
            k <= columns@.len(),
            texts == cells(row_model(row@), names(columns@)),
            fields == texts.map_values(|f: Seq<char>| escaped(f)),
            out@ == start + lines::join(fields.take(k as int), seq![',']),
        decreases columns@.len() - k,
    {
        if k > 0 {
            out.push(',');
        }
        write_escaped(out, find_cell(row, columns[k]));
        proof {
            assert(names(columns@)[k as int] == columns@[k as int]@);
            assert(fields.take(k as int + 1) =~= fields.take(k as int).push(fields[k as int]));
            lines::lemma_join_push(fields.take(k as int), seq![','], fields[k as int]);
            assert(out@ =~= start + lines::join(fields.take(k as int + 1), seq![',']));
        }
        k = k + 1;
    }
    proof {
        assert(fields.take(k as int) =~= fields);
    }
}

/// The table of the rows; `None` where there are fewer than two rows, or no key.
#[must_use]
pub fn table(rows: &Vec<Vec<(String, Cell)>>) -> (r: Option<String>)
    ensures
        match r {
            Some(out) => table_of(row_models(rows@)) == Some(out@),
            None => table_of(row_models(rows@)) is None,
        },
{
    let note: Vec<char> = Vec::new();
    proof {
        assert(note@ =~= seq![]);
    }
    noted_table(rows, note.as_slice())
}

/// The table of the rows, with a note behind its title.
fn noted_table(rows: &Vec<Vec<(String, Cell)>>, note: &[char]) -> (r: Option<String>)
    ensures
        match r {
            Some(out) => {
                &&& table_of(row_models(rows@)) is Some
                &&& out@ == lines::join_lines(table_lines(row_models(rows@), note@))
            },
            None => table_of(row_models(rows@)) is None,
        },
{
    let ghost ms = row_models(rows@);
    if rows.len() < 2 {
        return None;
    }
    let columns = find_columns(rows);
    proof {
        assert(names(columns@).len() == columns@.len());
    }
    if columns.len() == 0 {
        return None;
    }
    let ghost all = table_lines(ms, note@);
    let mut out: Vec<char> = Vec::new();
    chars::append_str(&mut out, markers::TABLE);
    out.push(' ');
    chars::append_decimal(&mut out, rows.len() as u64);
    chars::append_str(&mut out, " rows");
    chars::append(&mut out, note);
    proof {
        assert(out@ =~= title(ms.len()) + note@);
        assert(all.take(1) =~= seq![title(ms.len()) + note@]);
    }
    out.push('\n');
    write_header(&mut out, &columns);
    proof {
        assert(all.take(2) =~= all.take(1).push(csv(names(columns@))));
        lines::lemma_join_push(all.take(1), seq!['\n'], csv(names(columns@)));
        assert(out@ =~= lines::join_lines(all.take(2)));
    }
    let mut i: usize = 0;
    while i < rows.len()
        invariant
            i <= rows@.len(),
            ms == row_models(rows@),
            all == table_lines(ms, note@),
            names(columns@) == self::columns(ms),
            out@ == lines::join_lines(all.take(i + 2)),
        decreases rows@.len() - i,
    {
        out.push('\n');
        write_row(&mut out, &rows[i], &columns);
        proof {
            assert(ms[i as int] == row_model(rows@[i as int]@));
            assert(all[i + 2] == csv(cells(ms[i as int], names(columns@))));
            assert(all.take(i + 3) =~= all.take(i + 2).push(all[i + 2]));
            lines::lemma_join_push(all.take(i + 2), seq!['\n'], all[i + 2]);
            assert(out@ =~= lines::join_lines(all.take(i + 3)));
        }
        i = i + 1;
    }
    proof {
        assert(all.take(i + 2) =~= all);
    }
    Some(chars::to_text(out.as_slice()))
}

// ---- from JSON ----

/// The cell of a JSON value.
fn cell(value: &Value) -> (r: Cell)
    ensures
        r.text() == cell_text(json::contents(*value)),
{
    if value.is_null() {
        return Cell::Null;
    }
    if let Some(b) = value.as_bool() {
        return Cell::Bool(b);
    }
    if let Some(text) = value.as_str() {
        return Cell::Text(chars::owned(text));
    }
    match json::number_text(value) {
        Some(number) => Cell::Number(number),
        None => Cell::Nested(json::write(value)),
    }
}

/// The cells of a JSON object; `None` of any other value.
fn row_cells(value: &Value) -> (r: Option<Vec<(String, Cell)>>)
    ensures
        match r {
            Some(row) => json::contents(*value) is Object && row_model(row@) == row_of(
                json::contents(*value),
            ),
            None => !(json::contents(*value) is Object),
        },
{
    let found = match json::members(value) {
        Some(found) => found,
        None => {
            return None;
        },
    };
    let ghost expect = row_of(json::contents(*value));
    let mut row: Vec<(String, Cell)> = Vec::new();
    let mut k: usize = 0;
    while k < found.len()
        invariant
            k <= found@.len(),
            json::contents(*value) == Json::Object(
                found@.map_values(|m: (&String, &Value)| (m.0@, json::contents(*m.1))),
            ),
            expect == row_of(json::contents(*value)),
            row_model(row@) == expect.take(k as int),
        decreases found@.len() - k,
    {
        let (key, item) = found[k];
        let ghost before = row@;
        let name = chars::owned(key.as_str());
        row.push((name, cell(item)));
        proof {
            assert(expect[k as int] == (key@, cell_text(json::contents(*item))));
            assert(row_model(row@) =~= row_model(before).push(expect[k as int]));
            assert(expect.take(k as int + 1) =~= expect.take(k as int).push(expect[k as int]));
        }
        k = k + 1;
    }
    proof {
        assert(expect.take(k as int) =~= expect);
    }
    Some(row)
}

/// The rows of a JSON array of objects; `None` of any other value.
fn row_list(value: &Value) -> (r: Option<Vec<Vec<(String, Cell)>>>)
    ensures
        match r {
            Some(rows) => rows_of(json::contents(*value)) == Some(row_models(rows@)),
            None => rows_of(json::contents(*value)) is None,
        },
{
    let items = match value.as_array() {
        Some(items) => items,
        None => {
            return None;
        },
    };
    let ghost js = json::contents(*value)->Array_0;
    let ghost expect = js.map_values(|item: Json| row_of(item));
    let mut rows: Vec<Vec<(String, Cell)>> = Vec::new();
    let mut k: usize = 0;
    proof {
        assert(row_models(rows@) =~= expect.take(0));
    }
    while k < items.len()
        invariant
            k <= items@.len(),
            json::contents(*value) == Json::Array(js),
            js == items@.map_values(|item: Value| json::contents(item)),
            expect == js.map_values(|item: Json| row_of(item)),
            forall|i: int| 0 <= i < k ==> #[trigger] js[i] is Object,
            row_models(rows@) == expect.take(k as int),
        decreases items@.len() - k,
    {
        let ghost before = rows@;
        proof {
            assert(js[k as int] == json::contents(items@[k as int]));
        }
        match row_cells(&items[k]) {
            None => {
                return None;
            },
            Some(row) => {
                rows.push(row);
                proof {
                    assert(expect[k as int] == row_model(row@));
                    assert(row_models(rows@) =~= row_models(before).push(row_model(row@)));
                    assert(expect.take(k as int + 1) =~= expect.take(k as int).push(
                        expect[k as int],
                    ));
                }
            },
        }
        k = k + 1;
    }
    proof {
        assert(expect.take(k as int) =~= expect);
    }
    Some(rows)
}

/// A table in a value, and where it is.
struct Spot<'a> {
    path: Vec<usize>,
    array: &'a Value,
    size: usize,
}

spec fn path_model(path: Seq<usize>) -> Path {
    path.map_values(|i: usize| i as nat)
}

impl<'a> Spot<'a> {
    spec fn place(self) -> Place {
        Place { path: path_model(self.path@), size: self.size as nat }
    }

    /// The spot is where a table is in the value.
    spec fn marks(self, value: Json) -> bool {
        &&& leads(value, self.place().path)
        &&& json::contents(*self.array) == at(value, self.place().path)
        &&& is_table(at(value, self.place().path))
    }
}

/// What stands for the spot, or for none.
spec fn place_of(spot: Option<Spot<'_>>) -> Option<Place> {
    match spot {
        Some(spot) => Some(spot.place()),
        None => None,
    }
}

/// The number of rows of a table; `None` of any other value.
fn table_size(value: &Value) -> (r: Option<usize>)
    ensures
        match r {
            Some(n) => is_table(json::contents(*value)) && n == child_count(
                json::contents(*value),
            ),
            None => !is_table(json::contents(*value)),
        },
{
    let items = match value.as_array() {
        Some(items) => items,
        None => {
            return None;
        },
    };
    let ghost js = json::contents(*value)->Array_0;
    let mut keyed: bool = false;
    let mut k: usize = 0;
    while k < items.len()
        invariant
            k <= items@.len(),
            json::contents(*value) == Json::Array(js),
            js == items@.map_values(|item: Value| json::contents(item)),
            forall|i: int| 0 <= i < k ==> #[trigger] js[i] is Object,
            keyed == exists|i: int| 0 <= i < k && (#[trigger] js[i])->Object_0.len() > 0,
        decreases items@.len() - k,
    {
        proof {
            assert(js[k as int] == json::contents(items@[k as int]));
        }
        match json::members(&items[k]) {
            None => {
                return None;
            },
            Some(found) => {
                proof {
                    assert(js[k as int]->Object_0.len() == found@.len());
                }
                if found.len() > 0 {
                    keyed = true;
                }
            },
        }
        k = k + 1;
    }
    if keyed && items.len() >= 2 {
        Some(items.len())
    } else {
        None
    }
}

/// The items of an array, or the values of an object's members.
fn children<'a>(value: &'a Value) -> (r: Vec<&'a Value>)
    ensures
        r@.len() == child_count(json::contents(*value)),
        forall|i: int|
            0 <= i < r@.len() ==> json::contents(*#[trigger] r@[i]) == child(
                json::contents(*value),
                i,
            ),
{
    let mut out: Vec<&'a Value> = Vec::new();
    if let Some(items) = value.as_array() {
        let mut k: usize = 0;
        while k < items.len()
            invariant
                k <= items@.len(),
                out@.len() == k,
                forall|i: int| 0 <= i < k ==> *#[trigger] out@[i] == items@[i],
            decreases items@.len() - k,
        {
            out.push(&items[k]);
            k = k + 1;
        }
    } else if let Some(found) = json::members(value) {
        let mut k: usize = 0;
        while k < found.len()
            invariant
                k <= found@.len(),
                out@.len() == k,
                forall|i: int| 0 <= i < k ==> #[trigger] out@[i] == found@[i].1,
            decreases found@.len() - k,
        {
            out.push(found[k].1);
            k = k + 1;
        }
    }
    out
}

/// The largest table nested in a value.
fn find_below<'a>(value: &'a Value) -> (r: Option<Spot<'a>>)
    ensures
        place_of(r) == largest_below(
            json::contents(*value),
            child_count(json::contents(*value)),
        ),
        r is Some ==> (r->0).marks(json::contents(*value)),
    decreases json::contents(*value), 0nat,
{
    let ghost whole = json::contents(*value);
    let kids = children(value);
    let mut best: Option<Spot<'a>> = None;
    let mut k: usize = 0;
    while k < kids.len()
        invariant
            k <= kids@.len(),
            whole == json::contents(*value),
            kids@.len() == child_count(whole),
            forall|i: int|
                0 <= i < kids@.len() ==> json::contents(*#[trigger] kids@[i]) == child(whole, i),
            place_of(best) == largest_below(whole, k as nat),
            best is Some ==> (best->0).marks(whole),
        decreases kids@.len() - k,
    {
        proof {
            lemma_child_is_smaller(whole, k as int);
        }
        let inner = find(kids[k]);
        let ghost part = child(whole, k as int);
        let ghost from_inner = place_of(inner);
        proof {
            assert(largest_below(whole, (k + 1) as nat) == larger(
                largest_below(whole, k as nat),
                nested_in(k as nat, from_inner),
            ));
        }
        match inner {
            None => {},
            Some(mut spot) => {
                let more: bool = match &best {
                    Some(other) => spot.size > other.size,
                    None => true,
                };
                if more {
                    let ghost old_path = path_model(spot.path@);
                    spot.path.insert(0, k);
                    proof {
                        let path = path_model(spot.path@);
                        assert(path =~= seq![k as nat] + old_path);
                        assert(path.skip(1) =~= old_path);
                        assert(at(whole, path) == at(part, old_path));
                        assert(leads(whole, path));
                    }
                    best = Some(spot);
                }
            },
        }
        k = k + 1;
    }
    best
}

/// The largest table among a value and all that is nested in it.
fn find<'a>(value: &'a Value) -> (r: Option<Spot<'a>>)
    ensures
        place_of(r) == largest(json::contents(*value)),
        r is Some ==> (r->0).marks(json::contents(*value)),
    decreases json::contents(*value), 1nat,
{
    let below = find_below(value);
    match table_size(value) {
        None => below,
        Some(size) => {
            let own = own_spot(value, size);
            match below {
                Some(spot) => if spot.size > own.size {
                    Some(spot)
                } else {
                    Some(own)
                },
                None => Some(own),
            }
        },
    }
}

/// The spot of a value that is a table itself.
fn own_spot<'a>(value: &'a Value, size: usize) -> (r: Spot<'a>)
    requires
        is_table(json::contents(*value)),
    ensures
        r.place() == (Place { path: seq![], size: size as nat }),
        r.marks(json::contents(*value)),
{
    let path: Vec<usize> = Vec::new();
    proof {
        assert(path_model(path@) =~= seq![]);
    }
    Spot { path, array: value, size }
}

/// The value with the table's marker where the path, from one of its indices on, leads.
fn framed(value: &Value, path: &Vec<usize>, from: usize) -> (r: Value)
    requires
        from <= path@.len(),
        leads(json::contents(*value), path_model(path@).skip(from as int)),
    ensures
        json::contents(r) == frame(
            json::contents(*value),
            path_model(path@).skip(from as int),
        ),
    decreases path@.len() - from,
{
    let ghost way = path_model(path@).skip(from as int);
    if from == path.len() {
        return json::text(markers::TABLE);
    }
    let at: usize = path[from];
    proof {
        assert(way[0] == at as nat);
        assert(way.skip(1) =~= path_model(path@).skip(from as int + 1));
    }
    let kids = children(value);
    let inner = framed(kids[at], path, from + 1);
    match value.as_array() {
        Some(items) => array_with(items, at, inner),
        None => object_with(value, at, inner),
    }
}

/// An array of the items, with another one at the index.
fn array_with(items: &Vec<Value>, at: usize, inner: Value) -> (r: Value)
    requires
        at < items@.len(),
    ensures
        json::contents(r) == with_child(
            Json::Array(items@.map_values(|item: Value| json::contents(item))),
            at as int,
            json::contents(inner),
        ),
{
    let ghost js = items@.map_values(|item: Value| json::contents(item));
    let ghost expect = js.update(at as int, json::contents(inner));
    let mut out: Vec<Value> = Vec::new();
    let mut k: usize = 0;
    while k < items.len()
        invariant
            k <= items@.len(),
            out@.len() == k,
            forall|i: int|
                0 <= i < k && i != at ==> json::contents(#[trigger] out@[i]) == json::contents(
                    items@[i],
                ),
        decreases items@.len() - k,
    {
        let item: Value = if k == at {
            json::null()
        } else {
            json::copy(&items[k])
        };
        out.push(item);
        k = k + 1;
    }
    out.set(at, inner);
    proof {
        assert(out@.map_values(|item: Value| json::contents(item)) =~= expect);
    }
    json::array(out)
}

/// The object with another value for the member at the index.
fn object_with(value: &Value, at: usize, inner: Value) -> (r: Value)
    requires
        json::contents(*value) is Object,
        at < child_count(json::contents(*value)),
    ensures
        json::contents(r) == with_child(
            json::contents(*value),
            at as int,
            json::contents(inner),
        ),
{
    let found = match json::members(value) {
        Some(found) => found,
        None => {
            return inner;
        },
    };
    let ghost ms = json::contents(*value)->Object_0;
    let ghost expect = ms.update(at as int, (ms[at as int].0, json::contents(inner)));
    let mut out: Vec<(String, Value)> = Vec::new();
    let mut k: usize = 0;
    while k < found.len()
        invariant
            k <= found@.len(),
            out@.len() == k,
            forall|i: int| 0 <= i < k ==> (#[trigger] out@[i]).0@ == found@[i].0@,
            forall|i: int|
                0 <= i < k && i != at ==> json::contents((#[trigger] out@[i]).1)
                    == json::contents(*found@[i].1),
        decreases found@.len() - k,
    {
        let item: Value = if k == at {
            json::null()
        } else {
            json::copy(found[k].1)
        };
        out.push((chars::owned(found[k].0.as_str()), item));
        k = k + 1;
    }
    out.set(at, (chars::owned(found[at].0.as_str()), inner));
    proof {
        assert(out@.map_values(|m: (String, Value)| (m.0@, json::contents(m.1))) =~= expect);
    }
    json::object(out)
}

/// The rows of a table have a column.
proof fn lemma_table_has_columns(value: Json)
    requires
        is_table(value),
    ensures
        rows_of(value) is Some,
        table_of(rows_of(value)->0) is Some,
{
    let items = value->Array_0;
    let rows = rows_of(value)->0;
    let i = choose|i: int| 0 <= i < items.len() && (#[trigger] items[i])->Object_0.len() > 0;
    assert(rows[i] == row_of(items[i]));
    assert(rows[i].len() > 0);
    lemma_columns_hold_every_key(rows);
    assert(columns(rows).contains(rows[i][0].0));
}

/// Folds a JSON value: an array of objects, or the largest one nested in the value, into a
/// table. `None` where there is no array of at least two objects with some key.
#[must_use]
pub fn fold_value(value: &Value) -> (r: Option<String>)
    ensures
        match r {
            Some(out) => folded(json::contents(*value)) == Some(out@),
            None => folded(json::contents(*value)) is None,
        },
{
    let spot = match table_size(value) {
        Some(size) => own_spot(value, size),
        None => match find_below(value) {
            Some(spot) => spot,
            None => {
                return None;
            },
        },
    };
    let ghost whole = json::contents(*value);
    let ghost path = path_model(spot.path@);
    proof {
        assert(chosen(whole) == Some(path));
        lemma_table_has_columns(at(whole, path));
        assert(path.skip(0) =~= path);
    }
    let mut note: Vec<char> = Vec::new();
    if spot.path.len() > 0 {
        chars::append_str(&mut note, " in ");
        chars::append_str(&mut note, json::write(&framed(value, &spot.path, 0)).as_str());
    }
    proof {
        assert(note@ =~= place_note(whole, path));
    }
    match row_list(spot.array) {
        Some(rows) => noted_table(&rows, note.as_slice()),
        None => None,
    }
}

/// Folds a JSON text into a table: an array of objects, or the largest one nested in it.
/// `None` where `s` is no JSON text, or holds no array of at least two objects with some
/// key. Whether the table is smaller is for the caller to see.
#[must_use]
pub fn fold(s: &str) -> (r: Option<String>)
    ensures
        match json::parsed(chars::trim(s@)) {
            Some(value) => match r {
                Some(out) => folded(value) == Some(out@),
                None => folded(value) is None,
            },
            None => r is None,
        },
{
    let given = chars::to_chars(s);
    let text = chars::to_text(chars::trimmed(given.as_slice()));
    let value = match json::parse(text.as_str()) {
        Some(value) => value,
        None => {
            return None;
        },
    };
    fold_value(&value)
}

// ---- laws ----

/// What [`doubled`] wrote, up to the quote that ends it, and what stands behind that quote.
pub open spec fn read_quoted(s: Seq<char>) -> (Seq<char>, Seq<char>)
    decreases s.len(),
{
    if s.len() == 0 {
        (seq![], seq![])
    } else if s[0] != '"' {
        let (more, rest) = read_quoted(s.skip(1));
        (seq![s[0]] + more, rest)
    } else if s.len() > 1 && s[1] == '"' {
        let (more, rest) = read_quoted(s.skip(2));
        (seq!['"'] + more, rest)
    } else {
        (seq![], s.skip(1))
    }
}

/// The first field of a written row, and what stands behind it.
pub open spec fn read_field(s: Seq<char>) -> (Seq<char>, Seq<char>) {
    if s.len() > 0 && s[0] == '"' {
        read_quoted(s.skip(1))
    } else {
        let k = chars::find_char(s, ',') as int;
        (s.take(k), s.skip(k))
    }
}

/// The `n` fields of a written row.
pub open spec fn read_row(s: Seq<char>, n: nat) -> Seq<Seq<char>>
    decreases n,
{
    if n == 0 {
        seq![]
    } else {
        let (field, rest) = read_field(s);
        seq![field] + read_row(rest.skip(1), (n - 1) as nat)
    }
}

/// Doubling quotes, with the first character taken off.
proof fn lemma_doubled_cons(c: char, s: Seq<char>)
    ensures
        doubled(seq![c] + s) == (if c == '"' {
            seq!['"', '"']
        } else {
            seq![c]
        }) + doubled(s),
    decreases s.len(),
{
    let all = seq![c] + s;
    if s.len() == 0 {
        assert(all.drop_last() =~= seq![]);
        assert(all.last() == c);
        assert(doubled(all.drop_last()) =~= seq![]);
        assert(doubled(all) =~= (if c == '"' {
            seq!['"', '"']
        } else {
            seq![c]
        }) + doubled(s));
    } else {
        lemma_doubled_cons(c, s.drop_last());
        assert(all.drop_last() =~= seq![c] + s.drop_last());
        assert(all.last() == s.last());
        assert(doubled(all) =~= (if c == '"' {
            seq!['"', '"']
        } else {
            seq![c]
        }) + doubled(s));
    }
}

/// A field in quotes is read back.
proof fn lemma_read_quoted(field: Seq<char>, rest: Seq<char>)
    requires
        rest.len() > 0 ==> rest[0] != '"',
    ensures
        read_quoted(doubled(field) + seq!['"'] + rest) == (field, rest),
    decreases field.len(),
{
    let s = doubled(field) + seq!['"'] + rest;
    if field.len() == 0 {
        assert(s =~= seq!['"'] + rest);
        assert(s.skip(1) =~= rest);
        assert(field =~= seq![]);
    } else {
        let c = field[0];
        let tail = field.skip(1);
        assert(field =~= seq![c] + tail);
        lemma_doubled_cons(c, tail);
        lemma_read_quoted(tail, rest);
        let inner = doubled(tail) + seq!['"'] + rest;
        if c == '"' {
            assert(s =~= seq!['"', '"'] + inner);
            assert(s.skip(2) =~= inner);
        } else {
            assert(s =~= seq![c] + inner);
            assert(s.skip(1) =~= inner);
        }
    }
}

/// A written field is read back, whatever it holds.
pub proof fn lemma_field_reads_back(field: Seq<char>, rest: Seq<char>)
    requires
        rest.len() > 0 ==> rest[0] == ',',
    ensures
        read_field(escaped(field) + rest) == (field, rest),
{
    let s = escaped(field) + rest;
    if needs_quotes(field) {
        lemma_read_quoted(field, rest);
        assert(s.skip(1) =~= doubled(field) + seq!['"'] + rest);
    } else {
        assert forall|j: int| 0 <= j < field.len() implies s[j] != ',' && s[j] != '"' by {
            assert(s[j] == field[j]);
            assert(!special(field[j]));
        }
        chars::lemma_find_char_is(s, ',', field.len());
        assert(s.take(field.len() as int) =~= field);
        assert(s.skip(field.len() as int) =~= rest);
    }
}

/// A written row is read back: its fields can be told apart, whatever they hold.
pub proof fn lemma_row_reads_back(fields: Seq<Seq<char>>)
    ensures
        read_row(csv(fields), fields.len()) == fields,
    decreases fields.len(),
{
    let written = fields.map_values(|f: Seq<char>| escaped(f));
    if fields.len() == 0 {
        assert(fields =~= seq![]);
    } else {
        let tail = fields.skip(1);
        lemma_row_reads_back(tail);
        assert(written.skip(1) =~= tail.map_values(|f: Seq<char>| escaped(f)));
        let rest = if fields.len() == 1 {
            seq![]
        } else {
            seq![','] + csv(tail)
        };
        assert(csv(fields) =~= escaped(fields[0]) + rest);
        lemma_field_reads_back(fields[0], rest);
        if fields.len() > 1 {
            assert(rest.skip(1) =~= csv(tail));
            assert(read_row(rest.skip(1), tail.len()) == tail);
        } else {
            assert(tail =~= seq![]);
            assert(read_row(rest.skip(1), 0) =~= tail);
        }
        assert(tail.len() == (fields.len() - 1) as nat);
        assert(read_row(csv(fields), fields.len()) == seq![fields[0]] + tail);
        assert(seq![fields[0]] + tail =~= fields);
    }
}

/// What the chosen table is: an array of at least two objects with some key, nested in the
/// value where the path says, and all of its rows are those of the table.
pub proof fn lemma_chosen_is_table(value: Json)
    requires
        chosen(value) is Some,
    ensures
        leads(value, chosen(value)->0),
        is_table(at(value, chosen(value)->0)),
        largest_rows(value) is Some,
        (largest_rows(value)->0).len() == child_count(at(value, chosen(value)->0)),
{
    if !is_table(value) {
        lemma_below_is_table(value, child_count(value));
    }
}

/// What [`largest_below`] finds is a table.
pub proof fn lemma_below_is_table(value: Json, n: nat)
    requires
        largest_below(value, n) is Some,
        n <= child_count(value),
    ensures
        ({
            let place = largest_below(value, n)->0;
            &&& leads(value, place.path)
            &&& is_table(at(value, place.path))
            &&& place.size == child_count(at(value, place.path))
        }),
    decreases value, 0nat, n,
{
    let i = (n - 1) as nat;
    let part = child(value, n - 1);
    lemma_child_is_smaller(value, n - 1);
    if largest_below(value, i) is Some {
        lemma_below_is_table(value, i);
    }
    if largest(part) is Some {
        lemma_largest_is_table(part);
        let path = (largest(part)->0).path;
        assert((seq![i] + path).skip(1) =~= path);
    }
}

proof fn lemma_largest_is_table(value: Json)
    requires
        largest(value) is Some,
    ensures
        ({
            let place = largest(value)->0;
            &&& leads(value, place.path)
            &&& is_table(at(value, place.path))
            &&& place.size == child_count(at(value, place.path))
        }),
    decreases value, 1nat, 0nat,
{
    if largest_below(value, child_count(value)) is Some {
        lemma_below_is_table(value, child_count(value));
    }
}

/// No nested table has more rows than the chosen one, unless the value is a table itself.
pub proof fn lemma_chosen_is_largest(value: Json, path: Path)
    requires
        !is_table(value),
        leads(value, path),
        is_table(at(value, path)),
    ensures
        largest_rows(value) is Some,
        (largest_rows(value)->0).len() >= child_count(at(value, path)),
{
    assert(path.len() > 0);
    lemma_no_larger_below(value, child_count(value), path);
    lemma_below_is_table(value, child_count(value));
}

proof fn lemma_no_larger_below(value: Json, n: nat, path: Path)
    requires
        n <= child_count(value),
        path.len() > 0,
        path[0] < n,
        leads(value, path),
        is_table(at(value, path)),
    ensures
        largest_below(value, n) is Some,
        (largest_below(value, n)->0).size >= child_count(at(value, path)),
    decreases value, 0nat, n,
{
    let part = child(value, n - 1);
    lemma_child_is_smaller(value, n - 1);
    if path[0] < n - 1 {
        lemma_no_larger_below(value, (n - 1) as nat, path);
    } else {
        lemma_no_larger(part, path.skip(1));
    }
}

proof fn lemma_no_larger(value: Json, path: Path)
    requires
        leads(value, path),
        is_table(at(value, path)),
    ensures
        largest(value) is Some,
        (largest(value)->0).size >= child_count(at(value, path)),
    decreases value, 1nat, 0nat,
{
    if path.len() > 0 {
        lemma_no_larger_below(value, child_count(value), path);
    }
}

/// What stands around a nested table is kept: with the array put back where the marker
/// stands, the frame is the value.
pub proof fn lemma_frame_keeps_the_rest(value: Json, path: Path)
    requires
        leads(value, path),
    ensures
        at(frame(value, path), path) == Json::Text(markers::TABLE@),
        replaced(frame(value, path), path, at(value, path)) == value,
    decreases path.len(),
{
    if path.len() > 0 {
        let i = path[0] as int;
        let part = child(value, i);
        let rest = path.skip(1);
        let inner = frame(part, rest);
        lemma_frame_keeps_the_rest(part, rest);
        let framed = with_child(value, i, inner);
        assert(child(framed, i) == inner);
        match value {
            Json::Array(items) => {
                assert(items.update(i, inner).update(i, part) =~= items);
            },
            Json::Object(members) => {
                let changed = members.update(i, (members[i].0, inner));
                assert(changed.update(i, (changed[i].0, part)) =~= members);
            },
            _ => {},
        }
    }
}

/// Every key is written exactly once in the header, and every key of a row has a column.
pub proof fn lemma_columns_hold_every_key(rows: Seq<RowModel>)
    ensures
        columns(rows).no_duplicates(),
        forall|i: int, k: int|
            0 <= i < rows.len() && 0 <= k < rows[i].len() ==> columns(rows).contains(
                (#[trigger] rows[i][k]).0,
            ),
{
    model::lemma_distinct(all_keys(rows));
    assert forall|i: int, k: int| 0 <= i < rows.len() && 0 <= k < rows[i].len() implies columns(
        rows,
    ).contains((#[trigger] rows[i][k]).0) by {
        lemma_all_keys(rows, i, k);
        let key = rows[i][k].0;
        let all = all_keys(rows);
        let r = choose|r: int| 0 <= r < all.len() && all[r] == key;
        assert(model::distinct(all).contains(all[r]));
    }
}

proof fn lemma_all_keys(rows: Seq<RowModel>, i: int, k: int)
    requires
        0 <= i < rows.len(),
        0 <= k < rows[i].len(),
    ensures
        all_keys(rows).contains(rows[i][k].0),
    decreases rows.len(),
{
    let init = rows.drop_last();
    let before = all_keys(init);
    let all = all_keys(rows);
    if i == init.len() {
        assert(keys(rows.last())[k] == rows[i][k].0);
        assert(all[before.len() + k] == rows[i][k].0);
    } else {
        lemma_all_keys(init, i, k);
        assert(init[i] == rows[i]);
        let r = choose|r: int| 0 <= r < before.len() && before[r] == rows[i][k].0;
        assert(all[r] == rows[i][k].0);
    }
}

} // verus!
