//! Tables of JSON arrays of objects.
use vstd::prelude::*;
use crate::chars;
use crate::json;
use crate::json::Json;
use crate::laws::characters;
use crate::lines;
use crate::transforms;
use crate::transforms::columnar::model;
use crate::transforms::tabular;
use crate::transforms::tabular::{Cell, Path, RowModel};

verus! {

// ---- cells ----

/// A cell is the JSON literal of a boolean, a number as it is written, a text as it is, and
/// nothing of null. An array or an object is written as JSON.
pub proof fn lemma_cells_of_json(b: bool, text: Seq<char>, items: Seq<Json>, members: Seq<
    (Seq<char>, Json),
>)
    ensures
        tabular::cell_text(Json::Bool(true)) == "true"@,
        tabular::cell_text(Json::Bool(false)) == "false"@,
        tabular::cell_text(Json::Bool(b)) != tabular::cell_text(Json::Bool(!b)),
        tabular::cell_text(Json::Null) == Seq::<char>::empty(),
        tabular::cell_text(Json::Number(text)) == text,
        tabular::cell_text(Json::Text(text)) == text,
        tabular::cell_text(Json::Array(items)) == json::written(Json::Array(items)),
        tabular::cell_text(Json::Object(members)) == json::written(Json::Object(members)),
{
    reveal_strlit("true");
    reveal_strlit("false");
    assert("true"@.len() != "false"@.len());
}

/// What stands in the table of a cell: the literal of a boolean, nothing of null, and the
/// text of any other.
pub proof fn lemma_cells_are_shown(cell: Cell)
    ensures
        match cell {
            Cell::Null => cell.text() == Seq::<char>::empty(),
            Cell::Bool(b) => cell.text() == if b {
                "true"@
            } else {
                "false"@
            },
            Cell::Number(s) => cell.text() == s@,
            Cell::Text(s) => cell.text() == s@,
            Cell::Nested(s) => cell.text() == s@,
        },
{
}

/// A row has the keys of its object, in order, each with the cell of its value.
pub proof fn lemma_rows_of_json(items: Seq<Json>, members: Seq<(Seq<char>, Json)>)
    ensures
        tabular::row_of(Json::Object(members)).len() == members.len(),
        forall|k: int|
            0 <= k < members.len() ==> #[trigger] tabular::row_of(Json::Object(members))[k] == (
                members[k].0,
                tabular::cell_text(members[k].1),
            ),
        (forall|i: int| 0 <= i < items.len() ==> #[trigger] items[i] is Object)
            ==> tabular::rows_of(Json::Array(items)) is Some && (tabular::rows_of(
            Json::Array(items),
        )->0).len() == items.len() && forall|i: int|
            0 <= i < items.len() ==> #[trigger] (tabular::rows_of(Json::Array(items))->0)[i]
                == tabular::row_of(items[i]),
{
}

/// The rows of a table are its rows of cells, each cell under its key.
pub proof fn lemma_cells_are_rows(rows: Seq<Vec<(String, Cell)>>)
    ensures
        tabular::row_models(rows).len() == rows.len(),
        forall|i: int|
            0 <= i < rows.len() ==> (#[trigger] tabular::row_models(rows)[i]).len()
                == rows[i]@.len(),
        forall|i: int, k: int|
            0 <= i < rows.len() && 0 <= k < rows[i]@.len()
                ==> #[trigger] tabular::row_models(rows)[i][k] == (
                rows[i]@[k].0@,
                rows[i]@[k].1.text(),
            ),
{
}

// ---- fields ----

/// A field stays as it is, unless it holds a comma, a quote, a line feed or a carriage
/// return: then it stands in quotes, and each quote in it is written twice.
pub proof fn lemma_fields_are_quoted(field: Seq<char>, a: Seq<char>, b: Seq<char>)
    requires
        forall|j: int| 0 <= j < a.len() ==> #[trigger] a[j] != '"',
    ensures
        tabular::escaped(field) == if exists|j: int|
            #![trigger field[j]]
            0 <= j < field.len() && (field[j] == ',' || field[j] == '"' || field[j] == '\n'
                || field[j] == '\r') {
            seq!['"'] + tabular::doubled(field) + seq!['"']
        } else {
            field
        },
        tabular::doubled(a) == a,
        tabular::doubled(a + seq!['"'] + b) == a + seq!['"', '"'] + tabular::doubled(b),
{
    if tabular::needs_quotes(field) {
        let j = choose|j: int| 0 <= j < field.len() && tabular::special(#[trigger] field[j]);
        assert(tabular::special(field[j]));
    }
    if exists|j: int|
        #![trigger field[j]]
        0 <= j < field.len() && (field[j] == ',' || field[j] == '"' || field[j] == '\n' || field[j]
            == '\r') {
        let j = choose|j: int|
            #![trigger field[j]]
            0 <= j < field.len() && (field[j] == ',' || field[j] == '"' || field[j] == '\n'
                || field[j] == '\r');
        assert(tabular::special(field[j]));
    }
    lemma_doubled_plain(a);
    lemma_doubled_add(a + seq!['"'], b);
    let q = a + seq!['"'];
    assert(q.drop_last() =~= a);
    assert(tabular::doubled(q) =~= a + seq!['"', '"']);
}

proof fn lemma_doubled_plain(a: Seq<char>)
    requires
        forall|j: int| 0 <= j < a.len() ==> #[trigger] a[j] != '"',
    ensures
        tabular::doubled(a) == a,
    decreases a.len(),
{
    if a.len() > 0 {
        let init = a.drop_last();
        assert forall|j: int| 0 <= j < init.len() implies #[trigger] init[j] != '"' by {
            assert(init[j] == a[j]);
        }
        lemma_doubled_plain(init);
        assert(a[a.len() - 1] != '"');
        assert(init.push(a.last()) =~= a);
    } else {
        assert(tabular::doubled(a) =~= a);
    }
}

proof fn lemma_doubled_add(a: Seq<char>, b: Seq<char>)
    ensures
        tabular::doubled(a + b) == tabular::doubled(a) + tabular::doubled(b),
    decreases b.len(),
{
    if b.len() == 0 {
        assert(a + b =~= a);
        assert(tabular::doubled(a) + tabular::doubled(b) =~= tabular::doubled(a));
    } else {
        lemma_doubled_add(a, b.drop_last());
        assert((a + b).drop_last() =~= a + b.drop_last());
        assert((a + b).last() == b.last());
        assert(tabular::doubled(a + b) =~= tabular::doubled(a) + tabular::doubled(b));
    }
}

/// A row is written as its fields, with a comma between each two.
pub proof fn lemma_rows_are_written(fields: Seq<Seq<char>>)
    ensures
        tabular::csv(fields) == lines::join(
            Seq::new(fields.len(), |i: int| tabular::escaped(fields[i])),
            seq![','],
        ),
{
    assert(fields.map_values(|f: Seq<char>| tabular::escaped(f)) =~= Seq::new(
        fields.len(),
        |i: int| tabular::escaped(fields[i]),
    ));
}

// ---- columns ----

/// The columns are the keys of the rows, each once, in the order in which they are first
/// seen.
pub proof fn lemma_columns_are_the_keys(rows: Seq<RowModel>, row: RowModel, key: Seq<char>)
    ensures
        tabular::columns(rows).no_duplicates(),
        tabular::columns(rows).contains(key) <==> exists|i: int, k: int|
            0 <= i < rows.len() && 0 <= k < rows[i].len() && (#[trigger] rows[i][k]).0 == key,
        tabular::columns(rows).is_prefix_of(tabular::columns(rows.push(row))),
        tabular::columns(seq![]) == Seq::<Seq<char>>::empty(),
        tabular::columns(seq![row]) == model::distinct(Seq::new(row.len(), |k: int| row[k].0)),
        tabular::columns(rows) == model::distinct(tabular::all_keys(rows)),
        tabular::all_keys(rows.push(row)) == tabular::all_keys(rows) + Seq::new(
            row.len(),
            |k: int| row[k].0,
        ),
{
    let all = tabular::all_keys(rows);
    tabular::lemma_columns_hold_every_key(rows);
    model::lemma_distinct(all);
    if tabular::columns(rows).contains(key) {
        let d = tabular::columns(rows);
        let k = choose|k: int| 0 <= k < d.len() && d[k] == key;
        assert(all.contains(d[k]));
        lemma_key_of_a_row(rows, key);
    }
    let more = rows.push(row);
    let own = Seq::new(row.len(), |k: int| row[k].0);
    assert(tabular::keys(row) =~= own);
    assert(seq![row].drop_last() =~= seq![]);
    assert(tabular::all_keys(seq![row].drop_last()) =~= seq![]);
    assert(tabular::all_keys(seq![row]) =~= own);
    assert(more.drop_last() =~= rows);
    assert(tabular::all_keys(more) == all + tabular::keys(row));
    lemma_distinct_prefix(all, tabular::keys(row));
}

proof fn lemma_distinct_prefix(a: Seq<Seq<char>>, b: Seq<Seq<char>>)
    ensures
        model::distinct(a).is_prefix_of(model::distinct(a + b)),
    decreases b.len(),
{
    let d = model::distinct(a);
    if b.len() == 0 {
        assert(a + b =~= a);
        assert(d =~= d.subrange(0, d.len() as int));
    } else {
        lemma_distinct_prefix(a, b.drop_last());
        assert((a + b).drop_last() =~= a + b.drop_last());
        let e = model::distinct(a + b.drop_last());
        let f = model::distinct(a + b);
        assert(f.subrange(0, d.len() as int) =~= e.subrange(0, d.len() as int));
    }
}

proof fn lemma_key_of_a_row(rows: Seq<RowModel>, key: Seq<char>)
    requires
        tabular::all_keys(rows).contains(key),
    ensures
        exists|i: int, k: int|
            0 <= i < rows.len() && 0 <= k < rows[i].len() && (#[trigger] rows[i][k]).0 == key,
    decreases rows.len(),
{
    if rows.len() > 0 {
        let init = rows.drop_last();
        let before = tabular::all_keys(init);
        let all = tabular::all_keys(rows);
        let r = choose|r: int| 0 <= r < all.len() && all[r] == key;
        if r < before.len() {
            assert(before[r] == key);
            lemma_key_of_a_row(init, key);
            let (i, k) = choose|i: int, k: int|
                0 <= i < init.len() && 0 <= k < init[i].len() && (#[trigger] init[i][k]).0 == key;
            assert(rows[i][k].0 == key);
        } else {
            let k = r - before.len();
            assert(tabular::keys(rows.last())[k] == key);
            assert(rows[rows.len() - 1][k].0 == key);
        }
    }
}

/// The cell of a row in a column is that of its first member with the key, and empty where
/// it has none.
pub proof fn lemma_cell_of_a_column(row: RowModel, k: int, key: Seq<char>)
    requires
        0 <= k <= row.len(),
        forall|j: int| 0 <= j < k ==> (#[trigger] row[j]).0 != key,
        k < row.len() ==> row[k].0 == key,
    ensures
        tabular::cell_at(row, key) == if k < row.len() {
            row[k].1
        } else {
            seq![]
        },
    decreases k,
{
    if k > 0 {
        let rest = row.skip(1);
        assert(row[0].0 != key);
        assert forall|j: int| 0 <= j < k - 1 implies (#[trigger] rest[j]).0 != key by {
            assert(rest[j] == row[j + 1]);
        }
        lemma_cell_of_a_column(rest, k - 1, key);
    }
}

// ---- the table ----

/// The table is the number of rows behind the marker, the header row, and a row for each
/// object with the cell of every column, each on a line of its own.
pub proof fn lemma_table_text(rows: Seq<RowModel>, note: Seq<char>)
    ensures
        ({
            let columns = tabular::columns(rows);
            let all = tabular::table_lines(rows, note);
            &&& all.len() == rows.len() + 2
            &&& all[0] == "@crush/1.table "@ + chars::decimal(rows.len()) + " rows"@ + note
            &&& all[1] == tabular::csv(columns)
            &&& forall|i: int|
                0 <= i < rows.len() ==> #[trigger] all[i + 2] == tabular::csv(
                    Seq::new(columns.len(), |j: int| tabular::cell_at(rows[i], columns[j])),
                )
            &&& tabular::table_of(rows) == if rows.len() >= 2 && columns.len() > 0 {
                Some(lines::join(tabular::table_lines(rows, seq![]), seq!['\n']))
            } else {
                None
            }
        }),
{
    reveal_strlit("@crush/1.table ");
    reveal_strlit("@crush/1.table");
    let columns = tabular::columns(rows);
    let all = tabular::table_lines(rows, note);
    assert("@crush/1.table"@ + seq![' '] =~= "@crush/1.table "@);
    assert forall|i: int| 0 <= i < rows.len() implies #[trigger] all[i + 2] == tabular::csv(
        Seq::new(columns.len(), |j: int| tabular::cell_at(rows[i], columns[j])),
    ) by {
        assert(tabular::cells(rows[i], columns) =~= Seq::new(
            columns.len(),
            |j: int| tabular::cell_at(rows[i], columns[j]),
        ));
    }
}

/// Every value is in the table: the line of an object, read field by field, has in the
/// column of each key the cell of its value, and nothing in the columns of keys that it
/// does not have.
pub proof fn lemma_table_holds_every_value(items: Seq<Json>, i: int, j: int)
    requires
        tabular::is_table(Json::Array(items)),
        0 <= i < items.len(),
        0 <= j < tabular::columns(tabular::rows_of(Json::Array(items))->0).len(),
    ensures
        ({
            let rows = tabular::rows_of(Json::Array(items))->0;
            let columns = tabular::columns(rows);
            let all = tabular::table_lines(rows, seq![]);
            let fields = tabular::read_row(all[i + 2], columns.len());
            &&& tabular::folded(Json::Array(items)) == Some(lines::join(all, seq!['\n']))
            &&& tabular::read_row(all[1], columns.len()) == columns
            &&& fields.len() == columns.len()
            &&& fields[j] == match json::lookup(items[i]->Object_0, columns[j]) {
                Some(value) => tabular::cell_text(value),
                None => seq![],
            }
        }),
{
    let value = Json::Array(items);
    let rows = tabular::rows_of(value)->0;
    let columns = tabular::columns(rows);
    let all = tabular::table_lines(rows, seq![]);
    lemma_table_text(rows, seq![]);
    assert(tabular::chosen(value) == Some(Seq::<nat>::empty()));
    assert(tabular::place_note(value, Seq::empty()) =~= Seq::<char>::empty());
    tabular::lemma_row_reads_back(columns);
    let fields = Seq::new(columns.len(), |j: int| tabular::cell_at(rows[i], columns[j]));
    assert(all[i + 2] == tabular::csv(fields));
    tabular::lemma_row_reads_back(fields);
    lemma_lookup_is_cell(items[i]->Object_0, columns[j]);
    assert(rows[i] == tabular::row_of(items[i]));
    assert(items[i] is Object);
}

proof fn lemma_lookup_is_cell(members: Seq<(Seq<char>, Json)>, key: Seq<char>)
    ensures
        tabular::cell_at(tabular::row_of(Json::Object(members)), key) == match json::lookup(
            members,
            key,
        ) {
            Some(value) => tabular::cell_text(value),
            None => seq![],
        },
    decreases members.len(),
{
    let row = tabular::row_of(Json::Object(members));
    if members.len() > 0 {
        lemma_lookup_is_cell(members.skip(1), key);
        assert(row.skip(1) =~= tabular::row_of(Json::Object(members.skip(1))));
        assert(row[0] == (members[0].0, tabular::cell_text(members[0].1)));
    }
}

// ---- where the table is ----

/// A table is an array of at least two objects, one of which has a key.
pub proof fn lemma_tables(value: Json)
    ensures
        tabular::is_table(value) <==> value is Array && value->Array_0.len() >= 2 && (forall|i: int|
            0 <= i < value->Array_0.len() ==> #[trigger] value->Array_0[i] is Object) && exists|
            i: int,
        |
            0 <= i < value->Array_0.len() && (#[trigger] value->Array_0[i])->Object_0.len() > 0,
        tabular::is_table(value) ==> tabular::chosen(value) == Some(Seq::<nat>::empty()),
{
}

/// What is nested in an array are its items, and in an object the values of its members.
/// Replacing one of them leaves all others, and the keys, as they are.
pub proof fn lemma_nested_values(
    items: Seq<Json>,
    members: Seq<(Seq<char>, Json)>,
    i: nat,
    path: Path,
    x: Json,
)
    ensures
        tabular::at(Json::Array(items), Seq::empty()) == Json::Array(items),
        tabular::at(Json::Array(items), seq![i] + path) == tabular::at(items[i as int], path),
        tabular::at(Json::Object(members), seq![i] + path) == tabular::at(
            members[i as int].1,
            path,
        ),
        tabular::leads(Json::Array(items), Seq::empty()),
        tabular::leads(Json::Array(items), seq![i] + path) <==> i < items.len() && tabular::leads(
            items[i as int],
            path,
        ),
        tabular::leads(Json::Object(members), seq![i] + path) <==> i < members.len()
            && tabular::leads(members[i as int].1, path),
        tabular::child_count(Json::Array(items)) == items.len(),
        tabular::replaced(Json::Array(items), Seq::empty(), x) == x,
        i < items.len() ==> tabular::replaced(Json::Array(items), seq![i] + path, x)
            == Json::Array(
            items.update(i as int, tabular::replaced(items[i as int], path, x)),
        ),
        i < members.len() ==> tabular::replaced(Json::Object(members), seq![i] + path, x)
            == Json::Object(
            members.update(
                i as int,
                (members[i as int].0, tabular::replaced(members[i as int].1, path, x)),
            ),
        ),
{
    assert((seq![i] + path).skip(1) =~= path);
}

/// Of several nested tables with the most rows, the first one is taken: none that has as
/// many rows begins before it.
pub proof fn lemma_first_of_the_largest(value: Json, path: Path)
    requires
        !tabular::is_table(value),
        tabular::leads(value, path),
        tabular::is_table(tabular::at(value, path)),
    ensures
        tabular::chosen(value) is Some,
        ({
            let chosen = tabular::chosen(value)->0;
            let most = tabular::child_count(tabular::at(value, chosen));
            let size = tabular::child_count(tabular::at(value, path));
            &&& size <= most
            &&& size == most ==> !before(path, chosen)
        }),
{
    assert(path.len() > 0);
    lemma_first_below(value, tabular::child_count(value), path);
    tabular::lemma_chosen_is_table(value);
    lemma_place_size(value);
}

/// The nested value at one path begins before that at another.
pub open spec fn before(a: Path, b: Path) -> bool
    decreases a.len(),
{
    if b.len() == 0 {
        false
    } else if a.len() == 0 {
        true
    } else if a[0] != b[0] {
        a[0] < b[0]
    } else {
        before(a.skip(1), b.skip(1))
    }
}

proof fn lemma_place_size(value: Json)
    requires
        !tabular::is_table(value),
        tabular::chosen(value) is Some,
    ensures
        tabular::chosen(value)->0 == (tabular::largest_below(
            value,
            tabular::child_count(value),
        )->0).path,
        (tabular::largest_below(value, tabular::child_count(value))->0).size
            == tabular::child_count(tabular::at(value, tabular::chosen(value)->0)),
{
    tabular::lemma_below_is_table(value, tabular::child_count(value));
}

proof fn lemma_first_below(value: Json, n: nat, path: Path)
    requires
        n <= tabular::child_count(value),
        path.len() > 0,
        path[0] < n,
        tabular::leads(value, path),
        tabular::is_table(tabular::at(value, path)),
    ensures
        tabular::largest_below(value, n) is Some,
        ({
            let best = tabular::largest_below(value, n)->0;
            let size = tabular::child_count(tabular::at(value, path));
            &&& best.path.len() > 0
            &&& best.path[0] < n
            &&& size <= best.size
            &&& size == best.size ==> !before(path, best.path)
        }),
    decreases value, 0nat, n,
{
    let i = (n - 1) as nat;
    let part = tabular::child(value, n - 1);
    tabular::lemma_child_is_smaller(value, n - 1);
    lemma_below_in_range(value, i);
    let inner = tabular::largest(part);
    if inner is Some {
        assert((seq![i] + (inner->0).path).skip(1) =~= (inner->0).path);
    }
    if path[0] < i {
        lemma_first_below(value, i, path);
    } else {
        lemma_first(part, path.skip(1));
    }
}

proof fn lemma_below_in_range(value: Json, n: nat)
    requires
        n <= tabular::child_count(value),
    ensures
        tabular::largest_below(value, n) is Some ==> (tabular::largest_below(
            value,
            n,
        )->0).path.len() > 0 && (tabular::largest_below(value, n)->0).path[0] < n,
    decreases n,
{
    if n > 0 {
        lemma_below_in_range(value, (n - 1) as nat);
    }
}

proof fn lemma_first(value: Json, path: Path)
    requires
        tabular::leads(value, path),
        tabular::is_table(tabular::at(value, path)),
    ensures
        tabular::largest(value) is Some,
        ({
            let best = tabular::largest(value)->0;
            let size = tabular::child_count(tabular::at(value, path));
            &&& size <= best.size
            &&& size == best.size ==> !before(path, best.path)
        }),
    decreases value, 1nat, 0nat,
{
    if path.len() > 0 {
        lemma_first_below(value, tabular::child_count(value), path);
    }
}

/// A nested table is written like any other, and its title says what stands around it: the
/// JSON text of the whole value, with the table's marker in the place of the array.
pub proof fn lemma_nested_table_text(value: Json)
    ensures
        ({
            let path = tabular::chosen(value)->0;
            let rows = tabular::rows_of(tabular::at(value, path))->0;
            let note = if path.len() == 0 {
                seq![]
            } else {
                " in "@ + json::written(
                    tabular::replaced(value, path, Json::Text("@crush/1.table"@)),
                )
            };
            tabular::folded(value) == if tabular::chosen(value) is Some {
                Some(lines::join(tabular::table_lines(rows, note), seq!['\n']))
            } else {
                None
            }
        }),
{
    if tabular::chosen(value) is Some {
        tabular::lemma_chosen_is_table(value);
    }
}

/// Whitespace around a JSON text makes no difference to its table.
pub proof fn lemma_margins_make_no_difference(a: Seq<char>, s: Seq<char>, b: Seq<char>)
    requires
        forall|j: int| 0 <= j < a.len() ==> chars::whitespace(#[trigger] a[j]),
        forall|j: int| 0 <= j < b.len() ==> chars::whitespace(#[trigger] b[j]),
        s.len() > 0 ==> !chars::whitespace(s[0]) && !chars::whitespace(s.last()),
    ensures
        transforms::table_of(a + s + b) == match json::parsed(s) {
            Some(value) => tabular::folded(value),
            None => None,
        },
{
    characters::lemma_trim_takes_the_margins(a, s, b);
}

} // verus!
