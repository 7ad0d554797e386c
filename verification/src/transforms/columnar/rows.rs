//! Splitting lines into rows.
use vstd::prelude::*;
use vstd::slice::slice_subrange;
use crate::chars;
use crate::transforms::columnar::model;
use crate::transforms::columnar::model::{Delim, RowModel};

verus! {

/// A row as parts of its line.
pub struct Row<'a> {
    pub fields: Vec<&'a [char]>,
    pub tail: &'a [char],
}

impl<'a> View for Row<'a> {
    type V = RowModel;

    open spec fn view(&self) -> RowModel {
        (chars::views(self.fields@), self.tail@)
    }
}

/// The models of the rows.
pub open spec fn models(rows: Seq<Row<'_>>) -> Seq<RowModel> {
    rows.map_values(|r: Row<'_>| r@)
}

/// Whether `c` can be told apart from whitespace and from every code.
pub fn is_usable(c: char) -> (r: bool)
    ensures
        r == model::usable(c),
{
    !chars::is_whitespace(c) && !('A' <= c && c <= 'Z') && !('a' <= c && c <= 'z') && !('0' <= c
        && c <= '9')
}

/// The first `n` whitespace-separated fields of `line` and its tail.
fn take_fixed<'a>(line: &'a [char], n: usize, ends: bool) -> (r: Option<Row<'a>>)
    ensures
        match r {
            Some(row) => model::fixed_fields(line@, n as nat, ends) == Some(row@),
            None => model::fixed_fields(line@, n as nat, ends) is None,
        },
{
    let mut fields: Vec<&'a [char]> = Vec::new();
    let mut rest: &'a [char] = line;
    let mut i: usize = 0;
    let ghost whole = model::fixed_fields(line@, n as nat, ends);
    proof {
        assert forall|p: RowModel| whole == Some(p) implies whole == Some(
            (#[trigger] chars::views(fields@) + p.0, p.1),
        ) by {
            assert(chars::views(fields@) + p.0 =~= p.0);
        }
    }
    while i < n
        invariant
            i <= n,
            whole == model::fixed_fields(line@, n as nat, ends),
            whole == match model::fixed_fields(rest@, (n - i) as nat, ends) {
                Some((fs, tail)) => Some((chars::views(fields@) + fs, tail)),
                None => None,
            },
        decreases n - i,
    {
        let ghost before = fields@;
        let ghost old_rest = rest@;
        let t = chars::trimmed_start(rest);
        let k = chars::index_of_white(t);
        if k == t.len() {
            if ends && n - i == 1 && k > 0 {
                fields.push(t);
                let tail = slice_subrange(t, k, k);
                proof {
                    assert(tail@ =~= Seq::<char>::empty());
                    assert(chars::views(fields@) =~= chars::views(before) + seq![t@]);
                }
                return Some(Row { fields, tail });
            }
            return None;
        }
        fields.push(slice_subrange(t, 0, k));
        rest = slice_subrange(t, k, t.len());
        i = i + 1;
        proof {
            assert(rest@ =~= t@.skip(k as int));
            assert(chars::views(fields@) =~= chars::views(before).push(t@.take(k as int)));
            match model::fixed_fields(rest@, (n - i) as nat, ends) {
                Some((fs, tail)) => {
                    assert(chars::views(before) + (seq![t@.take(k as int)] + fs) =~= chars::views(
                        fields@,
                    ) + fs);
                },
                None => {},
            }
        }
    }
    let tail = chars::trimmed_start(rest);
    proof {
        assert(chars::views(fields@) + Seq::<Seq<char>>::empty() =~= chars::views(fields@));
    }
    Some(Row { fields, tail })
}

/// The first `n` fields of `line`, each with a `c` behind it, and its tail.
fn take_delimited<'a>(line: &'a [char], n: usize, c: char) -> (r: Option<Row<'a>>)
    ensures
        match r {
            Some(row) => model::delimited_fields(line@, n as nat, c) == Some(row@),
            None => model::delimited_fields(line@, n as nat, c) is None,
        },
{
    let mut fields: Vec<&'a [char]> = Vec::new();
    let mut rest: &'a [char] = line;
    let mut i: usize = 0;
    let ghost whole = model::delimited_fields(line@, n as nat, c);
    proof {
        assert forall|p: RowModel| whole == Some(p) implies whole == Some(
            (#[trigger] chars::views(fields@) + p.0, p.1),
        ) by {
            assert(chars::views(fields@) + p.0 =~= p.0);
        }
    }
    while i < n
        invariant
            i <= n,
            whole == model::delimited_fields(line@, n as nat, c),
            whole == match model::delimited_fields(rest@, (n - i) as nat, c) {
                Some((fs, tail)) => Some((chars::views(fields@) + fs, tail)),
                None => None,
            },
        decreases n - i,
    {
        let ghost before = fields@;
        let ghost old_rest = rest@;
        let k = chars::index_of(rest, c);
        if k == rest.len() {
            return None;
        }
        fields.push(slice_subrange(rest, 0, k));
        rest = slice_subrange(rest, k + 1, rest.len());
        i = i + 1;
        proof {
            assert(rest@ =~= old_rest.skip(k as int + 1));
            assert(chars::views(fields@) =~= chars::views(before).push(old_rest.take(k as int)));
            match model::delimited_fields(rest@, (n - i) as nat, c) {
                Some((fs, tail)) => {
                    assert(chars::views(before) + (seq![old_rest.take(k as int)] + fs)
                        =~= chars::views(fields@) + fs);
                },
                None => {},
            }
        }
    }
    proof {
        assert(chars::views(fields@) + Seq::<Seq<char>>::empty() =~= chars::views(fields@));
    }
    Some(Row { fields, tail: rest })
}

/// The first `n` fields of `line`, and its tail.
pub fn take_row<'a>(line: &'a [char], n: usize, delim: Delim, ends: bool) -> (r: Option<Row<'a>>)
    ensures
        match r {
            Some(row) => model::cut(line@, n as nat, delim, ends) == Some(row@),
            None => model::cut(line@, n as nat, delim, ends) is None,
        },
{
    match delim {
        Delim::Whitespace => take_fixed(line, n, ends),
        Delim::Char(c) => take_delimited(line, n, c),
    }
}

} // verus!
