//! Columnar fold: the tool-aware compression engine.
//!
//! Columnar tool output (`ls -lah`, `ps aux`, a delimited `git log`) is dense with
//! waste: alignment padding, columns that are the same on every row, and columns
//! that repeat a handful of long values. Given a [`Schema`], [`fold`] writes the
//! block again as optional dictionary lines, one header line (with constant columns
//! factored out as `name=value`), and one compact line per row, which ends with the
//! free-text tail. Where a character separates the columns, the line before the header
//! declares it, as in `@crush/1.dict delim |`.
//!
//! [`unfold`] reads that form back. What it restores of a folded text is stated and
//! proved in [`lossless`].
use vstd::prelude::*;
use crate::chars;

pub mod folding;
pub mod lossless;
pub mod model;
pub mod rows;
pub mod unfolding;

pub use crate::transforms::columnar::model::{Delim, Schema};

verus! {

/// Folds columnar text per `schema`. `None` where the text does not have the shape of
/// the schema (a line short of columns, an empty line), has too few rows, has a carriage
/// return at a line end where it would be lost, or would not shrink.
#[must_use]
pub fn fold(text: &str, schema: &Schema) -> (r: Option<String>)
    ensures
        match r {
            Some(out) => model::folded(text@, schema@) == Some(out@),
            None => model::folded(text@, schema@) is None,
        },
{
    let cs = chars::to_chars(text);
    match folding::fold_slice(cs.as_slice(), schema) {
        Some(out) => Some(chars::to_text(out.as_slice())),
        None => None,
    }
}

/// The inverse of [`fold`]: restores the field values and the tails. `None` where
/// `text` is no folded block.
#[must_use]
pub fn unfold(text: &str) -> (r: Option<String>)
    ensures
        match r {
            Some(out) => model::unfolded(text@) == Some(out@),
            None => model::unfolded(text@) is None,
        },
{
    let cs = chars::to_chars(text);
    match unfolding::unfold_slice(cs.as_slice()) {
        Some(out) => Some(chars::to_text(out.as_slice())),
        None => None,
    }
}

/// The views of a row of texts.
pub open spec fn row_view(row: (Vec<String>, String)) -> model::RowModel {
    (row.0@.map_values(|s: String| s@), row.1@)
}

/// Splits a line into its first `n` whitespace-separated fields and the rest behind them.
/// `None` where a field has no whitespace behind it.
#[must_use]
pub fn split_fixed(line: &str, n: usize) -> (r: Option<(Vec<String>, String)>)
    ensures
        match r {
            Some(row) => model::fixed_fields(line@, n as nat, false) == Some(row_view(row)),
            None => model::fixed_fields(line@, n as nat, false) is None,
        },
{
    let given = chars::to_chars(line);
    let row = match rows::take_row(given.as_slice(), n, Delim::Whitespace, false) {
        Some(row) => row,
        None => {
            return None;
        },
    };
    let ghost parts = row@.0;
    let mut fields: Vec<String> = Vec::new();
    let mut i: usize = 0;
    while i < row.fields.len()
        invariant
            i <= row.fields@.len(),
            parts == chars::views(row.fields@),
            fields@.map_values(|s: String| s@) == parts.take(i as int),
        decreases row.fields@.len() - i,
    {
        let ghost before = fields@;
        let field = chars::to_text(row.fields[i]);
        fields.push(field);
        proof {
            assert(parts[i as int] == row.fields@[i as int]@);
            assert(fields@.map_values(|s: String| s@) =~= before.map_values(
                |s: String| s@,
            ).push(parts[i as int]));
            assert(parts.take(i as int + 1) =~= parts.take(i as int).push(parts[i as int]));
        }
        i = i + 1;
    }
    proof {
        assert(parts.take(i as int) =~= parts);
    }
    Some((fields, chars::to_text(row.tail)))
}

} // verus!
