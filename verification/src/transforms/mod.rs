//! The transforms of tool output.
//!
//! A transform either gives a whole new text or does not apply. [`run_labeled`] takes the
//! first one that helps: the columnar fold of a tool that is recognised, else the table
//! of a JSON array of objects, nested ones among them, else the cleaned-up text.
use vstd::prelude::*;
use crate::chars;
use crate::json;

pub mod columnar;
pub mod schema;
pub mod tabular;
pub mod text;

verus! {

/// The table of a text, where it is the JSON text of one.
pub open spec fn table_of(output: Seq<char>) -> Option<Seq<char>> {
    match json::parsed(chars::trim(output)) {
        Some(value) => tabular::folded(value),
        None => None,
    }
}

/// The smallest of the candidates that have fewer than `size` bytes, and the first of
/// those where several are the smallest.
pub open spec fn smallest_of(candidates: Seq<Option<Seq<char>>>, size: nat) -> Option<Seq<char>>
    decreases candidates.len(),
{
    if candidates.len() == 0 {
        None
    } else {
        let best = smallest_of(candidates.drop_last(), size);
        match candidates.last() {
            Some(c) => if chars::byte_len(c) < match best {
                Some(b) => chars::byte_len(b),
                None => size,
            } {
                Some(c)
            } else {
                best
            },
            None => best,
        }
    }
}

/// The views of texts that may be missing.
pub open spec fn option_views(texts: Seq<Option<String>>) -> Seq<Option<Seq<char>>> {
    texts.map_values(|t: Option<String>| option_view(t))
}

/// The view of a text that may be missing.
pub open spec fn option_view(text: Option<String>) -> Option<Seq<char>> {
    match text {
        Some(t) => Some(t@),
        None => None,
    }
}

/// What the generic transforms make of a text, with the label: its table where it has
/// one that is smaller, else the cleaned-up text where that is smaller.
pub open spec fn generic_of(table: Option<Seq<char>>, output: Seq<char>) -> Option<
    (Seq<char>, Seq<char>),
> {
    if table is Some && chars::byte_len(table->0) < chars::byte_len(output) {
        Some((table->0, "tabular"@))
    } else if chars::byte_len(text::cleaned(output)) < chars::byte_len(output) {
        Some((text::cleaned(output), "text"@))
    } else {
        None
    }
}

/// What the transforms make of a tool call's output, with the label. `table` is the table
/// of the output, where it has one.
pub open spec fn picked(
    tool_name: Seq<char>,
    command: Seq<char>,
    output: Seq<char>,
    table: Option<Seq<char>>,
) -> Option<(Seq<char>, Seq<char>)> {
    match schema::tool_for(tool_name, command) {
        Some(tool) => match columnar::model::folded(output, schema::layout_of(tool)) {
            Some(body) => Some((body, schema::label_of(tool))),
            None => generic_of(table, output),
        },
        None => generic_of(table, output),
    }
}

/// A text and its label, as sequences.
pub open spec fn labeled_view(found: Option<(String, &'static str)>) -> Option<
    (Seq<char>, Seq<char>),
> {
    match found {
        Some((text, label)) => Some((text@, label@)),
        None => None,
    }
}

/// Whatever the transforms give is smaller than the output.
pub proof fn lemma_picked_shrinks(
    tool_name: Seq<char>,
    command: Seq<char>,
    output: Seq<char>,
    table: Option<Seq<char>>,
)
    ensures
        match picked(tool_name, command, output, table) {
            Some((body, _)) => chars::byte_len(body) < chars::byte_len(output),
            None => true,
        },
{
}

/// The smallest candidate is smaller than `size`, and no candidate is smaller than it.
pub proof fn lemma_smallest(candidates: Seq<Option<Seq<char>>>, size: nat)
    ensures
        match smallest_of(candidates, size) {
            Some(best) => {
                &&& chars::byte_len(best) < size
                &&& candidates.contains(Some(best))
                &&& forall|i: int|
                    0 <= i < candidates.len() && (#[trigger] candidates[i]) is Some
                        ==> chars::byte_len(best) <= chars::byte_len(candidates[i]->0)
            },
            None => forall|i: int|
                0 <= i < candidates.len() && (#[trigger] candidates[i]) is Some ==> size
                    <= chars::byte_len(candidates[i]->0),
        },
    decreases candidates.len(),
{
    if candidates.len() > 0 {
        let init = candidates.drop_last();
        lemma_smallest(init, size);
        assert forall|i: int| 0 <= i < candidates.len() - 1 implies init[i]
            == #[trigger] candidates[i] by {}
        match smallest_of(candidates, size) {
            Some(best) => {
                if candidates.last() == Some(best) {
                    assert(candidates[candidates.len() - 1] == Some(best));
                } else {
                    assert(init.contains(Some(best)));
                    let r = choose|r: int| 0 <= r < init.len() && init[r] == Some(best);
                    assert(candidates[r] == Some(best));
                }
            },
            None => {},
        }
    }
}

/// The smallest of the candidates that are smaller than `output`.
pub fn smallest(candidates: Vec<Option<String>>, output: &str) -> (r: Option<String>)
    ensures
        option_view(r) == smallest_of(option_views(candidates@), chars::byte_len(output@)),
{
    let ghost all = option_views(candidates@);
    let ghost size = chars::byte_len(output@);
    let mut limit: usize = chars::byte_length(output);
    let mut best: usize = candidates.len();
    let mut i: usize = 0;
    proof {
        assert(all.take(0) =~= seq![]);
    }
    while i < candidates.len()
        invariant
            i <= candidates@.len(),
            best == candidates@.len() || best < i,
            all == option_views(candidates@),
            size == chars::byte_len(output@),
            smallest_of(all.take(i as int), size) == if best < candidates@.len() {
                all[best as int]
            } else {
                None
            },
            limit == match smallest_of(all.take(i as int), size) {
                Some(b) => chars::byte_len(b),
                None => size,
            },
        decreases candidates@.len() - i,
    {
        proof {
            let upto = all.take(i as int + 1);
            assert(upto.drop_last() =~= all.take(i as int));
            assert(upto.last() == all[i as int]);
        }
        if let Some(candidate) = &candidates[i] {
            let bytes = chars::byte_length(candidate.as_str());
            if bytes < limit {
                limit = bytes;
                best = i;
            }
        }
        i = i + 1;
    }
    proof {
        assert(all.take(i as int) =~= all);
    }
    if best < candidates.len() {
        match &candidates[best] {
            Some(found) => Some(chars::owned(found.as_str())),
            None => None,
        }
    } else {
        None
    }
}

/// Runs every transform that needs no tool, and gives the smallest result that is
/// strictly smaller than the output; `None` where nothing helps.
#[must_use]
pub fn run(output: &str) -> (r: Option<String>)
    ensures
        option_view(r) == smallest_of(seq![table_of(output@)], chars::byte_len(output@)),
{
    let mut candidates: Vec<Option<String>> = Vec::new();
    candidates.push(tabular::fold(output));
    proof {
        assert(option_views(candidates@) =~= seq![table_of(output@)]);
    }
    smallest(candidates, output)
}

/// The generic transforms, with the table of the output where it has one.
pub fn generic(table: Option<String>, output: &str) -> (r: Option<(String, &'static str)>)
    ensures
        labeled_view(r) == generic_of(option_view(table), output@),
{
    let size = chars::byte_length(output);
    if let Some(body) = table {
        if chars::byte_length(body.as_str()) < size {
            return Some((body, "tabular"));
        }
    }
    let cleaned = text::clean(output);
    if chars::byte_length(cleaned.as_str()) < size {
        Some((cleaned, "text"))
    } else {
        None
    }
}

/// Runs the transforms in order of priority, and gives the first result that is smaller
/// than the output, with the label under which its savings are counted.
#[must_use]
pub fn run_labeled(tool_name: &str, command: &str, output: &str) -> (r: Option<
    (String, &'static str),
>)
    ensures
        labeled_view(r) == picked(tool_name@, command@, output@, table_of(output@)),
{
    if let Some(schema) = schema::schema_for(tool_name, command) {
        if let Some(body) = columnar::fold(output, &schema) {
            return Some((body, schema::label_for(tool_name, command)));
        }
    }
    generic(tabular::fold(output), output)
}

/// Restores a text that the columnar fold gave; `None` where it is none.
#[must_use]
pub fn unfold_columnar(folded: &str) -> (r: Option<String>)
    ensures
        option_view(r) == columnar::model::unfolded(folded@),
{
    columnar::unfold(folded)
}

} // verus!
