//! Versioned wire-format markers.
//!
//! The provenance header and the structured folds are tagged under the `@crush/1`
//! namespace, so that the format is versioned and one search for the namespace
//! finds text that has been compressed already.
use vstd::prelude::*;

verus! {

/// Version token of the provenance header: `[@crush/1 ...]`.
pub const VERSION: &'static str = "@crush/1";

/// Namespace prefix of every versioned marker.
pub const NS: &'static str = "@crush/";

/// Columnar schema header line.
pub const COLS: &'static str = "@crush/1.cols";

/// Columnar dictionary line.
pub const DICT: &'static str = "@crush/1.dict";

/// Tabular header line.
pub const TABLE: &'static str = "@crush/1.table";

/// Common-path-prefix line, in its versioned form. The text transforms write the plain
/// form, `@crush.prefix=`.
pub const PREFIX: &'static str = "@crush/1.prefix=";

/// Stem of the descriptor of an elided blob, in its versioned form. The text transforms
/// write the plain form, `[crush.blob N chars]`.
pub const BLOB: &'static str = "@crush/1.blob";

/// The characters of the markers that the columnar format is read by.
pub proof fn lemma_columnar_markers()
    ensures
        COLS@.len() == 13,
        DICT@.len() == 13,
        COLS@[9] == 'c',
        DICT@[9] == 'd',
        forall|i: int| 0 <= i < 13 ==> !crate::chars::whitespace(#[trigger] COLS@[i]),
        forall|i: int| 0 <= i < 13 ==> !crate::chars::whitespace(#[trigger] DICT@[i]),
        NS@.is_prefix_of(COLS@),
        NS@.is_prefix_of(DICT@),
{
    reveal_strlit("@crush/1.cols");
    reveal_strlit("@crush/1.dict");
    reveal_strlit("@crush/");
    assert(NS@ =~= COLS@.subrange(0, 7));
    assert(NS@ =~= DICT@.subrange(0, 7));
}

/// The characters of the other markers.
pub proof fn lemma_markers()
    ensures
        NS@.len() == 7,
        NS@.is_prefix_of(VERSION@),
        NS@.is_prefix_of(TABLE@),
        VERSION@ == seq!['@', 'c', 'r', 'u', 's', 'h', '/', '1'],
{
    reveal_strlit("@crush/1");
    reveal_strlit("@crush/1.table");
    reveal_strlit("@crush/");
    assert(NS@ =~= VERSION@.subrange(0, 7));
    assert(NS@ =~= TABLE@.subrange(0, 7));
    assert(VERSION@ =~= seq!['@', 'c', 'r', 'u', 's', 'h', '/', '1']);
}

} // verus!
