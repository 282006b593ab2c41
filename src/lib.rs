//! Suffix arrays over byte sequences: several construction strategies that all
//! produce the same sorted index list, and a prefix range search over it.
use vstd::prelude::*;

mod bits;
pub mod builders;
mod cursors;
pub mod laws;
pub mod modes;
pub mod order;
pub mod sais;
pub mod search;
pub mod simple;
pub mod two_stage;

pub use modes::{IndexMode, StrIndex};
use order::{lex_lt, suffix};

verus! {

/// Every listed position is in range and accepted by the mode.
pub open spec fn all_accepted<M: IndexMode>(s: Seq<u8>, mode: M, idx: Seq<usize>) -> bool {
    forall|k: int|
        0 <= k < idx.len() ==> #[trigger] idx[k] < s.len() && mode.accepts(
            idx[k] as int,
            s[idx[k] as int],
        )
}

/// Every accepted position of `s` is listed.
pub open spec fn lists_every_accepted<M: IndexMode>(
    s: Seq<u8>,
    mode: M,
    idx: Seq<usize>,
) -> bool {
    forall|p: int| 0 <= p < s.len() && #[trigger] mode.accepts(p, s[p]) ==> idx.contains(p as usize)
}

/// The listed suffixes are in strictly increasing lexicographic order.
pub open spec fn sorted_by_suffix(s: Seq<u8>, idx: Seq<usize>) -> bool {
    forall|i: int, j: int|
        0 <= i < j < idx.len() ==> #[trigger] lex_lt(
            suffix(s, idx[i] as int),
            suffix(s, idx[j] as int),
        )
}

/// `idx` is the suffix array of `s` under `mode`: the accepted positions,
/// ordered by their suffixes.
pub open spec fn is_suffix_array<M: IndexMode>(s: Seq<u8>, mode: M, idx: Seq<usize>) -> bool {
    &&& all_accepted(s, mode, idx)
    &&& lists_every_accepted(s, mode, idx)
    &&& sorted_by_suffix(s, idx)
}

/// A suffix array: the source bytes, the sorted index list, and the mode that
/// chose the listed positions. It is built once and never changed.
pub struct SuffixArray<M = ()> {
    values: Vec<u8>,
    indices: Vec<usize>,
    mode: M,
}

impl<M: IndexMode> SuffixArray<M> {
    /// The source sequence.
    pub closed spec fn source(&self) -> Seq<u8> {
        self.values@
    }

    /// The sorted index list.
    pub closed spec fn index_list(&self) -> Seq<usize> {
        self.indices@
    }

    /// The mode used to build the array.
    pub closed spec fn mode_of(&self) -> M {
        self.mode
    }

    /// The index list is the suffix array of the source under the mode.
    pub open spec fn wf(&self) -> bool {
        is_suffix_array(self.source(), self.mode_of(), self.index_list())
    }

    pub(crate) fn from_parts(values: Vec<u8>, indices: Vec<usize>, mode: M) -> (r: Self)
        requires
            is_suffix_array(values@, mode, indices@),
        ensures
            r.source() == values@,
            r.index_list() == indices@,
            r.mode_of() == mode,
            r.wf(),
    {
        SuffixArray { values, indices, mode }
    }

    /// Get a reference to the suffix array's mode.
    pub fn mode(&self) -> (r: &M)
        ensures
            *r == self.mode_of(),
    {
        &self.mode
    }

    /// Get a reference to the suffix array's indices.
    pub fn indices(&self) -> (r: &[usize])
        ensures
            r@ == self.index_list(),
    {
        self.indices.as_slice()
    }

    /// Get a reference to the suffix array's values.
    pub fn values(&self) -> (r: &Vec<u8>)
        ensures
            r@ == self.source(),
    {
        &self.values
    }
}

} // verus!
