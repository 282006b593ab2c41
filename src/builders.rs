//! Construction strategies. Pick one and pass it to
//! [`SuffixArray::new_by`]; [`SuffixArray::new`] uses [`SAISBuilder`].
use vstd::prelude::*;

use crate::modes::IndexMode;
use crate::two_stage::UNRESOLVED;
use crate::SuffixArray;

verus! {

/// Builds a suffix array.
pub trait Builder<M: IndexMode> {
    /// Creates the suffix array of `values` under `mode`.
    fn build(values: Vec<u8>, mode: M) -> (r: SuffixArray<M>)
        requires
            values.len() < UNRESOLVED,
        ensures
            r.wf(),
            r.source() == values@,
            r.mode_of() == mode,
    ;
}

/// Sorts all accepted positions by direct comparison of their suffixes.
#[derive(Debug, Clone, Copy, Hash, PartialEq, Eq)]
pub struct NaiveBuilder;

impl<M: IndexMode> Builder<M> for NaiveBuilder {
    fn build(values: Vec<u8>, mode: M) -> (r: SuffixArray<M>) {
        SuffixArray::new_naive(values, mode)
    }
}

/// Sorts within buckets of equal first byte.
#[derive(Debug, Clone, Copy, Hash, PartialEq, Eq)]
pub struct BucketBuilder;

impl<M: IndexMode> Builder<M> for BucketBuilder {
    fn build(values: Vec<u8>, mode: M) -> (r: SuffixArray<M>) {
        SuffixArray::new_bucket(values, mode)
    }
}

/// One level of SA-IS, with the buckets in an ordered map.
#[derive(Debug, Clone, Copy, PartialEq, Eq, Hash)]
pub struct SAISBuilder;

impl<M: IndexMode> Builder<M> for SAISBuilder {
    fn build(values: Vec<u8>, mode: M) -> (r: SuffixArray<M>) {
        SuffixArray::new_sais(values, mode)
    }
}

/// One level of SA-IS, with the buckets in a table of 256.
#[derive(Debug, Clone, Copy, PartialEq, Eq, Hash)]
pub struct SAISBuilderU8;

impl<M: IndexMode> Builder<M> for SAISBuilderU8 {
    fn build(values: Vec<u8>, mode: M) -> (r: SuffixArray<M>) {
        SuffixArray::new_sais_u8(values, mode)
    }
}

impl<M: IndexMode + Default> SuffixArray<M> {
    /// Creates a new [`SuffixArray`] with the default mode, without selecting
    /// a [`Builder`].
    pub fn new(values: Vec<u8>) -> (r: Self)
        requires
            values.len() < UNRESOLVED,
        ensures
            r.wf(),
            r.source() == values@,
    {
        Self::new_by::<SAISBuilder>(values, M::default())
    }
}

impl<M: IndexMode> SuffixArray<M> {
    /// Creates a new [`SuffixArray`] with the algorithm that `B` selects.
    pub fn new_by<B: Builder<M>>(values: Vec<u8>, mode: M) -> (r: Self)
        requires
            values.len() < UNRESOLVED,
        ensures
            r.wf(),
            r.source() == values@,
            r.mode_of() == mode,
    {
        B::build(values, mode)
    }
}

} // verus!
