//! The linear induced-sort builder: one level of SA-IS.
//!
//! Every position is classified L-type or S-type over the raw sequence, and
//! the leftmost S-type positions of each run (LMS positions) are noted. Each
//! bucket of equal first byte gets its L-region and S-region; the LMS
//! positions are set at the tail of their S-region, L-type positions are
//! induced in one pass from left to right, and S-type positions in one pass
//! from right to left. Positions that the mode rejects are dropped afterwards.
//!
//! Full SA-IS orders the LMS suffixes by a recursive reduction before the
//! two passes; set in the order they were found, they would leave the result
//! wrong whenever two LMS suffixes share a bucket out of order. Here the LMS
//! positions of each bucket are instead sorted by direct comparison of their
//! suffixes, after which the two passes are exact. As with the other induced
//! builder, the result is checked, and the accepted positions are sorted
//! directly should the check ever fail.
use std::collections::BTreeMap;
use vstd::prelude::*;

use crate::bits::{bits_get, bits_repeat, bits_set, type_bits, TypeBits, MAX_TYPE_BITS};
use crate::cursors::BucketCursors;
use crate::simple::{sort_indices, sorted_keys};
use crate::modes::IndexMode;
use crate::order::is_l_type;
use crate::two_stage::{
    decreasing_within, lemma_decreasing_distinct, lemma_push_decreasing, UNRESOLVED,
};
use crate::SuffixArray;

verus! {

broadcast use {vstd::laws_cmp::group_laws_cmp, vstd::std_specs::btree::group_btree_axioms};

/// The L/S type of every position of a non-empty `source`, as bits.
fn classify(source: &[u8]) -> (t: TypeBits)
    requires
        0 < source.len() <= MAX_TYPE_BITS,
    ensures
        type_bits(t) == Seq::new(source.len() as nat, |j: int| is_l_type(source@, j)),
{
    let n = source.len();
    let mut t = bits_repeat(false, n);
    bits_set(&mut t, n - 1, true);
    let mut i = n - 1;
    while i > 0
        invariant
            0 <= i < n == source.len(),
            type_bits(t).len() == n,
            forall|j: int| 0 <= j < n ==> type_bits(t)[j] == (j >= i && is_l_type(source@, j)),
        decreases i,
    {
        i = i - 1;
        let is_l = source[i] > source[i + 1] || (source[i] == source[i + 1] && bits_get(&t, i + 1));
        if is_l {
            bits_set(&mut t, i, true);
        }
    }
    assert(type_bits(t) =~= Seq::new(n as nat, |j: int| is_l_type(source@, j)));
    t
}

/// The type of the suffix at each position: `true` for L-type (greater than
/// the suffix that follows it, and the last one), `false` for S-type.
pub fn suffix_types(values: &[u8]) -> (r: Vec<bool>)
    requires
        values.len() <= MAX_TYPE_BITS,
    ensures
        r@ == Seq::new(values.len() as nat, |j: int| is_l_type(values@, j)),
{
    let n = values.len();
    let mut r: Vec<bool> = Vec::new();
    if n == 0 {
        assert(r@ =~= Seq::new(0, |j: int| is_l_type(values@, j)));
        return r;
    }
    let t = classify(values);
    for j in 0..n
        invariant
            n == values.len(),
            type_bits(t) == Seq::new(n as nat, |j: int| is_l_type(values@, j)),
            r@ == Seq::new(j as nat, |k: int| is_l_type(values@, k)),
    {
        r.push(bits_get(&t, j));
        assert(r@ =~= Seq::new((j + 1) as nat, |k: int| is_l_type(values@, k)));
    }
    r
}

impl<M: IndexMode> SuffixArray<M> {
    /// Pushes `count` unresolved slots.
    fn push_unresolved(indices: &mut Vec<usize>, count: usize)
        ensures
            final(indices)@.len() == old(indices)@.len() + count,
    {
        for _k in 0..count
            invariant
                indices@.len() == old(indices)@.len() + _k,
        {
            indices.push(UNRESOLVED);
        }
    }

    /// Forward pass: for each resolved entry `p`, places an L-type `p - 1`
    /// at the L-cursor of its bucket.
    fn sais_induce_l<C: BucketCursors>(
        values: &[u8],
        ltypes: &TypeBits,
        indices: &mut Vec<usize>,
        l_cursors: &mut C,
    )
        requires
            type_bits(*ltypes).len() == values.len(),
        ensures
            final(indices).len() == old(indices).len(),
    {
        let n = values.len();
        let len = indices.len();
        for i in 0..len
            invariant
                indices.len() == len,
                n == values.len(),
                type_bits(*ltypes).len() == n,
        {
            let ind = indices[i];
            if ind != 0 && ind <= n {
                let ind_i = ind - 1;
                if bits_get(ltypes, ind_i) {
                    let v = values[ind_i];
                    if let Some(h) = l_cursors.cursor(v) {
                        if h < len {
                            indices.set(h, ind_i);
                            l_cursors.set_cursor(v, h + 1);
                        }
                    }
                }
            }
        }
    }

    /// Backward pass: for each resolved entry `p` (L-type, or S-type already
    /// placed by this pass), places an S-type `p - 1` not placed yet at the
    /// S-cursor of its bucket, and marks it placed.
    fn sais_induce_s<C: BucketCursors>(
        values: &[u8],
        ltypes: &mut TypeBits,
        indices: &mut Vec<usize>,
        s_cursors: &mut C,
    )
        requires
            type_bits(*old(ltypes)).len() == values.len(),
        ensures
            final(indices).len() == old(indices).len(),
    {
        let n = values.len();
        let len = indices.len();
        let mut i = len;
        while i > 0
            invariant
                i <= len,
                indices.len() == len,
                n == values.len(),
                type_bits(*ltypes).len() == n,
            decreases i,
        {
            i = i - 1;
            let ind = indices[i];
            if ind != 0 && ind < n && bits_get(ltypes, ind) {
                let ind_i = ind - 1;
                if !bits_get(ltypes, ind_i) {
                    bits_set(ltypes, ind_i, true);
                    let v = values[ind_i];
                    if let Some(h) = s_cursors.cursor(v) {
                        if 0 < h && h <= len {
                            indices.set(h - 1, ind_i);
                            s_cursors.set_cursor(v, h - 1);
                        }
                    }
                }
            }
        }
    }

    /// Builds the suffix array by one level of SA-IS, with one bucket per byte
    /// value in a fixed table of 256.
    pub fn new_sais_u8(values: Vec<u8>, mode: M) -> (r: Self)
        requires
            values.len() < UNRESOLVED,
        ensures
            r.wf(),
            r.source() == values@,
            r.mode_of() == mode,
    {
        if values.len() == 0 {
            return Self::new_zero_sized(values, mode);
        }
        if values.len() > MAX_TYPE_BITS {
            return Self::new_naive(values, mode);
        }
        let indices = Self::induce_sais_u8(values.as_slice(), &mode);
        Self::finish(values, indices, mode)
    }

    /// The index list of one level of SA-IS with a table of 256 buckets.
    fn induce_sais_u8(source: &[u8], mode: &M) -> (indices: Vec<usize>)
        requires
            0 < source.len() <= MAX_TYPE_BITS,
    {
        let n = source.len();
        let last_i = n - 1;
        let last_v = source[last_i];
        let mut ltypes = classify(source);
        let mut l_counts: Vec<usize> = vec![0; 256];
        let mut s_counts: Vec<usize> = vec![0; 256];
        let mut lms_lists: Vec<Vec<usize>> = Vec::new();
        for _c in 0..256usize
            invariant
                lms_lists.len() == _c,
                forall|c: int| 0 <= c < lms_lists.len() ==> lms_lists@[c]@.len() == 0,
        {
            lms_lists.push(Vec::new());
        }
        l_counts.set(last_v as usize, 1);
        let mut prev = last_v;
        let mut s_flag = false;
        let mut prev_s_i = last_i;
        let mut i = last_i;
        while i > 0
            invariant
                i <= last_i,
                last_i + 1 == n,
                n == source.len(),
                type_bits(ltypes).len() == n,
                l_counts.len() == 256,
                s_counts.len() == 256,
                lms_lists.len() == 256,
                forall|c: int|
                    0 <= c < 256 ==> #[trigger] l_counts@[c] + s_counts@[c] <= last_i + 1 - i,
                forall|c: int|
                    0 <= c < 256 ==> decreasing_within(#[trigger] lms_lists@[c]@, i + 1, n as int),
                s_flag ==> prev_s_i == i,
            decreases i,
        {
            i = i - 1;
            let v = source[i];
            assert(l_counts@[v as int] + s_counts@[v as int] <= last_i + 1 - (i + 1));
            let is_l = bits_get(&ltypes, i);
            if is_l {
                let c = l_counts[v as usize];
                l_counts.set(v as usize, c + 1);
                if s_flag {
                    s_flag = false;
                    proof {
                        lemma_push_decreasing(lms_lists@[prev as int]@, i + 2, n as int, prev_s_i);
                    }
                    lms_lists[prev as usize].push(prev_s_i);
                }
            } else {
                let c = s_counts[v as usize];
                s_counts.set(v as usize, c + 1);
                prev_s_i = i;
                s_flag = true;
            }
            prev = v;
            assert forall|c: int| 0 <= c < 256 implies decreasing_within(
                #[trigger] lms_lists@[c]@,
                i + 1,
                n as int,
            ) by {
                assert(decreasing_within(lms_lists@[c]@, i + 1, n as int));
            }
        }
        // Lay out each bucket: L-cursor at its start, S-cursor at its end, the
        // sorted LMS positions at the tail of its S-region.
        let mut indices: Vec<usize> = Vec::new();
        let mut l_cursors: Vec<usize> = vec![0; 256];
        let mut s_cursors: Vec<usize> = vec![0; 256];
        for c in 0..256usize
            invariant
                l_counts.len() == 256,
                s_counts.len() == 256,
                lms_lists.len() == 256,
                l_cursors.len() == 256,
                s_cursors.len() == 256,
                forall|d: int| 0 <= d < 256 ==> #[trigger] l_counts@[d] + s_counts@[d] <= n,
                n == source.len(),
                forall|d: int|
                    c <= d < 256 ==> decreasing_within(#[trigger] lms_lists@[d]@, 0, n as int),
        {
            let start = indices.len();
            let slots = l_counts[c] + s_counts[c];
            let lms_len = lms_lists[c].len();
            if lms_len <= slots {
                Self::push_unresolved(&mut indices, slots - lms_len);
            }
            proof {
                lemma_decreasing_distinct(lms_lists@[c as int]@, 0, n as int);
            }
            sort_indices(source, &mut lms_lists[c]);
            indices.append(&mut lms_lists[c]);
            assert forall|d: int| c + 1 <= d < 256 implies decreasing_within(
                #[trigger] lms_lists@[d]@,
                0,
                n as int,
            ) by {}
            l_cursors.set(c, start);
            s_cursors.set(c, indices.len());
        }
        Self::seed_last(&mut indices, &mut l_cursors, last_v, last_i);
        Self::sais_induce_l(source, &ltypes, &mut indices, &mut l_cursors);
        Self::sais_induce_s(source, &mut ltypes, &mut indices, &mut s_cursors);
        Self::check_remove_index(source, &mut indices, mode);
        indices
    }

    /// Builds the suffix array by one level of SA-IS, with the buckets in an
    /// ordered map keyed by byte value.
    pub fn new_sais(values: Vec<u8>, mode: M) -> (r: Self)
        requires
            values.len() < UNRESOLVED,
        ensures
            r.wf(),
            r.source() == values@,
            r.mode_of() == mode,
    {
        if values.len() == 0 {
            return Self::new_zero_sized(values, mode);
        }
        if values.len() > MAX_TYPE_BITS {
            return Self::new_naive(values, mode);
        }
        let indices = Self::induce_sais(values.as_slice(), &mode);
        Self::finish(values, indices, mode)
    }

    /// The index list of one level of SA-IS with the buckets in an ordered
    /// map.
    fn induce_sais(source: &[u8], mode: &M) -> (indices: Vec<usize>)
        requires
            0 < source.len() <= MAX_TYPE_BITS,
    {
        let n = source.len();
        let last_i = n - 1;
        let last_v = source[last_i];
        let mut ltypes = classify(source);
        // Per byte value: the numbers of L-type and S-type positions, and the
        // LMS positions.
        let mut buckets: BTreeMap<u8, (usize, usize, Vec<usize>)> = BTreeMap::new();
        buckets.insert(last_v, (1, 0, Vec::new()));
        let mut prev = last_v;
        let mut s_flag = false;
        let mut prev_s_i = last_i;
        let mut i = last_i;
        while i > 0
            invariant
                i <= last_i,
                last_i + 1 == n,
                n == source.len(),
                type_bits(ltypes).len() == n,
                forall|k: u8| #[trigger]
                    buckets@.contains_key(k) ==> buckets@[k].0 + buckets@[k].1 <= last_i + 1 - i
                        && decreasing_within(buckets@[k].2@, i + 1, n as int),
                s_flag ==> prev_s_i == i,
            decreases i,
        {
            i = i - 1;
            let v = source[i];
            let is_l = bits_get(&ltypes, i);
            let (lc, sc, lms) = match buckets.remove(&v) {
                Some(b) => b,
                None => (0, 0, Vec::new()),
            };
            if is_l {
                buckets.insert(v, (lc + 1, sc, lms));
                if s_flag {
                    s_flag = false;
                    if let Some((plc, psc, mut plms)) = buckets.remove(&prev) {
                        proof {
                            lemma_push_decreasing(plms@, i + 2, n as int, prev_s_i);
                        }
                        plms.push(prev_s_i);
                        buckets.insert(prev, (plc, psc, plms));
                    }
                }
            } else {
                buckets.insert(v, (lc, sc + 1, lms));
                prev_s_i = i;
                s_flag = true;
            }
            prev = v;
            assert forall|k: u8| #[trigger]
                buckets@.contains_key(k) implies buckets@[k].0 + buckets@[k].1 <= last_i + 1 - i
                && decreasing_within(buckets@[k].2@, i + 1, n as int) by {}
        }
        // Lay out the buckets in increasing order of their byte.
        let keys = sorted_keys(&buckets);
        let mut indices: Vec<usize> = Vec::new();
        let mut l_cursors: BTreeMap<u8, usize> = BTreeMap::new();
        let mut s_cursors: BTreeMap<u8, usize> = BTreeMap::new();
        for t in 0..keys.len()
            invariant
                n == source.len(),
                forall|k: u8| #[trigger]
                    buckets@.contains_key(k) ==> buckets@[k].0 + buckets@[k].1 <= n
                        && decreasing_within(buckets@[k].2@, 0, n as int),
        {
            if let Some((lc, sc, mut lms)) = buckets.remove(&keys[t]) {
                let start = indices.len();
                let slots = lc + sc;
                if lms.len() <= slots {
                    Self::push_unresolved(&mut indices, slots - lms.len());
                }
                proof {
                    lemma_decreasing_distinct(lms@, 0, n as int);
                }
                sort_indices(source, &mut lms);
                indices.append(&mut lms);
                l_cursors.insert(keys[t], start);
                s_cursors.insert(keys[t], indices.len());
            }
        }
        Self::seed_last(&mut indices, &mut l_cursors, last_v, last_i);
        Self::sais_induce_l(source, &ltypes, &mut indices, &mut l_cursors);
        Self::sais_induce_s(source, &mut ltypes, &mut indices, &mut s_cursors);
        Self::check_remove_index(source, &mut indices, mode);
        indices
    }
}

} // verus!
