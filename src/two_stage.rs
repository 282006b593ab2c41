//! The single-level induced-sort builder.
//!
//! The accepted positions are classified L-type (the suffix is greater than
//! that of the next accepted position) or S-type. The S-type positions of each
//! bucket of equal first byte are sorted by direct comparison; the L-type
//! positions are then induced from them in one pass from left to right.
//!
//! Under a mode that accepts every position this is exact. Under a mode that
//! skips positions, the classification follows the accepted positions while
//! the suffixes run over every byte, and the induced order can be wrong (in
//! UTF-8 text, for two characters that share their first byte). The result
//! is therefore checked, and where the check fails the accepted positions are
//! sorted by direct comparison instead, so that every builder returns the one
//! suffix array.
use std::collections::BTreeMap;
use vstd::prelude::*;

use crate::bits::{bits_get, bits_repeat, bits_set, type_bits, TypeBits, MAX_TYPE_BITS};
use crate::cursors::BucketCursors;
use crate::modes::IndexMode;
use crate::simple::{sort_indices, sorted_keys};
use crate::{is_suffix_array, SuffixArray};

verus! {

broadcast use {vstd::laws_cmp::group_laws_cmp, vstd::std_specs::btree::group_btree_axioms};

/// Marks a slot of the index list that is not resolved yet.
pub const UNRESOLVED: usize = usize::MAX;

/// The entries of `list` strictly decrease and lie in `lo..hi`.
pub open spec fn decreasing_within(list: Seq<usize>, lo: int, hi: int) -> bool {
    &&& forall|a: int, b: int| 0 <= a < b < list.len() ==> list[a] > list[b]
    &&& forall|k: int| 0 <= k < list.len() ==> lo <= #[trigger] list[k] < hi
}

pub(crate) proof fn lemma_decreasing_distinct(list: Seq<usize>, lo: int, hi: int)
    requires
        decreasing_within(list, lo, hi),
    ensures
        list.no_duplicates(),
{
    assert forall|a: int, b: int| 0 <= a < list.len() && 0 <= b < list.len() && a != b implies list[a]
        != list[b] by {
        if a < b {
            assert(list[a] > list[b]);
        } else {
            assert(list[b] > list[a]);
        }
    }
}

pub(crate) proof fn lemma_push_decreasing(list: Seq<usize>, lo: int, hi: int, p: usize)
    requires
        decreasing_within(list, lo, hi),
        p < lo <= hi,
        0 <= p,
    ensures
        decreasing_within(list.push(p), p as int, hi),
{
    let l2 = list.push(p);
    assert forall|k: int| 0 <= k < l2.len() implies p <= #[trigger] l2[k] < hi by {
        if k < list.len() {
            assert(lo <= list[k] < hi);
        }
    }
    assert forall|a: int, b: int| 0 <= a < b < l2.len() implies l2[a] > l2[b] by {
        if b < list.len() {
            assert(list[a] > list[b]);
        } else {
            assert(lo <= list[a]);
        }
    }
}

impl<M: IndexMode> SuffixArray<M> {
    /// The last position that `mode` accepts, if any.
    pub(crate) fn last_accepted(values: &[u8], mode: &M) -> (r: Option<usize>)
        ensures
            match r {
                Some(x) => x < values.len() && mode.accepts(x as int, values@[x as int]) && forall|
                    p: int,
                | x < p < values.len() ==> !#[trigger] mode.accepts(p, values@[p]),
                None => forall|p: int|
                    0 <= p < values.len() ==> !#[trigger] mode.accepts(p, values@[p]),
            },
    {
        let mut i = values.len();
        while i > 0
            invariant
                i <= values.len(),
                forall|p: int| i <= p < values.len() ==> !#[trigger] mode.accepts(p, values@[p]),
            decreases i,
        {
            i = i - 1;
            if mode.is_index(i, &values[i]) {
                return Some(i);
            }
        }
        None
    }

    /// Keeps `candidate` where it is exactly the suffix array of `values`, and
    /// otherwise sorts the accepted positions by direct comparison.
    pub(crate) fn finish(values: Vec<u8>, candidate: Vec<usize>, mode: M) -> (r: Self)
        ensures
            r.wf(),
            r.source() == values@,
            r.mode_of() == mode,
            is_suffix_array(values@, mode, candidate@) ==> r.index_list() == candidate@,
    {
        if Self::gen_check(values.as_slice(), &candidate, &mode) {
            Self::from_parts(values, candidate, mode)
        } else {
            Self::new_naive(values, mode)
        }
    }

    /// The nearest accepted position at or before `start`, or 0 where there
    /// is none.
    fn accepted_at_or_before(values: &[u8], mode: &M, start: usize) -> (r: usize)
        requires
            start < values.len(),
        ensures
            r <= start,
            r == 0 || mode.accepts(r as int, values@[r as int]),
            forall|q: int| r < q <= start ==> !#[trigger] mode.accepts(q, values@[q]),
    {
        let mut i = start;
        loop
            invariant
                i <= start < values.len(),
                forall|q: int| i < q <= start ==> !#[trigger] mode.accepts(q, values@[q]),
            decreases i,
        {
            if i == 0 || mode.is_index(i, &values[i]) {
                return i;
            }
            i = i - 1;
        }
    }

    /// Places the L-type predecessors of resolved entries, scanning `indices`
    /// from left to right, until `pending` L-type positions are placed. The
    /// cursor of a bucket is its next free L-slot.
    fn induce_l<C: BucketCursors>(
        values: &[u8],
        mode: &M,
        ltypes: &TypeBits,
        blen: usize,
        indices: &mut Vec<usize>,
        cursors: &mut C,
        pending: usize,
    )
        requires
            blen == type_bits(*ltypes).len(),
            blen <= values.len(),
        ensures
            final(indices).len() == old(indices).len(),
    {
        let len = indices.len();
        let mut pending = pending;
        let mut i: usize = 0;
        while i < len && pending > 0
            invariant
                indices.len() == len,
                blen == type_bits(*ltypes).len(),
                blen <= values.len(),
            decreases len - i,
        {
            let ind = indices[i];
            if ind != 0 && ind <= blen {
                let ind_i = Self::accepted_at_or_before(values, mode, ind - 1);
                if bits_get(ltypes, ind_i) {
                    let v = values[ind_i];
                    if let Some(h) = cursors.cursor(v) {
                        if h < len {
                            indices.set(h, ind_i);
                            cursors.set_cursor(v, h + 1);
                        }
                    }
                    pending = pending - 1;
                }
            }
            i = i + 1;
        }
    }

    /// Sets the last accepted position `x`, the smallest suffix of its
    /// bucket, at the bucket's L-cursor.
    pub(crate) fn seed_last<C: BucketCursors>(indices: &mut Vec<usize>, cursors: &mut C, last_v: u8, x: usize)
        ensures
            final(indices).len() == old(indices).len(),
    {
        if let Some(h) = cursors.cursor(last_v) {
            if h < indices.len() {
                indices.set(h, x);
                cursors.set_cursor(last_v, h + 1);
            }
        }
    }

    /// Builds the suffix array by single-level induced sorting, with one
    /// bucket per byte value in a fixed table of 256.
    pub fn new_two_stage_u8(values: Vec<u8>, mode: M) -> (r: Self)
        requires
            values.len() < UNRESOLVED,
        ensures
            r.wf(),
            r.source() == values@,
            r.mode_of() == mode,
    {
        if values.len() > MAX_TYPE_BITS {
            return Self::new_naive(values, mode);
        }
        match Self::last_accepted(values.as_slice(), &mode) {
            None => Self::new_zero_sized(values, mode),
            Some(x) => {
                let indices = Self::induce_two_stage_u8(values.as_slice(), &mode, x);
                Self::finish(values, indices, mode)
            },
        }
    }

    /// The index list of single-level induction with a table of 256 buckets;
    /// `x` is the last accepted position.
    fn induce_two_stage_u8(source: &[u8], mode: &M, x: usize) -> (indices: Vec<usize>)
        requires
            x < source.len() <= MAX_TYPE_BITS,
    {
        let last_v = source[x];
        let mut ltypes = bits_repeat(false, x + 1);
        let mut l_counts: Vec<usize> = vec![0; 256];
        let mut s_lists: Vec<Vec<usize>> = Vec::new();
        for _c in 0..256usize
            invariant
                forall|c: int| 0 <= c < s_lists.len() ==> s_lists@[c]@.len() == 0,
                s_lists.len() == _c,
        {
            s_lists.push(Vec::new());
        }
        l_counts.set(last_v as usize, 1);
        // Classify from right to left; the last accepted position is L-type.
        let mut prev = last_v;
        let mut prev_l = true;
        let mut i = x;
        while i > 0
            invariant
                i <= x < source.len(),
                type_bits(ltypes).len() == x + 1,
                l_counts.len() == 256,
                s_lists.len() == 256,
                forall|c: int| 0 <= c < 256 ==> #[trigger] l_counts@[c] <= x + 1 - i,
                forall|c: int|
                    0 <= c < 256 ==> decreasing_within(#[trigger] s_lists@[c]@, i as int, x as int),
            decreases i,
        {
            i = i - 1;
            let v = source[i];
            if mode.is_index(i, &v) {
                let is_l = v > prev || (v == prev && prev_l);
                if is_l {
                    bits_set(&mut ltypes, i, true);
                    let c = l_counts[v as usize];
                    l_counts.set(v as usize, c + 1);
                } else {
                    proof {
                        lemma_push_decreasing(s_lists@[v as int]@, i + 1, x as int, i);
                    }
                    s_lists[v as usize].push(i);
                }
                prev = v;
                prev_l = is_l;
            }
            assert forall|c: int| 0 <= c < 256 implies decreasing_within(
                #[trigger] s_lists@[c]@,
                i as int,
                x as int,
            ) by {
                assert(decreasing_within(s_lists@[c]@, i as int, x as int));
            }
        }
        // Lay out each bucket: its L-slots, then its sorted S-type positions.
        let mut indices: Vec<usize> = Vec::new();
        let mut cursors: Vec<usize> = vec![0; 256];
        let mut l_count_all: usize = 0;
        for c in 0..256usize
            invariant
                x < source.len(),
                l_counts.len() == 256,
                s_lists.len() == 256,
                cursors.len() == 256,
                l_count_all <= indices.len(),
                forall|d: int|
                    c <= d < 256 ==> decreasing_within(#[trigger] s_lists@[d]@, 0, x as int),
        {
            let old_len = indices.len();
            let lc = l_counts[c];
            for _k in 0..lc
                invariant
                    indices.len() == old_len + _k,
            {
                indices.push(UNRESOLVED);
            }
            l_count_all = l_count_all + lc;
            cursors.set(c, old_len);
            proof {
                lemma_decreasing_distinct(s_lists@[c as int]@, 0, x as int);
            }
            sort_indices(source, &mut s_lists[c]);
            indices.append(&mut s_lists[c]);
            assert forall|d: int| c + 1 <= d < 256 implies decreasing_within(
                #[trigger] s_lists@[d]@,
                0,
                x as int,
            ) by {}
        }
        Self::seed_last(&mut indices, &mut cursors, last_v, x);
        if l_count_all > 0 {
            Self::induce_l(source, mode, &ltypes, x + 1, &mut indices, &mut cursors, l_count_all - 1);
        }
        indices
    }

    /// Builds the suffix array by single-level induced sorting, with the
    /// buckets in an ordered map keyed by byte value.
    pub fn new_two_stage(values: Vec<u8>, mode: M) -> (r: Self)
        requires
            values.len() < UNRESOLVED,
        ensures
            r.wf(),
            r.source() == values@,
            r.mode_of() == mode,
    {
        if values.len() > MAX_TYPE_BITS {
            return Self::new_naive(values, mode);
        }
        match Self::last_accepted(values.as_slice(), &mode) {
            None => Self::new_zero_sized(values, mode),
            Some(x) => {
                let indices = Self::induce_two_stage(values.as_slice(), &mode, x);
                Self::finish(values, indices, mode)
            },
        }
    }

    /// The index list of single-level induction with the buckets in an
    /// ordered map; `x` is the last accepted position.
    fn induce_two_stage(source: &[u8], mode: &M, x: usize) -> (indices: Vec<usize>)
        requires
            x < source.len() <= MAX_TYPE_BITS,
    {
        let last_v = source[x];
        let mut ltypes = bits_repeat(false, x + 1);
        // Per byte value: the number of L-type positions, and the S-type ones.
        let mut buckets: BTreeMap<u8, (usize, Vec<usize>)> = BTreeMap::new();
        buckets.insert(last_v, (1, Vec::new()));
        let mut prev = last_v;
        let mut prev_l = true;
        let mut i = x;
        while i > 0
            invariant
                i <= x < source.len(),
                type_bits(ltypes).len() == x + 1,
                forall|k: u8| #[trigger]
                    buckets@.contains_key(k) ==> buckets@[k].0 <= x + 1 - i && decreasing_within(
                        buckets@[k].1@,
                        i as int,
                        x as int,
                    ),
            decreases i,
        {
            i = i - 1;
            let v = source[i];
            if mode.is_index(i, &v) {
                let is_l = v > prev || (v == prev && prev_l);
                let (lc, mut s_list) = match buckets.remove(&v) {
                    Some(b) => b,
                    None => (0, Vec::new()),
                };
                if is_l {
                    bits_set(&mut ltypes, i, true);
                    buckets.insert(v, (lc + 1, s_list));
                } else {
                    proof {
                        lemma_push_decreasing(s_list@, i + 1, x as int, i);
                    }
                    s_list.push(i);
                    buckets.insert(v, (lc, s_list));
                }
                prev = v;
                prev_l = is_l;
            }
            assert forall|k: u8| #[trigger]
                buckets@.contains_key(k) implies buckets@[k].0 <= x + 1 - i && decreasing_within(
                buckets@[k].1@,
                i as int,
                x as int,
            ) by {}
        }
        // Lay out the buckets in increasing order of their byte.
        let keys = sorted_keys(&buckets);
        let mut indices: Vec<usize> = Vec::new();
        let mut cursors: BTreeMap<u8, usize> = BTreeMap::new();
        let mut l_count_all: usize = 0;
        for t in 0..keys.len()
            invariant
                x < source.len(),
                l_count_all <= indices.len(),
                forall|k: u8| #[trigger]
                    buckets@.contains_key(k) ==> decreasing_within(buckets@[k].1@, 0, x as int),
        {
            if let Some((lc, mut s_list)) = buckets.remove(&keys[t]) {
                let old_len = indices.len();
                for _k in 0..lc
                    invariant
                        indices.len() == old_len + _k,
                {
                    indices.push(UNRESOLVED);
                }
                l_count_all = l_count_all + lc;
                cursors.insert(keys[t], old_len);
                proof {
                    lemma_decreasing_distinct(s_list@, 0, x as int);
                }
                sort_indices(source, &mut s_list);
                indices.append(&mut s_list);
            }
        }
        Self::seed_last(&mut indices, &mut cursors, last_v, x);
        if l_count_all > 0 {
            Self::induce_l(source, mode, &ltypes, x + 1, &mut indices, &mut cursors, l_count_all - 1);
        }
        indices
    }
}

} // verus!
