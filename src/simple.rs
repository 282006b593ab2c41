//! The baseline builders: a full comparison sort of the accepted positions,
//! and a sort within buckets of equal first byte.
use std::collections::BTreeMap;
use vstd::laws_cmp::obeys_cmp;
use vstd::prelude::*;
use vstd::std_specs::btree::spec_keys_iter;
use vstd::std_specs::cmp::OrdSpec;
use vstd::std_specs::iter::IteratorSpec;

use crate::modes::IndexMode;
use crate::order::{lemma_first_byte_order, lemma_lex_irreflexive, lemma_lex_transitive, lemma_suffixes_distinct, lex_lt, suffix, suffix_less};
use crate::{all_accepted, is_suffix_array, lists_every_accepted, sorted_by_suffix, SuffixArray};

verus! {

broadcast use {vstd::laws_cmp::group_laws_cmp, vstd::std_specs::btree::group_btree_axioms};

/// The keys of `tree`, in increasing order.
pub(crate) fn sorted_keys<V>(tree: &BTreeMap<u8, V>) -> (keys: Vec<u8>)
    ensures
        forall|i: int, j: int| 0 <= i < j < keys.len() ==> keys@[i] < keys@[j],
        forall|k: u8| tree@.contains_key(k) <==> keys@.contains(k),
{
    let mut keys: Vec<u8> = Vec::new();
    proof {
        vstd::std_specs::btree::axiom_spec_keys_iter(tree);
    }
    let ghost rem = spec_keys_iter(tree).remaining();
    for k in it: tree.keys()
        invariant
            it.seq() == spec_keys_iter(tree).remaining(),
            keys@.len() == it.index(),
            forall|k: int| 0 <= k < it.index() ==> keys@[k] == *it.seq()[k],
    {
        keys.push(*k);
    }
    assert(keys@ =~= rem.map_values(|r: &u8| *r));
    proof {
        assert(obeys_cmp::<u8>());
        assert(obeys_cmp::<&u8>());
        vstd::std_specs::btree::axiom_increasing_seq_meaning(rem);
    }
    assert(keys@ =~= rem.unref());
    assert forall|i: int, j: int| 0 <= i < j < keys.len() implies keys@[i] < keys@[j] by {
        assert(<&u8 as OrdSpec>::cmp_spec(&rem[i], &rem[j]) is Less);
        assert(rem[i] == &keys@[i]);
    }
    assert forall|k: u8| tree@.contains_key(k) <==> keys@.contains(k) by {
        assert(keys@.to_set().contains(k) <==> keys@.contains(k));
    }
    keys
}

proof fn lemma_insert_contains(v: Seq<usize>, pos: int, x: usize, y: usize)
    requires
        0 <= pos <= v.len(),
    ensures
        v.insert(pos, x).contains(y) <==> (v.contains(y) || y == x),
{
    let w = v.insert(pos, x);
    if w.contains(y) {
        let k = choose|k: int| 0 <= k < w.len() && w[k] == y;
        if k < pos {
            assert(v[k] == y);
        } else if k > pos {
            assert(v[k - 1] == y);
        }
    }
    if v.contains(y) {
        let k = choose|k: int| 0 <= k < v.len() && v[k] == y;
        if k < pos {
            assert(w[k] == y);
        } else {
            assert(w[k + 1] == y);
        }
    }
    if y == x {
        assert(w[pos] == y);
    }
}

/// The positions of `values` that `mode` accepts, in increasing order.
pub(crate) fn collect_accepted<M: IndexMode>(values: &[u8], mode: &M) -> (r: Vec<usize>)
    ensures
        all_accepted(values@, *mode, r@),
        lists_every_accepted(values@, *mode, r@),
        forall|i: int, j: int| 0 <= i < j < r.len() ==> r[i] < r[j],
{
    let mut r: Vec<usize> = Vec::new();
    let n = values.len();
    for p in 0..n
        invariant
            n == values@.len(),
            all_accepted(values@, *mode, r@),
            forall|q: int|
                0 <= q < p && #[trigger] mode.accepts(q, values@[q]) ==> r@.contains(q as usize),
            forall|i: int, j: int| 0 <= i < j < r.len() ==> r[i] < r[j],
            forall|k: int| 0 <= k < r.len() ==> r[k] < p,
    {
        if mode.is_index(p, &values[p]) {
            let ghost prev = r@;
            r.push(p);
            assert(r@[r.len() - 1] == p);
            assert forall|q: int|
                0 <= q < p && #[trigger] mode.accepts(q, values@[q]) implies r@.contains(
                q as usize,
            ) by {
                let k = choose|k: int| 0 <= k < prev.len() && prev[k] == q as usize;
                assert(r@[k] == q as usize);
            }
        }
    }
    r
}

/// Sorts distinct positions of `values` by their suffixes.
pub(crate) fn sort_indices(values: &[u8], indices: &mut Vec<usize>)
    requires
        forall|k: int| 0 <= k < old(indices).len() ==> old(indices)[k] < values.len(),
        old(indices)@.no_duplicates(),
    ensures
        final(indices).len() == old(indices).len(),
        forall|x: usize| final(indices)@.contains(x) <==> old(indices)@.contains(x),
        sorted_by_suffix(values@, final(indices)@),
{
    let ghost orig = indices@;
    let mut out: Vec<usize> = Vec::new();
    let len = indices.len();
    for i in 0..len
        invariant
            indices@ == orig,
            len == orig.len(),
            orig.no_duplicates(),
            forall|k: int| 0 <= k < orig.len() ==> orig[k] < values.len(),
            out.len() == i,
            forall|y: usize| out@.contains(y) <==> (exists|k: int| 0 <= k < i && orig[k] == y),
            forall|k: int| 0 <= k < out.len() ==> out[k] < values.len(),
            sorted_by_suffix(values@, out@),
    {
        let x = indices[i];
        let mut pos: usize = 0;
        loop
            invariant
                pos <= out.len(),
                x < values.len(),
                forall|k: int| 0 <= k < out.len() ==> out[k] < values.len(),
                forall|k: int|
                    0 <= k < pos ==> lex_lt(
                        suffix(values@, out@[k] as int),
                        suffix(values@, x as int),
                    ),
            ensures
                pos <= out.len(),
                forall|k: int|
                    0 <= k < pos ==> lex_lt(
                        suffix(values@, out@[k] as int),
                        suffix(values@, x as int),
                    ),
                pos < out.len() ==> !lex_lt(
                    suffix(values@, out@[pos as int] as int),
                    suffix(values@, x as int),
                ),
            decreases out.len() - pos,
        {
            if pos == out.len() {
                break;
            }
            if !suffix_less(values, out[pos], x) {
                break;
            }
            pos = pos + 1;
        }
        assert(!out@.contains(x)) by {
            if out@.contains(x) {
                let k = choose|k: int| 0 <= k < i && orig[k] == x;
                assert(orig[k] == orig[i as int]);
            }
        }
        proof {
            if pos < out.len() {
                assert(out@[pos as int] != x);
                lemma_suffixes_distinct(values@, out@[pos as int] as int, x as int);
            }
        }
        let ghost prev = out@;
        out.insert(pos, x);
        proof {
            let w = out@;
            assert forall|y: usize| w.contains(y) <==> (exists|k: int| 0 <= k < i + 1 && orig[k] == y) by {
                lemma_insert_contains(prev, pos as int, x, y);
                if y == x {
                    assert(orig[i as int] == y);
                }
                if exists|k: int| 0 <= k < i + 1 && orig[k] == y {
                    let k = choose|k: int| 0 <= k < i + 1 && orig[k] == y;
                    if k < i {
                        assert(exists|k: int| 0 <= k < i && orig[k] == y);
                    }
                }
            }
            assert forall|a: int, b: int| 0 <= a < b < w.len() implies #[trigger] lex_lt(
                suffix(values@, w[a] as int),
                suffix(values@, w[b] as int),
            ) by {
                if b < pos {
                    assert(lex_lt(suffix(values@, prev[a] as int), suffix(values@, prev[b] as int)));
                } else if b == pos {
                } else if a > pos {
                    assert(lex_lt(suffix(values@, prev[a - 1] as int), suffix(values@, prev[b - 1] as int)));
                } else if a == pos {
                    if b - 1 > pos {
                        assert(lex_lt(suffix(values@, prev[pos as int] as int), suffix(values@, prev[b - 1] as int)));
                        lemma_lex_transitive(
                            suffix(values@, x as int),
                            suffix(values@, prev[pos as int] as int),
                            suffix(values@, prev[b - 1] as int),
                        );
                    }
                } else {
                    assert(lex_lt(suffix(values@, prev[a] as int), suffix(values@, prev[b - 1] as int)));
                }
            }
        }
    }
    proof {
        assert forall|x: usize| out@.contains(x) <==> orig.contains(x) by {
            if orig.contains(x) {
                let k = choose|k: int| 0 <= k < orig.len() && orig[k] == x;
                assert(exists|k: int| 0 <= k < len && orig[k] == x);
            }
        }
    }
    *indices = out;
}

impl<M: IndexMode> SuffixArray<M> {
    /// A suffix array with an empty index list.
    pub(crate) fn new_zero_sized(values: Vec<u8>, mode: M) -> (r: Self)
        requires
            forall|p: int| 0 <= p < values.len() ==> !#[trigger] mode.accepts(p, values@[p]),
        ensures
            r.wf(),
            r.source() == values@,
            r.mode_of() == mode,
            r.index_list().len() == 0,
    {
        let indices: Vec<usize> = Vec::new();
        Self::from_parts(values, indices, mode)
    }

    /// Builds the suffix array by sorting all accepted positions by their
    /// suffixes.
    pub fn new_naive(values: Vec<u8>, mode: M) -> (r: Self)
        ensures
            r.wf(),
            r.source() == values@,
            r.mode_of() == mode,
    {
        let mut indices = collect_accepted(values.as_slice(), &mode);
        let ghost before = indices@;
        proof {
            assert forall|i: int, j: int| 0 <= i < before.len() && 0 <= j < before.len() && i != j
                implies before[i] != before[j] by {
                if i < j {
                    assert(before[i] < before[j]);
                } else {
                    assert(before[j] < before[i]);
                }
            }
        }
        sort_indices(values.as_slice(), &mut indices);
        proof {
            lemma_same_members(values@, mode, before, indices@);
        }
        Self::from_parts(values, indices, mode)
    }
}

/// A list with the same members as a list of exactly the accepted positions
/// also holds exactly the accepted positions.
pub(crate) proof fn lemma_same_members<M: IndexMode>(
    s: Seq<u8>,
    mode: M,
    a: Seq<usize>,
    b: Seq<usize>,
)
    requires
        all_accepted(s, mode, a),
        lists_every_accepted(s, mode, a),
        forall|x: usize| b.contains(x) <==> a.contains(x),
    ensures
        all_accepted(s, mode, b),
        lists_every_accepted(s, mode, b),
{
    assert forall|k: int| 0 <= k < b.len() implies #[trigger] b[k] < s.len() && mode.accepts(
        b[k] as int,
        s[b[k] as int],
    ) by {
        assert(b.contains(b[k]));
        let j = choose|j: int| 0 <= j < a.len() && a[j] == b[k];
        assert(a[j] < s.len());
    }
    assert forall|p: int| 0 <= p < s.len() && #[trigger] mode.accepts(p, s[p]) implies b.contains(
        p as usize,
    ) by {
        assert(a.contains(p as usize));
    }
}

/// Whether position `p` is in range and accepted by `mode`.
pub open spec fn keeps<M: IndexMode>(s: Seq<u8>, mode: M, p: usize) -> bool {
    p < s.len() && mode.accepts(p as int, s[p as int])
}

impl<M: IndexMode> SuffixArray<M> {
    /// Whether `indices` is exactly the suffix array of `values` under `mode`:
    /// every entry an accepted position, each accepted position present, and
    /// each suffix strictly greater than the one before it.
    pub(crate) fn gen_check(values: &[u8], indices: &Vec<usize>, mode: &M) -> (r: bool)
        ensures
            r == is_suffix_array(values@, *mode, indices@),
    {
        let n = values.len();
        let mut seen: Vec<bool> = vec![false; n];
        let len = indices.len();
        for k in 0..len
            invariant
                n == values@.len(),
                len == indices@.len(),
                seen@.len() == n,
                all_accepted(values@, *mode, indices@.subrange(0, k as int)),
                sorted_by_suffix(values@, indices@.subrange(0, k as int)),
                forall|q: int|
                    0 <= q < n ==> (#[trigger] seen@[q] <==> indices@.subrange(
                        0,
                        k as int,
                    ).contains(q as usize)),
        {
            let p = indices[k];
            if p >= n {
                assert(!all_accepted(values@, *mode, indices@));
                return false;
            }
            if !mode.is_index(p, &values[p]) {
                assert(!all_accepted(values@, *mode, indices@));
                return false;
            }
            if seen[p] {
                proof {
                    let j = choose|j: int| 0 <= j < k && indices@.subrange(0, k as int)[j] == p;
                    assert(indices@[j] == p);
                    lemma_lex_irreflexive(suffix(values@, p as int));
                    assert(!lex_lt(suffix(values@, indices@[j] as int), suffix(values@, indices@[k as int] as int)));
                }
                return false;
            }
            if k > 0 {
                assert(indices@.subrange(0, k as int)[k - 1] == indices@[k - 1]);
                if !suffix_less(values, indices[k - 1], p) {
                    assert(!lex_lt(suffix(values@, indices@[k - 1] as int), suffix(values@, indices@[k as int] as int)));
                    return false;
                }
            }
            let ghost before = indices@.subrange(0, k as int);
            let ghost after = indices@.subrange(0, k + 1);
            proof {
                assert(after =~= before.push(p));
                assert forall|a: int, b: int| 0 <= a < b < after.len() implies #[trigger] lex_lt(
                    suffix(values@, after[a] as int),
                    suffix(values@, after[b] as int),
                ) by {
                    if b == k && a < k - 1 {
                        assert(lex_lt(
                            suffix(values@, before[a] as int),
                            suffix(values@, before[k - 1] as int),
                        ));
                        lemma_lex_transitive(
                            suffix(values@, after[a] as int),
                            suffix(values@, after[k - 1] as int),
                            suffix(values@, p as int),
                        );
                    } else if b < k {
                        assert(lex_lt(
                            suffix(values@, before[a] as int),
                            suffix(values@, before[b] as int),
                        ));
                    }
                }
                assert forall|q: int|
                    0 <= q < n implies (#[trigger] seen@.update(p as int, true)[q]
                    <==> after.contains(q as usize)) by {
                    if after.contains(q as usize) {
                        let j = choose|j: int| 0 <= j < after.len() && after[j] == q as usize;
                        if j < k {
                            assert(before[j] == q as usize);
                        }
                    }
                    if before.contains(q as usize) {
                        let j = choose|j: int| 0 <= j < before.len() && before[j] == q as usize;
                        assert(after[j] == q as usize);
                    }
                    if q == p {
                        assert(after[k as int] == p);
                    }
                }
            }
            seen.set(p, true);
        }
        assert(indices@.subrange(0, len as int) =~= indices@);
        for p in 0..n
            invariant
                n == values@.len(),
                len == indices@.len(),
                seen@.len() == n,
                forall|q: int|
                    0 <= q < n ==> (#[trigger] seen@[q] <==> indices@.contains(q as usize)),
                forall|q: int|
                    0 <= q < p && #[trigger] mode.accepts(q, values@[q]) ==> indices@.contains(
                        q as usize,
                    ),
        {
            if mode.is_index(p, &values[p]) && !seen[p] {
                assert(!lists_every_accepted(values@, *mode, indices@));
                return false;
            }
        }
        true
    }

    /// Drops the entries that `mode` rejects, keeping the order of the rest,
    /// unless the mode accepts everything.
    pub(crate) fn check_remove_index(values: &[u8], indices: &mut Vec<usize>, mode: &M)
        ensures
            final(indices)@ == old(indices)@.filter(|p: usize| keeps(values@, *mode, p)) || (
            final(indices)@ == old(indices)@ && forall|p: int, v: u8| #[trigger] mode.accepts(p, v)),
    {
        if mode.need_check() {
            Self::check_remove_index_inner(indices, mode, values);
        }
    }

    /// Drops the entries that `mode` rejects, keeping the order of the rest.
    fn check_remove_index_inner(indices: &mut Vec<usize>, mode: &M, values: &[u8])
        ensures
            final(indices)@ == old(indices)@.filter(|p: usize| keeps(values@, *mode, p)),
    {
        let ghost pred = |p: usize| keeps(values@, *mode, p);
        let mut kept: Vec<usize> = Vec::new();
        let len = indices.len();
        let n = values.len();
        for i in 0..len
            invariant
                len == indices@.len(),
                n == values@.len(),
                pred == (|p: usize| keeps(values@, *mode, p)),
                kept@ == indices@.subrange(0, i as int).filter(pred),
        {
            let index = indices[i];
            proof {
                let next = indices@.subrange(0, i + 1);
                assert(next.drop_last() =~= indices@.subrange(0, i as int));
                reveal(Seq::filter);
            }
            if index < n && mode.is_index(index, &values[index]) {
                kept.push(index);
            }
        }
        assert(indices@.subrange(0, len as int) =~= indices@);
        *indices = kept;
    }
}

/// `list` holds, in increasing order, positions below `bound` that hold
/// the byte `k` and that `mode` accepts.
pub open spec fn bucket_holds<M: IndexMode>(
    s: Seq<u8>,
    mode: M,
    k: u8,
    list: Seq<usize>,
    bound: int,
) -> bool {
    &&& forall|a: int, b: int| 0 <= a < b < list.len() ==> list[a] < list[b]
    &&& forall|j: int|
        0 <= j < list.len() ==> #[trigger] list[j] < bound && list[j] < s.len() && s[list[j] as int]
            == k && mode.accepts(list[j] as int, k)
}

impl<M: IndexMode> SuffixArray<M> {
    /// Builds the suffix array by sorting, within each bucket of equal first
    /// byte, its positions by their suffixes, and joining the buckets in
    /// increasing order of that byte.
    #[verifier::spinoff_prover]
    pub fn new_bucket(values: Vec<u8>, mode: M) -> (r: Self)
        ensures
            r.wf(),
            r.source() == values@,
            r.mode_of() == mode,
    {
        let source = values.as_slice();
        let ghost s = source@;
        let n = source.len();
        let mut tree: BTreeMap<u8, Vec<usize>> = BTreeMap::new();
        for i in 0..n
            invariant
                n == s.len(),
                s == source@,
                forall|k: u8| #[trigger]
                    tree@.contains_key(k) ==> bucket_holds(s, mode, k, tree@[k]@, i as int),
                forall|p: int|
                    0 <= p < i && #[trigger] mode.accepts(p, s[p]) ==> tree@.contains_key(s[p])
                        && tree@[s[p]]@.contains(p as usize),
        {
            if mode.is_index(i, &source[i]) {
                let v = source[i];
                let mut b = match tree.remove(&v) {
                    Some(b) => b,
                    None => Vec::new(),
                };
                let ghost before = b@;
                b.push(i);
                proof {
                    assert(b@[b@.len() - 1] == i);
                    assert forall|p: int|
                        0 <= p < i && #[trigger] mode.accepts(p, s[p]) && s[p] == v implies b@.contains(
                        p as usize,
                    ) by {
                        let j = choose|j: int| 0 <= j < before.len() && before[j] == p as usize;
                        assert(b@[j] == p as usize);
                    }
                }
                tree.insert(v, b);
            }
        }
        let ghost full = tree@;
        let keys = sorted_keys(&tree);
        let mut indices: Vec<usize> = Vec::new();
        let nk = keys.len();
        proof {
            assert forall|u: int| 0 <= u < nk implies #[trigger] tree@.contains_key(keys@[u]) by {
                assert(keys@.contains(keys@[u]));
            }
            assert forall|p: int|
                0 <= p < n && #[trigger] mode.accepts(p, s[p]) && (0 == nk || s[p] < keys@[0])
                    implies indices@.contains(p as usize) by {
                assert(keys@.contains(s[p]));
                let u = choose|u: int| 0 <= u < nk && keys@[u] == s[p];
                if u > 0 {
                    assert(keys@[0] < keys@[u]);
                }
            }
        }
        for t in 0..nk
            invariant
                n == s.len(),
                s == source@,
                nk == keys@.len(),
                forall|i: int, j: int| 0 <= i < j < nk ==> keys@[i] < keys@[j],
                forall|k: u8| full.contains_key(k) <==> keys@.contains(k),
                forall|k: u8| #[trigger]
                    full.contains_key(k) ==> bucket_holds(s, mode, k, full[k]@, n as int),
                forall|p: int|
                    0 <= p < n && #[trigger] mode.accepts(p, s[p]) ==> full.contains_key(s[p])
                        && full[s[p]]@.contains(p as usize),
                forall|k: u8| #[trigger] tree@.contains_key(k) ==> tree@[k] == full[k],
                forall|u: int| t <= u < nk ==> #[trigger] tree@.contains_key(keys@[u]),
                all_accepted(s, mode, indices@),
                sorted_by_suffix(s, indices@),
                forall|j: int| 0 <= j < indices.len() && t < nk ==> s[#[trigger] indices@[j] as int] < keys@[t as int],
                forall|p: int|
                    0 <= p < n && #[trigger] mode.accepts(p, s[p]) && (t == nk || s[p] < keys@[t as int])
                        ==> indices@.contains(p as usize),
        {
            let k = keys[t];
            assert(tree@.contains_key(keys@[t as int]));
            let ghost before_tree = tree@;
            let mut b = match tree.remove(&k) {
                Some(b) => b,
                None => Vec::new(),
            };
            let ghost bucket = full[k]@;
            assert(b@ == bucket);
            assert(tree@ == before_tree.remove(k));
            assert(full.contains_key(k)) by {
                assert(keys@.contains(k));
            }
            proof {
                assert forall|x: int, y: int| 0 <= x < bucket.len() && 0 <= y < bucket.len() && x != y
                    implies bucket[x] != bucket[y] by {
                    if x < y {
                        assert(bucket[x] < bucket[y]);
                    } else {
                        assert(bucket[y] < bucket[x]);
                    }
                }
            }
            sort_indices(source, &mut b);
            let ghost sorted = b@;
            let ghost prev = indices@;
            proof {
                assert forall|j: int| 0 <= j < sorted.len() implies #[trigger] s[sorted[j] as int] == k
                    && sorted[j] < n && mode.accepts(sorted[j] as int, s[sorted[j] as int]) by {
                    assert(sorted.contains(sorted[j]));
                    let q = choose|q: int| 0 <= q < bucket.len() && bucket[q] == sorted[j];
                    assert(bucket[q] < n);
                }
            }
            indices.append(&mut b);
            proof {
                let now = indices@;
                assert(now =~= prev + sorted);
                assert forall|a: int, b2: int| 0 <= a < b2 < now.len() implies #[trigger] lex_lt(
                    suffix(s, now[a] as int),
                    suffix(s, now[b2] as int),
                ) by {
                    if b2 < prev.len() {
                        assert(lex_lt(suffix(s, prev[a] as int), suffix(s, prev[b2] as int)));
                    } else if a >= prev.len() {
                        assert(lex_lt(
                            suffix(s, sorted[a - prev.len()] as int),
                            suffix(s, sorted[b2 - prev.len()] as int),
                        ));
                    } else {
                        assert(s[prev[a] as int] < k);
                        assert(s[sorted[b2 - prev.len()] as int] == k);
                        lemma_first_byte_order(s, now[a] as int, now[b2] as int);
                    }
                }
                assert forall|j: int| 0 <= j < now.len() implies #[trigger] now[j] < s.len()
                    && mode.accepts(now[j] as int, s[now[j] as int]) by {
                    if j < prev.len() {
                        assert(prev[j] == now[j]);
                        assert(prev[j] < s.len() && mode.accepts(prev[j] as int, s[prev[j] as int]));
                    } else {
                        assert(sorted[j - prev.len()] == now[j]);
                        assert(s[sorted[j - prev.len()] as int] == k);
                    }
                }
                if t + 1 < nk {
                    assert forall|j: int| 0 <= j < now.len() implies s[#[trigger] now[j] as int]
                        < keys@[t + 1] by {
                        if j < prev.len() {
                            assert(prev[j] == now[j]);
                            assert(keys@[t as int] < keys@[t + 1]);
                        } else {
                            assert(sorted[j - prev.len()] == now[j]);
                            assert(keys@[t as int] < keys@[t + 1]);
                        }
                    }
                }
                assert forall|p: int|
                    0 <= p < n && #[trigger] mode.accepts(p, s[p]) && (t + 1 == nk || s[p] < keys@[t
                        + 1]) implies now.contains(p as usize) by {
                    assert(full.contains_key(s[p]));
                    assert(keys@.contains(s[p]));
                    let u = choose|u: int| 0 <= u < nk && keys@[u] == s[p];
                    if u < t {
                        assert(keys@[u] < keys@[t as int]);
                        let j = choose|j: int| 0 <= j < prev.len() && prev[j] == p as usize;
                        assert(now[j] == p as usize);
                    } else if u == t {
                        assert(bucket.contains(p as usize));
                        assert(sorted.contains(p as usize));
                        let j = choose|j: int| 0 <= j < sorted.len() && sorted[j] == p as usize;
                        assert(now[prev.len() + j] == p as usize);
                    } else {
                        if t + 1 < nk {
                            if u > t + 1 {
                                assert(keys@[t + 1] < keys@[u]);
                            }
                        }
                    }
                }
                assert forall|u: int| t + 1 <= u < nk implies #[trigger] tree@.contains_key(keys@[u]) by {
                    assert(keys@[t as int] < keys@[u]);
                    assert(before_tree.contains_key(keys@[u]));
                }
                assert forall|k2: u8| #[trigger] tree@.contains_key(k2) implies tree@[k2] == full[k2] by {
                    assert(before_tree.contains_key(k2));
                }
            }
        }
        Self::from_parts(values, indices, mode)
    }
}

} // verus!
