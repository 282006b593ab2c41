//! Properties that hold of every suffix array the builders produce, and of
//! the range search over it.
use std::cmp::Ordering;
use vstd::prelude::*;

use crate::modes::IndexMode;
use crate::order::{
    lemma_lex_asymmetric, lemma_lex_irreflexive, lex_lt, query_order, suffix,
};
use crate::search::search_outcome;
use crate::{is_suffix_array, sorted_by_suffix, SuffixArray};

verus! {

proof fn lemma_not_after_first(s: Seq<u8>, a: Seq<usize>, k: int)
    requires
        sorted_by_suffix(s, a),
        0 < k < a.len(),
    ensures
        a[k] != a[0],
{
    assert(lex_lt(suffix(s, a[0] as int), suffix(s, a[k] as int)));
    if a[k] == a[0] {
        lemma_lex_irreflexive(suffix(s, a[0] as int));
    }
}

proof fn lemma_sorted_lists_equal(s: Seq<u8>, a: Seq<usize>, b: Seq<usize>)
    requires
        sorted_by_suffix(s, a),
        sorted_by_suffix(s, b),
        forall|x: usize| a.contains(x) <==> b.contains(x),
    ensures
        a == b,
    decreases a.len(),
{
    if a.len() == 0 {
        if b.len() > 0 {
            assert(b.contains(b[0]));
        }
        assert(a =~= b);
    } else {
        if b.len() == 0 {
            assert(a.contains(a[0]));
        }
        assert(a.contains(a[0]) && b.contains(b[0]));
        if a[0] != b[0] {
            let i = choose|i: int| 0 <= i < a.len() && a[i] == b[0];
            let j = choose|j: int| 0 <= j < b.len() && b[j] == a[0];
            assert(lex_lt(suffix(s, a[0] as int), suffix(s, a[i] as int)));
            assert(lex_lt(suffix(s, b[0] as int), suffix(s, b[j] as int)));
            lemma_lex_asymmetric(suffix(s, a[0] as int), suffix(s, b[0] as int));
        }
        let ra = a.drop_first();
        let rb = b.drop_first();
        assert forall|x: usize| ra.contains(x) <==> rb.contains(x) by {
            if ra.contains(x) {
                let k = choose|k: int| 0 <= k < ra.len() && ra[k] == x;
                lemma_not_after_first(s, a, k + 1);
                assert(b.contains(x));
                let m = choose|m: int| 0 <= m < b.len() && b[m] == x;
                assert(m != 0);
                assert(rb[m - 1] == x);
            }
            if rb.contains(x) {
                let k = choose|k: int| 0 <= k < rb.len() && rb[k] == x;
                lemma_not_after_first(s, b, k + 1);
                assert(a.contains(x));
                let m = choose|m: int| 0 <= m < a.len() && a[m] == x;
                assert(m != 0);
                assert(ra[m - 1] == x);
            }
        }
        assert(sorted_by_suffix(s, ra)) by {
            assert forall|i: int, j: int| 0 <= i < j < ra.len() implies #[trigger] lex_lt(
                suffix(s, ra[i] as int),
                suffix(s, ra[j] as int),
            ) by {
                assert(lex_lt(suffix(s, a[i + 1] as int), suffix(s, a[j + 1] as int)));
            }
        }
        assert(sorted_by_suffix(s, rb)) by {
            assert forall|i: int, j: int| 0 <= i < j < rb.len() implies #[trigger] lex_lt(
                suffix(s, rb[i] as int),
                suffix(s, rb[j] as int),
            ) by {
                assert(lex_lt(suffix(s, b[i + 1] as int), suffix(s, b[j + 1] as int)));
            }
        }
        lemma_sorted_lists_equal(s, ra, rb);
        assert(a =~= seq![a[0]] + ra);
        assert(b =~= seq![b[0]] + rb);
    }
}

/// The index list holds every accepted position exactly once, and nothing
/// else.
pub proof fn lemma_each_accepted_once<M: IndexMode>(s: Seq<u8>, mode: M, idx: Seq<usize>)
    requires
        is_suffix_array(s, mode, idx),
    ensures
        idx.no_duplicates(),
        forall|p: usize| #[trigger]
            idx.contains(p) <==> (p < s.len() && mode.accepts(p as int, s[p as int])),
{
    assert forall|i: int, j: int| 0 <= i < idx.len() && 0 <= j < idx.len() && i != j implies idx[i]
        != idx[j] by {
        if i < j {
            assert(lex_lt(suffix(s, idx[i] as int), suffix(s, idx[j] as int)));
        } else {
            assert(lex_lt(suffix(s, idx[j] as int), suffix(s, idx[i] as int)));
        }
        if idx[i] == idx[j] {
            lemma_lex_irreflexive(suffix(s, idx[i] as int));
        }
    }
    assert forall|p: usize| #[trigger]
        idx.contains(p) <==> (p < s.len() && mode.accepts(p as int, s[p as int])) by {
        if idx.contains(p) {
            let k = choose|k: int| 0 <= k < idx.len() && idx[k] == p;
            assert(idx[k] < s.len());
        }
        if p < s.len() && mode.accepts(p as int, s[p as int]) {
            assert(mode.accepts(p as int, s[p as int]));
        }
    }
}

/// There is only one suffix array of a sequence under a mode: whatever
/// builder made them, two arrays over the same source and mode list the same
/// positions in the same order.
pub proof fn lemma_builders_agree<M: IndexMode>(x: SuffixArray<M>, y: SuffixArray<M>)
    requires
        x.wf(),
        y.wf(),
        x.source() == y.source(),
        x.mode_of() == y.mode_of(),
    ensures
        x.index_list() == y.index_list(),
{
    let s = x.source();
    let mode = x.mode_of();
    lemma_each_accepted_once(s, mode, x.index_list());
    lemma_each_accepted_once(s, mode, y.index_list());
    assert forall|p: usize| x.index_list().contains(p) <==> y.index_list().contains(p) by {
        assert(x.index_list().contains(p) <==> (p < s.len() && mode.accepts(p as int, s[p as int])));
        assert(y.index_list().contains(p) <==> (p < s.len() && mode.accepts(p as int, s[p as int])));
    }
    lemma_sorted_lists_equal(s, x.index_list(), y.index_list());
}

/// An empty source has an empty index list.
pub proof fn lemma_empty_source<M: IndexMode>(sa: SuffixArray<M>)
    requires
        sa.wf(),
        sa.source().len() == 0,
    ensures
        sa.index_list().len() == 0,
{
    if sa.index_list().len() > 0 {
        assert(sa.index_list()[0] < sa.source().len());
    }
}

/// Searching for the suffix at any listed position finds a range that holds
/// that position's entry.
pub proof fn lemma_round_trip<M: IndexMode>(
    sa: SuffixArray<M>,
    k: int,
    r: Result<(usize, usize), usize>,
)
    requires
        sa.wf(),
        0 <= k < sa.index_list().len(),
        search_outcome(
            sa.source(),
            sa.index_list(),
            suffix(sa.source(), sa.index_list()[k] as int),
            r,
        ),
    ensures
        r matches Ok((lo, hi)) && lo <= k < hi,
{
    let s = sa.source();
    let t = suffix(s, sa.index_list()[k] as int);
    assert(t.is_prefix_of(t)) by {
        assert(t =~= t.subrange(0, t.len() as int));
    }
    assert(query_order(t, suffix(s, sa.index_list()[k] as int)) == Ordering::Equal);
}

/// An empty query matches the whole index list, and a non-empty query is not
/// found in an empty list, whose insertion point is 0.
pub proof fn lemma_search_boundaries(
    s: Seq<u8>,
    idx: Seq<usize>,
    q: Seq<u8>,
    r: Result<(usize, usize), usize>,
)
    requires
        search_outcome(s, idx, q, r),
    ensures
        q.len() == 0 ==> r == Ok::<(usize, usize), usize>((0, idx.len() as usize)),
        q.len() > 0 && idx.len() == 0 ==> r == Err::<(usize, usize), usize>(0),
{
    if q.len() == 0 {
        if let Ok((lo, hi)) = r {
            assert forall|k: int| 0 <= k < idx.len() implies #[trigger] query_order(
                q,
                suffix(s, idx[k] as int),
            ) == Ordering::Equal by {
                assert(q =~= suffix(s, idx[k] as int).subrange(0, 0));
            }
            if lo > 0 {
                assert(query_order(q, suffix(s, idx[0] as int)) == Ordering::Equal);
            }
            if hi < idx.len() {
                assert(query_order(q, suffix(s, idx[hi as int] as int)) == Ordering::Equal);
            }
        }
    }
}

} // verus!
