//! Prefix range search over a suffix array.
use std::cmp::Ordering;
use vstd::prelude::*;

use crate::modes::IndexMode;
use crate::order::{compare_prefix, lemma_query_order_monotone, query_order, rank, suffix};
use crate::{is_suffix_array, SuffixArray};

verus! {

/// The outcomes of `f` along `array` go from `Greater` through `Equal` to
/// `Less`, and `f` gives one outcome per element.
pub open spec fn outcomes_ordered<T, F: Fn(&T) -> Ordering>(array: Seq<T>, f: F) -> bool {
    forall|i: int, j: int, oi: Ordering, oj: Ordering|
        0 <= i <= j < array.len() && #[trigger] f.ensures((&array[i],), oi) && #[trigger] f.ensures(
            (&array[j],),
            oj,
        ) ==> rank(oi) <= rank(oj)
}

/// `f` may be called on every element of `array`.
pub open spec fn callable_on_all<T, F: Fn(&T) -> Ordering>(array: Seq<T>, f: F) -> bool {
    forall|k: int| 0 <= k < array.len() ==> #[trigger] f.requires((&array[k],))
}

/// Every outcome of `f` on an element before `lo` is `Greater`, from `lo` up
/// to `hi` `Equal`, and from `hi` on `Less`.
pub open spec fn outcomes_split<T, F: Fn(&T) -> Ordering>(
    array: Seq<T>,
    f: F,
    lo: int,
    hi: int,
) -> bool {
    forall|k: int, o: Ordering|
        0 <= k < array.len() && #[trigger] f.ensures((&array[k],), o) ==> o == (if k < lo {
            Ordering::Greater
        } else if k < hi {
            Ordering::Equal
        } else {
            Ordering::Less
        })
}

/// Outcomes that `f` was seen to give around the range `lo..hi`: `Greater`
/// just before it, `Equal` at its first and last element, `Less` just after.
pub open spec fn boundary_seen<T, F: Fn(&T) -> Ordering>(
    array: Seq<T>,
    f: F,
    lo: int,
    hi: int,
) -> bool {
    &&& lo == 0 || f.ensures((&array[lo - 1],), Ordering::Greater)
    &&& hi == array.len() || f.ensures((&array[hi],), Ordering::Less)
    &&& lo < hi ==> f.ensures((&array[lo],), Ordering::Equal) && f.ensures(
        (&array[hi - 1],),
        Ordering::Equal,
    )
}

/// Finds one element on which `f` gives `Equal`. On success returns the
/// bounds `(l, r)` still open around it and its place; otherwise the place
/// where the target would be inserted.
pub fn binary_first_match<T, F: Fn(&T) -> Ordering>(array: &[T], f: F) -> (r: Result<
    (usize, usize, usize),
    usize,
>)
    requires
        callable_on_all(array@, f),
        outcomes_ordered(array@, f),
    ensures
        match r {
            Ok((l, h, first)) => {
                &&& l <= first < h <= array.len()
                &&& f.ensures((&array@[first as int],), Ordering::Equal)
                &&& l == 0 || f.ensures((&array@[l - 1],), Ordering::Greater)
                &&& h == array.len() || f.ensures((&array@[h as int],), Ordering::Less)
                &&& forall|k: int, o: Ordering|
                    0 <= k < array.len() && #[trigger] f.ensures((&array@[k],), o) ==> (k < l
                        ==> o == Ordering::Greater) && (k == first ==> o == Ordering::Equal) && (h
                        <= k ==> o == Ordering::Less)
            },
            Err(p) => p <= array.len() && outcomes_split(array@, f, p as int, p as int)
                && boundary_seen(array@, f, p as int, p as int),
        },
{
    let mut l: usize = 0;
    let mut h: usize = array.len();
    while l < h
        invariant
            l <= h <= array.len(),
            l == 0 || f.ensures((&array@[l - 1],), Ordering::Greater),
            h == array.len() || f.ensures((&array@[h as int],), Ordering::Less),
            callable_on_all(array@, f),
            outcomes_ordered(array@, f),
            forall|k: int, o: Ordering|
                0 <= k < array.len() && #[trigger] f.ensures((&array@[k],), o) ==> (k < l ==> o
                    == Ordering::Greater) && (h <= k ==> o == Ordering::Less),
        decreases h - l,
    {
        let mid = l + (h - l) / 2;
        let cmp = f(&array[mid]);
        match cmp {
            Ordering::Less => {
                h = mid;
            },
            Ordering::Greater => {
                l = mid + 1;
            },
            Ordering::Equal => {
                return Ok((l, h, mid));
            },
        }
    }
    Err(l)
}

/// Finds the range of `array` on which `f` gives `Equal`, or, where there is
/// none, the place where the target would be inserted.
pub fn binary_search_range_by<T, F: Fn(&T) -> Ordering>(array: &[T], f: F) -> (r: Result<
    (usize, usize),
    usize,
>)
    requires
        callable_on_all(array@, f),
        outcomes_ordered(array@, f),
    ensures
        match r {
            Ok((lo, hi)) => lo < hi <= array.len() && outcomes_split(array@, f, lo as int, hi as int)
                && boundary_seen(array@, f, lo as int, hi as int),
            Err(p) => p <= array.len() && outcomes_split(array@, f, p as int, p as int)
                && boundary_seen(array@, f, p as int, p as int),
        },
{
    let (mut l, mut h, first) = match binary_first_match(array, &f) {
        Ok(found) => found,
        Err(p) => {
            return Err(p);
        },
    };
    let mut l_r = first;
    while l < l_r
        invariant
            l <= l_r <= first < h <= array.len(),
            f.ensures((&array@[first as int],), Ordering::Equal),
            f.ensures((&array@[l_r as int],), Ordering::Equal),
            l == 0 || f.ensures((&array@[l - 1],), Ordering::Greater),
            h == array.len() || f.ensures((&array@[h as int],), Ordering::Less),
            callable_on_all(array@, f),
            outcomes_ordered(array@, f),
            forall|k: int, o: Ordering|
                0 <= k < array.len() && #[trigger] f.ensures((&array@[k],), o) ==> (k < l ==> o
                    == Ordering::Greater) && (l_r <= k <= first ==> o == Ordering::Equal) && (h
                    <= k ==> o == Ordering::Less),
        decreases l_r - l,
    {
        let mid = l + (l_r - l) / 2;
        let cmp = f(&array[mid]);
        match cmp {
            Ordering::Greater => {
                l = mid + 1;
            },
            _ => {
                l_r = mid;
            },
        }
    }
    let mut r_l = first + 1;
    while r_l < h
        invariant
            l <= first < r_l <= h <= array.len(),
            f.ensures((&array@[first as int],), Ordering::Equal),
            f.ensures((&array@[l as int],), Ordering::Equal),
            f.ensures((&array@[r_l - 1],), Ordering::Equal),
            l == 0 || f.ensures((&array@[l - 1],), Ordering::Greater),
            h == array.len() || f.ensures((&array@[h as int],), Ordering::Less),
            callable_on_all(array@, f),
            outcomes_ordered(array@, f),
            forall|k: int, o: Ordering|
                0 <= k < array.len() && #[trigger] f.ensures((&array@[k],), o) ==> (k < l ==> o
                    == Ordering::Greater) && (l <= k < r_l ==> o == Ordering::Equal) && (h <= k
                    ==> o == Ordering::Less),
        decreases h - r_l,
    {
        let mid = r_l + (h - r_l) / 2;
        let cmp = f(&array[mid]);
        match cmp {
            Ordering::Less => {
                h = mid;
            },
            _ => {
                r_l = mid + 1;
            },
        }
    }
    Ok((l, h))
}

} // verus!

verus! {

/// Along a sorted index list, each entry's outcome against `q` is `Greater`
/// before `lo`, `Equal` from `lo` up to `hi`, and `Less` from `hi` on.
pub open spec fn query_regions(s: Seq<u8>, idx: Seq<usize>, q: Seq<u8>, lo: int, hi: int) -> bool {
    forall|k: int|
        0 <= k < idx.len() ==> #[trigger] query_order(q, suffix(s, idx[k] as int)) == (if k < lo {
            Ordering::Greater
        } else if k < hi {
            Ordering::Equal
        } else {
            Ordering::Less
        })
}

/// What a range search returns: `Ok((lo, hi))` when the entries `lo..hi` are
/// exactly those whose suffix starts with `q` (all of them, possibly none, for
/// an empty `q`), or `Err(p)` when no suffix starts with a non-empty `q`, `p`
/// being the place where `q` would be inserted to keep the list sorted.
pub open spec fn search_outcome(
    s: Seq<u8>,
    idx: Seq<usize>,
    q: Seq<u8>,
    r: Result<(usize, usize), usize>,
) -> bool {
    match r {
        Ok((lo, hi)) => {
            &&& lo <= hi <= idx.len()
            &&& lo < hi || q.len() == 0
            &&& query_regions(s, idx, q, lo as int, hi as int)
        },
        Err(p) => {
            &&& q.len() > 0
            &&& p <= idx.len()
            &&& query_regions(s, idx, q, p as int, p as int)
        },
    }
}

/// Whether `q` is empty or the suffix of some listed position starts with it.
pub open spec fn occurs(s: Seq<u8>, idx: Seq<usize>, q: Seq<u8>) -> bool {
    q.len() == 0 || exists|k: int|
        0 <= k < idx.len() && #[trigger] q.is_prefix_of(suffix(s, idx[k] as int))
}

/// Along a suffix array, a query's outcomes are ordered by position.
pub proof fn lemma_outcomes_follow_order<M: IndexMode>(
    s: Seq<u8>,
    mode: M,
    idx: Seq<usize>,
    q: Seq<u8>,
    i: int,
    j: int,
)
    requires
        is_suffix_array(s, mode, idx),
        0 <= i <= j < idx.len(),
    ensures
        rank(query_order(q, suffix(s, idx[i] as int))) <= rank(
            query_order(q, suffix(s, idx[j] as int)),
        ),
{
    if i < j {
        lemma_query_order_monotone(q, suffix(s, idx[i] as int), suffix(s, idx[j] as int));
    }
}

/// A search strategy over a suffix array.
pub trait Searcher<M: IndexMode> {
    /// The range of index-list entries whose suffix starts with `target`, or
    /// the place where `target` would be inserted.
    fn search_range(sa: &SuffixArray<M>, target: &[u8]) -> (r: Result<(usize, usize), usize>)
        requires
            sa.wf(),
        ensures
            search_outcome(sa.source(), sa.index_list(), target@, r),
    ;

    /// Whether some listed suffix starts with `target`.
    fn search_contains(sa: &SuffixArray<M>, target: &[u8]) -> (r: bool)
        requires
            sa.wf(),
        ensures
            r == occurs(sa.source(), sa.index_list(), target@),
    {
        let r = Self::search_range(sa, target);
        proof {
            lemma_outcome_occurs(sa.source(), sa.index_list(), target@, r);
        }
        r.is_ok()
    }
}

/// A search succeeds exactly when the query occurs.
pub proof fn lemma_outcome_occurs(
    s: Seq<u8>,
    idx: Seq<usize>,
    q: Seq<u8>,
    r: Result<(usize, usize), usize>,
)
    requires
        search_outcome(s, idx, q, r),
    ensures
        r is Ok <==> occurs(s, idx, q),
{
    match r {
        Ok((lo, hi)) => {
            if lo < hi {
                assert(query_order(q, suffix(s, idx[lo as int] as int)) == Ordering::Equal);
            }
        },
        Err(p) => {
            assert forall|k: int| 0 <= k < idx.len() implies !#[trigger] q.is_prefix_of(
                suffix(s, idx[k] as int),
            ) by {
                assert(query_order(q, suffix(s, idx[k] as int)) != Ordering::Equal);
            }
        },
    }
}

/// Binary search with a three-way comparison of the target against each
/// listed suffix cut to the target's length.
pub struct NaiveSearcher;

impl<M: IndexMode> Searcher<M> for NaiveSearcher {
    fn search_range(sa: &SuffixArray<M>, target: &[u8]) -> (r: Result<(usize, usize), usize>) {
        let vals = sa.values().as_slice();
        let idx = sa.indices();
        let ghost s = vals@;
        let ghost q = target@;
        let n = idx.len();
        if target.len() == 0 {
            proof {
                assert forall|k: int| 0 <= k < n implies #[trigger] query_order(
                    q,
                    suffix(s, idx@[k] as int),
                ) == Ordering::Equal by {
                    assert(q =~= suffix(s, idx@[k] as int).subrange(0, 0));
                }
            }
            return Ok((0, n));
        }
        let f = |i: &usize| -> (o: Ordering)
            requires
                *i <= vals@.len(),
            ensures
                o == query_order(target@, suffix(vals@, *i as int)),
            { compare_prefix(target, vals, *i) };
        proof {
            assert forall|k: int| 0 <= k < idx@.len() implies #[trigger] f.requires((&idx@[k],)) by {
                assert(idx@[k] < s.len());
            }
            assert forall|i: int, j: int, oi: Ordering, oj: Ordering|
                0 <= i <= j < idx@.len() && #[trigger] f.ensures((&idx@[i],), oi)
                    && #[trigger] f.ensures((&idx@[j],), oj) implies rank(oi) <= rank(oj) by {
                lemma_outcomes_follow_order(s, sa.mode_of(), idx@, q, i, j);
            }
        }
        let r = binary_search_range_by(idx, f);
        proof {
            let (lo, hi) = match r {
                Ok((lo, hi)) => (lo as int, hi as int),
                Err(p) => (p as int, p as int),
            };
            assert forall|k: int| 0 <= k < n implies #[trigger] query_order(
                q,
                suffix(s, idx@[k] as int),
            ) == (if k < lo {
                Ordering::Greater
            } else if k < hi {
                Ordering::Equal
            } else {
                Ordering::Less
            }) by {
                if k < lo {
                    lemma_outcomes_follow_order(s, sa.mode_of(), idx@, q, k, lo - 1);
                } else if k < hi {
                    lemma_outcomes_follow_order(s, sa.mode_of(), idx@, q, lo, k);
                    lemma_outcomes_follow_order(s, sa.mode_of(), idx@, q, k, hi - 1);
                } else {
                    lemma_outcomes_follow_order(s, sa.mode_of(), idx@, q, hi, k);
                }
            }
        }
        r
    }

    fn search_contains(sa: &SuffixArray<M>, target: &[u8]) -> (r: bool) {
        let vals = sa.values().as_slice();
        let idx = sa.indices();
        let ghost s = vals@;
        let ghost q = target@;
        if target.len() == 0 {
            return true;
        }
        let f = |i: &usize| -> (o: Ordering)
            requires
                *i <= vals@.len(),
            ensures
                o == query_order(target@, suffix(vals@, *i as int)),
            { compare_prefix(target, vals, *i) };
        proof {
            assert forall|k: int| 0 <= k < idx@.len() implies #[trigger] f.requires((&idx@[k],)) by {
                assert(idx@[k] < s.len());
            }
            assert forall|i: int, j: int, oi: Ordering, oj: Ordering|
                0 <= i <= j < idx@.len() && #[trigger] f.ensures((&idx@[i],), oi)
                    && #[trigger] f.ensures((&idx@[j],), oj) implies rank(oi) <= rank(oj) by {
                lemma_outcomes_follow_order(s, sa.mode_of(), idx@, q, i, j);
            }
        }
        let r = binary_first_match(idx, f);
        proof {
            match r {
                Ok((_, _, first)) => {
                    assert(q.is_prefix_of(suffix(s, idx@[first as int] as int)));
                },
                Err(p) => {
                    assert forall|k: int| 0 <= k < idx@.len() implies !#[trigger] q.is_prefix_of(
                        suffix(s, idx@[k] as int),
                    ) by {
                        if k < p {
                            lemma_outcomes_follow_order(s, sa.mode_of(), idx@, q, k, p - 1);
                        } else {
                            lemma_outcomes_follow_order(s, sa.mode_of(), idx@, q, p as int, k);
                        }
                    }
                },
            }
        }
        r.is_ok()
    }
}

impl<M: IndexMode> SuffixArray<M> {
    /// Searches with the strategy `S`.
    pub fn search<S: Searcher<M>>(&self, values: &[u8]) -> (r: Result<(usize, usize), usize>)
        requires
            self.wf(),
        ensures
            search_outcome(self.source(), self.index_list(), values@, r),
    {
        S::search_range(self, values)
    }

    /// Searches with [`NaiveSearcher`].
    pub fn search_naive(&self, values: &[u8]) -> (r: Result<(usize, usize), usize>)
        requires
            self.wf(),
        ensures
            search_outcome(self.source(), self.index_list(), values@, r),
    {
        self.search::<NaiveSearcher>(values)
    }
}

} // verus!
