//! Lexicographic order on byte sequences, the order in which a suffix array
//! lists its suffixes.
use vstd::prelude::*;
use std::cmp::Ordering;

verus! {

/// The tail of `s` that starts at position `p`.
pub open spec fn suffix(s: Seq<u8>, p: int) -> Seq<u8> {
    s.subrange(p, s.len() as int)
}

/// Strict lexicographic order; a proper prefix sorts before the longer sequence.
pub open spec fn lex_lt(a: Seq<u8>, b: Seq<u8>) -> bool
    decreases a.len(),
{
    if b.len() == 0 {
        false
    } else if a.len() == 0 {
        true
    } else if a[0] != b[0] {
        a[0] < b[0]
    } else {
        lex_lt(a.drop_first(), b.drop_first())
    }
}

/// No sequence sorts before itself.
pub proof fn lemma_lex_irreflexive(a: Seq<u8>)
    ensures
        !lex_lt(a, a),
    decreases a.len(),
{
    if a.len() > 0 {
        lemma_lex_irreflexive(a.drop_first());
    }
}

/// At most one of two sequences sorts before the other.
pub proof fn lemma_lex_asymmetric(a: Seq<u8>, b: Seq<u8>)
    requires
        lex_lt(a, b),
    ensures
        !lex_lt(b, a),
    decreases a.len(),
{
    if a.len() > 0 && b.len() > 0 && a[0] == b[0] {
        lemma_lex_asymmetric(a.drop_first(), b.drop_first());
    }
}

/// The order is transitive.
pub proof fn lemma_lex_transitive(a: Seq<u8>, b: Seq<u8>, c: Seq<u8>)
    requires
        lex_lt(a, b),
        lex_lt(b, c),
    ensures
        lex_lt(a, c),
    decreases a.len(),
{
    if a.len() > 0 && b.len() > 0 && c.len() > 0 && a[0] == b[0] && b[0] == c[0] {
        lemma_lex_transitive(a.drop_first(), b.drop_first(), c.drop_first());
    }
}

/// Two different sequences are always ordered one way or the other.
pub proof fn lemma_lex_total(a: Seq<u8>, b: Seq<u8>)
    requires
        a != b,
    ensures
        lex_lt(a, b) || lex_lt(b, a),
    decreases a.len(),
{
    if a.len() > 0 && b.len() > 0 && a[0] == b[0] {
        if a.drop_first() == b.drop_first() {
            assert(a =~= seq![a[0]] + a.drop_first());
            assert(b =~= seq![b[0]] + b.drop_first());
        }
        lemma_lex_total(a.drop_first(), b.drop_first());
    } else if a.len() == 0 && b.len() == 0 {
        assert(a =~= b);
    }
}

} // verus!

verus! {

/// Suffixes that start at different positions differ (they differ in length).
pub proof fn lemma_suffixes_distinct(s: Seq<u8>, a: int, b: int)
    requires
        0 <= a <= s.len(),
        0 <= b <= s.len(),
        a != b,
    ensures
        suffix(s, a) != suffix(s, b),
        lex_lt(suffix(s, a), suffix(s, b)) || lex_lt(suffix(s, b), suffix(s, a)),
{
    assert(suffix(s, a).len() != suffix(s, b).len());
    lemma_lex_total(suffix(s, a), suffix(s, b));
}

proof fn lemma_suffix_step(s: Seq<u8>, a: int)
    requires
        0 <= a < s.len(),
    ensures
        suffix(s, a).drop_first() == suffix(s, a + 1),
        suffix(s, a)[0] == s[a],
        suffix(s, a).len() > 0,
{
    assert(suffix(s, a).drop_first() =~= suffix(s, a + 1));
}

/// Whether the suffix of `s` at `i` sorts strictly before the suffix at `j`.
pub fn suffix_less(s: &[u8], i: usize, j: usize) -> (r: bool)
    requires
        i <= s.len(),
        j <= s.len(),
    ensures
        r == lex_lt(suffix(s@, i as int), suffix(s@, j as int)),
{
    let n = s.len();
    let mut a: usize = i;
    let mut b: usize = j;
    loop
        invariant
            i <= a <= n,
            j <= b <= n,
            n == s@.len(),
            a - i == b - j,
            lex_lt(suffix(s@, i as int), suffix(s@, j as int)) == lex_lt(
                suffix(s@, a as int),
                suffix(s@, b as int),
            ),
        decreases n - a,
    {
        if b == n {
            assert(suffix(s@, b as int).len() == 0);
            return false;
        }
        if a == n {
            assert(suffix(s@, a as int).len() == 0);
            proof {
                lemma_suffix_step(s@, b as int);
            }
            return true;
        }
        proof {
            lemma_suffix_step(s@, a as int);
            lemma_suffix_step(s@, b as int);
        }
        if s[a] != s[b] {
            return s[a] < s[b];
        }
        a = a + 1;
        b = b + 1;
    }
}

} // verus!

verus! {

/// How a query stands against a text when only the text's first `q.len()`
/// elements count: `Equal` when the query is a prefix of the text, `Greater`
/// when the text sorts before the query, `Less` otherwise.
pub open spec fn query_order(q: Seq<u8>, t: Seq<u8>) -> Ordering {
    if q.is_prefix_of(t) {
        Ordering::Equal
    } else if lex_lt(t, q) {
        Ordering::Greater
    } else {
        Ordering::Less
    }
}

/// Position of an outcome in the order `Greater`, `Equal`, `Less` in which
/// the outcomes appear along a sorted suffix array.
pub open spec fn rank(o: Ordering) -> int {
    match o {
        Ordering::Greater => 0,
        Ordering::Equal => 1,
        Ordering::Less => 2,
    }
}

proof fn lemma_prefix_step(q: Seq<u8>, t: Seq<u8>)
    requires
        q.len() > 0,
        t.len() > 0,
        q[0] == t[0],
    ensures
        q.is_prefix_of(t) == q.drop_first().is_prefix_of(t.drop_first()),
{
    if q.drop_first().is_prefix_of(t.drop_first()) {
        assert(q =~= t.subrange(0, q.len() as int)) by {
            assert forall|k: int| 0 <= k < q.len() implies q[k] == t[k] by {
                if k > 0 {
                    assert(q.drop_first()[k - 1] == t.drop_first().subrange(
                        0,
                        q.len() - 1,
                    )[k - 1]);
                }
            }
        }
    }
    if q.is_prefix_of(t) {
        assert(q.drop_first() =~= t.drop_first().subrange(0, q.len() - 1)) by {
            assert forall|k: int| 0 <= k < q.len() - 1 implies q.drop_first()[k]
                == t.drop_first()[k] by {
                assert(q[k + 1] == t.subrange(0, q.len() as int)[k + 1]);
            }
        }
    }
}

/// A query that is a prefix of a text does not sort after it.
pub proof fn lemma_prefix_not_after(q: Seq<u8>, t: Seq<u8>)
    requires
        q.is_prefix_of(t),
    ensures
        !lex_lt(t, q),
    decreases q.len(),
{
    if q.len() > 0 {
        assert(t[0] == t.subrange(0, q.len() as int)[0]);
        lemma_prefix_step(q, t);
        lemma_prefix_not_after(q.drop_first(), t.drop_first());
    }
}

proof fn lemma_prefix_of_greater(q: Seq<u8>, a: Seq<u8>, b: Seq<u8>)
    requires
        lex_lt(a, b),
        q.is_prefix_of(b),
        lex_lt(q, a),
    ensures
        q.is_prefix_of(a),
    decreases q.len(),
{
    if q.len() > 0 {
        assert(b[0] == b.subrange(0, q.len() as int)[0]);
        lemma_prefix_step(q, b);
        if a.len() > 0 && q[0] == a[0] {
            lemma_prefix_step(q, a);
            lemma_prefix_of_greater(q.drop_first(), a.drop_first(), b.drop_first());
        }
    } else {
        assert(q =~= a.subrange(0, 0));
    }
}

/// Along texts in increasing order, a query's outcome only moves from
/// `Greater` through `Equal` to `Less`.
pub proof fn lemma_query_order_monotone(q: Seq<u8>, a: Seq<u8>, b: Seq<u8>)
    requires
        lex_lt(a, b),
    ensures
        rank(query_order(q, a)) <= rank(query_order(q, b)),
{
    if lex_lt(b, q) {
        lemma_lex_transitive(a, b, q);
        if q.is_prefix_of(a) {
            lemma_prefix_not_after(q, a);
        }
    }
    if q.is_prefix_of(b) && !q.is_prefix_of(a) && !lex_lt(a, q) {
        if q != a {
            lemma_lex_total(q, a);
            lemma_prefix_of_greater(q, a, b);
        } else {
            assert(q =~= a.subrange(0, q.len() as int));
        }
    }
    if q.is_prefix_of(b) {
        lemma_prefix_not_after(q, b);
    }
}

/// Compares a query with the suffix of `s` at `p`, cut to the query's length.
pub fn compare_prefix(q: &[u8], s: &[u8], p: usize) -> (r: Ordering)
    requires
        p <= s.len(),
    ensures
        r == query_order(q@, suffix(s@, p as int)),
{
    let n = s.len();
    let m = q.len();
    let mut k: usize = 0;
    assert(q@.subrange(0, m as int) =~= q@);
    loop
        invariant
            n == s@.len(),
            m == q@.len(),
            p <= n,
            k <= m,
            p + k <= n,
            query_order(q@, suffix(s@, p as int)) == query_order(
                q@.subrange(k as int, m as int),
                suffix(s@, p + k),
            ),
        decreases m - k,
    {
        let ghost qk = q@.subrange(k as int, m as int);
        let ghost tk = suffix(s@, p + k);
        if k == m {
            assert(qk =~= tk.subrange(0, 0));
            return Ordering::Equal;
        }
        if p + k == n {
            assert(!qk.is_prefix_of(tk));
            return Ordering::Greater;
        }
        proof {
            lemma_suffix_step(s@, p + k);
            assert(qk.drop_first() =~= q@.subrange(k + 1, m as int));
        }
        if q[k] != s[p + k] {
            assert(!qk.is_prefix_of(tk)) by {
                if qk.is_prefix_of(tk) {
                    assert(tk.subrange(0, qk.len() as int)[0] == tk[0]);
                }
            }
            if q[k] < s[p + k] {
                return Ordering::Less;
            } else {
                return Ordering::Greater;
            }
        }
        proof {
            lemma_prefix_step(qk, tk);
        }
        k = k + 1;
    }
}

} // verus!

verus! {

/// Suffixes whose first bytes differ are ordered by those bytes.
pub proof fn lemma_first_byte_order(s: Seq<u8>, a: int, b: int)
    requires
        0 <= a < s.len(),
        0 <= b < s.len(),
        s[a] < s[b],
    ensures
        lex_lt(suffix(s, a), suffix(s, b)),
{
    lemma_suffix_step(s, a);
    lemma_suffix_step(s, b);
}

} // verus!

verus! {

/// Whether the suffix at `i` is L-type: the last position is L-type by
/// convention; otherwise a larger byte than the next one makes it L-type, a
/// smaller one S-type, and an equal one the type of the next position.
pub open spec fn is_l_type(s: Seq<u8>, i: int) -> bool
    decreases s.len() - i,
{
    if i + 1 >= s.len() {
        true
    } else if s[i] != s[i + 1] {
        s[i] > s[i + 1]
    } else {
        is_l_type(s, i + 1)
    }
}

/// A position before the last is L-type exactly when its suffix is greater
/// than the suffix that follows it.
pub proof fn lemma_l_type_meaning(s: Seq<u8>, i: int)
    requires
        0 <= i < s.len() - 1,
    ensures
        is_l_type(s, i) <==> lex_lt(suffix(s, i + 1), suffix(s, i)),
    decreases s.len() - i,
{
    lemma_suffix_step(s, i);
    lemma_suffix_step(s, i + 1);
    if s[i] != s[i + 1] {
        if s[i] > s[i + 1] {
            lemma_first_byte_order(s, i + 1, i);
        } else {
            lemma_first_byte_order(s, i, i + 1);
            lemma_lex_asymmetric(suffix(s, i), suffix(s, i + 1));
        }
    } else {
        assert(lex_lt(suffix(s, i + 1), suffix(s, i)) == lex_lt(suffix(s, i + 2), suffix(s, i + 1)));
        if i + 2 == s.len() {
            assert(suffix(s, i + 2).len() == 0);
            assert(is_l_type(s, i + 1));
            assert(lex_lt(suffix(s, i + 2), suffix(s, i + 1)));
        } else {
            lemma_l_type_meaning(s, i + 1);
        }
    }
}

} // verus!
