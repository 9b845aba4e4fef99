//! Counting elements of a sequence that satisfy a predicate, and the little
//! algebra of such counts that the partition proofs rest on.

use vstd::prelude::*;

verus! {

/// How many of the elements of `s` satisfy `p`.
pub open spec fn count_where<A>(s: Seq<A>, p: spec_fn(A) -> bool) -> int
    decreases s.len(),
{
    if s.len() == 0 {
        0
    } else {
        count_where(s.drop_last(), p) + if p(s.last()) {
            1int
        } else {
            0int
        }
    }
}

/// How often `x` occurs in `s`.
pub open spec fn occ<A>(s: Seq<A>, x: A) -> int {
    count_where(s, |y: A| y == x)
}

pub proof fn lemma_count_nonneg<A>(s: Seq<A>, p: spec_fn(A) -> bool)
    ensures
        0 <= count_where(s, p) <= s.len(),
    decreases s.len(),
{
    if s.len() > 0 {
        lemma_count_nonneg(s.drop_last(), p);
    }
}

pub proof fn lemma_count_push<A>(s: Seq<A>, p: spec_fn(A) -> bool, e: A)
    ensures
        count_where(s.push(e), p) == count_where(s, p) + if p(e) {
            1int
        } else {
            0int
        },
{
    assert(s.push(e).drop_last() =~= s);
}

pub proof fn lemma_count_append<A>(a: Seq<A>, b: Seq<A>, p: spec_fn(A) -> bool)
    ensures
        count_where(a + b, p) == count_where(a, p) + count_where(b, p),
    decreases b.len(),
{
    if b.len() == 0 {
        assert(a + b =~= a);
    } else {
        lemma_count_append(a, b.drop_last(), p);
        assert((a + b).drop_last() =~= a + b.drop_last());
        assert((a + b).last() == b.last());
    }
}

/// A count is zero exactly when no element satisfies the predicate.
pub proof fn lemma_count_zero<A>(s: Seq<A>, p: spec_fn(A) -> bool)
    ensures
        count_where(s, p) == 0 <==> (forall|k: int| 0 <= k < s.len() ==> !p(#[trigger] s[k])),
    decreases s.len(),
{
    if s.len() > 0 {
        lemma_count_zero(s.drop_last(), p);
        lemma_count_nonneg(s.drop_last(), p);
        if count_where(s, p) == 0 {
            assert forall|k: int| 0 <= k < s.len() implies !p(#[trigger] s[k]) by {
                if k < s.len() - 1 {
                    assert(s.drop_last()[k] == s[k]);
                } else {
                    assert(s[k] == s.last());
                }
            }
        } else {
            if !p(s.last()) {
                let k = choose|k: int|
                    0 <= k < s.drop_last().len() && p(#[trigger] s.drop_last()[k]);
                assert(s[k] == s.drop_last()[k]);
            }
        }
    }
}

/// A positive count names a witness index, and conversely.
pub proof fn lemma_count_pos<A>(s: Seq<A>, p: spec_fn(A) -> bool)
    ensures
        count_where(s, p) >= 1 <==> (exists|k: int| 0 <= k < s.len() && p(#[trigger] s[k])),
{
    lemma_count_nonneg(s, p);
    lemma_count_zero(s, p);
    if count_where(s, p) >= 1 {
        if forall|k: int| 0 <= k < s.len() ==> !p(#[trigger] s[k]) {
            assert(count_where(s, p) == 0);
        }
    }
}

/// Two distinct witness indices force a count of at least two.
pub proof fn lemma_count_two<A>(s: Seq<A>, p: spec_fn(A) -> bool, a: int, b: int)
    requires
        0 <= a < b < s.len(),
        p(s[a]),
        p(s[b]),
    ensures
        count_where(s, p) >= 2,
    decreases s.len(),
{
    if b == s.len() - 1 {
        assert(s.drop_last()[a] == s[a]);
        lemma_count_pos(s.drop_last(), p);
        assert(s.last() == s[b]);
    } else {
        lemma_count_two(s.drop_last(), p, a, b);
        lemma_count_nonneg(s.drop_last(), p);
    }
}

/// A count of at most one means the witness index is unique.
pub proof fn lemma_count_unique<A>(s: Seq<A>, p: spec_fn(A) -> bool, a: int, b: int)
    requires
        count_where(s, p) <= 1,
        0 <= a < s.len(),
        0 <= b < s.len(),
        p(s[a]),
        p(s[b]),
    ensures
        a == b,
{
    if a < b {
        lemma_count_two(s, p, a, b);
    } else if b < a {
        lemma_count_two(s, p, b, a);
    }
}

/// A sequence has no duplicates exactly when nothing occurs twice in it.
pub proof fn lemma_occ_no_duplicates<A>(s: Seq<A>)
    ensures
        s.no_duplicates() <==> (forall|x: A| #[trigger] occ(s, x) <= 1),
{
    if s.no_duplicates() {
        assert forall|x: A| #[trigger] occ(s, x) <= 1 by {
            lemma_count_nonneg(s, |y: A| y == x);
            if occ(s, x) >= 2 {
                lemma_count_ge_two_witness(s, |y: A| y == x);
                let (a, b) = choose|a: int, b: int|
                    0 <= a < b < s.len() && (|y: A| y == x)(s[a]) && (|y: A| y == x)(s[b]);
                assert(s[a] == s[b]);
            }
        }
    }
    if forall|x: A| #[trigger] occ(s, x) <= 1 {
        assert forall|a: int, b: int|
            0 <= a < s.len() && 0 <= b < s.len() && a != b implies s[a] != s[b] by {
            if s[a] == s[b] {
                let x = s[a];
                assert(occ(s, x) <= 1);
                assert((|y: A| y == x)(s[a]));
                assert((|y: A| y == x)(s[b]));
                lemma_count_unique(s, |y: A| y == x, a, b);
            }
        }
    }
}

/// A count of at least two names two distinct witness indices.
pub proof fn lemma_count_ge_two_witness<A>(s: Seq<A>, p: spec_fn(A) -> bool)
    requires
        count_where(s, p) >= 2,
    ensures
        exists|a: int, b: int| 0 <= a < b < s.len() && p(#[trigger] s[a]) && p(#[trigger] s[b]),
    decreases s.len(),
{
    lemma_count_nonneg(s.drop_last(), p);
    if s.len() > 0 {
        if p(s.last()) && count_where(s.drop_last(), p) >= 1 {
            lemma_count_pos(s.drop_last(), p);
            let a = choose|k: int| 0 <= k < s.drop_last().len() && p(#[trigger] s.drop_last()[k]);
            assert(s[a] == s.drop_last()[a]);
            assert(p(s[a]) && p(s[s.len() - 1]));
        } else {
            lemma_count_ge_two_witness(s.drop_last(), p);
            let (a, b) = choose|a: int, b: int|
                0 <= a < b < s.drop_last().len() && p(#[trigger] s.drop_last()[a])
                    && p(#[trigger] s.drop_last()[b]);
            assert(s[a] == s.drop_last()[a] && s[b] == s.drop_last()[b]);
        }
    }
}

/// Pushing a fresh element keeps a sequence duplicate-free.
pub proof fn lemma_nodup_push<A>(s: Seq<A>, e: A)
    requires
        s.no_duplicates(),
        !s.contains(e),
    ensures
        s.push(e).no_duplicates(),
{
    assert forall|a: int, b: int|
        0 <= a < s.push(e).len() && 0 <= b < s.push(e).len() && a != b
        implies s.push(e)[a] != s.push(e)[b] by {
        if a < s.len() && b == s.len() && s[a] == e {
            assert(s.contains(e));
        }
        if b < s.len() && a == s.len() && s[b] == e {
            assert(s.contains(e));
        }
    }
}

/// An element occurs in a sequence exactly when its occurrence count is positive.
pub proof fn lemma_occ_contains<A>(s: Seq<A>, x: A)
    ensures
        occ(s, x) >= 1 <==> s.contains(x),
        occ(s, x) >= 0,
{
    lemma_count_pos(s, |y: A| y == x);
    lemma_count_nonneg(s, |y: A| y == x);
    if s.contains(x) {
        let k = choose|k: int| 0 <= k < s.len() && s[k] == x;
        assert((|y: A| y == x)(s[k]));
    }
}

} // verus!
