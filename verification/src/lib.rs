//! Deterministic simulation core for a probabilistic minesweeper variant.
//!
//! A grid of cells starts fully unresolved; each cell shows the player only a
//! distorted "risk probability". Probabilities are fixed-point values in
//! parts per million (`0 ..= PROB_UNIT`), so every computation in the core is
//! exact integer arithmetic. Cells can be pairwise correlated; observing one
//! endpoint of a hard link forces the partner to resolve, possibly cascading
//! through chains of links.

use vstd::prelude::*;

pub mod circuit;
pub mod entanglement;
pub mod grid;
pub mod rng;

verus! {

/// The fixed-point representation of probability 1: one million parts.
pub const PROB_UNIT: u64 = 1_000_000;

/// The fixed-point representation of probability 1/2.
pub const PROB_HALF: u64 = 500_000;

/// Compare two string slices character by character.
pub fn str_eq(a: &str, b: &str) -> (r: bool)
    ensures
        r == (a@ == b@),
{
    let alen = a.unicode_len();
    let blen = b.unicode_len();
    if alen != blen {
        return false;
    }
    let mut i: usize = 0;
    while i < alen
        invariant
            0 <= i <= alen,
            alen == a@.len(),
            blen == b@.len(),
            alen == blen,
            forall|j: int| 0 <= j < i ==> a@[j] == b@[j],
        decreases alen - i,
    {
        if a.get_char(i) != b.get_char(i) {
            return false;
        }
        i = i + 1;
    }
    proof {
        assert(a@ =~= b@);
    }
    true
}

/// How many elements of a sequence satisfy a predicate.
pub open spec fn count_matching<T>(s: Seq<T>, p: spec_fn(T) -> bool) -> int
    decreases s.len(),
{
    if s.len() == 0 {
        0
    } else {
        count_matching(s.drop_last(), p) + if p(s.last()) {
            1int
        } else {
            0int
        }
    }
}

pub proof fn lemma_count_bounds<T>(s: Seq<T>, p: spec_fn(T) -> bool)
    ensures
        0 <= count_matching(s, p) <= s.len(),
    decreases s.len(),
{
    if s.len() > 0 {
        lemma_count_bounds(s.drop_last(), p);
    }
}

/// Replacing one element changes the count by the difference of the two
/// elements' indicator values.
pub proof fn lemma_count_update<T>(s: Seq<T>, p: spec_fn(T) -> bool, i: int, v: T)
    requires
        0 <= i < s.len(),
    ensures
        count_matching(s.update(i, v), p) == count_matching(s, p) - (if p(s[i]) {
            1int
        } else {
            0int
        }) + (if p(v) {
            1int
        } else {
            0int
        }),
    decreases s.len(),
{
    let su = s.update(i, v);
    if i == s.len() - 1 {
        assert(su.drop_last() =~= s.drop_last());
        assert(su.last() == v);
    } else {
        assert(su.drop_last() =~= s.drop_last().update(i, v));
        lemma_count_update(s.drop_last(), p, i, v);
        assert(su.last() == s.last());
        assert(s.drop_last()[i] == s[i]);
    }
}

/// The count is zero exactly when no element satisfies the predicate.
pub proof fn lemma_count_zero<T>(s: Seq<T>, p: spec_fn(T) -> bool)
    ensures
        (count_matching(s, p) == 0) <==> (forall|i: int| 0 <= i < s.len() ==> !p(s[i])),
    decreases s.len(),
{
    if s.len() > 0 {
        lemma_count_zero(s.drop_last(), p);
        lemma_count_bounds(s.drop_last(), p);
        assert(s.last() == s[s.len() - 1]);
        assert(forall|i: int| 0 <= i < s.len() - 1 ==> s.drop_last()[i] == s[i]);
    }
}

/// If every element matching `p` in `b` also matches in `a` at the same
/// position, `b` has at most as many matches as `a`.
pub proof fn lemma_count_pointwise_le<T>(a: Seq<T>, b: Seq<T>, p: spec_fn(T) -> bool)
    requires
        a.len() == b.len(),
        forall|i: int| 0 <= i < a.len() && p(#[trigger] b[i]) ==> p(a[i]),
    ensures
        count_matching(b, p) <= count_matching(a, p),
    decreases a.len(),
{
    if a.len() > 0 {
        assert(forall|i: int|
            0 <= i < a.len() - 1 && p(#[trigger] b.drop_last()[i]) ==> p(a.drop_last()[i]));
        lemma_count_pointwise_le(a.drop_last(), b.drop_last(), p);
        assert(a.last() == a[a.len() - 1]);
        assert(b.last() == b[b.len() - 1]);
    }
}

/// A weighted mix of two values, both at most `u`, with weights that sum to
/// `u`, stays within `[0, u*u]`, and dividing it back by `u` stays in `[0, u]`.
pub proof fn lemma_weighted_mix_bounded(a: int, b: int, w: int, u: int)
    requires
        0 <= a <= u,
        0 <= b <= u,
        0 <= w <= u,
        1 <= u,
    ensures
        0 <= a * w + b * (u - w) <= u * u,
        0 <= (a * w + b * (u - w)) / u <= u,
{
    assert(0 <= a * w + b * (u - w) <= u * u) by (nonlinear_arith)
        requires
            0 <= a <= u,
            0 <= b <= u,
            0 <= w <= u,
            1 <= u,
    ;
    assert((a * w + b * (u - w)) / u <= u) by (nonlinear_arith)
        requires
            0 <= a * w + b * (u - w) <= u * u,
            1 <= u,
    ;
    assert(0 <= (a * w + b * (u - w)) / u) by (nonlinear_arith)
        requires
            0 <= a * w + b * (u - w),
            1 <= u,
    ;
}

} // verus!
