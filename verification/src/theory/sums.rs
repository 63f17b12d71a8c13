//! Finite sums of integers, and sums modulo two.
use vstd::prelude::*;

verus! {

/// `f(0) + … + f(n - 1)`.
pub open spec fn sum(n: int, f: spec_fn(int) -> int) -> int
    decreases n,
{
    if n <= 0 {
        0
    } else {
        sum(n - 1, f) + f(n - 1)
    }
}

pub proof fn lemma_sum_ext(n: int, f: spec_fn(int) -> int, g: spec_fn(int) -> int)
    requires
        forall|i: int| 0 <= i < n ==> #[trigger] f(i) == g(i),
    ensures
        sum(n, f) == sum(n, g),
    decreases n,
{
    if n > 0 {
        lemma_sum_ext(n - 1, f, g);
        assert(f(n - 1) == g(n - 1));
    }
}

/// A sum of nonnegative terms is at least each shorter sum, and each term.
pub proof fn lemma_sum_part(n: int, f: spec_fn(int) -> int, m: int)
    requires
        0 <= m <= n,
        forall|i: int| 0 <= i < n ==> #[trigger] f(i) >= 0,
    ensures
        0 <= sum(m, f) <= sum(n, f),
        m < n ==> sum(m, f) + f(m) <= sum(n, f),
    decreases n,
{
    if n > 0 {
        assert(f(n - 1) >= 0);
        if m < n {
            lemma_sum_part(n - 1, f, m);
        } else {
            lemma_sum_part(n - 1, f, n - 1);
        }
    }
}

pub proof fn lemma_sum_add(n: int, f: spec_fn(int) -> int, g: spec_fn(int) -> int)
    ensures
        sum(n, |i: int| f(i) + g(i)) == sum(n, f) + sum(n, g),
    decreases n,
{
    if n > 0 {
        lemma_sum_add(n - 1, f, g);
    }
}

pub proof fn lemma_sum_scale(n: int, c: int, f: spec_fn(int) -> int)
    ensures
        sum(n, |i: int| c * f(i)) == c * sum(n, f),
    decreases n,
{
    if n > 0 {
        lemma_sum_scale(n - 1, c, f);
        assert(c * (sum(n - 1, f) + f(n - 1)) == c * sum(n - 1, f) + c * f(n - 1)) by (nonlinear_arith);
    } else {
        assert(c * 0 == 0);
    }
}

/// The order of two summations does not matter.
pub proof fn lemma_sum_swap(n: int, m: int, f: spec_fn(int, int) -> int)
    ensures
        sum(n, |i: int| sum(m, |j: int| f(i, j))) == sum(m, |j: int| sum(n, |i: int| f(i, j))),
    decreases n,
{
    let inner = |j: int| sum(n, |i: int| f(i, j));
    if n <= 0 {
        lemma_sum_ext(m, inner, |j: int| 0int);
        lemma_sum_zero(m);
    } else {
        lemma_sum_swap(n - 1, m, f);
        let a = |j: int| sum(n - 1, |i: int| f(i, j));
        let b = |j: int| f(n - 1, j);
        lemma_sum_add(m, a, b);
        assert forall|j: int| 0 <= j < m implies #[trigger] inner(j) == a(j) + b(j) by {
        }
        lemma_sum_ext(m, inner, |j: int| a(j) + b(j));
        lemma_sum_ext(m, b, |j: int| f(n - 1, j));
    }
}

pub proof fn lemma_sum_zero(n: int)
    ensures
        sum(n, |i: int| 0int) == 0,
    decreases n,
{
    if n > 0 {
        lemma_sum_zero(n - 1);
    }
}

/// A sum with at most one term that is not zero.
pub proof fn lemma_sum_one(n: int, k: int, f: spec_fn(int) -> int)
    requires
        0 <= k < n,
        forall|i: int| 0 <= i < n && i != k ==> #[trigger] f(i) == 0,
    ensures
        sum(n, f) == f(k),
    decreases n,
{
    if k == n - 1 {
        lemma_sum_ext(n - 1, f, |i: int| 0int);
        lemma_sum_zero(n - 1);
    } else {
        lemma_sum_one(n - 1, k, f);
        assert(f(n - 1) == 0);
    }
}

// ----- modulo two -----

/// Whether an odd number of `f(0), …, f(n - 1)` hold.
pub open spec fn parity(n: int, f: spec_fn(int) -> bool) -> bool
    decreases n,
{
    if n <= 0 {
        false
    } else {
        parity(n - 1, f) != f(n - 1)
    }
}

pub proof fn lemma_parity_ext(n: int, f: spec_fn(int) -> bool, g: spec_fn(int) -> bool)
    requires
        forall|i: int| 0 <= i < n ==> #[trigger] f(i) == g(i),
    ensures
        parity(n, f) == parity(n, g),
    decreases n,
{
    if n > 0 {
        lemma_parity_ext(n - 1, f, g);
        assert(f(n - 1) == g(n - 1));
    }
}

pub proof fn lemma_parity_add(n: int, f: spec_fn(int) -> bool, g: spec_fn(int) -> bool)
    ensures
        parity(n, |i: int| f(i) != g(i)) == (parity(n, f) != parity(n, g)),
    decreases n,
{
    if n > 0 {
        lemma_parity_add(n - 1, f, g);
    }
}

pub proof fn lemma_parity_none(n: int)
    ensures
        !parity(n, |i: int| false),
    decreases n,
{
    if n > 0 {
        lemma_parity_none(n - 1);
    }
}

pub proof fn lemma_parity_scale(n: int, c: bool, f: spec_fn(int) -> bool)
    ensures
        parity(n, |i: int| c && f(i)) == (c && parity(n, f)),
    decreases n,
{
    if n > 0 {
        lemma_parity_scale(n - 1, c, f);
    }
}

pub proof fn lemma_parity_swap(n: int, m: int, f: spec_fn(int, int) -> bool)
    ensures
        parity(n, |i: int| parity(m, |j: int| f(i, j))) == parity(m, |j: int| parity(n, |i: int| f(i, j))),
    decreases n,
{
    let inner = |j: int| parity(n, |i: int| f(i, j));
    if n <= 0 {
        lemma_parity_ext(m, inner, |j: int| false);
        lemma_parity_none(m);
    } else {
        lemma_parity_swap(n - 1, m, f);
        let a = |j: int| parity(n - 1, |i: int| f(i, j));
        let b = |j: int| f(n - 1, j);
        lemma_parity_add(m, a, b);
        assert forall|j: int| 0 <= j < m implies #[trigger] inner(j) == (a(j) != b(j)) by {
        }
        lemma_parity_ext(m, inner, |j: int| a(j) != b(j));
        lemma_parity_ext(m, b, |j: int| f(n - 1, j));
    }
}

pub proof fn lemma_parity_one(n: int, k: int, f: spec_fn(int) -> bool)
    requires
        0 <= k < n,
        forall|i: int| 0 <= i < n && i != k ==> !#[trigger] f(i),
    ensures
        parity(n, f) == f(k),
    decreases n,
{
    if k == n - 1 {
        lemma_parity_ext(n - 1, f, |i: int| false);
        lemma_parity_none(n - 1);
    } else {
        lemma_parity_one(n - 1, k, f);
        assert(!f(n - 1));
    }
}

} // verus!
