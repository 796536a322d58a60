use vstd::arithmetic::div_mod::{lemma_div_multiples_vanish, lemma_fundamental_div_mod};
use vstd::prelude::*;

verus! {

/// "n choose k", defined by Pascal's rule.
pub open spec fn binom(n: nat, k: nat) -> nat
    decreases n,
{
    if k == 0 {
        1
    } else if n == 0 {
        0
    } else {
        binom((n - 1) as nat, (k - 1) as nat) + binom((n - 1) as nat, k)
    }
}

/// There is no way to choose more elements than there are.
pub proof fn lemma_binom_above(n: nat, k: nat)
    requires
        k > n,
    ensures
        binom(n, k) == 0,
    decreases n,
{
    if n > 0 {
        lemma_binom_above((n - 1) as nat, (k - 1) as nat);
        lemma_binom_above((n - 1) as nat, k);
    }
}

/// Every subset size from 0 to n is attained at least once.
pub proof fn lemma_binom_positive(n: nat, k: nat)
    requires
        k <= n,
    ensures
        binom(n, k) >= 1,
    decreases n,
{
    if k > 0 {
        lemma_binom_positive((n - 1) as nat, (k - 1) as nat);
    }
}

/// Choosing all n elements can be done in one way.
pub proof fn lemma_binom_all(n: nat)
    ensures
        binom(n, n) == 1,
    decreases n,
{
    if n > 0 {
        lemma_binom_all((n - 1) as nat);
        lemma_binom_above((n - 1) as nat, n);
    }
}

/// Choosing k elements is choosing the n - k that are left out:
/// `binom(n, k) == binom(n, n - k)`.
pub proof fn lemma_binom_symmetry(n: nat, k: nat)
    requires
        k <= n,
    ensures
        binom(n, k) == binom(n, (n - k) as nat),
    decreases n,
{
    if k == 0 {
        lemma_binom_all(n);
    } else if k == n {
        lemma_binom_all(n);
    } else {
        lemma_binom_symmetry((n - 1) as nat, (k - 1) as nat);
        lemma_binom_symmetry((n - 1) as nat, k);
        assert(binom(n, (n - k) as nat) == binom((n - 1) as nat, (n - k - 1) as nat) + binom(
            (n - 1) as nat,
            (n - k) as nat,
        ));
    }
}

/// The absorption identity `k * binom(n, k) == n * binom(n - 1, k - 1)`.
pub proof fn lemma_binom_absorption(n: nat, k: nat)
    requires
        n >= 1,
        k >= 1,
    ensures
        k * binom(n, k) == n * binom((n - 1) as nat, (k - 1) as nat),
    decreases n,
{
    let n1 = (n - 1) as nat;
    let k1 = (k - 1) as nat;
    if n == 1 {
        if k > 1 {
            lemma_binom_above(n, k);
            lemma_binom_above(0, k1);
            assert(k * binom(n, k) == 0) by (nonlinear_arith)
                requires
                    binom(n, k) == 0,
            ;
        } else {
            lemma_binom_all(1);
        }
    } else if k == 1 {
        assert(binom(n, 1) == binom(n1, 0) + binom(n1, 1));
        lemma_binom_absorption(n1, 1);
        let b = binom(n1, 1);
        let z = binom((n1 - 1) as nat, 0);
        assert(z == 1);
        assert(b == n1) by (nonlinear_arith)
            requires
                1 * b == n1 * z,
                z == 1,
        ;
        assert(binom(n, 1) == n);
        assert(k * binom(n, k) == n * binom(n1, k1)) by (nonlinear_arith)
            requires
                k == 1,
                k1 == 0,
                binom(n, k) == n,
                binom(n1, k1) == 1,
        ;
    } else {
        let n2 = (n - 2) as nat;
        let k2 = (k - 2) as nat;
        // k * binom(n - 1, k) == (n - 1) * binom(n - 2, k - 1)
        lemma_binom_absorption(n1, k);
        // (k - 1) * binom(n - 1, k - 1) == (n - 1) * binom(n - 2, k - 2)
        lemma_binom_absorption(n1, k1);
        assert(binom(n, k) == binom(n1, k1) + binom(n1, k));
        assert(binom(n1, k1) == binom(n2, k2) + binom(n2, k1));
        assert(k * binom(n, k) == k * binom(n1, k1) + k * binom(n1, k)) by (nonlinear_arith)
            requires
                binom(n, k) == binom(n1, k1) + binom(n1, k),
        ;
        assert(k * binom(n1, k1) == binom(n1, k1) + k1 * binom(n1, k1)) by (nonlinear_arith)
            requires
                k == k1 + 1,
        ;
        assert(n1 * binom(n1, k1) == n1 * binom(n2, k2) + n1 * binom(n2, k1)) by (nonlinear_arith)
            requires
                binom(n1, k1) == binom(n2, k2) + binom(n2, k1),
        ;
        assert(n * binom(n1, k1) == binom(n1, k1) + n1 * binom(n1, k1)) by (nonlinear_arith)
            requires
                n == n1 + 1,
        ;
        assert(k * binom(n1, k) == n1 * binom(n2, k1));
        assert(k1 * binom(n1, k1) == n1 * binom(n2, k2));
        assert(k * binom(n, k) == n * binom(n1, k1));
    }
}

/// One step along a diagonal of Pascal's triangle:
/// `(i + 1) * binom(m + i + 1, i + 1) == (m + i + 1) * binom(m + i, i)`,
/// and the entries do not decrease.
pub proof fn lemma_binom_diagonal_step(m: nat, i: nat)
    ensures
        (i + 1) * binom(m + i + 1, i + 1) == (m + i + 1) * binom(m + i, i),
        binom(m + i, i) <= binom(m + i + 1, i + 1),
{
    lemma_binom_absorption(m + i + 1, i + 1);
    assert(((m + i + 1) - 1) as nat == m + i);
    let a = binom(m + i, i);
    let b = binom(m + i + 1, i + 1);
    assert(a <= b) by (nonlinear_arith)
        requires
            (i + 1) * b == (m + i + 1) * a,
    ;
}

/// Entries along a diagonal of Pascal's triangle do not decrease.
pub proof fn lemma_binom_diagonal_monotone(m: nat, i: nat, j: nat)
    requires
        i <= j,
    ensures
        binom(m + i, i) <= binom(m + j, j),
    decreases j - i,
{
    if i < j {
        lemma_binom_diagonal_step(m, i);
        lemma_binom_diagonal_monotone(m, i + 1, j);
    }
}

/// The k-th term of Vandermonde's sum: ways to take k elements out of a first
/// group of `a` and the other `n - k` out of a second group of `b`.
pub open spec fn vandermonde_term(a: nat, b: nat, n: nat, k: nat) -> nat {
    if k <= n {
        binom(a, k) * binom(b, (n - k) as nat)
    } else {
        0
    }
}

/// Sum of the terms `vandermonde_term(a, b, n, k)` for `k` from 0 to `j`.
pub open spec fn vandermonde_sum(a: nat, b: nat, n: nat, j: nat) -> nat
    decreases j,
{
    if j == 0 {
        vandermonde_term(a, b, n, 0)
    } else {
        vandermonde_sum(a, b, n, (j - 1) as nat) + vandermonde_term(a, b, n, j)
    }
}

proof fn lemma_sum_empty_first_group(b: nat, n: nat, j: nat)
    ensures
        vandermonde_sum(0, b, n, j) == binom(b, n),
    decreases j,
{
    if j == 0 {
        assert(binom(0, 0) == 1);
        assert(vandermonde_term(0, b, n, 0) == binom(b, n)) by (nonlinear_arith)
            requires
                vandermonde_term(0, b, n, 0) == binom(0, 0) * binom(b, n),
                binom(0, 0) == 1,
        ;
    } else {
        lemma_sum_empty_first_group(b, n, (j - 1) as nat);
        lemma_binom_above(0, j);
        if j <= n {
            let c = binom(b, (n - j) as nat);
            assert(binom(0, j) * c == 0) by (nonlinear_arith)
                requires
                    binom(0, j) == 0,
            ;
        }
    }
}

proof fn lemma_term_split(a: nat, b: nat, n: nat, j: nat)
    requires
        n >= 1,
        j >= 1,
    ensures
        vandermonde_term(a + 1, b, n, j) == vandermonde_term(a, b, n, j) + vandermonde_term(
            a,
            b,
            (n - 1) as nat,
            (j - 1) as nat,
        ),
{
    if j <= n {
        let c = binom(b, (n - j) as nat);
        assert(((n - 1) - (j - 1)) as nat == (n - j) as nat);
        assert(binom(a + 1, j) == binom(a, (j - 1) as nat) + binom(a, j));
        let x = binom(a, (j - 1) as nat);
        let y = binom(a, j);
        assert((x + y) * c == y * c + x * c) by (nonlinear_arith);
    }
}

proof fn lemma_sum_split(a: nat, b: nat, n: nat, j: nat)
    requires
        n >= 1,
        j >= 1,
    ensures
        vandermonde_sum(a + 1, b, n, j) == vandermonde_sum(a, b, n, j) + vandermonde_sum(
            a,
            b,
            (n - 1) as nat,
            (j - 1) as nat,
        ),
    decreases j,
{
    lemma_term_split(a, b, n, j);
    if j == 1 {
        let c = binom(b, n);
        assert(binom(a + 1, 0) == 1 && binom(a, 0) == 1);
        assert(vandermonde_term(a + 1, b, n, 0) == c && vandermonde_term(a, b, n, 0) == c)
            by (nonlinear_arith)
            requires
                vandermonde_term(a + 1, b, n, 0) == binom(a + 1, 0) * c,
                vandermonde_term(a, b, n, 0) == binom(a, 0) * c,
                binom(a + 1, 0) == 1 && binom(a, 0) == 1,
        ;
        assert(vandermonde_sum(a, b, (n - 1) as nat, 0) == vandermonde_term(a, b, (n - 1) as nat, 0));
        assert(vandermonde_sum(a + 1, b, n, 0) == vandermonde_term(a + 1, b, n, 0));
        assert(vandermonde_sum(a, b, n, 0) == vandermonde_term(a, b, n, 0));
        assert(vandermonde_sum(a + 1, b, n, 1) == vandermonde_term(a + 1, b, n, 0) + vandermonde_term(a + 1, b, n, 1));
        assert(vandermonde_sum(a, b, n, 1) == vandermonde_term(a, b, n, 0) + vandermonde_term(a, b, n, 1));
    } else {
        let j1 = (j - 1) as nat;
        let j2 = (j - 2) as nat;
        let n1 = (n - 1) as nat;
        lemma_sum_split(a, b, n, j1);
        assert(vandermonde_sum(a + 1, b, n, j) == vandermonde_sum(a + 1, b, n, j1) + vandermonde_term(a + 1, b, n, j));
        assert(vandermonde_sum(a, b, n, j) == vandermonde_sum(a, b, n, j1) + vandermonde_term(a, b, n, j));
        assert(vandermonde_sum(a, b, n1, j1) == vandermonde_sum(a, b, n1, j2) + vandermonde_term(a, b, n1, j1));
        assert((j1 - 1) as nat == j2);
    }
}

/// Vandermonde's identity: summing over how many of the chosen elements come
/// from the first group, `sum(k <= n) binom(a, k) * binom(b, n - k) == binom(a + b, n)`.
pub proof fn lemma_vandermonde(a: nat, b: nat, n: nat)
    ensures
        vandermonde_sum(a, b, n, n) == binom(a + b, n),
    decreases a,
{
    if a == 0 {
        lemma_sum_empty_first_group(b, n, n);
    } else if n == 0 {
        assert(binom(a, 0) == 1 && binom(b, 0) == 1);
        assert(binom(a, 0) * binom(b, 0) == 1) by (nonlinear_arith)
            requires
                binom(a, 0) == 1 && binom(b, 0) == 1,
        ;
    } else {
        let a1 = (a - 1) as nat;
        let n1 = (n - 1) as nat;
        lemma_sum_split(a1, b, n, n);
        lemma_vandermonde(a1, b, n);
        lemma_vandermonde(a1, b, n1);
        assert(binom(a1 + b + 1, n) == binom(a1 + b, n1) + binom(a1 + b, n));
    }
}

/// Terms past `n` add nothing: a partial sum that reaches `n` is the full sum.
pub proof fn lemma_sum_past_end(a: nat, b: nat, n: nat, j: nat)
    requires
        j >= n,
    ensures
        vandermonde_sum(a, b, n, j) == vandermonde_sum(a, b, n, n),
    decreases j,
{
    if j > n {
        lemma_sum_past_end(a, b, n, (j - 1) as nat);
    }
}

/// Partial sums grow with the number of terms, and each term is at most any
/// partial sum that includes it.
pub proof fn lemma_sum_monotone(a: nat, b: nat, n: nat, i: nat, j: nat)
    requires
        i <= j,
    ensures
        vandermonde_sum(a, b, n, i) <= vandermonde_sum(a, b, n, j),
        vandermonde_term(a, b, n, i) <= vandermonde_sum(a, b, n, j),
    decreases j,
{
    if i < j {
        lemma_sum_monotone(a, b, n, i, (j - 1) as nat);
    }
}

/// Binomial coefficient, or `None` where it does not fit in a `u128`.
pub fn checked_binomial(n: u64, k: u64) -> (r: Option<u128>)
    ensures
        r.is_some() <==> binom(n as nat, k as nat) <= u128::MAX,
        r matches Some(v) ==> v == binom(n as nat, k as nat),
{
    if k > n {
        proof {
            lemma_binom_above(n as nat, k as nat);
        }
        return Some(0);
    }
    // binom(n, k) == binom(n, n - k): walk the shorter way

    let kk: u64 = if k <= n - k {
        k
    } else {
        n - k
    };
    proof {
        lemma_binom_symmetry(n as nat, k as nat);
    }
    let m: u64 = n - kk;
    assert(binom(n as nat, k as nat) == binom((m + kk) as nat, kk as nat));
    // c runs along the diagonal binom(m, 0), binom(m + 1, 1), ..., binom(m + kk, kk)
    let mut c: u128 = 1;
    let mut i: u64 = 0;
    while i < kk
        invariant
            m + kk == n,
            i <= kk,
            binom(n as nat, k as nat) == binom((m + kk) as nat, kk as nat),
            c == binom((m + i) as nat, i as nat),
        decreases kk - i,
    {
        let t: u64 = m + i + 1;
        let d: u64 = i + 1;
        let ghost next = binom((m + i + 1) as nat, (i + 1) as nat);
        proof {
            lemma_binom_diagonal_step(m as nat, i as nat);
            lemma_binom_diagonal_monotone(m as nat, (i + 1) as nat, kk as nat);
        }
        // c * t == d * next, computed as (c / d) * t + (c % d) * t / d
        let q: u128 = c / (d as u128);
        let rem: u128 = c % (d as u128);
        proof {
            lemma_fundamental_div_mod(c as int, d as int);
            assert(rem * t <= (u64::MAX - 1) * u64::MAX) by (nonlinear_arith)
                requires
                    rem < d,
                    d <= u64::MAX,
                    t <= u64::MAX,
            ;
            assert(rem * t == d * (next - q * t)) by (nonlinear_arith)
                requires
                    c == d * q + rem,
                    d * next == t * c,
            ;
            lemma_div_multiples_vanish(next - q * t, d as int);
            assert(next - q * t >= 0) by (nonlinear_arith)
                requires
                    rem * t == d * (next - q * t),
                    rem >= 0,
                    d > 0,
            ;
        }
        let head: u128 = match q.checked_mul(t as u128) {
            Some(v) => v,
            None => {
                return None;
            },
        };
        let tail: u128 = (rem * (t as u128)) / (d as u128);
        c = match head.checked_add(tail) {
            Some(v) => v,
            None => {
                return None;
            },
        };
        i = i + 1;
    }
    Some(c)
}

/// Exact binomial coefficient "n choose k"; zero when `k > n`.
pub fn binomial(n: u64, k: u64) -> (r: u128)
    requires
        binom(n as nat, k as nat) <= u128::MAX,
    ensures
        r == binom(n as nat, k as nat),
{
    match checked_binomial(n, k) {
        Some(v) => v,
        None => 0,
    }
}

} // verus!
