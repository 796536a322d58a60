use vstd::prelude::*;

use crate::porazdelitev::Ulomek;
use crate::utils::{
    binom, checked_binomial, lemma_binom_above, lemma_binom_positive, lemma_sum_monotone,
    lemma_sum_past_end, lemma_vandermonde, vandermonde_sum, vandermonde_term,
};

verus! {

/// Number of successes in a sample of `n` drawn without replacement from a
/// population of `r` elements, `s` of which are successes.
pub struct Hipergeometrijska {
    pub s: u64,
    pub r: u64,
    pub n: u64,
}

impl Hipergeometrijska {
    /// The successes and the sample both fit in the population.
    pub open spec fn wf(&self) -> bool {
        self.s <= self.r && self.n <= self.r
    }

    /// Samples with exactly `k` successes.
    pub open spec fn samples_with(&self, k: nat) -> nat {
        vandermonde_term(self.s as nat, (self.r - self.s) as nat, self.n as nat, k)
    }

    /// Samples with at most `k` successes.
    pub open spec fn samples_up_to(&self, k: nat) -> nat {
        vandermonde_sum(self.s as nat, (self.r - self.s) as nat, self.n as nat, k)
    }

    /// All samples of size `n`.
    pub open spec fn samples(&self) -> nat {
        binom(self.r as nat, self.n as nat)
    }

    /// A distribution whose successes and sample fit in the population.
    pub fn new(s: u64, r: u64, n: u64) -> (d: Self)
        requires
            s <= r,
            n <= r,
        ensures
            d.s == s,
            d.r == r,
            d.n == n,
            d.wf(),
    {
        Hipergeometrijska { s, r, n }
    }

    /// Samples with `k` successes, given that the number of all samples fits in a `u128`.
    fn count_with(&self, k: u64) -> (c: u128)
        requires
            self.wf(),
            self.samples() <= u128::MAX,
        ensures
            c == self.samples_with(k as nat),
    {
        let f = self.r - self.s;
        if k > self.n || k > self.s {
            proof {
                if k <= self.n {
                    lemma_binom_above(self.s as nat, k as nat);
                    let y = binom(f as nat, (self.n - k) as nat);
                    assert(binom(self.s as nat, k as nat) * y == 0) by (nonlinear_arith)
                        requires
                            binom(self.s as nat, k as nat) == 0,
                    ;
                }
            }
            return 0;
        }
        if self.n - k > f {
            proof {
                lemma_binom_above(f as nat, (self.n - k) as nat);
                let x = binom(self.s as nat, k as nat);
                assert(x * 0 == 0);
            }
            return 0;
        }
        proof {
            let x = binom(self.s as nat, k as nat);
            let y = binom(f as nat, (self.n - k) as nat);
            lemma_binom_positive(self.s as nat, k as nat);
            lemma_binom_positive(f as nat, (self.n - k) as nat);
            lemma_vandermonde(self.s as nat, f as nat, self.n as nat);
            lemma_sum_monotone(self.s as nat, f as nat, self.n as nat, k as nat, self.n as nat);
            assert(x <= x * y && y <= x * y) by (nonlinear_arith)
                requires
                    x >= 1,
                    y >= 1,
            ;
        }
        let a = crate::utils::binomial(self.s, k);
        let b = crate::utils::binomial(f, self.n - k);
        a * b
    }
    /// The smallest and the largest possible number of successes,
    /// `max(0, n - (r - s))` and `min(n, s)`: `k` successes have positive
    /// probability exactly when `lo <= k <= hi`.
    pub fn nosilec(&self) -> (b: (u64, u64))
        requires
            self.wf(),
        ensures
            b.0 <= b.1,
            b.0 == (if self.n > self.r - self.s {
                self.n - (self.r - self.s)
            } else {
                0
            }),
            b.1 == (if self.n < self.s {
                self.n
            } else {
                self.s
            }),
            forall|k: nat| #[trigger] self.samples_with(k) > 0 <==> b.0 <= k <= b.1,
    {
        let f = self.r - self.s;
        let lo: u64 = if self.n > f {
            self.n - f
        } else {
            0
        };
        let hi: u64 = if self.n < self.s {
            self.n
        } else {
            self.s
        };
        proof {
            assert forall|k: nat| #[trigger] self.samples_with(k) > 0 <==> lo <= k <= hi by {
                self.lemma_support(k);
            }
        }
        (lo, hi)
    }

    /// P(X = k) as `samples_with(k) / samples()`; `None` where the number of
    /// all samples does not fit in a `u128`.
    pub fn pmf(&self, k: u64) -> (p: Option<Ulomek>)
        requires
            self.wf(),
        ensures
            p.is_some() <==> self.samples() <= u128::MAX,
            p matches Some(f) ==> f.stevec == self.samples_with(k as nat) && f.imenovalec
                == self.samples(),
    {
        match checked_binomial(self.r, self.n) {
            Some(all) => {
                let c = self.count_with(k);
                Some(Ulomek { stevec: c, imenovalec: all })
            },
            None => None,
        }
    }

    /// P(X <= k) as `samples_up_to(k) / samples()`, the sum of `pmf(i)` for
    /// `i` from 0 to `k`; `None` where the number of all samples does not fit
    /// in a `u128`.
    pub fn cdf(&self, k: u64) -> (p: Option<Ulomek>)
        requires
            self.wf(),
        ensures
            p.is_some() <==> self.samples() <= u128::MAX,
            p matches Some(f) ==> f.stevec == self.samples_up_to(k as nat) && f.imenovalec
                == self.samples(),
    {
        let all = match checked_binomial(self.r, self.n) {
            Some(all) => all,
            None => {
                return None;
            },
        };
        let ghost f = (self.r - self.s) as nat;
        proof {
            lemma_vandermonde(self.s as nat, f, self.n as nat);
        }
        // terms past the sample size are zero
        let last: u64 = if k < self.n {
            k
        } else {
            self.n
        };
        let mut sum: u128 = self.count_with(0);
        let mut i: u64 = 0;
        while i < last
            invariant
                self.wf(),
                self.samples() == all,
                vandermonde_sum(self.s as nat, f, self.n as nat, self.n as nat) == all,
                f == self.r - self.s,
                last <= self.n,
                i <= last,
                sum == self.samples_up_to(i as nat),
            decreases last - i,
        {
            proof {
                lemma_sum_monotone(self.s as nat, f, self.n as nat, (i + 1) as nat, self.n as nat);
            }
            i = i + 1;
            sum = sum + self.count_with(i);
        }
        proof {
            if k >= self.n {
                lemma_sum_past_end(self.s as nat, f, self.n as nat, k as nat);
            }
        }
        Some(Ulomek { stevec: sum, imenovalec: all })
    }

    /// Numerator of the mean `n * s / r`; zero for an empty population.
    pub open spec fn e_stevec(&self) -> int {
        if self.r == 0 {
            0
        } else {
            self.n * self.s
        }
    }

    /// Denominator of the mean; one for an empty population.
    pub open spec fn e_imenovalec(&self) -> int {
        if self.r == 0 {
            1
        } else {
            self.r as int
        }
    }

    /// The mean `n * s / r` (zero when the population is empty).
    pub fn e(&self) -> (m: Ulomek)
        requires
            self.wf(),
        ensures
            m.stevec == self.e_stevec(),
            m.imenovalec == self.e_imenovalec(),
    {
        if self.r == 0 {
            return Ulomek { stevec: 0, imenovalec: 1 };
        }
        assert(self.n * self.s <= u64::MAX * u64::MAX) by (nonlinear_arith)
            requires
                self.n <= u64::MAX,
                self.s <= u64::MAX,
        ;
        Ulomek { stevec: (self.n as u128) * (self.s as u128), imenovalec: self.r as u128 }
    }

    /// Numerator of the variance `n * (s / r) * ((r - s) / r) * ((r - n) / (r - 1))`;
    /// zero for a population of at most one element.
    pub open spec fn var_stevec(&self) -> int {
        if self.r <= 1 {
            0
        } else {
            self.n * self.s * (self.r - self.s) * (self.r - self.n)
        }
    }

    /// Denominator of the variance, `r * r * (r - 1)`; one for a population of
    /// at most one element.
    pub open spec fn var_imenovalec(&self) -> int {
        if self.r <= 1 {
            1
        } else {
            self.r * self.r * (self.r - 1)
        }
    }

    /// The variance `n * s * (r - s) * (r - n) / (r * r * (r - 1))` (zero when
    /// the population has at most one element); `None` where its numerator or
    /// denominator does not fit in a `u128`.
    pub fn var(&self) -> (v: Option<Ulomek>)
        requires
            self.wf(),
        ensures
            v.is_some() <==> self.var_stevec() <= u128::MAX && self.var_imenovalec()
                <= u128::MAX,
            v matches Some(f) ==> f.stevec == self.var_stevec() && f.imenovalec
                == self.var_imenovalec(),
    {
        if self.r <= 1 {
            return Some(Ulomek { stevec: 0, imenovalec: 1 });
        }
        let ns = self.n as u128;
        let ss = self.s as u128;
        let fs = (self.r - self.s) as u128;
        let ms = (self.r - self.n) as u128;
        let rs = self.r as u128;
        assert(ns * ss <= u64::MAX * u64::MAX && fs * ms <= u64::MAX * u64::MAX && rs * rs
            <= u64::MAX * u64::MAX) by (nonlinear_arith)
            requires
                ns <= u64::MAX,
                ss <= u64::MAX,
                fs <= u64::MAX,
                ms <= u64::MAX,
                rs <= u64::MAX,
        ;
        let a: u128 = ns * ss;
        let b: u128 = fs * ms;
        let c: u128 = rs * rs;
        let num = a.checked_mul(b);
        let den = c.checked_mul(rs - 1);
        assert(self.var_stevec() == a * b) by (nonlinear_arith)
            requires
                self.r > 1,
                a == self.n * self.s,
                b == (self.r - self.s) * (self.r - self.n),
                self.var_stevec() == self.n * self.s * (self.r - self.s) * (self.r - self.n),
        ;
        match (num, den) {
            (Some(x), Some(y)) => Some(Ulomek { stevec: x, imenovalec: y }),
            _ => None,
        }
    }
    /// The probabilities over the whole support add up to one: the samples
    /// with at most `n` successes are all the samples.
    pub proof fn lemma_pmf_sums_to_one(&self)
        requires
            self.wf(),
        ensures
            self.samples_up_to(self.n as nat) == self.samples(),
    {
        lemma_vandermonde(self.s as nat, (self.r - self.s) as nat, self.n as nat);
    }

    /// The support: `k` successes have positive probability exactly when
    /// `max(0, n - (r - s)) <= k <= min(n, s)`.
    pub proof fn lemma_support(&self, k: nat)
        requires
            self.wf(),
        ensures
            self.samples_with(k) > 0 <==> (k <= self.n && k <= self.s && self.n - k <= self.r
                - self.s),
    {
        let f = (self.r - self.s) as nat;
        if k <= self.n {
            let x = binom(self.s as nat, k);
            let y = binom(f, (self.n - k) as nat);
            if k > self.s {
                lemma_binom_above(self.s as nat, k);
            } else {
                lemma_binom_positive(self.s as nat, k);
            }
            if self.n - k > f {
                lemma_binom_above(f, (self.n - k) as nat);
            } else {
                lemma_binom_positive(f, (self.n - k) as nat);
            }
            assert(x * y > 0 <==> (x > 0 && y > 0)) by (nonlinear_arith)
                requires
                    x >= 0,
                    y >= 0,
            ;
        }
    }
}

} // verus!
