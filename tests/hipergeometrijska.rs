use porazdelitve::{Hipergeometrijska, Ulomek};

fn frac(stevec: u128, imenovalec: u128) -> Ulomek {
    Ulomek { stevec, imenovalec }
}

#[test]
fn hypergeometric_new_keeps_parameters() {
    let d = Hipergeometrijska::new(5, 10, 4);
    assert_eq!((d.s, d.r, d.n), (5, 10, 4));
}

#[test]
fn hypergeometric_pmf_values() {
    let d = Hipergeometrijska::new(5, 10, 4);
    let expected = [5u128, 50, 100, 50, 5];
    for (k, w) in expected.iter().enumerate() {
        assert_eq!(d.pmf(k as u64), Some(frac(*w, 210)));
    }
    assert_eq!(d.pmf(5), Some(frac(0, 210)));
    assert_eq!(d.pmf(1000), Some(frac(0, 210)));
}

#[test]
fn hypergeometric_pmf_sums_to_one_over_support() {
    let (s, r, n) = (5u64, 10u64, 4u64);
    let d = Hipergeometrijska::new(s, r, n);
    let lo = if n > r - s { n - (r - s) } else { 0 };
    let hi = n.min(s);
    let mut total = 0u128;
    let mut denominator = 0u128;
    for k in lo..=hi {
        let p = d.pmf(k).unwrap();
        total += p.stevec;
        denominator = p.imenovalec;
    }
    assert_eq!(total, denominator);
    let sum: f64 = (lo..=hi)
        .map(|k| {
            let p = d.pmf(k).unwrap();
            p.stevec as f64 / p.imenovalec as f64
        })
        .sum();
    assert!((sum - 1.0).abs() < 1e-9);
}

#[test]
fn hypergeometric_support_excludes_impossible_counts() {
    // 8 of 10 are successes, so a sample of 4 holds at least 2 successes
    let d = Hipergeometrijska::new(8, 10, 4);
    assert_eq!(d.pmf(0), Some(frac(0, 210)));
    assert_eq!(d.pmf(1), Some(frac(0, 210)));
    assert_eq!(d.pmf(2), Some(frac(28, 210)));
    assert_eq!(d.pmf(4), Some(frac(70, 210)));
}

#[test]
fn hypergeometric_cdf_is_running_sum_of_pmf() {
    let d = Hipergeometrijska::new(5, 10, 4);
    let mut running = 0u128;
    for k in 0..=8u64 {
        running += d.pmf(k).unwrap().stevec;
        assert_eq!(d.cdf(k), Some(frac(running, 210)));
    }
    assert_eq!(d.cdf(2), Some(frac(155, 210)));
    assert_eq!(d.cdf(4), Some(frac(210, 210)));
    assert_eq!(d.cdf(u64::MAX), Some(frac(210, 210)));
}

#[test]
fn hypergeometric_too_many_samples() {
    let d = Hipergeometrijska::new(66, 132, 66);
    assert_eq!(d.pmf(33), None);
    assert_eq!(d.cdf(33), None);
    let d = Hipergeometrijska::new(50, 100, 50);
    assert_eq!(d.pmf(25), Some(frac(15979641419960227387050813504, 100891344545564193334812497256)));
    assert_eq!(d.cdf(50), Some(frac(100891344545564193334812497256, 100891344545564193334812497256)));
}

#[test]
fn hypergeometric_mean_and_variance() {
    let d = Hipergeometrijska::new(5, 10, 4);
    assert_eq!(d.e(), frac(20, 10));
    assert_eq!(d.var(), Some(frac(600, 900)));
}

#[test]
fn hypergeometric_degenerate_populations() {
    let d = Hipergeometrijska::new(0, 0, 0);
    assert_eq!(d.e(), frac(0, 1));
    assert_eq!(d.var(), Some(frac(0, 1)));
    assert_eq!(d.pmf(0), Some(frac(1, 1)));
    let d = Hipergeometrijska::new(1, 1, 1);
    assert_eq!(d.e(), frac(1, 1));
    assert_eq!(d.var(), Some(frac(0, 1)));
    // the whole population drawn: no spread
    let d = Hipergeometrijska::new(3, 7, 7);
    assert_eq!(d.var(), Some(frac(0, 294)));
}

#[test]
fn hypergeometric_variance_overflow() {
    let big = u64::MAX;
    let d = Hipergeometrijska::new(big / 2, big, big / 2);
    assert_eq!(d.var(), None);
    assert_eq!(d.e().imenovalec, big as u128);
}

#[test]
fn hypergeometric_support_bounds() {
    assert_eq!(Hipergeometrijska::new(5, 10, 4).nosilec(), (0, 4));
    assert_eq!(Hipergeometrijska::new(8, 10, 4).nosilec(), (2, 4));
    assert_eq!(Hipergeometrijska::new(3, 10, 4).nosilec(), (0, 3));
    assert_eq!(Hipergeometrijska::new(10, 10, 4).nosilec(), (4, 4));
    let d = Hipergeometrijska::new(8, 10, 4);
    let (lo, hi) = d.nosilec();
    for k in 0..=6u64 {
        let positive = d.pmf(k).unwrap().stevec > 0;
        assert_eq!(positive, lo <= k && k <= hi);
    }
}
