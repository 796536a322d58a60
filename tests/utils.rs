use porazdelitve::utils::{binomial, checked_binomial};

#[test]
fn test_binomial_basic() {
    assert_eq!(binomial(5, 0), 1); // n choose 0 = 1
    assert_eq!(binomial(5, 1), 5);
    assert_eq!(binomial(5, 2), 10);
    assert_eq!(binomial(5, 5), 1);
}

#[test]
fn test_binomial_edge_cases() {
    assert_eq!(binomial(0, 0), 1);
    assert_eq!(binomial(5, 6), 0); // k > n
    assert_eq!(binomial(10, 0), 1);
    assert_eq!(binomial(10, 10), 1);
}

#[test]
fn binomial_is_symmetric() {
    for n in 0..=40u64 {
        for k in 0..=n {
            assert_eq!(binomial(n, k), binomial(n, n - k));
        }
    }
}

#[test]
fn binomial_follows_pascal_rule() {
    for n in 1..=50u64 {
        for k in 1..=n {
            assert_eq!(binomial(n, k), binomial(n - 1, k - 1) + binomial(n - 1, k));
        }
    }
}

#[test]
fn binomial_ten_choose_five() {
    // Binomial(10, 1/2) gives 5 successes with probability 252 / 1024
    assert_eq!(binomial(10, 5), 252);
    assert_eq!(binomial(62, 31), 465428353255261088);
}

#[test]
fn checked_binomial_at_the_edge_of_u128() {
    assert_eq!(checked_binomial(100, 50), Some(100891344545564193334812497256));
    assert_eq!(checked_binomial(131, 65), Some(188694833082770476622296176145946360850));
    assert_eq!(checked_binomial(131, 66), Some(188694833082770476622296176145946360850));
    assert_eq!(checked_binomial(132, 66), None);
    assert_eq!(checked_binomial(100, 101), Some(0));
    assert_eq!(checked_binomial(u64::MAX, 1), Some(u64::MAX as u128));
    assert_eq!(checked_binomial(u64::MAX, u64::MAX - 2), Some(170141183460469231704017187605319778305));
    assert_eq!(checked_binomial(u64::MAX, 3), None);
}
