use next_prime::is_prime;

#[test]
fn small_primes() {
    let primes = vec![2, 3, 5, 7, 11, 13, 17, 19, 23];
    assert_eq!(
        primes
            .clone()
            .into_iter()
            .map(is_prime)
            .collect::<Vec<bool>>(),
        vec![true; primes.len()]
    );
}

#[test]
fn rejects_zero_one_and_evens() {
    assert!(!is_prime(0));
    assert!(!is_prime(1));
    assert!(!is_prime(4));
    assert!(!is_prime(100));
    assert!(!is_prime(472_888_178));
}

#[test]
fn rejects_odd_composites() {
    assert!(!is_prime(9));
    assert!(!is_prime(15));
    assert!(!is_prime(25));
    assert!(!is_prime(121));
    assert!(!is_prime(472_888_181));
}

#[test]
fn matches_trial_division_oracle() {
    for n in 0u64..=500 {
        let mut has_divisor: bool = false;
        let mut d: u64 = 2;
        while d < n {
            if n % d == 0 {
                has_divisor = true;
            }
            d += 1;
        }
        let expected: bool = n >= 2 && !has_divisor;
        assert_eq!(is_prime(n), expected);
    }
}
