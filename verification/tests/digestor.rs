use prime_digestor::recipe::recipe_to_list;
use prime_digestor::{DigestError, DigestNode, PrimeDigestResult, PrimeDigestor};

fn entries(result: &PrimeDigestResult) -> Vec<(u64, u8)> {
    match result {
        PrimeDigestResult::IsPrime(_) => Vec::new(),
        PrimeDigestResult::NotPrime(_, recipe) => recipe_to_list(recipe.clone())
            .iter()
            .map(|node: &DigestNode| (node.prime_number, node.count))
            .collect(),
    }
}

fn check(number: u64) -> PrimeDigestResult {
    PrimeDigestor::new().is_prime(number).unwrap()
}

fn has_no_divisor(number: u64) -> bool {
    let mut d: u64 = 2;
    while d * d <= number {
        if number % d == 0 {
            return false;
        }
        d += 1;
    }
    number >= 2
}

#[test]
fn known_primes_are_prime() {
    for n in [2u64, 3, 5, 7, 11, 97, 7919] {
        let result = check(n);
        assert!(matches!(result, PrimeDigestResult::IsPrime(p) if p == n));
    }
}

#[test]
fn known_composites_multiply_back() {
    for n in [4u64, 6, 8, 9, 12, 60, 100, 360, 1001, 65536, 1_000_000, 600_851_475_143] {
        let result = check(n);
        assert!(matches!(result, PrimeDigestResult::NotPrime(m, _) if m == n));
        let mut product: u64 = 1;
        for (prime, count) in entries(&result) {
            for _ in 0..count {
                product *= prime;
            }
        }
        assert_eq!(product, n);
    }
}

#[test]
fn recipe_keys_are_prime_and_occur() {
    for n in [4u64, 12, 360, 1001, 65536, 999_999, 600_851_475_143] {
        let listed = entries(&check(n));
        assert!(!listed.is_empty());
        for (prime, count) in listed {
            assert!(has_no_divisor(prime));
            assert!(count >= 1);
        }
    }
}

#[test]
fn recipe_entries_ascend() {
    assert_eq!(entries(&check(360)), vec![(2, 3), (3, 2), (5, 1)]);
    assert_eq!(entries(&check(1001)), vec![(7, 1), (11, 1), (13, 1)]);
    assert_eq!(entries(&check(65536)), vec![(2, 16)]);
    assert_eq!(
        entries(&check(600_851_475_143)),
        vec![(71, 1), (839, 1), (1471, 1), (6857, 1)]
    );
}

#[test]
fn smallest_prime_is_prime() {
    assert!(matches!(check(2), PrimeDigestResult::IsPrime(2)));
}

#[test]
fn smallest_composite_has_recipe() {
    let result = check(4);
    assert!(matches!(result, PrimeDigestResult::NotPrime(4, _)));
    assert_eq!(entries(&result), vec![(2, 2)]);
}

#[test]
fn zero_and_one_are_refused() {
    let mut digestor = PrimeDigestor::new();
    assert_eq!(digestor.is_prime(0).unwrap_err(), DigestError::BelowTwo);
    assert_eq!(digestor.is_prime(1).unwrap_err(), DigestError::BelowTwo);
    assert_eq!(digestor.total_calls(), 2);
    assert_eq!(digestor.cache_hits(), 0);
    assert_eq!(digestor.cache_size(), 0);
}

#[test]
fn square_of_a_large_prime() {
    let result = check(18_446_744_030_759_878_681);
    assert_eq!(entries(&result), vec![(4_294_967_291, 2)]);
}

#[test]
fn largest_number_is_factorized() {
    let result = check(u64::MAX);
    assert_eq!(
        entries(&result),
        vec![(3, 1), (5, 1), (17, 1), (257, 1), (641, 1), (65537, 1), (6_700_417, 1)]
    );
}

#[test]
fn a_larger_prime_is_prime() {
    assert!(matches!(check(1_000_000_007), PrimeDigestResult::IsPrime(1_000_000_007)));
}

#[test]
fn repeated_checks_agree() {
    let mut digestor = PrimeDigestor::new();
    let first = digestor.is_prime(360).unwrap();
    let calls = digestor.total_calls();
    let hits = digestor.cache_hits();
    let size = digestor.cache_size();
    let second = digestor.is_prime(360).unwrap();
    assert_eq!(first.get_n(), second.get_n());
    assert_eq!(entries(&first), entries(&second));
    assert_eq!(first.to_string(), second.to_string());
    assert_eq!(digestor.total_calls(), calls + 1);
    assert_eq!(digestor.cache_hits(), hits + 1);
    assert_eq!(digestor.cache_size(), size);
}

#[test]
fn a_fresh_digestor_has_done_nothing() {
    let digestor = PrimeDigestor::new();
    assert_eq!(digestor.total_calls(), 0);
    assert_eq!(digestor.cache_hits(), 0);
    assert_eq!(digestor.cache_size(), 0);
    assert_eq!(digestor.metrics_to_string(), "calls: 0\ncache hits: 0\ncache size: 0");
}

#[test]
fn work_for_twelve() {
    let mut digestor = PrimeDigestor::new();
    digestor.is_prime(12).unwrap();
    assert_eq!(digestor.total_calls(), 5);
    assert_eq!(digestor.cache_hits(), 1);
    assert_eq!(digestor.cache_size(), 4);
    assert_eq!(digestor.metrics_to_string(), "calls: 5\ncache hits: 1\ncache size: 4");
}

#[test]
fn work_for_a_prime() {
    let mut digestor = PrimeDigestor::new();
    digestor.is_prime(13).unwrap();
    assert_eq!(digestor.total_calls(), 1);
    assert_eq!(digestor.cache_hits(), 0);
    assert_eq!(digestor.cache_size(), 1);
}

#[test]
fn divisors_met_on_the_way_are_remembered() {
    let mut digestor = PrimeDigestor::new();
    digestor.is_prime(12).unwrap();
    let calls = digestor.total_calls();
    for n in [2u64, 3, 4] {
        digestor.is_prime(n).unwrap();
    }
    assert_eq!(digestor.total_calls(), calls + 3);
    assert_eq!(digestor.cache_hits(), 1 + 3);
    assert_eq!(digestor.cache_size(), 4);
}
