use prime_digestor::arith::square_root;
use prime_digestor::decimal::decimal_string;
use prime_digestor::recipe::recipe_create;
use prime_digestor::{DigestError, Input, PrimeDigestResult, PrimeDigestor};

#[test]
fn twelve_end_to_end() {
    let result = PrimeDigestor::new().is_prime(12).unwrap();
    assert_eq!(result.to_string(), "12 is NOT prime. \nRecipe: 2^2 * 3^1");
}

#[test]
fn thirteen_end_to_end() {
    let result = PrimeDigestor::new().is_prime(13).unwrap();
    assert_eq!(result.to_string(), "13 is prime.");
}

#[test]
fn report_without_metrics() {
    let input = Input { number: 12, metrics: false };
    assert_eq!(input.report().unwrap(), "12 is NOT prime. \nRecipe: 2^2 * 3^1");
    let input = Input { number: 13, metrics: false };
    assert_eq!(input.report().unwrap(), "13 is prime.");
}

#[test]
fn report_with_metrics() {
    let input = Input { number: 12, metrics: true };
    assert_eq!(
        input.report().unwrap(),
        "12 is NOT prime. \nRecipe: 2^2 * 3^1\n\nmetrics:\ncalls: 5\ncache hits: 1\ncache size: 4"
    );
    let input = Input { number: 13, metrics: true };
    assert_eq!(
        input.report().unwrap(),
        "13 is prime.\n\nmetrics:\ncalls: 1\ncache hits: 0\ncache size: 1"
    );
}

#[test]
fn report_refuses_zero_and_one() {
    for number in [0u64, 1] {
        for metrics in [false, true] {
            let input = Input { number, metrics };
            assert_eq!(input.report().unwrap_err(), DigestError::BelowTwo);
        }
    }
}

#[test]
fn text_of_outcomes() {
    assert_eq!(PrimeDigestResult::IsPrime(7919).to_string(), "7919 is prime.");
    let six = PrimeDigestResult::NotPrime(6, recipe_create(&3, &2));
    assert_eq!(six.to_string(), "6 is NOT prime. \nRecipe: 2^1 * 3^1");
}

#[test]
fn text_of_the_largest_number() {
    let result = PrimeDigestor::new().is_prime(u64::MAX).unwrap();
    assert_eq!(
        result.to_string(),
        "18446744073709551615 is NOT prime. \nRecipe: 3^1 * 5^1 * 17^1 * 257^1 * 641^1 * 65537^1 * 6700417^1"
    );
}

#[test]
fn decimal_notation() {
    assert_eq!(decimal_string(0), "0");
    assert_eq!(decimal_string(7), "7");
    assert_eq!(decimal_string(9), "9");
    assert_eq!(decimal_string(10), "10");
    assert_eq!(decimal_string(1234567890), "1234567890");
    assert_eq!(decimal_string(u64::MAX), "18446744073709551615");
    for n in [0u64, 5, 10, 99, 100, 101, 65535, 999_999_999_999] {
        assert_eq!(decimal_string(n), format!("{}", n));
    }
}

#[test]
fn square_roots() {
    assert_eq!(square_root(0), 0);
    assert_eq!(square_root(1), 1);
    assert_eq!(square_root(2), 1);
    assert_eq!(square_root(3), 1);
    assert_eq!(square_root(4), 2);
    assert_eq!(square_root(15), 3);
    assert_eq!(square_root(16), 4);
    assert_eq!(square_root(17), 4);
    assert_eq!(square_root(1_000_000), 1000);
    assert_eq!(square_root(u64::MAX), 4_294_967_295);
}

#[test]
fn square_roots_at_the_boundary() {
    let r: u64 = 4_294_967_295;
    assert_eq!(square_root(r * r), r);
    assert_eq!(square_root(r * r - 1), r - 1);
    let s: u64 = 94_906_267;
    assert_eq!(square_root(s * s), s);
    assert_eq!(square_root(s * s - 1), s - 1);
    assert_eq!(square_root(s * s + 1), s);
}
