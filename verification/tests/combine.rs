use prime_digestor::recipe::{recipe_create, recipe_to_list};
use prime_digestor::{DigestError, PrimeDigestResult};

fn listed(result: &PrimeDigestResult) -> Vec<(u64, u8)> {
    match result {
        PrimeDigestResult::IsPrime(_) => Vec::new(),
        PrimeDigestResult::NotPrime(_, recipe) => recipe_to_list(recipe.clone())
            .iter()
            .map(|node| (node.prime_number, node.count))
            .collect(),
    }
}

#[test]
fn combine_two_twos() {
    let two = PrimeDigestResult::IsPrime(2);
    let four = two.combine(&PrimeDigestResult::IsPrime(2)).unwrap();
    assert!(matches!(four, PrimeDigestResult::NotPrime(4, _)));
    assert_eq!(listed(&four), vec![(2, 2)]);
}

#[test]
fn combine_six_and_two() {
    let six = PrimeDigestResult::NotPrime(6, recipe_create(&2, &3));
    let twelve = six.combine(&PrimeDigestResult::IsPrime(2)).unwrap();
    assert!(matches!(twelve, PrimeDigestResult::NotPrime(12, _)));
    assert_eq!(listed(&twelve), vec![(2, 2), (3, 1)]);
}

#[test]
fn combine_two_and_six() {
    let six = PrimeDigestResult::NotPrime(6, recipe_create(&3, &2));
    let twelve = PrimeDigestResult::IsPrime(2).combine(&six).unwrap();
    assert!(matches!(twelve, PrimeDigestResult::NotPrime(12, _)));
    assert_eq!(listed(&twelve), vec![(2, 2), (3, 1)]);
}

#[test]
fn combine_two_composites() {
    let six = PrimeDigestResult::NotPrime(6, recipe_create(&2, &3));
    let ten = PrimeDigestResult::NotPrime(10, recipe_create(&5, &2));
    let sixty = six.combine(&ten).unwrap();
    assert_eq!(sixty.get_n(), 60);
    assert_eq!(listed(&sixty), vec![(2, 2), (3, 1), (5, 1)]);
    assert_eq!(listed(&six), vec![(2, 1), (3, 1)]);
    assert_eq!(listed(&ten), vec![(2, 1), (5, 1)]);
}

#[test]
fn combine_of_two_primes_is_composite() {
    let result = PrimeDigestResult::IsPrime(3)
        .combine(&PrimeDigestResult::IsPrime(5))
        .unwrap();
    assert!(matches!(result, PrimeDigestResult::NotPrime(15, _)));
    assert_eq!(listed(&result), vec![(3, 1), (5, 1)]);
}

#[test]
fn combine_detects_overflow() {
    let large = PrimeDigestResult::IsPrime(18_446_744_073_709_551_557);
    let result = large.combine(&PrimeDigestResult::IsPrime(2));
    assert_eq!(result.unwrap_err(), DigestError::Overflow);
}

#[test]
fn combine_just_below_the_limit() {
    let large = PrimeDigestResult::IsPrime(4_294_967_291);
    let square = large.combine(&PrimeDigestResult::IsPrime(4_294_967_291)).unwrap();
    assert_eq!(square.get_n(), 18_446_744_030_759_878_681);
    assert_eq!(listed(&square), vec![(4_294_967_291, 2)]);
}

#[test]
fn get_n_gives_the_number() {
    assert_eq!(PrimeDigestResult::IsPrime(7).get_n(), 7);
    assert_eq!(PrimeDigestResult::NotPrime(6, recipe_create(&2, &3)).get_n(), 6);
}

#[test]
fn a_clone_shows_the_same() {
    let six = PrimeDigestResult::NotPrime(6, recipe_create(&2, &3));
    let copy = six.clone();
    assert_eq!(copy.get_n(), 6);
    assert_eq!(listed(&copy), listed(&six));
}

#[test]
fn error_messages() {
    assert_eq!(
        DigestError::BelowTwo.to_string(),
        "numbers below 2 are neither prime nor composite"
    );
    assert_eq!(
        DigestError::Overflow.to_string(),
        "the product of the factors does not fit in 64 bits"
    );
}
