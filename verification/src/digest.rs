//! The outcome of a primality check and the combination of two outcomes.

use vstd::prelude::*;
use vstd::arithmetic::div_mod::lemma_mod_multiples_basic;
use vstd::string::*;
use crate::arith::{divides, lemma_cofactor, prime};
use crate::decimal::{decimal, decimal_string};
use crate::factors::{
    entries, exponent, factorization, lemma_exponent_small, lemma_factorization_unique,
    lemma_merged_factorization, lemma_single_factorization, limit, merged, prime_powers, single,
};
use crate::input::N;
use crate::recipe::{entries_text, recipe_add, recipe_combine, recipe_create, recipe_to_string, Recipe};

verus! {

/// Why a computation gave no outcome.
#[derive(Clone, Copy, Debug, PartialEq, Eq)]
pub enum DigestError {
    /// Zero and one are neither prime nor composite.
    BelowTwo,
    /// The product of two numbers does not fit in 64 bits.
    Overflow,
}

impl DigestError {
    /// The text of the message for this error.
    pub open spec fn text(self) -> Seq<char> {
        match self {
            DigestError::BelowTwo => "numbers below 2 are neither prime nor composite"@,
            DigestError::Overflow => "the product of the factors does not fit in 64 bits"@,
        }
    }

    /// A message for the user.
    pub fn to_string(&self) -> (s: String)
        ensures
            s@ == self.text(),
    {
        match self {
            DigestError::BelowTwo => String::from_str(
                "numbers below 2 are neither prime nor composite",
            ),
            DigestError::Overflow => String::from_str(
                "the product of the factors does not fit in 64 bits",
            ),
        }
    }
}

/// The mathematical content of an outcome.
pub enum Digest {
    /// The number is prime.
    Prime(nat),
    /// The number is composite, with the multiplicity of each prime factor.
    Composite(nat, Map<nat, nat>),
}

impl Digest {
    /// The outcome for `n`: prime, or composite with each prime that
    /// divides `n` and how often it does.
    pub open spec fn of(n: nat) -> Digest {
        if prime(n) {
            Digest::Prime(n)
        } else {
            Digest::Composite(n, prime_powers(n))
        }
    }

    /// The number the outcome is about.
    pub open spec fn number(self) -> nat {
        match self {
            Digest::Prime(n) => n,
            Digest::Composite(n, _) => n,
        }
    }

    /// The factors the outcome contributes to a product: a prime itself,
    /// once; a composite its recipe.
    pub open spec fn factors(self) -> Map<nat, nat> {
        match self {
            Digest::Prime(n) => single(n),
            Digest::Composite(_, recipe) => recipe,
        }
    }

    /// The outcome is true of its number: a prime is prime, a composite is
    /// at least two and not prime, and its recipe is its prime
    /// factorization.
    pub open spec fn valid(self) -> bool {
        match self {
            Digest::Prime(n) => n < limit() && prime(n),
            Digest::Composite(n, recipe) => 2 <= n < limit() && !prime(n) && factorization(
                recipe,
                n,
            ),
        }
    }

    /// The outcome for the product of the numbers of two outcomes.
    pub open spec fn combine(self, other: Digest) -> Digest {
        Digest::Composite(self.number() * other.number(), merged(self.factors(), other.factors()))
    }

    /// The display text of the outcome.
    pub open spec fn text(self) -> Seq<char> {
        match self {
            Digest::Prime(n) => decimal(n) + " is prime."@,
            Digest::Composite(n, recipe) => decimal(n) + " is NOT prime. \nRecipe: "@ + entries_text(
                entries(recipe),
            ),
        }
    }
}

/// The factors of a valid outcome are a prime factorization of its number.
pub proof fn lemma_valid_factors(a: Digest)
    requires
        a.valid(),
    ensures
        a.number() >= 2,
        factorization(a.factors(), a.number()),
{
    if a is Prime {
        lemma_single_factorization(a.number());
    }
}

/// A number has one valid outcome only.
pub proof fn lemma_valid_is_unique(a: Digest)
    requires
        a.valid(),
    ensures
        a == Digest::of(a.number()),
{
    if let Digest::Composite(n, recipe) = a {
        lemma_factorization_unique(recipe, n);
    }
}

/// In two valid outcomes no factor occurs 128 times or more, both
/// counted.
pub proof fn lemma_valid_counts_fit(a: Digest, b: Digest)
    requires
        a.valid(),
        b.valid(),
    ensures
        forall|p: nat| exponent(a.factors(), p) + exponent(b.factors(), p) < 128,
{
    lemma_valid_factors(a);
    lemma_valid_factors(b);
    assert forall|p: nat| exponent(a.factors(), p) + exponent(b.factors(), p) < 128 by {
        if a.factors().contains_key(p) {
            lemma_exponent_small(a.factors(), a.number(), p);
        }
        if b.factors().contains_key(p) {
            lemma_exponent_small(b.factors(), b.number(), p);
        }
    }
}

/// Combining two valid outcomes gives a valid outcome, as long as the
/// product stays below the limit.
pub proof fn lemma_combine_valid(a: Digest, b: Digest)
    requires
        a.valid(),
        b.valid(),
        a.number() * b.number() < limit(),
    ensures
        a.combine(b).valid(),
{
    let x = a.number();
    let y = b.number();
    lemma_valid_factors(a);
    lemma_valid_factors(b);
    lemma_merged_factorization(a.factors(), x, b.factors(), y);
    assert(x < x * y) by (nonlinear_arith)
        requires
            x >= 2,
            y >= 2,
    ;
    lemma_mod_multiples_basic(y as int, x as int);
    assert(divides(x, x * y));
}

/// Every number from two up to the limit has a valid outcome.
pub proof fn lemma_outcome_exists(n: nat)
    requires
        2 <= n < limit(),
    ensures
        Digest::of(n).valid(),
    decreases n,
{
    if !prime(n) {
        let d = choose|d: nat| 2 <= d < n && divides(d, n);
        let q = n / d;
        lemma_cofactor(d, n);
        assert(2 <= q < n) by (nonlinear_arith)
            requires
                n == d * q,
                2 <= d < n,
                q >= 1,
        ;
        lemma_outcome_exists(d);
        lemma_outcome_exists(q);
        let both = Digest::of(d).combine(Digest::of(q));
        lemma_combine_valid(Digest::of(d), Digest::of(q));
        lemma_valid_is_unique(both);
    }
}

/// The outcome of a primality check.
#[derive(Debug)]
pub enum PrimeDigestResult {
    /// The number is prime.
    IsPrime(N),
    /// The number is not prime; the recipe holds its prime factors.
    NotPrime(N, Recipe),
}

impl View for PrimeDigestResult {
    type V = Digest;

    open spec fn view(&self) -> Digest {
        match self {
            PrimeDigestResult::IsPrime(n) => Digest::Prime(*n as nat),
            PrimeDigestResult::NotPrime(n, recipe) => Digest::Composite(*n as nat, recipe@),
        }
    }
}

impl Clone for PrimeDigestResult {
    /// Copies the outcome, sharing its recipe; the clone equals the
    /// outcome it was made from.
    fn clone(&self) -> (r: Self)
        ensures
            r == *self,
    {
        match self {
            PrimeDigestResult::IsPrime(n) => PrimeDigestResult::IsPrime(*n),
            PrimeDigestResult::NotPrime(n, recipe) => PrimeDigestResult::NotPrime(*n, recipe.clone()),
        }
    }
}

impl PrimeDigestResult {
    /// Merges two outcomes into the outcome for the product of their
    /// numbers. The result is always composite: a prime contributes
    /// itself, once; a composite its recipe; multiplicities of a shared
    /// factor add. Fails when the product does not fit in 64 bits.
    ///
    /// No multiplicity may pass what a byte holds; in valid outcomes none
    /// does.
    pub fn combine(&self, other: &Self) -> (r: Result<Self, DigestError>)
        requires
            forall|p: nat| exponent(self@.factors(), p) + exponent(other@.factors(), p) <= u8::MAX,
        ensures
            r is Ok <==> self@.number() * other@.number() < limit(),
            r matches Ok(c) ==> c@ == self@.combine(other@),
            r matches Ok(c) ==> (self@.valid() && other@.valid() ==> c@.valid()),
            r matches Err(e) ==> e == DigestError::Overflow,
    {
        let new_n = match self.get_n().checked_mul(other.get_n()) {
            Some(n) => n,
            None => {
                return Err(DigestError::Overflow);
            },
        };
        proof {
            if self@.valid() && other@.valid() {
                lemma_combine_valid(self@, other@);
            }
        }
        let recipe = match self {
            PrimeDigestResult::IsPrime(self_n) => match other {
                PrimeDigestResult::IsPrime(other_n) => recipe_create(self_n, other_n),
                PrimeDigestResult::NotPrime(_, other_recipe) => {
                    assert(exponent(self@.factors(), *self_n as nat) == 1);
                    recipe_add(other_recipe, self_n)
                },
            },
            PrimeDigestResult::NotPrime(_, self_recipe) => match other {
                PrimeDigestResult::IsPrime(other_n) => {
                    assert(exponent(other@.factors(), *other_n as nat) == 1);
                    recipe_add(self_recipe, other_n)
                },
                PrimeDigestResult::NotPrime(_, other_recipe) => recipe_combine(
                    self_recipe,
                    other_recipe,
                ),
            },
        };
        assert(recipe@ =~= merged(self@.factors(), other@.factors()));
        Ok(PrimeDigestResult::NotPrime(new_n, recipe))
    }

    /// The number the outcome is about.
    pub fn get_n(&self) -> (n: N)
        ensures
            n == self@.number(),
    {
        match self {
            PrimeDigestResult::IsPrime(n) => *n,
            PrimeDigestResult::NotPrime(n, _) => *n,
        }
    }

    /// Renders the outcome for display: `"<n> is prime."`, or
    /// `"<n> is NOT prime. \nRecipe: "` followed by the factors as
    /// `prime^count` in ascending order of prime, joined by `" * "`.
    pub fn to_string(self) -> (s: String)
        ensures
            s@ == self@.text(),
    {
        match self {
            PrimeDigestResult::IsPrime(n) => {
                let mut s = decimal_string(n);
                s.append(" is prime.");
                s
            },
            PrimeDigestResult::NotPrime(n, recipe) => {
                let mut s = decimal_string(n);
                s.append(" is NOT prime. \nRecipe: ");
                let factors = recipe_to_string(recipe);
                s.append(factors.as_str());
                s
            },
        }
    }
}

} // verus!
