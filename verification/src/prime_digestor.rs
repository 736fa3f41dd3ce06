//! The factorizer: trial division with memoized outcomes.

use std::collections::HashMap;
use vstd::prelude::*;
use vstd::map_lib::lemma_submap_of_trans;
use vstd::string::*;
use crate::arith::{
    divides, is_square_root, lemma_composite_splits, lemma_first_divisor_unique, lemma_prime_by_trial,
    lemma_scan_finds_first, lemma_trial_divisor, prime, square_root, trial_divisor,
};
use crate::decimal::{decimal, decimal_string};
use crate::digest::{
    lemma_valid_counts_fit, lemma_valid_is_unique, Digest, DigestError, PrimeDigestResult,
};
use crate::input::N;

verus! {

/// The smallest candidate divisor, and the smallest number with an outcome.
pub const SMALLEST_PRIME: N = 2;

/// A counter raised by `more`; it stays at its maximum once there.
pub open spec fn raised(count: nat, more: nat) -> nat {
    if count + more <= u64::MAX {
        count + more
    } else {
        u64::MAX as nat
    }
}

/// The work of one check: the checks asked for, the check itself
/// included; those among them that were answered from memory; and the
/// numbers whose outcomes are remembered afterwards.
pub struct Effort {
    pub calls: nat,
    pub hits: nat,
    pub known: Set<N>,
}

/// The work of a check of `number` by a digestor that remembers the
/// outcomes of `known`.
///
/// A number below two costs the one call. A remembered number costs one
/// call, answered from memory. A prime costs one call and is remembered.
/// A composite is divided by the first divisor that trial division meets;
/// the cofactor is checked, then the divisor, and the number is
/// remembered.
pub open spec fn effort(known: Set<N>, number: N) -> Effort
    decreases number,
{
    let divisor = trial_divisor(number as nat);
    let cofactor = number as nat / divisor;
    if number < SMALLEST_PRIME {
        Effort { calls: 1, hits: 0, known }
    } else if known.contains(number) {
        Effort { calls: 1, hits: 1, known }
    } else if prime(number as nat) || !(2 <= divisor < number && 2 <= cofactor < number) {
        Effort { calls: 1, hits: 0, known: known.insert(number) }
    } else {
        let first = effort(known, cofactor as N);
        let second = effort(first.known, divisor as N);
        Effort {
            calls: 1 + first.calls + second.calls,
            hits: first.hits + second.hits,
            known: second.known.insert(number),
        }
    }
}

/// The text that reports the work a digestor has done.
pub open spec fn metrics_text(calls: nat, hits: nat, size: nat) -> Seq<char> {
    "calls: "@ + decimal(calls) + "\ncache hits: "@ + decimal(hits) + "\ncache size: "@ + decimal(
        size,
    )
}

/// Decides primality and factorizes, remembering every outcome it has
/// worked out.
pub struct PrimeDigestor {
    discovered_prime_numbers: HashMap<N, PrimeDigestResult>,
    calls: u64,
    cache_hits: u64,
}

impl PrimeDigestor {
    #[verifier::type_invariant]
    spec fn sound(&self) -> bool {
        forall|k: N| #[trigger]
            self.discovered_prime_numbers@.contains_key(k) ==> self.discovered_prime_numbers@[k]@.number()
                == k && self.discovered_prime_numbers@[k]@.valid()
    }

    /// The remembered outcomes, by number.
    pub closed spec fn discovered(&self) -> Map<N, Digest> {
        self.discovered_prime_numbers@.map_values(|found: PrimeDigestResult| found@)
    }

    /// How many checks were asked for, those that a check made itself
    /// included.
    pub closed spec fn calls(&self) -> nat {
        self.calls as nat
    }

    /// How many checks were answered from memory.
    pub closed spec fn hits(&self) -> nat {
        self.cache_hits as nat
    }

    /// Every remembered outcome is true of the number it is remembered for.
    pub open spec fn truthful(&self) -> bool {
        forall|k: N| #[trigger]
            self.discovered().contains_key(k) ==> self.discovered()[k].number() == k
                && self.discovered()[k].valid()
    }

    /// What a check of `number` does: `self` is the digestor before the
    /// check, `after` the digestor after it, `result` what it returned.
    pub open spec fn checked(
        self,
        number: N,
        result: Result<PrimeDigestResult, DigestError>,
        after: PrimeDigestor,
    ) -> bool {
        let work = effort(self.discovered().dom(), number);
        &&& number < SMALLEST_PRIME ==> result == Err::<PrimeDigestResult, DigestError>(
            DigestError::BelowTwo,
        )
        &&& number >= SMALLEST_PRIME ==> {
            &&& result matches Ok(outcome)
            &&& outcome@ == Digest::of(number as nat)
            &&& outcome@.valid()
            &&& after.discovered().contains_key(number)
            &&& after.discovered()[number] == outcome@
        }
        &&& self.discovered().submap_of(after.discovered())
        &&& after.discovered().dom() == work.known
        &&& after.truthful()
        &&& after.calls() == raised(self.calls(), work.calls)
        &&& after.hits() == raised(self.hits(), work.hits)
    }

    /// A digestor that remembers nothing yet.
    pub fn new() -> (digestor: Self)
        ensures
            digestor.discovered() == Map::<N, Digest>::empty(),
            digestor.calls() == 0,
            digestor.hits() == 0,
            digestor.truthful(),
    {
        let digestor = Self { discovered_prime_numbers: HashMap::new(), calls: 0, cache_hits: 0 };
        assert(digestor.discovered() =~= Map::<N, Digest>::empty());
        digestor
    }

    /// How many checks were asked for so far.
    pub fn total_calls(&self) -> (count: u64)
        ensures
            count == self.calls(),
    {
        self.calls
    }

    /// How many checks were answered from memory so far.
    pub fn cache_hits(&self) -> (count: u64)
        ensures
            count == self.hits(),
    {
        self.cache_hits
    }

    /// How many outcomes the digestor remembers.
    pub fn cache_size(&self) -> (count: usize)
        ensures
            count == self.discovered().len(),
    {
        assert(self.discovered().dom() =~= self.discovered_prime_numbers@.dom());
        self.discovered_prime_numbers.len()
    }

    /// Reports the work done so far: the checks asked for, those
    /// answered from memory, and the outcomes remembered.
    pub fn metrics_to_string(&self) -> (s: String)
        ensures
            s@ == metrics_text(self.calls(), self.hits(), self.discovered().len()),
    {
        let mut s = String::from_str("calls: ");
        let calls = decimal_string(self.total_calls());
        s.append(calls.as_str());
        s.append("\ncache hits: ");
        let hits = decimal_string(self.cache_hits());
        s.append(hits.as_str());
        s.append("\ncache size: ");
        let size = decimal_string(self.cache_size() as u64);
        s.append(size.as_str());
        s
    }

    /// Remembers the outcome for a number.
    fn remember(&mut self, number: N, outcome: &PrimeDigestResult)
        requires
            outcome@.number() == number,
            outcome@.valid(),
        ensures
            final(self).discovered() == old(self).discovered().insert(number, outcome@),
            final(self).calls() == old(self).calls(),
            final(self).hits() == old(self).hits(),
    {
        proof {
            use_type_invariant(&*self);
        }
        let mut known: HashMap<N, PrimeDigestResult> = HashMap::new();
        std::mem::swap(&mut known, &mut self.discovered_prime_numbers);
        known.insert(number, outcome.clone());
        self.discovered_prime_numbers = known;
        assert(self.discovered() =~= old(self).discovered().insert(number, outcome@));
    }

    /// Checks whether `number` is prime, and factorizes it if it is not.
    ///
    /// Zero and one are refused with `DigestError::BelowTwo`. Every other
    /// number has an outcome: `IsPrime` exactly when it is prime, else
    /// `NotPrime` with its prime factorization. An outcome that the
    /// digestor remembers is returned without any further work; a new one
    /// is remembered, and so are those of the divisors met on the way.
    #[verifier::loop_isolation(false)]
    pub fn is_prime(&mut self, number: N) -> (result: Result<PrimeDigestResult, DigestError>)
        ensures
            old(self).checked(number, result, *final(self)),
        decreases number,
    {
        proof {
            use_type_invariant(&*self);
        }
        self.calls = self.calls.saturating_add(1);
        if number < SMALLEST_PRIME {
            return Err(DigestError::BelowTwo);
        }
        let remembered = match self.discovered_prime_numbers.get(&number) {
            Some(found) => Some(found.clone()),
            None => None,
        };
        if let Some(found) = remembered {
            proof {
                lemma_valid_is_unique(found@);
            }
            self.cache_hits = self.cache_hits.saturating_add(1);
            return Ok(found);
        }
        // A number is prime unless something divides it. The smallest
        // candidate is 2, the largest the square root rounded down.
        let max_number = square_root(number);
        let mut current_number = max_number;
        let ghost entered = *self;
        while current_number >= SMALLEST_PRIME
            invariant
                *self == entered,
                current_number <= max_number,
                is_square_root(max_number as nat, number as nat),
                forall|d: nat| current_number < d <= max_number ==> !#[trigger] divides(d, number as nat),
            decreases current_number,
        {
            if number % current_number == 0 {
                let next_number = number / current_number;
                proof {
                    lemma_trial_divisor(number as nat, max_number as nat, current_number as nat);
                    lemma_scan_finds_first(number as nat, max_number as nat, current_number as nat);
                    lemma_first_divisor_unique(current_number as nat, number as nat);
                    assert(next_number * current_number == number) by (nonlinear_arith)
                        requires
                            number == current_number * next_number,
                    ;
                }
                let cofactor = self.is_prime(next_number).unwrap();
                let ghost halfway = self.discovered();
                let divisor = self.is_prime(current_number).unwrap();
                proof {
                    lemma_valid_counts_fit(cofactor@, divisor@);
                }
                let combined = cofactor.combine(&divisor).unwrap();
                let ghost explored = self.discovered();
                proof {
                    lemma_valid_is_unique(combined@);
                }
                self.remember(number, &combined);
                assert(old(self).discovered().submap_of(self.discovered())) by {
                    lemma_submap_of_trans(old(self).discovered(), halfway, explored);
                    assert(!old(self).discovered().contains_key(number));
                }
                return Ok(combined);
            }
            current_number -= 1;
        }
        proof {
            lemma_prime_by_trial(number as nat, max_number as nat);
        }
        let outcome = PrimeDigestResult::IsPrime(number);
        self.remember(number, &outcome);
        Ok(outcome)
    }
}

/// The work for a composite that is not remembered is the one call, the
/// work for its cofactor and then the work for its first divisor.
pub proof fn lemma_effort_of_composite(known: Set<N>, number: N)
    requires
        number >= SMALLEST_PRIME,
        !known.contains(number),
        !prime(number as nat),
    ensures
        ({
            let divisor = trial_divisor(number as nat);
            let first = effort(known, (number as nat / divisor) as N);
            let second = effort(first.known, divisor as N);
            &&& 2 <= divisor <= number as nat / divisor < number
            &&& effort(known, number) == Effort {
                calls: 1 + first.calls + second.calls,
                hits: first.hits + second.hits,
                known: second.known.insert(number),
            }
        }),
{
    lemma_composite_splits(number as nat);
}

/// A check of `number` asks for fewer checks than `number` itself, or
/// for the one; no more of them are answered from memory than were asked
/// for; and nothing is forgotten.
pub proof fn lemma_effort_bounded(known: Set<N>, number: N)
    ensures
        1 <= effort(known, number).calls <= if number < 3 {
            1
        } else {
            number - 1
        },
        effort(known, number).hits <= effort(known, number).calls,
        known.subset_of(effort(known, number).known),
        known.finite() ==> effort(known, number).known.finite(),
    decreases number,
{
    let divisor = trial_divisor(number as nat);
    let cofactor = number as nat / divisor;
    if number >= SMALLEST_PRIME && !known.contains(number) && !prime(number as nat) && 2 <= divisor
        < number && 2 <= cofactor < number {
        lemma_effort_bounded(known, cofactor as N);
        lemma_effort_bounded(effort(known, cofactor as N).known, divisor as N);
        assert(cofactor + divisor <= number) by (nonlinear_arith)
            requires
                cofactor >= 2,
                divisor >= 2,
                cofactor == number as nat / divisor,
        ;
    }
}

/// A check of a number whose outcome is remembered returns that outcome
/// and works out nothing: it costs the one call, which is answered from
/// memory, and what is remembered stays as it is.
pub proof fn lemma_remembered_is_returned(
    before: PrimeDigestor,
    number: N,
    result: Result<PrimeDigestResult, DigestError>,
    after: PrimeDigestor,
)
    requires
        before.checked(number, result, after),
        before.discovered().contains_key(number),
        before.truthful(),
    ensures
        (result matches Ok(outcome) && outcome@ == before.discovered()[number]),
        after.discovered() == before.discovered(),
        after.calls() == raised(before.calls(), 1),
        after.hits() == raised(before.hits(), 1),
{
    assert(before.discovered()[number].valid());
    assert(after.discovered() =~= before.discovered());
}

/// Two checks of one number in a row agree: the second returns what the
/// first returned, and, where there is an outcome, returns it from
/// memory without any further work.
pub proof fn lemma_repeated_check_agrees(
    before: PrimeDigestor,
    number: N,
    first: Result<PrimeDigestResult, DigestError>,
    between: PrimeDigestor,
    second: Result<PrimeDigestResult, DigestError>,
    after: PrimeDigestor,
)
    requires
        before.checked(number, first, between),
        between.checked(number, second, after),
    ensures
        first matches Ok(a) ==> (second matches Ok(b) && a@ == b@),
        first is Err ==> second == first,
        after.discovered() == between.discovered(),
        first is Ok ==> after.calls() == raised(between.calls(), 1) && after.hits() == raised(
            between.hits(),
            1,
        ),
{
    assert(after.discovered() =~= between.discovered());
}

} // verus!
