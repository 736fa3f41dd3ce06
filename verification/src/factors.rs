//! The mathematical model of a recipe: a finite map from prime factors to
//! their multiplicities, its product and its ascending listing.

use vstd::prelude::*;
use vstd::arithmetic::power::{pow, lemma_pow0, lemma_pow1, lemma_pow_adds, lemma_pow_positive};
use vstd::arithmetic::power2::{lemma2_to64, lemma_pow2, lemma_pow2_strictly_increases};
use vstd::arithmetic::div_mod::{lemma_div_decreases, lemma_div_multiples_vanish};
use crate::arith::{
    divides, lemma_multiple, lemma_prime_divides_factor, lemma_prime_divides_prime, prime,
};

verus! {

/// One more than the largest number the library works on.
pub open spec fn limit() -> nat {
    0x1_0000_0000_0000_0000
}

/// The multiplicity of `p` in `m`: zero where `p` is not a key.
pub open spec fn exponent(m: Map<nat, nat>, p: nat) -> nat {
    if m.contains_key(p) {
        m[p]
    } else {
        0
    }
}

/// The product of `p ^ exponent(m, p)` over every `p` below `bound`.
pub open spec fn product_below(m: Map<nat, nat>, bound: nat) -> int
    decreases bound,
{
    if bound == 0 {
        1
    } else {
        let p = (bound - 1) as nat;
        product_below(m, p) * pow(p as int, exponent(m, p))
    }
}

/// The number a recipe stands for: the product of `p ^ m[p]` over its keys.
pub open spec fn product(m: Map<nat, nat>) -> int {
    product_below(m, limit())
}

/// The union of two recipes; multiplicities of a shared key add.
pub open spec fn merged(a: Map<nat, nat>, b: Map<nat, nat>) -> Map<nat, nat> {
    Map::new(
        |p: nat| a.contains_key(p) || b.contains_key(p),
        |p: nat| exponent(a, p) + exponent(b, p),
    )
}

/// The recipe that a single factor `p` contributes.
pub open spec fn single(p: nat) -> Map<nat, nat> {
    Map::<nat, nat>::empty().insert(p, 1)
}

/// `m` is a prime factorization of `n`: every key is prime and occurs at
/// least once, and the product is `n`.
pub open spec fn factorization(m: Map<nat, nat>, n: nat) -> bool {
    &&& forall|p: nat| #[trigger] m.contains_key(p) ==> prime(p) && m[p] >= 1 && p < limit()
    &&& product(m) == n
}

/// The entries of `m` with a key below `bound`, in ascending order of key.
pub open spec fn entries_below(m: Map<nat, nat>, bound: nat) -> Seq<(nat, nat)>
    decreases bound,
{
    if bound == 0 {
        Seq::empty()
    } else {
        let p = (bound - 1) as nat;
        if m.contains_key(p) {
            entries_below(m, p).push((p, m[p]))
        } else {
            entries_below(m, p)
        }
    }
}

/// The entries of a recipe in ascending order of prime.
pub open spec fn entries(m: Map<nat, nat>) -> Seq<(nat, nat)> {
    entries_below(m, limit())
}

/// How often `p` divides `n`: the largest `e` such that `p ^ e` divides `n`.
pub open spec fn multiplicity(p: nat, n: nat) -> nat
    decreases n,
    when p >= 2 && n >= 1
    via multiplicity_decreases
{
    if n % p == 0 {
        1 + multiplicity(p, n / p)
    } else {
        0
    }
}

#[via_fn]
proof fn multiplicity_decreases(p: nat, n: nat) {
    lemma_div_decreases(n as int, p as int);
}

/// The prime factorization of `n`: each prime that divides `n`, with how
/// often it does.
pub open spec fn prime_powers(n: nat) -> Map<nat, nat> {
    Map::new(|p: nat| prime(p) && divides(p, n), |p: nat| multiplicity(p, n))
}

/// A recipe with one occurrence of the factor `p` taken out.
pub open spec fn reduced(m: Map<nat, nat>, p: nat) -> Map<nat, nat> {
    if m[p] == 1 {
        m.remove(p)
    } else {
        m.insert(p, (m[p] - 1) as nat)
    }
}

/// `s` lists pairs in strictly ascending order of their first component.
pub open spec fn ascending(s: Seq<(nat, nat)>) -> bool {
    forall|i: int, j: int| 0 <= i < j < s.len() ==> s[i].0 < s[j].0
}

/// The product of a merged recipe is the product of the two products.
pub proof fn lemma_product_merged(a: Map<nat, nat>, b: Map<nat, nat>, bound: nat)
    ensures
        product_below(merged(a, b), bound) == product_below(a, bound) * product_below(b, bound),
    decreases bound,
{
    if bound > 0 {
        let p = (bound - 1) as nat;
        lemma_product_merged(a, b, p);
        lemma_pow_adds(p as int, exponent(a, p), exponent(b, p));
        let pa = product_below(a, p);
        let pb = product_below(b, p);
        let ta = pow(p as int, exponent(a, p));
        let tb = pow(p as int, exponent(b, p));
        assert(exponent(merged(a, b), p) == exponent(a, p) + exponent(b, p));
        assert((pa * pb) * (ta * tb) == (pa * ta) * (pb * tb)) by (nonlinear_arith);
    }
}

/// A single factor stands for itself.
pub proof fn lemma_product_single(p: nat, bound: nat)
    ensures
        product_below(single(p), bound) == if p < bound {
            p as int
        } else {
            1
        },
    decreases bound,
{
    if bound > 0 {
        let q = (bound - 1) as nat;
        lemma_product_single(p, q);
        if q == p {
            assert(exponent(single(p), q) == 1);
            lemma_pow1(p as int);
        } else {
            assert(exponent(single(p), q) == 0);
            lemma_pow0(q as int);
        }
    }
}

/// Where zero is no key, every factor `k ^ m[k]` is at least one and at
/// most the whole product.
pub proof fn lemma_factor_le_product(m: Map<nat, nat>, k: nat, bound: nat)
    requires
        !m.contains_key(0),
    ensures
        1 <= product_below(m, bound),
        k < bound ==> 1 <= pow(k as int, exponent(m, k)) <= product_below(m, bound),
    decreases bound,
{
    if bound > 0 {
        let q = (bound - 1) as nat;
        lemma_factor_le_product(m, k, q);
        let rest = product_below(m, q);
        let term = pow(q as int, exponent(m, q));
        if q == 0 {
            lemma_pow0(0);
        } else {
            lemma_pow_positive(q as int, exponent(m, q));
        }
        assert(rest * term >= rest && rest * term >= term) by (nonlinear_arith)
            requires
                rest >= 1,
                term >= 1,
        ;
    }
}

/// Raising a larger base to the same exponent gives no less.
pub proof fn lemma_pow_base_increases(a: nat, b: nat, e: nat)
    requires
        a <= b,
    ensures
        0 <= pow(a as int, e) <= pow(b as int, e),
    decreases e,
{
    reveal(pow);
    if e > 0 {
        lemma_pow_base_increases(a, b, (e - 1) as nat);
        let x = pow(a as int, (e - 1) as nat);
        let y = pow(b as int, (e - 1) as nat);
        assert(0 <= a * x <= b * y) by (nonlinear_arith)
            requires
                0 <= a <= b,
                0 <= x <= y,
        ;
    }
}

/// In a factorization of a number below the limit no multiplicity
/// reaches 64.
pub proof fn lemma_exponent_small(m: Map<nat, nat>, n: nat, p: nat)
    requires
        factorization(m, n),
        n < limit(),
        m.contains_key(p),
    ensures
        m[p] < 64,
{
    let e = m[p];
    assert(!m.contains_key(0));
    lemma_factor_le_product(m, p, limit());
    lemma_pow_base_increases(2, p, e);
    lemma_pow2(e);
    lemma2_to64();
    if e > 64 {
        lemma_pow2_strictly_increases(64, e);
    }
}

/// Merging a factorization of `x` with one of `y` gives a factorization
/// of `x * y`.
pub proof fn lemma_merged_factorization(a: Map<nat, nat>, x: nat, b: Map<nat, nat>, y: nat)
    requires
        factorization(a, x),
        factorization(b, y),
    ensures
        factorization(merged(a, b), x * y),
{
    lemma_product_merged(a, b, limit());
}

/// A prime is its own factorization.
pub proof fn lemma_single_factorization(p: nat)
    requires
        prime(p),
        p < limit(),
    ensures
        factorization(single(p), p),
{
    lemma_product_single(p, limit());
}

/// The ascending listing is the only one: a strictly ascending sequence
/// that holds exactly the entries of `m` below `bound` is `entries_below`.
pub proof fn lemma_entries_unique(m: Map<nat, nat>, bound: nat, s: Seq<(nat, nat)>)
    requires
        ascending(s),
        forall|i: int|
            0 <= i < s.len() ==> (#[trigger] s[i]).0 < bound && m.contains_key(s[i].0) && m[s[i].0]
                == s[i].1,
        forall|p: nat|
            p < bound && #[trigger] m.contains_key(p) ==> exists|i: int|
                0 <= i < s.len() && (#[trigger] s[i]).0 == p,
    ensures
        s == entries_below(m, bound),
    decreases bound,
{
    if bound == 0 {
        if s.len() > 0 {
            assert(s[0].0 < bound);
        }
        assert(s =~= Seq::empty());
    } else {
        let p = (bound - 1) as nat;
        if m.contains_key(p) {
            let i = choose|i: int| 0 <= i < s.len() && (#[trigger] s[i]).0 == p;
            let last = s.len() - 1;
            if i < last {
                assert(s[i].0 < s[last].0);
                assert(s[last].0 < bound);
            }
            let front = s.drop_last();
            assert forall|q: nat| q < p && #[trigger] m.contains_key(q) implies exists|j: int|
                0 <= j < front.len() && (#[trigger] front[j]).0 == q by {
                let j = choose|j: int| 0 <= j < s.len() && (#[trigger] s[j]).0 == q;
                assert(front[j] == s[j]);
            }
            assert forall|j: int| 0 <= j < front.len() implies (#[trigger] front[j]).0 < p
                && m.contains_key(front[j].0) && m[front[j].0] == front[j].1 by {
                assert(front[j] == s[j]);
                assert(s[j].0 < s[last].0);
            }
            lemma_entries_unique(m, p, front);
            assert(s =~= front.push(s[last]));
        } else {
            assert forall|j: int| 0 <= j < s.len() implies (#[trigger] s[j]).0 < p by {
                assert(s[j].0 < bound && m.contains_key(s[j].0));
            }
            lemma_entries_unique(m, p, s);
        }
    }
}

/// Taking one occurrence of a factor out of a recipe divides its product
/// by that factor.
pub proof fn lemma_product_reduced(m: Map<nat, nat>, p: nat, bound: nat)
    requires
        m.contains_key(p),
        m[p] >= 1,
        p < bound,
    ensures
        product_below(m, bound) == p * product_below(reduced(m, p), bound),
{
    assert(m =~= merged(reduced(m, p), single(p)));
    lemma_product_merged(reduced(m, p), single(p), bound);
    lemma_product_single(p, bound);
    let rest = product_below(reduced(m, p), bound);
    assert(rest * p == p * rest) by (nonlinear_arith);
}

/// A prime that divides a power of a prime is that prime, and the power
/// is not the zeroth.
pub proof fn lemma_prime_divides_power(p: nat, q: nat, e: nat)
    requires
        prime(p),
        prime(q),
        pow(q as int, e) % (p as int) == 0,
    ensures
        p == q,
        e >= 1,
    decreases e,
{
    reveal(pow);
    if e == 0 {
        vstd::arithmetic::div_mod::lemma_small_mod(1, p);
    } else {
        let rest = pow(q as int, (e - 1) as nat);
        lemma_pow_positive(q as int, (e - 1) as nat);
        assert(pow(q as int, e) == q * rest);
        assert(divides(p, q * (rest as nat)));
        lemma_prime_divides_factor(p, q, rest as nat);
        if divides(p, q) {
            lemma_prime_divides_prime(p, q);
        } else {
            lemma_prime_divides_power(p, q, (e - 1) as nat);
        }
    }
}

/// A prime that divides the product of a recipe of primes is one of its
/// keys.
pub proof fn lemma_prime_divisor_is_key(m: Map<nat, nat>, p: nat, bound: nat)
    requires
        prime(p),
        forall|k: nat| #[trigger] m.contains_key(k) ==> prime(k),
        product_below(m, bound) % (p as int) == 0,
    ensures
        m.contains_key(p),
        p < bound,
    decreases bound,
{
    if bound == 0 {
        vstd::arithmetic::div_mod::lemma_small_mod(1, p);
    } else {
        let q = (bound - 1) as nat;
        let rest = product_below(m, q);
        let term = pow(q as int, exponent(m, q));
        assert(!m.contains_key(0));
        lemma_factor_le_product(m, q, bound);
        lemma_factor_le_product(m, q, q);
        assert((rest as nat) * (term as nat) == product_below(m, bound)) by (nonlinear_arith)
            requires
                rest >= 1,
                term >= 1,
                product_below(m, bound) == rest * term,
        ;
        assert(divides(p, (rest as nat) * (term as nat)));
        lemma_prime_divides_factor(p, rest as nat, term as nat);
        if divides(p, rest as nat) {
            lemma_prime_divisor_is_key(m, p, q);
        } else {
            if m.contains_key(q) {
                lemma_prime_divides_power(p, q, exponent(m, q));
            } else {
                lemma_pow0(q as int);
                vstd::arithmetic::div_mod::lemma_small_mod(1, p);
            }
        }
    }
}

/// In a prime factorization of `n` every prime `p` occurs as often as it
/// divides `n`.
pub proof fn lemma_exponent_is_multiplicity(m: Map<nat, nat>, n: nat, p: nat)
    requires
        factorization(m, n),
        prime(p),
    ensures
        n >= 1,
        exponent(m, p) == multiplicity(p, n),
        m.contains_key(p) <==> divides(p, n),
    decreases n,
{
    assert(!m.contains_key(0));
    lemma_factor_le_product(m, p, limit());
    if m.contains_key(p) {
        let rest = reduced(m, p);
        let x = product(rest);
        lemma_product_reduced(m, p, limit());
        assert(!rest.contains_key(0));
        lemma_factor_le_product(rest, p, limit());
        lemma_multiple(p, x, n as int);
        lemma_div_multiples_vanish(x, p as int);
        lemma_div_decreases(n as int, p as int);
        assert(factorization(rest, n / p));
        lemma_exponent_is_multiplicity(rest, n / p, p);
        assert(exponent(rest, p) == m[p] - 1);
    } else {
        if n % p == 0 {
            lemma_prime_divisor_is_key(m, p, limit());
        }
    }
}

/// A number has one prime factorization only: every prime factorization
/// of `n` is `prime_powers(n)`.
pub proof fn lemma_factorization_unique(m: Map<nat, nat>, n: nat)
    requires
        factorization(m, n),
    ensures
        m == prime_powers(n),
{
    assert forall|p: nat| m.contains_key(p) <==> prime_powers(n).contains_key(p) by {
        if m.contains_key(p) || prime(p) {
            lemma_exponent_is_multiplicity(m, n, p);
        }
    }
    assert forall|p: nat| m.contains_key(p) implies m[p] == prime_powers(n)[p] by {
        lemma_exponent_is_multiplicity(m, n, p);
    }
    assert(m =~= prime_powers(n));
}

} // verus!
