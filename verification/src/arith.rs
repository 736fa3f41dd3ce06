//! Divisibility, primality and the integer square root.

use vstd::prelude::*;
use vstd::arithmetic::div_mod::{lemma_fundamental_div_mod, lemma_mod_multiples_basic, lemma_small_mod};

verus! {

/// `d` is a positive divisor of `n`.
pub open spec fn divides(d: nat, n: nat) -> bool {
    d != 0 && n % d == 0
}

/// `n` is at least two and has no positive divisors other than one and itself.
pub open spec fn prime(n: nat) -> bool {
    n >= 2 && forall|d: nat| 2 <= d < n ==> !#[trigger] divides(d, n)
}

/// `r` is the integer square root of `x`: the largest number whose square
/// does not exceed `x`.
pub open spec fn is_square_root(r: nat, x: nat) -> bool {
    r * r <= x < (r + 1) * (r + 1)
}

/// A divisor `d` of `n` comes with its cofactor `n / d`, which divides `n` too.
pub proof fn lemma_cofactor(d: nat, n: nat)
    requires
        divides(d, n),
        n >= 1,
    ensures
        n == d * (n / d),
        n / d >= 1,
        divides(n / d, n),
{
    let q = n / d;
    lemma_fundamental_div_mod(n as int, d as int);
    assert(n == d * q);
    if q == 0 {
        assert(d * q == 0) by (nonlinear_arith)
            requires
                q == 0,
        ;
    }
    lemma_mod_multiples_basic(d as int, q as int);
    assert((d * q) % q == 0);
}

/// Trial division up to the square root decides primality: a number with
/// no divisor between two and its integer square root is prime.
pub proof fn lemma_prime_by_trial(n: nat, r: nat)
    requires
        n >= 2,
        is_square_root(r, n),
        forall|d: nat| 2 <= d <= r ==> !#[trigger] divides(d, n),
    ensures
        prime(n),
{
    assert forall|d: nat| 2 <= d < n implies !#[trigger] divides(d, n) by {
        if divides(d, n) {
            let q = n / d;
            lemma_cofactor(d, n);
            assert(q >= 2) by (nonlinear_arith)
                requires
                    n == d * q,
                    d < n,
                    q >= 1,
            ;
            if d > r {
                assert(q <= r) by (nonlinear_arith)
                    requires
                        n == d * q,
                        d >= r + 1,
                        n < (r + 1) * (r + 1),
                ;
                assert(divides(q, n));
            }
        }
    }
}

/// A divisor found by trial division is a proper one, and so is its
/// cofactor; the cofactor is the larger of the two.
pub proof fn lemma_trial_divisor(n: nat, r: nat, d: nat)
    requires
        is_square_root(r, n),
        2 <= d <= r,
        divides(d, n),
    ensures
        !prime(n),
        n == d * (n / d),
        d <= n / d < n,
{
    let q = n / d;
    assert(n >= 4) by (nonlinear_arith)
        requires
            r * r <= n,
            r >= 2,
    ;
    lemma_cofactor(d, n);
    assert(d * d <= n) by (nonlinear_arith)
        requires
            r * r <= n,
            d <= r,
    ;
    assert(d <= q < n) by (nonlinear_arith)
        requires
            n == d * q,
            d * d <= n,
            d >= 2,
            q >= 1,
    ;
}

/// `d` is the divisor that trial division from the square root downwards
/// meets first: the largest divisor of `n` that is at least two and at most
/// the square root of `n`.
pub open spec fn first_divisor(d: nat, n: nat) -> bool {
    &&& 2 <= d
    &&& d * d <= n
    &&& divides(d, n)
    &&& forall|e: nat| d < e && e * e <= n ==> !#[trigger] divides(e, n)
}

/// The divisor that trial division of a composite `n` meets first.
pub open spec fn trial_divisor(n: nat) -> nat {
    choose|d: nat| first_divisor(d, n)
}

/// Trial division meets one divisor first, and no other.
pub proof fn lemma_first_divisor_unique(d: nat, n: nat)
    requires
        first_divisor(d, n),
    ensures
        trial_divisor(n) == d,
{
    let c = trial_divisor(n);
    assert(first_divisor(c, n));
    if c < d {
        assert(divides(d, n));
    } else if d < c {
        assert(divides(c, n));
    }
}

/// A divisor that the scan from the square root downwards reaches, with
/// none above it, is the first divisor.
pub proof fn lemma_scan_finds_first(n: nat, r: nat, d: nat)
    requires
        is_square_root(r, n),
        2 <= d <= r,
        divides(d, n),
        forall|e: nat| d < e <= r ==> !#[trigger] divides(e, n),
    ensures
        first_divisor(d, n),
{
    assert(d * d <= n) by (nonlinear_arith)
        requires
            r * r <= n,
            d <= r,
    ;
    assert forall|e: nat| d < e && e * e <= n implies !#[trigger] divides(e, n) by {
        assert(e <= r) by (nonlinear_arith)
            requires
                e * e <= n,
                n < (r + 1) * (r + 1),
        ;
    }
}

/// Every number has an integer square root.
pub proof fn lemma_square_root_exists(n: nat)
    ensures
        exists|r: nat| #[trigger] is_square_root(r, n),
    decreases n,
{
    if n == 0 {
        let r: nat = 0;
        assert(r * r == 0 && (r + 1) * (r + 1) == 1) by (nonlinear_arith)
            requires
                r == 0,
        ;
        assert(is_square_root(r, n));
    } else {
        let m = (n - 1) as nat;
        lemma_square_root_exists(m);
        let r = choose|r: nat| #[trigger] is_square_root(r, m);
        if n < (r + 1) * (r + 1) {
            assert(is_square_root(r, n));
        } else {
            assert((r + 1) * (r + 1) == n);
            assert(n < (r + 2) * (r + 2)) by (nonlinear_arith)
                requires
                    (r + 1) * (r + 1) == n,
            ;
            assert(is_square_root(r + 1, n));
        }
    }
}

/// Where some candidate up to `c` divides `n`, and none above `c`, the
/// scan downwards from `c` meets a first divisor.
proof fn lemma_scan_meets_divisor(n: nat, r: nat, c: nat)
    requires
        is_square_root(r, n),
        c <= r,
        forall|e: nat| c < e <= r ==> !#[trigger] divides(e, n),
        exists|d: nat| 2 <= d <= c && #[trigger] divides(d, n),
    ensures
        exists|d: nat| #[trigger] first_divisor(d, n),
    decreases c,
{
    if 2 <= c && divides(c, n) {
        lemma_scan_finds_first(n, r, c);
    } else {
        let d = choose|d: nat| 2 <= d <= c && #[trigger] divides(d, n);
        assert(2 <= d <= c - 1 && divides(d, n));
        lemma_scan_meets_divisor(n, r, (c - 1) as nat);
    }
}

/// Trial division of a composite meets a divisor: the first divisor
/// exists, and splits the number into two proper factors.
pub proof fn lemma_composite_splits(n: nat)
    requires
        n >= 2,
        !prime(n),
    ensures
        first_divisor(trial_divisor(n), n),
        2 <= trial_divisor(n) <= n / trial_divisor(n) < n,
        n == trial_divisor(n) * (n / trial_divisor(n)),
{
    lemma_square_root_exists(n);
    let r = choose|r: nat| #[trigger] is_square_root(r, n);
    let d = choose|d: nat| 2 <= d < n && #[trigger] divides(d, n);
    lemma_cofactor(d, n);
    let q = n / d;
    if d <= r {
        assert(2 <= d <= r && divides(d, n));
    } else {
        assert(2 <= q <= r) by (nonlinear_arith)
            requires
                n == d * q,
                r + 1 <= d < n,
                n < (r + 1) * (r + 1),
                q >= 1,
        ;
        assert(2 <= q <= r && divides(q, n));
    }
    lemma_scan_meets_divisor(n, r, r);
    let f = trial_divisor(n);
    assert(first_divisor(f, n));
    assert(f <= r) by (nonlinear_arith)
        requires
            f * f <= n,
            n < (r + 1) * (r + 1),
    ;
    lemma_trial_divisor(n, r, f);
}

/// A product with `p` as one factor is a multiple of `p`.
pub proof fn lemma_multiple(p: nat, k: int, x: int)
    requires
        p > 0,
        x == p * k,
    ensures
        x % (p as int) == 0,
{
    lemma_mod_multiples_basic(k, p as int);
    assert(k * p == p * k) by (nonlinear_arith);
}

/// A prime that divides a product divides one of the two factors.
pub proof fn lemma_prime_divides_factor(p: nat, a: nat, b: nat)
    requires
        prime(p),
        divides(p, a * b),
    ensures
        divides(p, a) || divides(p, b),
    decreases a,
{
    if a % p != 0 {
        let k = (a * b) / p;
        lemma_fundamental_div_mod((a * b) as int, p as int);
        let r = a % p;
        let q = a / p;
        lemma_fundamental_div_mod(a as int, p as int);
        assert(r * b == p * (k - q * b)) by (nonlinear_arith)
            requires
                a == p * q + r,
                a * b == p * k,
        ;
        lemma_multiple(p, k - q * b, (r * b) as int);
        lemma_small_mod(r, p);
        if a >= p {
            lemma_prime_divides_factor(p, r, b);
        } else if a == 1 {
            assert(a * b == b) by (nonlinear_arith)
                requires
                    a == 1,
            ;
        } else {
            assert(!divides(a, p));
            let s = p % a;
            let t = p / a;
            lemma_fundamental_div_mod(p as int, a as int);
            assert(s * b == p * (b - t * k)) by (nonlinear_arith)
                requires
                    p == a * t + s,
                    a * b == p * k,
            ;
            lemma_multiple(p, b - t * k, (s * b) as int);
            lemma_small_mod(s, p);
            lemma_prime_divides_factor(p, s, b);
        }
    }
}

/// Of two primes, one divides the other only where they are equal.
pub proof fn lemma_prime_divides_prime(p: nat, q: nat)
    requires
        prime(p),
        prime(q),
        divides(p, q),
    ensures
        p == q,
{
    if p > q {
        lemma_small_mod(q, p);
    }
}

/// Computes the integer square root of `x`.
pub fn square_root(x: u64) -> (r: u64)
    ensures
        is_square_root(r as nat, x as nat),
{
    let mut lo: u64 = 0;
    let mut hi: u64 = 0x1_0000_0000;
    while hi - lo > 1
        invariant
            lo < hi <= 0x1_0000_0000,
            lo * lo <= x < hi * hi,
        decreases hi - lo,
    {
        let mid: u64 = lo + (hi - lo) / 2;
        assert(mid * mid <= 0xFFFF_FFFF * 0xFFFF_FFFF) by (nonlinear_arith)
            requires
                mid <= 0xFFFF_FFFF,
        ;
        if mid * mid <= x {
            lo = mid;
        } else {
            hi = mid;
        }
    }
    lo
}

} // verus!
