//! Trial-division primality testing and the search for the smallest
//! prime at or above a given value.

use vstd::prelude::*;

use crate::sqrt::{is_ceil_sqrt, usqrt};

verus! {

/// `d` divides `n` evenly.
pub open spec fn divides(d: int, n: int) -> bool {
    n % d == 0
}

/// `n` is a prime number: at least 2, with no divisor strictly
/// between 1 and itself.
pub open spec fn prime(n: int) -> bool {
    &&& 2 <= n
    &&& forall|d: int| 2 <= d < n ==> !(#[trigger] divides(d, n))
}

/// `p` is the smallest prime at or above `n`.
pub open spec fn is_next_prime(n: int, p: int) -> bool {
    &&& prime(p)
    &&& n <= p
    &&& forall|m: int| n <= m < p ==> !(#[trigger] prime(m))
}

/// An even number above 2 is not prime: 2 divides it.
pub proof fn lemma_even_not_prime(n: int)
    requires
        2 < n,
        n % 2 == 0,
    ensures
        !prime(n),
{
    assert(divides(2, n));
}

/// A divisor of an odd number is odd.
proof fn lemma_odd_divisor(n: int, e: int)
    requires
        2 <= e,
        n % 2 != 0,
        divides(e, n),
    ensures
        e % 2 != 0,
{
    if e % 2 == 0 {
        vstd::arithmetic::div_mod::lemma_fundamental_div_mod(e, 2);
        vstd::arithmetic::div_mod::lemma_fundamental_div_mod(n, e);
        let f = e / 2;
        let q = n / e;
        assert(n == 2 * (f * q)) by (nonlinear_arith)
            requires
                e == 2 * f,
                n == e * q,
        ;
        vstd::arithmetic::div_mod::lemma_fundamental_div_mod_converse_mod(n, 2, f * q, 0);
        assert(false);
    }
}

/// A number with a proper divisor has one no larger than its ceiling
/// square root: of a divisor and its cofactor, the smaller one
/// squares to at most the number itself.
proof fn lemma_divisor_below_sqrt(n: int, d: int, s: int)
    requires
        2 <= d < n,
        divides(d, n),
        is_ceil_sqrt(n, s),
    ensures
        exists|e: int| 2 <= e <= s && #[trigger] divides(e, n),
{
    vstd::arithmetic::div_mod::lemma_fundamental_div_mod(n, d);
    let q = n / d;
    assert(n == d * q);
    assert(2 <= q) by (nonlinear_arith)
        requires
            2 <= d < n,
            n == d * q,
    ;
    if d <= s {
        assert(2 <= d <= s && divides(d, n));
    } else {
        assert(q <= s) by (nonlinear_arith)
            requires
                n == d * q,
                n <= s * s,
                s < d,
                2 <= q,
                0 <= s,
        ;
        vstd::arithmetic::div_mod::lemma_fundamental_div_mod_converse_mod(n, q, d, 0);
        assert(2 <= q <= s && divides(q, n));
    }
}

/// Returns whether `n` is prime, by trial division against the odd
/// candidates up to and including the ceiling square root of `n`.
pub fn is_prime(n: u64) -> (r: bool)
    ensures
        r == prime(n as int),
{
    if n == 2 || n == 3 {
        return true;
    }
    if n % 2 == 0 || n <= 1 {
        proof {
            if n > 2 {
                lemma_even_not_prime(n as int);
            }
        }
        return false;
    }
    let upper: u64 = usqrt(n);
    proof {
        assert(upper <= 0x1_0000_0000) by (nonlinear_arith)
            requires
                1 <= upper,
                (upper - 1) * (upper - 1) < n <= u64::MAX,
        ;
        assert(upper < n) by (nonlinear_arith)
            requires
                5 <= n,
                0 <= upper,
                (upper - 1) * (upper - 1) < n,
        ;
    }
    let mut d: u64 = 3;
    while d <= upper
        invariant
            5 <= n,
            n % 2 != 0,
            3 <= d,
            d % 2 != 0,
            upper <= 0x1_0000_0000,
            upper < n,
            is_ceil_sqrt(n as int, upper as int),
            forall|e: int| 2 <= e < d ==> !(#[trigger] divides(e, n as int)),
        decreases upper + 2 - d,
    {
        if n % d == 0 {
            proof {
                assert(divides(d as int, n as int));
            }
            return false;
        }
        proof {
            assert forall|e: int| 2 <= e < d + 2 implies !(#[trigger] divides(
                e,
                n as int,
            )) by {
                if e == d {
                    assert(!divides(d as int, n as int));
                } else if e == d + 1 {
                    if divides(e, n as int) {
                        lemma_odd_divisor(n as int, e);
                        assert(false);
                    }
                }
            }
        }
        d += 2;
    }
    proof {
        assert forall|m: int| 2 <= m < n implies !(#[trigger] divides(m, n as int)) by {
            if divides(m, n as int) {
                lemma_divisor_below_sqrt(n as int, m, upper as int);
                let e = choose|e: int| 2 <= e <= upper && #[trigger] divides(e, n as int);
                assert(!divides(e, n as int));
                assert(false);
            }
        }
    }
    true
}

/// Returns the smallest prime at or above `n`: 2 for all `n` at most
/// 2, and otherwise the first odd candidate at or above `n` that
/// passes the primality test.
///
/// Near the top of the `u64` range the search could exhaust the type
/// before meeting a prime; the precondition restricts the input to
/// values above which some representable prime exists, and under it
/// the candidate never overflows.
pub fn next_prime(n: u64) -> (r: u64)
    requires
        exists|p: int| n <= p <= u64::MAX && #[trigger] prime(p),
    ensures
        is_next_prime(n as int, r as int),
{
    if n <= 2 {
        proof {
            assert(prime(2));
        }
        return 2;
    }
    let ghost p0 = choose|p: int| n <= p <= u64::MAX && #[trigger] prime(p);
    let mut c: u64 = n;
    if c % 2 == 0 {
        proof {
            lemma_even_not_prime(c as int);
            assert(c + 1 <= p0);
        }
        c += 1;
    }
    loop
        invariant
            3 <= c,
            c % 2 != 0,
            n <= c <= p0 <= u64::MAX,
            prime(p0),
            forall|m: int| n <= m < c ==> !(#[trigger] prime(m)),
        decreases p0 - c,
    {
        if is_prime(c) {
            return c;
        }
        proof {
            if p0 == c + 1 {
                lemma_even_not_prime(p0);
                assert(false);
            }
            assert(c + 2 <= p0);
            lemma_even_not_prime(c + 1);
        }
        c += 2;
    }
}

/// The smallest prime at or above a value is unique: two numbers
/// both satisfying the property for the same `n` are equal.
pub proof fn lemma_next_prime_unique(n: int, p1: int, p2: int)
    requires
        is_next_prime(n, p1),
        is_next_prime(n, p2),
    ensures
        p1 == p2,
{
    if p1 < p2 {
        assert(!prime(p1));
        assert(false);
    }
    if p2 < p1 {
        assert(!prime(p2));
        assert(false);
    }
}

/// Finding the smallest prime at or above a value is idempotent:
/// starting the search again from the prime it found returns that
/// same prime.
pub proof fn lemma_next_prime_idempotent(n: int, p: int, q: int)
    requires
        is_next_prime(n, p),
        is_next_prime(p, q),
    ensures
        q == p,
{
    assert(is_next_prime(p, p));
    lemma_next_prime_unique(p, p, q);
}

} // verus!
