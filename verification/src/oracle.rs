//! The primality oracle: a pure decision, wire number in, boolean out.

use vstd::arithmetic::div_mod::{
    lemma_fundamental_div_mod, lemma_mod_division_less_than_divisor, lemma_mod_multiples_basic,
};
use vstd::prelude::*;

verus! {

/// A number as it arrives on the wire, reduced to what the oracle reads of
/// it. `Integer(n)` means the wire value is exactly the integer `n`, within
/// the range a wire double represents exactly; `NonIntegral` covers a
/// fractional value, and a magnitude past that exactly-representable range,
/// which the protocol treats the same way (never prime).
#[derive(Clone, Copy, PartialEq, Eq, Structural, Debug)]
pub enum WireNumber {
    Integer(i64),
    NonIntegral,
}

/// A number is prime when it is a natural number of at least 2 with no
/// divisor strictly between 1 and itself.
pub open spec fn is_prime_spec(n: int) -> bool {
    2 <= n && forall|d: int| 2 <= d < n ==> #[trigger] (n % d) != 0
}

/// Primality of a wire number: only an exactly-integral value can be prime.
pub open spec fn wire_prime(w: WireNumber) -> bool {
    match w {
        WireNumber::Integer(n) => is_prime_spec(n as int),
        WireNumber::NonIntegral => false,
    }
}

/// No integer at most 1 is prime: negatives, zero and one are all rejected.
pub proof fn lemma_not_prime_le_one(n: int)
    requires
        n <= 1,
    ensures
        !is_prime_spec(n),
{
}

/// 2 is prime, and every other even integer is not.
pub proof fn lemma_even_prime_only_two(n: int)
    requires
        n % 2 == 0,
    ensures
        is_prime_spec(n) <==> n == 2,
{
    if n != 2 && is_prime_spec(n) {
        assert(2 <= 2 < n && n % 2 == 0);
    }
}

/// A non-integral wire number is never prime, whatever else it was.
pub proof fn lemma_non_integral_never_prime(w: WireNumber)
    requires
        w is NonIntegral,
    ensures
        !wire_prime(w),
{
}

/// An odd number has no even divisor.
proof fn lemma_even_divisor_of_odd(n: int, e: int)
    requires
        n % 2 == 1,
        2 <= e,
        e % 2 == 0,
    ensures
        n % e != 0,
{
    if n % e == 0 {
        lemma_fundamental_div_mod(n, e);
        let q = n / e;
        assert(n == e * q);
        lemma_fundamental_div_mod(e, 2);
        let h = e / 2;
        assert(e == 2 * h);
        assert(n == (h * q) * 2) by (nonlinear_arith)
            requires
                n == e * q,
                e == 2 * h,
        ;
        lemma_mod_multiples_basic(h * q, 2);
        assert(false);
    }
}

/// A number with a proper divisor has one no larger than its square root:
/// of a divisor and its cofactor, the smaller squares to at most the number.
proof fn lemma_composite_has_small_factor(n: int, k: int)
    requires
        2 <= k,
        k < n,
        n % k == 0,
    ensures
        exists|j: int| 2 <= j && #[trigger] (j * j) <= n && n % j == 0,
{
    lemma_fundamental_div_mod(n, k);
    let m = n / k;
    assert(n == k * m);
    assert(2 <= m) by (nonlinear_arith)
        requires
            n == k * m,
            2 <= k,
            k < n,
    ;
    lemma_mod_multiples_basic(k, m);
    assert(n % m == 0);
    if k * k <= n {
        assert(2 <= k && k * k <= n && n % k == 0);
    } else {
        assert(m * m <= n) by (nonlinear_arith)
            requires
                n == k * m,
                n < k * k,
                2 <= k,
                2 <= m,
        ;
        assert(2 <= m && m * m <= n && n % m == 0);
    }
}

/// Trial division: handle everything at most 1, then 2, then the even
/// numbers, then divide by successive odd candidates up to the square root.
pub fn is_prime_i64(number: i64) -> (r: bool)
    ensures
        r == is_prime_spec(number as int),
{
    if number <= 1 {
        return false;
    }
    if number == 2 {
        return true;
    }
    if number % 2 == 0 {
        proof {
            assert(2 < number as int && (number as int) % 2 == 0);
        }
        return false;
    }
    let mut d: i64 = 3;
    while d <= number / d
        invariant
            3 <= d,
            d % 2 == 1,
            3 <= number,
            number % 2 == 1,
            forall|k: int| 2 <= k < d ==> #[trigger] ((number as int) % k) != 0,
        decreases number - d,
    {
        proof {
            lemma_fundamental_div_mod(number as int, d as int);
            lemma_mod_division_less_than_divisor(number as int, d as int);
            let q = number as int / d as int;
            assert(d as int * d as int <= number as int) by (nonlinear_arith)
                requires
                    number as int == d as int * q + (number as int) % (d as int),
                    0 <= (number as int) % (d as int),
                    d as int <= q,
                    3 <= d as int,
            ;
            assert(3 * d as int <= number as int) by (nonlinear_arith)
                requires
                    d as int * d as int <= number as int,
                    3 <= d as int,
            ;
        }
        if number % d == 0 {
            proof {
                assert(2 <= d as int && (d as int) < number as int && (number as int) % (d as int)
                    == 0);
            }
            return false;
        }
        proof {
            lemma_even_divisor_of_odd(number as int, d as int + 1);
        }
        d = d + 2;
    }
    proof {
        lemma_fundamental_div_mod(number as int, d as int);
        lemma_mod_division_less_than_divisor(number as int, d as int);
        let q = number as int / d as int;
        assert((number as int) < d as int * d as int) by (nonlinear_arith)
            requires
                number as int == d as int * q + (number as int) % (d as int),
                (number as int) % (d as int) < d as int,
                q <= d as int - 1,
                3 <= d as int,
        ;
        assert forall|k: int| 2 <= k < number as int implies #[trigger] ((number as int) % k)
            != 0 by {
            if (number as int) % k == 0 {
                lemma_composite_has_small_factor(number as int, k);
                let j = choose|j: int|
                    2 <= j && #[trigger] (j * j) <= number as int && (number as int) % j == 0;
                assert(j < d as int) by (nonlinear_arith)
                    requires
                        j * j <= number as int,
                        (number as int) < d as int * d as int,
                        2 <= j,
                        3 <= d as int,
                ;
                assert(false);
            }
        }
    }
    true
}

/// The oracle of the protocol: primality of the number a request carried.
pub fn is_prime(number: WireNumber) -> (r: bool)
    ensures
        r == wire_prime(number),
{
    match number {
        WireNumber::Integer(n) => is_prime_i64(n),
        WireNumber::NonIntegral => false,
    }
}

} // verus!
