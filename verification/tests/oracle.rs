use prime_time::oracle::{is_prime, is_prime_i64, WireNumber};

#[test]
fn integers_at_most_one_are_not_prime() {
    assert_eq!(is_prime_i64(-5), false);
    assert_eq!(is_prime_i64(0), false);
    assert_eq!(is_prime_i64(1), false);
    assert_eq!(is_prime_i64(i64::MIN), false);
}

#[test]
fn two_is_the_only_even_prime() {
    assert_eq!(is_prime_i64(2), true);
    assert_eq!(is_prime_i64(4), false);
    assert_eq!(is_prime_i64(100), false);
    assert_eq!(is_prime_i64(1_000_000_006), false);
}

#[test]
fn known_primes_are_accepted() {
    assert_eq!(is_prime_i64(3), true);
    assert_eq!(is_prime_i64(17), true);
    assert_eq!(is_prime_i64(97), true);
    assert_eq!(is_prime_i64(104_729), true);
    assert_eq!(is_prime_i64(1_000_000_007), true);
}

#[test]
fn known_composites_are_rejected() {
    assert_eq!(is_prime_i64(9), false);
    assert_eq!(is_prime_i64(21), false);
    assert_eq!(is_prime_i64(100), false);
    assert_eq!(is_prime_i64(104_731), false);
    assert_eq!(is_prime_i64(1_000_000_005), false);
}

#[test]
fn squares_of_primes_are_rejected() {
    // The divisor search must include the square root itself.
    assert_eq!(is_prime_i64(25), false);
    assert_eq!(is_prime_i64(49), false);
    assert_eq!(is_prime_i64(10_201), false); // 101 * 101
}

#[test]
fn non_integral_numbers_are_never_prime() {
    assert_eq!(is_prime(WireNumber::NonIntegral), false);

    // The same classification the serving loop applies to wire doubles.
    for raw in [4.5f64, 7.0001f64] {
        let number = if raw.fract() == 0.0
            && raw >= -9_007_199_254_740_992.0
            && raw <= 9_007_199_254_740_992.0
        {
            WireNumber::Integer(raw as i64)
        } else {
            WireNumber::NonIntegral
        };
        assert_eq!(number, WireNumber::NonIntegral);
        assert_eq!(is_prime(number), false);
    }
}

#[test]
fn integral_doubles_keep_their_primality() {
    // 7.0 is exactly the integer 7, so it is prime.
    let raw = 7.0f64;
    let number = if raw.fract() == 0.0
        && raw >= -9_007_199_254_740_992.0
        && raw <= 9_007_199_254_740_992.0
    {
        WireNumber::Integer(raw as i64)
    } else {
        WireNumber::NonIntegral
    };
    assert_eq!(number, WireNumber::Integer(7));
    assert_eq!(is_prime(number), true);
}

#[test]
fn magnitudes_past_exact_double_range_are_not_prime() {
    // 2^60 survives fract() == 0.0 but lies past the exactly-representable
    // range, so the classification treats it as non-integral.
    let raw = 1152921504606846976.0f64;
    let number = if raw.fract() == 0.0
        && raw >= -9_007_199_254_740_992.0
        && raw <= 9_007_199_254_740_992.0
    {
        WireNumber::Integer(raw as i64)
    } else {
        WireNumber::NonIntegral
    };
    assert_eq!(number, WireNumber::NonIntegral);
    assert_eq!(is_prime(number), false);
}
