//! What rounding to a number of significant bits does.

use vstd::prelude::*;

use crate::preflight_laws::apart;
use crate::rounding::{
    lemma_nearest_between, lemma_spacing, lemma_spacing_order, lemma_spacing_range, nearest,
    rounded, rounded_quotient, rounded_signed, spacing, two_to, DOUBLE,
};

verus! {

/// The spacing of numbers is a power of two: the smallest at which so many
/// significant bits suffice.
pub proof fn spacings_are_powers_of_two(n: int, limit: int)
    requires
        0 <= n,
        2 <= limit,
    ensures
        exists|j: nat| spacing(n, limit) == #[trigger] two_to(j),
        n < limit * spacing(n, limit),
        spacing(n, limit) > 1 ==> limit * spacing(n, limit) <= 2 * n,
    decreases n,
{
    lemma_spacing_range(n, limit);
    if n >= limit {
        spacings_are_powers_of_two(n / 2, limit);
        let j = choose|j: nat| spacing(n / 2, limit) == #[trigger] two_to(j);
        assert(two_to((j + 1) as nat) == 2 * two_to(j));
    } else {
        assert(two_to(0) == 1);
    }
}

proof fn lemma_nearest_is_nearest(n: int, d: int, step: int)
    requires
        0 <= n,
        1 <= d,
        1 <= step,
    ensures
        nearest(n, d, step) % step == 0,
        2 * apart(nearest(n, d, step) * d, n) <= d * step,
        2 * apart(nearest(n, d, step) * d, n) == d * step ==> (nearest(n, d, step) / step) % 2 == 0,
{
    let whole = d * step;
    assert(1 <= whole) by (nonlinear_arith)
        requires
            whole == d * step,
            1 <= d,
            1 <= step,
    ;
    vstd::arithmetic::div_mod::lemma_fundamental_div_mod(n, whole);
    vstd::arithmetic::div_mod::lemma_mod_bound(n, whole);
    let q = n / whole;
    let r = n % whole;
    assert((q * step) * d == whole * q && ((q + 1) * step) * d == whole * q + whole)
        by (nonlinear_arith)
        requires
            whole == d * step,
    ;
    vstd::arithmetic::div_mod::lemma_mod_multiples_basic(q, step);
    vstd::arithmetic::div_mod::lemma_mod_multiples_basic(q + 1, step);
    vstd::arithmetic::div_mod::lemma_div_by_multiple(q, step);
    vstd::arithmetic::div_mod::lemma_div_by_multiple(q + 1, step);
}

/// A rounded number is the nearest one with so many significant bits, and of two
/// equally near ones that with an even significand.
pub proof fn rounding_is_to_nearest(n: int, limit: int)
    requires
        0 <= n,
        2 <= limit,
    ensures
        rounded(n, limit) % spacing(n, limit) == 0,
        2 * apart(rounded(n, limit), n) <= spacing(n, limit),
        2 * apart(rounded(n, limit), n) == spacing(n, limit) ==> (rounded(n, limit) / spacing(
            n,
            limit,
        )) % 2 == 0,
{
    lemma_spacing(n, limit);
    let s = spacing(n, limit);
    lemma_nearest_is_nearest(n, 1, s);
    assert(1 * s == s && rounded(n, limit) * 1 == rounded(n, limit));
}

/// So is a rounded quotient.
pub proof fn quotients_round_to_nearest(n: int, d: int, limit: int)
    requires
        0 <= n,
        1 <= d,
        2 <= limit,
    ensures
        rounded_quotient(n, d, limit) % spacing(n / d, limit) == 0,
        2 * apart(rounded_quotient(n, d, limit) * d, n) <= d * spacing(n / d, limit),
        2 * apart(rounded_quotient(n, d, limit) * d, n) == d * spacing(n / d, limit) ==> (
        rounded_quotient(n, d, limit) / spacing(n / d, limit)) % 2 == 0,
{
    assert(0 <= n / d) by (nonlinear_arith)
        requires
            0 <= n,
            1 <= d,
    ;
    lemma_spacing(n / d, limit);
    lemma_nearest_is_nearest(n, d, spacing(n / d, limit));
}

/// Rounding a number and its negative gives opposite numbers.
pub proof fn rounding_is_symmetric(n: int)
    ensures
        rounded_signed(-n) == -rounded_signed(n),
        n >= 0 ==> rounded_signed(n) == rounded(n, DOUBLE as int),
{
    if n == 0 {
        assert(spacing(0, DOUBLE as int) == 1);
    }
}

/// A larger quotient is not rounded to a smaller number.
pub proof fn rounded_quotients_keep_order(a: int, b: int, d: int, limit: int)
    requires
        0 <= a <= b,
        1 <= d,
        2 <= limit,
        limit % 2 == 0,
    ensures
        rounded_quotient(a, d, limit) <= rounded_quotient(b, d, limit),
{
    vstd::arithmetic::div_mod::lemma_div_is_ordered(a, b, d);
    assert(0 <= a / d) by (nonlinear_arith)
        requires
            0 <= a,
            1 <= d,
    ;
    let (x, y) = (a / d, b / d);
    let (s, t) = (spacing(x, limit), spacing(y, limit));
    lemma_spacing(x, limit);
    lemma_spacing(y, limit);
    lemma_spacing_order(x, y, limit);
    if s == t {
        let whole = d * s;
        assert(1 <= whole) by (nonlinear_arith)
            requires
                whole == d * s,
                1 <= d,
                1 <= s,
        ;
        let (q, p) = (a / whole, b / whole);
        vstd::arithmetic::div_mod::lemma_fundamental_div_mod(a, whole);
        vstd::arithmetic::div_mod::lemma_fundamental_div_mod(b, whole);
        vstd::arithmetic::div_mod::lemma_div_is_ordered(a, b, whole);
        if q < p {
            assert((q + 1) * s <= p * s && q * s <= p * s && p * s <= (p + 1) * s)
                by (nonlinear_arith)
                requires
                    q + 1 <= p,
                    1 <= s,
            ;
        } else {
            assert(q * s <= (q + 1) * s) by (nonlinear_arith)
                requires
                    1 <= s,
            ;
        }
    } else {
        lemma_spacing_range(x, limit);
        lemma_spacing_range(y, limit);
        vstd::arithmetic::div_mod::lemma_fundamental_div_mod(a, d);
        vstd::arithmetic::div_mod::lemma_mod_bound(a, d);
        vstd::arithmetic::div_mod::lemma_fundamental_div_mod(b, d);
        vstd::arithmetic::div_mod::lemma_mod_bound(b, d);
        let half = limit / 2;
        vstd::arithmetic::div_mod::lemma_mod_multiples_basic(limit, s);
        vstd::arithmetic::div_mod::lemma_mod_multiples_basic(half, t);
        assert(half * t + half * t == limit * t) by (nonlinear_arith)
            requires
                half + half == limit,
        ;
        assert(a <= d * (limit * s)) by (nonlinear_arith)
            requires
                a == d * x + a % d,
                a % d < d,
                x + 1 <= limit * s,
                1 <= d,
        ;
        assert(b >= d * (half * t)) by (nonlinear_arith)
            requires
                b == d * y + b % d,
                0 <= b % d,
                y >= half * t,
                1 <= d,
        ;
        assert(0 <= limit * s && 0 <= half * t) by (nonlinear_arith)
            requires
                1 <= s,
                1 <= t,
                0 <= half,
                0 <= limit,
        ;
        lemma_nearest_between(a, d, s, limit * s);
        lemma_nearest_between(b, d, t, half * t);
        assert(limit * s <= half * t) by (nonlinear_arith)
            requires
                2 * s <= t,
                half + half == limit,
                0 <= half,
        ;
    }
}

} // verus!
