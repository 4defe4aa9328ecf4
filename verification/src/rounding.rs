//! Rounding to a number of significant bits, as binary floating-point
//! arithmetic rounds.

use vstd::prelude::*;

verus! {

/// Two to the 53rd: what a double-precision significand stays below.
pub const DOUBLE: u128 = 9007199254740992;

/// Two to the 24th: what a single-precision significand stays below.
pub const SINGLE: u128 = 16777216;

/// No sum of single-precision numbers that are each below two to the 32nd grows
/// beyond this: two to the 56th.
pub const SINGLE_SUM: u128 = 72057594037927936;

/// The distance between neighbouring numbers around `n` whose significands stay
/// below `limit`.
pub open spec fn spacing(n: int, limit: int) -> int
    decreases n,
{
    if n < limit || n <= 0 {
        1
    } else {
        2 * spacing(n / 2, limit)
    }
}

/// `n / d` to the nearest multiple of `step`; a tie goes to the even multiple.
pub open spec fn nearest(n: int, d: int, step: int) -> int {
    let q = n / (d * step);
    let r = n % (d * step);
    if 2 * r < d * step || (2 * r == d * step && q % 2 == 0) {
        q * step
    } else {
        (q + 1) * step
    }
}

/// `n` rounded to a significand below `limit`.
pub open spec fn rounded(n: int, limit: int) -> int {
    nearest(n, 1, spacing(n, limit))
}

/// A signed number rounded to double precision.
pub open spec fn rounded_signed(n: int) -> int {
    if n >= 0 {
        rounded(n, DOUBLE as int)
    } else {
        -rounded(-n, DOUBLE as int)
    }
}

/// Whether a number is one of double precision.
pub open spec fn is_double(n: int) -> bool {
    rounded_signed(n) == n
}

/// The quotient `n / d` rounded to a significand below `limit`.
pub open spec fn rounded_quotient(n: int, d: int, limit: int) -> int {
    nearest(n, d, spacing(n / d, limit))
}

pub proof fn lemma_spacing(n: int, limit: int)
    requires
        0 <= n,
        2 <= limit,
    ensures
        1 <= spacing(n, limit),
        spacing(n, limit) <= n || spacing(n, limit) == 1,
    decreases n,
{
    if n >= limit {
        lemma_spacing(n / 2, limit);
    }
}

/// Rounding moves a number by at most one step.
pub proof fn lemma_nearest(n: int, d: int, step: int)
    requires
        0 <= n,
        1 <= d,
        1 <= step,
    ensures
        0 <= nearest(n, d, step),
        nearest(n, d, step) <= n / d + step,
{
    let q = n / (d * step);
    let r = n % (d * step);
    assert(1 <= d * step) by (nonlinear_arith)
        requires
            1 <= d,
            1 <= step,
    ;
    vstd::arithmetic::div_mod::lemma_fundamental_div_mod(n, d * step);
    vstd::arithmetic::div_mod::lemma_div_denominator(n, d, step);
    vstd::arithmetic::div_mod::lemma_fundamental_div_mod(n / d, step);
    assert(0 <= q) by (nonlinear_arith)
        requires
            q == n / (d * step),
            0 <= n,
            1 <= d * step,
    ;
    assert(q * step <= n / d && (q + 1) * step <= n / d + step && 0 <= q * step && 0 <= (q + 1)
        * step) by (nonlinear_arith)
        requires
            n / d == step * ((n / d) / step) + (n / d) % step,
            q == (n / d) / step,
            0 <= (n / d) % step,
            1 <= step,
            0 <= q,
    ;
}

fn spacing_of(n: u128, limit: u128) -> (step: u128)
    requires
        2 <= limit,
        n <= 0x3fff_ffff_ffff_ffff_ffff_ffff_ffff_ffff,
    ensures
        step == spacing(n as int, limit as int),
        1 <= step,
        step <= n || step == 1,
{
    let mut rest: u128 = n;
    let mut step: u128 = 1;
    assert(1 * spacing(n as int, limit as int) == spacing(n as int, limit as int));
    assert(rest * 1 <= n);
    while rest >= limit
        invariant
            2 <= limit,
            n <= 0x3fff_ffff_ffff_ffff_ffff_ffff_ffff_ffff,
            1 <= step,
            rest * step <= n,
            step * spacing(rest as int, limit as int) == spacing(n as int, limit as int),
        decreases rest,
    {
        proof {
            let r = rest as int;
            let s = step as int;
            assert((r / 2) * (2 * s) <= r * s) by (nonlinear_arith)
                requires
                    0 <= r,
                    1 <= s,
            ;
            assert(s <= r * s) by (nonlinear_arith)
                requires
                    1 <= r,
                    1 <= s,
            ;
            let inner = spacing(r / 2, limit as int);
            assert((2 * s) * inner == s * (2 * inner)) by (nonlinear_arith);
        }
        rest = rest / 2;
        step = step * 2;
    }
    proof {
        lemma_spacing(n as int, limit as int);
        assert(step * 1 == step);
    }
    step
}

fn nearest_of(n: u128, d: u128, step: u128) -> (result: u128)
    requires
        1 <= d,
        1 <= step,
        n <= 0x3fff_ffff_ffff_ffff_ffff_ffff_ffff_ffff,
        step <= 0x3fff_ffff_ffff_ffff_ffff_ffff_ffff_ffff,
        d * step <= 0x3fff_ffff_ffff_ffff_ffff_ffff_ffff_ffff,
    ensures
        result == nearest(n as int, d as int, step as int),
{
    proof {
        assert(1 <= d * step) by (nonlinear_arith)
            requires
                1 <= d,
                1 <= step,
        ;
        lemma_nearest(n as int, d as int, step as int);
        vstd::arithmetic::div_mod::lemma_div_is_ordered_by_denominator(n as int, 1, d as int);
        vstd::arithmetic::div_mod::lemma_div_basics_2(n as int);
    }
    let whole: u128 = d * step;
    let q: u128 = n / whole;
    let r: u128 = n % whole;
    proof {
        vstd::arithmetic::div_mod::lemma_fundamental_div_mod(n as int, whole as int);
        let (qi, ri, wi, si, di) = (q as int, r as int, whole as int, step as int, d as int);
        assert(qi * si <= n && (qi + 1) * si <= n + si) by (nonlinear_arith)
            requires
                n == wi * qi + ri,
                wi == di * si,
                1 <= di,
                1 <= si,
                0 <= qi,
                0 <= ri,
        ;
    }
    if 2 * r < whole || (2 * r == whole && q % 2 == 0) {
        q * step
    } else {
        (q + 1) * step
    }
}

/// Rounds `n` to a significand below `limit`.
pub(crate) fn round_to(n: u128, limit: u128) -> (result: u128)
    requires
        2 <= limit,
        n <= 0x3fff_ffff_ffff_ffff_ffff_ffff_ffff_ffff,
    ensures
        result == rounded(n as int, limit as int),
        result <= 2 * n + 1,
{
    let step: u128 = spacing_of(n, limit);
    proof {
        lemma_nearest(n as int, 1, step as int);
        assert(1 * step == step);
        vstd::arithmetic::div_mod::lemma_div_basics_3(n as int);
    }
    nearest_of(n, 1, step)
}

/// Rounds the quotient `n / d` to a significand below `limit`.
pub(crate) fn round_quotient(n: u128, d: u128, limit: u128) -> (result: u128)
    requires
        2 <= limit,
        1 <= d <= 0x3fff_ffff_ffff_ffff_ffff_ffff_ffff_ffff,
        n <= 0x3fff_ffff_ffff_ffff_ffff_ffff_ffff_ffff,
    ensures
        result == rounded_quotient(n as int, d as int, limit as int),
        result <= 2 * n + 1,
{
    let whole: u128 = n / d;
    proof {
        vstd::arithmetic::div_mod::lemma_div_is_ordered_by_denominator(n as int, 1, d as int);
        vstd::arithmetic::div_mod::lemma_div_basics_3(n as int);
    }
    let step: u128 = spacing_of(whole, limit);
    proof {
        lemma_nearest(n as int, d as int, step as int);
        let (ni, di, si, wi) = (n as int, d as int, step as int, whole as int);
        vstd::arithmetic::div_mod::lemma_fundamental_div_mod(ni, di);
        assert(di * si <= ni || si == 1) by (nonlinear_arith)
            requires
                ni == di * wi + ni % di,
                0 <= ni % di,
                si <= wi || si == 1,
                1 <= di,
        ;
        assert(di * 1 == di);
    }
    nearest_of(n, d, step)
}

/// A power of two.
pub open spec fn two_to(j: nat) -> int
    decreases j,
{
    if j == 0 {
        1
    } else {
        2 * two_to((j - 1) as nat)
    }
}

proof fn lemma_two_to(j: nat)
    ensures
        1 <= two_to(j),
        two_to(0) == 1,
    decreases j,
{
    if j > 0 {
        lemma_two_to((j - 1) as nat);
    }
}

/// Numbers below a multiple of the limit have a spacing that divides that
/// multiple.
pub proof fn lemma_spacing_divides(n: int, limit: int, j: nat)
    requires
        0 <= n < limit * two_to(j),
        2 <= limit,
    ensures
        1 <= spacing(n, limit),
        two_to(j) % spacing(n, limit) == 0,
    decreases j,
{
    lemma_spacing(n, limit);
    if n >= limit {
        if j == 0 {
            assert(limit * two_to(0) == limit) by (nonlinear_arith)
                requires
                    two_to(0) == 1,
            ;
        } else {
            let i = (j - 1) as nat;
            lemma_two_to(i);
            assert(n / 2 < limit * two_to(i)) by (nonlinear_arith)
                requires
                    n < limit * two_to(j),
                    two_to(j) == 2 * two_to(i),
            ;
            lemma_spacing_divides(n / 2, limit, i);
            let s = spacing(n / 2, limit);
            vstd::arithmetic::div_mod::lemma_truncate_middle(two_to(i), 2, s);
        }
    } else {
        vstd::arithmetic::div_mod::lemma_mod_self_0(1);
        assert(two_to(j) % 1 == 0);
    }
}

/// Numbers above a multiple of the limit have a spacing that twice that multiple
/// divides.
pub proof fn lemma_divides_spacing(n: int, limit: int, j: nat)
    requires
        limit * two_to(j) <= n,
        2 <= limit,
    ensures
        spacing(n, limit) % (2 * two_to(j)) == 0,
    decreases j,
{
    lemma_two_to(j);
    assert(limit <= n) by (nonlinear_arith)
        requires
            limit * two_to(j) <= n,
            1 <= two_to(j),
            0 <= limit,
    ;
    let s = spacing(n / 2, limit);
    lemma_spacing(n / 2, limit);
    if j == 0 {
        lemma_two_to(0);
        assert((2 * s) % 2 == 0);
    } else {
        let i = (j - 1) as nat;
        lemma_two_to(j);
        assert(limit * two_to(i) <= n / 2) by (nonlinear_arith)
            requires
                limit * two_to(j) <= n,
                two_to(j) == 2 * two_to(i),
        ;
        lemma_divides_spacing(n / 2, limit, i);
        lemma_two_to(i);
        vstd::arithmetic::div_mod::lemma_truncate_middle(s, 2, 2 * two_to(i));
    }
}

/// Rounding commutes with doubling.
pub proof fn lemma_rounded_double(n: int, limit: int)
    requires
        0 <= n,
        2 <= limit,
    ensures
        rounded(2 * n, limit) == 2 * rounded(n, limit),
{
    lemma_spacing(n, limit);
    lemma_spacing(2 * n, limit);
    let s = spacing(n, limit);
    if 2 * n >= limit {
        assert((2 * n) / 2 == n);
        assert(spacing(2 * n, limit) == 2 * s);
        vstd::arithmetic::div_mod::lemma_truncate_middle(n, 2, s);
        vstd::arithmetic::div_mod::lemma_fundamental_div_mod(n, s);
        let (q, r) = (n / s, n % s);
        assert((2 * n) / (2 * s) == q) by (nonlinear_arith)
            requires
                n == s * q + r,
                0 <= r < s,
                0 < s,
        ;
        assert((2 * s) * q == 2 * (s * q) && (2 * s) * (q + 1) == 2 * (s * (q + 1)))
            by (nonlinear_arith);
        assert(q * (2 * s) == 2 * (q * s) && (q + 1) * (2 * s) == 2 * ((q + 1) * s))
            by (nonlinear_arith);
        assert(1 * (2 * s) == 2 * s && 1 * s == s);
    } else {
        assert(spacing(2 * n, limit) == 1 && s == 1);
        assert(nearest(n, 1, 1) == n);
        assert(nearest(2 * n, 1, 1) == 2 * n);
    }
}

/// Rounding commutes with multiplying by powers of two.
pub proof fn lemma_rounded_scaled(n: int, limit: int, j: nat)
    requires
        0 <= n,
        2 <= limit,
    ensures
        rounded(two_to(j) * n, limit) == two_to(j) * rounded(n, limit),
    decreases j,
{
    if j == 0 {
        assert(two_to(0) * n == n && two_to(0) * rounded(n, limit) == rounded(n, limit));
    } else {
        let i = (j - 1) as nat;
        lemma_two_to(i);
        lemma_rounded_scaled(n, limit, i);
        assert(0 <= two_to(i) * n) by (nonlinear_arith)
            requires
                0 <= n,
                1 <= two_to(i),
        ;
        lemma_rounded_double(two_to(i) * n, limit);
        let r = rounded(n, limit);
        assert(two_to(j) * n == 2 * (two_to(i) * n) && two_to(j) * r == 2 * (two_to(i) * r))
            by (nonlinear_arith)
            requires
                two_to(j) == 2 * two_to(i),
        ;
    }
}

/// A quotient is rounded to no more than a multiple of the step that it does not
/// exceed, and to no less than one that it reaches.
pub proof fn lemma_nearest_between(n: int, d: int, step: int, bound: int)
    requires
        0 <= n,
        1 <= d,
        1 <= step,
        0 <= bound,
        bound % step == 0,
    ensures
        n <= d * bound ==> nearest(n, d, step) <= bound,
        n >= d * bound ==> nearest(n, d, step) >= bound,
{
    let whole = d * step;
    let k = bound / step;
    vstd::arithmetic::div_mod::lemma_fundamental_div_mod(bound, step);
    assert(1 <= whole) by (nonlinear_arith)
        requires
            whole == d * step,
            1 <= d,
            1 <= step,
    ;
    vstd::arithmetic::div_mod::lemma_fundamental_div_mod(n, whole);
    let (q, r) = (n / whole, n % whole);
    assert(d * bound == whole * k) by (nonlinear_arith)
        requires
            bound == step * k,
            whole == d * step,
    ;
    if n <= d * bound {
        assert(q < k || (q == k && r == 0)) by (nonlinear_arith)
            requires
                n == whole * q + r,
                0 <= r < whole,
                n <= whole * k,
        ;
        assert(q < k ==> (q + 1) * step <= bound) by (nonlinear_arith)
            requires
                bound == step * k,
                1 <= step,
        ;
        assert(q < k ==> q * step <= bound) by (nonlinear_arith)
            requires
                bound == step * k,
                1 <= step,
        ;
        assert(q == k ==> q * step == bound) by (nonlinear_arith)
            requires
                bound == step * k,
        ;
    }
    if n >= d * bound {
        assert(q >= k) by (nonlinear_arith)
            requires
                n == whole * q + r,
                0 <= r < whole,
                n >= whole * k,
        ;
        assert(q * step >= bound && (q + 1) * step >= bound) by (nonlinear_arith)
            requires
                bound == step * k,
                q >= k,
                1 <= step,
        ;
    }
}

/// A rounded number is a multiple of its spacing.
pub proof fn lemma_rounded_multiple(n: int, limit: int)
    requires
        0 <= n,
        2 <= limit,
    ensures
        rounded(n, limit) % spacing(n, limit) == 0,
{
    lemma_spacing(n, limit);
    let s = spacing(n, limit);
    let q = n / (1 * s);
    vstd::arithmetic::div_mod::lemma_mod_multiples_basic(q, s);
    vstd::arithmetic::div_mod::lemma_mod_multiples_basic(q + 1, s);
}

pub(crate) proof fn lemma_spacing_range(n: int, limit: int)
    requires
        0 <= n,
        2 <= limit,
    ensures
        n < limit * spacing(n, limit),
        spacing(n, limit) > 1 ==> limit * spacing(n, limit) <= 2 * n,
    decreases n,
{
    if n >= limit {
        lemma_spacing_range(n / 2, limit);
        lemma_spacing(n / 2, limit);
        let s = spacing(n / 2, limit);
        let p = limit * s;
        assert(limit * (2 * s) == 2 * p) by (nonlinear_arith)
            requires
                p == limit * s,
        ;
        assert(s == 1 ==> p == limit) by (nonlinear_arith)
            requires
                p == limit * s,
        ;
    } else {
        assert(limit * 1 == limit);
    }
}

pub(crate) proof fn lemma_spacing_order(a: int, b: int, limit: int)
    requires
        0 <= a <= b,
        2 <= limit,
    ensures
        spacing(a, limit) == spacing(b, limit) || 2 * spacing(a, limit) <= spacing(b, limit),
    decreases b,
{
    lemma_spacing(b / 2, limit);
    if b >= limit && a >= limit {
        lemma_spacing_order(a / 2, b / 2, limit);
    }
}

/// Rounding keeps the order of numbers.
pub proof fn lemma_rounded_monotone(a: int, b: int, limit: int)
    requires
        0 <= a <= b,
        2 <= limit,
        limit % 2 == 0,
    ensures
        rounded(a, limit) <= rounded(b, limit),
{
    let (s, t) = (spacing(a, limit), spacing(b, limit));
    lemma_spacing(a, limit);
    lemma_spacing(b, limit);
    lemma_spacing_order(a, b, limit);
    assert(1 * s == s && 1 * t == t);
    if s == t {
        let (q, p) = (a / s, b / s);
        vstd::arithmetic::div_mod::lemma_fundamental_div_mod(a, s);
        vstd::arithmetic::div_mod::lemma_fundamental_div_mod(b, s);
        vstd::arithmetic::div_mod::lemma_div_is_ordered(a, b, s);
        if q < p {
            assert((q + 1) * s <= p * s && q * s <= p * s && p * s <= (p + 1) * s)
                by (nonlinear_arith)
                requires
                    q + 1 <= p,
                    1 <= s,
            ;
        } else {
            assert(q * s <= (q + 1) * s) by (nonlinear_arith)
                requires
                    1 <= s,
            ;
        }
    } else {
        lemma_spacing_range(a, limit);
        lemma_spacing_range(b, limit);
        let half = limit / 2;
        vstd::arithmetic::div_mod::lemma_mod_multiples_basic(limit, s);
        vstd::arithmetic::div_mod::lemma_mod_multiples_basic(half, t);
        lemma_nearest_between(a, 1, s, limit * s);
        assert(half * t + half * t == limit * t) by (nonlinear_arith)
            requires
                half + half == limit,
        ;
        lemma_nearest_between(b, 1, t, half * t);
        assert(limit * s <= half * t) by (nonlinear_arith)
            requires
                2 * s <= t,
                half + half == limit,
                0 <= half,
        ;
    }
}

/// Adding in single precision keeps sums in range and never falls below either
/// side rounded.
pub proof fn lemma_single_sum(sum: int, more: int)
    requires
        0 <= sum <= SINGLE_SUM,
        0 <= more <= 0x1_0000_0000,
    ensures
        0 <= rounded(sum + more, SINGLE as int) <= SINGLE_SUM,
        rounded(more, SINGLE as int) <= rounded(sum + more, SINGLE as int),
{
    let limit = SINGLE as int;
    lemma_rounded_monotone(sum + more, SINGLE_SUM + 0x1_0000_0000, limit);
    lemma_rounded_monotone(more, sum + more, limit);
    reveal_with_fuel(spacing, 35);
    assert(spacing(SINGLE_SUM + 0x1_0000_0000, limit) == 0x2_0000_0000);
    lemma_spacing(more, limit);
    lemma_nearest(more, 1, spacing(more, limit));
}

/// What was rounded once stays as it is.
pub proof fn lemma_rounded_again(n: int, limit: int)
    requires
        0 <= n,
        2 <= limit,
        limit % 2 == 0,
    ensures
        rounded(rounded(n, limit), limit) == rounded(n, limit),
{
    let r = rounded(n, limit);
    let s = spacing(n, limit);
    lemma_spacing(n, limit);
    lemma_nearest(n, 1, s);
    let t = spacing(r, limit);
    lemma_spacing(r, limit);
    lemma_rounded_multiple(n, limit);
    lemma_spacing_range(n, limit);
    lemma_spacing_range(r, limit);
    let half = limit / 2;
    vstd::arithmetic::div_mod::lemma_mod_multiples_basic(limit, s);
    vstd::arithmetic::div_mod::lemma_mod_multiples_basic(half, s);
    lemma_nearest_between(n, 1, s, limit * s);
    assert(half * s + half * s == limit * s) by (nonlinear_arith)
        requires
            half + half == limit,
    ;
    assert(0 <= half * s) by (nonlinear_arith)
        requires
            0 <= half,
            1 <= s,
    ;
    lemma_nearest_between(n, 1, s, half * s);
    assert(2 * s <= t ==> limit * (2 * s) <= limit * t) by (nonlinear_arith)
        requires
            0 <= limit,
    ;
    assert(limit * (2 * s) == 2 * (limit * s)) by (nonlinear_arith);
    if r <= n {
        lemma_spacing_order(r, n, limit);
        assert(2 * t <= s ==> limit * t <= half * s) by (nonlinear_arith)
            requires
                half + half == limit,
                0 <= half,
        ;
    } else {
        lemma_spacing_order(n, r, limit);
    }
    if t != s {
        assert(r == limit * s);
        assert(t <= 2 * s) by (nonlinear_arith)
            requires
                limit * t <= 2 * r,
                r == limit * s,
                0 < limit,
        ;
        assert(r == half * t) by (nonlinear_arith)
            requires
                r == limit * s,
                t == 2 * s,
                half + half == limit,
        ;
        vstd::arithmetic::div_mod::lemma_mod_multiples_basic(half, t);
    }
    vstd::arithmetic::div_mod::lemma_fundamental_div_mod(r, t);
    assert(1 * t == t);
    assert((r / t) * t == t * (r / t)) by (nonlinear_arith);
}

/// Rounds a signed number to double precision.
pub(crate) fn round_signed(n: i128) -> (result: i128)
    requires
        -0x3fff_ffff_ffff_ffff_ffff_ffff_ffff_ffff <= n
            <= 0x3fff_ffff_ffff_ffff_ffff_ffff_ffff_ffff,
    ensures
        result == rounded_signed(n as int),
{
    if n >= 0 {
        round_to(n as u128, DOUBLE) as i128
    } else {
        -(round_to((-n) as u128, DOUBLE) as i128)
    }
}

/// Few significant bits need no rounding.
pub proof fn lemma_exact(k: int, j: nat)
    requires
        0 <= k < DOUBLE,
    ensures
        rounded(two_to(j) * k, DOUBLE as int) == two_to(j) * k,
{
    lemma_rounded_scaled(k, DOUBLE as int, j);
    assert(spacing(k, DOUBLE as int) == 1);
    assert(nearest(k, 1, 1) == k);
}

/// Rounding keeps the order of signed numbers.
pub proof fn lemma_signed_monotone(a: int, b: int)
    requires
        a <= b,
    ensures
        rounded_signed(a) <= rounded_signed(b),
{
    let d = DOUBLE as int;
    assert(spacing(0, d) == 1);
    assert(rounded(0, d) == 0);
    if a >= 0 {
        lemma_rounded_monotone(a, b, d);
    } else if b < 0 {
        lemma_rounded_monotone(-b, -a, d);
    } else {
        lemma_rounded_monotone(0, b, d);
        lemma_rounded_monotone(0, -a, d);
    }
}

/// Rounding stays within bounds that need no rounding.
pub proof fn lemma_signed_within(n: int, bound: int)
    requires
        -bound <= n <= bound,
        rounded(bound, DOUBLE as int) == bound,
    ensures
        -bound <= rounded_signed(n) <= bound,
{
    lemma_signed_monotone(n, bound);
    lemma_signed_monotone(-bound, n);
    assert(spacing(0, DOUBLE as int) == 1);
}

/// Powers of two multiply.
pub proof fn lemma_two_to_sum(a: nat, b: nat)
    ensures
        two_to(a + b) == two_to(a) * two_to(b),
    decreases b,
{
    if b == 0 {
        assert(two_to(a) * two_to(0) == two_to(a)) by (nonlinear_arith)
            requires
                two_to(0) == 1,
        ;
    } else {
        let c = (b - 1) as nat;
        lemma_two_to_sum(a, c);
        assert((a + b - 1) as nat == a + c);
        assert(two_to(a) * (2 * two_to(c)) == 2 * (two_to(a) * two_to(c))) by (nonlinear_arith);
    }
}

/// Some powers of two.
pub proof fn lemma_powers()
    ensures
        two_to(54) == 18014398509481984,
        two_to(72) == 4722366482869645213696,
        two_to(73) == 9444732965739290427392,
        two_to(107) == 162259276829213363391578010288128,
        two_to(125) == 42535295865117307932921825928971026432,
{
    reveal_with_fuel(two_to, 19);
    assert(two_to(18) == 262144);
    lemma_two_to_sum(18, 18);
    assert(two_to(36) == 68719476736) by (nonlinear_arith)
        requires
            two_to(36) == two_to(18) * two_to(18),
            two_to(18) == 262144,
    ;
    lemma_two_to_sum(36, 18);
    assert(two_to(54) == 18014398509481984) by (nonlinear_arith)
        requires
            two_to(54) == two_to(36) * two_to(18),
            two_to(36) == 68719476736,
            two_to(18) == 262144,
    ;
    lemma_two_to_sum(54, 18);
    assert(two_to(72) == 4722366482869645213696) by (nonlinear_arith)
        requires
            two_to(72) == two_to(54) * two_to(18),
            two_to(54) == 18014398509481984,
            two_to(18) == 262144,
    ;
    lemma_two_to_sum(72, 36);
    assert(two_to(108) == 324518553658426726783156020576256) by (nonlinear_arith)
        requires
            two_to(108) == two_to(72) * two_to(36),
            two_to(72) == 4722366482869645213696,
            two_to(36) == 68719476736,
    ;
    lemma_two_to_sum(108, 18);
    assert(two_to(126) == 85070591730234615865843651857942052864) by (nonlinear_arith)
        requires
            two_to(126) == two_to(108) * two_to(18),
            two_to(108) == 324518553658426726783156020576256,
            two_to(18) == 262144,
    ;
}

/// Numbers that divide each other are equal.
pub proof fn lemma_divide_each_other(a: int, b: int)
    requires
        1 <= a,
        1 <= b,
        a % b == 0,
        b % a == 0,
    ensures
        a == b,
{
    vstd::arithmetic::div_mod::lemma_fundamental_div_mod(a, b);
    vstd::arithmetic::div_mod::lemma_fundamental_div_mod(b, a);
    let (k, m) = (a / b, b / a);
    assert(k >= 1 && m >= 1) by (nonlinear_arith)
        requires
            a == b * k,
            b == a * m,
            1 <= a,
            1 <= b,
    ;
    assert(a >= b) by (nonlinear_arith)
        requires
            a == b * k,
            k >= 1,
            1 <= b,
    ;
    assert(b >= a) by (nonlinear_arith)
        requires
            b == a * m,
            m >= 1,
            1 <= a,
    ;
}

/// What was rounded is a number of double precision.
pub proof fn lemma_signed_again(n: int)
    ensures
        is_double(rounded_signed(n)),
        is_double(0),
{
    let d = DOUBLE as int;
    assert(spacing(0, d) == 1);
    assert(rounded(0, d) == 0);
    if n >= 0 {
        lemma_rounded_monotone(0, n, d);
        lemma_rounded_again(n, d);
    } else {
        lemma_rounded_monotone(0, -n, d);
        lemma_rounded_again(-n, d);
    }
}

} // verus!
