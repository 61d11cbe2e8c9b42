//! Fractions of a size, computed as IEEE 754 double precision computes them.
//!
//! A double holds 53 significant bits. Converting an integer to a double, and
//! multiplying two doubles, rounds to the nearest number of that form, ties to
//! the even one. Both steps are carried out here on integers, so that the
//! fractions are the same on every machine.

use vstd::arithmetic::power2::{
    lemma2_to64, lemma_pow2_adds, lemma_pow2_pos, lemma_pow2_unfold, pow2,
};
use vstd::prelude::*;

verus! {

/// The first integer that needs more than 53 bits.
pub const PRECISION: u128 = 0x20_0000_0000_0000;

/// The significand of the double nearest to one tenth.
pub const TENTH: u128 = 0x19_9999_9999_999A;

/// The double nearest to one tenth is [`TENTH`] divided by this power of two.
pub const TENTH_SCALE: u128 = 0x100_0000_0000_0000;

/// The distance between neighbouring doubles at the magnitude of `n`.
pub open spec fn spacing(n: nat) -> nat
    decreases n,
{
    if n < PRECISION {
        1
    } else {
        2 * spacing(n / 2)
    }
}

/// The double nearest to `n`, ties to even.
pub open spec fn nearest_double(n: nat) -> nat {
    let unit = spacing(n);
    let whole = n / unit;
    let rest = n % unit;
    if 2 * rest > unit || (2 * rest == unit && whole % 2 == 1) {
        (whole + 1) * unit
    } else {
        whole * unit
    }
}

/// `n / d`, rounded up.
pub open spec fn ceil_div(n: nat, d: nat) -> nat
    recommends
        d > 0,
{
    (n + d - 1) as nat / d
}

/// One tenth of `n` as a product of doubles, rounded up to an integer.
pub open spec fn tenth_rounded_up(n: nat) -> nat {
    ceil_div(nearest_double(nearest_double(n) * TENTH as nat), TENTH_SCALE as nat)
}

/// One quarter of `n` as a product of doubles, rounded up to an integer.
pub open spec fn quarter_rounded_up(n: nat) -> nat {
    ceil_div(nearest_double(n), 4)
}

/// `n` lies between the doubles of one magnitude.
proof fn lemma_spacing(n: nat)
    ensures
        spacing(n) >= 1,
        n < PRECISION * spacing(n),
        spacing(n) == 1 || 2 * n >= PRECISION * spacing(n),
    decreases n,
{
    if n >= PRECISION {
        lemma_spacing(n / 2);
    }
}

/// The spacing is a power of two.
proof fn lemma_spacing_divides(n: nat, k: nat)
    requires
        n < PRECISION * pow2(k),
    ensures
        pow2(k) % spacing(n) == 0,
    decreases k,
{
    lemma_spacing(n);
    lemma_pow2_pos(k);
    if n >= PRECISION {
        if k == 0 {
            lemma2_to64();
        } else {
            let half = (k - 1) as nat;
            lemma_pow2_unfold(k);
            lemma_spacing_divides(n / 2, half);
            lemma_spacing(n / 2);
            let u = spacing(n / 2);
            let q = pow2(half) / u;
            assert(pow2(half) == q * u) by {
                vstd::arithmetic::div_mod::lemma_fundamental_div_mod(pow2(half) as int, u as int);
                vstd::arithmetic::mul::lemma_mul_is_commutative(q as int, u as int);
            }
            assert(pow2(k) == q * (2 * u)) by (nonlinear_arith)
                requires
                    pow2(k) == 2 * pow2(half),
                    pow2(half) == q * u,
            ;
            vstd::arithmetic::div_mod::lemma_mod_multiples_basic(q as int, (2 * u) as int);
        }
    } else {
        assert(pow2(k) % 1 == 0);
    }
}

/// Rounding moves a number by at most half the spacing, and lands on a multiple of it.
proof fn lemma_nearest_double(n: nat)
    ensures
        nearest_double(n) % spacing(n) == 0,
        2 * nearest_double(n) <= 2 * n + spacing(n),
        2 * n <= 2 * nearest_double(n) + spacing(n),
        nearest_double(n) <= 2 * n,
        n <= PRECISION ==> nearest_double(n) == n,
{
    lemma_spacing(n);
    let u = spacing(n);
    let q = n / u;
    let r = n % u;
    vstd::arithmetic::div_mod::lemma_fundamental_div_mod(n as int, u as int);
    vstd::arithmetic::mul::lemma_mul_is_commutative(q as int, u as int);
    assert(n == q * u + r);
    assert((q + 1) * u == q * u + u) by (nonlinear_arith);
    vstd::arithmetic::div_mod::lemma_mod_multiples_basic(q as int, u as int);
    vstd::arithmetic::div_mod::lemma_mod_multiples_basic((q + 1) as int, u as int);
    if n >= PRECISION {
        assert(spacing(n) == 2 * spacing(n / 2));
        lemma_spacing(n / 2);
        assert(u <= n);
        if n == PRECISION {
            assert(spacing(n / 2) == 1);
            assert(u == 2);
            assert(q * 2 == n);
        }
    } else {
        assert(u == 1);
        assert(r == 0);
        assert(q == n);
    }
}

/// Rounds to the nearest double, ties to even.
pub fn to_nearest_double(n: u128) -> (rounded: u128)
    requires
        n <= 0x4000_0000_0000_0000_0000_0000_0000_0000,
    ensures
        rounded == nearest_double(n as nat),
{
    let mut m: u128 = n;
    let mut unit: u128 = 1;
    while m >= PRECISION
        invariant
            unit * spacing(m as nat) == spacing(n as nat),
            1 <= unit <= n || unit == 1,
            m * unit <= n,
            n <= 0x4000_0000_0000_0000_0000_0000_0000_0000,
        decreases m,
    {
        assert(spacing(m as nat) == 2 * spacing((m / 2) as nat));
        assert((2 * unit) * spacing((m / 2) as nat) == unit * (2 * spacing((m / 2) as nat)))
            by (nonlinear_arith);
        assert((m / 2) * (2 * unit) <= m * unit) by (nonlinear_arith)
            requires
                2 * (m / 2) <= m,
        ;
        assert(2 * unit <= m * unit) by (nonlinear_arith)
            requires
                m >= 2,
        ;
        m = m / 2;
        unit = unit * 2;
    }
    proof {
        lemma_spacing(n as nat);
        lemma_nearest_double(n as nat);
        assert(spacing(m as nat) == 1);
        assert(unit * spacing(m as nat) == unit) by (nonlinear_arith)
            requires
                spacing(m as nat) == 1,
        ;
        assert((n / unit + 1) * unit <= n + unit) by (nonlinear_arith)
            requires
                unit >= 1,
        ;
        assert((n / unit) * unit <= n) by (nonlinear_arith)
            requires
                unit >= 1,
        ;
    }
    let whole: u128 = n / unit;
    let rest: u128 = n % unit;
    if rest > unit - rest || (rest == unit - rest && whole % 2 == 1) {
        (whole + 1) * unit
    } else {
        whole * unit
    }
}

/// One tenth of `n`, rounded up.
pub fn tenth_up(n: u64) -> (tenth: u64)
    ensures
        tenth == tenth_rounded_up(n as nat),
{
    proof {
        lemma_nearest_double(n as nat);
    }
    let m: u128 = to_nearest_double(n as u128);
    assert(m * TENTH <= 0x2_0000_0000_0000_0000 * 0x20_0000_0000_0000) by (nonlinear_arith)
        requires
            m <= 0x2_0000_0000_0000_0000,
            TENTH <= 0x20_0000_0000_0000,
    ;
    let product: u128 = m * TENTH;
    proof {
        lemma_nearest_double(product as nat);
    }
    let rounded: u128 = to_nearest_double(product);
    ((rounded + (TENTH_SCALE - 1)) / TENTH_SCALE) as u64
}

/// One quarter of `n`, rounded up.
pub fn quarter_up(n: u64) -> (quarter: u64)
    ensures
        quarter == quarter_rounded_up(n as nat),
{
    proof {
        lemma_nearest_double(n as nat);
    }
    let m: u128 = to_nearest_double(n as u128);
    ((m + 3) / 4) as u64
}

/// A multiple of `d` and a remainder below `d` determine the division.
proof fn lemma_ceil_div_is(n: nat, d: nat, c: nat)
    requires
        d > 0,
        c == 0 ==> n == 0,
        c > 0 ==> (c - 1) * d < n,
        n <= c * d,
    ensures
        ceil_div(n, d) == c,
{
    if c > 0 {
        assert((c - 1) * d == c * d - d) by (nonlinear_arith);
        let rest: int = n + d - 1 - c * d;
        assert(n + d - 1 == c * d + rest);
        vstd::arithmetic::div_mod::lemma_fundamental_div_mod_converse(
            n + d - 1,
            d as int,
            c as int,
            rest,
        );
    } else {
        vstd::arithmetic::div_mod::lemma_fundamental_div_mod_converse(d - 1, d as int, 0, d - 1);
    }
}

/// A size that a double holds exactly costs one unit per ten, begun units included.
pub proof fn law_tenth_of_exact_sizes(n: nat)
    requires
        n <= PRECISION,
    ensures
        tenth_rounded_up(n) == ceil_div(n, 10),
{
    let scale = TENTH_SCALE as nat;
    lemma_nearest_double(n);
    assert(nearest_double(n) == n);
    let k = n / 10;
    let r = n % 10;
    let p = n * TENTH as nat;
    let u = spacing(p);
    let d = nearest_double(p);
    assert(p == k * scale + 4 * k + r * TENTH) by (nonlinear_arith)
        requires
            p == n * TENTH as nat,
            n == 10 * k + r,
            10 * TENTH == scale + 4,
    ;
    lemma_spacing(p);
    lemma_nearest_double(p);
    assert(pow2(53) == 0x20_0000_0000_0000) by {
        lemma2_to64();
        lemma_pow2_adds(26, 27);
        assert(pow2(26) == 0x400_0000 && pow2(27) == 0x800_0000);
    }
    assert(p < PRECISION * pow2(53)) by {
        assert(p <= 0x20_0000_0000_0000 * TENTH) by (nonlinear_arith)
            requires
                p == n * TENTH as nat,
                n <= 0x20_0000_0000_0000,
        ;
    }
    lemma_spacing_divides(p, 53);
    // The spacing divides the scale.
    let m = pow2(53) / u;
    vstd::arithmetic::div_mod::lemma_fundamental_div_mod(pow2(53) as int, u as int);
    assert(u <= pow2(53)) by {
        vstd::arithmetic::div_mod::lemma_mod_division_less_than_divisor(pow2(53) as int, u as int);
        if u > pow2(53) {
            vstd::arithmetic::div_mod::lemma_small_mod(pow2(53), u);
        }
    }
    let s = 8 * m;
    assert(scale == s * u) by (nonlinear_arith)
        requires
            scale == 8 * 0x20_0000_0000_0000,
            0x20_0000_0000_0000 == u * m,
            s == 8 * m,
    ;
    // `d` is a multiple of the spacing, and so are the multiples of the scale.
    let e = d / u;
    vstd::arithmetic::div_mod::lemma_fundamental_div_mod(d as int, u as int);
    assert(d == e * u) by (nonlinear_arith)
        requires
            d == u * e + 0,
    ;
    assert(k * scale == (k * s) * u) by (nonlinear_arith)
        requires
            scale == s * u,
    ;
    assert((k + 1) * scale == ((k + 1) * s) * u) by (nonlinear_arith)
        requires
            scale == s * u,
    ;
    assert((k + 1) * scale == k * scale + scale) by (nonlinear_arith);
    assert(8 * k < u || k == 0) by {
        assert(k * scale < 0x20_0000_0000_0000 * u);
        assert(k * scale == k * 0x100_0000_0000_0000);
    }
    if r == 0 {
        assert(p == k * scale + 4 * k);
        if k == 0 {
            assert(d <= 0);
        } else {
            // Half a spacing is more than the excess of the product.
            lemma_closest_multiple(e, u, (k * s) as nat, d, (k * scale) as nat);
        }
        assert((k - 1) * scale == k * scale - scale) by (nonlinear_arith);
        lemma_ceil_div_is(d, scale, k);
    } else {
        assert(r * TENTH <= 9 * TENTH) by (nonlinear_arith)
            requires
                r <= 9,
        ;
        assert(r * TENTH >= TENTH) by (nonlinear_arith)
            requires
                r >= 1,
        ;
        assert(k < 0x20_0000_0000_0000);
        assert(p < (k + 1) * scale);
        if d > (k + 1) * scale {
            lemma_apart(e, ((k + 1) * s) as nat, u);
        }
        assert(d > k * scale);
        lemma_ceil_div_is(d, scale, (k + 1) as nat);
    }
}

/// Two different multiples of `u` are at least `u` apart.
proof fn lemma_apart(a: nat, b: nat, u: nat)
    requires
        a * u > b * u,
    ensures
        a * u >= b * u + u,
{
    assert(a > b) by (nonlinear_arith)
        requires
            a * u > b * u,
    ;
    assert(a * u >= (b + 1) * u) by (nonlinear_arith)
        requires
            a >= b + 1,
    ;
    assert((b + 1) * u == b * u + u) by (nonlinear_arith);
}

/// Multiples of `u` that are less than `u` apart are equal.
proof fn lemma_closest_multiple(a: nat, u: nat, b: nat, x: nat, y: nat)
    requires
        x == a * u,
        y == b * u,
        x < y + u,
        y < x + u,
    ensures
        x == y,
{
    if x > y {
        lemma_apart(a, b, u);
    } else if y > x {
        lemma_apart(b, a, u);
    }
}

/// A size that a double holds exactly has its quarter rounded up once.
pub proof fn law_quarter_of_exact_sizes(n: nat)
    requires
        n <= PRECISION,
    ensures
        quarter_rounded_up(n) == ceil_div(n, 4),
{
    lemma_nearest_double(n);
}

/// Up to the largest size below which a double holds every integer, a tenth is
/// rounded up once: ten times the result reaches the size, and overshoots it by
/// less than ten.
pub proof fn law_tenth_is_rounded_up(n: nat)
    requires
        n <= 0x20_0000_0000_0000,
    ensures
        n <= 10 * tenth_rounded_up(n) < n + 10,
{
    law_tenth_of_exact_sizes(n);
}

/// Up to the same size, a quarter is rounded up once.
pub proof fn law_quarter_is_rounded_up(n: nat)
    requires
        n <= 0x20_0000_0000_0000,
    ensures
        n <= 4 * quarter_rounded_up(n) < n + 4,
{
    law_quarter_of_exact_sizes(n);
}

/// Rounding to a double moves a number by no more than one part in 2^53.
proof fn lemma_rounding_error(n: nat)
    ensures
        PRECISION * nearest_double(n) <= PRECISION * n + n,
        PRECISION * n <= PRECISION * nearest_double(n) + n,
{
    lemma_spacing(n);
    lemma_nearest_double(n);
    if spacing(n) == 1 && n > PRECISION {
        assert(spacing(n) == 2 * spacing(n / 2));
    }
}

/// Beyond that size, the rounding of doubles moves the result by no more than
/// three parts in 2^53 of the size.
pub proof fn law_tenth_is_near_a_tenth(n: nat)
    ensures
        0x20_0000_0000_0000 * n <= 0x20_0000_0000_0000 * (10 * tenth_rounded_up(n)) + 3 * n,
        0x20_0000_0000_0000 * (10 * tenth_rounded_up(n)) <= 0x20_0000_0000_0000 * (n + 10) + 3 * n,
{
    let m = nearest_double(n);
    let p = m * TENTH as nat;
    let d = nearest_double(p);
    let t = tenth_rounded_up(n);
    let scale = TENTH_SCALE as nat;
    lemma_rounding_error(n);
    lemma_rounding_error(p);
    assert(p == m * 0x19_9999_9999_999A);
    assert(d <= t * scale && t * scale < d + scale) by {
        let e = (d + scale - 1) as nat;
        vstd::arithmetic::div_mod::lemma_fundamental_div_mod(e as int, scale as int);
        assert(t == e / scale);
        assert(0 <= e % scale < scale);
        assert(scale * (e / scale) == t * scale) by (nonlinear_arith)
            requires
                t == e / scale,
        ;
    }
    assert(t * scale == 0x100_0000_0000_0000 * t);
}

/// The same of a quarter.
pub proof fn law_quarter_is_near_a_quarter(n: nat)
    ensures
        0x20_0000_0000_0000 * n <= 0x20_0000_0000_0000 * (4 * quarter_rounded_up(n)) + n,
        0x20_0000_0000_0000 * (4 * quarter_rounded_up(n)) <= 0x20_0000_0000_0000 * (n + 4) + n,
{
    lemma_rounding_error(n);
}

} // verus!
