//! Exact integer descriptions of the single-precision (`f32`) roundings that
//! the movement heuristics go through: converting an integer to `f32`, and
//! dividing two such values. Both round to nearest with ties to even, keeping
//! 24 significant bits.

use vstd::prelude::*;
use vstd::arithmetic::div_mod::{lemma_div_denominator, lemma_fundamental_div_mod};

verus! {

/// The power of two by which `n` must be divided to leave fewer than 24
/// significant bits (1 when `n` already has fewer).
pub open spec fn scale_for(n: nat) -> nat
    decreases n,
{
    if n < 0x1000000 {
        1
    } else {
        2 * scale_for(n / 2)
    }
}

/// `n` rounded to 24 significant bits, to nearest, ties to even: the value of
/// `n as f32`.
pub open spec fn round_single(n: nat) -> nat {
    if n < 0x1000000 {
        n
    } else {
        let p = scale_for(n);
        let q = n / p;
        let r = n % p;
        let h = p / 2;
        let q2 = if r > h || (r == h && q % 2 == 1) { q + 1 } else { q };
        q2 * p
    }
}

/// The value of `v as f32` for an integer `v` (rounding is symmetric in sign).
pub open spec fn single_of_int(v: int) -> int {
    if v < 0 {
        -(round_single((-v) as nat) as int)
    } else {
        round_single(v as nat) as int
    }
}

proof fn lemma_scale_for_bounds(n: nat)
    requires
        n >= 1,
    ensures
        1 <= scale_for(n) <= n,
    decreases n,
{
    if n >= 0x1000000 {
        lemma_scale_for_bounds(n / 2);
    }
}

proof fn lemma_scale_for_small(n: nat)
    requires
        n >= 0x1000000,
    ensures
        scale_for(n) * 0x800000 <= n,
        scale_for(n) >= 1,
    decreases n,
{
    assert(scale_for(n) == 2 * scale_for(n / 2));
    if n / 2 >= 0x1000000 {
        lemma_scale_for_small(n / 2);
    } else {
        assert(scale_for(n / 2) == 1);
    }
}

/// Rounding to single precision moves a natural number by at most `2^-23`
/// of itself.
pub proof fn lemma_round_single_close(n: nat)
    ensures
        0x800000 * (round_single(n) - n) <= n,
        0x800000 * (n - round_single(n)) <= n,
{
    if n >= 0x1000000 {
        lemma_scale_for_small(n);
        let p = scale_for(n);
        lemma_fundamental_div_mod(n as int, p as int);
        let q = n / p;
        let r = n % p;
        let h = p / 2;
        let q2 = if r > h || (r == h && q % 2 == 1) { q + 1 } else { q };
        assert(q2 * p == q * p || q2 * p == q * p + p) by (nonlinear_arith)
            requires
                q2 == q || q2 == q + 1,
        ;
        assert(round_single(n) == q2 * p);
        vstd::arithmetic::div_mod::lemma_mod_pos_bound(n as int, p as int);
        assert(q * p == p * q) by (nonlinear_arith);
        assert(0x800000 * p <= n);
        assert(0 <= r < p);
        assert(n == p * q + r);
        let rs = round_single(n);
        assert(0x800000 * (rs - n) <= n && 0x800000 * (n - rs) <= n) by (nonlinear_arith)
            requires
                rs == q * p || rs == q * p + p,
                n == p * q + r,
                q * p == p * q,
                0 <= r < p,
                0x800000 * p <= n,
        ;
    }
}

/// Single precision keeps an integer zero exactly when it is zero.
pub proof fn lemma_single_zero(v: int)
    ensures
        (single_of_int(v) == 0) <==> (v == 0),
{
    let n: nat = if v < 0 { (-v) as nat } else { v as nat };
    if n >= 0x1000000 {
        lemma_scale_for_bounds(n);
        let p = scale_for(n);
        lemma_fundamental_div_mod(n as int, p as int);
        let q = n / p;
        assert(q >= 1) by (nonlinear_arith)
            requires
                n as int == p * q + n % p,
                0 <= n % p < p,
                p <= n,
                p >= 1,
        ;
        let q2 = if n % p > p / 2 || (n % p == p / 2 && q % 2 == 1) { q + 1 } else { q };
        assert(q2 * p >= 1) by (nonlinear_arith)
            requires
                q2 >= 1,
                p >= 1,
        ;
    }
}

/// `n` rounded to single precision, as an integer.
pub fn round_to_single(n: u64) -> (r: u64)
    requires
        n < 0x4000_0000_0000_0000,
    ensures
        r == round_single(n as nat),
        r <= 2 * n,
{
    if n < 0x1000000 {
        return n;
    }
    let mut m: u64 = n;
    let mut p: u64 = 1;
    while m >= 0x1000000
        invariant
            n >= 0x1000000,
            n < 0x4000_0000_0000_0000,
            p >= 1,
            p <= n,
            m == n as nat / p as nat,
            scale_for(n as nat) == p * scale_for(m as nat),
        decreases m,
    {
        proof {
            lemma_div_denominator(n as int, p as int, 2);
            lemma_fundamental_div_mod(n as int, (2 * p) as int);
            let s2 = scale_for((m / 2) as nat);
            assert(scale_for(m as nat) == 2 * s2);
            assert(p * (2 * s2) == (2 * p) * s2) by (nonlinear_arith);
            assert((m / 2) as nat >= 1);
            assert(n as nat / (2 * p) as nat >= 1);
            assert(n >= 2 * p) by (nonlinear_arith)
                requires
                    n as int == (2 * p) * (n as int / (2 * p) as int) + n as int % (2 * p) as int,
                    n as int / (2 * p) as int >= 1,
                    n as int % (2 * p) as int >= 0,
                    p >= 1,
            ;
        }
        m = m / 2;
        p = p * 2;
    }
    proof {
        assert(scale_for(m as nat) == 1);
        assert(p * scale_for(m as nat) == p * 1);
        assert(scale_for(n as nat) == p);
        lemma_fundamental_div_mod(n as int, p as int);
        assert(m * p <= n) by (nonlinear_arith)
            requires
                n as int == p * (n as int / p as int) + n as int % p as int,
                m as int == n as int / p as int,
                n as int % p as int >= 0,
        ;
    }
    let r: u64 = n - m * p;
    let h: u64 = p / 2;
    let q: u64 = if r > h || (r == h && m % 2 == 1) { m + 1 } else { m };
    proof {
        assert(r as int == n as int % p as int);
        assert(q * p <= n + p) by (nonlinear_arith)
            requires
                q <= m + 1,
                m * p <= n,
                p >= 1,
        ;
    }
    q * p
}

/// The value of `v as f32` for an `i32`, as an integer.
pub fn single_of_i32(v: i32) -> (r: i64)
    ensures
        r == single_of_int(v as int),
        abs_int(r as int) <= 2 * abs_int(v as int),
{
    if v < 0 {
        let mag: u64 = (0 - (v as i64)) as u64;
        let rounded = round_to_single(mag);
        0 - (rounded as i64)
    } else {
        let rounded = round_to_single(v as u64);
        rounded as i64
    }
}

/// `2^j`.
pub open spec fn two_to(j: nat) -> nat
    decreases j,
{
    if j == 0 {
        1
    } else {
        2 * two_to((j - 1) as nat)
    }
}

/// How many times `a` must be doubled to reach at least `target`.
pub open spec fn doublings(a: nat, target: nat) -> nat
    decreases (if a >= target { 0 } else { target - a }),
{
    if a == 0 || a >= target {
        0
    } else {
        1 + doublings(2 * a, target)
    }
}

pub open spec fn abs_int(v: int) -> int {
    if v < 0 { -v } else { v }
}

/// A canonical description `(sign, significand, exponent code)` of the
/// single-precision quotient `a / b`, where `a` and `b` are values already
/// representable in single precision and `b != 0`. Two quotients are equal
/// as `f32` values exactly when their descriptions are equal: zero is
/// `(0, 0, 0)` whatever its sign, and otherwise the quotient is
/// `sign * significand * 2^(8 - exponent code)` with the significand in
/// `[2^23, 2^24)`, rounded to nearest with ties to even.
pub open spec fn quotient_key(a: int, b: int) -> (int, int, int) {
    if a == 0 {
        (0, 0, 0)
    } else {
        let sa = abs_int(a) as nat;
        let sb = abs_int(b) as nat;
        let sign: int = if (a < 0) == (b < 0) { 1 } else { -1 };
        let j = doublings(sa, 0x8000_0000 * sb);
        let x = sa * two_to(j);
        let d = sb * 256;
        let m0 = x / d;
        let r = x % d;
        let m = if 2 * r > d || (2 * r == d && m0 % 2 == 1) { m0 + 1 } else { m0 };
        if m == 0x1000000 {
            (sign, 0x800000, j - 1)
        } else {
            (sign, m as int, j as int)
        }
    }
}

proof fn lemma_two_to_large(j: nat)
    requires
        j >= 67,
    ensures
        two_to(j) >= 0x8_0000_0000_0000_0000,
    decreases j,
{
    if j == 67 {
        reveal_with_fuel(two_to, 68);
        assert(two_to(67) == 0x8_0000_0000_0000_0000);
    } else {
        lemma_two_to_large((j - 1) as nat);
    }
}

/// The description (see [`quotient_key`]) of the single-precision quotient
/// `a / b`, for single-precision integer values of magnitude at most 2^33.
pub fn single_quotient_key(a: i64, b: i64) -> (k: (i64, u64, i64))
    requires
        b != 0,
        -0x2_0000_0000 <= a <= 0x2_0000_0000,
        -0x2_0000_0000 <= b <= 0x2_0000_0000,
    ensures
        k.0 == quotient_key(a as int, b as int).0,
        k.1 == quotient_key(a as int, b as int).1,
        k.2 == quotient_key(a as int, b as int).2,
{
    if a == 0 {
        return (0, 0, 0);
    }
    let sa: u128 = if a < 0 { (0 - a) as u128 } else { a as u128 };
    let sb: u128 = if b < 0 { (0 - b) as u128 } else { b as u128 };
    let sign: i64 = if (a < 0) == (b < 0) { 1 } else { -1 };
    let target: u128 = 0x8000_0000 * sb;
    let mut x: u128 = sa;
    let mut j: u128 = 0;
    proof {
        assert(two_to(0) == 1);
        assert(sa * 1 == sa);
    }
    while x < target
        invariant
            1 <= sa <= 0x2_0000_0000,
            1 <= sb <= 0x2_0000_0000,
            target == 0x8000_0000 * sb,
            x == sa * two_to(j as nat),
            doublings(sa as nat, target as nat) == j + doublings(x as nat, target as nat),
            x <= sa + 2 * target,
            x >= 1,
            j < 67,
        decreases (if x >= target { 0 } else { target - x }),
    {
        proof {
            assert(sa * two_to((j + 1) as nat) == 2 * (sa * two_to(j as nat))) by (nonlinear_arith)
                requires
                    two_to((j + 1) as nat) == 2 * two_to(j as nat),
            ;
        }
        x = 2 * x;
        j = j + 1;
        proof {
            assert(two_to(j as nat) <= x) by (nonlinear_arith)
                requires
                    x == sa * two_to(j as nat),
                    sa >= 1,
            ;
            if j >= 67 {
                lemma_two_to_large(j as nat);
            }
        }
    }
    proof {
        assert(doublings(x as nat, target as nat) == 0);
    }
    let d: u128 = sb * 256;
    let m0: u128 = x / d;
    let r: u128 = x % d;
    let m: u128 = if 2 * r > d || (2 * r == d && m0 % 2 == 1) { m0 + 1 } else { m0 };
    if m == 0x1000000 {
        (sign, 0x800000, (j as i64) - 1)
    } else {
        proof {
            assert(m0 * 256 <= x) by (nonlinear_arith)
                requires
                    m0 == x / d,
                    d >= 256,
            ;
        }
        (sign, m as u64, j as i64)
    }
}

} // verus!
