//! Exact integer model of the few IEEE 754 binary64 operations that jump
//! consistent hashing performs: one division of `2^31` by a small integer and
//! one multiplication by a small integer, both rounded to nearest, ties to even.
//!
//! A binary64 value carries 53 significant bits. Every value that occurs here
//! lies in `[1, 2^63]`, far from subnormals and overflow, so rounding is
//! "keep 53 significant bits" and commutes with scaling by a power of two.
//! That lets the model work on scaled integers only.

use vstd::prelude::*;
use vstd::arithmetic::power2::{
    pow2, lemma2_to64, lemma2_to64_rest, lemma_pow2_adds, lemma_pow2_pos,
    lemma_pow2_strictly_increases, lemma_pow2_unfold,
};

verus! {

/// `2^21`.
pub const TWO_21: u128 = 0x20_0000;

/// `2^31`, the numerator of the quotient.
pub const TWO_31: u64 = 0x8000_0000;

/// `2^33`: the low bits that the divisor discards.
pub const TWO_33: u64 = 0x2_0000_0000;

/// `2^52`: the least 53-bit significand.
pub const TWO_52: u128 = 0x10_0000_0000_0000;

/// `2^53`: one more than the greatest 53-bit significand.
pub const TWO_53: u128 = 0x20_0000_0000_0000;

/// The quotient `n / d` rounded to the nearest integer; a tie goes to the even neighbour.
pub open spec fn round_half_even(n: nat, d: nat) -> nat {
    let t = n / d;
    let r = n % d;
    if 2 * r > d || (2 * r == d && t % 2 == 1) {
        t + 1
    } else {
        t
    }
}

/// The first of `u, 2u, 4u, ...` that is at least `d`.
pub open spec fn doubled_to_reach(d: nat, u: nat) -> nat
    decreases 2 * d - u,
{
    if u >= d || u == 0 {
        u
    } else {
        doubled_to_reach(d, 2 * u)
    }
}

/// The least power of two that is at least `d`.
pub open spec fn pow2_ceiling(d: nat) -> nat {
    doubled_to_reach(d, 1)
}

/// The first `c` of `c, 2c, 4c, ...` for which `p` has at most 53 bits above `c`: `p < 2^53 * c`.
pub open spec fn unit_from(p: nat, c: nat) -> nat
    decreases p - c,
{
    if p < TWO_53 * c || c == 0 {
        c
    } else {
        unit_from(p, 2 * c)
    }
}

/// The weight of the last significant bit that binary64 keeps of the integer `p`.
pub open spec fn unit_in_last_place(p: nat) -> nat {
    unit_from(p, 1)
}

/// The binary64 value nearest to the integer `p` (itself an integer).
pub open spec fn nearest_binary64(p: nat) -> nat {
    let c = unit_in_last_place(p);
    round_half_even(p, c) * c
}

/// The 53-bit significand of the binary64 quotient `2^31 / d`, for `1 <= d <= 2^31`.
/// With `u = pow2_ceiling(d)`, the quotient itself is `significand / (2^21 * u)`.
pub open spec fn quotient_significand(d: nat) -> nat {
    round_half_even(TWO_52 as nat * pow2_ceiling(d), d)
}

/// What `((b + 1) as f64 * (2^31 as f64 / d as f64)) as i64` evaluates to in binary64
/// arithmetic, for `b + 1 <= 2^32` and `1 <= d <= 2^31`: the quotient is rounded, the
/// product is rounded, and the cast drops the fraction. The greatest product, `2^63`
/// for `b + 1 == 2^32` and `d == 1`, is kept as it is, where the cast would stop one
/// short of it.
#[verifier::opaque]
pub open spec fn scaled_product(b: nat, d: nat) -> nat {
    nearest_binary64((b + 1) * quotient_significand(d)) / (TWO_21 as nat * pow2_ceiling(d))
}

/// Rounding to nearest never falls below the truncated quotient nor rises above it by
/// more than one.
pub proof fn lemma_round_half_even_bounds(n: nat, d: nat)
    requires
        d > 0,
    ensures
        n / d <= round_half_even(n, d) <= n / d + 1,
        n % d == 0 ==> round_half_even(n, d) == n / d,
{
}

/// `a * c <= p` gives `a <= p / c`.
pub proof fn lemma_div_lower_bound(a: nat, c: nat, p: nat)
    requires
        c > 0,
        a * c <= p,
    ensures
        a <= p / c,
{
    vstd::arithmetic::div_mod::lemma_div_is_ordered((a * c) as int, p as int, c as int);
    vstd::arithmetic::div_mod::lemma_div_multiples_vanish(a as int, c as int);
    assert(a * c == c * a) by (nonlinear_arith);
}

/// What `doubled_to_reach` returns when it starts from a power of two not beyond `2^31`
/// and `d` is at most `2^31`.
pub proof fn lemma_doubled_to_reach(d: nat, u: nat, i: nat)
    requires
        1 <= d <= TWO_31,
        u == pow2(i),
        i <= 31,
        u < 2 * d,
    ensures
        d <= doubled_to_reach(d, u) < 2 * d,
        exists|e: nat| e <= 31 && #[trigger] pow2(e) == doubled_to_reach(d, u),
    decreases 2 * d - u,
{
    lemma_pow2_pos(i);
    lemma2_to64();
    if u >= d {
        assert(pow2(i) == doubled_to_reach(d, u));
    } else {
        if i >= 31 {
            if i > 31 {
                lemma_pow2_strictly_increases(31, i);
            }
            assert(false);
        }
        lemma_pow2_unfold(i + 1);
        lemma_doubled_to_reach(d, 2 * u, i + 1);
    }
}

/// The least power of two at least `d` lies in `[d, 2d)` and is at most `2^31`.
pub proof fn lemma_pow2_ceiling(d: nat)
    requires
        1 <= d <= TWO_31,
    ensures
        d <= pow2_ceiling(d) < 2 * d,
        pow2_ceiling(d) <= TWO_31,
        exists|e: nat| e <= 31 && #[trigger] pow2(e) == pow2_ceiling(d),
{
    lemma2_to64();
    lemma_doubled_to_reach(d, 1, 0);
    let e = choose|e: nat| e <= 31 && #[trigger] pow2(e) == pow2_ceiling(d);
    if e < 31 {
        lemma_pow2_strictly_increases(e, 31);
    }
}

/// The significand of the quotient has exactly 53 bits, or is `2^53`.
pub proof fn lemma_quotient_significand(d: nat)
    requires
        1 <= d <= TWO_31,
    ensures
        TWO_52 <= quotient_significand(d) <= TWO_53,
{
    lemma_pow2_ceiling(d);
    let u = pow2_ceiling(d);
    let n = TWO_52 as nat * u;
    lemma_round_half_even_bounds(n, d);
    assert(TWO_52 as nat * d <= n) by (nonlinear_arith)
        requires
            d <= u,
            n == TWO_52 as nat * u,
    ;
    lemma_div_lower_bound(TWO_52 as nat, d, n);
    assert(n < TWO_53 as nat * d) by (nonlinear_arith)
        requires
            u < 2 * d,
            n == TWO_52 as nat * u,
    ;
    assert(n / d < TWO_53) by {
        vstd::arithmetic::div_mod::lemma_multiply_divide_lt(n as int, d as int, TWO_53 as int);
    }
}

/// What `unit_from` returns when it starts from a power of two `c = 2^i` with `2^52 * c <= p`
/// or `i == 0`, for `p < 2^86`.
pub proof fn lemma_unit_from(p: nat, c: nat, i: nat)
    requires
        p < 0x40_0000_0000_0000_0000_0000,
        c == pow2(i),
        i <= 33,
        i == 0 || TWO_52 * c <= p,
    ensures
        exists|s: nat| s <= 33 && #[trigger] pow2(s) == unit_from(p, c),
        p < TWO_53 * unit_from(p, c),
    decreases p - c,
{
    lemma_pow2_pos(i);
    lemma2_to64();
    lemma2_to64_rest();
    if p < TWO_53 * c {
        assert(pow2(i) == unit_from(p, c));
    } else {
        if i >= 33 {
            if i > 33 {
                lemma_pow2_strictly_increases(33, i);
            }
            assert(false);
        }
        lemma_pow2_unfold(i + 1);
        lemma_unit_from(p, 2 * c, i + 1);
    }
}

/// Rounding an integer `p < 2^86` to binary64 never takes it below a multiple of `2^52`
/// that it has reached: binary64 holds such a multiple exactly when `p` needs rounding at all.
pub proof fn lemma_nearest_binary64_floor(p: nat, a: nat)
    requires
        p < 0x40_0000_0000_0000_0000_0000,
        a * TWO_52 <= p,
    ensures
        a * TWO_52 <= nearest_binary64(p),
        nearest_binary64(p) <= p + unit_in_last_place(p),
        unit_in_last_place(p) <= 0x2_0000_0000,
{
    lemma2_to64();
    lemma2_to64_rest();
    lemma_unit_from(p, 1, 0);
    let c = unit_in_last_place(p);
    let s = choose|s: nat| s <= 33 && #[trigger] pow2(s) == c;
    lemma_pow2_pos(s);
    if s < 33 {
        lemma_pow2_strictly_increases(s, 33);
    }
    let rest = (52 - s) as nat;
    lemma_pow2_adds(s, rest);
    assert(pow2(52) == TWO_52);
    let a2 = a * pow2(rest);
    assert(a2 * c == a * TWO_52) by (nonlinear_arith)
        requires
            a2 == a * pow2(rest),
            c * pow2(rest) == TWO_52,
    ;
    lemma_div_lower_bound(a2, c, p);
    lemma_round_half_even_bounds(p, c);
    let r = round_half_even(p, c);
    assert(a2 * c <= r * c) by (nonlinear_arith)
        requires
            a2 <= r,
    ;
    vstd::arithmetic::div_mod::lemma_fundamental_div_mod(p as int, c as int);
    assert(r * c <= p + c) by (nonlinear_arith)
        requires
            r <= p / c + 1,
            p == c * (p / c) + p % c,
            0 <= p % c,
    ;
}

/// The truncated rounded product is more than `b`: the quotient is at least one, `b + 1` is
/// a binary64 value, and rounding is monotone.
pub proof fn lemma_scaled_product_advances(b: nat, d: nat)
    requires
        b < 0x1_0000_0000,
        1 <= d <= TWO_31,
    ensures
        b < scaled_product(b, d),
{
    reveal(scaled_product);
    lemma_pow2_ceiling(d);
    lemma_quotient_significand(d);
    let u = pow2_ceiling(d);
    let m = quotient_significand(d);
    let p = (b + 1) * m;
    assert((b + 1) * TWO_52 <= p && p < 0x40_0000_0000_0000_0000_0000) by (nonlinear_arith)
        requires
            p == (b + 1) * m,
            TWO_52 <= m <= TWO_53,
            b < 0x1_0000_0000,
    ;
    lemma_nearest_binary64_floor(p, b + 1);
    let r = nearest_binary64(p);
    let den = TWO_21 as nat * u;
    assert(0 < den && (b + 1) * den <= (b + 1) * TWO_52) by (nonlinear_arith)
        requires
            den == TWO_21 as nat * u,
            1 <= u <= TWO_31,
    ;
    lemma_div_lower_bound(b + 1, den, r);
}

/// The least power of two that is at least `d`.
fn pow2_ceiling_of(d: u64) -> (u: u64)
    requires
        1 <= d <= TWO_31,
    ensures
        u == pow2_ceiling(d as nat),
        d <= u <= TWO_31,
        u < 2 * d,
{
    let mut u: u64 = 1;
    let ghost mut i: nat = 0;
    proof {
        lemma2_to64();
        lemma_pow2_ceiling(d as nat);
    }
    while u < d
        invariant
            1 <= d <= TWO_31,
            u == pow2(i),
            i <= 31,
            u < 2 * d,
            doubled_to_reach(d as nat, u as nat) == pow2_ceiling(d as nat),
        decreases 2 * d - u,
    {
        proof {
            lemma2_to64();
            lemma_pow2_unfold(i + 1);
            if i >= 31 {
                if i > 31 {
                    lemma_pow2_strictly_increases(31, i);
                }
                assert(false);
            }
            i = i + 1;
        }
        u = u * 2;
    }
    u
}

/// `n / d` rounded to the nearest integer, ties to even.
fn round_half_even_of(n: u128, d: u128) -> (q: u128)
    requires
        d > 0,
        n / d < u128::MAX,
    ensures
        q == round_half_even(n as nat, d as nat),
{
    let t: u128 = n / d;
    let r: u128 = n % d;
    if r > d - r || (r == d - r && t % 2 == 1) {
        t + 1
    } else {
        t
    }
}

/// The binary64 value nearest to the integer `p`.
fn nearest_binary64_of(p: u128) -> (r: u128)
    requires
        p < 0x40_0000_0000_0000_0000_0000,
    ensures
        r == nearest_binary64(p as nat),
{
    let mut c: u128 = 1;
    let ghost mut i: nat = 0;
    proof {
        lemma2_to64();
        lemma2_to64_rest();
    }
    while p >= TWO_53 * c
        invariant
            p < 0x40_0000_0000_0000_0000_0000,
            c == pow2(i),
            i <= 33,
            1 <= c <= 0x2_0000_0000,
            i == 0 || TWO_52 * c <= p,
            unit_from(p as nat, c as nat) == unit_in_last_place(p as nat),
        decreases p - c,
    {
        proof {
            lemma2_to64();
            lemma2_to64_rest();
            lemma_pow2_unfold(i + 1);
            if i >= 33 {
                if i > 33 {
                    lemma_pow2_strictly_increases(33, i);
                }
                assert(false);
            }
            if i < 32 {
                lemma_pow2_strictly_increases(i + 1, 33);
            }
            i = i + 1;
        }
        c = c * 2;
    }
    proof {
        lemma_round_half_even_bounds(p as nat, c as nat);
        vstd::arithmetic::div_mod::lemma_fundamental_div_mod(p as int, c as int);
        assert((p / c + 1) * c <= p + c) by (nonlinear_arith)
            requires
                p == c * (p / c) + p % c,
                0 <= p % c,
        ;
        assert(p / c <= p) by {
            vstd::arithmetic::div_mod::lemma_div_is_ordered_by_denominator(p as int, 1, c as int);
        }
    }
    let q: u128 = round_half_even_of(p, c);
    assert(q * c <= (p / c + 1) * c) by (nonlinear_arith)
        requires
            q <= p / c + 1,
    ;
    q * c
}

/// Evaluates `((b + 1) as f64 * (2^31 as f64 / d as f64)) as i64` without floating point;
/// `2^63` comes out as it is.
pub fn scaled_product_of(b: u32, d: u64) -> (j: u128)
    requires
        1 <= d <= TWO_31,
    ensures
        j == scaled_product(b as nat, d as nat),
        b < j,
{
    let u: u64 = pow2_ceiling_of(d);
    proof {
        reveal(scaled_product);
        lemma_quotient_significand(d as nat);
        lemma_scaled_product_advances(b as nat, d as nat);
        let n: int = TWO_52 * u;
        assert(n <= 0x8_0000_0000_0000_0000_0000);
        assert(n / (d as int) <= n) by {
            vstd::arithmetic::div_mod::lemma_div_is_ordered_by_denominator(n, 1, d as int);
        }
    }
    let m: u128 = round_half_even_of(TWO_52 * (u as u128), d as u128);
    assert((b as u128 + 1) * m < 0x40_0000_0000_0000_0000_0000) by (nonlinear_arith)
        requires
            m <= TWO_53,
            b < 0x1_0000_0000,
    ;
    let p: u128 = (b as u128 + 1) * m;
    let r: u128 = nearest_binary64_of(p);
    r / (TWO_21 * (u as u128))
}

} // verus!
