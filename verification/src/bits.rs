//! A model of IEEE-754 binary64 bit patterns.
//!
//! A `u64` is read as a binary64 datum: 1 sign bit, 11 exponent bits,
//! 52 fraction bits. The spec functions below extract the three fields
//! arithmetically and interpret finite patterns as exact integers scaled
//! by `2^1074`, the reciprocal of the smallest positive subnormal. Every
//! finite binary64 value is an integer multiple of `2^-1074`, so this
//! interpretation is exact and total on finite patterns.

use vstd::prelude::*;
use vstd::arithmetic::power2::pow2;
use vstd::arithmetic::power2::lemma_pow2_adds;
use vstd::arithmetic::power2::lemma_pow2_strictly_increases;
use vstd::arithmetic::power2::lemma2_to64;
use vstd::arithmetic::power2::lemma2_to64_rest;
use vstd::arithmetic::div_mod::lemma_fundamental_div_mod;
use vstd::arithmetic::div_mod::lemma_fundamental_div_mod_converse;
use vstd::arithmetic::div_mod::lemma_div_denominator;
use vstd::arithmetic::div_mod::lemma_mod_pos_bound;
use vstd::arithmetic::power2::lemma_pow2_pos;

verus! {

/// The sign bit of a binary64 pattern.
pub const SIGN_MASK: u64 = 0x8000_0000_0000_0000;

/// `2^52`: one unit of the exponent field, and the bound of the fraction field.
pub const FRAC_UNIT: u64 = 0x10_0000_0000_0000;

/// The exponent field of an infinity or not-a-number pattern.
pub const EXP_SPECIAL: u64 = 0x7FF;

/// The bit pattern of `+0.0`.
pub const POS_ZERO: u64 = 0;

/// The bit pattern of `1.0`: biased exponent 1023, empty fraction.
pub const POS_ONE: u64 = 0x3FF0_0000_0000_0000;

/// The sign field of a pattern: 1 for negative, 0 for positive.
pub open spec fn sign_field(b: u64) -> u64 {
    b / 0x8000_0000_0000_0000
}

/// The biased exponent field of a pattern (11 bits).
pub open spec fn exp_field(b: u64) -> u64 {
    (b / 0x10_0000_0000_0000) % 0x800
}

/// The fraction field of a pattern (52 bits).
pub open spec fn frac_field(b: u64) -> u64 {
    b % 0x10_0000_0000_0000
}

/// A not-a-number pattern: special exponent, non-empty fraction.
pub open spec fn is_nan(b: u64) -> bool {
    exp_field(b) == EXP_SPECIAL && frac_field(b) != 0
}

/// An infinity pattern of either sign.
pub open spec fn is_infinite(b: u64) -> bool {
    exp_field(b) == EXP_SPECIAL && frac_field(b) == 0
}

/// A finite pattern: zero, subnormal or normal.
pub open spec fn is_finite(b: u64) -> bool {
    exp_field(b) != EXP_SPECIAL
}

/// A zero pattern of either sign.
pub open spec fn is_zero(b: u64) -> bool {
    exp_field(b) == 0 && frac_field(b) == 0
}

/// The exact value of a finite pattern, scaled by `2^1074`.
///
/// A subnormal pattern denotes `frac * 2^-1074`; a normal pattern with
/// biased exponent `e` denotes `(2^52 + frac) * 2^(e - 1075)`. Both are
/// integers once multiplied by `2^1074`.
pub open spec fn scaled_value(b: u64) -> int
    recommends
        is_finite(b),
{
    let mag: int = if exp_field(b) == 0 {
        frac_field(b) as int
    } else {
        (frac_field(b) + FRAC_UNIT) * pow2((exp_field(b) - 1) as nat)
    };
    if sign_field(b) == 1 {
        -mag
    } else {
        mag
    }
}

/// The pattern with the opposite sign bit: the IEEE-754 `negate`
/// operation, which flips the sign of every datum, zeros, infinities
/// and not-a-numbers included.
pub open spec fn flip_sign(b: u64) -> u64 {
    if b >= SIGN_MASK {
        (b - SIGN_MASK) as u64
    } else {
        (b + SIGN_MASK) as u64
    }
}

/// IEEE-754 equality of two patterns: false whenever either side is
/// not-a-number; the two zeros are equal to each other; every other
/// value is equal only to its own pattern.
pub open spec fn float_eq(a: u64, b: u64) -> bool {
    !is_nan(a) && !is_nan(b) && (a == b || (is_zero(a) && is_zero(b)))
}

/// Flipping the sign bit leaves the exponent and fraction fields alone
/// and toggles the sign field.
pub proof fn lemma_flip_sign_fields(b: u64)
    ensures
        exp_field(flip_sign(b)) == exp_field(b),
        frac_field(flip_sign(b)) == frac_field(b),
        sign_field(flip_sign(b)) == 1 - sign_field(b),
        flip_sign(flip_sign(b)) == b,
{
    assert(exp_field(flip_sign(b)) == exp_field(b) && frac_field(flip_sign(b)) == frac_field(b)
        && sign_field(flip_sign(b)) == 1 - sign_field(b) && flip_sign(flip_sign(b)) == b)
        by (bit_vector);
}

/// Flipping the sign bit of a finite pattern negates its value.
pub proof fn lemma_flip_sign_value(b: u64)
    requires
        is_finite(b),
    ensures
        is_finite(flip_sign(b)),
        scaled_value(flip_sign(b)) == -scaled_value(b),
{
    lemma_flip_sign_fields(b);
}

/// Negation of a binary64 pattern: the sign bit is flipped and nothing
/// else changes, for every pattern, finite or not.
pub fn negate_bits(b: u64) -> (r: u64)
    ensures
        r == flip_sign(b),
        is_finite(b) ==> is_finite(r) && scaled_value(r) == -scaled_value(b),
        is_nan(b) ==> is_nan(r),
        is_infinite(b) ==> is_infinite(r),
{
    proof {
        lemma_flip_sign_fields(b);
        if is_finite(b) {
            lemma_flip_sign_value(b);
        }
    }
    if b >= SIGN_MASK {
        b - SIGN_MASK
    } else {
        b + SIGN_MASK
    }
}

/// IEEE-754 equality of two patterns, decided on the raw bits.
pub fn eq_bits(a: u64, b: u64) -> (r: bool)
    ensures
        r == float_eq(a, b),
{
    let a_exp: u64 = (a / FRAC_UNIT) % 0x800;
    let b_exp: u64 = (b / FRAC_UNIT) % 0x800;
    let a_nan: bool = a_exp == EXP_SPECIAL && a % FRAC_UNIT != 0;
    let b_nan: bool = b_exp == EXP_SPECIAL && b % FRAC_UNIT != 0;
    if a_nan || b_nan {
        false
    } else if a == b {
        true
    } else {
        a_exp == 0 && a % FRAC_UNIT == 0 && b_exp == 0 && b % FRAC_UNIT == 0
    }
}

/// The pattern of `1.0` denotes exactly one; the pattern of `+0.0`
/// denotes exactly zero.
pub proof fn lemma_value_of_units()
    ensures
        is_finite(POS_ONE),
        scaled_value(POS_ONE) == pow2(1074),
        sign_field(POS_ONE) == 0,
        is_finite(POS_ZERO),
        is_zero(POS_ZERO),
        scaled_value(POS_ZERO) == 0,
{
    lemma_fundamental_div_mod_converse(0x3FF0_0000_0000_0000, 0x10_0000_0000_0000, 0x3FF, 0);
    lemma_fundamental_div_mod_converse(
        0x3FF0_0000_0000_0000,
        0x8000_0000_0000_0000,
        0,
        0x3FF0_0000_0000_0000,
    );
    assert(exp_field(POS_ONE) == 0x3FF);
    assert(frac_field(POS_ONE) == 0);
    assert(sign_field(POS_ONE) == 0);
    lemma2_to64_rest();
    lemma_pow2_adds(52, 1022);
    assert(scaled_value(POS_ONE) == pow2(52) * pow2(1022));
}

/// The integer nearest to `v / 2^1074`, halves rounded away from zero.
pub open spec fn round_scaled(v: int) -> int {
    if v >= 0 {
        (v + pow2(1073)) / (pow2(1074) as int)
    } else {
        -((-v + pow2(1073)) / (pow2(1074) as int))
    }
}

/// The sign field reads exactly the topmost bit.
proof fn lemma_sign_split(b: u64)
    ensures
        sign_field(b) == (if b >= SIGN_MASK { 1u64 } else { 0u64 }),
{
    if b >= SIGN_MASK {
        lemma_fundamental_div_mod_converse(
            b as int,
            0x8000_0000_0000_0000,
            1,
            b - 0x8000_0000_0000_0000,
        );
    } else {
        lemma_fundamental_div_mod_converse(b as int, 0x8000_0000_0000_0000, 0, b as int);
    }
}

/// Rounding an exact multiple of `2^1074` gives that multiple back.
proof fn lemma_round_exact(v: int)
    ensures
        round_scaled(v * pow2(1074)) == v,
{
    let d: int = pow2(1074) as int;
    let h: int = pow2(1073) as int;
    lemma_pow2_adds(1073, 1);
    lemma2_to64();
    lemma_pow2_pos(1073);
    assert(d == 2 * h);
    if v >= 0 {
        assert(v * d >= 0) by (nonlinear_arith)
            requires
                v >= 0,
                d > 0,
        ;
        lemma_fundamental_div_mod_converse(v * d + h, d, v, h);
    } else {
        assert(v * d < 0 && -(v * d) == (-v) * d) by (nonlinear_arith)
            requires
                v < 0,
                d > 0,
        ;
        lemma_fundamental_div_mod_converse((-v) * d + h, d, -v, h);
    }
}

/// A scaled value below one half in magnitude rounds to zero.
proof fn lemma_round_small(v: int)
    requires
        -pow2(1073) < v < pow2(1073),
    ensures
        round_scaled(v) == 0,
{
    let d: int = pow2(1074) as int;
    let h: int = pow2(1073) as int;
    lemma_pow2_adds(1073, 1);
    lemma2_to64();
    lemma_pow2_pos(1073);
    assert(d == 2 * h);
    if v >= 0 {
        lemma_fundamental_div_mod_converse(v + h, d, 0, v + h);
    } else {
        lemma_fundamental_div_mod_converse(-v + h, d, 0, -v + h);
    }
}

/// A scaled value in `[1/2, 1)` rounds to one; its negation to minus one.
proof fn lemma_round_unit(v: int)
    requires
        pow2(1073) <= v < pow2(1074),
    ensures
        round_scaled(v) == 1,
        round_scaled(-v) == -1,
{
    let d: int = pow2(1074) as int;
    let h: int = pow2(1073) as int;
    lemma_pow2_adds(1073, 1);
    lemma2_to64();
    lemma_pow2_pos(1073);
    assert(d == 2 * h);
    lemma_fundamental_div_mod_converse(v + h, d, 1, v + h - d);
}

/// The binary64 bit pattern that encodes the integer `n` exactly.
///
/// Every 32-bit integer is exactly representable in binary64, so the
/// result is a finite pattern whose scaled value is `n * 2^1074`.
pub fn encode_i32(n: i32) -> (r: u64)
    ensures
        is_finite(r),
        scaled_value(r) == n * pow2(1074),
        sign_field(r) == (if n < 0 { 1u64 } else { 0u64 }),
{
    if n == 0 {
        return 0;
    }
    let neg: bool = n < 0;
    let m: u64 = if n >= 0 {
        n as u64
    } else {
        (-(n as i64)) as u64
    };
    assert(1 <= m && m <= 0x8000_0000);
    assert(m as int == if n >= 0 { n as int } else { -(n as int) });
    encode_magnitude(m, neg)
}

/// The binary64 bit pattern of the integer `m`, negated when `neg`
/// holds. Any magnitude up to `2^52` is exactly representable.
pub(crate) fn encode_magnitude(m: u64, neg: bool) -> (r: u64)
    requires
        1 <= m <= 0x10_0000_0000_0000,
    ensures
        is_finite(r),
        scaled_value(r) == (if neg { -(m as int) } else { m as int }) * pow2(1074),
        sign_field(r) == (if neg { 1u64 } else { 0u64 }),
{
    // Find k with 2^k <= m < 2^(k + 1); pk tracks 2^k.
    let mut t: u64 = m;
    let mut k: u64 = 0;
    let mut pk: u64 = 1;
    proof {
        lemma2_to64();
        assert(m as int / 1int == m as int);
    }
    while t >= 2
        invariant
            1 <= m <= 0x10_0000_0000_0000,
            k <= 52,
            1 <= pk <= m,
            pk == pow2(k as nat),
            t == m / pk,
            1 <= t,
        decreases t,
    {
        proof {
            lemma_fundamental_div_mod(m as int, pk as int);
            lemma_mod_pos_bound(m as int, pk as int);
            assert(pk as int * (m as int / pk as int) >= pk as int * 2) by (nonlinear_arith)
                requires
                    m as int / pk as int >= 2,
                    pk as int >= 1,
            ;
            assert(2 * pk <= m);
            lemma2_to64();
            lemma_pow2_adds(k as nat, 1);
            lemma_div_denominator(m as int, pk as int, 2);
            if k + 1 > 52 {
                lemma2_to64_rest();
                lemma_pow2_strictly_increases(52, (k + 1) as nat);
                assert(false);
            }
        }
        t = t / 2;
        pk = pk * 2;
        k = k + 1;
    }
    proof {
        lemma_fundamental_div_mod(m as int, pk as int);
        lemma_mod_pos_bound(m as int, pk as int);
        assert(pk as int * (m as int / pk as int) == pk as int) by (nonlinear_arith)
            requires
                m as int / pk as int == 1,
        ;
        assert(m - pk == m as int % pk as int);
    }
    let low: u64 = m - pk;
    assert(low < pk);

    // q becomes 2^(52 - k); the fraction field is low * q.
    let mut q: u64 = 1;
    let mut j: u64 = k;
    proof {
        lemma2_to64();
    }
    while j < 52
        invariant
            k <= j <= 52,
            1 <= q,
            q == pow2((j - k) as nat),
        decreases 52 - j,
    {
        proof {
            lemma_pow2_adds((j - k) as nat, 1);
            lemma2_to64();
            lemma2_to64_rest();
            if j + 1 - k < 52 {
                lemma_pow2_strictly_increases((j + 1 - k) as nat, 52);
            }
        }
        q = q * 2;
        j = j + 1;
    }
    let ghost p52: int = pow2(52) as int;
    proof {
        lemma_pow2_adds(k as nat, (52 - k) as nat);
        lemma2_to64_rest();
        assert(p52 == 0x10_0000_0000_0000);
        assert(pk as int * q as int == p52);
        assert((low as int) * (q as int) < p52) by (nonlinear_arith)
            requires
                (low as int) < (pk as int),
                1 <= q as int,
                pk as int * q as int == p52,
        ;
        assert(low as int * q as int >= 0) by (nonlinear_arith)
            requires
                low as int >= 0,
                q as int >= 0,
        ;
    }
    let frac: u64 = low * q;
    let e: u64 = 1023 + k;
    let mag_bits: u64 = e * FRAC_UNIT + frac;
    assert(mag_bits < 0x8000_0000_0000_0000);
    let r: u64 = if neg {
        SIGN_MASK + mag_bits
    } else {
        mag_bits
    };
    proof {
        let ri: int = r as int;
        let s: int = if neg { 1int } else { 0int };
        assert(ri == s * 0x8000_0000_0000_0000 + e as int * 0x10_0000_0000_0000 + frac as int);
        assert(ri == (s * 0x800 + e as int) * 0x10_0000_0000_0000 + frac as int) by (nonlinear_arith)
            requires
                ri == s * 0x8000_0000_0000_0000 + e as int * 0x10_0000_0000_0000 + frac as int,
        ;
        lemma_fundamental_div_mod_converse(
            ri,
            0x10_0000_0000_0000,
            s * 0x800 + e as int,
            frac as int,
        );
        assert(frac_field(r) == frac);
        lemma_fundamental_div_mod_converse(s * 0x800 + e as int, 0x800, s, e as int);
        assert(exp_field(r) == e);
        if neg {
            lemma_fundamental_div_mod_converse(ri, 0x8000_0000_0000_0000, 1, mag_bits as int);
        } else {
            lemma_fundamental_div_mod_converse(ri, 0x8000_0000_0000_0000, 0, ri);
        }
        assert(sign_field(r) == s);
        assert(is_finite(r));

        // The magnitude is (frac + 2^52) * 2^(e - 1) == m * 2^1074.
        let mag: int = (frac_field(r) + FRAC_UNIT) * pow2((exp_field(r) - 1) as nat);
        assert((e - 1) as nat == (1022 + k) as nat);
        let pe1: int = pow2((1022 + k) as nat) as int;
        let p1074: int = pow2(1074) as int;
        lemma_pow2_adds((52 - k) as nat, (1022 + k) as nat);
        assert(q as int * pe1 == p1074);
        assert(frac as int + p52 == m as int * q as int) by (nonlinear_arith)
            requires
                frac as int == low as int * q as int,
                p52 == pk as int * q as int,
                m as int == low as int + pk as int,
        ;
        assert(mag == m as int * p1074) by (nonlinear_arith)
            requires
                mag == (frac as int + p52) * pe1,
                frac as int + p52 == m as int * q as int,
                q as int * pe1 == p1074,
        ;
        if neg {
            assert(scaled_value(r) == -mag);
            assert((-(m as int)) * p1074 == -(m as int * p1074)) by (nonlinear_arith);
        } else {
            assert(scaled_value(r) == mag);
        }
    }
    r
}

/// Rounds a binary64 pattern to the nearest integral value, halves
/// away from zero; the sign is kept, so small negative values round to
/// negative zero. Infinite and not-a-number patterns come back
/// unchanged.
pub fn round_bits(b: u64) -> (r: u64)
    ensures
        is_finite(b) ==> is_finite(r) && scaled_value(r) == round_scaled(scaled_value(b)) * pow2(
            1074,
        ),
        !is_finite(b) ==> r == b,
        sign_field(r) == sign_field(b),
{
    let e: u64 = (b / FRAC_UNIT) % 0x800;
    let f: u64 = b % FRAC_UNIT;
    let neg: bool = b >= SIGN_MASK;
    proof {
        lemma_sign_split(b);
    }
    if e >= 1075 {
        // The magnitude is at least 2^52, so the value is already
        // integral; infinities and not-a-numbers also land here.
        proof {
            if e != EXP_SPECIAL {
                let s_sig: int = f + FRAC_UNIT;
                let pa: int = pow2((e - 1075) as nat) as int;
                let p1074: int = pow2(1074) as int;
                lemma_pow2_adds((e - 1075) as nat, 1074);
                assert(pow2((e - 1) as nat) == pa * p1074);
                let w: int = if neg {
                    -(s_sig * pa)
                } else {
                    s_sig * pa
                };
                assert(s_sig * (pa * p1074) == (s_sig * pa) * p1074) by (nonlinear_arith);
                assert(-(s_sig * pa) * p1074 == -((s_sig * pa) * p1074)) by (nonlinear_arith);
                assert(scaled_value(b) == w * p1074);
                lemma_round_exact(w);
            }
        }
        return b;
    }
    if e <= 1021 {
        // The magnitude is below one half: round to a signed zero.
        proof {
            let h: int = pow2(1073) as int;
            lemma2_to64_rest();
            if e == 0 {
                lemma_pow2_strictly_increases(52, 1073);
                assert(f < h);
                assert(-h < scaled_value(b) && scaled_value(b) < h);
            } else {
                let s_sig: int = f + FRAC_UNIT;
                let pe: int = pow2((e - 1) as nat) as int;
                lemma_pow2_pos((e - 1) as nat);
                if e - 1 < 1020 {
                    lemma_pow2_strictly_increases((e - 1) as nat, 1020);
                }
                lemma_pow2_adds(53, 1020);
                assert(s_sig * pe < h) by (nonlinear_arith)
                    requires
                        0 < s_sig && s_sig < pow2(53),
                        0 < pe <= pow2(1020) as int,
                        h == pow2(53) * pow2(1020),
                ;
                assert(s_sig * pe > 0) by (nonlinear_arith)
                    requires
                        s_sig > 0,
                        pe > 0,
                ;
                assert(-h < scaled_value(b) && scaled_value(b) < h);
            }
            lemma_round_small(scaled_value(b));
            lemma_value_of_units();
            lemma_flip_sign_fields(POS_ZERO);
            lemma_flip_sign_value(POS_ZERO);
        }
        if neg {
            return negate_bits(0);
        } else {
            return 0;
        }
    }
    if e == 1022 {
        // The magnitude lies in [1/2, 1): round to a signed one.
        proof {
            let h: int = pow2(1073) as int;
            let s_sig: int = f + FRAC_UNIT;
            lemma2_to64_rest();
            lemma_pow2_adds(52, 1021);
            lemma_pow2_adds(53, 1021);
            lemma_pow2_pos(1021);
            assert(pow2(1073) == pow2(52) * pow2(1021));
            assert(pow2(1074) == pow2(53) * pow2(1021));
            let pe: int = pow2(1021) as int;
            assert(h <= s_sig * pe && s_sig * pe < pow2(1074)) by (nonlinear_arith)
                requires
                    pow2(52) as int <= s_sig && s_sig < pow2(53),
                    pe > 0,
                    h == pow2(52) * pow2(1021),
                    pow2(1074) == pow2(53) * pow2(1021),
                    pe == pow2(1021),
            ;
            assert((e - 1) as nat == 1021);
            lemma_round_unit(s_sig * pe);
            lemma_value_of_units();
            lemma_flip_sign_fields(POS_ONE);
            lemma_flip_sign_value(POS_ONE);
        }
        if neg {
            return negate_bits(POS_ONE);
        } else {
            return POS_ONE;
        }
    }
    // The magnitude lies in [1, 2^52): split the significand at the
    // binary point and round the fraction, halves away from zero.
    let sh: u64 = 1075 - e;
    let s_full: u64 = FRAC_UNIT + f;
    let mut psh: u64 = 1;
    let mut i: u64 = 0;
    proof {
        lemma2_to64();
    }
    while i < sh
        invariant
            i <= sh <= 52,
            1 <= psh,
            psh == pow2(i as nat),
        decreases sh - i,
    {
        proof {
            lemma_pow2_adds(i as nat, 1);
            lemma2_to64();
            lemma2_to64_rest();
            if i + 1 < 52 {
                lemma_pow2_strictly_increases((i + 1) as nat, 52);
            }
        }
        psh = psh * 2;
        i = i + 1;
    }
    let ip: u64 = s_full / psh;
    let rem: u64 = s_full % psh;
    let half: u64 = psh / 2;
    let round_up: bool = rem >= half;
    let n_mag: u64 = if round_up {
        ip + 1
    } else {
        ip
    };
    proof {
        let d: int = pow2(1074) as int;
        let h: int = pow2(1073) as int;
        let psh_i: int = psh as int;
        let sf: int = s_full as int;

        // psh >= 2 and half == pow2(sh - 1), psh == 2 * half.
        lemma2_to64();
        if sh > 1 {
            lemma_pow2_strictly_increases(1, sh as nat);
        }
        lemma_pow2_adds((sh - 1) as nat, 1);
        let ph: int = pow2((sh - 1) as nat) as int;
        assert(psh_i == ph * 2);
        lemma_fundamental_div_mod_converse(psh_i, 2, ph, 0);
        assert(half as int == ph);

        // s_full == psh * ip + rem with 0 <= rem < psh.
        lemma_fundamental_div_mod(sf, psh_i);
        lemma_mod_pos_bound(sf, psh_i);
        lemma2_to64_rest();
        if (sh as nat) < 52 {
            lemma_pow2_strictly_increases(sh as nat, 52);
        }
        assert(psh_i <= FRAC_UNIT as int);
        assert(1 <= ip) by (nonlinear_arith)
            requires
                sf == psh_i * (ip as int) + rem as int,
                0 <= rem as int && (rem as int) < psh_i,
                psh_i <= 0x10_0000_0000_0000,
                sf >= 0x10_0000_0000_0000,
                ip as int >= 0,
        ;
        assert(ip as int <= 0xF_FFFF_FFFF_FFFF) by (nonlinear_arith)
            requires
                sf == psh_i * (ip as int) + rem as int,
                0 <= rem as int,
                sf < 0x20_0000_0000_0000,
                psh_i >= 2,
                ip as int >= 0,
        ;

        // The scaled magnitude is s_full * 2^(1074 - sh).
        assert((e - 1) as nat == (1074 - sh) as nat);
        let pa: int = pow2((1074 - sh) as nat) as int;
        lemma_pow2_pos((1074 - sh) as nat);
        lemma_pow2_adds((1074 - sh) as nat, (sh - 1) as nat);
        assert(pa * ph == h);
        lemma_pow2_adds((1074 - sh) as nat, sh as nat);
        assert(pa * psh_i == d);
        let mag: int = sf * pa;
        assert(mag > 0) by (nonlinear_arith)
            requires
                mag == sf * pa,
                sf > 0,
                pa > 0,
        ;

        // (mag + h) / d == (s_full + half) / psh.
        assert(mag + h == (sf + half as int) * pa) by (nonlinear_arith)
            requires
                mag == sf * pa,
                h == pa * (half as int),
        ;
        lemma_pow2_pos(1073);
        lemma_div_denominator(mag + h, pa, psh_i);
        assert((mag + h) / (pa * psh_i) == ((mag + h) / pa) / psh_i);
        lemma_fundamental_div_mod_converse(mag + h, pa, sf + half as int, 0);
        assert((mag + h) / pa == sf + half as int);
        assert((mag + h) / d == (sf + half as int) / psh_i);

        // (s_full + half) / psh is ip, or ip + 1 when the remainder
        // reaches one half.
        if round_up {
            assert(sf + half as int == (ip as int + 1) * psh_i + (rem as int + half as int
                - psh_i)) by (nonlinear_arith)
                requires
                    sf == psh_i * (ip as int) + rem as int,
            ;
            lemma_fundamental_div_mod_converse(
                sf + half as int,
                psh_i,
                ip as int + 1,
                rem as int + half as int - psh_i,
            );
        } else {
            assert(sf + half as int == (ip as int) * psh_i + (rem as int + half as int))
                by (nonlinear_arith)
                requires
                    sf == psh_i * (ip as int) + rem as int,
            ;
            lemma_fundamental_div_mod_converse(
                sf + half as int,
                psh_i,
                ip as int,
                rem as int + half as int,
            );
        }
        assert((mag + h) / d == n_mag as int);

        // Tie the rounded magnitude back to the pattern's scaled value.
        if neg {
            assert(scaled_value(b) == -mag);
            assert(round_scaled(-mag) == -(n_mag as int));
            assert((-(n_mag as int)) * d == -(n_mag as int * d)) by (nonlinear_arith);
        } else {
            assert(scaled_value(b) == mag);
            assert(round_scaled(mag) == n_mag as int);
        }
    }
    encode_magnitude(n_mag, neg)
}

} // verus!
