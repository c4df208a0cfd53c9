//! The two vector types, with binary64 bit-pattern components.
//!
//! `KVector3` is a 3-component Euclidean vector and `AffineVector` a
//! 4-component homogeneous vector. Both are immutable values: every
//! operation returns a new instance. The operations here are the ones
//! whose behaviour is exact at the bit level — construction, component
//! access, functional update, the named constant vectors, integer
//! encoding, sign negation and IEEE-754 equality — and each carries a
//! contract that pins its result down completely.

use vstd::prelude::*;
use vstd::arithmetic::power2::pow2;
use crate::bits::POS_ONE;
use crate::bits::POS_ZERO;
use crate::bits::flip_sign;
use crate::bits::float_eq;
use crate::bits::is_finite;
use crate::bits::is_infinite;
use crate::bits::is_nan;
use crate::bits::is_zero;
use crate::bits::scaled_value;
use crate::bits::sign_field;
use crate::bits::round_scaled;
use crate::bits::encode_i32;
use crate::bits::eq_bits;
use crate::bits::negate_bits;
use crate::bits::round_bits;
use crate::bits::lemma_value_of_units;

verus! {

/// A 3-component Euclidean vector; each component holds the bit
/// pattern of a binary64 value.
#[derive(Clone, Copy, Debug, PartialEq, Eq, Structural)]
pub struct KVector3 {
    pub x: u64,
    pub y: u64,
    pub z: u64,
}

impl KVector3 {
    /// Builds a vector from three component bit patterns.
    pub fn new(x: u64, y: u64, z: u64) -> (r: KVector3)
        ensures
            r.x == x,
            r.y == y,
            r.z == z,
    {
        KVector3 { x, y, z }
    }

    /// Builds a vector from three integers, each encoded exactly as a
    /// binary64 value.
    pub fn newi(x: i32, y: i32, z: i32) -> (r: KVector3)
        ensures
            is_finite(r.x) && scaled_value(r.x) == x * pow2(1074),
            is_finite(r.y) && scaled_value(r.y) == y * pow2(1074),
            is_finite(r.z) && scaled_value(r.z) == z * pow2(1074),
            sign_field(r.x) == (if x < 0 { 1u64 } else { 0u64 }),
            sign_field(r.y) == (if y < 0 { 1u64 } else { 0u64 }),
            sign_field(r.z) == (if z < 0 { 1u64 } else { 0u64 }),
    {
        KVector3 { x: encode_i32(x), y: encode_i32(y), z: encode_i32(z) }
    }

    /// The first component's bit pattern.
    pub fn x(&self) -> (r: u64)
        ensures
            r == self.x,
    {
        self.x
    }

    /// The second component's bit pattern.
    pub fn y(&self) -> (r: u64)
        ensures
            r == self.y,
    {
        self.y
    }

    /// The third component's bit pattern.
    pub fn z(&self) -> (r: u64)
        ensures
            r == self.z,
    {
        self.z
    }

    /// The zero vector: every component is `+0.0`.
    pub fn zero() -> (r: KVector3)
        ensures
            r.x == POS_ZERO && r.y == POS_ZERO && r.z == POS_ZERO,
            is_zero(r.x) && is_zero(r.y) && is_zero(r.z),
            scaled_value(r.x) == 0 && scaled_value(r.y) == 0 && scaled_value(r.z) == 0,
    {
        proof {
            lemma_value_of_units();
        }
        KVector3 { x: POS_ZERO, y: POS_ZERO, z: POS_ZERO }
    }

    /// The all-ones vector: every component is `1.0`.
    pub fn identity() -> (r: KVector3)
        ensures
            r.x == POS_ONE && r.y == POS_ONE && r.z == POS_ONE,
            scaled_value(r.x) == pow2(1074),
            scaled_value(r.y) == pow2(1074),
            scaled_value(r.z) == pow2(1074),
    {
        proof {
            lemma_value_of_units();
        }
        KVector3 { x: POS_ONE, y: POS_ONE, z: POS_ONE }
    }

    /// The standard basis vector along the first axis: `(1, 0, 0)`.
    pub fn i_hat() -> (r: KVector3)
        ensures
            r.x == POS_ONE && r.y == POS_ZERO && r.z == POS_ZERO,
            scaled_value(r.x) == pow2(1074),
            scaled_value(r.y) == 0 && scaled_value(r.z) == 0,
    {
        proof {
            lemma_value_of_units();
        }
        KVector3 { x: POS_ONE, y: POS_ZERO, z: POS_ZERO }
    }

    /// The standard basis vector along the second axis: `(0, 1, 0)`.
    pub fn j_hat() -> (r: KVector3)
        ensures
            r.x == POS_ZERO && r.y == POS_ONE && r.z == POS_ZERO,
            scaled_value(r.y) == pow2(1074),
            scaled_value(r.x) == 0 && scaled_value(r.z) == 0,
    {
        proof {
            lemma_value_of_units();
        }
        KVector3 { x: POS_ZERO, y: POS_ONE, z: POS_ZERO }
    }

    /// The standard basis vector along the third axis: `(0, 0, 1)`.
    pub fn k_hat() -> (r: KVector3)
        ensures
            r.x == POS_ZERO && r.y == POS_ZERO && r.z == POS_ONE,
            scaled_value(r.z) == pow2(1074),
            scaled_value(r.x) == 0 && scaled_value(r.y) == 0,
    {
        proof {
            lemma_value_of_units();
        }
        KVector3 { x: POS_ZERO, y: POS_ZERO, z: POS_ONE }
    }

    /// A copy of this vector with the first component replaced; the
    /// other components are untouched.
    pub fn with_x(&self, x: u64) -> (r: KVector3)
        ensures
            r.x == x,
            r.y == self.y,
            r.z == self.z,
    {
        KVector3 { x, y: self.y, z: self.z }
    }

    /// A copy of this vector with the second component replaced; the
    /// other components are untouched.
    pub fn with_y(&self, y: u64) -> (r: KVector3)
        ensures
            r.x == self.x,
            r.y == y,
            r.z == self.z,
    {
        KVector3 { x: self.x, y, z: self.z }
    }

    /// A copy of this vector with the third component replaced; the
    /// other components are untouched.
    pub fn with_z(&self, z: u64) -> (r: KVector3)
        ensures
            r.x == self.x,
            r.y == self.y,
            r.z == z,
    {
        KVector3 { x: self.x, y: self.y, z }
    }

    /// Unary negation: each component's sign bit is flipped, exactly
    /// the IEEE-754 `negate` operation applied component-wise.
    pub fn v_usub(&self) -> (r: KVector3)
        ensures
            r.x == flip_sign(self.x),
            r.y == flip_sign(self.y),
            r.z == flip_sign(self.z),
            is_finite(self.x) ==> scaled_value(r.x) == -scaled_value(self.x),
            is_finite(self.y) ==> scaled_value(r.y) == -scaled_value(self.y),
            is_finite(self.z) ==> scaled_value(r.z) == -scaled_value(self.z),
            is_nan(self.x) ==> is_nan(r.x),
            is_nan(self.y) ==> is_nan(r.y),
            is_nan(self.z) ==> is_nan(r.z),
            is_infinite(self.x) ==> is_infinite(r.x),
            is_infinite(self.y) ==> is_infinite(r.y),
            is_infinite(self.z) ==> is_infinite(r.z),
    {
        KVector3 {
            x: negate_bits(self.x),
            y: negate_bits(self.y),
            z: negate_bits(self.z),
        }
    }

    /// Rounds each component to the nearest integral value, halves
    /// away from zero; component signs are kept, so small negative
    /// components round to negative zero, and non-finite components
    /// come back unchanged.
    pub fn round(&self) -> (r: KVector3)
        ensures
            is_finite(self.x) ==> is_finite(r.x) && scaled_value(r.x) == round_scaled(
                scaled_value(self.x),
            ) * pow2(1074),
            is_finite(self.y) ==> is_finite(r.y) && scaled_value(r.y) == round_scaled(
                scaled_value(self.y),
            ) * pow2(1074),
            is_finite(self.z) ==> is_finite(r.z) && scaled_value(r.z) == round_scaled(
                scaled_value(self.z),
            ) * pow2(1074),
            !is_finite(self.x) ==> r.x == self.x,
            !is_finite(self.y) ==> r.y == self.y,
            !is_finite(self.z) ==> r.z == self.z,
            sign_field(r.x) == sign_field(self.x),
            sign_field(r.y) == sign_field(self.y),
            sign_field(r.z) == sign_field(self.z),
    {
        KVector3 {
            x: round_bits(self.x),
            y: round_bits(self.y),
            z: round_bits(self.z),
        }
    }

    /// IEEE-754 equality, component by component: false whenever any
    /// component of either side is not-a-number, and true on the two
    /// zero patterns of each component.
    pub fn equals(&self, v: KVector3) -> (r: bool)
        ensures
            r == (float_eq(self.x, v.x) && float_eq(self.y, v.y) && float_eq(self.z, v.z)),
    {
        let ex: bool = eq_bits(self.x, v.x);
        let ey: bool = eq_bits(self.y, v.y);
        let ez: bool = eq_bits(self.z, v.z);
        ex && ey && ez
    }
}

/// A 4-component affine (homogeneous) vector; each component holds the
/// bit pattern of a binary64 value. The fourth component `w` is the
/// homogeneous coordinate, interpreted by the caller alone.
#[derive(Clone, Copy, Debug, PartialEq, Eq, Structural)]
pub struct AffineVector {
    pub x: u64,
    pub y: u64,
    pub z: u64,
    pub w: u64,
}

impl AffineVector {
    /// Builds a vector from four component bit patterns.
    pub fn new(x: u64, y: u64, z: u64, w: u64) -> (r: AffineVector)
        ensures
            r.x == x,
            r.y == y,
            r.z == z,
            r.w == w,
    {
        AffineVector { x, y, z, w }
    }

    /// The first component's bit pattern.
    pub fn x(self) -> (r: u64)
        ensures
            r == self.x,
    {
        self.x
    }

    /// The second component's bit pattern.
    pub fn y(self) -> (r: u64)
        ensures
            r == self.y,
    {
        self.y
    }

    /// The third component's bit pattern.
    pub fn z(self) -> (r: u64)
        ensures
            r == self.z,
    {
        self.z
    }

    /// The homogeneous component's bit pattern.
    pub fn w(self) -> (r: u64)
        ensures
            r == self.w,
    {
        self.w
    }

    /// Unary negation: each component's sign bit is flipped, exactly
    /// the IEEE-754 `negate` operation applied component-wise.
    pub fn negate(&self) -> (r: AffineVector)
        ensures
            r.x == flip_sign(self.x),
            r.y == flip_sign(self.y),
            r.z == flip_sign(self.z),
            r.w == flip_sign(self.w),
            is_finite(self.x) ==> scaled_value(r.x) == -scaled_value(self.x),
            is_finite(self.y) ==> scaled_value(r.y) == -scaled_value(self.y),
            is_finite(self.z) ==> scaled_value(r.z) == -scaled_value(self.z),
            is_finite(self.w) ==> scaled_value(r.w) == -scaled_value(self.w),
    {
        AffineVector {
            x: negate_bits(self.x),
            y: negate_bits(self.y),
            z: negate_bits(self.z),
            w: negate_bits(self.w),
        }
    }

    /// IEEE-754 equality, component by component.
    pub fn equals(&self, v: AffineVector) -> (r: bool)
        ensures
            r == (float_eq(self.x, v.x) && float_eq(self.y, v.y) && float_eq(self.z, v.z)
                && float_eq(self.w, v.w)),
    {
        let ex: bool = eq_bits(self.x, v.x);
        let ey: bool = eq_bits(self.y, v.y);
        let ez: bool = eq_bits(self.z, v.z);
        let ew: bool = eq_bits(self.w, v.w);
        ex && ey && ez && ew
    }
}

} // verus!
