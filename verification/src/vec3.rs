//! Three-component fixed-point vectors.
//!
//! `Vec3` is the executable type (components in units of 10^-6 km for
//! positions, 10^-6 km/s for velocities); `V3i` is its mathematical view.

use vstd::prelude::*;
use crate::num64::{abs_int, sqrt_floor, isqrt_u128, lemma_sqrt_floor_is, wsub64};

verus! {

/// Mathematical view of a `Vec3`: three unbounded integers.
#[verifier::ext_equal]
pub ghost struct V3i {
    pub x: int,
    pub y: int,
    pub z: int,
}

impl V3i {
    /// Squared Euclidean norm.
    pub open spec fn norm2(self) -> int {
        self.x * self.x + self.y * self.y + self.z * self.z
    }

    /// Dot product.
    pub open spec fn dot(self, other: V3i) -> int {
        self.x * other.x + self.y * other.y + self.z * other.z
    }

    /// Component-wise difference, wrapping as the executable type does.
    pub open spec fn sub_wrapping(self, other: V3i) -> V3i {
        V3i { x: wsub64(self.x, other.x), y: wsub64(self.y, other.y), z: wsub64(
            self.z,
            other.z,
        ) }
    }

    /// Floor of the Euclidean norm.
    pub open spec fn norm(self) -> int {
        sqrt_floor(self.norm2())
    }

    /// All components within the symmetric bound `b`.
    pub open spec fn bounded(self, b: int) -> bool {
        abs_int(self.x) <= b && abs_int(self.y) <= b && abs_int(self.z) <= b
    }
}

/// A fixed-point 3-vector.
#[derive(Clone, Copy, PartialEq, Eq, Structural, Debug)]
pub struct Vec3 {
    pub x: i64,
    pub y: i64,
    pub z: i64,
}

impl View for Vec3 {
    type V = V3i;

    open spec fn view(&self) -> V3i {
        V3i { x: self.x as int, y: self.y as int, z: self.z as int }
    }
}

impl Vec3 {
    pub fn new(x: i64, y: i64, z: i64) -> (r: Vec3)
        ensures
            r@ == (V3i { x: x as int, y: y as int, z: z as int }),
    {
        Vec3 { x, y, z }
    }

    /// Component-wise wrapping difference.
    pub fn sub_wrapping(&self, other: &Vec3) -> (r: Vec3)
        ensures
            r@ == self@.sub_wrapping(other@),
    {
        Vec3 {
            x: self.x.wrapping_sub(other.x),
            y: self.y.wrapping_sub(other.y),
            z: self.z.wrapping_sub(other.z),
        }
    }

    /// Squared norm; exact, no overflow for any components.
    pub fn norm2(&self) -> (r: u128)
        ensures
            r as int == self@.norm2(),
    {
        proof {
            crate::num64::lemma_mul_bound_128(self.x as int, self.x as int, 0x8000_0000_0000_0000, 0x8000_0000_0000_0000);
            crate::num64::lemma_mul_bound_128(self.y as int, self.y as int, 0x8000_0000_0000_0000, 0x8000_0000_0000_0000);
            crate::num64::lemma_mul_bound_128(self.z as int, self.z as int, 0x8000_0000_0000_0000, 0x8000_0000_0000_0000);
            assert(self.x as int * self.x as int >= 0) by (nonlinear_arith);
            assert(self.y as int * self.y as int >= 0) by (nonlinear_arith);
            assert(self.z as int * self.z as int >= 0) by (nonlinear_arith);
        }
        let xx: u128 = ((self.x as i128) * (self.x as i128)) as u128;
        let yy: u128 = ((self.y as i128) * (self.y as i128)) as u128;
        let zz: u128 = ((self.z as i128) * (self.z as i128)) as u128;
        xx + yy + zz
    }

    /// Floor of the Euclidean norm.
    pub fn norm(&self) -> (r: u128)
        ensures
            r as int == self@.norm(),
            r * r <= self@.norm2(),
            (r + 1) * (r + 1) > self@.norm2(),
            r < 0x1_0000_0000_0000_0000,
    {
        let n2 = self.norm2();
        let r = isqrt_u128(n2);
        proof {
            lemma_sqrt_floor_is(n2 as int, r as int);
        }
        r
    }

    /// Dot product, in `i128`; the precondition keeps the exact sum
    /// representable.
    pub fn dot(&self, other: &Vec3) -> (r: i128)
        requires
            abs_int(self@.x) * abs_int(other@.x) + abs_int(self@.y) * abs_int(other@.y) + abs_int(
                self@.z,
            ) * abs_int(other@.z) <= i128::MAX,
        ensures
            r as int == self@.dot(other@),
    {
        proof {
            lemma_abs_mul(self.x as int, other.x as int);
            lemma_abs_mul(self.y as int, other.y as int);
            lemma_abs_mul(self.z as int, other.z as int);
            crate::num64::lemma_mul_bound_128(self.x as int, other.x as int, 0x8000_0000_0000_0000, 0x8000_0000_0000_0000);
            crate::num64::lemma_mul_bound_128(self.y as int, other.y as int, 0x8000_0000_0000_0000, 0x8000_0000_0000_0000);
            crate::num64::lemma_mul_bound_128(self.z as int, other.z as int, 0x8000_0000_0000_0000, 0x8000_0000_0000_0000);
        }
        let xx: i128 = (self.x as i128) * (other.x as i128);
        let yy: i128 = (self.y as i128) * (other.y as i128);
        let zz: i128 = (self.z as i128) * (other.z as i128);
        xx + yy + zz
    }
}

/// `|a * b| == |a| * |b|`.
pub proof fn lemma_abs_mul(a: int, b: int)
    ensures
        abs_int(a * b) == abs_int(a) * abs_int(b),
{
    assert(abs_int(a * b) == abs_int(a) * abs_int(b)) by (nonlinear_arith);
}

} // verus!
