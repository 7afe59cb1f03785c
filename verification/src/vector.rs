//! Pairs of numbers: positions, sizes and cell coordinates.
use vstd::prelude::*;

use crate::scalar::Scalar;

verus! {

/// A point or a size.
#[derive(Clone, Copy, PartialEq, Eq, Structural, Debug)]
pub struct Vec2 {
    pub x: Scalar,
    pub y: Scalar,
}

/// A pair of counts.
#[derive(Clone, Copy, PartialEq, Eq, Structural, Debug)]
pub struct UVec2 {
    pub x: u32,
    pub y: u32,
}

/// A pair of whole coordinates.
#[derive(Clone, Copy, PartialEq, Eq, Structural, Debug)]
pub struct IVec2 {
    pub x: i32,
    pub y: i32,
}

/// Four numbers.
#[derive(Clone, Copy, PartialEq, Eq, Structural, Debug)]
pub struct Vec4 {
    pub x: Scalar,
    pub y: Scalar,
    pub z: Scalar,
    pub w: Scalar,
}

/// Four counts.
#[derive(Clone, Copy, PartialEq, Eq, Structural, Debug)]
pub struct UVec4 {
    pub x: u32,
    pub y: u32,
    pub z: u32,
    pub w: u32,
}

/// The larger number, or the second if the two do not compare.
#[verifier::allow_in_spec]
pub fn larger(a: Scalar, b: Scalar) -> Scalar
    returns
        (if b.lt(a) {
            a
        } else {
            b
        }),
{
    if b.lt(a) {
        a
    } else {
        b
    }
}

impl Vec2 {
    #[verifier::allow_in_spec]
    pub fn splat(value: Scalar) -> Vec2
        returns
            (Vec2 { x: value, y: value }),
    {
        Vec2 { x: value, y: value }
    }

    #[verifier::allow_in_spec]
    pub fn add(self, other: Vec2) -> Vec2
        returns
            (Vec2 { x: self.x.add(other.x), y: self.y.add(other.y) }),
    {
        Vec2 { x: self.x.add(other.x), y: self.y.add(other.y) }
    }

    #[verifier::allow_in_spec]
    pub fn sub(self, other: Vec2) -> Vec2
        returns
            (Vec2 { x: self.x.sub(other.x), y: self.y.sub(other.y) }),
    {
        Vec2 { x: self.x.sub(other.x), y: self.y.sub(other.y) }
    }

    #[verifier::allow_in_spec]
    pub fn mul(self, other: Vec2) -> Vec2
        returns
            (Vec2 { x: self.x.mul(other.x), y: self.y.mul(other.y) }),
    {
        Vec2 { x: self.x.mul(other.x), y: self.y.mul(other.y) }
    }

    #[verifier::allow_in_spec]
    pub fn div(self, other: Vec2) -> Vec2
        returns
            (Vec2 { x: self.x.div(other.x), y: self.y.div(other.y) }),
    {
        Vec2 { x: self.x.div(other.x), y: self.y.div(other.y) }
    }

    #[verifier::allow_in_spec]
    pub fn scale(self, factor: Scalar) -> Vec2
        returns
            (Vec2 { x: self.x.mul(factor), y: self.y.mul(factor) }),
    {
        Vec2 { x: self.x.mul(factor), y: self.y.mul(factor) }
    }

    #[verifier::allow_in_spec]
    pub fn shrink(self, divisor: Scalar) -> Vec2
        returns
            (Vec2 { x: self.x.div(divisor), y: self.y.div(divisor) }),
    {
        Vec2 { x: self.x.div(divisor), y: self.y.div(divisor) }
    }

    #[verifier::allow_in_spec]
    pub fn rem_euclid(self, other: Vec2) -> Vec2
        returns
            (Vec2 { x: self.x.rem_euclid(other.x), y: self.y.rem_euclid(other.y) }),
    {
        Vec2 { x: self.x.rem_euclid(other.x), y: self.y.rem_euclid(other.y) }
    }

    #[verifier::allow_in_spec]
    pub fn floor(self) -> Vec2
        returns
            (Vec2 { x: self.x.floor(), y: self.y.floor() }),
    {
        Vec2 { x: self.x.floor(), y: self.y.floor() }
    }

    #[verifier::allow_in_spec]
    pub fn round(self) -> Vec2
        returns
            (Vec2 { x: self.x.round(), y: self.y.round() }),
    {
        Vec2 { x: self.x.round(), y: self.y.round() }
    }

    #[verifier::allow_in_spec]
    pub fn neg(self) -> Vec2
        returns
            (Vec2 { x: self.x.neg(), y: self.y.neg() }),
    {
        Vec2 { x: self.x.neg(), y: self.y.neg() }
    }

    #[verifier::allow_in_spec]
    pub fn max(self, other: Vec2) -> Vec2
        returns
            (Vec2 { x: larger(self.x, other.x), y: larger(self.y, other.y) }),
    {
        Vec2 { x: larger(self.x, other.x), y: larger(self.y, other.y) }
    }

    pub open spec fn finite(self) -> bool {
        self.x.finite() && self.y.finite()
    }

    pub fn is_finite(self) -> (r: bool)
        ensures
            r == self.finite(),
    {
        self.x.is_finite() && self.y.is_finite()
    }

    #[verifier::allow_in_spec]
    pub fn length_squared(self) -> Scalar
        returns
            self.x.mul(self.x).add(self.y.mul(self.y)),
    {
        self.x.mul(self.x).add(self.y.mul(self.y))
    }

    #[verifier::allow_in_spec]
    pub fn distance(self, other: Vec2) -> Scalar
        returns
            self.sub(other).length_squared().sqrt(),
    {
        self.sub(other).length_squared().sqrt()
    }

    #[verifier::allow_in_spec]
    pub fn to_ivec2(self) -> IVec2
        returns
            (IVec2 { x: self.x.to_i32(), y: self.y.to_i32() }),
    {
        IVec2 { x: self.x.to_i32(), y: self.y.to_i32() }
    }
}

impl UVec2 {
    #[verifier::allow_in_spec]
    pub fn to_vec2(self) -> Vec2
        returns
            (Vec2 { x: Scalar::from_u32(self.x), y: Scalar::from_u32(self.y) }),
    {
        Vec2 { x: Scalar::from_u32(self.x), y: Scalar::from_u32(self.y) }
    }
}

} // verus!
