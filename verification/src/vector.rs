//! Triples of binary32 numbers.

use vstd::prelude::*;
use crate::scalar::Scalar;

verus! {

/// A point or a direction in space.
#[derive(Clone, Copy, PartialEq, Eq, Structural, Debug)]
pub struct Vector3 {
    pub x: Scalar,
    pub y: Scalar,
    pub z: Scalar,
}

impl Vector3 {
    /// The component on axis 0, 1 or 2.
    pub open spec fn component(self, axis: int) -> Scalar {
        if axis == 0 {
            self.x
        } else if axis == 1 {
            self.y
        } else {
            self.z
        }
    }

    /// The difference, component by component.
    pub open spec fn difference(self, other: Vector3) -> Vector3 {
        Vector3 {
            x: self.x.difference(other.x),
            y: self.y.difference(other.y),
            z: self.z.difference(other.z),
        }
    }

    /// The cross product, each component a difference of two rounded
    /// products.
    pub open spec fn cross_product(self, other: Vector3) -> Vector3 {
        Vector3 {
            x: self.y.product(other.z).difference(other.y.product(self.z)),
            y: self.z.product(other.x).difference(other.z.product(self.x)),
            z: self.x.product(other.y).difference(other.x.product(self.y)),
        }
    }

    /// The dot product, the three rounded products summed from the first.
    pub open spec fn dot_product(self, other: Vector3) -> Scalar {
        self.x.product(other.x).sum(self.y.product(other.y)).sum(self.z.product(other.z))
    }

    /// The magnitudes of the components.
    pub open spec fn magnitude(self) -> Vector3 {
        Vector3 { x: self.x.magnitude(), y: self.y.magnitude(), z: self.z.magnitude() }
    }

    pub fn new(x: Scalar, y: Scalar, z: Scalar) -> (r: Vector3)
        ensures
            r == (Vector3 { x, y, z }),
    {
        Vector3 { x, y, z }
    }

    /// The vector of three bit patterns.
    pub fn from_bits(x: u32, y: u32, z: u32) -> (r: Vector3)
        ensures
            r.x.bits == x,
            r.y.bits == y,
            r.z.bits == z,
    {
        Vector3 { x: Scalar::from_bits(x), y: Scalar::from_bits(y), z: Scalar::from_bits(z) }
    }

    pub fn get(&self, axis: usize) -> (r: Scalar)
        requires
            axis < 3,
        ensures
            r == self.component(axis as int),
    {
        if axis == 0 {
            self.x
        } else if axis == 1 {
            self.y
        } else {
            self.z
        }
    }

    pub fn minus(self, other: Vector3) -> (r: Vector3)
        ensures
            r == self.difference(other),
    {
        Vector3 {
            x: self.x.minus(other.x),
            y: self.y.minus(other.y),
            z: self.z.minus(other.z),
        }
    }

    pub fn cross(self, other: Vector3) -> (r: Vector3)
        ensures
            r == self.cross_product(other),
    {
        Vector3 {
            x: self.y.times(other.z).minus(other.y.times(self.z)),
            y: self.z.times(other.x).minus(other.z.times(self.x)),
            z: self.x.times(other.y).minus(other.x.times(self.y)),
        }
    }

    pub fn dot(self, other: Vector3) -> (r: Scalar)
        ensures
            r == self.dot_product(other),
    {
        self.x.times(other.x).plus(self.y.times(other.y)).plus(self.z.times(other.z))
    }

    pub fn abs(self) -> (r: Vector3)
        ensures
            r == self.magnitude(),
    {
        Vector3 { x: self.x.abs(), y: self.y.abs(), z: self.z.abs() }
    }
}

} // verus!
