//! Integer vectors for screen-space geometry.

use vstd::prelude::*;
use vstd::std_specs::ops::{AddSpecImpl, SubSpecImpl};

verus! {

/// A 2-component vector.
#[derive(Debug)]
pub struct Vec2<T> {
    pub x: T,
    pub y: T,
}

/// A 3-component vector.
#[derive(Debug)]
pub struct Vec3<T> {
    pub x: T,
    pub y: T,
    pub z: T,
}

impl<T: Copy> Clone for Vec2<T> {
    fn clone(&self) -> (v: Self)
        ensures
            v == *self,
    {
        *self
    }
}

impl<T: Copy> Copy for Vec2<T> {

}

impl<T: Copy> Clone for Vec3<T> {
    fn clone(&self) -> (v: Self)
        ensures
            v == *self,
    {
        *self
    }
}

impl<T: Copy> Copy for Vec3<T> {

}

/// `num::zero::<isize>()`, the additive identity that `num` defines for
/// `isize`: the integer 0.
#[verifier::external_body]
fn zero_isize() -> (z: isize)
    ensures
        z == 0,
{
    num::zero()
}

/// `num::zero::<i128>()`, the additive identity that `num` defines for
/// `i128`: the integer 0.
#[verifier::external_body]
fn zero_i128() -> (z: i128)
    ensures
        z == 0,
{
    num::zero()
}

impl Vec2<isize> {
    /// The zero vector.
    pub fn new() -> (v: Self)
        ensures
            v.x == 0,
            v.y == 0,
    {
        Vec2 { x: zero_isize(), y: zero_isize() }
    }

    /// The vector with the given components.
    pub fn from(x: isize, y: isize) -> (v: Self)
        ensures
            v.x == x,
            v.y == y,
    {
        Vec2 { x, y }
    }

    /// The vector whose components are the first two elements of `slice`.
    pub fn from_slice(slice: &[isize]) -> (v: Self)
        requires
            slice@.len() >= 2,
        ensures
            v.x == slice@[0],
            v.y == slice@[1],
    {
        Vec2 { x: slice[0], y: slice[1] }
    }
}

impl core::ops::Sub for Vec2<isize> {
    type Output = Self;

    fn sub(self, rhs: Self) -> (v: Self) {
        Vec2 { x: self.x - rhs.x, y: self.y - rhs.y }
    }
}

impl SubSpecImpl for Vec2<isize> {
    open spec fn obeys_sub_spec() -> bool {
        true
    }

    open spec fn sub_req(self, rhs: Self) -> bool {
        &&& isize::MIN <= self.x - rhs.x <= isize::MAX
        &&& isize::MIN <= self.y - rhs.y <= isize::MAX
    }

    open spec fn sub_spec(self, rhs: Self) -> Self {
        Vec2 { x: (self.x - rhs.x) as isize, y: (self.y - rhs.y) as isize }
    }
}

impl core::ops::Add for Vec2<isize> {
    type Output = Self;

    fn add(self, rhs: Self) -> (v: Self) {
        Vec2 { x: self.x + rhs.x, y: self.y + rhs.y }
    }
}

impl AddSpecImpl for Vec2<isize> {
    open spec fn obeys_add_spec() -> bool {
        true
    }

    open spec fn add_req(self, rhs: Self) -> bool {
        &&& isize::MIN <= self.x + rhs.x <= isize::MAX
        &&& isize::MIN <= self.y + rhs.y <= isize::MAX
    }

    open spec fn add_spec(self, rhs: Self) -> Self {
        Vec2 { x: (self.x + rhs.x) as isize, y: (self.y + rhs.y) as isize }
    }
}

impl Vec3<i128> {
    /// The zero vector.
    pub fn new() -> (v: Self)
        ensures
            v.x == 0,
            v.y == 0,
            v.z == 0,
    {
        Vec3 { x: zero_i128(), y: zero_i128(), z: zero_i128() }
    }

    /// The vector with the given components.
    pub fn from(x: i128, y: i128, z: i128) -> (v: Self)
        ensures
            v.x == x,
            v.y == y,
            v.z == z,
    {
        Vec3 { x, y, z }
    }

    /// The vector whose components are the first three elements of `slice`.
    pub fn from_slice(slice: &[i128]) -> (v: Self)
        requires
            slice@.len() >= 3,
        ensures
            v.x == slice@[0],
            v.y == slice@[1],
            v.z == slice@[2],
    {
        Vec3 { x: slice[0], y: slice[1], z: slice[2] }
    }

    /// The components of the cross product `self × other`.
    pub open spec fn spec_cross(self, other: Self) -> (int, int, int) {
        (
            self.y * other.z - self.z * other.y,
            self.z * other.x - self.x * other.z,
            self.x * other.y - self.y * other.x,
        )
    }

    /// Whether the cross product `self × other` can be computed in `i128`:
    /// the six products and their three differences fit.
    pub open spec fn cross_fits(self, other: Self) -> bool {
        &&& fits_i128(self.y * other.z)
        &&& fits_i128(self.z * other.y)
        &&& fits_i128(self.z * other.x)
        &&& fits_i128(self.x * other.z)
        &&& fits_i128(self.x * other.y)
        &&& fits_i128(self.y * other.x)
        &&& fits_i128(self.spec_cross(other).0)
        &&& fits_i128(self.spec_cross(other).1)
        &&& fits_i128(self.spec_cross(other).2)
    }

    /// The cross product `self × other`.
    pub fn cross_product(&self, other: Self) -> (v: Self)
        requires
            self.cross_fits(other),
        ensures
            (v.x as int, v.y as int, v.z as int) == self.spec_cross(other),
    {
        Vec3 {
            x: self.y * other.z - self.z * other.y,
            y: self.z * other.x - self.x * other.z,
            z: self.x * other.y - self.y * other.x,
        }
    }
}

/// Whether `v` is a value of `i128`.
pub open spec fn fits_i128(v: int) -> bool {
    i128::MIN <= v <= i128::MAX
}

impl core::ops::Sub for Vec3<i128> {
    type Output = Self;

    fn sub(self, rhs: Self) -> (v: Self) {
        Vec3 { x: self.x - rhs.x, y: self.y - rhs.y, z: self.z - rhs.z }
    }
}

impl SubSpecImpl for Vec3<i128> {
    open spec fn obeys_sub_spec() -> bool {
        true
    }

    open spec fn sub_req(self, rhs: Self) -> bool {
        &&& i128::MIN <= self.x - rhs.x <= i128::MAX
        &&& i128::MIN <= self.y - rhs.y <= i128::MAX
        &&& i128::MIN <= self.z - rhs.z <= i128::MAX
    }

    open spec fn sub_spec(self, rhs: Self) -> Self {
        Vec3 {
            x: (self.x - rhs.x) as i128,
            y: (self.y - rhs.y) as i128,
            z: (self.z - rhs.z) as i128,
        }
    }
}

} // verus!
