//! Points, vectors and matrices, by their components.
use crate::scalar::Scalar;
use vstd::prelude::*;

verus! {

#[derive(Clone, Copy, PartialEq, Eq, Debug, Structural)]
pub struct Vec2 {
    pub x: Scalar,
    pub y: Scalar,
}

#[derive(Clone, Copy, PartialEq, Eq, Debug, Structural)]
pub struct Vec3 {
    pub x: Scalar,
    pub y: Scalar,
    pub z: Scalar,
}

#[derive(Clone, Copy, PartialEq, Eq, Debug, Structural)]
pub struct Vec4 {
    pub x: Scalar,
    pub y: Scalar,
    pub z: Scalar,
    pub w: Scalar,
}

/// An affine transform, by its columns: the last one holds the translation.
#[derive(Clone, Copy, PartialEq, Eq, Debug, Structural)]
pub struct Mat4 {
    pub x_axis: Vec4,
    pub y_axis: Vec4,
    pub z_axis: Vec4,
    pub w_axis: Vec4,
}

impl Mat4 {
    /// The point that the transform moves the origin to.
    pub open spec fn moves_origin_to(self) -> Vec3 {
        Vec3 { x: self.w_axis.x, y: self.w_axis.y, z: self.w_axis.z }
    }

    pub fn translation(&self) -> (p: Vec3)
        ensures
            p == self.moves_origin_to(),
    {
        Vec3 { x: self.w_axis.x, y: self.w_axis.y, z: self.w_axis.z }
    }
}

} // verus!
