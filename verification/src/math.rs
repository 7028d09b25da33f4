//! Vectors and matrices of [`Scalar`]s.
use crate::scalar::{Scalar, ZERO};
use vstd::prelude::*;

verus! {

/// A vector with two components.
#[derive(Clone, Copy, Debug)]
pub struct Vec2 {
    pub x: Scalar,
    pub y: Scalar,
}

impl Vec2 {
    /// Whether the components are equal, each to each.
    pub open spec fn equals(self, other: Vec2) -> bool {
        self.x.equals(other.x) && self.y.equals(other.y)
    }

    /// The vector without length.
    pub open spec fn spec_zero() -> Vec2 {
        Vec2 { x: Scalar { bits: ZERO }, y: Scalar { bits: ZERO } }
    }

    /// The vector without length.
    pub fn zero() -> (r: Vec2)
        ensures
            r == Vec2::spec_zero(),
    {
        Vec2 { x: Scalar { bits: ZERO }, y: Scalar { bits: ZERO } }
    }

    /// The components of `self` where they are greater, and those of `other` elsewhere.
    pub open spec fn greater_of(self, other: Vec2) -> Vec2 {
        Vec2 {
            x: if other.x.below(self.x) {
                self.x
            } else {
                other.x
            },
            y: if other.y.below(self.y) {
                self.y
            } else {
                other.y
            },
        }
    }

    /// The components of `self` where they are greater, and those of `other` elsewhere.
    pub fn max(self, other: Vec2) -> (r: Vec2)
        ensures
            r == self.greater_of(other),
    {
        Vec2 {
            x: if other.x.less(self.x) {
                self.x
            } else {
                other.x
            },
            y: if other.y.less(self.y) {
                self.y
            } else {
                other.y
            },
        }
    }

    /// The components of `self` where they are less, and those of `other` elsewhere.
    pub open spec fn lesser_of(self, other: Vec2) -> Vec2 {
        Vec2 {
            x: if self.x.below(other.x) {
                self.x
            } else {
                other.x
            },
            y: if self.y.below(other.y) {
                self.y
            } else {
                other.y
            },
        }
    }

    /// The components of `self` where they are less, and those of `other` elsewhere.
    pub fn min(self, other: Vec2) -> (r: Vec2)
        ensures
            r == self.lesser_of(other),
    {
        Vec2 {
            x: if self.x.less(other.x) {
                self.x
            } else {
                other.x
            },
            y: if self.y.less(other.y) {
                self.y
            } else {
                other.y
            },
        }
    }
}

impl PartialEq for Vec2 {
    fn eq(&self, other: &Vec2) -> (r: bool) {
        self.x == other.x && self.y == other.y
    }
}

impl vstd::std_specs::cmp::PartialEqSpecImpl for Vec2 {
    open spec fn obeys_eq_spec() -> bool {
        true
    }

    open spec fn eq_spec(&self, other: &Vec2) -> bool {
        self.equals(*other)
    }
}

/// A transform of the plane: a linear map, given by its columns, and a translation.
#[derive(Clone, Copy, Debug)]
pub struct Affine2 {
    pub x_axis: Vec2,
    pub y_axis: Vec2,
    pub translation: Vec2,
}

impl Affine2 {
    /// Whether the columns are equal, each to each.
    pub open spec fn equals(self, other: Affine2) -> bool {
        &&& self.x_axis.equals(other.x_axis)
        &&& self.y_axis.equals(other.y_axis)
        &&& self.translation.equals(other.translation)
    }

    /// Replaces the transform, and says whether the new one differs. One that does not
    /// is left as it is.
    pub fn replace(&mut self, new: Affine2) -> (r: bool)
        ensures
            r == !new.equals(*old(self)),
            *final(self) == (if r {
                new
            } else {
                *old(self)
            }),
    {
        if new != *self {
            *self = new;
            true
        } else {
            false
        }
    }
}

impl PartialEq for Affine2 {
    fn eq(&self, other: &Affine2) -> (r: bool) {
        self.x_axis == other.x_axis && self.y_axis == other.y_axis && self.translation
            == other.translation
    }
}

impl vstd::std_specs::cmp::PartialEqSpecImpl for Affine2 {
    open spec fn obeys_eq_spec() -> bool {
        true
    }

    open spec fn eq_spec(&self, other: &Affine2) -> bool {
        self.equals(*other)
    }
}

/// A vector with three components.
#[derive(Clone, Copy, Debug)]
pub struct Vec3 {
    pub x: Scalar,
    pub y: Scalar,
    pub z: Scalar,
}

impl Vec3 {
    /// Whether each component is at most that of `other`.
    pub open spec fn all_at_most(self, other: Vec3) -> bool {
        &&& self.x.at_most(other.x)
        &&& self.y.at_most(other.y)
        &&& self.z.at_most(other.z)
    }

    /// Whether each component is at most that of `other`.
    pub fn all_less_or_equal(self, other: Vec3) -> (r: bool)
        ensures
            r == self.all_at_most(other),
    {
        self.x.less_or_equal(other.x) && self.y.less_or_equal(other.y) && self.z.less_or_equal(
            other.z,
        )
    }
}

/// Vectors of the plane are equal where both components are.
pub proof fn law_vec2_equality(a: Vec2, b: Vec2)
    ensures
        a.equals(b) <==> a.x.equals(b.x) && a.y.equals(b.y),
{
}

/// The greater components of two vectors are taken one by one: each is one of the two, and
/// not less than either where both are numbers.
pub proof fn law_vec2_bounds(a: Vec2, b: Vec2)
    ensures
        ({
            let r = a.greater_of(b);
            &&& r.x == (if b.x.below(a.x) { a.x } else { b.x })
            &&& r.y == (if b.y.below(a.y) { a.y } else { b.y })
            &&& a.x.ordered(b.x) ==> a.x.at_most(r.x) && b.x.at_most(r.x)
            &&& a.y.ordered(b.y) ==> a.y.at_most(r.y) && b.y.at_most(r.y)
        }),
        ({
            let r = a.lesser_of(b);
            &&& r.x == (if a.x.below(b.x) { a.x } else { b.x })
            &&& r.y == (if a.y.below(b.y) { a.y } else { b.y })
            &&& a.x.ordered(b.x) ==> r.x.at_most(a.x) && r.x.at_most(b.x)
            &&& a.y.ordered(b.y) ==> r.y.at_most(a.y) && r.y.at_most(b.y)
        }),
        Vec2::spec_zero().x.bits == 0,
        Vec2::spec_zero().y.bits == 0,
{
}

/// Transforms are equal where both axes and the translation are, along both coordinates.
pub proof fn law_affine_equality(a: Affine2, b: Affine2)
    ensures
        a.equals(b) <==> {
            &&& a.x_axis.x.equals(b.x_axis.x)
            &&& a.x_axis.y.equals(b.x_axis.y)
            &&& a.y_axis.x.equals(b.y_axis.x)
            &&& a.y_axis.y.equals(b.y_axis.y)
            &&& a.translation.x.equals(b.translation.x)
            &&& a.translation.y.equals(b.translation.y)
        },
{
}

/// A vector is at most another where it is along all three axes.
pub proof fn law_vec3_order(a: Vec3, b: Vec3)
    ensures
        a.all_at_most(b) <==> a.x.at_most(b.x) && a.y.at_most(b.y) && a.z.at_most(b.z),
{
}

/// A vector with four components.
#[derive(Clone, Copy, Debug)]
pub struct Vec4 {
    pub x: Scalar,
    pub y: Scalar,
    pub z: Scalar,
    pub w: Scalar,
}

/// A four by four matrix, by columns.
#[derive(Clone, Copy, Debug)]
pub struct Mat4 {
    pub x_axis: Vec4,
    pub y_axis: Vec4,
    pub z_axis: Vec4,
    pub w_axis: Vec4,
}

} // verus!
