use vstd::prelude::*;
use crate::fraction::Fraction;
use crate::ray::Ray;
use crate::vector3::Vector3;

verus! {

/// Where a ray meets a mesh triangle.
///
/// With `den = distance.den`, the hit point is
/// `origin + direction * distance.num / den`, and also
/// `((den - beta - gamma) * a + beta * b + gamma * c) / den` for the triangle
/// `(a, b, c)`: `beta / den` and `gamma / den` are its barycentric weights.
#[derive(Clone, Copy, Debug, PartialEq, Eq, Structural)]
pub struct Intersection {
    pub distance: Fraction,
    pub beta: i128,
    pub gamma: i128,
    /// The geometric normal `(b - a) x (c - a)`, not normalised.
    pub normal: Vector3,
    /// True iff the ray arrives from the side the normal points to.
    pub exterior: bool,
    /// Position of the triangle in the mesh's current triangle order.
    pub triangle_index: usize,
    pub source_ray: Ray,
}

impl Intersection {
    pub fn get_distance(&self) -> (r: Fraction)
        ensures
            r == self.distance,
    {
        self.distance
    }

    pub fn get_normal(&self) -> (r: &Vector3)
        ensures
            *r == self.normal,
    {
        &self.normal
    }

    pub fn is_exterior(&self) -> (r: bool)
        ensures
            r == self.exterior,
    {
        self.exterior
    }

    pub fn get_source_ray(&self) -> (r: &Ray)
        ensures
            *r == self.source_ray,
    {
        &self.source_ray
    }

    pub fn get_triangle_index(&self) -> (r: usize)
        ensures
            r == self.triangle_index,
    {
        self.triangle_index
    }
}

} // verus!
