use vstd::prelude::*;
use crate::vector3::{Vector3, COORD_LIMIT, dot3, cross3, sub3, scale3, lemma_dot_bound, lemma_mul_bound};

verus! {

/// A ray on the integer lattice: the points `origin + t * direction` for `t >= 0`.
/// The direction is not normalised; distances along the ray are measured in
/// multiples of it.
#[derive(Clone, Copy, Debug, PartialEq, Eq, Structural)]
pub struct Ray {
    pub origin: Vector3,
    pub direction: Vector3,
}

impl Ray {
    pub open spec fn wf(&self) -> bool {
        self.origin.bounded(COORD_LIMIT as int) && self.direction.bounded(COORD_LIMIT as int)
    }

    pub fn new(origin: Vector3, direction: Vector3) -> (r: Ray)
        ensures
            r.origin == origin,
            r.direction == direction,
    {
        Ray { origin, direction }
    }

    pub fn get_origin(&self) -> (r: &Vector3)
        ensures
            *r == self.origin,
    {
        &self.origin
    }

    pub fn get_direction(&self) -> (r: &Vector3)
        ensures
            *r == self.direction,
    {
        &self.direction
    }
}

/// The mirror image of direction `d` about the plane with normal `n`, scaled
/// by `|n|^2` so that it stays on the lattice: `|n|^2 d - 2 (d . n) n`.
pub open spec fn reflect_of(d: (int, int, int), n: (int, int, int)) -> (int, int, int) {
    sub3(scale3(d, dot3(n, n)), scale3(n, 2 * dot3(d, n)))
}

/// `(k d - 2 m n) . n == k (d . n) - 2 m (n . n)`, and the same for the
/// vector product with `n`.
proof fn lemma_combination_with_normal(d: (int, int, int), n: (int, int, int), k: int, m: int)
    ensures
        dot3(sub3(scale3(d, k), scale3(n, 2 * m)), n) == k * dot3(d, n) - 2 * m * dot3(n, n),
        cross3(sub3(scale3(d, k), scale3(n, 2 * m)), n) == scale3(cross3(d, n), k),
{
    let r = sub3(scale3(d, k), scale3(n, 2 * m));
    assert(r.0 * n.0 == k * (d.0 * n.0) - 2 * m * (n.0 * n.0)) by (nonlinear_arith)
        requires r.0 == d.0 * k - n.0 * (2 * m);
    assert(r.1 * n.1 == k * (d.1 * n.1) - 2 * m * (n.1 * n.1)) by (nonlinear_arith)
        requires r.1 == d.1 * k - n.1 * (2 * m);
    assert(r.2 * n.2 == k * (d.2 * n.2) - 2 * m * (n.2 * n.2)) by (nonlinear_arith)
        requires r.2 == d.2 * k - n.2 * (2 * m);
    assert(k * dot3(d, n) == k * (d.0 * n.0) + k * (d.1 * n.1) + k * (d.2 * n.2)) by (nonlinear_arith);
    assert(2 * m * dot3(n, n) == 2 * m * (n.0 * n.0) + 2 * m * (n.1 * n.1) + 2 * m * (n.2 * n.2))
        by (nonlinear_arith);
    assert(r.1 * n.2 - r.2 * n.1 == (d.1 * n.2 - d.2 * n.1) * k) by (nonlinear_arith)
        requires r == sub3(scale3(d, k), scale3(n, 2 * m));
    assert(r.2 * n.0 - r.0 * n.2 == (d.2 * n.0 - d.0 * n.2) * k) by (nonlinear_arith)
        requires r == sub3(scale3(d, k), scale3(n, 2 * m));
    assert(r.0 * n.1 - r.1 * n.0 == (d.0 * n.1 - d.1 * n.0) * k) by (nonlinear_arith)
        requires r == sub3(scale3(d, k), scale3(n, 2 * m));
}

/// The law of reflection: the reflected direction meets the normal at the
/// opposite angle (`r . n == -(d . n)`) in the same plane (`r x n == d x n`),
/// both up to the common factor `|n|^2`.
pub proof fn lemma_reflection_law(d: (int, int, int), n: (int, int, int))
    ensures
        dot3(reflect_of(d, n), n) == -(dot3(d, n) * dot3(n, n)),
        cross3(reflect_of(d, n), n) == scale3(cross3(d, n), dot3(n, n)),
{
    lemma_combination_with_normal(d, n, dot3(n, n), dot3(d, n));
    assert(dot3(n, n) * dot3(d, n) - 2 * dot3(d, n) * dot3(n, n) == -(dot3(d, n) * dot3(n, n)))
        by (nonlinear_arith);
}

impl Ray {
    /// The direction of the ray mirrored at a surface with normal `normal`,
    /// scaled by `|normal|^2`.
    pub fn calculate_reflected_direction(&self, normal: &Vector3) -> (r: (i128, i128, i128))
        requires
            self.wf(),
            normal.bounded(COORD_LIMIT as int),
        ensures
            (r.0 as int, r.1 as int, r.2 as int) == reflect_of(self.direction@, normal@),
    {
        let l: i128 = COORD_LIMIT as i128;
        let ghost lg: int = COORD_LIMIT as int;
        proof {
            lemma_dot_bound(normal@, normal@, lg, lg);
            lemma_dot_bound(self.direction@, normal@, lg, lg);
        }
        let k = normal.dot(normal);
        let m = self.direction.dot(normal);
        let d = self.direction;
        proof {
            lemma_mul_bound(d.x as int, k as int, lg, 3 * lg * lg);
            lemma_mul_bound(d.y as int, k as int, lg, 3 * lg * lg);
            lemma_mul_bound(d.z as int, k as int, lg, 3 * lg * lg);
            lemma_mul_bound(normal.x as int, 2 * m, lg, 6 * lg * lg);
            lemma_mul_bound(normal.y as int, 2 * m, lg, 6 * lg * lg);
            lemma_mul_bound(normal.z as int, 2 * m, lg, 6 * lg * lg);
        }
        (
            d.x as i128 * k - normal.x as i128 * (2 * m),
            d.y as i128 * k - normal.y as i128 * (2 * m),
            d.z as i128 * k - normal.z as i128 * (2 * m),
        )
    }
}

} // verus!
