use vstd::prelude::*;
use crate::fraction::{Fraction, lemma_frac_lt_le_trans};
use crate::intersection::Intersection;
use crate::ray::Ray;
use crate::matrix::{Matrix, ENTRY_LIMIT};
use vstd::arithmetic::mul::{
    lemma_mul_is_associative, lemma_mul_is_commutative, lemma_mul_is_distributive_add,
};
use crate::vector3::{
    Vector3, COORD_LIMIT, within, bounded3, add3, sub3, scale3, dot3, cross3, lemma_dot_bound,
    lemma_cross_bound,
};

verus! {

/// Indices of one triangle's corners into the vertex, normal and uv arrays.
#[derive(Clone, Copy, Debug)]
pub struct TriangleIndices {
    pub vertex_indices: (usize, usize, usize),
    pub normal_indices: (usize, usize, usize),
    pub uv_indices: (usize, usize, usize),
}

impl TriangleIndices {
    pub fn new(
        vertex_indices: (usize, usize, usize),
        normal_indices: (usize, usize, usize),
        uv_indices: (usize, usize, usize),
    ) -> (r: TriangleIndices)
        ensures
            r.vertex_indices == vertex_indices,
            r.normal_indices == normal_indices,
            r.uv_indices == uv_indices,
    {
        TriangleIndices { vertex_indices, normal_indices, uv_indices }
    }

    pub fn get_vertex_indices(&self) -> (r: (usize, usize, usize))
        ensures
            r == self.vertex_indices,
    {
        self.vertex_indices
    }

    pub fn get_normal_indices(&self) -> (r: (usize, usize, usize))
        ensures
            r == self.normal_indices,
    {
        self.normal_indices
    }

    pub fn get_uv_indices(&self) -> (r: (usize, usize, usize))
        ensures
            r == self.uv_indices,
    {
        self.uv_indices
    }
}

/// Each of the three indices of `t` is below `n`.
pub open spec fn indices_below(t: (usize, usize, usize), n: int) -> bool {
    t.0 < n && t.1 < n && t.2 < n
}

/// The exact ray/triangle test.
///
/// With `e1 = b - a`, `e2 = c - a`, `n = e1 x e2`, `d = u . n`, `ao = a - o`
/// and `q = ao x u`, the ray `o + t u` meets the plane of the triangle at
/// `t = (ao . n) / d`, at barycentric weights `beta = (e2 . q) / d` and
/// `gamma = -(e1 . q) / d`. The result is `(t_num, den, beta_num, gamma_num)`
/// over the common positive denominator `den = |d|`, present iff the ray is not
/// parallel to the plane, the weights lie in the triangle and `t > 0`.
pub open spec fn triangle_test(
    a: (int, int, int),
    b: (int, int, int),
    c: (int, int, int),
    o: (int, int, int),
    u: (int, int, int),
) -> Option<(int, int, int, int)> {
    let e1 = sub3(b, a);
    let e2 = sub3(c, a);
    let n = cross3(e1, e2);
    let d = dot3(u, n);
    let ao = sub3(a, o);
    let q = cross3(ao, u);
    let bn = dot3(e2, q);
    let gn = -dot3(e1, q);
    let tn = dot3(ao, n);
    let (t, den, beta, gamma) = if d < 0 {
        (-tn, -d, -bn, -gn)
    } else {
        (tn, d, bn, gn)
    };
    if d != 0 && beta >= 0 && gamma >= 0 && beta + gamma <= den && t > 0 {
        Some((t, den, beta, gamma))
    } else {
        None
    }
}

pub open spec fn triangle_in_range(t: TriangleIndices, nv: int, nn: int, nu: int) -> bool {
    &&& indices_below(t.vertex_indices, nv)
    &&& indices_below(t.normal_indices, nn)
    &&& indices_below(t.uv_indices, nu)
}

/// The arrays of a well-formed mesh: coordinates within the lattice bounds and
/// every triangle index in range.
pub open spec fn parts_wf(
    vertices: Seq<Vector3>,
    normals: Seq<Vector3>,
    n_uvs: int,
    triangles: Seq<TriangleIndices>,
) -> bool {
    &&& forall|i: int|
        0 <= i < vertices.len() ==> #[trigger] vertices[i].bounded(COORD_LIMIT as int)
    &&& forall|i: int| 0 <= i < normals.len() ==> #[trigger] normals[i].bounded(COORD_LIMIT as int)
    &&& forall|k: int|
        0 <= k < triangles.len() ==> triangle_in_range(
            #[trigger] triangles[k],
            vertices.len() as int,
            normals.len() as int,
            n_uvs,
        )
}

/// `x (p + q + r) == x p + x q + x r`.
pub proof fn lemma_distribute3(x: int, p: int, q: int, r: int)
    ensures
        x * (p + q + r) == x * p + x * q + x * r,
{
    lemma_mul_is_distributive_add(x, p + q, r);
    lemma_mul_is_distributive_add(x, p, q);
}

/// First coordinate of `a x (b x c) == b (a . c) - c (a . b)`.
proof fn lemma_triple_product_x(
    a0: int,
    a1: int,
    a2: int,
    b0: int,
    b1: int,
    b2: int,
    c0: int,
    c1: int,
    c2: int,
)
    ensures
        a1 * (b0 * c1 - b1 * c0) - a2 * (b2 * c0 - b0 * c2) == b0 * (a0 * c0 + a1 * c1 + a2 * c2)
            - c0 * (a0 * b0 + a1 * b1 + a2 * b2),
{
    assert(a1 * (b0 * c1 - b1 * c0) == a1 * b0 * c1 - a1 * b1 * c0) by (nonlinear_arith);
    assert(a2 * (b2 * c0 - b0 * c2) == a2 * b2 * c0 - a2 * b0 * c2) by (nonlinear_arith);
    lemma_distribute3(b0, a0 * c0, a1 * c1, a2 * c2);
    lemma_distribute3(c0, a0 * b0, a1 * b1, a2 * b2);
    lemma_mul_is_associative(b0, a0, c0);
    lemma_mul_is_associative(b0, a1, c1);
    lemma_mul_is_associative(b0, a2, c2);
    lemma_mul_is_associative(c0, a0, b0);
    lemma_mul_is_associative(c0, a1, b1);
    lemma_mul_is_associative(c0, a2, b2);
    assert(b0 * a0 * c0 == c0 * a0 * b0) by (nonlinear_arith);
    assert(b0 * a1 * c1 == a1 * b0 * c1) by (nonlinear_arith);
    assert(b0 * a2 * c2 == a2 * b0 * c2) by (nonlinear_arith);
    assert(c0 * a1 * b1 == a1 * b1 * c0) by (nonlinear_arith);
    assert(c0 * a2 * b2 == a2 * b2 * c0) by (nonlinear_arith);
}

/// `a x (b x c) == b (a . c) - c (a . b)`.
pub proof fn lemma_triple_product_expansion(a: (int, int, int), b: (int, int, int), c: (int, int, int))
    ensures
        cross3(a, cross3(b, c)) == sub3(scale3(b, dot3(a, c)), scale3(c, dot3(a, b))),
{
    lemma_triple_product_x(a.0, a.1, a.2, b.0, b.1, b.2, c.0, c.1, c.2);
    lemma_triple_product_x(a.1, a.2, a.0, b.1, b.2, b.0, c.1, c.2, c.0);
    lemma_triple_product_x(a.2, a.0, a.1, b.2, b.0, b.1, c.2, c.0, c.1);
    assert(dot3(a, c) == a.1 * c.1 + a.2 * c.2 + a.0 * c.0);
    assert(dot3(a, b) == a.1 * b.1 + a.2 * b.2 + a.0 * b.0);
}

proof fn lemma_dot_commutes(x: (int, int, int), y: (int, int, int))
    ensures
        dot3(x, y) == dot3(y, x),
{
    lemma_mul_is_commutative(x.0, y.0);
    lemma_mul_is_commutative(x.1, y.1);
    lemma_mul_is_commutative(x.2, y.2);
}

proof fn lemma_cross_anticommutes(x: (int, int, int), y: (int, int, int))
    ensures
        cross3(x, y) == scale3(cross3(y, x), -1),
{
    lemma_mul_is_commutative(x.0, y.1);
    lemma_mul_is_commutative(x.0, y.2);
    lemma_mul_is_commutative(x.1, y.0);
    lemma_mul_is_commutative(x.1, y.2);
    lemma_mul_is_commutative(x.2, y.0);
    lemma_mul_is_commutative(x.2, y.1);
}

/// One coordinate of the hit point, from one coordinate of Cramer's rule.
proof fn lemma_combination(
    a: int,
    b: int,
    c: int,
    o: int,
    u: int,
    d: int,
    tn: int,
    bn: int,
    gn: int,
    t: int,
    den: int,
    beta: int,
    gamma: int,
)
    requires
        (a - o) * d - u * tn == -((b - a) * bn - (c - a) * -gn),
        (d < 0 && t == -tn && den == -d && beta == -bn && gamma == -gn) || (d >= 0 && t == tn
            && den == d && beta == bn && gamma == gn),
    ensures
        o * den + u * t == a * (den - beta - gamma) + b * beta + c * gamma,
{
    assert((a - o) * d == a * d - o * d) by (nonlinear_arith);
    assert((b - a) * bn == b * bn - a * bn) by (nonlinear_arith);
    assert((c - a) * -gn == a * gn - c * gn) by (nonlinear_arith);
    if d < 0 {
        assert(o * den == -(o * d)) by (nonlinear_arith)
            requires
                den == -d,
        ;
        assert(u * t == -(u * tn)) by (nonlinear_arith)
            requires
                t == -tn,
        ;
        assert(a * (den - beta - gamma) == -(a * d) + a * bn + a * gn) by (nonlinear_arith)
            requires
                den == -d,
                beta == -bn,
                gamma == -gn,
        ;
        assert(b * beta == -(b * bn)) by (nonlinear_arith)
            requires
                beta == -bn,
        ;
        assert(c * gamma == -(c * gn)) by (nonlinear_arith)
            requires
                gamma == -gn,
        ;
    } else {
        assert(a * (den - beta - gamma) == a * d - a * bn - a * gn) by (nonlinear_arith)
            requires
                den == d,
                beta == bn,
                gamma == gn,
        ;
    }
}

/// On a hit, the point reached along the ray is the point of the triangle
/// with the hit's barycentric weights: `den * o + t * u` equals
/// `(den - beta - gamma) * a + beta * b + gamma * c`.
pub proof fn lemma_hit_point_on_triangle(
    a: (int, int, int),
    b: (int, int, int),
    c: (int, int, int),
    o: (int, int, int),
    u: (int, int, int),
)
    requires
        triangle_test(a, b, c, o, u) is Some,
    ensures
        ({
            let (t, den, beta, gamma) = triangle_test(a, b, c, o, u).unwrap();
            add3(scale3(o, den), scale3(u, t)) == add3(
                add3(scale3(a, den - beta - gamma), scale3(b, beta)),
                scale3(c, gamma),
            )
        }),
{
    let e1 = sub3(b, a);
    let e2 = sub3(c, a);
    let n = cross3(e1, e2);
    let d = dot3(u, n);
    let ao = sub3(a, o);
    let q = cross3(ao, u);
    let bn = dot3(e2, q);
    let gn = -dot3(e1, q);
    let tn = dot3(ao, n);
    // n x (ao x u) == -(q x (e1 x e2)), expanded on both sides.
    lemma_triple_product_expansion(n, ao, u);
    lemma_triple_product_expansion(q, e1, e2);
    lemma_cross_anticommutes(n, q);
    lemma_dot_commutes(n, u);
    lemma_dot_commutes(n, ao);
    lemma_dot_commutes(q, e2);
    lemma_dot_commutes(q, e1);
    let (t, den, beta, gamma) = triangle_test(a, b, c, o, u).unwrap();
    lemma_combination(a.0, b.0, c.0, o.0, u.0, d, tn, bn, gn, t, den, beta, gamma);
    lemma_combination(a.1, b.1, c.1, o.1, u.1, d, tn, bn, gn, t, den, beta, gamma);
    lemma_combination(a.2, b.2, c.2, o.2, u.2, d, tn, bn, gn, t, den, beta, gamma);
}

/// A triangle soup: corner positions, per-vertex normals, uv coordinates
/// and triangles that index into the three arrays.
#[derive(Clone, Debug)]
pub struct Mesh {
    pub vertices: Vec<Vector3>,
    pub normals: Vec<Vector3>,
    pub uvs: Vec<Vector3>,
    pub triangles: Vec<TriangleIndices>,
}

impl Mesh {
    /// Every index is in range and every vertex lies within the lattice bounds.
    pub open spec fn wf(&self) -> bool {
        parts_wf(self.vertices@, self.normals@, self.uvs@.len() as int, self.triangles@)
    }

    pub open spec fn triangle_ok(&self, t: TriangleIndices) -> bool {
        triangle_in_range(
            t,
            self.vertices@.len() as int,
            self.normals@.len() as int,
            self.uvs@.len() as int,
        )
    }

    /// The three corners of triangle `k` in the current order.
    pub open spec fn corners(&self, k: int) -> ((int, int, int), (int, int, int), (int, int, int)) {
        let t = self.triangles@[k].vertex_indices;
        (self.vertices@[t.0 as int]@, self.vertices@[t.1 as int]@, self.vertices@[t.2 as int]@)
    }

    /// The exact test of `ray` against triangle `k`.
    pub open spec fn hit_at(&self, ray: Ray, k: int) -> Option<(int, int, int, int)> {
        let (a, b, c) = self.corners(k);
        triangle_test(a, b, c, ray.origin@, ray.direction@)
    }

    /// `h` is the record of `ray` meeting triangle `k`.
    pub open spec fn is_hit_record(&self, ray: Ray, k: int, h: Intersection) -> bool {
        let (a, b, c) = self.corners(k);
        let d = dot3(ray.direction@, cross3(sub3(b, a), sub3(c, a)));
        &&& self.hit_at(ray, k) == Some(
            (h.distance.num as int, h.distance.den as int, h.beta as int, h.gamma as int),
        )
        &&& h.triangle_index == k
        &&& h.normal@ == cross3(sub3(b, a), sub3(c, a))
        &&& h.exterior == (d < 0)
        &&& h.source_ray == ray
        &&& h.distance.wf()
    }

    /// `h` is the closest hit of `ray` among triangles `start..end`; among
    /// equally close ones, the first.
    pub open spec fn is_closest_hit(&self, ray: Ray, start: int, end: int, h: Intersection) -> bool {
        &&& start <= h.triangle_index < end
        &&& self.is_hit_record(ray, h.triangle_index as int, h)
        &&& forall|k: int|
            start <= k < end && #[trigger] self.hit_at(ray, k) is Some ==> h.distance.num
                * self.hit_at(ray, k).unwrap().1 <= self.hit_at(ray, k).unwrap().0 * h.distance.den
        &&& forall|k: int|
            start <= k < h.triangle_index && #[trigger] self.hit_at(ray, k) is Some
                ==> h.distance.num * self.hit_at(ray, k).unwrap().1 < self.hit_at(
                ray,
                k,
            ).unwrap().0 * h.distance.den
    }

    /// An intersection record is consistent: its distance is positive, its
    /// barycentric weights lie in the triangle, and the point it reaches along
    /// the ray is the point of the triangle with those weights.
    pub proof fn lemma_intersection_consistent(&self, ray: Ray, k: int, h: Intersection)
        requires
            self.is_hit_record(ray, k, h),
        ensures
            h.distance.num > 0,
            h.distance.den > 0,
            h.beta >= 0,
            h.gamma >= 0,
            h.beta + h.gamma <= h.distance.den,
            ({
                let (a, b, c) = self.corners(k);
                let (t, den) = (h.distance.num as int, h.distance.den as int);
                add3(scale3(ray.origin@, den), scale3(ray.direction@, t)) == add3(
                    add3(scale3(a, den - h.beta - h.gamma), scale3(b, h.beta as int)),
                    scale3(c, h.gamma as int),
                )
            }),
    {
        let (a, b, c) = self.corners(k);
        lemma_hit_point_on_triangle(a, b, c, ray.origin@, ray.direction@);
    }

    pub fn new(
        vertices: Vec<Vector3>,
        normals: Vec<Vector3>,
        uvs: Vec<Vector3>,
        triangles: Vec<TriangleIndices>,
    ) -> (r: Option<Mesh>)
        ensures
            r matches Some(m) ==> m.wf() && m.vertices == vertices && m.normals == normals
                && m.uvs == uvs && m.triangles == triangles,
            r is None ==> !parts_wf(vertices@, normals@, uvs@.len() as int, triangles@),
    {
        let mut i: usize = 0;
        while i < vertices.len()
            invariant
                i <= vertices@.len(),
                forall|j: int| 0 <= j < i ==> #[trigger] vertices@[j].bounded(COORD_LIMIT as int),
            decreases vertices@.len() - i,
        {
            let v = vertices[i];
            if v.x < -COORD_LIMIT || v.x > COORD_LIMIT || v.y < -COORD_LIMIT || v.y > COORD_LIMIT
                || v.z < -COORD_LIMIT || v.z > COORD_LIMIT {
                assert(!vertices@[i as int].bounded(COORD_LIMIT as int));
                return None;
            }
            i += 1;
        }
        let mut i: usize = 0;
        while i < normals.len()
            invariant
                i <= normals@.len(),
                forall|j: int| 0 <= j < i ==> #[trigger] normals@[j].bounded(COORD_LIMIT as int),
            decreases normals@.len() - i,
        {
            let v = normals[i];
            if v.x < -COORD_LIMIT || v.x > COORD_LIMIT || v.y < -COORD_LIMIT || v.y > COORD_LIMIT
                || v.z < -COORD_LIMIT || v.z > COORD_LIMIT {
                assert(!normals@[i as int].bounded(COORD_LIMIT as int));
                return None;
            }
            i += 1;
        }
        let nv = vertices.len();
        let nn = normals.len();
        let nu = uvs.len();
        let mut k: usize = 0;
        while k < triangles.len()
            invariant
                k <= triangles@.len(),
                nv == vertices@.len(),
                nn == normals@.len(),
                nu == uvs@.len(),
                forall|j: int|
                    0 <= j < k ==> triangle_in_range(
                        #[trigger] triangles@[j],
                        nv as int,
                        nn as int,
                        nu as int,
                    ),
            decreases triangles@.len() - k,
        {
            let t = triangles[k];
            let v = t.vertex_indices;
            let n = t.normal_indices;
            let u = t.uv_indices;
            if v.0 >= nv || v.1 >= nv || v.2 >= nv || n.0 >= nn || n.1 >= nn || n.2 >= nn || u.0
                >= nu || u.1 >= nu || u.2 >= nu {
                assert(!triangle_in_range(triangles@[k as int], nv as int, nn as int, nu as int));
                return None;
            }
            k += 1;
        }
        Some(Mesh { vertices, normals, uvs, triangles })
    }

    pub fn get_vertices(&self) -> (r: &Vec<Vector3>)
        ensures
            r == &self.vertices,
    {
        &self.vertices
    }

    pub fn get_normals(&self) -> (r: &Vec<Vector3>)
        ensures
            r == &self.normals,
    {
        &self.normals
    }

    pub fn get_uvs(&self) -> (r: &Vec<Vector3>)
        ensures
            r == &self.uvs,
    {
        &self.uvs
    }

    pub fn get_triangles(&self) -> (r: &Vec<TriangleIndices>)
        ensures
            r == &self.triangles,
    {
        &self.triangles
    }

    pub fn get_triangle(&self, index: usize) -> (r: &TriangleIndices)
        requires
            index < self.triangles@.len(),
        ensures
            *r == self.triangles@[index as int],
    {
        &self.triangles[index]
    }

    /// Exchanges triangles `i` and `j`; nothing else changes.
    pub fn swap_triangles(&mut self, i: usize, j: usize)
        requires
            i < old(self).triangles@.len(),
            j < old(self).triangles@.len(),
        ensures
            final(self).triangles@ == old(self).triangles@.update(
                i as int,
                old(self).triangles@[j as int],
            ).update(j as int, old(self).triangles@[i as int]),
            final(self).vertices == old(self).vertices,
            final(self).normals == old(self).normals,
            final(self).uvs == old(self).uvs,
    {
        let ti = self.triangles[i];
        let tj = self.triangles[j];
        self.triangles.set(i, tj);
        self.triangles.set(j, ti);
    }

    /// Three times the centroid of a triangle, `a + b + c`, which stays exact on
    /// the lattice.
    pub fn calculate_triangle_center(&self, triangle: &TriangleIndices) -> (r: Vector3)
        requires
            self.wf(),
            self.triangle_ok(*triangle),
        ensures
            r@ == add3(
                add3(
                    self.vertices@[triangle.vertex_indices.0 as int]@,
                    self.vertices@[triangle.vertex_indices.1 as int]@,
                ),
                self.vertices@[triangle.vertex_indices.2 as int]@,
            ),
    {
        let t = triangle.vertex_indices;
        proof {
            assert(self.vertices@[t.0 as int].bounded(COORD_LIMIT as int));
            assert(self.vertices@[t.1 as int].bounded(COORD_LIMIT as int));
            assert(self.vertices@[t.2 as int].bounded(COORD_LIMIT as int));
        }
        self.vertices[t.0].add(&self.vertices[t.1]).add(&self.vertices[t.2])
    }

    /// The exact test of `ray` against triangle `k`, as an intersection record.
    pub fn intersect_triangle(&self, ray: &Ray, k: usize) -> (r: Option<Intersection>)
        requires
            self.wf(),
            ray.wf(),
            k < self.triangles@.len(),
        ensures
            r is None <==> self.hit_at(*ray, k as int) is None,
            r matches Some(h) ==> self.is_hit_record(*ray, k as int, h),
    {
        let t = self.triangles[k].vertex_indices;
        proof {
            assert(self.triangle_ok(self.triangles@[k as int]));
            assert(self.vertices@[t.0 as int].bounded(COORD_LIMIT as int));
            assert(self.vertices@[t.1 as int].bounded(COORD_LIMIT as int));
            assert(self.vertices@[t.2 as int].bounded(COORD_LIMIT as int));
        }
        let a = self.vertices[t.0];
        let b = self.vertices[t.1];
        let c = self.vertices[t.2];
        let u = ray.direction;
        let o = ray.origin;
        let e1 = b.sub(&a);
        let e2 = c.sub(&a);
        let ao = a.sub(&o);
        let ghost l: int = COORD_LIMIT as int;
        proof {
            assert(bounded3(e1@, 2 * l));
            assert(bounded3(e2@, 2 * l));
            assert(bounded3(ao@, 2 * l));
            lemma_cross_bound(e1@, e2@, 2 * l, 2 * l);
            lemma_cross_bound(ao@, u@, 2 * l, l);
        }
        let n = e1.cross(&e2);
        let q = ao.cross(&u);
        proof {
            lemma_dot_bound(u@, n@, l, 2 * (2 * l) * (2 * l));
            lemma_dot_bound(e2@, q@, 2 * l, 2 * (2 * l) * l);
            lemma_dot_bound(e1@, q@, 2 * l, 2 * (2 * l) * l);
            lemma_dot_bound(ao@, n@, 2 * l, 2 * (2 * l) * (2 * l));
        }
        let d = u.dot(&n);
        let bn = e2.dot(&q);
        let gn = -e1.dot(&q);
        let tn = ao.dot(&n);
        if d == 0 {
            return None;
        }
        let (t_num, den, beta, gamma) = if d < 0 {
            (-tn, -d, -bn, -gn)
        } else {
            (tn, d, bn, gn)
        };
        if beta >= 0 && gamma >= 0 && beta + gamma <= den && t_num > 0 {
            Some(
                Intersection {
                    distance: Fraction { num: t_num, den },
                    beta,
                    gamma,
                    normal: n,
                    exterior: d < 0,
                    triangle_index: k,
                    source_ray: *ray,
                },
            )
        } else {
            None
        }
    }

    /// The closest hit of `ray` among triangles `start..end` (the first on ties).
    pub fn intersect_part(&self, ray: &Ray, start: usize, end: usize) -> (r: Option<
        Intersection,
    >)
        requires
            self.wf(),
            ray.wf(),
            start <= end <= self.triangles@.len(),
        ensures
            r is None <==> forall|k: int| start <= k < end ==> self.hit_at(*ray, k) is None,
            r matches Some(h) ==> self.is_closest_hit(*ray, start as int, end as int, h),
    {
        let mut best: Option<Intersection> = None;
        let mut k = start;
        while k < end
            invariant
                self.wf(),
                ray.wf(),
                start <= k <= end <= self.triangles@.len(),
                best is None <==> forall|j: int| start <= j < k ==> self.hit_at(*ray, j) is None,
                best matches Some(h) ==> self.is_closest_hit(*ray, start as int, k as int, h),
            decreases end - k,
        {
            let hit = self.intersect_triangle(ray, k);
            if let Some(h) = hit {
                let closer = match best {
                    None => true,
                    Some(b) => h.distance.less_than(&b.distance),
                };
                proof {
                    if let Some(b) = best {
                        if closer {
                            assert forall|j: int|
                                start <= j < k && #[trigger] self.hit_at(*ray, j) is Some implies h.distance.num
                                * self.hit_at(*ray, j).unwrap().1 < self.hit_at(*ray, j).unwrap().0
                                * h.distance.den by {
                                let f = self.hit_at(*ray, j).unwrap();
                                lemma_frac_lt_le_trans(
                                    h.distance.num as int,
                                    h.distance.den as int,
                                    b.distance.num as int,
                                    b.distance.den as int,
                                    f.0,
                                    f.1,
                                );
                            }
                        }
                    }
                }
                if closer {
                    best = Some(h);
                }
            }
            k += 1;
        }
        best
    }

    /// The closest hit of `ray` over the whole mesh.
    pub fn intersect(&self, ray: &Ray) -> (r: Option<Intersection>)
        requires
            self.wf(),
            ray.wf(),
        ensures
            r is None <==> forall|k: int|
                0 <= k < self.triangles@.len() ==> self.hit_at(*ray, k) is None,
            r matches Some(h) ==> self.is_closest_hit(*ray, 0, self.triangles@.len() as int, h),
    {
        self.intersect_part(ray, 0, self.triangles.len())
    }
}

/// Every point within the lattice bounds.
pub open spec fn all_bounded(vs: Seq<(int, int, int)>) -> bool {
    forall|i: int| 0 <= i < vs.len() ==> bounded3(#[trigger] vs[i], COORD_LIMIT as int)
}

pub open spec fn translated(vs: Seq<Vector3>, t: Vector3) -> Seq<(int, int, int)> {
    Seq::new(vs.len(), |i: int| add3(vs[i]@, t@))
}

pub open spec fn rotated(vs: Seq<Vector3>, m: Matrix) -> Seq<(int, int, int)> {
    Seq::new(vs.len(), |i: int| m.apply(vs[i]))
}

/// The matrix that multiplies by `factor` (in units of `ONE`).
pub open spec fn scaling(factor: i64) -> Matrix {
    Matrix {
        a: Vector3 { x: factor, y: 0, z: 0 },
        b: Vector3 { x: 0, y: factor, z: 0 },
        c: Vector3 { x: 0, y: 0, z: factor },
    }
}

pub open spec fn views(vs: Seq<Vector3>) -> Seq<(int, int, int)> {
    Seq::new(vs.len(), |i: int| vs[i]@)
}

/// The lattice point with coordinates `p`, when they lie within the bounds.
fn to_lattice(p: (i128, i128, i128)) -> (r: Option<Vector3>)
    ensures
        r matches Some(v) ==> v@ == (p.0 as int, p.1 as int, p.2 as int),
        r is None <==> !bounded3((p.0 as int, p.1 as int, p.2 as int), COORD_LIMIT as int),
{
    let l = COORD_LIMIT as i128;
    if p.0 < -l || p.0 > l || p.1 < -l || p.1 > l || p.2 < -l || p.2 > l {
        None
    } else {
        Some(Vector3 { x: p.0 as i64, y: p.1 as i64, z: p.2 as i64 })
    }
}

/// The image of each point under `m`, or `None` when one leaves the bounds.
fn rotate_points(vs: &Vec<Vector3>, m: &Matrix) -> (r: Option<Vec<Vector3>>)
    requires
        m.bounded(ENTRY_LIMIT as int),
        forall|i: int| 0 <= i < vs@.len() ==> #[trigger] vs@[i].bounded(COORD_LIMIT as int),
    ensures
        r is None <==> !all_bounded(rotated(vs@, *m)),
        r matches Some(out) ==> views(out@) == rotated(vs@, *m),
{
    let mut out: Vec<Vector3> = Vec::new();
    let mut i: usize = 0;
    while i < vs.len()
        invariant
            m.bounded(ENTRY_LIMIT as int),
            forall|j: int| 0 <= j < vs@.len() ==> #[trigger] vs@[j].bounded(COORD_LIMIT as int),
            i <= vs@.len(),
            out@.len() == i,
            forall|j: int| 0 <= j < i ==> (#[trigger] out@[j])@ == m.apply(vs@[j]),
            forall|j: int| 0 <= j < i ==> bounded3(#[trigger] rotated(vs@, *m)[j], COORD_LIMIT as int),
        decreases vs@.len() - i,
    {
        proof {
            assert(vs@[i as int].bounded(COORD_LIMIT as int));
        }
        match to_lattice(m.mul_vector(&vs[i])) {
            Some(v) => out.push(v),
            None => {
                assert(!bounded3(rotated(vs@, *m)[i as int], COORD_LIMIT as int));
                return None;
            },
        }
        i += 1;
    }
    assert(views(out@) =~= rotated(vs@, *m));
    Some(out)
}

impl Mesh {
    /// Moves every vertex by `translation`; when a vertex would leave the
    /// lattice bounds nothing changes and the result is false.
    pub fn translate(&mut self, translation: Vector3) -> (r: bool)
        requires
            old(self).wf(),
            translation.bounded(2 * COORD_LIMIT),
        ensures
            final(self).wf(),
            r == all_bounded(translated(old(self).vertices@, translation)),
            r ==> views(final(self).vertices@) == translated(old(self).vertices@, translation),
            !r ==> final(self).vertices == old(self).vertices,
            final(self).normals == old(self).normals,
            final(self).uvs == old(self).uvs,
            final(self).triangles == old(self).triangles,
    {
        let mut out: Vec<Vector3> = Vec::new();
        let mut i: usize = 0;
        while i < self.vertices.len()
            invariant
                self.wf(),
                translation.bounded(2 * COORD_LIMIT),
                i <= self.vertices@.len(),
                out@.len() == i,
                forall|j: int|
                    0 <= j < i ==> (#[trigger] out@[j])@ == add3(self.vertices@[j]@, translation@),
                forall|j: int|
                    0 <= j < i ==> bounded3(
                        #[trigger] translated(self.vertices@, translation)[j],
                        COORD_LIMIT as int,
                    ),
            decreases self.vertices@.len() - i,
        {
            proof {
                assert(self.vertices@[i as int].bounded(COORD_LIMIT as int));
            }
            let v = self.vertices[i].add(&translation);
            match to_lattice((v.x as i128, v.y as i128, v.z as i128)) {
                Some(w) => out.push(w),
                None => {
                    assert(!bounded3(translated(self.vertices@, translation)[i as int], COORD_LIMIT as int));
                    return false;
                },
            }
            i += 1;
        }
        assert(views(out@) =~= translated(self.vertices@, translation));
        self.vertices = out;
        assert forall|j: int| 0 <= j < self.vertices@.len() implies #[trigger] self.vertices@[j].bounded(
            COORD_LIMIT as int,
        ) by {
            assert(bounded3(translated(old(self).vertices@, translation)[j], COORD_LIMIT as int));
        }
        true
    }

    /// Multiplies every vertex by `factor` (in units of `ONE`, rounded down);
    /// when a vertex would leave the lattice bounds nothing changes and the
    /// result is false.
    pub fn scale(&mut self, factor: i64) -> (r: bool)
        requires
            old(self).wf(),
            -ENTRY_LIMIT <= factor <= ENTRY_LIMIT,
        ensures
            final(self).wf(),
            r == all_bounded(rotated(old(self).vertices@, scaling(factor))),
            r ==> views(final(self).vertices@) == rotated(old(self).vertices@, scaling(factor)),
            !r ==> final(self).vertices == old(self).vertices,
            final(self).normals == old(self).normals,
            final(self).uvs == old(self).uvs,
            final(self).triangles == old(self).triangles,
    {
        let m = Matrix {
            a: Vector3 { x: factor, y: 0, z: 0 },
            b: Vector3 { x: 0, y: factor, z: 0 },
            c: Vector3 { x: 0, y: 0, z: factor },
        };
        assert(m == scaling(factor));
        match rotate_points(&self.vertices, &m) {
            Some(vs) => {
                proof {
                    assert forall|j: int| 0 <= j < vs@.len() implies #[trigger] vs@[j].bounded(
                        COORD_LIMIT as int,
                    ) by {
                        assert(views(vs@)[j] == vs@[j]@);
                        assert(bounded3(rotated(self.vertices@, m)[j], COORD_LIMIT as int));
                    }
                    assert(vs@.len() == self.vertices@.len()) by {
                        assert(views(vs@).len() == rotated(self.vertices@, m).len());
                    }
                }
                self.vertices = vs;
                true
            },
            None => false,
        }
    }

    /// Applies `rotation` to every vertex and normal; when one would leave the
    /// lattice bounds nothing changes and the result is false.
    pub fn rotate(&mut self, rotation: &Matrix) -> (r: bool)
        requires
            old(self).wf(),
            rotation.bounded(ENTRY_LIMIT as int),
        ensures
            final(self).wf(),
            r == (all_bounded(rotated(old(self).vertices@, *rotation)) && all_bounded(
                rotated(old(self).normals@, *rotation),
            )),
            r ==> views(final(self).vertices@) == rotated(old(self).vertices@, *rotation) && views(
                final(self).normals@,
            ) == rotated(old(self).normals@, *rotation),
            !r ==> final(self).vertices == old(self).vertices && final(self).normals == old(
                self,
            ).normals,
            final(self).uvs == old(self).uvs,
            final(self).triangles == old(self).triangles,
    {
        let vs = rotate_points(&self.vertices, rotation);
        let ns = rotate_points(&self.normals, rotation);
        match (vs, ns) {
            (Some(vs), Some(ns)) => {
                proof {
                    assert forall|j: int| 0 <= j < vs@.len() implies #[trigger] vs@[j].bounded(
                        COORD_LIMIT as int,
                    ) by {
                        assert(views(vs@)[j] == vs@[j]@);
                        assert(bounded3(rotated(self.vertices@, *rotation)[j], COORD_LIMIT as int));
                    }
                    assert forall|j: int| 0 <= j < ns@.len() implies #[trigger] ns@[j].bounded(
                        COORD_LIMIT as int,
                    ) by {
                        assert(views(ns@)[j] == ns@[j]@);
                        assert(bounded3(rotated(self.normals@, *rotation)[j], COORD_LIMIT as int));
                    }
                    assert(vs@.len() == self.vertices@.len()) by {
                        assert(views(vs@).len() == rotated(self.vertices@, *rotation).len());
                    }
                    assert(ns@.len() == self.normals@.len()) by {
                        assert(views(ns@).len() == rotated(self.normals@, *rotation).len());
                    }
                }
                self.vertices = vs;
                self.normals = ns;
                true
            },
            _ => false,
        }
    }
}

} // verus!
