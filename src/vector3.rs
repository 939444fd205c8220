use vstd::prelude::*;

verus! {

/// Largest magnitude of a lattice coordinate accepted by the geometry layer
/// (vertex positions, ray origins and ray directions).
pub const COORD_LIMIT: i64 = 262144;

/// Fixed-point unit: a lattice value of `ONE` stands for 1.0 in rotation
/// matrices, scale factors and texture coordinates.
pub const ONE: i64 = 65536;

/// A point, direction or color on the integer lattice.
#[derive(Clone, Copy, Debug, PartialEq, Eq, Structural)]
pub struct Vector3 {
    pub x: i64,
    pub y: i64,
    pub z: i64,
}

/// `-b <= a <= b`.
pub open spec fn within(a: int, b: int) -> bool {
    -b <= a && a <= b
}

pub proof fn lemma_mul_bound(a: int, b: int, la: int, lb: int)
    requires
        within(a, la),
        within(b, lb),
    ensures
        within(a * b, la * lb),
        la * lb >= 0,
{
    assert(within(a * b, la * lb) && la * lb >= 0) by (nonlinear_arith)
        requires
            -la <= a <= la,
            -lb <= b <= lb,
    ;
}

impl View for Vector3 {
    type V = (int, int, int);

    open spec fn view(&self) -> (int, int, int) {
        (self.x as int, self.y as int, self.z as int)
    }
}

pub open spec fn add3(a: (int, int, int), b: (int, int, int)) -> (int, int, int) {
    (a.0 + b.0, a.1 + b.1, a.2 + b.2)
}

pub open spec fn sub3(a: (int, int, int), b: (int, int, int)) -> (int, int, int) {
    (a.0 - b.0, a.1 - b.1, a.2 - b.2)
}

pub open spec fn scale3(a: (int, int, int), k: int) -> (int, int, int) {
    (a.0 * k, a.1 * k, a.2 * k)
}

pub open spec fn dot3(a: (int, int, int), b: (int, int, int)) -> int {
    a.0 * b.0 + a.1 * b.1 + a.2 * b.2
}

pub open spec fn cross3(a: (int, int, int), b: (int, int, int)) -> (int, int, int) {
    (a.1 * b.2 - a.2 * b.1, a.2 * b.0 - a.0 * b.2, a.0 * b.1 - a.1 * b.0)
}

/// The axis of the largest coordinate of `v`; the earliest one on ties.
pub open spec fn longest_axis(v: (int, int, int)) -> int {
    if v.0 >= v.1 && v.0 >= v.2 {
        0
    } else if v.1 >= v.2 {
        1
    } else {
        2
    }
}

/// The coordinate of `v` along `axis`.
pub open spec fn coord(v: (int, int, int), axis: int) -> int {
    if axis == 0 {
        v.0
    } else if axis == 1 {
        v.1
    } else {
        v.2
    }
}

pub open spec fn bounded3(a: (int, int, int), b: int) -> bool {
    within(a.0, b) && within(a.1, b) && within(a.2, b)
}

pub proof fn lemma_dot_bound(a: (int, int, int), b: (int, int, int), la: int, lb: int)
    requires
        bounded3(a, la),
        bounded3(b, lb),
    ensures
        within(dot3(a, b), 3 * la * lb),
{
    lemma_mul_bound(a.0, b.0, la, lb);
    lemma_mul_bound(a.1, b.1, la, lb);
    lemma_mul_bound(a.2, b.2, la, lb);
    assert(3 * la * lb == la * lb + la * lb + la * lb) by (nonlinear_arith);
}

pub proof fn lemma_cross_bound(a: (int, int, int), b: (int, int, int), la: int, lb: int)
    requires
        bounded3(a, la),
        bounded3(b, lb),
    ensures
        bounded3(cross3(a, b), 2 * la * lb),
{
    lemma_mul_bound(a.0, b.1, la, lb);
    lemma_mul_bound(a.0, b.2, la, lb);
    lemma_mul_bound(a.1, b.0, la, lb);
    lemma_mul_bound(a.1, b.2, la, lb);
    lemma_mul_bound(a.2, b.0, la, lb);
    lemma_mul_bound(a.2, b.1, la, lb);
    assert(2 * la * lb == la * lb + la * lb) by (nonlinear_arith);
}

impl Vector3 {
    pub open spec fn bounded(self, b: int) -> bool {
        within(self.x as int, b) && within(self.y as int, b) && within(self.z as int, b)
    }

    /// The coordinate along `axis` (0 = x, 1 = y, 2 = z).
    pub open spec fn at(self, axis: int) -> int {
        if axis == 0 {
            self.x as int
        } else if axis == 1 {
            self.y as int
        } else {
            self.z as int
        }
    }

    pub fn new(x: i64, y: i64, z: i64) -> (r: Vector3)
        ensures
            r.x == x,
            r.y == y,
            r.z == z,
    {
        Vector3 { x, y, z }
    }

    pub fn x(&self) -> (r: i64)
        ensures
            r == self.x,
    {
        self.x
    }

    pub fn y(&self) -> (r: i64)
        ensures
            r == self.y,
    {
        self.y
    }

    pub fn z(&self) -> (r: i64)
        ensures
            r == self.z,
    {
        self.z
    }

    /// The coordinate along `axis` (0 = x, 1 = y, 2 = z).
    pub fn component(&self, axis: usize) -> (r: i64)
        requires
            axis < 3,
        ensures
            r == self.at(axis as int),
    {
        if axis == 0 {
            self.x
        } else if axis == 1 {
            self.y
        } else {
            self.z
        }
    }

    pub fn add(&self, o: &Vector3) -> (r: Vector3)
        requires
            i64::MIN <= self.x + o.x <= i64::MAX,
            i64::MIN <= self.y + o.y <= i64::MAX,
            i64::MIN <= self.z + o.z <= i64::MAX,
        ensures
            r.x == self.x + o.x,
            r.y == self.y + o.y,
            r.z == self.z + o.z,
    {
        Vector3 { x: self.x + o.x, y: self.y + o.y, z: self.z + o.z }
    }

    pub fn sub(&self, o: &Vector3) -> (r: Vector3)
        requires
            i64::MIN <= self.x - o.x <= i64::MAX,
            i64::MIN <= self.y - o.y <= i64::MAX,
            i64::MIN <= self.z - o.z <= i64::MAX,
        ensures
            r.x == self.x - o.x,
            r.y == self.y - o.y,
            r.z == self.z - o.z,
    {
        Vector3 { x: self.x - o.x, y: self.y - o.y, z: self.z - o.z }
    }

    pub fn neg(&self) -> (r: Vector3)
        requires
            self.x > i64::MIN,
            self.y > i64::MIN,
            self.z > i64::MIN,
        ensures
            r.x == -self.x,
            r.y == -self.y,
            r.z == -self.z,
    {
        Vector3 { x: -self.x, y: -self.y, z: -self.z }
    }

    /// Component-wise absolute value.
    pub fn abs(&self) -> (r: Vector3)
        requires
            self.x > i64::MIN,
            self.y > i64::MIN,
            self.z > i64::MIN,
        ensures
            r.x == (if self.x < 0 { -self.x } else { self.x as int }),
            r.y == (if self.y < 0 { -self.y } else { self.y as int }),
            r.z == (if self.z < 0 { -self.z } else { self.z as int }),
    {
        Vector3 {
            x: if self.x < 0 { -self.x } else { self.x },
            y: if self.y < 0 { -self.y } else { self.y },
            z: if self.z < 0 { -self.z } else { self.z },
        }
    }

    /// The axis of the largest coordinate; the earliest one on ties.
    pub fn greatest_component(&self) -> (r: usize)
        ensures
            r == longest_axis(self@),
            r < 3,
            forall|k: int| 0 <= k < 3 ==> self.at(k) <= self.at(r as int),
            forall|k: int| 0 <= k < r ==> self.at(k) < self.at(r as int),
    {
        if self.x >= self.y && self.x >= self.z {
            0
        } else if self.y >= self.z {
            1
        } else {
            2
        }
    }

    /// Component-wise product.
    pub fn hadamard_product(&self, o: &Vector3) -> (r: Vector3)
        requires
            i64::MIN <= self.x * o.x <= i64::MAX,
            i64::MIN <= self.y * o.y <= i64::MAX,
            i64::MIN <= self.z * o.z <= i64::MAX,
        ensures
            r.x == self.x * o.x,
            r.y == self.y * o.y,
            r.z == self.z * o.z,
    {
        Vector3 { x: self.x * o.x, y: self.y * o.y, z: self.z * o.z }
    }

    /// Every coordinate multiplied by `k`.
    pub fn scaled(&self, k: i64) -> (r: Vector3)
        requires
            i64::MIN <= self.x * k <= i64::MAX,
            i64::MIN <= self.y * k <= i64::MAX,
            i64::MIN <= self.z * k <= i64::MAX,
        ensures
            r.x == self.x * k,
            r.y == self.y * k,
            r.z == self.z * k,
    {
        Vector3 { x: self.x * k, y: self.y * k, z: self.z * k }
    }

    /// Exact scalar product.
    pub fn dot(&self, o: &Vector3) -> (r: i128)
        requires
            self.bounded(0x4000_0000_0000_0000),
            o.bounded(0x4000_0000_0000_0000),
        ensures
            r == dot3(self@, o@),
    {
        proof {
            let l: int = 0x4000_0000_0000_0000;
            lemma_mul_bound(self.x as int, o.x as int, l, l);
            lemma_mul_bound(self.y as int, o.y as int, l, l);
            lemma_mul_bound(self.z as int, o.z as int, l, l);
        }
        (self.x as i128) * (o.x as i128) + (self.y as i128) * (o.y as i128) + (self.z as i128) * (
        o.z as i128)
    }

    /// Exact vector product.
    pub fn cross(&self, o: &Vector3) -> (r: Vector3)
        requires
            self.bounded(0x4000_0000),
            o.bounded(0x4000_0000),
        ensures
            r@ == cross3(self@, o@),
    {
        proof {
            let l: int = 0x4000_0000;
            lemma_mul_bound(self.y as int, o.z as int, l, l);
            lemma_mul_bound(self.z as int, o.y as int, l, l);
            lemma_mul_bound(self.z as int, o.x as int, l, l);
            lemma_mul_bound(self.x as int, o.z as int, l, l);
            lemma_mul_bound(self.x as int, o.y as int, l, l);
            lemma_mul_bound(self.y as int, o.x as int, l, l);
        }
        Vector3 {
            x: self.y * o.z - self.z * o.y,
            y: self.z * o.x - self.x * o.z,
            z: self.x * o.y - self.y * o.x,
        }
    }
}

} // verus!
