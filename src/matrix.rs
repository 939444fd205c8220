use vstd::prelude::*;
use vstd::arithmetic::div_mod::{
    lemma_div_by_multiple, lemma_div_is_ordered, lemma_fundamental_div_mod,
    lemma_fundamental_div_mod_converse, lemma_mod_pos_bound,
};
use crate::vector3::{Vector3, ONE, dot3, within, bounded3, lemma_dot_bound};

verus! {

/// Largest magnitude of a matrix entry, in units of `ONE`.
pub const ENTRY_LIMIT: i64 = 1048576;

/// `x / ONE` rounded down: a fixed-point product brought back to scale.
pub open spec fn fixed(x: int) -> int {
    x / (ONE as int)
}

/// `x / ONE` rounded down.
pub fn fixed_floor(x: i128) -> (r: i128)
    requires
        within(x as int, 0x1_0000_0000_0000_0000),
    ensures
        r == fixed(x as int),
        within(r as int, 0x1_0000_0000_0000),
{
    let one: i128 = ONE as i128;
    if x >= 0 {
        proof {
            lemma_fundamental_div_mod(x as int, ONE as int);
            lemma_mod_pos_bound(x as int, ONE as int);
        }
        x / one
    } else {
        let y = -x + one - 1;
        let q = y / one;
        proof {
            lemma_fundamental_div_mod(y as int, ONE as int);
            lemma_mod_pos_bound(y as int, ONE as int);
            let rr = y % one;
            assert(x == (-q) * ONE + (ONE - 1 - rr));
            lemma_fundamental_div_mod_converse(x as int, ONE as int, -q as int, ONE - 1 - rr);
        }
        -q
    }
}

/// Bringing a product within `k * ONE` back to scale gives a value within `k`.
pub proof fn lemma_fixed_within(x: int, k: int)
    requires
        k >= 0,
        within(x, k * ONE),
    ensures
        within(fixed(x), k),
{
    lemma_div_is_ordered(x, k * ONE, ONE as int);
    lemma_div_is_ordered(-k * ONE, x, ONE as int);
    lemma_div_by_multiple(k, ONE as int);
    lemma_fundamental_div_mod_converse(-k * ONE, ONE as int, -k, 0);
}

/// A 3x3 matrix given by its rows, with entries in units of `ONE`.
#[derive(Clone, Copy, Debug, PartialEq, Eq, Structural)]
pub struct Matrix {
    pub a: Vector3,
    pub b: Vector3,
    pub c: Vector3,
}

/// The entries of the fixed-point product of matrices `m` and `n`, row by row.
pub open spec fn product_row(m_row: Vector3, n: Matrix) -> (int, int, int) {
    (
        fixed(dot3((n.a.x as int, n.b.x as int, n.c.x as int), m_row@)),
        fixed(dot3((n.a.y as int, n.b.y as int, n.c.y as int), m_row@)),
        fixed(dot3((n.a.z as int, n.b.z as int, n.c.z as int), m_row@)),
    )
}

impl Matrix {
    pub open spec fn bounded(&self, b: int) -> bool {
        self.a.bounded(b) && self.b.bounded(b) && self.c.bounded(b)
    }

    /// The fixed-point image of `v`: each row's scalar product with `v`, over `ONE`.
    pub open spec fn apply(&self, v: Vector3) -> (int, int, int) {
        (fixed(dot3(self.a@, v@)), fixed(dot3(self.b@, v@)), fixed(dot3(self.c@, v@)))
    }

    pub fn new(a: Vector3, b: Vector3, c: Vector3) -> (r: Matrix)
        ensures
            r.a == a,
            r.b == b,
            r.c == c,
    {
        Matrix { a, b, c }
    }

    pub fn a(&self) -> (r: &Vector3)
        ensures
            *r == self.a,
    {
        &self.a
    }

    pub fn b(&self) -> (r: &Vector3)
        ensures
            *r == self.b,
    {
        &self.b
    }

    pub fn c(&self) -> (r: &Vector3)
        ensures
            *r == self.c,
    {
        &self.c
    }

    pub fn transpose(&self) -> (r: Matrix)
        ensures
            r.a@ == (self.a.x as int, self.b.x as int, self.c.x as int),
            r.b@ == (self.a.y as int, self.b.y as int, self.c.y as int),
            r.c@ == (self.a.z as int, self.b.z as int, self.c.z as int),
    {
        Matrix {
            a: Vector3 { x: self.a.x, y: self.b.x, z: self.c.x },
            b: Vector3 { x: self.a.y, y: self.b.y, z: self.c.y },
            c: Vector3 { x: self.a.z, y: self.b.z, z: self.c.z },
        }
    }

    /// One row of a vector's image, before the bounds check of the caller.
    fn row_apply(row: &Vector3, v: &Vector3) -> (r: i128)
        requires
            row.bounded(ENTRY_LIMIT as int),
            v.bounded(0x1_0000_0000),
        ensures
            r == fixed(dot3(row@, v@)),
            within(r as int, 0x1_0000_0000_0000),
    {
        proof {
            lemma_dot_bound(row@, v@, ENTRY_LIMIT as int, 0x1_0000_0000);
        }
        fixed_floor(row.dot(v))
    }

    /// The fixed-point image `(M v) / ONE` of `v`, as wide integers.
    pub fn mul_vector(&self, v: &Vector3) -> (r: (i128, i128, i128))
        requires
            self.bounded(ENTRY_LIMIT as int),
            v.bounded(0x1_0000_0000),
        ensures
            (r.0 as int, r.1 as int, r.2 as int) == self.apply(*v),
    {
        (Matrix::row_apply(&self.a, v), Matrix::row_apply(&self.b, v), Matrix::row_apply(&self.c, v))
    }

    /// The fixed-point product `(self * o) / ONE`, or `None` when an entry
    /// would leave `ENTRY_LIMIT`.
    pub fn mul(&self, o: &Matrix) -> (r: Option<Matrix>)
        requires
            self.bounded(ENTRY_LIMIT as int),
            o.bounded(ENTRY_LIMIT as int),
        ensures
            r matches Some(m) ==> m.bounded(ENTRY_LIMIT as int) && m.a@ == product_row(self.a, *o)
                && m.b@ == product_row(self.b, *o) && m.c@ == product_row(self.c, *o),
            r is None ==> !(bounded_row(product_row(self.a, *o)) && bounded_row(
                product_row(self.b, *o),
            ) && bounded_row(product_row(self.c, *o))),
    {
        let t = o.transpose();
        let a = Matrix::apply_rows(&t, &self.a);
        let b = Matrix::apply_rows(&t, &self.b);
        let c = Matrix::apply_rows(&t, &self.c);
        match (a, b, c) {
            (Some(a), Some(b), Some(c)) => Some(Matrix { a, b, c }),
            _ => None,
        }
    }

    /// `row * o` for the matrix `o` given by its transpose `t`.
    fn apply_rows(t: &Matrix, row: &Vector3) -> (r: Option<Vector3>)
        requires
            t.bounded(ENTRY_LIMIT as int),
            row.bounded(ENTRY_LIMIT as int),
        ensures
            r matches Some(v) ==> v.bounded(ENTRY_LIMIT as int) && v@ == t.apply(*row),
            r is None ==> !bounded_row(t.apply(*row)),
    {
        let x = Matrix::row_apply(&t.a, row);
        let y = Matrix::row_apply(&t.b, row);
        let z = Matrix::row_apply(&t.c, row);
        let l = ENTRY_LIMIT as i128;
        if x < -l || x > l || y < -l || y > l || z < -l || z > l {
            None
        } else {
            Some(Vector3 { x: x as i64, y: y as i64, z: z as i64 })
        }
    }
}

/// The rows of a product of a matrix within `k * ONE` and one within `ONE`
/// stay within `3 k ONE`.
proof fn lemma_product_within(m: Matrix, n: Matrix, k: int)
    requires
        k >= 0,
        m.bounded(k * ONE),
        n.bounded(ONE as int),
    ensures
        bounded3(product_row(m.a, n), 3 * k * ONE),
        bounded3(product_row(m.b, n), 3 * k * ONE),
        bounded3(product_row(m.c, n), 3 * k * ONE),
{
    let l = ONE as int;
    let cols = seq![
        (n.a.x as int, n.b.x as int, n.c.x as int),
        (n.a.y as int, n.b.y as int, n.c.y as int),
        (n.a.z as int, n.b.z as int, n.c.z as int),
    ];
    assert forall|i: int, row: Vector3|
        0 <= i < 3 && row.bounded(k * ONE) implies within(
        #[trigger] fixed(dot3(cols[i], row@)),
        3 * k * ONE,
    ) by {
        lemma_dot_bound(cols[i], row@, l, k * l);
        assert(3 * l * (k * l) == (3 * k * l) * l) by (nonlinear_arith);
        lemma_fixed_within(dot3(cols[i], row@), 3 * k * l);
    }
    assert(fixed(dot3(cols[0], m.a@)) == product_row(m.a, n).0);
    assert(fixed(dot3(cols[1], m.a@)) == product_row(m.a, n).1);
    assert(fixed(dot3(cols[2], m.a@)) == product_row(m.a, n).2);
    assert(fixed(dot3(cols[0], m.b@)) == product_row(m.b, n).0);
    assert(fixed(dot3(cols[1], m.b@)) == product_row(m.b, n).1);
    assert(fixed(dot3(cols[2], m.b@)) == product_row(m.b, n).2);
    assert(fixed(dot3(cols[0], m.c@)) == product_row(m.c, n).0);
    assert(fixed(dot3(cols[1], m.c@)) == product_row(m.c, n).1);
    assert(fixed(dot3(cols[2], m.c@)) == product_row(m.c, n).2);
}

/// Every coordinate within `ENTRY_LIMIT`.
pub open spec fn bounded_row(v: (int, int, int)) -> bool {
    within(v.0, ENTRY_LIMIT as int) && within(v.1, ENTRY_LIMIT as int) && within(
        v.2,
        ENTRY_LIMIT as int,
    )
}

/// The rotation `Rz * Ry * Rx` about the three axes, from the cosines and
/// sines of the three angles in units of `ONE`, each product rounded down.
pub fn calculate_rotation_matrix(cos: Vector3, sin: Vector3) -> (m: Matrix)
    requires
        cos.bounded(ONE as int),
        sin.bounded(ONE as int),
    ensures
        m.bounded(ENTRY_LIMIT as int) && ({
            let rz = rotation_z(cos, sin);
            let ry = rotation_y(cos, sin);
            let rx = rotation_x(cos, sin);
            let zy = Matrix {
                a: spec_row(product_row(rz.a, ry)),
                b: spec_row(product_row(rz.b, ry)),
                c: spec_row(product_row(rz.c, ry)),
            };
            m.a@ == product_row(zy.a, rx) && m.b@ == product_row(zy.b, rx) && m.c@
                == product_row(zy.c, rx)
        }),
{
    let one = ONE;
    let x = Matrix {
        a: Vector3 { x: one, y: 0, z: 0 },
        b: Vector3 { x: 0, y: cos.x, z: -sin.x },
        c: Vector3 { x: 0, y: sin.x, z: cos.x },
    };
    let y = Matrix {
        a: Vector3 { x: cos.y, y: 0, z: sin.y },
        b: Vector3 { x: 0, y: one, z: 0 },
        c: Vector3 { x: -sin.y, y: 0, z: cos.y },
    };
    let z = Matrix {
        a: Vector3 { x: cos.z, y: -sin.z, z: 0 },
        b: Vector3 { x: sin.z, y: cos.z, z: 0 },
        c: Vector3 { x: 0, y: 0, z: one },
    };
    assert(x == rotation_x(cos, sin));
    assert(y == rotation_y(cos, sin));
    assert(z == rotation_z(cos, sin));
    proof {
        lemma_product_within(z, y, 1);
    }
    let zy = z.mul(&y).unwrap();
    assert(zy == Matrix {
        a: spec_row(product_row(z.a, y)),
        b: spec_row(product_row(z.b, y)),
        c: spec_row(product_row(z.c, y)),
    });
    proof {
        lemma_product_within(zy, x, 3);
    }
    zy.mul(&x).unwrap()
}

/// The lattice vector with the given coordinates (which must fit an `i64`).
pub open spec fn spec_row(v: (int, int, int)) -> Vector3 {
    Vector3 { x: v.0 as i64, y: v.1 as i64, z: v.2 as i64 }
}

pub open spec fn rotation_x(cos: Vector3, sin: Vector3) -> Matrix {
    Matrix {
        a: Vector3 { x: ONE, y: 0, z: 0 },
        b: Vector3 { x: 0, y: cos.x, z: (-sin.x) as i64 },
        c: Vector3 { x: 0, y: sin.x, z: cos.x },
    }
}

pub open spec fn rotation_y(cos: Vector3, sin: Vector3) -> Matrix {
    Matrix {
        a: Vector3 { x: cos.y, y: 0, z: sin.y },
        b: Vector3 { x: 0, y: ONE, z: 0 },
        c: Vector3 { x: (-sin.y) as i64, y: 0, z: cos.y },
    }
}

pub open spec fn rotation_z(cos: Vector3, sin: Vector3) -> Matrix {
    Matrix {
        a: Vector3 { x: cos.z, y: (-sin.z) as i64, z: 0 },
        b: Vector3 { x: sin.z, y: cos.z, z: 0 },
        c: Vector3 { x: 0, y: 0, z: ONE },
    }
}

} // verus!
