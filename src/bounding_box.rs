use vstd::prelude::*;
use crate::fraction::{Fraction, lemma_frac_le_trans};
use crate::mesh::{Mesh, lemma_distribute3, lemma_hit_point_on_triangle};
use vstd::arithmetic::mul::{lemma_mul_inequality, lemma_mul_is_commutative};
use crate::ray::Ray;
use crate::vector3::{Vector3, COORD_LIMIT, lemma_mul_bound, add3, sub3, coord, within};

verus! {

/// An axis-aligned box; it is empty when `min` exceeds `max` on some axis.
#[derive(Clone, Copy, Debug, PartialEq, Eq, Structural)]
pub struct BoundingBox {
    pub min: Vector3,
    pub max: Vector3,
}

/// `lo <= o + u * tn / td <= hi`, for `td > 0`.
pub open spec fn slab_ok(o: int, u: int, lo: int, hi: int, tn: int, td: int) -> bool {
    lo * td <= o * td + u * tn && o * td + u * tn <= hi * td
}

/// The point at distance `tn / td` along `ray` lies in the box.
pub open spec fn in_box_at(b: BoundingBox, ray: Ray, tn: int, td: int) -> bool {
    &&& td > 0
    &&& slab_ok(ray.origin.x as int, ray.direction.x as int, b.min.x as int, b.max.x as int, tn, td)
    &&& slab_ok(ray.origin.y as int, ray.direction.y as int, b.min.y as int, b.max.y as int, tn, td)
    &&& slab_ok(ray.origin.z as int, ray.direction.z as int, b.min.z as int, b.max.z as int, tn, td)
}

/// `f <= tn / td`.
pub open spec fn frac_le(f: Fraction, tn: int, td: int) -> bool {
    f.num * td <= tn * f.den
}

/// `tn / td <= f`.
pub open spec fn le_frac(tn: int, td: int, f: Fraction) -> bool {
    tn * f.den <= f.num * td
}

/// `tn / td <= h`, where an absent `h` bounds nothing.
pub open spec fn below_opt(tn: int, td: int, h: Option<Fraction>) -> bool {
    match h {
        None => true,
        Some(f) => le_frac(tn, td, f),
    }
}

/// Bound on the parts of the fractions met in the slab test.
pub open spec fn small(f: Fraction) -> bool {
    -0x10_0000 <= f.num <= 0x10_0000 && 0 < f.den <= 0x10_0000
}

/// The distances `t >= 0` at which `o + t * u` lies in `[lo, hi]`, as an interval
/// `[low, high]` (`high` absent: unbounded), or `None` when there is none.
fn axis_interval(o: i64, u: i64, lo: i64, hi: i64) -> (r: Option<(Fraction, Option<Fraction>)>)
    requires
        -COORD_LIMIT <= o <= COORD_LIMIT,
        -COORD_LIMIT <= u <= COORD_LIMIT,
        -COORD_LIMIT <= lo <= COORD_LIMIT,
        -COORD_LIMIT <= hi <= COORD_LIMIT,
    ensures
        r is None ==> forall|tn: int, td: int|
            tn >= 0 && td > 0 ==> !#[trigger] slab_ok(o as int, u as int, lo as int, hi as int, tn, td),
        r matches Some((low, high)) ==> {
            &&& small(low)
            &&& low.num >= 0
            &&& (high matches Some(h) ==> small(h))
            &&& forall|tn: int, td: int|
                tn >= 0 && td > 0 ==> (#[trigger] slab_ok(o as int, u as int, lo as int, hi as int, tn, td)
                    <==> (frac_le(low, tn, td) && below_opt(tn, td, high)))
        },
{
    if u == 0 {
        if o < lo || o > hi {
            assert forall|tn: int, td: int|
                tn >= 0 && td > 0 implies !#[trigger] slab_ok(o as int, u as int, lo as int, hi as int, tn, td) by {
                assert(0 * tn == 0);
                if o < lo {
                    assert(lo * td > o * td) by (nonlinear_arith)
                        requires o < lo, td > 0;
                } else {
                    assert(o * td > hi * td) by (nonlinear_arith)
                        requires o > hi, td > 0;
                }
            }
            None
        } else {
            let low = Fraction { num: 0, den: 1 };
            assert forall|tn: int, td: int|
                tn >= 0 && td > 0 implies #[trigger] slab_ok(o as int, u as int, lo as int, hi as int, tn, td) by {
                assert(lo * td <= o * td && o * td <= hi * td) by (nonlinear_arith)
                    requires lo <= o <= hi, td > 0;
            }
            Some((low, None))
        }
    } else if u > 0 {
        let low = Fraction { num: (lo - o) as i128, den: u as i128 };
        let high = Fraction { num: (hi - o) as i128, den: u as i128 };
        let low = if low.num < 0 { Fraction { num: 0, den: 1 } } else { low };
        proof {
            assert forall|tn: int, td: int|
                tn >= 0 && td > 0 implies (#[trigger] slab_ok(o as int, u as int, lo as int, hi as int, tn, td)
                    <==> (frac_le(low, tn, td) && le_frac(tn, td, high))) by {
                assert((lo - o) * td == lo * td - o * td) by (nonlinear_arith);
                assert((hi - o) * td == hi * td - o * td) by (nonlinear_arith);
                assert(u * tn == tn * u) by (nonlinear_arith);
                if lo - o < 0 {
                    assert((lo - o) * td <= 0) by (nonlinear_arith) requires lo - o < 0, td > 0;
                    assert(tn * u >= 0) by (nonlinear_arith) requires tn >= 0, u > 0;
                    assert(0 * td == 0);
                    assert(tn * 1 == tn);
                }
            }
        }
        Some((low, Some(high)))
    } else {
        let low = Fraction { num: (o - hi) as i128, den: (-u) as i128 };
        let high = Fraction { num: (o - lo) as i128, den: (-u) as i128 };
        let low = if low.num < 0 { Fraction { num: 0, den: 1 } } else { low };
        proof {
            assert forall|tn: int, td: int|
                tn >= 0 && td > 0 implies (#[trigger] slab_ok(o as int, u as int, lo as int, hi as int, tn, td)
                    <==> (frac_le(low, tn, td) && le_frac(tn, td, high))) by {
                assert((o - hi) * td == o * td - hi * td) by (nonlinear_arith);
                assert((o - lo) * td == o * td - lo * td) by (nonlinear_arith);
                assert(u * tn == -(tn * (-u))) by (nonlinear_arith);
                if o - hi < 0 {
                    assert((o - hi) * td <= 0) by (nonlinear_arith) requires o - hi < 0, td > 0;
                    assert(tn * (-u) >= 0) by (nonlinear_arith) requires tn >= 0, u < 0;
                    assert(0 * td == 0);
                    assert(tn * 1 == tn);
                }
            }
        }
        Some((low, Some(high)))
    }
}

/// `a <= b` as rationals.
fn not_after(a: Fraction, b: Fraction) -> (r: bool)
    requires
        small(a),
        small(b),
    ensures
        r == (a.num * b.den <= b.num * a.den),
{
    proof {
        lemma_mul_bound(a.num as int, b.den as int, 0x10_0000, 0x10_0000);
        lemma_mul_bound(b.num as int, a.den as int, 0x10_0000, 0x10_0000);
    }
    a.num * b.den <= b.num * a.den
}

/// The later of two lower bounds.
fn later(a: Fraction, b: Fraction) -> (r: Fraction)
    requires
        small(a),
        small(b),
    ensures
        small(r),
        r == a || r == b,
        forall|tn: int, td: int|
            td > 0 ==> (#[trigger] frac_le(r, tn, td) <==> (frac_le(a, tn, td) && frac_le(b, tn, td))),
{
    let a_first = not_after(a, b);
    let r = if a_first { b } else { a };
    assert forall|tn: int, td: int|
        td > 0 implies (#[trigger] frac_le(r, tn, td) <==> (frac_le(a, tn, td) && frac_le(b, tn, td))) by {
        if a_first {
            if frac_le(b, tn, td) {
                lemma_frac_le_trans(a.num as int, a.den as int, b.num as int, b.den as int, tn, td);
            }
        } else {
            if frac_le(a, tn, td) {
                lemma_frac_le_trans(b.num as int, b.den as int, a.num as int, a.den as int, tn, td);
            }
        }
    }
    r
}

/// The earlier of two upper bounds (absent: unbounded).
fn earlier(a: Option<Fraction>, b: Option<Fraction>) -> (r: Option<Fraction>)
    requires
        a matches Some(f) ==> small(f),
        b matches Some(f) ==> small(f),
    ensures
        r matches Some(f) ==> small(f),
        forall|tn: int, td: int|
            td > 0 ==> (#[trigger] below_opt(tn, td, r) <==> (below_opt(tn, td, a) && below_opt(
                tn,
                td,
                b,
            ))),
{
    match (a, b) {
        (None, _) => b,
        (_, None) => a,
        (Some(fa), Some(fb)) => {
            let a_first = not_after(fa, fb);
            let r = if a_first { fa } else { fb };
            assert forall|tn: int, td: int|
                td > 0 implies (#[trigger] le_frac(tn, td, r) <==> (le_frac(tn, td, fa) && le_frac(tn, td, fb))) by {
                if a_first {
                    if le_frac(tn, td, fa) {
                        lemma_frac_le_trans(tn, td, fa.num as int, fa.den as int, fb.num as int, fb.den as int);
                    }
                } else {
                    if le_frac(tn, td, fb) {
                        lemma_frac_le_trans(tn, td, fb.num as int, fb.den as int, fa.num as int, fa.den as int);
                    }
                }
            }
            Some(r)
        },
    }
}

pub open spec fn min_i(a: int, b: int) -> int {
    if a <= b { a } else { b }
}

pub open spec fn max_i(a: int, b: int) -> int {
    if a >= b { a } else { b }
}

/// Smallest coordinate along `axis` among the first `n` points of `vs`
/// (`COORD_LIMIT` when `n == 0`).
pub open spec fn points_min(vs: Seq<Vector3>, n: int, axis: int) -> int
    decreases n,
{
    if n <= 0 {
        COORD_LIMIT as int
    } else {
        min_i(points_min(vs, n - 1, axis), vs[n - 1].at(axis))
    }
}

/// Largest coordinate along `axis` among the first `n` points of `vs`
/// (`-COORD_LIMIT` when `n == 0`).
pub open spec fn points_max(vs: Seq<Vector3>, n: int, axis: int) -> int
    decreases n,
{
    if n <= 0 {
        -COORD_LIMIT as int
    } else {
        max_i(points_max(vs, n - 1, axis), vs[n - 1].at(axis))
    }
}

/// The corners of triangles `start..end`, in order, three per triangle.
pub open spec fn range_corners(mesh: Mesh, start: int, end: int) -> Seq<Vector3>
    decreases end - start,
{
    if end <= start {
        Seq::empty()
    } else {
        let t = mesh.triangles@[end - 1].vertex_indices;
        range_corners(mesh, start, end - 1).push(mesh.vertices@[t.0 as int]).push(
            mesh.vertices@[t.1 as int],
        ).push(mesh.vertices@[t.2 as int])
    }
}

/// The tightest box around the points: exactly their least and greatest
/// coordinates on each axis.
pub open spec fn is_box_of(b: BoundingBox, vs: Seq<Vector3>) -> bool {
    &&& b.min.x == points_min(vs, vs.len() as int, 0)
    &&& b.min.y == points_min(vs, vs.len() as int, 1)
    &&& b.min.z == points_min(vs, vs.len() as int, 2)
    &&& b.max.x == points_max(vs, vs.len() as int, 0)
    &&& b.max.y == points_max(vs, vs.len() as int, 1)
    &&& b.max.z == points_max(vs, vs.len() as int, 2)
}

/// The bounds of a prefix do not look past it.
proof fn lemma_points_prefix(long: Seq<Vector3>, short: Seq<Vector3>, n: int, axis: int)
    requires
        0 <= n <= short.len(),
        n <= long.len(),
        forall|i: int| 0 <= i < n ==> long[i] == short[i],
    ensures
        points_min(long, n, axis) == points_min(short, n, axis),
        points_max(long, n, axis) == points_max(short, n, axis),
    decreases n,
{
    if n > 0 {
        lemma_points_prefix(long, short, n - 1, axis);
    }
}

/// `p` lies in the box (closed on every side).
pub open spec fn point_in_box(b: BoundingBox, p: (int, int, int)) -> bool {
    &&& b.min.x <= p.0 <= b.max.x
    &&& b.min.y <= p.1 <= b.max.y
    &&& b.min.z <= p.2 <= b.max.z
}

/// Every corner of the triangles `start..end` lies in the box.
pub open spec fn box_holds_range(b: BoundingBox, mesh: Mesh, start: int, end: int) -> bool {
    forall|k: int|
        start <= k < end ==> {
            let (p, q, r) = #[trigger] mesh.corners(k);
            point_in_box(b, p) && point_in_box(b, q) && point_in_box(b, r)
        }
}

proof fn lemma_points_bounds(vs: Seq<Vector3>, n: int, i: int, axis: int)
    requires
        0 <= i < n <= vs.len(),
    ensures
        points_min(vs, n, axis) <= vs[i].at(axis) <= points_max(vs, n, axis),
    decreases n,
{
    if i < n - 1 {
        lemma_points_bounds(vs, n - 1, i, axis);
    }
}

proof fn lemma_range_corners_index(mesh: Mesh, start: int, end: int, k: int)
    requires
        start <= k < end,
    ensures
        range_corners(mesh, start, end).len() == 3 * (end - start),
        ({
            let t = mesh.triangles@[k].vertex_indices;
            let cs = range_corners(mesh, start, end);
            cs[3 * (k - start)] == mesh.vertices@[t.0 as int] && cs[3 * (k - start) + 1]
                == mesh.vertices@[t.1 as int] && cs[3 * (k - start) + 2] == mesh.vertices@[t.2 as int]
        }),
    decreases end - start,
{
    lemma_range_corners_len(mesh, start, end - 1);
    if k < end - 1 {
        lemma_range_corners_index(mesh, start, end - 1, k);
    }
}

proof fn lemma_range_corners_len(mesh: Mesh, start: int, end: int)
    requires
        start <= end,
    ensures
        range_corners(mesh, start, end).len() == 3 * (end - start),
    decreases end - start,
{
    if start < end {
        lemma_range_corners_len(mesh, start, end - 1);
    }
}

/// The tightest box of a range's corners holds every one of them.
pub proof fn lemma_box_of_range_holds(b: BoundingBox, mesh: Mesh, start: int, end: int)
    requires
        start <= end,
        is_box_of(b, range_corners(mesh, start, end)),
    ensures
        box_holds_range(b, mesh, start, end),
{
    let cs = range_corners(mesh, start, end);
    assert forall|k: int| start <= k < end implies {
        let (p, q, r) = #[trigger] mesh.corners(k);
        point_in_box(b, p) && point_in_box(b, q) && point_in_box(b, r)
    } by {
        lemma_range_corners_index(mesh, start, end, k);
        let n = cs.len() as int;
        let i = 3 * (k - start);
        lemma_points_bounds(cs, n, i, 0);
        lemma_points_bounds(cs, n, i, 1);
        lemma_points_bounds(cs, n, i, 2);
        lemma_points_bounds(cs, n, i + 1, 0);
        lemma_points_bounds(cs, n, i + 1, 1);
        lemma_points_bounds(cs, n, i + 1, 2);
        lemma_points_bounds(cs, n, i + 2, 0);
        lemma_points_bounds(cs, n, i + 2, 1);
        lemma_points_bounds(cs, n, i + 2, 2);
    }
}

/// Corner `c` (0, 1 or 2) of triangle `k`.
pub open spec fn corner_of(mesh: Mesh, k: int, c: int) -> (int, int, int) {
    let (p, q, r) = mesh.corners(k);
    if c == 0 {
        p
    } else if c == 1 {
        q
    } else {
        r
    }
}

/// Both faces of the box across `axis` touch a corner of a triangle of `start..end`.
pub open spec fn attains_on(b: BoundingBox, mesh: Mesh, start: int, end: int, axis: int) -> bool {
    &&& exists|k: int, c: int|
        start <= k < end && 0 <= c < 3 && #[trigger] coord(corner_of(mesh, k, c), axis) == coord(
            b.min@,
            axis,
        )
    &&& exists|k: int, c: int|
        start <= k < end && 0 <= c < 3 && #[trigger] coord(corner_of(mesh, k, c), axis) == coord(
            b.max@,
            axis,
        )
}

/// Each face of the box touches a corner of a triangle of `start..end`.
pub open spec fn attains(b: BoundingBox, mesh: Mesh, start: int, end: int) -> bool {
    attains_on(b, mesh, start, end, 0) && attains_on(b, mesh, start, end, 1) && attains_on(
        b,
        mesh,
        start,
        end,
        2,
    )
}

/// The box is the tightest one around the corners of triangles `start..end`
/// (the empty box, `COORD_LIMIT` below and `-COORD_LIMIT` above, for an empty
/// range), whatever their order.
pub open spec fn tight(b: BoundingBox, mesh: Mesh, start: int, end: int) -> bool {
    if start >= end {
        b.min@ == (COORD_LIMIT as int, COORD_LIMIT as int, COORD_LIMIT as int) && b.max@ == (
            -COORD_LIMIT as int,
            -COORD_LIMIT as int,
            -COORD_LIMIT as int,
        )
    } else {
        box_holds_range(b, mesh, start, end) && attains(b, mesh, start, end)
    }
}

proof fn lemma_points_attained(vs: Seq<Vector3>, n: int, axis: int)
    requires
        0 < n <= vs.len(),
        forall|i: int| 0 <= i < n ==> within((#[trigger] vs[i]).at(axis), COORD_LIMIT as int),
    ensures
        exists|i: int| 0 <= i < n && (#[trigger] vs[i]).at(axis) == points_min(vs, n, axis),
        exists|i: int| 0 <= i < n && (#[trigger] vs[i]).at(axis) == points_max(vs, n, axis),
    decreases n,
{
    if n > 1 {
        lemma_points_attained(vs, n - 1, axis);
        let i = choose|i: int| 0 <= i < n - 1 && (#[trigger] vs[i]).at(axis) == points_min(vs, n - 1, axis);
        let j = choose|i: int| 0 <= i < n - 1 && (#[trigger] vs[i]).at(axis) == points_max(vs, n - 1, axis);
        assert(vs[i].at(axis) == points_min(vs, n, axis) || vs[n - 1].at(axis) == points_min(vs, n, axis));
        assert(vs[j].at(axis) == points_max(vs, n, axis) || vs[n - 1].at(axis) == points_max(vs, n, axis));
    } else {
        assert(points_min(vs, 0, axis) == COORD_LIMIT);
        assert(points_max(vs, 0, axis) == -COORD_LIMIT);
        assert(within(vs[0].at(axis), COORD_LIMIT as int));
        assert(vs[0].at(axis) == points_min(vs, n, axis));
        assert(vs[0].at(axis) == points_max(vs, n, axis));
    }
}

/// The tightest box of a range's corners, in the order the corners had.
pub proof fn lemma_box_of_range_tight(b: BoundingBox, mesh: Mesh, start: int, end: int)
    requires
        mesh.wf(),
        0 <= start <= end <= mesh.triangles@.len(),
        is_box_of(b, range_corners(mesh, start, end)),
    ensures
        tight(b, mesh, start, end),
{
    lemma_range_corners_len(mesh, start, end);
    if start < end {
        lemma_box_of_range_holds(b, mesh, start, end);
        lemma_box_of_range_attains_on(b, mesh, start, end, 0);
        lemma_box_of_range_attains_on(b, mesh, start, end, 1);
        lemma_box_of_range_attains_on(b, mesh, start, end, 2);
    }
}

proof fn lemma_box_of_range_attains_on(b: BoundingBox, mesh: Mesh, start: int, end: int, axis: int)
    requires
        mesh.wf(),
        0 <= start < end <= mesh.triangles@.len(),
        0 <= axis < 3,
        is_box_of(b, range_corners(mesh, start, end)),
        range_corners(mesh, start, end).len() == 3 * (end - start),
    ensures
        attains_on(b, mesh, start, end, axis),
{
    let cs = range_corners(mesh, start, end);
    let n = cs.len() as int;
    assert forall|i: int| 0 <= i < n implies within((#[trigger] cs[i]).at(axis), COORD_LIMIT as int) by {
        let (k, c) = lemma_corner_index(mesh, start, end, i);
        let t = mesh.triangles@[k].vertex_indices;
        assert(mesh.triangle_ok(mesh.triangles@[k]));
        assert(mesh.vertices@[t.0 as int].bounded(COORD_LIMIT as int));
        assert(mesh.vertices@[t.1 as int].bounded(COORD_LIMIT as int));
        assert(mesh.vertices@[t.2 as int].bounded(COORD_LIMIT as int));
    }
    lemma_points_attained(cs, n, axis);
    assert(coord(b.min@, axis) == points_min(cs, n, axis));
    assert(coord(b.max@, axis) == points_max(cs, n, axis));
    let i = choose|i: int| 0 <= i < n && (#[trigger] cs[i]).at(axis) == points_min(cs, n, axis);
    let (k, c) = lemma_corner_index(mesh, start, end, i);
    assert(coord(corner_of(mesh, k, c), axis) == cs[i].at(axis));
    let i2 = choose|i: int| 0 <= i < n && (#[trigger] cs[i]).at(axis) == points_max(cs, n, axis);
    let (k2, c2) = lemma_corner_index(mesh, start, end, i2);
    assert(coord(corner_of(mesh, k2, c2), axis) == cs[i2].at(axis));
}

/// Entry `i` of a range's corners is corner `c` of triangle `k`.
proof fn lemma_corner_index(mesh: Mesh, start: int, end: int, i: int) -> (kc: (int, int))
    requires
        start < end,
        0 <= i < 3 * (end - start),
    ensures
        start <= kc.0 < end,
        0 <= kc.1 < 3,
        corner_of(mesh, kc.0, kc.1) == range_corners(mesh, start, end)[i]@,
{
    let k = start + i / 3;
    let c = i % 3;
    assert(i == 3 * (i / 3) + i % 3 && 0 <= i % 3 < 3 && 0 <= i / 3 < end - start) by {
        vstd::arithmetic::div_mod::lemma_fundamental_div_mod(i, 3);
        vstd::arithmetic::div_mod::lemma_mod_pos_bound(i, 3);
        assert(i / 3 < end - start) by (nonlinear_arith)
            requires
                i == 3 * (i / 3) + i % 3,
                0 <= i % 3 < 3,
                i < 3 * (end - start),
        ;
        assert(i / 3 >= 0) by (nonlinear_arith)
            requires
                i == 3 * (i / 3) + i % 3,
                i % 3 < 3,
                i >= 0,
        ;
    }
    lemma_range_corners_index(mesh, start, end, k);
    (k, c)
}

/// A weighted sum of three values in `[lo, hi]` with non-negative weights
/// lies between `lo` and `hi` times the total weight.
proof fn lemma_convex_in_slab(lo: int, hi: int, a: int, b: int, c: int, wa: int, wb: int, wc: int, x: int)
    requires
        lo <= a <= hi,
        lo <= b <= hi,
        lo <= c <= hi,
        wa >= 0,
        wb >= 0,
        wc >= 0,
        x == a * wa + b * wb + c * wc,
    ensures
        lo * (wa + wb + wc) <= x <= hi * (wa + wb + wc),
{
    lemma_mul_inequality(lo, a, wa);
    lemma_mul_inequality(lo, b, wb);
    lemma_mul_inequality(lo, c, wc);
    lemma_mul_inequality(a, hi, wa);
    lemma_mul_inequality(b, hi, wb);
    lemma_mul_inequality(c, hi, wc);
    lemma_distribute3(lo, wa, wb, wc);
    lemma_distribute3(hi, wa, wb, wc);
    lemma_mul_is_commutative(lo, wa);
    lemma_mul_is_commutative(lo, wb);
    lemma_mul_is_commutative(lo, wc);
    lemma_mul_is_commutative(hi, wa);
    lemma_mul_is_commutative(hi, wb);
    lemma_mul_is_commutative(hi, wc);
}

/// Where a ray meets a triangle whose corners lie in a box, it is inside the
/// box.
pub proof fn lemma_hit_inside_box(b: BoundingBox, mesh: Mesh, ray: Ray, k: int)
    requires
        mesh.hit_at(ray, k) is Some,
        ({
            let (p, q, r) = mesh.corners(k);
            point_in_box(b, p) && point_in_box(b, q) && point_in_box(b, r)
        }),
    ensures
        ({
            let (t, den, beta, gamma) = mesh.hit_at(ray, k).unwrap();
            in_box_at(b, ray, t, den)
        }),
{
    let (p, q, r) = mesh.corners(k);
    let o = ray.origin@;
    let u = ray.direction@;
    lemma_hit_point_on_triangle(p, q, r, o, u);
    let (t, den, beta, gamma) = mesh.hit_at(ray, k).unwrap();
    let wa = den - beta - gamma;
    assert(den == wa + beta + gamma);
    lemma_convex_in_slab(b.min.x as int, b.max.x as int, p.0, q.0, r.0, wa, beta, gamma, o.0 * den + u.0 * t);
    lemma_convex_in_slab(b.min.y as int, b.max.y as int, p.1, q.1, r.1, wa, beta, gamma, o.1 * den + u.1 * t);
    lemma_convex_in_slab(b.min.z as int, b.max.z as int, p.2, q.2, r.2, wa, beta, gamma, o.2 * den + u.2 * t);
}

/// The box of `vs[..n]` grown to take in `vs[n]`.
fn take_in(b: BoundingBox, vs: Ghost<Seq<Vector3>>, n: Ghost<int>, v: Vector3) -> (r: BoundingBox)
    requires
        0 <= n@ < vs@.len(),
        vs@[n@] == v,
        v.bounded(COORD_LIMIT as int),
        b.wf(),
        b.min.x == points_min(vs@, n@, 0),
        b.min.y == points_min(vs@, n@, 1),
        b.min.z == points_min(vs@, n@, 2),
        b.max.x == points_max(vs@, n@, 0),
        b.max.y == points_max(vs@, n@, 1),
        b.max.z == points_max(vs@, n@, 2),
    ensures
        r.wf(),
        r.min.x == points_min(vs@, n@ + 1, 0),
        r.min.y == points_min(vs@, n@ + 1, 1),
        r.min.z == points_min(vs@, n@ + 1, 2),
        r.max.x == points_max(vs@, n@ + 1, 0),
        r.max.y == points_max(vs@, n@ + 1, 1),
        r.max.z == points_max(vs@, n@ + 1, 2),
{
    BoundingBox {
        min: Vector3 {
            x: if v.x < b.min.x { v.x } else { b.min.x },
            y: if v.y < b.min.y { v.y } else { b.min.y },
            z: if v.z < b.min.z { v.z } else { b.min.z },
        },
        max: Vector3 {
            x: if v.x > b.max.x { v.x } else { b.max.x },
            y: if v.y > b.max.y { v.y } else { b.max.y },
            z: if v.z > b.max.z { v.z } else { b.max.z },
        },
    }
}

impl BoundingBox {
    pub open spec fn wf(&self) -> bool {
        self.min.bounded(COORD_LIMIT as int) && self.max.bounded(COORD_LIMIT as int)
    }

    pub fn new(min: Vector3, max: Vector3) -> (r: BoundingBox)
        ensures
            r.min == min,
            r.max == max,
    {
        BoundingBox { min, max }
    }

    /// The empty box, which later points widen.
    fn empty() -> (r: BoundingBox)
        ensures
            r.wf(),
            r.min.x == COORD_LIMIT && r.min.y == COORD_LIMIT && r.min.z == COORD_LIMIT,
            r.max.x == -COORD_LIMIT && r.max.y == -COORD_LIMIT && r.max.z == -COORD_LIMIT,
    {
        BoundingBox {
            min: Vector3 { x: COORD_LIMIT, y: COORD_LIMIT, z: COORD_LIMIT },
            max: Vector3 { x: -COORD_LIMIT, y: -COORD_LIMIT, z: -COORD_LIMIT },
        }
    }

    /// The tightest box around every vertex of the mesh.
    pub fn new_from_mesh(mesh: &Mesh) -> (r: BoundingBox)
        requires
            mesh.wf(),
        ensures
            r.wf(),
            is_box_of(r, mesh.vertices@),
    {
        let mut b = BoundingBox::empty();
        let mut i: usize = 0;
        while i < mesh.vertices.len()
            invariant
                mesh.wf(),
                i <= mesh.vertices@.len(),
                b.wf(),
                b.min.x == points_min(mesh.vertices@, i as int, 0),
                b.min.y == points_min(mesh.vertices@, i as int, 1),
                b.min.z == points_min(mesh.vertices@, i as int, 2),
                b.max.x == points_max(mesh.vertices@, i as int, 0),
                b.max.y == points_max(mesh.vertices@, i as int, 1),
                b.max.z == points_max(mesh.vertices@, i as int, 2),
            decreases mesh.vertices@.len() - i,
        {
            proof {
                assert(mesh.vertices@[i as int].bounded(COORD_LIMIT as int));
            }
            b = take_in(b, Ghost(mesh.vertices@), Ghost(i as int), mesh.vertices[i]);
            i += 1;
        }
        b
    }

    /// The tightest box around the corners of triangles `start..end`.
    pub fn new_from_mesh_and_triangle_indices(mesh: &Mesh, start: usize, end: usize) -> (r:
        BoundingBox)
        requires
            mesh.wf(),
            start <= end <= mesh.triangles@.len(),
        ensures
            r.wf(),
            is_box_of(r, range_corners(*mesh, start as int, end as int)),
    {
        let mut b = BoundingBox::empty();
        let mut k: usize = start;
        while k < end
            invariant
                mesh.wf(),
                start <= k <= end <= mesh.triangles@.len(),
                b.wf(),
                is_box_of(b, range_corners(*mesh, start as int, k as int)),
            decreases end - k,
        {
            let ghost before = range_corners(*mesh, start as int, k as int);
            let t = mesh.triangles[k].vertex_indices;
            proof {
                assert(mesh.triangle_ok(mesh.triangles@[k as int]));
                assert(mesh.vertices@[t.0 as int].bounded(COORD_LIMIT as int));
                assert(mesh.vertices@[t.1 as int].bounded(COORD_LIMIT as int));
                assert(mesh.vertices@[t.2 as int].bounded(COORD_LIMIT as int));
            }
            let ghost after = range_corners(*mesh, start as int, k + 1);
            let ghost n = before.len() as int;
            proof {
                assert(after.len() == n + 3);
                assert(after.subrange(0, n) =~= before);
                lemma_points_prefix(after, before, n, 0);
                lemma_points_prefix(after, before, n, 1);
                lemma_points_prefix(after, before, n, 2);
            }
            b = take_in(b, Ghost(after), Ghost(n), mesh.vertices[t.0]);
            b = take_in(b, Ghost(after), Ghost(n + 1), mesh.vertices[t.1]);
            b = take_in(b, Ghost(after), Ghost(n + 2), mesh.vertices[t.2]);
            k += 1;
        }
        b
    }

    /// The extent of the box along each axis.
    pub fn calculate_diagonals(&self) -> (r: Vector3)
        requires
            self.wf(),
        ensures
            r@ == sub3(self.max@, self.min@),
    {
        self.max.sub(&self.min)
    }

    /// Twice the center of the box, `min + max`, which stays exact on the lattice.
    pub fn calculate_center(&self) -> (r: Vector3)
        requires
            self.wf(),
        ensures
            r@ == add3(self.min@, self.max@),
    {
        self.min.add(&self.max)
    }

    /// Whether the ray passes through the box at some distance `t > 0`; if so,
    /// the least distance `t >= 0` at which it is inside the box (zero when it
    /// starts inside).
    pub fn intersect(&self, ray: &Ray) -> (r: Option<Fraction>)
        requires
            self.wf(),
            ray.wf(),
        ensures
            r matches Some(f) ==> {
                &&& small(f)
                &&& f.num >= 0
                &&& in_box_at(*self, *ray, f.num as int, f.den as int)
                &&& forall|tn: int, td: int|
                    tn >= 0 && #[trigger] in_box_at(*self, *ray, tn, td) ==> frac_le(f, tn, td)
                &&& exists|tn: int, td: int| tn > 0 && #[trigger] in_box_at(*self, *ray, tn, td)
            },
            r is None ==> forall|tn: int, td: int|
                tn > 0 ==> !#[trigger] in_box_at(*self, *ray, tn, td),
    {
        let o = ray.origin;
        let u = ray.direction;
        let ix = axis_interval(o.x, u.x, self.min.x, self.max.x);
        let iy = axis_interval(o.y, u.y, self.min.y, self.max.y);
        let iz = axis_interval(o.z, u.z, self.min.z, self.max.z);
        match (ix, iy, iz) {
            (Some((lx, hx)), Some((ly, hy)), Some((lz, hz))) => {
                let lxy = later(lx, ly);
                let entry = later(lxy, lz);
                let hxy = earlier(hx, hy);
                let exit = earlier(hxy, hz);
                let ghost (ox, oy, oz) = (o.x as int, o.y as int, o.z as int);
                let ghost (ux, uy, uz) = (u.x as int, u.y as int, u.z as int);
                let ghost b = *self;
                // Inside the box at `tn / td` exactly when between entry and exit.
                assert forall|tn: int, td: int|
                    tn >= 0 && td > 0 implies (#[trigger] in_box_at(*self, *ray, tn, td) <==> (frac_le(
                        entry,
                        tn,
                        td,
                    ) && below_opt(tn, td, exit))) by {
                    assert(slab_ok(ox, ux, b.min.x as int, b.max.x as int, tn, td) <==> (frac_le(lx, tn, td) && below_opt(tn, td, hx)));
                    assert(slab_ok(oy, uy, b.min.y as int, b.max.y as int, tn, td) <==> (frac_le(ly, tn, td) && below_opt(tn, td, hy)));
                    assert(slab_ok(oz, uz, b.min.z as int, b.max.z as int, tn, td) <==> (frac_le(lz, tn, td) && below_opt(tn, td, hz)));
                    assert(frac_le(lxy, tn, td) <==> (frac_le(lx, tn, td) && frac_le(ly, tn, td)));
                    assert(frac_le(entry, tn, td) <==> (frac_le(lxy, tn, td) && frac_le(lz, tn, td)));
                    assert(below_opt(tn, td, hxy) <==> (below_opt(tn, td, hx) && below_opt(tn, td, hy)));
                    assert(below_opt(tn, td, exit) <==> (below_opt(tn, td, hxy) && below_opt(tn, td, hz)));
                }
                let inside = match exit {
                    None => true,
                    Some(e) => not_after(entry, e) && e.num > 0,
                };
                if inside {
                    assert(frac_le(entry, entry.num as int, entry.den as int));
                    assert(below_opt(entry.num as int, entry.den as int, exit));
                    assert(in_box_at(*self, *ray, entry.num as int, entry.den as int));
                    proof {
                        match exit {
                        None => {
                            let tn = entry.num + entry.den;
                            let td = entry.den as int;
                            assert(entry.num * td <= tn * entry.den) by (nonlinear_arith)
                                requires
                                    td == entry.den,
                                    tn == entry.num + entry.den,
                                    entry.den > 0,
                            ;
                            assert(in_box_at(*self, *ray, tn, td));
                        },
                        Some(e) => {
                            assert(e.num * e.den <= e.num * e.den);
                            assert(in_box_at(*self, *ray, e.num as int, e.den as int));
                        },
                        }
                    }
                    Some(entry)
                } else {
                    assert forall|tn: int, td: int|
                        tn > 0 implies !#[trigger] in_box_at(*self, *ray, tn, td) by {
                        if in_box_at(*self, *ray, tn, td) {
                            assert(frac_le(entry, tn, td) && below_opt(tn, td, exit));
                            let e = exit.unwrap();
                            if e.num > 0 {
                                lemma_frac_le_trans(entry.num as int, entry.den as int, tn, td, e.num as int, e.den as int);
                            } else {
                                assert(tn * e.den > 0) by (nonlinear_arith)
                                    requires
                                        tn > 0,
                                        e.den > 0,
                                ;
                                assert(e.num * td <= 0) by (nonlinear_arith)
                                    requires
                                        e.num <= 0,
                                        td > 0,
                                ;
                            }
                        }
                    }
                    None
                }
            },
            _ => None,
        }
    }
}

} // verus!
