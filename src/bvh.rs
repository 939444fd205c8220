use vstd::prelude::*;
use crate::bounding_box::{
    BoundingBox, box_holds_range, point_in_box, frac_le, is_box_of, range_corners, tight,
    attains_on, corner_of, lemma_box_of_range_holds, lemma_box_of_range_tight,
    lemma_hit_inside_box,
};
use crate::fraction::lemma_frac_le_trans;
use crate::intersection::Intersection;
use crate::mesh::Mesh;
use crate::ray::Ray;
use crate::vector3::{COORD_LIMIT, add3, sub3, coord, longest_axis};

verus! {

broadcast use vstd::seq_lib::group_to_multiset_ensures;

/// A node whose range holds at most this many triangles stays a leaf.
pub const MIN_BVH_NODE_SIZE: usize = 5;

/// A node of the bounding volume hierarchy: a box around the triangles
/// `start_triangle_index..end_triangle_index` of the owning mesh, and either
/// two children that split that range or none.
#[derive(Debug)]
pub struct BVHNode {
    pub bounding_box: BoundingBox,
    pub left: Option<Box<BVHNode>>,
    pub right: Option<Box<BVHNode>>,
    pub start_triangle_index: usize,
    pub end_triangle_index: usize,
}

/// A mesh whose triangles were reordered so that each node's triangles are
/// contiguous, and the hierarchy over it.
#[derive(Debug)]
pub struct BVHTree {
    pub root: BVHNode,
    pub mesh: Mesh,
}

/// `after` is `before` with only positions in `start..end` changed, each
/// taken from that range, and the same items overall.
pub open spec fn permuted_within<T>(before: Seq<T>, after: Seq<T>, start: int, end: int) -> bool {
    &&& after.len() == before.len()
    &&& after.to_multiset() == before.to_multiset()
    &&& forall|k: int| 0 <= k < before.len() && !(start <= k < end) ==> after[k] == before[k]
    &&& forall|k: int| start <= k < end ==> from_range(#[trigger] after[k], before, start, end)
    &&& forall|j: int| start <= j < end ==> from_range(#[trigger] before[j], after, start, end)
}

/// `after[start..end]` holds the same items as `before[start..end]`, each at
/// least once the other way too.
pub open spec fn same_range<T>(before: Seq<T>, after: Seq<T>, start: int, end: int) -> bool {
    &&& forall|k: int| start <= k < end ==> from_range(#[trigger] after[k], before, start, end)
    &&& forall|j: int| start <= j < end ==> from_range(#[trigger] before[j], after, start, end)
}

/// All triangles of `start..end` stay right of the split, or all but at most
/// one go left: then splitting gains nothing.
pub open spec fn one_sided(mesh: Mesh, start: int, end: int, b: BoundingBox) -> bool {
    ||| forall|k: int| start <= k < end ==> !#[trigger] goes_left(mesh, k, b)
    ||| exists|m: int| start <= m <= end && #[trigger] all_left_but(mesh, start, end, b, m)
}

/// Every triangle of `start..end` but the one at `m` goes left.
pub open spec fn all_left_but(mesh: Mesh, start: int, end: int, b: BoundingBox, m: int) -> bool {
    forall|k: int| start <= k < end && k != m ==> #[trigger] goes_left(mesh, k, b)
}

/// `x` is one of `s[start..end]`.
pub open spec fn from_range<T>(x: T, s: Seq<T>, start: int, end: int) -> bool {
    exists|j: int| start <= j < end && s[j] == x
}

/// The split rule: triangle `k`'s centroid lies below the center of box `b`
/// along the box's longest axis, `(p + q + r) / 3 < (min + max) / 2` there.
pub open spec fn goes_left(mesh: Mesh, k: int, b: BoundingBox) -> bool {
    let axis = longest_axis(sub3(b.max@, b.min@));
    let (p, q, r) = mesh.corners(k);
    2 * (coord(p, axis) + coord(q, axis) + coord(r, axis)) < 3 * (coord(b.min@, axis) + coord(
        b.max@,
        axis,
    ))
}

impl BVHNode {
    /// The node covers exactly `start..end`; an interior node has two
    /// children splitting the range into two non-empty parts, and every box is
    /// within the lattice bounds.
    pub open spec fn wf_range(&self, start: int, end: int) -> bool
        decreases self,
    {
        &&& self.start_triangle_index == start
        &&& self.end_triangle_index == end
        &&& start <= end
        &&& self.bounding_box.wf()
        &&& match (self.left, self.right) {
            (None, None) => true,
            (Some(l), Some(r)) => {
                &&& start < l.end_triangle_index < end
                &&& l.wf_range(start, l.end_triangle_index as int)
                &&& r.wf_range(l.end_triangle_index as int, end)
            },
            _ => false,
        }
    }

    pub open spec fn wf(&self) -> bool {
        self.wf_range(self.start_triangle_index as int, self.end_triangle_index as int)
    }

    /// Every node's box holds the corners of every triangle in its range.
    pub open spec fn covers(&self, mesh: Mesh) -> bool
        decreases self,
    {
        &&& box_holds_range(
            self.bounding_box,
            mesh,
            self.start_triangle_index as int,
            self.end_triangle_index as int,
        )
        &&& match (self.left, self.right) {
            (Some(l), Some(r)) => l.covers(mesh) && r.covers(mesh),
            _ => true,
        }
    }

    /// The hierarchy follows the build rule at every node: the node's box is
    /// the tightest around its triangles; it is a leaf exactly when it holds
    /// at most `MIN_BVH_NODE_SIZE` triangles or the split at the box's center
    /// along its longest axis is one-sided; otherwise its left child holds
    /// exactly the triangles that go left.
    pub open spec fn built(&self, mesh: Mesh) -> bool
        decreases self,
    {
        let (s, e) = (self.start_triangle_index as int, self.end_triangle_index as int);
        &&& tight(self.bounding_box, mesh, s, e)
        &&& (self.left is None <==> (e - s <= MIN_BVH_NODE_SIZE || one_sided(
            mesh,
            s,
            e,
            self.bounding_box,
        )))
        &&& match (self.left, self.right) {
            (Some(l), Some(r)) => {
                &&& forall|k: int|
                    s <= k < l.end_triangle_index ==> goes_left(mesh, k, self.bounding_box)
                &&& forall|k: int|
                    l.end_triangle_index <= k < e ==> !goes_left(mesh, k, self.bounding_box)
                &&& l.built(mesh)
                &&& r.built(mesh)
            },
            _ => true,
        }
    }

    /// The build rule depends only on the vertices and on the triangles in range.
    pub proof fn lemma_built_frame(&self, m1: Mesh, m2: Mesh)
        requires
            self.wf(),
            self.built(m1),
            m1.vertices@ == m2.vertices@,
            forall|k: int|
                self.start_triangle_index <= k < self.end_triangle_index ==> m1.triangles@[k]
                    == m2.triangles@[k],
        ensures
            self.built(m2),
        decreases self,
    {
        let (s, e) = (self.start_triangle_index as int, self.end_triangle_index as int);
        let b = self.bounding_box;
        assert forall|k: int| s <= k < e implies m1.corners(k) == m2.corners(k) && goes_left(m1, k, b)
            == goes_left(m2, k, b) by {
            assert(m1.triangles@[k] == m2.triangles@[k]);
        }
        assert forall|k: int| s <= k < e implies from_range(#[trigger] m2.triangles@[k], m1.triangles@, s, e) by {
            assert(m1.triangles@[k] == m2.triangles@[k]);
        }
        assert forall|j: int| s <= j < e implies from_range(#[trigger] m1.triangles@[j], m2.triangles@, s, e) by {
            assert(m1.triangles@[j] == m2.triangles@[j]);
        }
        lemma_same_range_keeps_tight(b, m1, m2, s, e);
        lemma_one_sided_frame(m1, m2, s, e, b);
        match (&self.left, &self.right) {
            (Some(l), Some(r)) => {
                l.lemma_wf_range_bounds(s, l.end_triangle_index as int);
                r.lemma_wf_range_bounds(l.end_triangle_index as int, e);
                l.lemma_built_frame(m1, m2);
                r.lemma_built_frame(m1, m2);
            },
            _ => {},
        }
    }

    /// Coverage depends only on the vertices and on the triangles in range.
    pub proof fn lemma_covers_frame(&self, m1: Mesh, m2: Mesh)
        requires
            self.wf(),
            self.covers(m1),
            m1.vertices@ == m2.vertices@,
            forall|k: int|
                self.start_triangle_index <= k < self.end_triangle_index ==> m1.triangles@[k]
                    == m2.triangles@[k],
        ensures
            self.covers(m2),
        decreases self,
    {
        assert forall|k: int|
            self.start_triangle_index <= k < self.end_triangle_index implies m1.corners(k)
            == m2.corners(k) by {
            assert(m1.triangles@[k] == m2.triangles@[k]);
        }
        assert(box_holds_range(
            self.bounding_box,
            m2,
            self.start_triangle_index as int,
            self.end_triangle_index as int,
        )) by {
            assert forall|k: int|
                self.start_triangle_index <= k < self.end_triangle_index implies {
                let (p, q, r) = #[trigger] m2.corners(k);
                point_in_box(self.bounding_box, p) && point_in_box(self.bounding_box, q)
                    && point_in_box(self.bounding_box, r)
            } by {
                assert(m1.corners(k) == m2.corners(k));
            }
        }
        match (&self.left, &self.right) {
            (Some(l), Some(r)) => {
                l.lemma_wf_range_bounds(
                    self.start_triangle_index as int,
                    l.end_triangle_index as int,
                );
                r.lemma_wf_range_bounds(
                    l.end_triangle_index as int,
                    self.end_triangle_index as int,
                );
                l.lemma_covers_frame(m1, m2);
                r.lemma_covers_frame(m1, m2);
            },
            _ => {},
        }
    }

    pub proof fn lemma_wf_range_bounds(&self, start: int, end: int)
        requires
            self.wf_range(start, end),
        ensures
            self.wf(),
            self.start_triangle_index == start,
            self.end_triangle_index == end,
    {
    }

    /// Number of nodes in the subtree.
    pub open spec fn size(&self) -> nat
        decreases self,
    {
        1 + match self.left {
            Some(l) => l.size(),
            None => 0,
        } + match self.right {
            Some(r) => r.size(),
            None => 0,
        }
    }

    /// Builds the hierarchy over triangles `start..end`, reordering them in
    /// place: the box of the range is split at its center along its longest
    /// axis, triangles whose centroid lies below the center moving to the front.
    /// A range stays a leaf when it holds at most `MIN_BVH_NODE_SIZE`
    /// triangles, when no triangle moved to the front, or when at most one
    /// stayed behind.
    #[verifier::rlimit(60)]
    #[verifier::spinoff_prover]
    pub fn new_from_mesh(mesh: &mut Mesh, start: usize, end: usize) -> (r: BVHNode)
        requires
            old(mesh).wf(),
            start <= end <= old(mesh).triangles@.len(),
        ensures
            final(mesh).wf(),
            final(mesh).vertices == old(mesh).vertices,
            final(mesh).normals == old(mesh).normals,
            final(mesh).uvs == old(mesh).uvs,
            permuted_within(old(mesh).triangles@, final(mesh).triangles@, start as int, end as int),
            r.wf_range(start as int, end as int),
            r.covers(*final(mesh)),
            is_box_of(r.bounding_box, range_corners(*old(mesh), start as int, end as int)),
            r.built(*final(mesh)),
        decreases end - start,
    {
        let bounding_box = BoundingBox::new_from_mesh_and_triangle_indices(mesh, start, end);
        let diagonals = bounding_box.calculate_diagonals();
        let axis = diagonals.greatest_component();
        let center = bounding_box.calculate_center();
        let ghost original = mesh.triangles@;
        let mut pivot = start;
        let mut i = start;
        while i < end
            invariant
                mesh.wf(),
                mesh.vertices == old(mesh).vertices,
                mesh.normals == old(mesh).normals,
                mesh.uvs == old(mesh).uvs,
                original == old(mesh).triangles@,
                start <= pivot <= i <= end <= mesh.triangles@.len(),
                axis < 3,
                center.bounded(2 * COORD_LIMIT),
                center@ == add3(bounding_box.min@, bounding_box.max@),
                axis == longest_axis(sub3(bounding_box.max@, bounding_box.min@)),
                permuted_within(original, mesh.triangles@, start as int, end as int),
                forall|j: int| start <= j < pivot ==> goes_left(*mesh, j, bounding_box),
                forall|j: int| pivot <= j < i ==> !goes_left(*mesh, j, bounding_box),
            decreases end - i,
        {
            let triangle = *mesh.get_triangle(i);
            proof {
                assert(mesh.triangle_ok(mesh.triangles@[i as int]));
                let t = triangle.vertex_indices;
                assert(mesh.vertices@[t.0 as int].bounded(COORD_LIMIT as int));
                assert(mesh.vertices@[t.1 as int].bounded(COORD_LIMIT as int));
                assert(mesh.vertices@[t.2 as int].bounded(COORD_LIMIT as int));
            }
            let triangle_center = mesh.calculate_triangle_center(&triangle);
            // centroid < center, both kept exact: 2 * (a + b + c) < 3 * (min + max)
            let below = 2 * triangle_center.component(axis) < 3 * center.component(axis);
            assert(below == goes_left(*mesh, i as int, bounding_box));
            if below {
                let ghost before = mesh.triangles@;
                let ghost before_mesh = *mesh;
                mesh.swap_triangles(i, pivot);
                proof {
                    let after = mesh.triangles@;
                    assert(after =~= before.update(i as int, before[pivot as int]).update(
                        pivot as int,
                        before[i as int],
                    ));
                    vstd::seq_lib::to_multiset_update(before, i as int, before[pivot as int]);
                    vstd::seq_lib::to_multiset_update(
                        before.update(i as int, before[pivot as int]),
                        pivot as int,
                        before[i as int],
                    );
                    assert(after.to_multiset() =~= before.to_multiset());
                    assert forall|k: int| start <= k < end implies from_range(
                        #[trigger] after[k],
                        original,
                        start as int,
                        end as int,
                    ) by {
                        assert(from_range(before[k], original, start as int, end as int));
                        assert(from_range(before[i as int], original, start as int, end as int));
                        assert(from_range(before[pivot as int], original, start as int, end as int));
                    }
                    assert forall|j: int| start <= j < end implies from_range(
                        #[trigger] original[j],
                        after,
                        start as int,
                        end as int,
                    ) by {
                        assert(from_range(original[j], before, start as int, end as int));
                        let x = choose|x: int| start <= x < end && before[x] == original[j];
                        if x == i {
                            assert(after[pivot as int] == original[j]);
                        } else if x == pivot {
                            assert(after[i as int] == original[j]);
                        } else {
                            assert(after[x] == original[j]);
                        }
                    }
                    assert forall|j: int| start <= j <= pivot implies goes_left(*mesh, j, bounding_box) by {
                        if j < pivot {
                            assert(goes_left(before_mesh, j, bounding_box));
                            assert(mesh.corners(j) == before_mesh.corners(j));
                        } else {
                            assert(mesh.corners(j) == before_mesh.corners(i as int));
                        }
                    }
                    assert forall|j: int| pivot < j <= i implies !goes_left(*mesh, j, bounding_box) by {
                        if j < i {
                            assert(!goes_left(before_mesh, j, bounding_box));
                            assert(mesh.corners(j) == before_mesh.corners(j));
                        } else {
                            assert(!goes_left(before_mesh, pivot as int, bounding_box));
                            assert(mesh.corners(j) == before_mesh.corners(pivot as int));
                        }
                    }
                    assert forall|k: int| 0 <= k < after.len() implies mesh.triangle_ok(
                        #[trigger] after[k],
                    ) by {
                        assert(mesh.triangle_ok(before[k]));
                        assert(mesh.triangle_ok(before[i as int]));
                        assert(mesh.triangle_ok(before[pivot as int]));
                    }
                }
                pivot += 1;
            }
            i += 1;
        }
        proof {
            lemma_box_of_range_holds(bounding_box, *old(mesh), start as int, end as int);
            lemma_permuted_keeps_box(bounding_box, *old(mesh), *mesh, start as int, end as int);
        }
        let ghost partitioned = *mesh;
        proof {
            lemma_box_of_range_tight(bounding_box, *old(mesh), start as int, end as int);
            lemma_same_range_keeps_tight(bounding_box, *old(mesh), *mesh, start as int, end as int);
        }
        if pivot <= start || pivot >= end - 1 || end - start <= MIN_BVH_NODE_SIZE {
            proof {
                if pivot <= start {
                    assert forall|k: int| start <= k < end implies !#[trigger] goes_left(
                        *mesh,
                        k,
                        bounding_box,
                    ) by {}
                } else if pivot >= end - 1 {
                    assert forall|k: int| start <= k < end && k != pivot implies #[trigger] goes_left(
                        *mesh,
                        k,
                        bounding_box,
                    ) by {}
                    assert(all_left_but(*mesh, start as int, end as int, bounding_box, pivot as int));
                }
            }
            return BVHNode {
                bounding_box,
                left: None,
                right: None,
                start_triangle_index: start,
                end_triangle_index: end,
            };
        }
        let left = BVHNode::new_from_mesh(mesh, start, pivot);
        let ghost after_left = *mesh;
        let right = BVHNode::new_from_mesh(mesh, pivot, end);
        proof {
            assert forall|k: int| start <= k < pivot implies goes_left(*mesh, k, bounding_box) by {
                assert(mesh.triangles@[k] == after_left.triangles@[k]);
                assert(from_range(after_left.triangles@[k], partitioned.triangles@, start as int, pivot as int));
                let j = choose|j: int| start <= j < pivot && partitioned.triangles@[j] == after_left.triangles@[k];
                assert(goes_left(partitioned, j, bounding_box));
                assert(mesh.corners(k) == partitioned.corners(j));
            }
            assert forall|k: int| pivot <= k < end implies !goes_left(*mesh, k, bounding_box) by {
                assert(after_left.triangles@[k] == partitioned.triangles@[k]);
                assert(from_range(mesh.triangles@[k], after_left.triangles@, pivot as int, end as int));
                let j = choose|j: int| pivot <= j < end && after_left.triangles@[j] == mesh.triangles@[k];
                assert(after_left.triangles@[j] == partitioned.triangles@[j]);
                assert(!goes_left(partitioned, j, bounding_box));
                assert(mesh.corners(k) == partitioned.corners(j));
            }
            lemma_permuted_compose(
                original,
                partitioned.triangles@,
                after_left.triangles@,
                mesh.triangles@,
                start as int,
                pivot as int,
                end as int,
            );
            lemma_permuted_keeps_box(bounding_box, *old(mesh), *mesh, start as int, end as int);
            left.lemma_wf_range_bounds(start as int, pivot as int);
            left.lemma_covers_frame(after_left, *mesh);
            left.lemma_built_frame(after_left, *mesh);
            lemma_same_range_keeps_tight(bounding_box, *old(mesh), *mesh, start as int, end as int);
            // The split is two-sided: `start` goes left, `pivot` and `pivot + 1` do not.
            if one_sided(*mesh, start as int, end as int, bounding_box) {
                assert(goes_left(*mesh, start as int, bounding_box));
                let m = choose|m: int|
                    start <= m <= end && #[trigger] all_left_but(*mesh, start as int, end as int, bounding_box, m);
                if m == pivot {
                    assert(!goes_left(*mesh, pivot + 1, bounding_box));
                } else {
                    assert(!goes_left(*mesh, pivot as int, bounding_box));
                }
            }
        }
        BVHNode {
            bounding_box,
            left: Some(Box::new(left)),
            right: Some(Box::new(right)),
            start_triangle_index: start,
            end_triangle_index: end,
        }
    }

    pub fn get_start_triangle_index(&self) -> (r: usize)
        ensures
            r == self.start_triangle_index,
    {
        self.start_triangle_index
    }

    pub fn get_end_triangle_index(&self) -> (r: usize)
        ensures
            r == self.end_triangle_index,
    {
        self.end_triangle_index
    }

    pub fn is_leaf(&self) -> (r: bool)
        ensures
            r == (self.left is None && self.right is None),
    {
        self.left.is_none() && self.right.is_none()
    }
}

/// A box that holds the corners of a range still holds them once the range
/// is permuted.
proof fn lemma_permuted_keeps_box(b: BoundingBox, m1: Mesh, m2: Mesh, start: int, end: int)
    requires
        box_holds_range(b, m1, start, end),
        m1.vertices@ == m2.vertices@,
        permuted_within(m1.triangles@, m2.triangles@, start, end),
    ensures
        box_holds_range(b, m2, start, end),
{
    assert forall|k: int| start <= k < end implies {
        let (p, q, r) = #[trigger] m2.corners(k);
        point_in_box(b, p) && point_in_box(b, q) && point_in_box(b, r)
    } by {
        assert(from_range(m2.triangles@[k], m1.triangles@, start, end));
        let j = choose|j: int| start <= j < end && m1.triangles@[j] == m2.triangles@[k];
        assert(m1.corners(j) == m2.corners(k));
    }
}

proof fn lemma_one_sided_frame(m1: Mesh, m2: Mesh, s: int, e: int, b: BoundingBox)
    requires
        forall|k: int| s <= k < e ==> goes_left(m1, k, b) == goes_left(m2, k, b),
    ensures
        one_sided(m1, s, e, b) == one_sided(m2, s, e, b),
{
    if one_sided(m1, s, e, b) {
        if !(forall|k: int| s <= k < e ==> !#[trigger] goes_left(m1, k, b)) {
            let m = choose|m: int| s <= m <= e && #[trigger] all_left_but(m1, s, e, b, m);
            assert forall|k: int| s <= k < e && k != m implies #[trigger] goes_left(m2, k, b) by {
                assert(goes_left(m1, k, b));
            }
            assert(all_left_but(m2, s, e, b, m));
        } else {
            assert forall|k: int| s <= k < e implies !#[trigger] goes_left(m2, k, b) by {
                assert(!goes_left(m1, k, b));
            }
        }
    }
    if one_sided(m2, s, e, b) {
        if !(forall|k: int| s <= k < e ==> !#[trigger] goes_left(m2, k, b)) {
            let m = choose|m: int| s <= m <= e && #[trigger] all_left_but(m2, s, e, b, m);
            assert forall|k: int| s <= k < e && k != m implies #[trigger] goes_left(m1, k, b) by {
                assert(goes_left(m2, k, b));
            }
            assert(all_left_but(m1, s, e, b, m));
        } else {
            assert forall|k: int| s <= k < e implies !#[trigger] goes_left(m1, k, b) by {
                assert(!goes_left(m2, k, b));
            }
        }
    }
}

/// Tightness survives any reordering that keeps the same triangles in range.
proof fn lemma_same_range_keeps_tight(b: BoundingBox, m1: Mesh, m2: Mesh, s: int, e: int)
    requires
        tight(b, m1, s, e),
        m1.vertices@ == m2.vertices@,
        same_range(m1.triangles@, m2.triangles@, s, e),
    ensures
        tight(b, m2, s, e),
{
    if s < e {
        assert forall|k: int| s <= k < e implies {
            let (p, q, r) = #[trigger] m2.corners(k);
            point_in_box(b, p) && point_in_box(b, q) && point_in_box(b, r)
        } by {
            assert(from_range(m2.triangles@[k], m1.triangles@, s, e));
            let j = choose|j: int| s <= j < e && m1.triangles@[j] == m2.triangles@[k];
            assert(m1.corners(j) == m2.corners(k));
        }
        lemma_same_range_attains_on(b, m1, m2, s, e, 0);
        lemma_same_range_attains_on(b, m1, m2, s, e, 1);
        lemma_same_range_attains_on(b, m1, m2, s, e, 2);
    }
}

proof fn lemma_same_range_attains_on(b: BoundingBox, m1: Mesh, m2: Mesh, s: int, e: int, axis: int)
    requires
        attains_on(b, m1, s, e, axis),
        m1.vertices@ == m2.vertices@,
        same_range(m1.triangles@, m2.triangles@, s, e),
    ensures
        attains_on(b, m2, s, e, axis),
{
    let (k, c) = choose|k: int, c: int|
        s <= k < e && 0 <= c < 3 && #[trigger] coord(corner_of(m1, k, c), axis) == coord(b.min@, axis);
    assert(from_range(m1.triangles@[k], m2.triangles@, s, e));
    let j = choose|j: int| s <= j < e && m2.triangles@[j] == m1.triangles@[k];
    assert(corner_of(m2, j, c) == corner_of(m1, k, c));
    let (k2, c2) = choose|k: int, c: int|
        s <= k < e && 0 <= c < 3 && #[trigger] coord(corner_of(m1, k, c), axis) == coord(b.max@, axis);
    assert(from_range(m1.triangles@[k2], m2.triangles@, s, e));
    let j2 = choose|j: int| s <= j < e && m2.triangles@[j] == m1.triangles@[k2];
    assert(corner_of(m2, j2, c2) == corner_of(m1, k2, c2));
}

/// Permuting `start..end`, then `start..mid`, then `mid..end` permutes
/// `start..end`.
proof fn lemma_permuted_compose<T>(
    s0: Seq<T>,
    s1: Seq<T>,
    s2: Seq<T>,
    s3: Seq<T>,
    start: int,
    mid: int,
    end: int,
)
    requires
        0 <= start <= mid <= end <= s0.len(),
        permuted_within(s0, s1, start, end),
        permuted_within(s1, s2, start, mid),
        permuted_within(s2, s3, mid, end),
    ensures
        permuted_within(s0, s3, start, end),
{
    assert forall|j: int| start <= j < end implies from_range(#[trigger] s0[j], s3, start, end) by {
        assert(from_range(s0[j], s1, start, end));
        let x = choose|x: int| start <= x < end && s1[x] == s0[j];
        if x < mid {
            assert(from_range(s1[x], s2, start, mid));
            let y = choose|y: int| start <= y < mid && s2[y] == s1[x];
            assert(s3[y] == s2[y]);
        } else {
            assert(s2[x] == s1[x]);
            assert(from_range(s2[x], s3, mid, end));
        }
    }
    assert forall|k: int| start <= k < end implies from_range(#[trigger] s3[k], s0, start, end) by {
        let x = s3[k];
        let y = if mid <= k {
            assert(from_range(s3[k], s2, mid, end));
            let j2 = choose|j: int| mid <= j < end && s2[j] == x;
            s2[j2]
        } else {
            s2[k]
        };
        assert(y == x);
        assert(exists|j: int| start <= j < end && s2[j] == x);
        let j2 = choose|j: int| start <= j < end && s2[j] == x;
        let z = if j2 < mid {
            assert(from_range(s2[j2], s1, start, mid));
            let j1 = choose|j: int| start <= j < mid && s1[j] == x;
            j1
        } else {
            j2
        };
        assert(start <= z < end && s1[z] == x);
        assert(from_range(s1[z], s0, start, end));
    }
}

/// Triangle `k` lies in the range of a node still to visit.
pub open spec fn in_pending(stack: Seq<&BVHNode>, k: int) -> bool {
    exists|i: int|
        0 <= i < stack.len() && (#[trigger] stack[i]).start_triangle_index <= k
            < stack[i].end_triangle_index
}

/// Total number of nodes in the subtrees still to visit.
pub open spec fn pending(stack: Seq<&BVHNode>) -> nat
    decreases stack.len(),
{
    if stack.len() == 0 {
        0
    } else {
        pending(stack.drop_last()) + stack.last().size()
    }
}

impl BVHTree {
    pub open spec fn wf(&self) -> bool {
        &&& self.mesh.wf()
        &&& self.root.wf_range(0, self.mesh.triangles@.len() as int)
        &&& self.root.covers(self.mesh)
        &&& self.root.built(self.mesh)
    }

    /// `h` is a hit of `ray` on the mesh no farther than any other.
    pub open spec fn is_nearest_hit(&self, ray: Ray, h: Intersection) -> bool {
        &&& h.triangle_index < self.mesh.triangles@.len()
        &&& self.mesh.is_hit_record(ray, h.triangle_index as int, h)
        &&& forall|k: int|
            0 <= k < self.mesh.triangles@.len() && #[trigger] self.mesh.hit_at(ray, k) is Some
                ==> self.not_farther(ray, h, k)
    }

    /// The hierarchy and a linear scan of the whole mesh agree: a nearest
    /// hit found through the hierarchy and the closest hit of the scan lie at
    /// the same distance (on ties they may name different triangles).
    pub proof fn lemma_bvh_agrees_with_scan(&self, ray: Ray, fast: Intersection, scan: Intersection)
        requires
            self.wf(),
            self.is_nearest_hit(ray, fast),
            self.mesh.is_closest_hit(ray, 0, self.mesh.triangles@.len() as int, scan),
        ensures
            fast.distance.num * scan.distance.den == scan.distance.num * fast.distance.den,
    {
        let kf = fast.triangle_index as int;
        let ks = scan.triangle_index as int;
        assert(self.mesh.hit_at(ray, ks) is Some);
        assert(self.mesh.hit_at(ray, kf) is Some);
        assert(self.not_farther(ray, fast, ks));
    }

    /// `h` is no farther than the hit of triangle `k`.
    pub open spec fn not_farther(&self, ray: Ray, h: Intersection, k: int) -> bool {
        let f = self.mesh.hit_at(ray, k).unwrap();
        h.distance.num * f.1 <= f.0 * h.distance.den
    }

    /// Builds the hierarchy over all triangles of `mesh`, which it keeps with
    /// its triangles reordered: the root's box is the tightest around the
    /// whole mesh, and every node follows the build rule (`BVHNode::built`).
    pub fn new_from_mesh(mesh: Mesh) -> (r: BVHTree)
        requires
            mesh.wf(),
        ensures
            r.wf(),
            r.mesh.vertices == mesh.vertices,
            r.mesh.normals == mesh.normals,
            r.mesh.uvs == mesh.uvs,
            r.mesh.triangles@.len() == mesh.triangles@.len(),
            r.mesh.triangles@.to_multiset() == mesh.triangles@.to_multiset(),
            is_box_of(r.root.bounding_box, range_corners(mesh, 0, mesh.triangles@.len() as int)),
    {
        let ghost given = mesh;
        let mut mesh = mesh;
        let end = mesh.triangles.len();
        let root = BVHNode::new_from_mesh(&mut mesh, 0, end);
        BVHTree { root, mesh }
    }

    pub fn get_mesh(&self) -> (r: &Mesh)
        ensures
            r == &self.mesh,
    {
        &self.mesh
    }

    pub fn get_root(&self) -> (r: &BVHNode)
        ensures
            r == &self.root,
    {
        &self.root
    }

    /// Depth-first traversal with an explicit stack: subtrees whose box the
    /// ray misses, or meets no nearer than the best hit so far, are skipped;
    /// leaves are scanned triangle by triangle.
    pub fn intersect(&self, ray: &Ray) -> (r: Option<Intersection>)
        requires
            self.wf(),
            ray.wf(),
        ensures
            r is None <==> forall|k: int|
                0 <= k < self.mesh.triangles@.len() ==> self.mesh.hit_at(*ray, k) is None,
            r matches Some(h) ==> self.is_nearest_hit(*ray, h),
    {
        let n = self.mesh.triangles.len();
        if self.root.bounding_box.intersect(ray).is_none() {
            proof {
                assert forall|k: int| 0 <= k < n implies self.mesh.hit_at(*ray, k) is None by {
                    if self.mesh.hit_at(*ray, k) is Some {
                        assert(self.mesh.corners(k) == self.mesh.corners(k));
                        lemma_hit_inside_box(self.root.bounding_box, self.mesh, *ray, k);
                    }
                }
            }
            return None;
        }
        let mut stack: Vec<&BVHNode> = Vec::new();
        stack.push(&self.root);
        let mut best: Option<Intersection> = None;
        proof {
            assert forall|k: int| 0 <= k < n && #[trigger] self.mesh.hit_at(*ray, k) is Some implies in_pending(stack@, k) by {
                assert(stack@[0] == &self.root);
            }
        }
        while stack.len() > 0
            invariant
                self.wf(),
                ray.wf(),
                n == self.mesh.triangles@.len(),
                forall|i: int|
                    0 <= i < stack@.len() ==> (#[trigger] stack@[i]).wf() && stack@[i].end_triangle_index
                        <= n && stack@[i].covers(self.mesh),
                best matches Some(h) ==> h.triangle_index < n && self.mesh.is_hit_record(
                    *ray,
                    h.triangle_index as int,
                    h,
                ),
                forall|k: int|
                    0 <= k < n && #[trigger] self.mesh.hit_at(*ray, k) is Some ==> in_pending(stack@, k) || (best matches Some(h)
                        && self.not_farther(*ray, h, k)),
            decreases pending(stack@),
        {
            let ghost before = stack@;
            let ghost best_before = best;
            let node = stack.pop().unwrap();
            proof {
                assert(before.drop_last() =~= stack@);
                assert(node.wf());
                assert(pending(before) == pending(stack@) + node.size());
            }
            let ghost rest = stack@;
            // Triangles of the popped node that the ray hits, still to settle.
            let ghost open = |k: int|
                0 <= k < n && self.mesh.hit_at(*ray, k) is Some && node.start_triangle_index <= k
                    < node.end_triangle_index;
            match node.bounding_box.intersect(ray) {
                None => {
                    proof {
                        assert forall|k: int| #[trigger] open(k) implies false by {
                            lemma_hit_inside_box(node.bounding_box, self.mesh, *ray, k);
                        }
                    }
                },
                Some(box_distance) => {
                    let nearer = match &best {
                        None => true,
                        Some(b) => box_distance.less_than(&b.distance),
                    };
                    if !nearer {
                        proof {
                            let b = best.unwrap();
                            assert forall|k: int| #[trigger] open(k) implies self.not_farther(
                                *ray,
                                b,
                                k,
                            ) by {
                                let f = self.mesh.hit_at(*ray, k).unwrap();
                                lemma_hit_inside_box(node.bounding_box, self.mesh, *ray, k);
                                assert(frac_le(box_distance, f.0, f.1));
                                lemma_frac_le_trans(
                                    b.distance.num as int,
                                    b.distance.den as int,
                                    box_distance.num as int,
                                    box_distance.den as int,
                                    f.0,
                                    f.1,
                                );
                            }
                        }
                    } else {
                        match (&node.left, &node.right) {
                            (Some(l), Some(r)) => {
                                let ghost mid = stack@;
                                proof {
                                    l.lemma_wf_range_bounds(
                                        node.start_triangle_index as int,
                                        l.end_triangle_index as int,
                                    );
                                    r.lemma_wf_range_bounds(
                                        l.end_triangle_index as int,
                                        node.end_triangle_index as int,
                                    );
                                    assert(node.size() == 1 + l.size() + r.size());
                                    assert(pending(before) == pending(mid) + node.size());
                                }
                                stack.push(&**r);
                                proof {
                                    assert(stack@.drop_last() =~= mid);
                                }
                                let ghost mid2 = stack@;
                                stack.push(&**l);
                                proof {
                                    assert(stack@.drop_last() =~= mid2);
                                    assert(pending(mid2) == pending(mid) + r.size());
                                    assert(pending(stack@) == pending(mid2) + l.size());
                                    assert forall|k: int| #[trigger] open(k) implies in_pending(stack@, k) by {
                                        if k < l.end_triangle_index {
                                            assert(stack@[stack@.len() - 1] == &**l);
                                        } else {
                                            assert(stack@[stack@.len() - 2] == &**r);
                                        }
                                    }
                                }
                            },
                            _ => {
                                let hit = self.mesh.intersect_part(
                                    ray,
                                    node.start_triangle_index,
                                    node.end_triangle_index,
                                );
                                proof {
                                    if hit is None {
                                        assert forall|k: int| #[trigger] open(k) implies false by {
                                            assert(self.mesh.hit_at(*ray, k) is None);
                                        }
                                    }
                                }
                                if let Some(h) = hit {
                                    let closer = match &best {
                                        None => true,
                                        Some(b) => h.distance.less_than(&b.distance),
                                    };
                                    if closer {
                                        best = Some(h);
                                    }
                                    proof {
                                        let b = best.unwrap();
                                        assert(b.distance.num * h.distance.den <= h.distance.num
                                            * b.distance.den);
                                        assert forall|k: int| #[trigger] open(k) implies self.not_farther(
                                            *ray,
                                            b,
                                            k,
                                        ) by {
                                            let f = self.mesh.hit_at(*ray, k).unwrap();
                                            assert(h.distance.num * f.1 <= f.0 * h.distance.den);
                                            lemma_frac_le_trans(
                                                b.distance.num as int,
                                                b.distance.den as int,
                                                h.distance.num as int,
                                                h.distance.den as int,
                                                f.0,
                                                f.1,
                                            );
                                        }
                                    }
                                }
                            },
                        }
                    }
                },
            }
            proof {
                // Whatever `best` settled before stays settled: it only got nearer.
                if let Some(b0) = best_before {
                    let b1 = best.unwrap();
                    assert(b1.distance.num * b0.distance.den <= b0.distance.num * b1.distance.den);
                    assert forall|k: int|
                        0 <= k < n && #[trigger] self.mesh.hit_at(*ray, k) is Some
                            && self.not_farther(*ray, b0, k) implies self.not_farther(*ray, b1, k) by {
                        let f = self.mesh.hit_at(*ray, k).unwrap();
                        lemma_frac_le_trans(
                            b1.distance.num as int,
                            b1.distance.den as int,
                            b0.distance.num as int,
                            b0.distance.den as int,
                            f.0,
                            f.1,
                        );
                    }
                }
                assert forall|i: int| 0 <= i < rest.len() implies stack@[i] == rest[i] by {}
                assert forall|k: int|
                    0 <= k < n && #[trigger] self.mesh.hit_at(*ray, k) is Some implies in_pending(
                        stack@,
                        k,
                    ) || (best matches Some(h) && self.not_farther(*ray, h, k)) by {
                    if in_pending(before, k) {
                        let i = choose|i: int|
                            0 <= i < before.len() && (#[trigger] before[i]).start_triangle_index <= k
                                < before[i].end_triangle_index;
                        if i < rest.len() {
                            assert(stack@[i] == rest[i]);
                            assert(before[i] == rest[i]);
                        } else {
                            assert(open(k));
                        }
                    }
                }
            }
        }
        best
    }
}

} // verus!
