use raytracer::bounding_box::BoundingBox;
use raytracer::bvh::BVHTree;
use raytracer::mesh::{Mesh, TriangleIndices};
use raytracer::ray::Ray;
use raytracer::vector3::Vector3;

fn v(x: i64, y: i64, z: i64) -> Vector3 {
    Vector3::new(x, y, z)
}

fn tri(a: usize, b: usize, c: usize) -> TriangleIndices {
    TriangleIndices::new((a, b, c), (0, 0, 0), (0, 0, 0))
}

fn one_triangle_mesh() -> Mesh {
    Mesh::new(
        vec![v(0, 0, 0), v(10, 0, 0), v(0, 10, 0)],
        vec![v(0, 0, 1)],
        vec![v(0, 0, 0)],
        vec![tri(0, 1, 2)],
    )
    .unwrap()
}

/// A grid of `n * n` squares (two triangles each) in the plane z = `z`.
fn grid_mesh(n: i64, z: i64) -> Mesh {
    let mut vertices = Vec::new();
    for i in 0..=n {
        for j in 0..=n {
            vertices.push(v(i * 10, j * 10, z + (i * 7 + j * 3) % 5));
        }
    }
    let mut triangles = Vec::new();
    let w = (n + 1) as usize;
    for i in 0..n as usize {
        for j in 0..n as usize {
            let a = i * w + j;
            triangles.push(tri(a, a + w, a + 1));
            triangles.push(tri(a + 1, a + w, a + w + 1));
        }
    }
    Mesh::new(vertices, vec![v(0, 0, 1)], vec![v(0, 0, 0)], triangles).unwrap()
}

fn as_f64(num: i128, den: i128) -> f64 {
    num as f64 / den as f64
}

#[test]
fn cross_and_dot_are_exact() {
    let a = v(1, 2, 3);
    let b = v(4, 5, 6);
    assert_eq!(a.cross(&b), v(-3, 6, -3));
    assert_eq!(a.dot(&b), 32);
    assert_eq!(v(-4, 2, 9).greatest_component(), 2);
    assert_eq!(v(7, 7, 1).greatest_component(), 0);
}

#[test]
fn ray_hits_triangle_at_exact_distance() {
    let mesh = one_triangle_mesh();
    let ray = Ray::new(v(2, 2, 10), v(0, 0, -1));
    let hit = mesh.intersect(&ray).unwrap();
    assert_eq!(as_f64(hit.distance.num, hit.distance.den), 10.0);
    assert_eq!(hit.triangle_index, 0);
    // Arrives against the normal (0, 0, 100): from outside.
    assert!(hit.is_exterior());
    assert_eq!(*hit.get_normal(), v(0, 0, 100));
    // Barycentric weights of (2, 2): beta = gamma = 0.2.
    assert_eq!(as_f64(hit.beta, hit.distance.den), 0.2);
    assert_eq!(as_f64(hit.gamma, hit.distance.den), 0.2);
}

#[test]
fn ray_from_behind_is_interior() {
    let mesh = one_triangle_mesh();
    let ray = Ray::new(v(1, 1, -4), v(0, 0, 2));
    let hit = mesh.intersect(&ray).unwrap();
    assert_eq!(as_f64(hit.distance.num, hit.distance.den), 2.0);
    assert!(!hit.is_exterior());
}

#[test]
fn ray_misses_outside_or_behind_or_parallel() {
    let mesh = one_triangle_mesh();
    assert!(mesh.intersect(&Ray::new(v(8, 8, 10), v(0, 0, -1))).is_none());
    assert!(mesh.intersect(&Ray::new(v(2, 2, 10), v(0, 0, 1))).is_none());
    assert!(mesh.intersect(&Ray::new(v(2, 2, 0), v(1, 0, 0))).is_none());
    assert!(mesh.intersect(&Ray::new(v(2, 2, 10), v(0, 0, 0))).is_none());
}

#[test]
fn closest_of_stacked_triangles_wins() {
    let mesh = Mesh::new(
        vec![
            v(0, 0, 0),
            v(10, 0, 0),
            v(0, 10, 0),
            v(0, 0, 5),
            v(10, 0, 5),
            v(0, 10, 5),
        ],
        vec![v(0, 0, 1)],
        vec![v(0, 0, 0)],
        vec![tri(0, 1, 2), tri(3, 4, 5), tri(3, 4, 5)],
    )
    .unwrap();
    let ray = Ray::new(v(1, 1, 20), v(0, 0, -1));
    let hit = mesh.intersect(&ray).unwrap();
    assert_eq!(as_f64(hit.distance.num, hit.distance.den), 15.0);
    // Two triangles at the same distance: the first is kept.
    assert_eq!(hit.triangle_index, 1);
    let part = mesh.intersect_part(&ray, 0, 1).unwrap();
    assert_eq!(as_f64(part.distance.num, part.distance.den), 20.0);
    assert!(mesh.intersect_part(&ray, 1, 1).is_none());
}

#[test]
fn mesh_rejects_bad_indices_and_coordinates() {
    assert!(Mesh::new(vec![v(0, 0, 0)], vec![v(0, 0, 1)], vec![v(0, 0, 0)], vec![tri(0, 0, 1)])
        .is_none());
    assert!(Mesh::new(vec![v(300_000, 0, 0)], vec![], vec![], vec![]).is_none());
    assert!(Mesh::new(vec![], vec![], vec![], vec![]).is_some());
}

#[test]
fn bounding_box_of_triangle_range_is_tight() {
    let mesh = grid_mesh(3, 0);
    let b = BoundingBox::new_from_mesh_and_triangle_indices(&mesh, 0, 2);
    assert_eq!(b.min, v(0, 0, 0));
    assert_eq!(b.max, v(10, 10, 3));
    let all = BoundingBox::new_from_mesh(&mesh);
    assert_eq!(all.min.x, 0);
    assert_eq!(all.max.x, 30);
    assert_eq!(all.max.y, 30);
    assert_eq!(all.calculate_diagonals(), v(30, 30, all.max.z - all.min.z));
    assert_eq!(all.calculate_center(), v(30, 30, all.min.z + all.max.z));
}

#[test]
fn empty_range_box_is_never_hit() {
    let mesh = grid_mesh(1, 0);
    let b = BoundingBox::new_from_mesh_and_triangle_indices(&mesh, 1, 1);
    assert!(b.intersect(&Ray::new(v(0, 0, 0), v(1, 1, 1))).is_none());
}

#[test]
fn box_entry_distance() {
    let b = BoundingBox::new(v(10, -5, -5), v(20, 5, 5));
    let f = b.intersect(&Ray::new(v(0, 0, 0), v(2, 0, 0))).unwrap();
    assert_eq!(as_f64(f.num, f.den), 5.0);
    // Starting inside: distance zero.
    let f = b.intersect(&Ray::new(v(15, 0, 0), v(1, 0, 0))).unwrap();
    assert_eq!(f.num, 0);
    // Behind the ray, or passing beside it.
    assert!(b.intersect(&Ray::new(v(0, 0, 0), v(-1, 0, 0))).is_none());
    assert!(b.intersect(&Ray::new(v(0, 10, 0), v(1, 0, 0))).is_none());
    // Diagonal entry through the corner region.
    let f = b.intersect(&Ray::new(v(0, -20, 0), v(1, 1, 0))).unwrap();
    assert_eq!(as_f64(f.num, f.den), 15.0);
}

fn sorted_triangles(mesh: &Mesh) -> Vec<(usize, usize, usize)> {
    let mut t: Vec<_> = mesh.get_triangles().iter().map(|t| t.get_vertex_indices()).collect();
    t.sort();
    t
}

#[test]
fn ray_leaving_through_a_face_misses_the_box() {
    let b = BoundingBox::new(v(0, 0, 0), v(10, 10, 10));
    // Starts on the face x = 10 and moves away: no point with t > 0 is inside.
    assert!(b.intersect(&Ray::new(v(10, 5, 5), v(1, 0, 0))).is_none());
    // Starts on the same face and moves in: inside from t = 0.
    let f = b.intersect(&Ray::new(v(10, 5, 5), v(-1, 0, 0))).unwrap();
    assert_eq!(f.num, 0);
    // Grazes an edge from outside along it: every point on the edge is in the closed box.
    let f = b.intersect(&Ray::new(v(-5, 10, 10), v(1, 0, 0))).unwrap();
    assert_eq!(as_f64(f.num, f.den), 5.0);
}

fn check_node(node: &raytracer::bvh::BVHNode, mesh: &Mesh) {
    let (s, e) = (node.get_start_triangle_index(), node.get_end_triangle_index());
    let b = BoundingBox::new_from_mesh_and_triangle_indices(mesh, s, e);
    assert_eq!(node.bounding_box, b);
    match (&node.left, &node.right) {
        (Some(l), Some(r)) => {
            assert!(e - s > 5);
            assert_eq!(l.get_start_triangle_index(), s);
            assert_eq!(l.get_end_triangle_index(), r.get_start_triangle_index());
            assert_eq!(r.get_end_triangle_index(), e);
            assert!(r.get_end_triangle_index() - r.get_start_triangle_index() >= 2);
            check_node(l, mesh);
            check_node(r, mesh);
        }
        _ => assert!(node.is_leaf()),
    }
}

#[test]
fn bvh_nodes_hold_tight_boxes_and_split_ranges() {
    let tree = BVHTree::new_from_mesh(grid_mesh(8, 0));
    check_node(tree.get_root(), tree.get_mesh());
    let root = tree.get_root();
    assert_eq!(root.bounding_box.min.x, 0);
    assert_eq!(root.bounding_box.max.x, 80);
}

#[test]
fn bvh_build_permutes_triangles() {
    let mesh = grid_mesh(8, 0);
    let before = sorted_triangles(&mesh);
    let tree = BVHTree::new_from_mesh(mesh.clone());
    assert_eq!(sorted_triangles(tree.get_mesh()), before);
    assert_eq!(tree.get_mesh().get_vertices(), mesh.get_vertices());
    let root = tree.get_root();
    assert_eq!(root.get_start_triangle_index(), 0);
    assert_eq!(root.get_end_triangle_index(), 128);
    assert!(!root.is_leaf());
}

#[test]
fn bvh_agrees_with_linear_scan() {
    let mesh = grid_mesh(12, 0);
    let tree = BVHTree::new_from_mesh(mesh.clone());
    let mut hits = 0;
    for k in 0..1000i64 {
        let origin = v((k * 37) % 140 - 10, (k * 53) % 140 - 10, 50 + k % 7);
        let direction = v((k * 11) % 9 - 4, (k * 13) % 9 - 4, -(1 + k % 5));
        let ray = Ray::new(origin, direction);
        let linear = mesh.intersect(&ray);
        let fast = tree.intersect(&ray);
        match (linear, fast) {
            (None, None) => {}
            (Some(a), Some(b)) => {
                hits += 1;
                assert_eq!(a.distance.num * b.distance.den, b.distance.num * a.distance.den);
            }
            (a, b) => panic!("ray {} disagrees: {:?} vs {:?}", k, a, b),
        }
    }
    assert!(hits > 100);
}

#[test]
fn single_triangle_tree_is_a_leaf() {
    let tree = BVHTree::new_from_mesh(one_triangle_mesh());
    assert!(tree.get_root().is_leaf());
    let hit = tree.intersect(&Ray::new(v(2, 2, 10), v(0, 0, -1))).unwrap();
    assert_eq!(as_f64(hit.distance.num, hit.distance.den), 10.0);
    assert!(tree.intersect(&Ray::new(v(20, 2, 10), v(0, 0, -1))).is_none());
}

#[test]
fn swap_triangles_exchanges_two() {
    let mut mesh = grid_mesh(1, 0);
    let a = mesh.get_triangle(0).get_vertex_indices();
    let b = mesh.get_triangle(1).get_vertex_indices();
    mesh.swap_triangles(0, 1);
    assert_eq!(mesh.get_triangle(0).get_vertex_indices(), b);
    assert_eq!(mesh.get_triangle(1).get_vertex_indices(), a);
}

#[test]
fn triangle_center_is_tripled_centroid() {
    let mesh = one_triangle_mesh();
    let t = *mesh.get_triangle(0);
    assert_eq!(mesh.calculate_triangle_center(&t), v(10, 10, 0));
    assert_eq!(t.get_normal_indices(), (0, 0, 0));
    assert_eq!(t.get_uv_indices(), (0, 0, 0));
}
