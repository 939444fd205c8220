use raytracer::bvh::BVHTree;
use raytracer::camera::{pixel_byte_offset, pixel_offset, Camera};
use raytracer::matrix::{calculate_rotation_matrix, fixed_floor, Matrix};
use raytracer::mesh::{Mesh, TriangleIndices};
use raytracer::optics::{schlick_reflectance, total_internal_reflection};
use raytracer::ray::Ray;
use raytracer::scene::{
    calculate_color_step, pick_light_source, ray_paths, shading_step, ShadingStep, Surface,
    MAX_RECURSION_DEPTH,
};
use raytracer::texture::Texture;
use raytracer::vector3::{Vector3, ONE};

fn v(x: i64, y: i64, z: i64) -> Vector3 {
    Vector3::new(x, y, z)
}

fn surface(opaque: bool, mirror: bool, transparent: bool, light_source: bool) -> Surface {
    Surface { opaque, mirror, transparent, light_source }
}

fn square_mesh() -> Mesh {
    Mesh::new(
        vec![v(0, 0, 0), v(10, 0, 0), v(0, 10, 0)],
        vec![v(0, 0, ONE)],
        vec![v(0, 0, 0)],
        vec![TriangleIndices::new((0, 1, 2), (0, 0, 0), (0, 0, 0))],
    )
    .unwrap()
}

#[test]
fn fixed_floor_rounds_down() {
    assert_eq!(fixed_floor(3 * ONE as i128 + 5), 3);
    assert_eq!(fixed_floor(-(ONE as i128)), -1);
    assert_eq!(fixed_floor(-1), -1);
    assert_eq!(fixed_floor(0), 0);
}

#[test]
fn identity_rotation_keeps_vectors() {
    let m = calculate_rotation_matrix(v(ONE, ONE, ONE), v(0, 0, 0));
    assert_eq!(*m.a(), v(ONE, 0, 0));
    assert_eq!(*m.b(), v(0, ONE, 0));
    assert_eq!(*m.c(), v(0, 0, ONE));
    assert_eq!(m.mul_vector(&v(3, -4, 5)), (3, -4, 5));
}

#[test]
fn quarter_turn_about_z() {
    // cos = 0, sin = 1 about z only.
    let m = calculate_rotation_matrix(v(ONE, ONE, 0), v(0, 0, ONE));
    assert_eq!(m.mul_vector(&v(7, 0, 0)), (0, 7, 0));
    assert_eq!(m.mul_vector(&v(0, 7, 0)), (-7, 0, 0));
    let t = m.transpose();
    assert_eq!(t.mul_vector(&v(0, 7, 0)), (7, 0, 0));
}

#[test]
fn matrix_product_and_transpose() {
    let m = Matrix::new(v(ONE, 2 * ONE, 0), v(0, ONE, 0), v(0, 0, 3 * ONE));
    let p = m.mul(&m).unwrap();
    assert_eq!(*p.a(), v(ONE, 4 * ONE, 0));
    assert_eq!(*p.c(), v(0, 0, 9 * ONE));
    assert_eq!(*m.transpose().b(), v(2 * ONE, ONE, 0));
}

#[test]
fn translate_moves_vertices_only_within_bounds() {
    let mut mesh = square_mesh();
    assert!(mesh.translate(v(5, -5, 1)));
    assert_eq!(mesh.get_vertices()[1], v(15, -5, 1));
    assert!(!mesh.translate(v(262_144, 0, 0)));
    assert_eq!(mesh.get_vertices()[1], v(15, -5, 1));
}

#[test]
fn rotate_turns_vertices_and_normals() {
    let mut mesh = square_mesh();
    let m = calculate_rotation_matrix(v(0, ONE, ONE), v(ONE, 0, 0));
    assert!(mesh.rotate(&m));
    // A quarter turn about x takes y to z.
    assert_eq!(mesh.get_vertices()[2], v(0, 0, 10));
    assert_eq!(mesh.get_normals()[0], v(0, -ONE, 0));
    assert_eq!(mesh.get_uvs().len(), 1);
}

#[test]
fn dispatch_follows_material_order() {
    let d = MAX_RECURSION_DEPTH;
    assert_eq!(shading_step(&surface(true, true, true, true), 1, d, false), ShadingStep::Emit);
    assert_eq!(shading_step(&surface(true, true, true, true), 1, d, true), ShadingStep::Diffuse);
    assert_eq!(shading_step(&surface(false, true, true, false), 2, d, false), ShadingStep::Reflect);
    assert_eq!(shading_step(&surface(false, false, true, false), 3, d, true), ShadingStep::Refract);
    assert_eq!(shading_step(&surface(false, false, false, false), 1, d, false), ShadingStep::Black);
    assert_eq!(shading_step(&surface(true, false, false, false), d, d, false), ShadingStep::Diffuse);
    assert_eq!(shading_step(&surface(true, false, false, false), d + 1, d, false), ShadingStep::Black);
}

#[test]
fn zero_recursion_depth_renders_black() {
    for &(o, m, t, l) in &[
        (true, false, false, false),
        (false, true, false, false),
        (false, false, true, false),
        (false, false, false, true),
    ] {
        let s = surface(o, m, t, l);
        assert_eq!(calculate_color_step(&s, 3, 0), ShadingStep::Black);
        assert_eq!(shading_step(&s, 1, 0, false), ShadingStep::Black);
    }
}

#[test]
fn no_lights_renders_black() {
    let s = surface(true, false, false, false);
    assert_eq!(calculate_color_step(&s, 0, MAX_RECURSION_DEPTH), ShadingStep::Black);
    assert_eq!(calculate_color_step(&s, 1, MAX_RECURSION_DEPTH), ShadingStep::Diffuse);
}

#[test]
fn light_pick_is_in_range() {
    assert_eq!(pick_light_source(0), None);
    assert_eq!(pick_light_source(1), Some(0));
    for _ in 0..200 {
        assert!(pick_light_source(3).unwrap() < 3);
    }
}

#[test]
fn path_count_prefers_antialiasing() {
    assert_eq!(ray_paths(Some(1024), Some(4096), Some(256)), 1024);
    assert_eq!(ray_paths(None, Some(4096), Some(256)), 4096);
    assert_eq!(ray_paths(None, None, Some(256)), 256);
    assert_eq!(ray_paths(None, None, None), 1);
}

#[test]
fn center_pixel_looks_forward() {
    assert_eq!(pixel_offset(2, 2, 5, 5), (0, 0));
    assert_eq!(pixel_offset(0, 0, 4, 2), (3, 1));
    let rot = calculate_rotation_matrix(v(ONE, ONE, 0), v(0, 0, ONE));
    let camera = Camera::new(v(0, 55, 0), rot, 100);
    // Forward (+Y) turned a quarter about z points along -X.
    assert_eq!(camera.calculate_pixel_direction(2, 2, 5, 5), (-200, 0, 0));
    assert_eq!(*camera.get_position(), v(0, 55, 0));
    assert_eq!(*camera.get_rotation_matrix(), rot);
}

#[test]
fn pixel_bytes_are_row_major() {
    assert_eq!(pixel_byte_offset(0, 0, 512, 512), 0);
    assert_eq!(pixel_byte_offset(1, 2, 512, 512), 3 * (512 + 2));
    assert_eq!(pixel_byte_offset(511, 511, 512, 512), 3 * 512 * 512 - 3);
}

#[test]
fn texture_lookup_by_uv() {
    let lut: Vec<i64> = (0..256).map(|c| c * 10).collect();
    let bytes: Vec<u8> = (0..12).map(|b| b as u8).collect();
    assert!(Texture::from_rgb8(2, 2, &bytes[..11].to_vec(), &lut).is_none());
    let t = Texture::from_rgb8(2, 2, &bytes, &lut).unwrap();
    // u = 0.75 -> column 1; v = 0.75 -> row 2 - 1 = 1.
    assert_eq!(t.get_color(3 * ONE / 4, 3 * ONE / 4), v(90, 100, 110));
    // u = 0.25 -> column 0; v = 0.5 -> row 1.
    assert_eq!(t.get_color(ONE / 4, ONE / 2), v(60, 70, 80));
}

#[test]
fn reflection_mirrors_about_normal() {
    let ray = Ray::new(v(0, 0, 0), v(1, -1, 0));
    // Normal (0, 2, 0): |n|^2 = 4, so the result is 4 * (1, 1, 0).
    assert_eq!(ray.calculate_reflected_direction(&v(0, 2, 0)), (4, 4, 0));
    let r = Ray::new(v(1, 2, 3), v(3, 5, -2)).calculate_reflected_direction(&v(1, 1, 1));
    // r . n == -(d . n) |n|^2 = -18
    assert_eq!(r.0 + r.1 + r.2, -18);
}

fn fixed(x: f64) -> i64 {
    (x * ONE as f64).round() as i64
}

#[test]
fn empty_scene_renders_black() {
    let empty = Mesh::new(vec![], vec![], vec![], vec![]).unwrap();
    let tree = BVHTree::new_from_mesh(empty);
    assert!(tree.get_root().is_leaf());
    for k in 0..50i64 {
        let ray = Ray::new(v(0, 55, 0), v(k - 25, -100, 25 - k));
        assert!(tree.intersect(&ray).is_none());
    }
    let s = surface(true, false, false, false);
    assert_eq!(calculate_color_step(&s, 0, MAX_RECURSION_DEPTH), ShadingStep::Black);
}

#[test]
fn glancing_glass_to_air_reflects_totally() {
    // Critical angle from 1.5 into 1.0: cos_i = sqrt(1 - (1/1.5)^2) ~ 0.745.
    assert!(total_internal_reflection(fixed(1.5), fixed(1.0), fixed(0.3)));
    assert!(total_internal_reflection(fixed(1.5), fixed(1.0), fixed(-0.7)));
    assert!(!total_internal_reflection(fixed(1.5), fixed(1.0), fixed(0.8)));
    assert!(!total_internal_reflection(fixed(1.0), fixed(1.5), fixed(0.0)));
    assert!(!total_internal_reflection(fixed(1.5), fixed(1.0), ONE));
}

#[test]
fn schlick_at_normal_incidence() {
    let (num, den) = schlick_reflectance(fixed(1.0), fixed(1.5), ONE);
    // ((1 - 1.5) / 2.5)^2 = 0.04 exactly.
    assert_eq!(num * 25, den);
    let (num, den) = schlick_reflectance(fixed(1.5), fixed(1.0), -ONE);
    assert_eq!(num * 25, den);
}

#[test]
fn schlick_grows_toward_glancing_incidence() {
    let r = |c: f64| {
        let (num, den) = schlick_reflectance(fixed(1.0), fixed(1.5), fixed(c));
        num as f64 / den as f64
    };
    assert!((r(1.0) - 0.04).abs() < 1e-12);
    assert!(r(0.12) >= 0.5);
    assert!(r(0.0) == 1.0);
    assert!(r(0.5) > r(0.9));
}

#[test]
fn scale_multiplies_vertices_only() {
    let mut mesh = square_mesh();
    assert!(mesh.scale(3 * ONE / 2));
    assert_eq!(mesh.get_vertices()[1], v(15, 0, 0));
    assert_eq!(mesh.get_normals()[0], v(0, 0, ONE));
    assert!(mesh.translate(v(200_000, 0, 0)));
    assert!(!mesh.scale(2 * ONE));
    assert_eq!(mesh.get_vertices()[1], v(200_015, 0, 0));
}
