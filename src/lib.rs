pub mod bounding_box;
pub mod bvh;
pub mod camera;
pub mod fraction;
pub mod intersection;
pub mod matrix;
pub mod mesh;
pub mod obj;
pub mod optics;
pub mod ray;
pub mod scene;
pub mod texture;
pub mod vector3;
