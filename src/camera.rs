use vstd::prelude::*;
use crate::matrix::{Matrix, ENTRY_LIMIT};
use crate::vector3::{Vector3, COORD_LIMIT};

verus! {

/// Largest image side, in pixels.
pub const MAX_IMAGE_SIDE: u32 = 65536;

/// A pinhole camera: its position, its orientation and the distance of the
/// image plane in pixels (`width / (2 tan(fov / 2))`). The camera looks along
/// its local +Y axis; local +X is image left and local +Z image up.
#[derive(Clone, Copy, Debug, PartialEq, Eq, Structural)]
pub struct Camera {
    pub position: Vector3,
    pub rotation_matrix: Matrix,
    pub focal_length: i64,
}

/// Twice the local position of the center of pixel `(i, j)` across the image
/// plane: `x = width / 2 - (j + 1/2)` and `z = height / 2 - (i + 1/2)`.
pub open spec fn pixel_offset_of(i: int, j: int, width: int, height: int) -> (int, int) {
    (width - 2 * j - 1, height - 2 * i - 1)
}

pub fn pixel_offset(i: u32, j: u32, width: u32, height: u32) -> (r: (i64, i64))
    requires
        width <= MAX_IMAGE_SIDE,
        height <= MAX_IMAGE_SIDE,
        i < height,
        j < width,
    ensures
        (r.0 as int, r.1 as int) == pixel_offset_of(i as int, j as int, width as int, height as int),
{
    (width as i64 - 2 * j as i64 - 1, height as i64 - 2 * i as i64 - 1)
}

/// The center pixel of an image with odd sides lies on the optical axis.
pub proof fn lemma_center_pixel_on_axis(width: int, height: int)
    requires
        width > 0,
        height > 0,
        width % 2 == 1,
        height % 2 == 1,
    ensures
        pixel_offset_of((height - 1) / 2, (width - 1) / 2, width, height) == (0int, 0int),
{
}

impl Camera {
    pub open spec fn wf(&self) -> bool {
        &&& self.position.bounded(COORD_LIMIT as int)
        &&& self.rotation_matrix.bounded(ENTRY_LIMIT as int)
        &&& 0 < self.focal_length <= 2 * MAX_IMAGE_SIDE
    }

    /// The direction of the ray through the center of pixel `(i, j)`, in world
    /// coordinates, scaled by two: the image of the local
    /// `(2x, 2 * focal_length, 2z)` under the rotation.
    pub open spec fn pixel_direction_of(&self, i: int, j: int, width: int, height: int) -> (int, int, int) {
        let (x2, z2) = pixel_offset_of(i, j, width, height);
        self.rotation_matrix.apply(
            Vector3 { x: x2 as i64, y: (2 * self.focal_length) as i64, z: z2 as i64 },
        )
    }

    pub fn new(position: Vector3, rotation_matrix: Matrix, focal_length: i64) -> (r: Camera)
        ensures
            r.position == position,
            r.rotation_matrix == rotation_matrix,
            r.focal_length == focal_length,
    {
        Camera { position, rotation_matrix, focal_length }
    }

    pub fn get_position(&self) -> (r: &Vector3)
        ensures
            *r == self.position,
    {
        &self.position
    }

    pub fn get_rotation_matrix(&self) -> (r: &Matrix)
        ensures
            *r == self.rotation_matrix,
    {
        &self.rotation_matrix
    }

    pub fn calculate_pixel_direction(&self, i: u32, j: u32, width: u32, height: u32) -> (r: (
        i128,
        i128,
        i128,
    ))
        requires
            self.wf(),
            width <= MAX_IMAGE_SIDE,
            height <= MAX_IMAGE_SIDE,
            i < height,
            j < width,
        ensures
            (r.0 as int, r.1 as int, r.2 as int) == self.pixel_direction_of(
                i as int,
                j as int,
                width as int,
                height as int,
            ),
    {
        let (x2, z2) = pixel_offset(i, j, width, height);
        let local = Vector3 { x: x2, y: 2 * self.focal_length, z: z2 };
        self.rotation_matrix.mul_vector(&local)
    }

    /// The ray through the center of the middle pixel of an image with odd
    /// sides points along the camera's forward axis: the rotated local +Y.
    pub proof fn lemma_center_pixel_looks_forward(&self, width: int, height: int)
        requires
            width > 0,
            height > 0,
            width % 2 == 1,
            height % 2 == 1,
        ensures
            self.pixel_direction_of((height - 1) / 2, (width - 1) / 2, width, height)
                == self.rotation_matrix.apply(
                Vector3 { x: 0, y: (2 * self.focal_length) as i64, z: 0 },
            ),
    {
        lemma_center_pixel_on_axis(width, height);
    }
}

/// Offset of pixel `(i, j)`'s first byte in a row-major RGB buffer.
pub fn pixel_byte_offset(i: u32, j: u32, width: u32, height: u32) -> (r: usize)
    requires
        width <= MAX_IMAGE_SIDE,
        height <= MAX_IMAGE_SIDE,
        i < height,
        j < width,
        3 * width * height <= usize::MAX,
    ensures
        r == 3 * (i * width + j),
        r + 3 <= 3 * width * height,
{
    proof {
        assert(i * width + j < height * width) by (nonlinear_arith)
            requires i < height, j < width;
        assert(height * width <= MAX_IMAGE_SIDE * MAX_IMAGE_SIDE) by (nonlinear_arith)
            requires width <= MAX_IMAGE_SIDE, height <= MAX_IMAGE_SIDE;
        assert(3 * width * height == 3 * (height * width)) by (nonlinear_arith);
    }
    3 * (i as usize * width as usize + j as usize)
}

} // verus!
