use vstd::prelude::*;
use crate::vector3::{Vector3, ONE};

verus! {

/// Largest texture side, in pixels.
pub const MAX_TEXTURE_SIDE: usize = 16384;

/// An image texture: `width * height` linear colors, row by row.
#[derive(Clone, Debug)]
pub struct Texture {
    pub data: Vec<Vector3>,
    pub width: usize,
    pub height: usize,
}

/// Column and row of the texel that uv coordinates `(u, v)` (in units of
/// `ONE`, in `[0, 1)`) land on: `floor(u * width)` and `height - floor(v * height)`.
pub open spec fn texel_of(u: int, v: int, width: int, height: int) -> (int, int) {
    ((u * width) / (ONE as int), height - (v * height) / (ONE as int))
}

/// Pixel `k` of an RGB byte buffer, each channel looked up in `linear`.
pub open spec fn linear_color(bytes: Seq<u8>, linear: Seq<i64>, k: int) -> Vector3 {
    Vector3 {
        x: linear[bytes[3 * k] as int],
        y: linear[bytes[3 * k + 1] as int],
        z: linear[bytes[3 * k + 2] as int],
    }
}

impl Texture {
    pub open spec fn wf(&self) -> bool {
        &&& 0 < self.width <= MAX_TEXTURE_SIDE
        &&& 0 < self.height <= MAX_TEXTURE_SIDE
        &&& self.data@.len() == self.width * self.height
    }

    /// The texture of `width * height` pixels given as RGB bytes, each byte
    /// turned into a linear intensity through `linear` (256 entries); `None`
    /// when the byte count is not three per pixel.
    pub fn from_rgb8(width: usize, height: usize, bytes: &Vec<u8>, linear: &Vec<i64>) -> (r: Option<
        Texture,
    >)
        requires
            0 < width <= MAX_TEXTURE_SIDE,
            0 < height <= MAX_TEXTURE_SIDE,
            linear@.len() == 256,
        ensures
            r is None <==> bytes@.len() != 3 * width * height,
            r matches Some(t) ==> {
                &&& t.wf()
                &&& t.width == width
                &&& t.height == height
                &&& forall|k: int|
                    0 <= k < width * height ==> (#[trigger] t.data@[k]) == linear_color(bytes@, linear@, k)
            },
    {
        proof {
            assert(width * height <= MAX_TEXTURE_SIDE * MAX_TEXTURE_SIDE) by (nonlinear_arith)
                requires width <= MAX_TEXTURE_SIDE, height <= MAX_TEXTURE_SIDE;
            assert(0 < width * height) by (nonlinear_arith) requires width > 0, height > 0;
            assert(3 * width * height == 3 * (width * height)) by (nonlinear_arith);
        }
        let n = width * height;
        if bytes.len() != 3 * n {
            return None;
        }
        let mut data: Vec<Vector3> = Vec::new();
        let mut k: usize = 0;
        while k < n
            invariant
                n == width * height,
                n <= MAX_TEXTURE_SIDE * MAX_TEXTURE_SIDE,
                bytes@.len() == 3 * n,
                linear@.len() == 256,
                k <= n,
                data@.len() == k,
                forall|m: int|
                    0 <= m < k ==> (#[trigger] data@[m]) == linear_color(bytes@, linear@, m),
            decreases n - k,
        {
            let c = Vector3 {
                x: linear[bytes[3 * k] as usize],
                y: linear[bytes[3 * k + 1] as usize],
                z: linear[bytes[3 * k + 2] as usize],
            };
            data.push(c);
            k += 1;
        }
        Some(Texture { data, width, height })
    }

    /// The color stored for uv coordinates `(u, v)`, in units of `ONE`.
    pub fn get_color(&self, u: i64, v: i64) -> (r: Vector3)
        requires
            self.wf(),
            0 <= u < ONE,
            0 <= v < ONE,
            (v * self.height) / (ONE as int) >= 1,
        ensures
            ({
                let (x, y) = texel_of(u as int, v as int, self.width as int, self.height as int);
                r == self.data@[y * self.width + x]
            }),
    {
        let w = self.width as u64;
        let h = self.height as u64;
        proof {
            assert(u * w < ONE * w) by (nonlinear_arith) requires 0 <= u < ONE, w > 0;
            assert(v * h < ONE * h) by (nonlinear_arith) requires 0 <= v < ONE, h > 0;
        }
        let x = (u as u64 * w) / (ONE as u64);
        let fy = (v as u64 * h) / (ONE as u64);
        proof {
            assert(x < w) by (nonlinear_arith)
                requires x == (u * w) / (ONE as int), u * w < ONE * w, 0 <= u * w;
            assert(fy < h) by (nonlinear_arith)
                requires fy == (v * h) / (ONE as int), v * h < ONE * h, 0 <= v * h;
        }
        let y = h - fy;
        proof {
            assert(y * w + x < h * w) by (nonlinear_arith)
                requires y <= h, x < w, fy >= 1, y == h - fy;
            assert(h * w <= MAX_TEXTURE_SIDE * MAX_TEXTURE_SIDE) by (nonlinear_arith)
                requires h <= MAX_TEXTURE_SIDE, w <= MAX_TEXTURE_SIDE;
            assert(y * w <= h * w) by (nonlinear_arith) requires y <= h;
            assert(h * w == self.width * self.height) by (nonlinear_arith)
                requires h == self.height, w == self.width;
        }
        self.data[(y * w + x) as usize]
    }
}

} // verus!
