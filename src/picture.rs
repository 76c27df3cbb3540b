//! The rendered picture: a dense row-major grid of fixed-point colors.
use vstd::prelude::*;

use crate::color::Color;
use crate::vec3::Vec3;

verus! {

pub struct Picture {
    pub width: usize,
    pub height: usize,
    pub data: Vec<Color>,
}

impl Picture {
    /// One color per pixel.
    pub open spec fn wf(&self) -> bool {
        self.data.len() == self.width * self.height
    }

    /// A black picture of the given size.
    pub fn new(width: usize, height: usize) -> (p: Picture)
        requires
            width * height <= usize::MAX,
        ensures
            p.wf(),
            p.width == width,
            p.height == height,
            forall|k: int| 0 <= k < p.data.len() ==> p.data@[k] == (Vec3 { x: 0u32, y: 0u32, z: 0u32 }),
    {
        let n = width * height;
        let mut data: Vec<Color> = Vec::new();
        while data.len() < n
            invariant
                data.len() <= n,
                forall|k: int| 0 <= k < data.len() ==> data@[k] == (Vec3 { x: 0u32, y: 0u32, z: 0u32 }),
            decreases n - data.len(),
        {
            data.push(Vec3::new(0, 0, 0));
        }
        Picture { width, height, data }
    }

    /// The color in column `x` of row `y`.
    pub fn at(&self, x: usize, y: usize) -> (c: Color)
        requires
            self.wf(),
            x < self.width,
            y < self.height,
        ensures
            c == self.data@[y * self.width + x],
    {
        proof {
            assert(y * self.width + x < self.width * self.height) by (nonlinear_arith)
                requires
                    x < self.width,
                    y < self.height,
            ;
        }
        self.data[y * self.width + x]
    }

    /// The picture whose pixel `k` has the channels at `3k`, `3k + 1` and `3k + 2` of `values`.
    pub fn from_channels(values: &Vec<u32>, width: usize, height: usize) -> (p: Picture)
        requires
            values.len() == 3 * width * height,
        ensures
            p.wf(),
            p.width == width,
            p.height == height,
            forall|k: int|
                0 <= k < p.data.len() ==> #[trigger] p.data@[k] == (Vec3 {
                    x: values@[3 * k],
                    y: values@[3 * k + 1],
                    z: values@[3 * k + 2],
                }),
    {
        proof {
            assert(3 * width * height == 3 * (width * height)) by (nonlinear_arith);
        }
        let n = width * height;
        let mut data: Vec<Color> = Vec::new();
        while data.len() < n
            invariant
                n == width * height,
                values.len() == 3 * n,
                data.len() <= n,
                forall|k: int|
                    0 <= k < data.len() ==> #[trigger] data@[k] == (Vec3 {
                        x: values@[3 * k],
                        y: values@[3 * k + 1],
                        z: values@[3 * k + 2],
                    }),
            decreases n - data.len(),
        {
            let k = 3 * data.len();
            data.push(Vec3::new(values[k], values[k + 1], values[k + 2]));
        }
        Picture { width, height, data }
    }
}

} // verus!
