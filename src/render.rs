//! Configuration and bookkeeping of the parallel renderer.
//!
//! Each worker traces the whole frame with its share of the per-pixel samples and sums
//! radiance into a private buffer of three channel sums per pixel, row by row. The
//! buffers are then added up and divided by the number of samples taken.
use vstd::prelude::*;

use crate::color::{sat, Color};

verus! {

/// A quality preset: a number of samples per pixel and a vertical resolution.
#[derive(Clone, Copy, Debug, PartialEq, Eq, Structural)]
pub enum PresetLevel {
    Low,
    Medium,
    High,
    Ultra,
}

impl PresetLevel {
    /// The preset numbered `num`, counting from `Low` at zero.
    pub open spec fn numbered(num: int) -> Option<PresetLevel> {
        if num == 0 {
            Some(PresetLevel::Low)
        } else if num == 1 {
            Some(PresetLevel::Medium)
        } else if num == 2 {
            Some(PresetLevel::High)
        } else if num == 3 {
            Some(PresetLevel::Ultra)
        } else {
            None
        }
    }

    pub open spec fn samples_of(self) -> usize {
        match self {
            PresetLevel::Low => 128,
            PresetLevel::Medium => 512,
            PresetLevel::High => 1024,
            PresetLevel::Ultra => 8192,
        }
    }

    pub open spec fn height_of(self) -> usize {
        match self {
            PresetLevel::Low => 128,
            PresetLevel::Medium => 256,
            PresetLevel::High => 512,
            PresetLevel::Ultra => 1024,
        }
    }

    /// The preset numbered `num`; none past `Ultra`.
    pub fn from(num: usize) -> (r: Option<PresetLevel>)
        ensures
            r == Self::numbered(num as int),
    {
        match num {
            0 => Some(PresetLevel::Low),
            1 => Some(PresetLevel::Medium),
            2 => Some(PresetLevel::High),
            3 => Some(PresetLevel::Ultra),
            _ => None,
        }
    }

    /// Samples per pixel under this preset.
    pub fn sample_count(&self) -> (r: usize)
        ensures
            r == self.samples_of(),
    {
        match self {
            PresetLevel::Low => 128,
            PresetLevel::Medium => 512,
            PresetLevel::High => 1024,
            PresetLevel::Ultra => 8192,
        }
    }

    /// Rows of the picture under this preset.
    pub fn height(&self) -> (r: usize)
        ensures
            r == self.height_of(),
    {
        match self {
            PresetLevel::Low => 128,
            PresetLevel::Medium => 256,
            PresetLevel::High => 512,
            PresetLevel::Ultra => 1024,
        }
    }
}

/// Why a render cannot start.
#[derive(Clone, Copy, Debug, PartialEq, Eq, Structural)]
pub enum RenderError {
    WorldNotSet,
    CameraNotSet,
}

/// Relies on `num_cpus::get`: the number of logical cores this process may use, which
/// its documentation promises is at least one.
#[verifier::external_body]
fn available_cores() -> (r: usize)
    ensures
        r >= 1,
{
    num_cpus::get()
}

/// Settings of the multi-threaded renderer, with the camera `C` and scene `W` it draws.
pub struct MultiRenderer<C, W> {
    pub width: usize,
    pub height: usize,
    pub sample_per_unit: usize,
    pub recursion_depth: usize,
    pub camera: Option<C>,
    pub world: Option<W>,
    pub use_gamma_correction: bool,
    pub thread_count: usize,
}

/// Samples per pixel that each of `workers` workers takes so that together they
/// take at least `total`: the quotient rounded up.
pub open spec fn share_of(total: int, workers: int) -> int {
    (total + workers - 1) / workers
}

impl<C, W> MultiRenderer<C, W> {
    /// There is at least one worker.
    pub open spec fn wf(&self) -> bool {
        self.thread_count > 0
    }

    /// A renderer at the low preset, one worker per available core, nothing to draw yet.
    pub fn new() -> (r: MultiRenderer<C, W>)
        ensures
            r.wf(),
            r.width == 128,
            r.height == 128,
            r.sample_per_unit == 128,
            r.recursion_depth == 16,
            r.camera is None,
            r.world is None,
            r.use_gamma_correction,
    {
        let cores = available_cores();
        MultiRenderer {
            width: 128,
            height: 128,
            sample_per_unit: 128,
            recursion_depth: 16,
            camera: None,
            world: None,
            use_gamma_correction: true,
            thread_count: cores,
        }
    }

    pub fn set_camera(&mut self, camera: C)
        ensures
            *final(self) == (MultiRenderer { camera: Some(camera), ..*old(self) }),
    {
        self.camera = Some(camera);
    }

    pub fn set_world(&mut self, world: W)
        ensures
            *final(self) == (MultiRenderer { world: Some(world), ..*old(self) }),
    {
        self.world = Some(world);
    }

    pub fn set_pixel_sample(&mut self, sample: usize)
        ensures
            *final(self) == (MultiRenderer { sample_per_unit: sample, ..*old(self) }),
    {
        self.sample_per_unit = sample;
    }

    pub fn set_thread_count(&mut self, thread_count: usize)
        requires
            thread_count > 0,
        ensures
            *final(self) == (MultiRenderer { thread_count, ..*old(self) }),
    {
        self.thread_count = thread_count;
    }

    pub fn set_recursion_depth(&mut self, depth: usize)
        ensures
            *final(self) == (MultiRenderer { recursion_depth: depth, ..*old(self) }),
    {
        self.recursion_depth = depth;
    }

    /// Takes the sample count and height of `preset`, and a width that keeps the
    /// camera's aspect ratio `aspect_num / aspect_den`, rounded down. The camera must be
    /// set; the caller reads its aspect ratio, which is a floating-point quantity.
    pub fn set_render_preset(&mut self, preset: PresetLevel, aspect_num: usize, aspect_den: usize)
        requires
            old(self).camera is Some,
            aspect_den > 0,
            preset.height_of() * aspect_num <= usize::MAX,
        ensures
            *final(self) == (MultiRenderer {
                sample_per_unit: preset.samples_of(),
                height: preset.height_of(),
                width: (preset.height_of() as int * aspect_num as int / aspect_den as int) as usize,
                ..*old(self)
            }),
    {
        self.sample_per_unit = preset.sample_count();
        self.height = preset.height();
        self.width = self.height * aspect_num / aspect_den;
    }

    /// A render may start only once a scene and a camera are set; the scene is asked for first.
    pub fn check_ready(&self) -> (r: Result<(), RenderError>)
        ensures
            self.world is None ==> r == Err::<(), RenderError>(RenderError::WorldNotSet),
            self.world is Some && self.camera is None ==> r == Err::<(), RenderError>(
                RenderError::CameraNotSet,
            ),
            self.world is Some && self.camera is Some ==> r is Ok,
    {
        if self.world.is_none() {
            return Err(RenderError::WorldNotSet);
        }
        if self.camera.is_none() {
            return Err(RenderError::CameraNotSet);
        }
        Ok(())
    }

    /// Samples per pixel that each worker takes.
    pub fn samples_per_worker(&self) -> (r: usize)
        requires
            self.wf(),
        ensures
            r == share_of(self.sample_per_unit as int, self.thread_count as int),
    {
        let (s, t) = (self.sample_per_unit, self.thread_count);
        let q = s / t;
        proof {
            lemma_ceil_div(s as int, t as int);
        }
        if s % t == 0 {
            q
        } else {
            q + 1
        }
    }
}

proof fn lemma_ceil_div(s: int, t: int)
    requires
        s >= 0,
        t > 0,
    ensures
        share_of(s, t) == if s % t == 0 { s / t } else { s / t + 1 },
        s % t != 0 ==> s / t < s,
{
    vstd::arithmetic::div_mod::lemma_fundamental_div_mod(s, t);
    vstd::arithmetic::div_mod::lemma_div_pos_is_pos(s, t);
    vstd::arithmetic::div_mod::lemma_mod_bound(s, t);
    let (q, m) = (s / t, s % t);
    assert(q * t >= q) by (nonlinear_arith)
        requires
            q >= 0,
            t > 0,
    ;
    assert(t * q == q * t && (q + 1) * t == q * t + t) by (nonlinear_arith);
    if m == 0 {
        vstd::arithmetic::div_mod::lemma_fundamental_div_mod_converse(s + t - 1, t, q, t - 1);
    } else {
        vstd::arithmetic::div_mod::lemma_fundamental_div_mod_converse(s + t - 1, t, q + 1, m - 1);
    }
}

} // verus!
