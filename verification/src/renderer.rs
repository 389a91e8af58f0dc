use vstd::prelude::*;

verus! {

/// Limits and sample counts for one render.
#[derive(Clone, Copy, Debug)]
pub struct RenderOptions {
    /// Maximum reflection recursions.
    pub reflect_depth: u32,
    /// Maximum refraction recursions; a sphere takes up two.
    pub refract_depth: u32,
    /// Samples for soft shadows and area lights.
    pub shadow_samples: u32,
    /// Samples for glossy reflections.
    pub gloss_samples: u32,
    /// The square of this is the number of samples per pixel.
    pub pixel_samples: u32,
}

/// A renderer: how many tasks to spread the tiles of an image over, and the
/// options every tile is rendered with.
#[derive(Clone, Copy, Debug)]
pub struct Renderer {
    /// Minimum number of tasks to spawn.
    pub tasks: usize,
    pub options: RenderOptions,
}

} // verus!
