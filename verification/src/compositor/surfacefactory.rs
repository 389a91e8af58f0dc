use vstd::prelude::*;
use crate::compositor::colorrgba::ColorRGBA;
use crate::compositor::surface::Surface;

verus! {

/// The description of a tile: its size, where it sits on the parent surface,
/// and the color it starts out with.
#[derive(Clone, Copy, Debug)]
pub struct SurfaceFactory {
    pub width: usize,
    pub height: usize,
    pub x_off: usize,
    pub y_off: usize,
    pub background: ColorRGBA<u8>,
}

impl SurfaceFactory {
    /// Position (`x`, `y`) of the parent lies on the described tile.
    pub open spec fn covers_point(self, x: int, y: int) -> bool {
        &&& self.x_off <= x < self.x_off + self.width
        &&& self.y_off <= y < self.y_off + self.height
    }

    pub fn new(width: usize, height: usize, x_off: usize, y_off: usize, background: ColorRGBA<u8>) -> (f: SurfaceFactory)
        ensures
            f == (SurfaceFactory { width, height, x_off, y_off, background }),
    {
        SurfaceFactory { width: width, height: height, x_off: x_off, y_off: y_off, background: background }
    }

    /// A fresh surface of the described size and position, every pixel the
    /// background color.
    pub fn create(&self) -> (s: Surface)
        requires
            self.width * self.height <= usize::MAX,
        ensures
            s.wf(),
            s.width == self.width,
            s.height == self.height,
            s.x_off == self.x_off,
            s.y_off == self.y_off,
            s.background == self.background,
            forall|i: int| 0 <= i < s.buffer@.len() ==> s.buffer@[i] == self.background,
    {
        Surface::with_offset(self.width, self.height, self.x_off, self.y_off, self.background)
    }
}

} // verus!
