use vstd::prelude::*;
use crate::compositor::colorrgba::ColorRGBA;
use crate::compositor::surfacefactory::SurfaceFactory;
use vstd::arithmetic::div_mod::lemma_mod_decreases;


verus! {

/// A rectangle of pixels, stored row by row. `x_off` and `y_off` place the
/// surface on a larger parent when it is a tile of it.
#[derive(Clone, Debug)]
pub struct Surface {
    pub width: usize,
    pub height: usize,
    pub x_off: usize,
    pub y_off: usize,
    pub background: ColorRGBA<u8>,
    pub buffer: Vec<ColorRGBA<u8>>,
}

/// Position in a row-major buffer of the pixel at column `x`, row `y`, on a
/// surface `width` pixels wide.
pub open spec fn pixel_index(width: int, x: int, y: int) -> int {
    width * y + x
}

/// Every position on a surface maps to a place inside its buffer.
pub proof fn lemma_pixel_index_bounds(width: int, height: int, x: int, y: int)
    requires
        0 <= x < width,
        0 <= y < height,
    ensures
        0 <= pixel_index(width, x, y) < width * height,
{
    assert(0 <= width * y) by (nonlinear_arith)
        requires
            0 <= width,
            0 <= y,
    ;
    assert(width * y + x < width * height) by (nonlinear_arith)
        requires
            0 <= x < width,
            0 <= y < height,
    ;
}

/// Two positions within the width of a surface that map to the same place
/// in its buffer are the same position.
pub proof fn lemma_pixel_index_injective(width: int, x1: int, y1: int, x2: int, y2: int)
    requires
        0 <= x1 < width,
        0 <= x2 < width,
        0 <= y1,
        0 <= y2,
        pixel_index(width, x1, y1) == pixel_index(width, x2, y2),
    ensures
        x1 == x2,
        y1 == y2,
{
    if y1 < y2 {
        assert(width * y1 + width <= width * y2) by (nonlinear_arith)
            requires
                y1 < y2,
                0 <= width,
        ;
    } else if y2 < y1 {
        assert(width * y2 + width <= width * y1) by (nonlinear_arith)
            requires
                y2 < y1,
                0 <= width,
        ;
    }
}

/// The length a side of `len` pixels grows to when it is rounded up to a
/// whole number of tiles `tile` pixels long.
pub open spec fn overrender_len(len: int, tile: int) -> int {
    if len % tile > 0 {
        len - len % tile + tile
    } else {
        len
    }
}

impl Surface {
    /// The buffer holds exactly one pixel per position.
    pub open spec fn wf(&self) -> bool {
        self.buffer@.len() == self.width * self.height
    }

    /// The buffer holds at least one pixel per position (anything after
    /// those is never read as a pixel).
    pub open spec fn holds_pixels(&self) -> bool {
        self.width * self.height <= self.buffer@.len()
    }

    /// `self` has the shape, placement and background of `other`, and the
    /// same buffer length and bytes past the pixels.
    pub open spec fn same_frame(&self, other: Surface) -> bool {
        &&& self.width == other.width
        &&& self.height == other.height
        &&& self.x_off == other.x_off
        &&& self.y_off == other.y_off
        &&& self.background == other.background
        &&& self.buffer@.len() == other.buffer@.len()
        &&& forall|i: int|
            other.width * other.height <= i < other.buffer@.len() ==> #[trigger] self.buffer@[i] == other.buffer@[i]
    }

    pub open spec fn in_bounds(&self, x: int, y: int) -> bool {
        0 <= x < self.width && 0 <= y < self.height
    }

    /// The pixel at column `x`, row `y`.
    pub open spec fn pixel(&self, x: int, y: int) -> ColorRGBA<u8> {
        self.buffer@[pixel_index(self.width as int, x, y)]
    }

    /// Position (`x`, `y`) of this surface lies under `tile`, placed at the
    /// tile's offsets.
    pub open spec fn covers(&self, tile: Surface, x: int, y: int) -> bool {
        &&& tile.x_off <= x < tile.x_off + tile.width
        &&& tile.y_off <= y < tile.y_off + tile.height
    }

    /// What pixel (`x`, `y`) of this surface becomes when `tile` is merged in.
    pub open spec fn merged_pixel(&self, tile: Surface, x: int, y: int) -> ColorRGBA<u8> {
        if self.covers(tile, x, y) {
            tile.pixel(x - tile.x_off, y - tile.y_off)
        } else {
            self.pixel(x, y)
        }
    }

    pub fn new(width: usize, height: usize, background: ColorRGBA<u8>) -> (s: Surface)
        requires
            width * height <= usize::MAX,
        ensures
            s.wf(),
            s.width == width,
            s.height == height,
            s.x_off == 0,
            s.y_off == 0,
            s.background == background,
            forall|i: int| 0 <= i < s.buffer@.len() ==> s.buffer@[i] == background,
    {
        Surface::with_offset(width, height, 0, 0, background)
    }

    pub fn with_offset(width: usize, height: usize, x_off: usize, y_off: usize, background: ColorRGBA<u8>) -> (s: Surface)
        requires
            width * height <= usize::MAX,
        ensures
            s.wf(),
            s.width == width,
            s.height == height,
            s.x_off == x_off,
            s.y_off == y_off,
            s.background == background,
            forall|i: int| 0 <= i < s.buffer@.len() ==> s.buffer@[i] == background,
    {
        let count = width * height;
        let mut buffer: Vec<ColorRGBA<u8>> = Vec::with_capacity(count);
        let mut i: usize = 0;
        while i < count
            invariant
                i <= count,
                buffer@.len() == i,
                forall|j: int| 0 <= j < i ==> buffer@[j] == background,
            decreases count - i,
        {
            buffer.push(background);
            i = i + 1;
        }
        Surface { width: width, height: height, x_off: x_off, y_off: y_off, background: background, buffer: buffer }
    }

    /// Walks the tiles `tile_width` by `tile_height` pixels that cover this
    /// surface, row by row.
    pub fn divide(&self, tile_width: usize, tile_height: usize) -> (it: SubsurfaceIterator)
        ensures
            it == (SubsurfaceIterator {
                x_delta: tile_width,
                x_off: 0,
                y_delta: tile_height,
                y_off: 0,
                parent_width: self.width,
                parent_height: self.height,
                background: self.background,
            }),
    {
        SubsurfaceIterator {
            parent_width: self.width,
            parent_height: self.height,
            background: self.background,
            x_delta: tile_width,
            y_delta: tile_height,
            x_off: 0,
            y_off: 0,
        }
    }

    /// The size of this surface rounded up to whole tiles in each direction.
    pub fn overrender_size(&self, tile_width: usize, tile_height: usize) -> (r: (usize, usize))
        requires
            tile_width > 0,
            tile_height > 0,
            overrender_len(self.width as int, tile_width as int) <= usize::MAX,
            overrender_len(self.height as int, tile_height as int) <= usize::MAX,
        ensures
            r.0 == overrender_len(self.width as int, tile_width as int),
            r.1 == overrender_len(self.height as int, tile_height as int),
    {
        let mut width = self.width;
        let width_partial_tile = width % tile_width;
        proof {
            lemma_mod_decreases(width as nat, tile_width as nat);
        }
        if width_partial_tile > 0 {
            width = width - width_partial_tile;
            width = width + tile_width;
        }
        let mut height = self.height;
        let height_partial_tile = height % tile_height;
        proof {
            lemma_mod_decreases(height as nat, tile_height as nat);
        }
        if height_partial_tile > 0 {
            height = height - height_partial_tile;
            height = height + tile_height;
        }
        (width, height)
    }

    /// Copies `tile` onto this surface at the tile's offsets; the part of the
    /// tile that falls beyond this surface's right or bottom edge is dropped,
    /// and buffer entries past the pixels are left as they are.
    pub fn merge(&mut self, tile: &Surface)
        requires
            old(self).holds_pixels(),
            tile.holds_pixels(),
            tile.x_off <= old(self).width,
            tile.y_off <= old(self).height,
        ensures
            final(self).same_frame(*old(self)),
            forall|x: int, y: int|
                old(self).in_bounds(x, y) ==> #[trigger] final(self).pixel(x, y) == old(self).merged_pixel(*tile, x, y),
            forall|x: int, y: int|
                0 <= x < old(self).width && 0 <= y < old(self).height && tile.x_off <= x < tile.x_off + tile.width
                    && tile.y_off <= y < tile.y_off + tile.height ==> #[trigger] final(self).pixel(x, y) == tile.pixel(
                    x - tile.x_off,
                    y - tile.y_off,
                ),
            forall|x: int, y: int|
                0 <= x < old(self).width && 0 <= y < old(self).height && !(tile.x_off <= x < tile.x_off + tile.width
                    && tile.y_off <= y < tile.y_off + tile.height) ==> #[trigger] final(self).pixel(x, y) == old(
                    self,
                ).pixel(x, y),
    {
        let ghost orig = *self;
        let x_len: usize = if tile.width < self.width - tile.x_off { tile.width } else { self.width - tile.x_off };
        let y_len: usize = if tile.height < self.height - tile.y_off { tile.height } else { self.height - tile.y_off };
        let mut src_y: usize = 0;
        while src_y < y_len
            invariant
                orig.holds_pixels(),
                tile.holds_pixels(),
                self.same_frame(orig),
                src_y <= y_len,
                x_len <= tile.width,
                tile.x_off + x_len <= orig.width,
                x_len == tile.width || tile.x_off + x_len == orig.width,
                y_len <= tile.height,
                tile.y_off + y_len <= orig.height,
                y_len == tile.height || tile.y_off + y_len == orig.height,
                forall|x: int, y: int|
                    orig.in_bounds(x, y) ==> #[trigger] self.pixel(x, y) == (if orig.covers(*tile, x, y) && y < tile.y_off + src_y {
                        tile.pixel(x - tile.x_off, y - tile.y_off)
                    } else {
                        orig.pixel(x, y)
                    }),
            decreases y_len - src_y,
        {
            let dst_y = tile.y_off + src_y;
            let mut src_x: usize = 0;
            while src_x < x_len
                invariant
                    orig.holds_pixels(),
                    tile.holds_pixels(),
                    self.same_frame(orig),
                    src_y < y_len,
                    dst_y == tile.y_off + src_y,
                    src_x <= x_len,
                    x_len <= tile.width,
                    tile.x_off + x_len <= orig.width,
                    x_len == tile.width || tile.x_off + x_len == orig.width,
                    y_len <= tile.height,
                    tile.y_off + y_len <= orig.height,
                    forall|x: int, y: int|
                        orig.in_bounds(x, y) ==> #[trigger] self.pixel(x, y) == (if orig.covers(*tile, x, y) && (y < dst_y || (y == dst_y && x < tile.x_off + src_x)) {
                            tile.pixel(x - tile.x_off, y - tile.y_off)
                        } else {
                            orig.pixel(x, y)
                        }),
                decreases x_len - src_x,
            {
                let dst_x = tile.x_off + src_x;
                let color = tile.get(src_x, src_y);
                let ghost before = *self;
                self.set(dst_x, dst_y, color);
                proof {
                    assert forall|x: int, y: int| orig.in_bounds(x, y) implies #[trigger] self.pixel(x, y) == (if orig.covers(*tile, x, y) && (y < dst_y || (y == dst_y && x < tile.x_off + src_x + 1)) {
                        tile.pixel(x - tile.x_off, y - tile.y_off)
                    } else {
                        orig.pixel(x, y)
                    }) by {
                        if x == dst_x && y == dst_y {
                        } else {
                            assert(self.pixel(x, y) == before.pixel(x, y));
                        }
                    }
                }
                src_x = src_x + 1;
            }
            src_y = src_y + 1;
        }
    }

    pub fn pixel_count(&self) -> (n: usize)
        ensures
            n == self.buffer@.len(),
    {
        self.buffer.len()
    }

    fn get_idx(&self, x: usize, y: usize) -> (i: usize)
        requires
            self.holds_pixels(),
            x < self.width,
            y < self.height,
        ensures
            i == pixel_index(self.width as int, x as int, y as int),
            i < self.buffer@.len(),
    {
        let len = self.buffer.len();
        proof {
            lemma_pixel_index_bounds(self.width as int, self.height as int, x as int, y as int);
            assert(self.width * y <= self.width * y + x);
        }
        self.width * y + x
    }

    /// The pixel at column `x`, row `y`.
    pub fn get(&self, x: usize, y: usize) -> (c: ColorRGBA<u8>)
        requires
            self.holds_pixels(),
            x < self.width,
            y < self.height,
        ensures
            c == self.pixel(x as int, y as int),
    {
        let idx = self.get_idx(x, y);
        self.buffer[idx]
    }

    /// Paints the pixel at column `x`, row `y`; every other pixel, and every
    /// buffer entry past the pixels, keeps its color.
    pub fn set(&mut self, x: usize, y: usize, color: ColorRGBA<u8>)
        requires
            old(self).holds_pixels(),
            x < old(self).width,
            y < old(self).height,
        ensures
            final(self).same_frame(*old(self)),
            final(self).pixel(x as int, y as int) == color,
            forall|px: int, py: int|
                old(self).in_bounds(px, py) && (px != x || py != y) ==> #[trigger] final(self).pixel(px, py) == old(self).pixel(px, py),
    {
        let idx = self.get_idx(x, y);
        proof {
            lemma_pixel_index_bounds(self.width as int, self.height as int, x as int, y as int);
        }
        self.buffer.set(idx, color);
        proof {
            assert forall|px: int, py: int|
                old(self).in_bounds(px, py) && (px != x || py != y) implies #[trigger] self.pixel(px, py) == old(self).pixel(px, py) by {
                lemma_pixel_index_bounds(self.width as int, self.height as int, px, py);
                if pixel_index(self.width as int, px, py) == idx {
                    lemma_pixel_index_injective(self.width as int, px, py, x as int, y as int);
                }
            }
        }
    }
}

impl core::ops::Index<(usize, usize)> for Surface {
    type Output = ColorRGBA<u8>;

    /// The pixel at column `index.0`, row `index.1`.
    fn index(&self, index: (usize, usize)) -> (c: &ColorRGBA<u8>)
        ensures
            *c == self.pixel(index.0 as int, index.1 as int),
    {
        let (x, y) = index;
        let idx = self.get_idx(x, y);
        &self.buffer[idx]
    }
}

impl vstd::std_specs::core::IndexSpecImpl<(usize, usize)> for Surface {
    open spec fn index_req(&self, index: &(usize, usize)) -> bool {
        self.holds_pixels() && index.0 < self.width && index.1 < self.height
    }
}

/// Walks the tiles of a parent surface left to right, then top to bottom.
/// `x_off` and `y_off` are where the next tile starts.
#[derive(Clone, Copy, Debug)]
pub struct SubsurfaceIterator {
    pub x_delta: usize,
    pub x_off: usize,
    pub y_delta: usize,
    pub y_off: usize,
    pub parent_width: usize,
    pub parent_height: usize,
    pub background: ColorRGBA<u8>,
}

impl SubsurfaceIterator {
    /// The tile that starts at the current offsets, if they lie on the parent.
    pub open spec fn tile_at(self) -> Option<SurfaceFactory> {
        if self.x_off < self.parent_width && self.y_off < self.parent_height {
            Some(SurfaceFactory {
                width: self.x_delta,
                height: self.y_delta,
                x_off: self.x_off,
                y_off: self.y_off,
                background: self.background,
            })
        } else {
            None
        }
    }

    /// The walk one tile further: right along the row while the next tile
    /// still starts on the parent, else back to the left edge of the next row.
    /// The row offset stops at `usize::MAX`, which lies past every parent.
    pub open spec fn advanced(self) -> SubsurfaceIterator {
        if self.x_off + self.x_delta < self.parent_width {
            SubsurfaceIterator { x_off: (self.x_off + self.x_delta) as usize, ..self }
        } else {
            SubsurfaceIterator {
                x_off: 0,
                y_off: if self.y_off + self.y_delta > usize::MAX {
                    usize::MAX
                } else {
                    (self.y_off + self.y_delta) as usize
                },
                ..self
            }
        }
    }

    fn incr_tile(&mut self)
        requires
            old(self).x_off < old(self).parent_width,
        ensures
            *final(self) == old(self).advanced(),
    {
        if self.x_delta < self.parent_width - self.x_off {
            self.x_off = self.x_off + self.x_delta;
        } else {
            self.x_off = 0;
            self.y_off = self.y_off.saturating_add(self.y_delta);
        }
    }

    fn current_tile(&self) -> (t: Option<SurfaceFactory>)
        ensures
            t == self.tile_at(),
    {
        if self.x_off < self.parent_width && self.y_off < self.parent_height {
            Some(SurfaceFactory::new(self.x_delta, self.y_delta, self.x_off, self.y_off, self.background))
        } else {
            None
        }
    }

    /// The current tile, moving on to the next one; once the walk has left
    /// the parent, `None` and the walk stays where it is.
    pub fn next(&mut self) -> (t: Option<SurfaceFactory>)
        ensures
            t == old(self).tile_at(),
            *final(self) == (if t is Some { old(self).advanced() } else { *old(self) }),
    {
        let tile = self.current_tile();
        if tile.is_some() {
            self.incr_tile();
        }
        tile
    }
}

} // verus!
