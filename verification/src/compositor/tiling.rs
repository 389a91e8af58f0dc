use vstd::prelude::*;
use crate::compositor::colorrgba::ColorRGBA;
use crate::compositor::surface::Surface;
use crate::compositor::surface::SubsurfaceIterator;
use crate::compositor::surface::overrender_len;
use crate::compositor::surface::pixel_index;
use crate::compositor::surface::lemma_pixel_index_bounds;
use crate::compositor::surfacefactory::SurfaceFactory;
use vstd::arithmetic::div_mod::lemma_fundamental_div_mod;
use vstd::arithmetic::div_mod::lemma_fundamental_div_mod_converse;
use vstd::arithmetic::div_mod::lemma_mod_pos_bound;

verus! {

/// How many tiles `tile` long it takes to cover `len`, rounding up.
pub open spec fn tile_count(len: int, tile: int) -> int {
    (len + tile - 1) / tile
}

/// `v` as a `usize`, stopping at `usize::MAX`.
pub open spec fn saturate(v: int) -> usize {
    if v > usize::MAX {
        usize::MAX
    } else {
        v as usize
    }
}

/// The walk that `Surface::divide` starts on a `width` by `height` surface.
pub open spec fn divide_start(
    width: usize,
    height: usize,
    tile_width: usize,
    tile_height: usize,
    background: ColorRGBA<u8>,
) -> SubsurfaceIterator {
    SubsurfaceIterator {
        x_delta: tile_width,
        x_off: 0,
        y_delta: tile_height,
        y_off: 0,
        parent_width: width,
        parent_height: height,
        background: background,
    }
}

/// The walk after `n` calls of `next`.
pub open spec fn walk(it: SubsurfaceIterator, n: nat) -> SubsurfaceIterator
    decreases n,
{
    if n == 0 {
        it
    } else {
        let prev = walk(it, (n - 1) as nat);
        if prev.tile_at() is Some {
            prev.advanced()
        } else {
            prev
        }
    }
}

/// Tile number `k` of the grid that covers a surface `width` pixels wide,
/// counting row by row from the top left.
pub open spec fn grid_tile(
    width: usize,
    tile_width: usize,
    tile_height: usize,
    background: ColorRGBA<u8>,
    k: int,
) -> SurfaceFactory {
    let cols = tile_count(width as int, tile_width as int);
    SurfaceFactory {
        width: tile_width,
        height: tile_height,
        x_off: ((k % cols) * tile_width) as usize,
        y_off: ((k / cols) * tile_height) as usize,
        background: background,
    }
}

/// A tile with column index `c` starts on the surface exactly when `c` is
/// below the tile count.
proof fn lemma_start_on_surface(len: int, tile: int, c: int)
    requires
        0 < tile,
        0 <= len,
        0 <= c,
    ensures
        c * tile < len <==> c < tile_count(len, tile),
{
    let q = tile_count(len, tile);
    lemma_fundamental_div_mod(len + tile - 1, tile);
    lemma_mod_pos_bound(len + tile - 1, tile);
    let rem = (len + tile - 1) % tile;
    assert(len + tile - 1 == tile * q + rem);
    if c < q {
        assert(c * tile < len) by (nonlinear_arith)
            requires
                c < q,
                0 <= c,
                0 < tile,
                len + tile - 1 == tile * q + rem,
                0 <= rem,
        ;
    } else {
        assert(c * tile >= len) by (nonlinear_arith)
            requires
                c >= q,
                0 < tile,
                len + tile - 1 == tile * q + rem,
                rem < tile,
        ;
    }
}

proof fn lemma_tile_count_nonneg(len: int, tile: int)
    requires
        0 < tile,
        0 <= len,
    ensures
        0 <= tile_count(len, tile),
        len > 0 ==> tile_count(len, tile) > 0,
{
    lemma_start_on_surface(len, tile, 0);
    lemma_fundamental_div_mod(len + tile - 1, tile);
    lemma_mod_pos_bound(len + tile - 1, tile);
    let q = tile_count(len, tile);
    let rem = (len + tile - 1) % tile;
    assert(0 <= q) by (nonlinear_arith)
        requires
            len + tile - 1 == tile * q + rem,
            rem < tile,
            0 <= len,
            0 < tile,
    ;
}

/// After `r * cols + c` calls of `next`, the walk stands at column `c` of
/// row `r`.
proof fn lemma_walk_at(
    width: usize,
    height: usize,
    tile_width: usize,
    tile_height: usize,
    background: ColorRGBA<u8>,
    r: int,
    c: int,
)
    requires
        tile_width > 0,
        tile_height > 0,
        width > 0,
        height > 0,
        0 <= r,
        0 <= c,
        (r < tile_count(height as int, tile_height as int) && c < tile_count(width as int, tile_width as int))
            || (r == tile_count(height as int, tile_height as int) && c == 0),
    ensures
        walk(
            divide_start(width, height, tile_width, tile_height, background),
            (r * tile_count(width as int, tile_width as int) + c) as nat,
        ) == (SubsurfaceIterator {
            x_off: (c * tile_width) as usize,
            y_off: saturate(r * tile_height),
            ..divide_start(width, height, tile_width, tile_height, background)
        }),
    decreases r, c,
{
    let start = divide_start(width, height, tile_width, tile_height, background);
    let cols = tile_count(width as int, tile_width as int);
    let rows = tile_count(height as int, tile_height as int);
    let dx = tile_width as int;
    let dy = tile_height as int;
    lemma_tile_count_nonneg(width as int, dx);
    lemma_tile_count_nonneg(height as int, dy);
    assert(0 <= r * cols) by (nonlinear_arith)
        requires
            0 <= r,
            0 <= cols,
    ;
    if c > 0 {
        lemma_walk_at(width, height, tile_width, tile_height, background, r, c - 1);
        let n = r * cols + c;
        assert((n - 1) as nat == (r * cols + (c - 1)) as nat);
        let prev = walk(start, (n - 1) as nat);
        lemma_start_on_surface(width as int, dx, c - 1);
        lemma_start_on_surface(width as int, dx, c);
        lemma_start_on_surface(height as int, dy, r);
        assert((c - 1) * dx + dx == c * dx) by (nonlinear_arith);
        assert(0 <= (c - 1) * dx) by (nonlinear_arith)
            requires
                c >= 1,
                dx > 0,
        ;
        assert(0 <= r * dy) by (nonlinear_arith)
            requires
                r >= 0,
                dy > 0,
        ;
        assert(prev.tile_at() is Some);
        assert(walk(start, n as nat) == prev.advanced());
    } else if r > 0 {
        lemma_walk_at(width, height, tile_width, tile_height, background, r - 1, cols - 1);
        let n = r * cols;
        assert((r - 1) * cols + (cols - 1) == n - 1) by (nonlinear_arith)
            requires
                n == r * cols,
        ;
        let prev = walk(start, (n - 1) as nat);
        assert(n > 0) by (nonlinear_arith)
            requires
                n == r * cols,
                r > 0,
                cols > 0,
        ;
        lemma_start_on_surface(width as int, dx, cols - 1);
        lemma_start_on_surface(width as int, dx, cols);
        lemma_start_on_surface(height as int, dy, r - 1);
        assert((cols - 1) * dx + dx == cols * dx) by (nonlinear_arith);
        assert((r - 1) * dy + dy == r * dy) by (nonlinear_arith);
        assert(0 <= (cols - 1) * dx) by (nonlinear_arith)
            requires
                cols >= 1,
                dx > 0,
        ;
        assert(0 <= (r - 1) * dy) by (nonlinear_arith)
            requires
                r >= 1,
                dy > 0,
        ;
        assert(prev.tile_at() is Some);
        assert(walk(start, n as nat) == prev.advanced());
    } else {
        assert(r * cols + c == 0) by (nonlinear_arith)
            requires
                r == 0,
                c == 0,
        ;
    }
}

/// The walk that `divide` starts yields the grid tiles one by one, row by
/// row from the top left, `tile_count` of them per row and per column, and
/// then nothing more.
pub proof fn lemma_divide_walks_grid(
    width: usize,
    height: usize,
    tile_width: usize,
    tile_height: usize,
    background: ColorRGBA<u8>,
)
    requires
        tile_width > 0,
        tile_height > 0,
    ensures
        ({
            let start = divide_start(width, height, tile_width, tile_height, background);
            let count = tile_count(width as int, tile_width as int) * tile_count(height as int, tile_height as int);
            &&& forall|k: int|
                0 <= k < count ==> #[trigger] walk(start, k as nat).tile_at() == Some(
                    grid_tile(width, tile_width, tile_height, background, k),
                )
            &&& walk(start, count as nat).tile_at() is None
        }),
{
    let start = divide_start(width, height, tile_width, tile_height, background);
    let cols = tile_count(width as int, tile_width as int);
    let rows = tile_count(height as int, tile_height as int);
    let count = cols * rows;
    let dx = tile_width as int;
    let dy = tile_height as int;
    lemma_tile_count_nonneg(width as int, dx);
    lemma_tile_count_nonneg(height as int, dy);
    if width == 0 || height == 0 {
        lemma_start_on_surface(width as int, dx, 0);
        lemma_start_on_surface(height as int, dy, 0);
        assert(cols == 0 || rows == 0);
        assert(count == 0) by (nonlinear_arith)
            requires
                cols == 0 || rows == 0,
                count == cols * rows,
        ;
        assert(start.tile_at() is None);
        assert(walk(start, 0) == start);
    } else {
        assert forall|k: int| 0 <= k < count implies #[trigger] walk(start, k as nat).tile_at() == Some(
            grid_tile(width, tile_width, tile_height, background, k),
        ) by {
            lemma_fundamental_div_mod(k, cols);
            lemma_mod_pos_bound(k, cols);
            let r = k / cols;
            let c = k % cols;
            assert(0 <= r) by (nonlinear_arith)
                requires
                    k == cols * r + c,
                    c < cols,
                    0 <= k,
                    0 < cols,
            ;
            assert(r < rows) by (nonlinear_arith)
                requires
                    k == cols * r + c,
                    0 <= c,
                    k < cols * rows,
                    0 < cols,
            ;
            assert(r * cols + c == k) by (nonlinear_arith)
                requires
                    k == cols * r + c,
            ;
            lemma_walk_at(width, height, tile_width, tile_height, background, r, c);
            lemma_start_on_surface(width as int, dx, c);
            lemma_start_on_surface(height as int, dy, r);
            assert(0 <= c * dx) by (nonlinear_arith)
                requires
                    0 <= c,
                    dx > 0,
            ;
            assert(0 <= r * dy) by (nonlinear_arith)
                requires
                    0 <= r,
                    dy > 0,
            ;
        }
        lemma_walk_at(width, height, tile_width, tile_height, background, rows, 0);
        assert(rows * cols + 0 == count) by (nonlinear_arith)
            requires
                count == cols * rows,
        ;
        lemma_start_on_surface(height as int, dy, rows);
    }
}

/// Every pixel of the surface lies on exactly one tile of the grid: tile
/// number `(y / tile_height) * cols + x / tile_width`.
pub proof fn lemma_grid_covers_each_pixel_once(
    width: usize,
    height: usize,
    tile_width: usize,
    tile_height: usize,
    background: ColorRGBA<u8>,
    x: int,
    y: int,
)
    requires
        tile_width > 0,
        tile_height > 0,
        0 <= x < width,
        0 <= y < height,
    ensures
        ({
            let cols = tile_count(width as int, tile_width as int);
            let count = cols * tile_count(height as int, tile_height as int);
            let k0 = (y / tile_height as int) * cols + x / tile_width as int;
            &&& 0 <= k0 < count
            &&& grid_tile(width, tile_width, tile_height, background, k0).covers_point(x, y)
            &&& forall|k: int|
                0 <= k < count && #[trigger] grid_tile(width, tile_width, tile_height, background, k).covers_point(x, y)
                    ==> k == k0
        }),
{
    let cols = tile_count(width as int, tile_width as int);
    let rows = tile_count(height as int, tile_height as int);
    let count = cols * rows;
    let dx = tile_width as int;
    let dy = tile_height as int;
    lemma_tile_count_nonneg(width as int, dx);
    lemma_tile_count_nonneg(height as int, dy);
    lemma_fundamental_div_mod(x, dx);
    lemma_mod_pos_bound(x, dx);
    lemma_fundamental_div_mod(y, dy);
    lemma_mod_pos_bound(y, dy);
    let c0 = x / dx;
    let r0 = y / dy;
    assert(0 <= c0 && c0 * dx <= x) by (nonlinear_arith)
        requires
            x == dx * c0 + x % dx,
            0 <= x % dx < dx,
            0 <= x,
    ;
    assert(0 <= r0 && r0 * dy <= y) by (nonlinear_arith)
        requires
            y == dy * r0 + y % dy,
            0 <= y % dy < dy,
            0 <= y,
    ;
    lemma_start_on_surface(width as int, dx, c0);
    lemma_start_on_surface(height as int, dy, r0);
    let k0 = r0 * cols + c0;
    assert(0 <= k0 < count) by (nonlinear_arith)
        requires
            0 <= c0 < cols,
            0 <= r0 < rows,
            k0 == r0 * cols + c0,
            count == cols * rows,
    ;
    lemma_fundamental_div_mod_converse(k0, cols, r0, c0);
    assert(c0 * dx + dx > x && r0 * dy + dy > y) by (nonlinear_arith)
        requires
            x == dx * c0 + x % dx,
            x % dx < dx,
            y == dy * r0 + y % dy,
            y % dy < dy,
    ;
    assert(0 <= c0 * dx && 0 <= r0 * dy) by (nonlinear_arith)
        requires
            0 <= c0,
            0 <= r0,
            0 < dx,
            0 < dy,
    ;
    assert forall|k: int|
        0 <= k < count && #[trigger] grid_tile(width, tile_width, tile_height, background, k).covers_point(x, y)
            implies k == k0 by {
        lemma_fundamental_div_mod(k, cols);
        lemma_mod_pos_bound(k, cols);
        let r = k / cols;
        let c = k % cols;
        assert(0 <= r < rows) by (nonlinear_arith)
            requires
                k == cols * r + c,
                0 <= c < cols,
                0 <= k < cols * rows,
                0 < cols,
        ;
        lemma_start_on_surface(width as int, dx, c);
        lemma_start_on_surface(height as int, dy, r);
        assert(0 <= c * dx && 0 <= r * dy) by (nonlinear_arith)
            requires
                0 <= c,
                0 <= r,
                0 < dx,
                0 < dy,
        ;
        let t = grid_tile(width, tile_width, tile_height, background, k);
        assert(t.x_off == c * dx && t.y_off == r * dy);
        assert(c == c0) by (nonlinear_arith)
            requires
                c * dx <= x < c * dx + dx,
                c0 * dx <= x < c0 * dx + dx,
                0 < dx,
        ;
        assert(r == r0) by (nonlinear_arith)
            requires
                r * dy <= y < r * dy + dy,
                r0 * dy <= y < r0 * dy + dy,
                0 < dy,
        ;
        assert(k == r * cols + c) by (nonlinear_arith)
            requires
                k == cols * r + c,
        ;
    }
}

/// A side rounded up to whole tiles is the tile count times the tile length.
proof fn lemma_overrender_is_whole_tiles(len: int, tile: int)
    requires
        0 <= len,
        0 < tile,
    ensures
        overrender_len(len, tile) == tile_count(len, tile) * tile,
{
    lemma_fundamental_div_mod(len, tile);
    lemma_mod_pos_bound(len, tile);
    let q = len / tile;
    let m = len % tile;
    if m > 0 {
        assert(len + tile - 1 == (q + 1) * tile + (m - 1)) by (nonlinear_arith)
            requires
                len == tile * q + m,
        ;
        lemma_fundamental_div_mod_converse(len + tile - 1, tile, q + 1, m - 1);
        assert(len - m + tile == (q + 1) * tile) by (nonlinear_arith)
            requires
                len == tile * q + m,
        ;
    } else {
        assert(len + tile - 1 == q * tile + (tile - 1)) by (nonlinear_arith)
            requires
                len == tile * q + m,
                m == 0,
        ;
        lemma_fundamental_div_mod_converse(len + tile - 1, tile, q, tile - 1);
        assert(len == q * tile) by (nonlinear_arith)
            requires
                len == tile * q + m,
                m == 0,
        ;
    }
}

/// The tiles of the grid hold, between them, exactly as many pixels as the
/// surface rounded up to whole tiles.
pub proof fn lemma_grid_pixel_total(width: usize, height: usize, tile_width: usize, tile_height: usize)
    requires
        tile_width > 0,
        tile_height > 0,
    ensures
        tile_count(width as int, tile_width as int) * tile_count(height as int, tile_height as int) * (
        tile_width * tile_height) == overrender_len(width as int, tile_width as int) * overrender_len(
            height as int,
            tile_height as int,
        ),
{
    lemma_overrender_is_whole_tiles(width as int, tile_width as int);
    lemma_overrender_is_whole_tiles(height as int, tile_height as int);
    let cols = tile_count(width as int, tile_width as int);
    let rows = tile_count(height as int, tile_height as int);
    assert(cols * rows * (tile_width * tile_height) == (cols * tile_width) * (rows * tile_height))
        by (nonlinear_arith);
}

/// Position (`x`, `y`) of a parent lies under `tile`, placed at the tile's
/// offsets.
pub open spec fn on_tile(tile: Surface, x: int, y: int) -> bool {
    tile.x_off <= x < tile.x_off + tile.width && tile.y_off <= y < tile.y_off + tile.height
}

/// Pixel (`x`, `y`) of `s` after merging `tiles` into it, first to last.
pub open spec fn after_merges(s: Surface, tiles: Seq<Surface>, x: int, y: int) -> ColorRGBA<u8>
    decreases tiles.len(),
{
    if tiles.len() == 0 {
        s.pixel(x, y)
    } else {
        let last = tiles.last();
        if last.x_off <= x < last.x_off + last.width && last.y_off <= y < last.y_off + last.height {
            last.pixel(x - last.x_off, y - last.y_off)
        } else {
            after_merges(s, tiles.drop_last(), x, y)
        }
    }
}

/// Every pixel of `s` is the color `color`.
pub open spec fn filled_with(s: Surface, color: ColorRGBA<u8>) -> bool {
    forall|i: int| 0 <= i < s.buffer@.len() ==> #[trigger] s.buffer@[i] == color
}

/// Merging surfaces into `s` one after the other gives each pixel the color
/// of the last merged surface that covers it, whatever `s` held before.
pub proof fn lemma_merge_extends_after_merges(s: Surface, t: Surface, t2: Surface, tiles: Seq<Surface>, tile: Surface)
    requires
        forall|x: int, y: int| s.in_bounds(x, y) ==> #[trigger] t.pixel(x, y) == after_merges(s, tiles, x, y),
        t.width == s.width,
        t.height == s.height,
        forall|x: int, y: int| t.in_bounds(x, y) ==> #[trigger] t2.pixel(x, y) == t.merged_pixel(tile, x, y),
    ensures
        forall|x: int, y: int| s.in_bounds(x, y) ==> #[trigger] t2.pixel(x, y) == after_merges(s, tiles.push(tile), x, y),
{
    assert forall|x: int, y: int| s.in_bounds(x, y) implies #[trigger] t2.pixel(x, y) == after_merges(
        s,
        tiles.push(tile),
        x,
        y,
    ) by {
        assert(tiles.push(tile).drop_last() == tiles);
        assert(t.pixel(x, y) == after_merges(s, tiles, x, y));
    }
}

proof fn lemma_painted_pixel(s: Surface, tiles: Seq<Surface>, color: ColorRGBA<u8>, x: int, y: int)
    requires
        forall|i: int| 0 <= i < tiles.len() ==> (#[trigger] tiles[i]).wf() && filled_with(tiles[i], color),
        exists|i: int| 0 <= i < tiles.len() && on_tile(#[trigger] tiles[i], x, y),
    ensures
        after_merges(s, tiles, x, y) == color,
    decreases tiles.len(),
{
    let last = tiles.last();
    if on_tile(last, x, y) {
        assert(tiles[tiles.len() - 1].wf());
        lemma_pixel_index_bounds(last.width as int, last.height as int, x - last.x_off, y - last.y_off);
        let idx = pixel_index(last.width as int, x - last.x_off, y - last.y_off);
        assert(last.buffer@[idx] == color);
    } else {
        let rest = tiles.drop_last();
        let i = choose|i: int| 0 <= i < tiles.len() && on_tile(#[trigger] tiles[i], x, y);
        assert(i < tiles.len() - 1);
        assert(rest[i] == tiles[i]);
        assert forall|j: int| 0 <= j < rest.len() implies (#[trigger] rest[j]).wf() && filled_with(rest[j], color) by {
            assert(rest[j] == tiles[j]);
        }
        lemma_painted_pixel(s, rest, color, x, y);
    }
}

/// Merging surfaces that are each filled with one color, and that together
/// cover every pixel of `s`, leaves all of `s` that color, in whatever order
/// they are merged.
pub proof fn lemma_merging_painted_tiles_paints_all(s: Surface, tiles: Seq<Surface>, color: ColorRGBA<u8>)
    requires
        forall|i: int| 0 <= i < tiles.len() ==> (#[trigger] tiles[i]).wf() && filled_with(tiles[i], color),
        forall|x: int, y: int|
            s.in_bounds(x, y) ==> exists|i: int| 0 <= i < tiles.len() && #[trigger] on_tile(tiles[i], x, y),
    ensures
        forall|x: int, y: int| s.in_bounds(x, y) ==> #[trigger] after_merges(s, tiles, x, y) == color,
{
    assert forall|x: int, y: int| s.in_bounds(x, y) implies #[trigger] after_merges(s, tiles, x, y) == color by {
        lemma_painted_pixel(s, tiles, color, x, y);
    }
}


/// Merging into `s` the tiles of the grid that `s.divide(tile_width,
/// tile_height)` walks, each tile filled with one color, paints every pixel
/// of `s` that color; tiles that overhang the right or bottom edge included.
pub proof fn lemma_grid_merges_paint_all(
    s: Surface,
    tile_width: usize,
    tile_height: usize,
    tiles: Seq<Surface>,
    color: ColorRGBA<u8>,
)
    requires
        tile_width > 0,
        tile_height > 0,
        tiles.len() == tile_count(s.width as int, tile_width as int) * tile_count(s.height as int, tile_height as int),
        forall|k: int|
            0 <= k < tiles.len() ==> {
                let g = grid_tile(s.width, tile_width, tile_height, s.background, k);
                &&& (#[trigger] tiles[k]).wf()
                &&& filled_with(tiles[k], color)
                &&& tiles[k].width == g.width
                &&& tiles[k].height == g.height
                &&& tiles[k].x_off == g.x_off
                &&& tiles[k].y_off == g.y_off
            },
    ensures
        forall|x: int, y: int| 0 <= x < s.width && 0 <= y < s.height ==> #[trigger] after_merges(s, tiles, x, y) == color,
{
    assert forall|x: int, y: int| 0 <= x < s.width && 0 <= y < s.height implies #[trigger] after_merges(
        s,
        tiles,
        x,
        y,
    ) == color by {
        lemma_grid_covers_each_pixel_once(s.width, s.height, tile_width, tile_height, s.background, x, y);
        let cols = tile_count(s.width as int, tile_width as int);
        let k0 = (y / tile_height as int) * cols + x / tile_width as int;
        assert(on_tile(tiles[k0], x, y));
        lemma_painted_pixel(s, tiles, color, x, y);
    }
}

} // verus!
