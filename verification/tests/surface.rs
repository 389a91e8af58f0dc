use raytracer::compositor::{ColorRGBA, Surface, SurfaceFactory};

#[test]
fn test_measurement() {
    let width = 800;
    let height = 600;
    let width_tile = 128;
    let height_tile = 8;

    let background: ColorRGBA<u8> = ColorRGBA::new_rgb(0, 0, 0);
    let surf: Surface = Surface::new(width, height, background);

    let mut total_pixels = 0;

    let mut tiles = surf.divide(width_tile, height_tile);
    while let Some(tile_factory) = tiles.next() {
        total_pixels += tile_factory.create().pixel_count();
    }

    let (or_width, or_height) = surf.overrender_size(width_tile, height_tile);

    assert_eq!(or_width * or_height, total_pixels);
}

#[test]
fn test_paint_it_red() {
    let width = 800;
    let height = 600;
    let width_tile = 128;
    let height_tile = 8;

    let background: ColorRGBA<u8> = ColorRGBA::new_rgb(0, 0, 0);
    let mut surf: Surface = Surface::new(width, height, background);

    let mut tiles = surf.divide(width_tile, height_tile);
    while let Some(tile_factory) = tiles.next() {
        let mut tile = tile_factory.create();
        for y in 0..tile.height {
            for x in 0..tile.width {
                tile.set(x, y, ColorRGBA::new_rgb(255, 0, 0));
            }
        }
        for y in 0..tile.height {
            for x in 0..tile.width {
                assert_eq!(tile[(x, y)].r, 255);
                assert_eq!(tile[(x, y)].g, 0);
                assert_eq!(tile[(x, y)].b, 0);
            }
        }
        surf.merge(&tile);
    }

    for y in 0..surf.height {
        for x in 0..surf.width {
            let color = surf[(x, y)];
            if color.r != 255 {
                panic!("wrong pixel at {}x{}", x, y);
            }
            if color.g != 0 {
                panic!("wrong pixel at {}x{}", x, y);
            }
            if color.b != 0 {
                panic!("wrong pixel at {}x{}", x, y);
            }
        }
    }

    // Check the iterator too
    for color in surf.buffer.iter() {
        assert_eq!(color.r, 255);
        assert_eq!(color.g, 0);
        assert_eq!(color.b, 0);
    }
}

#[test]
fn new_surface_is_background_everywhere() {
    let bg: ColorRGBA<u8> = ColorRGBA::new_rgba(1, 2, 3, 4);
    let s = Surface::new(3, 2, bg);
    assert_eq!((s.width, s.height, s.x_off, s.y_off), (3, 2, 0, 0));
    assert_eq!(s.pixel_count(), 6);
    for c in s.buffer.iter() {
        assert_eq!((c.r, c.g, c.b, c.a), (1, 2, 3, 4));
    }
    let t = Surface::with_offset(4, 5, 7, 9, bg);
    assert_eq!((t.width, t.height, t.x_off, t.y_off), (4, 5, 7, 9));
    assert_eq!(t.pixel_count(), 20);
    let empty = Surface::new(0, 10, bg);
    assert_eq!(empty.pixel_count(), 0);
}

#[test]
fn set_changes_one_pixel_row_major() {
    let bg: ColorRGBA<u8> = ColorRGBA::black();
    let mut s = Surface::new(4, 3, bg);
    s.set(2, 1, ColorRGBA::new_rgb(9, 8, 7));
    assert_eq!(s.get(2, 1).r, 9);
    assert_eq!(s[(2, 1)].g, 8);
    // Row-major: pixel (2, 1) of a 4-wide surface is buffer entry 6.
    assert_eq!(s.buffer[6].b, 7);
    for i in 0..12 {
        if i != 6 {
            assert_eq!(s.buffer[i].r, 0);
        }
    }
}

#[test]
fn overrender_rounds_up_to_whole_tiles() {
    let s = Surface::new(800, 600, ColorRGBA::black());
    assert_eq!(s.overrender_size(128, 8), (896, 600));
    assert_eq!(s.overrender_size(800, 600), (800, 600));
    assert_eq!(s.overrender_size(7, 7), (805, 602));
    let e = Surface::new(0, 0, ColorRGBA::black());
    assert_eq!(e.overrender_size(3, 3), (0, 0));
}

#[test]
fn divide_walks_rows_left_to_right() {
    let s = Surface::new(5, 3, ColorRGBA::black());
    let mut it = s.divide(2, 2);
    let mut offsets = Vec::new();
    while let Some(f) = it.next() {
        assert_eq!((f.width, f.height), (2, 2));
        offsets.push((f.x_off, f.y_off));
    }
    assert_eq!(offsets, vec![(0, 0), (2, 0), (4, 0), (0, 2), (2, 2), (4, 2)]);
    // Once done, it stays done.
    assert!(it.next().is_none());
    assert!(it.next().is_none());
}

#[test]
fn divide_of_empty_surface_yields_nothing() {
    let s = Surface::new(0, 5, ColorRGBA::black());
    assert!(s.divide(2, 2).next().is_none());
    let s = Surface::new(5, 0, ColorRGBA::black());
    assert!(s.divide(2, 2).next().is_none());
}

#[test]
fn divide_with_huge_tiles_does_not_overflow() {
    let s = Surface::new(3, 3, ColorRGBA::black());
    let mut it = s.divide(usize::MAX, usize::MAX);
    let f = it.next().unwrap();
    assert_eq!((f.x_off, f.y_off), (0, 0));
    assert!(it.next().is_none());
}

#[test]
fn merge_clips_at_the_edges() {
    let mut s = Surface::new(4, 4, ColorRGBA::black());
    let mut tile = SurfaceFactory::new(3, 3, 2, 3, ColorRGBA::white()).create();
    tile.set(0, 0, ColorRGBA::new_rgb(1, 2, 3));
    s.merge(&tile);
    // Tile pixel (0, 0) lands on (2, 3).
    assert_eq!(s[(2, 3)].r, 1);
    assert_eq!(s[(3, 3)].r, 255);
    // Outside the tile nothing changed.
    assert_eq!(s[(1, 3)].r, 0);
    assert_eq!(s[(2, 2)].r, 0);
    assert_eq!(s[(3, 2)].r, 0);
    assert_eq!(s.pixel_count(), 16);
}

#[test]
fn merge_order_decides_overlaps() {
    let mut s = Surface::new(2, 1, ColorRGBA::black());
    let a = SurfaceFactory::new(2, 1, 0, 0, ColorRGBA::new_rgb(10, 0, 0)).create();
    let b = SurfaceFactory::new(1, 1, 1, 0, ColorRGBA::new_rgb(20, 0, 0)).create();
    s.merge(&a);
    s.merge(&b);
    assert_eq!((s[(0, 0)].r, s[(1, 0)].r), (10, 20));
}

#[test]
fn factory_describes_and_creates() {
    let bg: ColorRGBA<u8> = ColorRGBA::new_rgb(5, 6, 7);
    let f = SurfaceFactory::new(2, 3, 4, 5, bg);
    assert_eq!((f.width, f.height, f.x_off, f.y_off), (2, 3, 4, 5));
    let s = f.create();
    assert_eq!((s.width, s.height, s.x_off, s.y_off), (2, 3, 4, 5));
    assert_eq!(s.pixel_count(), 6);
    assert_eq!(s.background.g, 6);
    assert!(s.buffer.iter().all(|c| c.b == 7));
}

#[test]
fn longer_buffers_keep_their_extra_entries() {
    let red = ColorRGBA::new_rgb(255, 0, 0);
    let blue = ColorRGBA::new_rgb(0, 0, 255);
    let mut big = Surface::new(2, 2, ColorRGBA::black());
    big.buffer.push(blue);
    let mut tile = Surface::with_offset(1, 1, 1, 1, red);
    tile.buffer.push(blue);
    big.merge(&tile);
    assert_eq!(big[(1, 1)].r, 255);
    assert_eq!(big[(0, 0)].r, 0);
    assert_eq!(big.buffer.len(), 5);
    assert_eq!(big.buffer[4].b, 255);
    big.set(0, 1, red);
    assert_eq!(big.get(0, 1).r, 255);
    assert_eq!(big.buffer[4].b, 255);
}
