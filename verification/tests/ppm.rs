use raytracer::compositor::{ColorRGBA, Surface};
use raytracer::textures::{CubeMap, ImageTexture};
use raytracer::util::export::to_ppm;
use raytracer::util::import::{from_image, from_ppm, surface_from_rgba, PpmError};

fn sample_surface() -> Surface {
    let mut s = Surface::new(2, 2, ColorRGBA::black());
    s.set(0, 0, ColorRGBA::new_rgb(255, 0, 0));
    s.set(1, 0, ColorRGBA::new_rgba(0, 10, 200, 7));
    s.set(0, 1, ColorRGBA::new_rgb(1, 22, 133));
    s
}

#[test]
fn to_ppm_writes_header_and_pixels() {
    let out = to_ppm(&sample_surface());
    let text = String::from_utf8(out).unwrap();
    assert_eq!(text, "P3 2 2 255\n255 0 0 0 10 200 1 22 133 0 0 0 ");
}

#[test]
fn to_ppm_of_empty_surface_is_header_only() {
    let out = to_ppm(&Surface::new(0, 3, ColorRGBA::black()));
    assert_eq!(out, b"P3 0 3 255\n".to_vec());
}

#[test]
fn ppm_round_trip_keeps_colors_and_makes_alpha_opaque() {
    let s = sample_surface();
    let back = from_ppm(&to_ppm(&s)).unwrap();
    assert_eq!((back.width, back.height, back.x_off, back.y_off), (2, 2, 0, 0));
    for i in 0..4 {
        let (a, b) = (s.buffer[i], back.buffer[i]);
        assert_eq!((a.r, a.g, a.b), (b.r, b.g, b.b));
        assert_eq!(b.a, 255);
    }
}

#[test]
fn from_ppm_reads_words_across_any_whitespace() {
    let s = from_ppm(b"  P3\n# 2 1\t255\r\n1 2 3\n\n4 5 6 ").unwrap_err();
    // "#" is the width word here, and it is not a number.
    assert_eq!(s, PpmError::BadHeader);
    let s = from_ppm(b"P3\n2 1\t255\r\n1 2 3\n\n4 5 6 ").unwrap();
    assert_eq!((s.width, s.height), (2, 1));
    assert_eq!((s.buffer[0].r, s.buffer[0].g, s.buffer[0].b), (1, 2, 3));
    assert_eq!((s.buffer[1].r, s.buffer[1].g, s.buffer[1].b), (4, 5, 6));
}

#[test]
fn from_ppm_pads_with_black_and_ignores_extra() {
    let s = from_ppm(b"P3 2 2 255 9 9 9").unwrap();
    assert_eq!(s.pixel_count(), 4);
    assert_eq!(s.buffer[0].r, 9);
    assert_eq!((s.buffer[3].r, s.buffer[3].g, s.buffer[3].b, s.buffer[3].a), (0, 0, 0, 255));
    let s = from_ppm(b"P3 1 1 255 1 2 3 x y").unwrap();
    assert_eq!((s.buffer[0].r, s.buffer[0].g, s.buffer[0].b), (1, 2, 3));
}

#[test]
fn from_ppm_keeps_low_eight_bits() {
    let s = from_ppm(b"P3 1 1 255 256 257 +511").unwrap();
    assert_eq!((s.buffer[0].r, s.buffer[0].g, s.buffer[0].b), (0, 1, 255));
}

#[test]
fn from_ppm_without_max_value() {
    let s = from_ppm(b"P3 3 4").unwrap();
    assert_eq!((s.width, s.height, s.pixel_count()), (3, 4, 12));
}

#[test]
fn from_ppm_errors() {
    assert_eq!(from_ppm(b"").unwrap_err(), PpmError::BadHeader);
    assert_eq!(from_ppm(b"P3").unwrap_err(), PpmError::BadHeader);
    assert_eq!(from_ppm(b"P3 2").unwrap_err(), PpmError::BadHeader);
    assert_eq!(from_ppm(b"P3 2 -1").unwrap_err(), PpmError::BadHeader);
    assert_eq!(from_ppm(b"P3 99999999999999999999999 1").unwrap_err(), PpmError::BadHeader);
    assert_eq!(
        from_ppm(b"P3 18446744073709551615 2 255").unwrap_err(),
        PpmError::TooLarge
    );
    assert_eq!(from_ppm(b"P3 0 2 255 1").unwrap_err(), PpmError::ZeroWidth);
    assert_eq!(from_ppm(b"P3 1 1 255 1 x 3").unwrap_err(), PpmError::BadPixel);
    assert_eq!(from_ppm(b"P3 1 1 255 1 2").unwrap_err(), PpmError::BadPixel);
    // A zero width with nothing after the header reads fine.
    assert_eq!(from_ppm(b"P3 0 2 255").unwrap().pixel_count(), 0);
}

#[test]
fn image_texture_loads_ppm() {
    let tex = ImageTexture::load(b"P3 1 1 255 4 5 6").unwrap();
    assert_eq!(tex.image[(0, 0)].g, 5);
    assert!(ImageTexture::load(b"P3 1").is_err());
}

#[test]
fn cube_map_loads_six_faces_in_order() {
    let faces: Vec<Vec<u8>> = (0..6u8).map(|i| format!("P3 1 1 255 {} 0 0", i).into_bytes()).collect();
    let cube = CubeMap::load(&faces[0], &faces[1], &faces[2], &faces[3], &faces[4], &faces[5]).unwrap();
    assert_eq!(cube.faces.len(), 6);
    for i in 0..6 {
        assert_eq!(cube.faces[i].image[(0, 0)].r, i as u8);
    }
    let err = CubeMap::load(&faces[0], &faces[1], b"P3 0 1 255 7", b"P3", &faces[4], &faces[5]);
    assert_eq!(err.err(), Some(PpmError::ZeroWidth));
}

#[test]
fn surface_from_rgba_reads_four_samples_per_pixel() {
    let samples = [1u8, 2, 3, 4, 5, 6, 7, 8, 99];
    let s = surface_from_rgba(2, 1, &samples);
    assert_eq!((s.width, s.height), (2, 1));
    assert_eq!((s.buffer[0].r, s.buffer[0].a), (1, 4));
    assert_eq!((s.buffer[1].r, s.buffer[1].g, s.buffer[1].b, s.buffer[1].a), (5, 6, 7, 8));
    assert_eq!(s.background.a, 0);
}

fn crc32(bytes: &[u8]) -> u32 {
    let mut crc = 0xffff_ffffu32;
    for &byte in bytes {
        crc ^= byte as u32;
        for _ in 0..8 {
            crc = if crc & 1 != 0 { (crc >> 1) ^ 0xedb8_8320 } else { crc >> 1 };
        }
    }
    !crc
}

fn adler32(bytes: &[u8]) -> u32 {
    let (mut a, mut b) = (1u32, 0u32);
    for &byte in bytes {
        a = (a + byte as u32) % 65521;
        b = (b + a) % 65521;
    }
    (b << 16) | a
}

fn push_chunk(out: &mut Vec<u8>, kind: &[u8; 4], data: &[u8]) {
    out.extend_from_slice(&(data.len() as u32).to_be_bytes());
    let mut body = kind.to_vec();
    body.extend_from_slice(data);
    out.extend_from_slice(&body);
    out.extend_from_slice(&crc32(&body).to_be_bytes());
}

/// An 8-bit RGBA PNG written out by hand: unfiltered rows in one stored
/// (uncompressed) deflate block.
fn png_bytes(width: u32, height: u32, rgba: Vec<u8>) -> Vec<u8> {
    let mut raw = Vec::new();
    for row in rgba.chunks(4 * width as usize) {
        raw.push(0);
        raw.extend_from_slice(row);
    }
    assert!(raw.len() <= 0xffff);
    let mut zlib = vec![0x78, 0x01, 0x01];
    zlib.extend_from_slice(&(raw.len() as u16).to_le_bytes());
    zlib.extend_from_slice(&(!(raw.len() as u16)).to_le_bytes());
    zlib.extend_from_slice(&raw);
    zlib.extend_from_slice(&adler32(&raw).to_be_bytes());

    let mut out = vec![0x89, b'P', b'N', b'G', 0x0d, 0x0a, 0x1a, 0x0a];
    let mut ihdr = Vec::new();
    ihdr.extend_from_slice(&width.to_be_bytes());
    ihdr.extend_from_slice(&height.to_be_bytes());
    ihdr.extend_from_slice(&[8, 6, 0, 0, 0]);
    push_chunk(&mut out, b"IHDR", &ihdr);
    push_chunk(&mut out, b"IDAT", &zlib);
    push_chunk(&mut out, b"IEND", &[]);
    out
}

#[test]
fn test_from_png24() {
    let expected_image: [[(u8, u8, u8, u8); 10]; 2] = [[
        (0, 0, 0, 255), (1, 1, 1, 255), (2, 2, 2, 255),
        (3, 3, 3, 255), (4, 4, 4, 255), (5, 5, 5, 255),
        (6, 6, 6, 255), (7, 7, 7, 255), (8, 8, 8, 255),
        (9, 9, 9, 255)
    ], [
        (255, 0, 0, 255), (255, 0, 0, 127), (255, 0, 0, 0),
        (0, 255, 0, 255), (0, 255, 0, 127), (0, 255, 0, 0),
        (0, 0, 255, 255), (0, 0, 255, 127), (0, 0, 255, 0),
        (0, 0, 0, 0)
    ]];
    let mut raw = Vec::new();
    for row in expected_image.iter() {
        for &(r, g, b, a) in row.iter() {
            raw.extend_from_slice(&[r, g, b, a]);
        }
    }
    let surface = from_image("test/res/png24.png", &png_bytes(10, 2, raw))
        .ok().expect("failed to load test image `test/res/png24.png`");

    for y in 0..1 {
        for x in 0..9 {
            let pixel = surface[(x, y)];
            let expected = expected_image[y][x];
            assert_eq!(expected, (pixel.r, pixel.g, pixel.b, pixel.a));
        }
    }
}

#[test]
fn from_image_reads_every_pixel_and_rejects_garbage() {
    let png = png_bytes(2, 1, vec![1, 2, 3, 4, 5, 6, 7, 8]);
    let s = from_image("two.png", &png).unwrap();
    assert_eq!((s.width, s.height), (2, 1));
    assert_eq!((s.buffer[1].r, s.buffer[1].g, s.buffer[1].b, s.buffer[1].a), (5, 6, 7, 8));
    assert_eq!(s.background.a, 0);
    assert!(from_image("garbage.png", b"not an image").is_err());
    // Plain-text PPM is one of the formats the decoder reads; alpha is dropped.
    let back = from_image("back.ppm", &to_ppm(&s)).unwrap();
    assert_eq!((back.buffer[1].r, back.buffer[1].g, back.buffer[1].b, back.buffer[1].a), (5, 6, 7, 255));
}

#[test]
fn from_image_picks_the_format_by_extension() {
    let png = png_bytes(2, 1, vec![1, 2, 3, 4, 5, 6, 7, 8]);
    // The extension is compared without regard to case.
    assert_eq!(from_image("dir/TWO.PNG", &png).unwrap().width, 2);
    // PNG bytes under a PPM name are read as PPM, and fail.
    assert!(from_image("two.ppm", &png).is_err());
    // No extension, or one that names no format.
    assert!(from_image("two", &png).is_err());
    assert!(from_image("two.txt", &png).is_err());
}

#[test]
fn ppm_words_split_on_unicode_whitespace() {
    let text = "P3\u{3000}2\u{00A0}1\u{2028}255\u{0085}1 2 3\u{2003}4\u{1680}5\u{202F}6\u{205F}";
    let s = from_ppm(text.as_bytes()).unwrap();
    assert_eq!((s.width, s.height), (2, 1));
    assert_eq!((s.buffer[1].r, s.buffer[1].g, s.buffer[1].b), (4, 5, 6));
    // A zero-width space is no whitespace, so it sticks to the number.
    assert_eq!(from_ppm("P3 1\u{200B} 1 255 1 2 3".as_bytes()).err(), Some(PpmError::BadHeader));
}
