use vstd::prelude::*;
use crate::compositor::colorrgba::ColorRGBA;
use crate::compositor::surface::Surface;
use crate::util::decimal::parse_uint;
use crate::util::decimal::parse_uint_range;
use crate::util::tokens::tokens_of;
use crate::util::tokens::next_token;
use crate::util::imageformat::format_of_path;
use crate::util::imageformat::ImageKind;

verus! {

/// Why a PPM text could not be read.
#[derive(Clone, Copy, Debug, PartialEq, Eq)]
pub enum PpmError {
    /// The width or the height is missing or is not an unsigned integer.
    BadHeader,
    /// `width * height` does not fit in a `usize`.
    TooLarge,
    /// The width is zero but pixel values follow the header.
    ZeroWidth,
    /// A pixel that the image needs has a value that is not an unsigned
    /// integer, or lacks its green or blue value.
    BadPixel,
}

/// The width: the second word.
pub open spec fn header_width(t: Seq<Seq<u8>>) -> Option<nat> {
    if t.len() >= 2 {
        parse_uint(t[1])
    } else {
        None
    }
}

/// The height: the third word.
pub open spec fn header_height(t: Seq<Seq<u8>>) -> Option<nat> {
    if t.len() >= 3 {
        parse_uint(t[2])
    } else {
        None
    }
}

/// The words after the header (format tag, width, height, maximum value).
pub open spec fn pixel_tokens(t: Seq<Seq<u8>>) -> Seq<Seq<u8>> {
    if t.len() >= 4 {
        t.skip(4)
    } else {
        Seq::empty()
    }
}

/// The words of pixel `i`: three from position `3 * i`, each an unsigned
/// integer.
pub open spec fn chunk_complete(p: Seq<Seq<u8>>, i: int) -> bool {
    &&& 3 * i + 2 < p.len()
    &&& parse_uint(p[3 * i]) is Some
    &&& parse_uint(p[3 * i + 1]) is Some
    &&& parse_uint(p[3 * i + 2]) is Some
}

/// A channel value read from a word, kept to its low eight bits.
pub open spec fn channel_of(tok: Seq<u8>) -> u8 {
    (parse_uint(tok).unwrap() % 256) as u8
}

/// Pixel `i` of the image: opaque, from its three words where they are
/// present, else black.
pub open spec fn ppm_pixel(p: Seq<Seq<u8>>, i: int) -> ColorRGBA<u8> {
    if 3 * i < p.len() {
        ColorRGBA { r: channel_of(p[3 * i]), g: channel_of(p[3 * i + 1]), b: channel_of(p[3 * i + 2]), a: 255 }
    } else {
        ColorRGBA { r: 0, g: 0, b: 0, a: 255 }
    }
}

/// The error reading the words `t` of a PPM text meets, if any.
pub open spec fn ppm_error(t: Seq<Seq<u8>>) -> Option<PpmError> {
    if header_width(t) is None || header_height(t) is None {
        Some(PpmError::BadHeader)
    } else {
        let w = header_width(t).unwrap();
        let h = header_height(t).unwrap();
        let p = pixel_tokens(t);
        if w * h > usize::MAX {
            Some(PpmError::TooLarge)
        } else if w == 0 && p.len() > 0 {
            Some(PpmError::ZeroWidth)
        } else if exists|i: int| 0 <= i < w * h && 3 * i < p.len() && !#[trigger] chunk_complete(p, i) {
            Some(PpmError::BadPixel)
        } else {
            None
        }
    }
}

/// `s` is the surface that the PPM text `bytes` reads as.
#[verifier::opaque]
pub open spec fn ppm_decodes(bytes: Seq<u8>, s: Surface) -> bool {
    let t = tokens_of(bytes);
    &&& ppm_error(t) is None
    &&& s.wf()
    &&& s.width == header_width(t).unwrap()
    &&& s.height == header_height(t).unwrap()
    &&& s.x_off == 0
    &&& s.y_off == 0
    &&& s.background == (ColorRGBA::<u8> { r: 0, g: 0, b: 0, a: 255 })
    &&& forall|i: int| 0 <= i < s.buffer@.len() ==> #[trigger] s.buffer@[i] == ppm_pixel(pixel_tokens(t), i)
}

proof fn lemma_first_tokens(t: Seq<Seq<u8>>, first: Seq<u8>, rest: Seq<Seq<u8>>)
    requires
        t == seq![first] + rest,
    ensures
        t.len() == rest.len() + 1,
        t[0] == first,
        forall|i: int| 0 <= i < rest.len() ==> t[i + 1] == rest[i],
        t.skip(1) == rest,
{
    assert(t.skip(1) =~= rest);
}

/// Reads a plain-text PPM image: a format tag, the width, the height and the
/// maximum value, then red, green and blue for each pixel row by row, all
/// separated by whitespace. Pixels that the text stops short of stay black;
/// values past the last pixel are ignored; each value keeps its low eight
/// bits. The maximum value is skipped.
pub fn from_ppm(bytes: &[u8]) -> (r: Result<Surface, PpmError>)
    ensures
        match r {
            Ok(s) => ppm_decodes(bytes@, s),
            Err(e) => ppm_error(tokens_of(bytes@)) == Some(e),
        },
{
    reveal(ppm_decodes);
    let ghost t = tokens_of(bytes@);
    assert(bytes@.skip(0) == bytes@);
    // The format tag.
    let (_, tag_end) = match next_token(bytes, 0) {
        Some(span) => span,
        None => return Err(PpmError::BadHeader),
    };
    let ghost t1 = tokens_of(bytes@.skip(tag_end as int));
    proof { lemma_first_tokens(t, t[0], t1); }
    let (w_start, w_end) = match next_token(bytes, tag_end) {
        Some(span) => span,
        None => return Err(PpmError::BadHeader),
    };
    let ghost t2 = tokens_of(bytes@.skip(w_end as int));
    proof { lemma_first_tokens(t1, t1[0], t2); }
    let width = match parse_uint_range(bytes, w_start, w_end) {
        Some(v) => v,
        None => return Err(PpmError::BadHeader),
    };
    let (h_start, h_end) = match next_token(bytes, w_end) {
        Some(span) => span,
        None => return Err(PpmError::BadHeader),
    };
    let ghost t3 = tokens_of(bytes@.skip(h_end as int));
    proof { lemma_first_tokens(t2, t2[0], t3); }
    let height = match parse_uint_range(bytes, h_start, h_end) {
        Some(v) => v,
        None => return Err(PpmError::BadHeader),
    };
    assert(header_width(t) == Some(width as nat));
    assert(header_height(t) == Some(height as nat));
    // The maximum value.
    let mut pos = h_end;
    match next_token(bytes, h_end) {
        Some((_, m_end)) => {
            let ghost t4 = tokens_of(bytes@.skip(m_end as int));
            proof {
                lemma_first_tokens(t3, t3[0], t4);
                assert(t.skip(4) =~= t4);
            }
            pos = m_end;
        },
        None => {
            assert(t.len() == 3);
        },
    }
    let ghost p = pixel_tokens(t);
    assert(tokens_of(bytes@.skip(pos as int)) == p);
    let count = match width.checked_mul(height) {
        Some(c) => c,
        None => return Err(PpmError::TooLarge),
    };
    let black: ColorRGBA<u8> = ColorRGBA::new_rgb(0, 0, 0);
    if width == 0 {
        if next_token(bytes, pos).is_some() {
            return Err(PpmError::ZeroWidth);
        }
        let surface = Surface::new(width, height, black);
        return Ok(surface);
    }
    let mut surface = Surface::new(width, height, black);
    let mut i: usize = 0;
    while i < count
        invariant
            0 <= i <= count,
            count == width * height,
            width > 0,
            pos <= bytes@.len(),
            3 * i <= p.len(),
            tokens_of(bytes@.skip(pos as int)) == p.skip(3 * i),
            surface.wf(),
            surface.width == width,
            surface.height == height,
            surface.x_off == 0,
            surface.y_off == 0,
            surface.background == black,
            black == (ColorRGBA::<u8> { r: 0, g: 0, b: 0, a: 255 }),
            forall|j: int| 0 <= j < i ==> #[trigger] chunk_complete(p, j),
            forall|j: int| 0 <= j < i ==> #[trigger] surface.buffer@[j] == ppm_pixel(p, j),
            forall|j: int| i <= j < count ==> #[trigger] surface.buffer@[j] == black,
            t == tokens_of(bytes@),
            p == pixel_tokens(t),
            header_width(t) == Some(width as nat),
            header_height(t) == Some(height as nat),
        ensures
            i == count || p.len() == 3 * i,
            forall|j: int| 0 <= j < i ==> #[trigger] chunk_complete(p, j),
            forall|j: int| 0 <= j < i ==> #[trigger] surface.buffer@[j] == ppm_pixel(p, j),
            forall|j: int| i <= j < count ==> #[trigger] surface.buffer@[j] == black,
            surface.wf(),
            surface.width == width,
            surface.height == height,
            surface.x_off == 0,
            surface.y_off == 0,
            surface.background == black,
        decreases count - i,
    {
        let ghost rest = p.skip(3 * i);
        let (r_start, r_end) = match next_token(bytes, pos) {
            Some(span) => span,
            None => {
                assert(p.len() == 3 * i);
                break;
            },
        };
        let ghost rest1 = tokens_of(bytes@.skip(r_end as int));
        proof { lemma_first_tokens(rest, rest[0], rest1); }
        assert(p[3 * i] == rest[0]);
        let red = match parse_uint_range(bytes, r_start, r_end) {
            Some(v) => v,
            None => {
                assert(!chunk_complete(p, i as int));
                return Err(PpmError::BadPixel);
            },
        };
        let (g_start, g_end) = match next_token(bytes, r_end) {
            Some(span) => span,
            None => {
                assert(!chunk_complete(p, i as int));
                return Err(PpmError::BadPixel);
            },
        };
        let ghost rest2 = tokens_of(bytes@.skip(g_end as int));
        proof { lemma_first_tokens(rest1, rest1[0], rest2); }
        assert(p[3 * i + 1] == rest1[0]);
        let green = match parse_uint_range(bytes, g_start, g_end) {
            Some(v) => v,
            None => {
                assert(!chunk_complete(p, i as int));
                return Err(PpmError::BadPixel);
            },
        };
        let (b_start, b_end) = match next_token(bytes, g_end) {
            Some(span) => span,
            None => {
                assert(!chunk_complete(p, i as int));
                return Err(PpmError::BadPixel);
            },
        };
        let ghost rest3 = tokens_of(bytes@.skip(b_end as int));
        proof {
            lemma_first_tokens(rest2, rest2[0], rest3);
            assert(rest3 =~= p.skip(3 * i + 3));
        }
        assert(p[3 * i + 2] == rest2[0]);
        let blue = match parse_uint_range(bytes, b_start, b_end) {
            Some(v) => v,
            None => {
                assert(!chunk_complete(p, i as int));
                return Err(PpmError::BadPixel);
            },
        };
        let color = ColorRGBA::new_rgb((red % 256) as u8, (green % 256) as u8, (blue % 256) as u8);
        surface.buffer.set(i, color);
        assert(chunk_complete(p, i as int));
        assert(surface.buffer@[i as int] == ppm_pixel(p, i as int));
        pos = b_end;
        i = i + 1;
    }
    proof {
        assert forall|j: int| 0 <= j < count && 3 * j < p.len() implies #[trigger] chunk_complete(p, j) by {
            if j >= i {
                assert(3 * j >= p.len());
            }
        }
        assert forall|j: int| 0 <= j < surface.buffer@.len() implies #[trigger] surface.buffer@[j] == ppm_pixel(p, j) by {
            if j >= i {
                assert(3 * j >= p.len());
            }
        }
    }
    Ok(surface)
}

/// That decoding `bytes` as an image of format `kind` can give an image
/// `width` by `height` whose 8-bit RGBA samples, row by row, are `samples`.
/// A relation, not a function: decoders may differ from machine to machine
/// (some pick vector code at run time).
pub uninterp spec fn rgba8_decoding(kind: ImageKind, bytes: Seq<u8>, width: u32, height: u32, samples: Seq<u8>) -> bool;

/// Decodes the encoded image `bytes` of the file named `path`, as
/// `image::open` would the file: `image::ImageFormat::from_path` picks the
/// format by the path's extension, `image::load_from_memory_with_format`
/// decodes in that format (a built-in format, so no registered decoding hook
/// is consulted), and `to_rgba8` with `into_raw` gives width, height and the
/// samples row by row, four per pixel.
///
/// Claimed: where the extension names no format (`format_of_path`, which
/// restates the standard library's `Path::extension` and the crate's
/// extension table), the result is an error; on success the format is that
/// one, the result is a decoding of the bytes in it, and the sample buffer
/// holds at least `4 * width * height` samples, as every constructor of the
/// crate's `ImageBuffer` keeps to. Whether bytes decode in a format does not
/// change from call to call (the decoders, and the default allocation
/// limits that `load_from_memory_with_format` applies, depend on the bytes
/// alone), so an error means that no decoding of the bytes in that format
/// exists. Which bytes decode, and to which pixels, is not stated; the error
/// text is the crate's message. Assumed, not shown for every decoder: that
/// malformed bytes give an error, not a panic.
#[verifier::external_body]
fn decode_rgba8(path: &str, bytes: &[u8]) -> (r: Result<(u32, u32, Vec<u8>), String>)
    ensures
        format_of_path(path@) is None ==> r is Err,
        r is Ok <==> (format_of_path(path@) is Some && exists|w: u32, h: u32, samples: Seq<u8>|
            #[trigger] rgba8_decoding(format_of_path(path@)->Some_0, bytes@, w, h, samples)),
        r matches Ok((w, h, samples)) ==> {
            &&& format_of_path(path@) is Some
            &&& rgba8_decoding(format_of_path(path@)->Some_0, bytes@, w, h, samples@)
            &&& 4 * w * h <= samples@.len()
        },
{
    let format = match image::ImageFormat::from_path(path) {
        Ok(format) => format,
        Err(err) => return Err(err.to_string()),
    };
    match image::load_from_memory_with_format(bytes, format) {
        Ok(decoded) => {
            let rgba = decoded.to_rgba8();
            Ok((rgba.width(), rgba.height(), rgba.into_raw()))
        },
        Err(err) => Err(err.to_string()),
    }
}

/// Pixel `i` of RGBA samples stored four per pixel.
pub open spec fn rgba_pixel(samples: Seq<u8>, i: int) -> ColorRGBA<u8> {
    ColorRGBA { r: samples[4 * i], g: samples[4 * i + 1], b: samples[4 * i + 2], a: samples[4 * i + 3] }
}

/// A surface `width` by `height` whose pixels, row by row, are the RGBA
/// samples given four per pixel; samples past the last pixel are ignored.
/// The background is fully transparent black.
pub fn surface_from_rgba(width: u32, height: u32, samples: &[u8]) -> (s: Surface)
    requires
        4 * width * height <= samples@.len(),
        4 * width * height <= usize::MAX,
    ensures
        s.wf(),
        s.width == width,
        s.height == height,
        s.x_off == 0,
        s.y_off == 0,
        s.background == (ColorRGBA::<u8> { r: 0, g: 0, b: 0, a: 0 }),
        forall|i: int| 0 <= i < s.buffer@.len() ==> #[trigger] s.buffer@[i] == rgba_pixel(samples@, i),
{
    let w = width as usize;
    let h = height as usize;
    assert(w * h <= 4 * w * h) by (nonlinear_arith)
        requires
            0 <= w * h,
    ;
    let count = w * h;
    assert(4 * count == 4 * width * height) by (nonlinear_arith)
        requires
            count == w * h,
            w == width,
            h == height,
    ;
    let mut surface = Surface::new(w, h, ColorRGBA::transparent());
    let mut i: usize = 0;
    while i < count
        invariant
            i <= count,
            count == w * h,
            4 * count <= samples@.len(),
            4 * count <= usize::MAX,
            surface.wf(),
            surface.width == w,
            surface.height == h,
            surface.x_off == 0,
            surface.y_off == 0,
            surface.background == (ColorRGBA::<u8> { r: 0, g: 0, b: 0, a: 0 }),
            forall|j: int| 0 <= j < i ==> #[trigger] surface.buffer@[j] == rgba_pixel(samples@, j),
        decreases count - i,
    {
        let base = 4 * i;
        let color = ColorRGBA::new_rgba(samples[base], samples[base + 1], samples[base + 2], samples[base + 3]);
        surface.buffer.set(i, color);
        i = i + 1;
    }
    surface
}

/// Reads the encoded image `bytes` of the file named `path` into a surface,
/// pixel for pixel as 8-bit RGBA: the format is the one that the path's
/// extension names (`png`, `jpg`, `gif`, `bmp`, `tga`, `tif`, `webp`,
/// `ppm`, `ico`, `hdr` and the like), and the decoded samples go through
/// `surface_from_rgba`. A path whose extension names no format is refused;
/// otherwise the read succeeds exactly when the bytes decode in that format,
/// whatever the image's size.
/// Whether the bytes decode in that format, and to which pixels, is the
/// `image` crate's answer; a surface returned has the decoded size and
/// pixels, sits at offset (0, 0) and has a fully transparent black
/// background.
pub fn from_image(path: &str, bytes: &[u8]) -> (r: Result<Surface, String>)
    ensures
        format_of_path(path@) is None ==> r is Err,
        r is Ok <==> (format_of_path(path@) is Some && exists|w: u32, h: u32, samples: Seq<u8>|
            #[trigger] rgba8_decoding(format_of_path(path@)->Some_0, bytes@, w, h, samples)),
        r matches Ok(s) ==> {
            &&& format_of_path(path@) is Some
            &&& s.wf()
            &&& s.x_off == 0
            &&& s.y_off == 0
            &&& s.background == (ColorRGBA::<u8> { r: 0, g: 0, b: 0, a: 0 })
            &&& exists|w: u32, h: u32, samples: Seq<u8>|
                {
                    &&& #[trigger] rgba8_decoding(format_of_path(path@)->Some_0, bytes@, w, h, samples)
                    &&& s.width == w
                    &&& s.height == h
                    &&& forall|i: int| 0 <= i < s.buffer@.len() ==> #[trigger] s.buffer@[i] == rgba_pixel(samples, i)
                }
        },
{
    match decode_rgba8(path, bytes) {
        Ok((width, height, samples)) => {
            // A vector's length fits in a `usize`, and so then does `4 * width * height`.
            let sample_count: usize = samples.len();
            assert(4 * width * height <= sample_count);
            let s = surface_from_rgba(width, height, samples.as_slice());
            assert(rgba8_decoding(format_of_path(path@)->Some_0, bytes@, width, height, samples@));
            Ok(s)
        },
        Err(message) => Err(message),
    }
}

} // verus!
