use vstd::prelude::*;
use crate::compositor::colorrgba::ColorRGBA;
use crate::compositor::surface::Surface;
use crate::util::decimal::decimal;
use crate::util::decimal::push_decimal;

verus! {

/// `P3 <width> <height> 255` and a line break: the header of a plain-text PPM
/// image with 8-bit channels.
pub open spec fn ppm_header(width: nat, height: nat) -> Seq<u8> {
    seq![80u8, 51u8, 32u8] + decimal(width) + seq![32u8] + decimal(height) + seq![32u8] + decimal(255)
        + seq![10u8]
}

/// One pixel as PPM text: red, green and blue in base ten, each followed by
/// a space. Alpha is not written.
pub open spec fn pixel_text(c: ColorRGBA<u8>) -> Seq<u8> {
    decimal(c.r as nat) + seq![32u8] + decimal(c.g as nat) + seq![32u8] + decimal(c.b as nat) + seq![32u8]
}

/// The pixels one after the other as PPM text.
pub open spec fn pixels_text(pixels: Seq<ColorRGBA<u8>>) -> Seq<u8>
    decreases pixels.len(),
{
    if pixels.len() == 0 {
        Seq::empty()
    } else {
        pixels_text(pixels.drop_last()) + pixel_text(pixels.last())
    }
}

/// A surface as a plain-text PPM file.
pub open spec fn ppm_text(s: Surface) -> Seq<u8> {
    ppm_header(s.width as nat, s.height as nat) + pixels_text(s.buffer@)
}

/// The bytes of `surface` as a plain-text (`P3`) PPM image, ready to be
/// written to a file: the header, then every pixel of the buffer in order.
pub fn to_ppm(surface: &Surface) -> (out: Vec<u8>)
    ensures
        out@ == ppm_text(*surface),
{
    let mut out: Vec<u8> = Vec::new();
    out.push(80);
    out.push(51);
    out.push(32);
    push_decimal(&mut out, surface.width);
    out.push(32);
    push_decimal(&mut out, surface.height);
    out.push(32);
    push_decimal(&mut out, 255);
    out.push(10);
    let ghost header = out@;
    assert(header == ppm_header(surface.width as nat, surface.height as nat));
    let n = surface.buffer.len();
    let mut i: usize = 0;
    assert(surface.buffer@.take(0).len() == 0);
    while i < n
        invariant
            i <= n,
            n == surface.buffer@.len(),
            header == ppm_header(surface.width as nat, surface.height as nat),
            out@ == header + pixels_text(surface.buffer@.take(i as int)),
        decreases n - i,
    {
        let pixel = surface.buffer[i];
        let ghost before = out@;
        push_decimal(&mut out, pixel.r as usize);
        out.push(32);
        push_decimal(&mut out, pixel.g as usize);
        out.push(32);
        push_decimal(&mut out, pixel.b as usize);
        out.push(32);
        assert(out@ == before + pixel_text(pixel));
        assert(surface.buffer@.take(i + 1).drop_last() == surface.buffer@.take(i as int));
        assert(surface.buffer@.take(i + 1).last() == pixel);
        i = i + 1;
    }
    assert(surface.buffer@.take(n as int) == surface.buffer@);
    out
}

} // verus!
