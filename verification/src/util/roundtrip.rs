use vstd::prelude::*;
use crate::compositor::colorrgba::ColorRGBA;
use crate::compositor::surface::Surface;
use crate::util::decimal::decimal;
use crate::util::decimal::lemma_decimal_digits;
use crate::util::decimal::lemma_parse_decimal;
use crate::util::decimal::is_digit;
use crate::util::tokens::tokens_of;
use crate::util::tokens::is_word;
use crate::util::tokens::lemma_tokens_of_concat;
use crate::util::tokens::lemma_tokens_of_word;
use crate::util::export::ppm_header;
use crate::util::export::pixel_text;
use crate::util::export::pixels_text;
use crate::util::export::ppm_text;
use crate::util::import::ppm_error;
use crate::util::import::ppm_pixel;
use crate::util::import::pixel_tokens;
use crate::util::import::header_width;
use crate::util::import::header_height;
use crate::util::import::chunk_complete;
use crate::util::import::ppm_decodes;

verus! {

/// `c` with its alpha raised to fully opaque.
pub open spec fn opaque(c: ColorRGBA<u8>) -> ColorRGBA<u8> {
    ColorRGBA { r: c.r, g: c.g, b: c.b, a: 255 }
}

/// The words that the PPM text of `pixels` reads as: red, green and blue of
/// each pixel in turn.
pub open spec fn pixel_words(pixels: Seq<ColorRGBA<u8>>) -> Seq<Seq<u8>>
    decreases pixels.len(),
{
    if pixels.len() == 0 {
        Seq::empty()
    } else {
        let c = pixels.last();
        pixel_words(pixels.drop_last()) + seq![decimal(c.r as nat), decimal(c.g as nat), decimal(c.b as nat)]
    }
}

proof fn lemma_decimal_is_word(n: nat)
    ensures
        is_word(decimal(n)),
{
    lemma_decimal_digits(n);
    assert forall|i: int| 0 <= i < decimal(n).len() implies crate::util::tokens::is_word_byte(#[trigger] decimal(n)[i]) by {
        assert(is_digit(decimal(n)[i]));
    }
}

proof fn lemma_tokens_of_pixel(c: ColorRGBA<u8>)
    ensures
        tokens_of(pixel_text(c)) == seq![decimal(c.r as nat), decimal(c.g as nat), decimal(c.b as nat)],
{
    let wr = decimal(c.r as nat) + seq![32u8];
    let wg = decimal(c.g as nat) + seq![32u8];
    let wb = decimal(c.b as nat) + seq![32u8];
    assert(pixel_text(c) == wr + (wg + wb));
    lemma_decimal_is_word(c.r as nat);
    lemma_decimal_is_word(c.g as nat);
    lemma_decimal_is_word(c.b as nat);
    lemma_tokens_of_word(decimal(c.r as nat), 32u8);
    lemma_tokens_of_word(decimal(c.g as nat), 32u8);
    lemma_tokens_of_word(decimal(c.b as nat), 32u8);
    lemma_tokens_of_concat(wr, wg + wb);
    lemma_tokens_of_concat(wg, wb);
}

proof fn lemma_tokens_of_pixels(pixels: Seq<ColorRGBA<u8>>)
    ensures
        tokens_of(pixels_text(pixels)) == pixel_words(pixels),
        pixels_text(pixels).len() == 0 || pixels_text(pixels).last() == 32u8,
    decreases pixels.len(),
{
    if pixels.len() == 0 {
        assert(pixels_text(pixels).len() == 0);
    } else {
        lemma_tokens_of_pixels(pixels.drop_last());
        lemma_tokens_of_pixel(pixels.last());
        lemma_tokens_of_concat(pixels_text(pixels.drop_last()), pixel_text(pixels.last()));
    }
}

proof fn lemma_pixel_words_index(pixels: Seq<ColorRGBA<u8>>)
    ensures
        pixel_words(pixels).len() == 3 * pixels.len(),
        forall|i: int|
            0 <= i < pixels.len() ==> {
                &&& pixel_words(pixels)[3 * i] == decimal((#[trigger] pixels[i]).r as nat)
                &&& pixel_words(pixels)[3 * i + 1] == decimal(pixels[i].g as nat)
                &&& pixel_words(pixels)[3 * i + 2] == decimal(pixels[i].b as nat)
            },
    decreases pixels.len(),
{
    if pixels.len() > 0 {
        let init = pixels.drop_last();
        lemma_pixel_words_index(init);
        assert forall|i: int| 0 <= i < pixels.len() implies {
            &&& pixel_words(pixels)[3 * i] == decimal((#[trigger] pixels[i]).r as nat)
            &&& pixel_words(pixels)[3 * i + 1] == decimal(pixels[i].g as nat)
            &&& pixel_words(pixels)[3 * i + 2] == decimal(pixels[i].b as nat)
        } by {
            if i < pixels.len() - 1 {
                assert(pixels[i] == init[i]);
            }
        }
    }
}

proof fn lemma_tokens_of_header(width: nat, height: nat)
    ensures
        tokens_of(ppm_header(width, height)) == seq![seq![80u8, 51u8], decimal(width), decimal(height), decimal(255)],
        ppm_header(width, height).last() == 10u8,
{
    let tag = seq![80u8, 51u8];
    let w0 = tag + seq![32u8];
    let w1 = decimal(width) + seq![32u8];
    let w2 = decimal(height) + seq![32u8];
    let w3 = decimal(255) + seq![10u8];
    assert(ppm_header(width, height) == w0 + (w1 + (w2 + w3)));
    assert(is_word(tag));
    lemma_decimal_is_word(width);
    lemma_decimal_is_word(height);
    lemma_decimal_is_word(255);
    lemma_tokens_of_word(tag, 32u8);
    lemma_tokens_of_word(decimal(width), 32u8);
    lemma_tokens_of_word(decimal(height), 32u8);
    lemma_tokens_of_word(decimal(255), 10u8);
    lemma_tokens_of_concat(w2, w3);
    lemma_tokens_of_concat(w1, w2 + w3);
    lemma_tokens_of_concat(w0, w1 + (w2 + w3));
}

proof fn lemma_pixel_words_decode(pixels: Seq<ColorRGBA<u8>>)
    ensures
        pixel_words(pixels).len() == 3 * pixels.len(),
        forall|i: int|
            0 <= i < pixels.len() ==> #[trigger] chunk_complete(pixel_words(pixels), i) && ppm_pixel(
                pixel_words(pixels),
                i,
            ) == opaque(pixels[i]),
{
    lemma_pixel_words_index(pixels);
    let words = pixel_words(pixels);
    assert forall|i: int| 0 <= i < pixels.len() implies #[trigger] chunk_complete(words, i) && ppm_pixel(words, i)
        == opaque(pixels[i]) by {
        let c = pixels[i];
        lemma_parse_decimal(c.r as nat);
        lemma_parse_decimal(c.g as nat);
        lemma_parse_decimal(c.b as nat);
    }
}

/// Reading back the PPM text written for a surface gives its width, its
/// height and every pixel's red, green and blue, with alpha made opaque.
pub proof fn lemma_ppm_roundtrip(s: Surface)
    requires
        s.wf(),
        s.width * s.height <= usize::MAX,
    ensures
        ({
            let t = tokens_of(ppm_text(s));
            &&& ppm_error(t) is None
            &&& header_width(t) == Some(s.width as nat)
            &&& header_height(t) == Some(s.height as nat)
            &&& forall|i: int| 0 <= i < s.width * s.height ==> #[trigger] ppm_pixel(pixel_tokens(t), i) == opaque(s.buffer@[i])
        }),
{
    let header = ppm_header(s.width as nat, s.height as nat);
    let t = tokens_of(ppm_text(s));
    lemma_tokens_of_header(s.width as nat, s.height as nat);
    lemma_tokens_of_pixels(s.buffer@);
    lemma_tokens_of_concat(header, pixels_text(s.buffer@));
    let words = pixel_words(s.buffer@);
    assert(t == tokens_of(header) + words);
    lemma_parse_decimal(s.width as nat);
    lemma_parse_decimal(s.height as nat);
    assert(t[1] == decimal(s.width as nat));
    assert(t[2] == decimal(s.height as nat));
    assert(t.skip(4) =~= words);
    assert(pixel_tokens(t) == words);
    lemma_pixel_words_decode(s.buffer@);
    let n = s.width * s.height;
    assert(s.width == 0 ==> n == 0) by (nonlinear_arith)
        requires
            n == s.width * s.height,
    ;
    assert(!(exists|i: int| 0 <= i < n && 3 * i < words.len() && !#[trigger] chunk_complete(words, i)));
    assert(header_width(t) == Some(s.width as nat));
    assert(header_height(t) == Some(s.height as nat));
    assert(ppm_error(t) is None);
    assert forall|i: int| 0 <= i < s.width * s.height implies #[trigger] ppm_pixel(pixel_tokens(t), i) == opaque(
        s.buffer@[i],
    ) by {
        assert(chunk_complete(words, i));
    }
}

/// Whatever surface the PPM text written for `s` reads back as has the width,
/// the height and the red, green and blue of every pixel of `s`, with alpha
/// made opaque; and reading it back succeeds.
pub proof fn lemma_read_back_written_ppm(s: Surface, back: Surface)
    requires
        s.wf(),
        s.width * s.height <= usize::MAX,
        ppm_decodes(ppm_text(s), back),
    ensures
        ppm_error(tokens_of(ppm_text(s))) is None,
        back.width == s.width,
        back.height == s.height,
        back.buffer@.len() == s.buffer@.len(),
        forall|i: int| 0 <= i < s.buffer@.len() ==> #[trigger] back.buffer@[i] == opaque(s.buffer@[i]),
{
    reveal(ppm_decodes);
    lemma_ppm_roundtrip(s);
    let t = tokens_of(ppm_text(s));
    assert forall|i: int| 0 <= i < s.buffer@.len() implies #[trigger] back.buffer@[i] == opaque(s.buffer@[i]) by {
        assert(ppm_pixel(pixel_tokens(t), i) == opaque(s.buffer@[i]));
    }
}

} // verus!
