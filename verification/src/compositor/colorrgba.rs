use vstd::prelude::*;
use vstd::std_specs::ops::AddSpecImpl;
use vstd::std_specs::ops::SubSpecImpl;

verus! {

/// A numeric type usable as one channel of a color: it has a darkest and a
/// brightest value and its own addition and subtraction.
pub trait Channel: Sized + Copy {
    spec fn spec_min_value() -> Self;

    spec fn spec_max_value() -> Self;

    spec fn spec_add(a: Self, b: Self) -> Self;

    spec fn spec_sub(a: Self, b: Self) -> Self;

    fn min_value() -> (r: Self)
        ensures
            r == Self::spec_min_value(),
    ;

    fn max_value() -> (r: Self)
        ensures
            r == Self::spec_max_value(),
    ;

    fn add(a: Self, b: Self) -> (r: Self)
        ensures
            r == Self::spec_add(a, b),
    ;

    fn sub(a: Self, b: Self) -> (r: Self)
        ensures
            r == Self::spec_sub(a, b),
    ;
}

/// 8-bit channels range over 0..=255 and saturate at both ends.
impl Channel for u8 {
    open spec fn spec_min_value() -> u8 {
        0
    }

    open spec fn spec_max_value() -> u8 {
        255
    }

    open spec fn spec_add(a: u8, b: u8) -> u8 {
        if a + b > 255 {
            255
        } else {
            (a + b) as u8
        }
    }

    open spec fn spec_sub(a: u8, b: u8) -> u8 {
        if a < b {
            0
        } else {
            (a - b) as u8
        }
    }

    fn min_value() -> (r: u8) {
        u8::MIN
    }

    fn max_value() -> (r: u8) {
        u8::MAX
    }

    fn add(a: u8, b: u8) -> (r: u8) {
        a.saturating_add(b)
    }

    fn sub(a: u8, b: u8) -> (r: u8) {
        a.saturating_sub(b)
    }
}

#[derive(Clone, Copy, Debug)]
pub struct ColorRGBA<T> {
    pub r: T,
    pub g: T,
    pub b: T,
    pub a: T,
}

/// `value` limited to `[min_value, max_value]`: first lowered to at most
/// `max_value`, then raised to at least `min_value`.
pub open spec fn spec_clamp(value: int, min_value: int, max_value: int) -> int {
    let lowered = if value < max_value { value } else { max_value };
    if lowered < min_value { min_value } else { lowered }
}

/// Clamps `value` into `[min_value, max_value]` (when `min_value` exceeds
/// `max_value`, the result is `min_value`).
pub fn clamp(value: i32, min_value: i32, max_value: i32) -> (r: i32)
    ensures
        r == spec_clamp(value as int, min_value as int, max_value as int),
{
    let lowered = if value < max_value { value } else { max_value };
    if lowered < min_value { min_value } else { lowered }
}

impl<T: Channel> ColorRGBA<T> {
    /// An opaque color: alpha is the channel's maximum.
    pub fn new_rgb(r: T, g: T, b: T) -> (c: ColorRGBA<T>)
        ensures
            c.r == r,
            c.g == g,
            c.b == b,
            c.a == T::spec_max_value(),
    {
        ColorRGBA { r: r, g: g, b: b, a: T::max_value() }
    }

    pub fn new_rgba(r: T, g: T, b: T, a: T) -> (c: ColorRGBA<T>)
        ensures
            c == (ColorRGBA { r, g, b, a }),
    {
        ColorRGBA { r: r, g: g, b: b, a: a }
    }

    pub fn black() -> (c: ColorRGBA<T>)
        ensures
            c.r == T::spec_min_value(),
            c.g == T::spec_min_value(),
            c.b == T::spec_min_value(),
            c.a == T::spec_max_value(),
    {
        ColorRGBA::new_rgb(T::min_value(), T::min_value(), T::min_value())
    }

    pub fn white() -> (c: ColorRGBA<T>)
        ensures
            c.r == T::spec_max_value(),
            c.g == T::spec_max_value(),
            c.b == T::spec_max_value(),
            c.a == T::spec_max_value(),
    {
        ColorRGBA::new_rgb(T::max_value(), T::max_value(), T::max_value())
    }

    /// Every channel, alpha included, at its minimum.
    pub fn transparent() -> (c: ColorRGBA<T>)
        ensures
            c.r == T::spec_min_value(),
            c.g == T::spec_min_value(),
            c.b == T::spec_min_value(),
            c.a == T::spec_min_value(),
    {
        ColorRGBA::new_rgba(T::min_value(), T::min_value(), T::min_value(), T::min_value())
    }
}

/// Channel-wise sum of two colors, alpha included.
pub open spec fn color_sum<T: Channel>(x: ColorRGBA<T>, y: ColorRGBA<T>) -> ColorRGBA<T> {
    ColorRGBA {
        r: T::spec_add(x.r, y.r),
        g: T::spec_add(x.g, y.g),
        b: T::spec_add(x.b, y.b),
        a: T::spec_add(x.a, y.a),
    }
}

/// Channel-wise difference of two colors, alpha included.
pub open spec fn color_difference<T: Channel>(x: ColorRGBA<T>, y: ColorRGBA<T>) -> ColorRGBA<T> {
    ColorRGBA {
        r: T::spec_sub(x.r, y.r),
        g: T::spec_sub(x.g, y.g),
        b: T::spec_sub(x.b, y.b),
        a: T::spec_sub(x.a, y.a),
    }
}

impl<T: Channel> core::ops::Add for ColorRGBA<T> {
    type Output = ColorRGBA<T>;

    fn add(self, other: ColorRGBA<T>) -> (c: ColorRGBA<T>) {
        ColorRGBA {
            r: T::add(self.r, other.r),
            g: T::add(self.g, other.g),
            b: T::add(self.b, other.b),
            a: T::add(self.a, other.a),
        }
    }
}

impl<T: Channel> AddSpecImpl for ColorRGBA<T> {
    open spec fn obeys_add_spec() -> bool {
        true
    }

    open spec fn add_req(self, rhs: ColorRGBA<T>) -> bool {
        true
    }

    open spec fn add_spec(self, rhs: ColorRGBA<T>) -> ColorRGBA<T> {
        color_sum(self, rhs)
    }
}

impl<T: Channel> core::ops::Sub for ColorRGBA<T> {
    type Output = ColorRGBA<T>;

    fn sub(self, other: ColorRGBA<T>) -> (c: ColorRGBA<T>) {
        ColorRGBA {
            r: T::sub(self.r, other.r),
            g: T::sub(self.g, other.g),
            b: T::sub(self.b, other.b),
            a: T::sub(self.a, other.a),
        }
    }
}

impl<T: Channel> SubSpecImpl for ColorRGBA<T> {
    open spec fn obeys_sub_spec() -> bool {
        true
    }

    open spec fn sub_req(self, rhs: ColorRGBA<T>) -> bool {
        true
    }

    open spec fn sub_spec(self, rhs: ColorRGBA<T>) -> ColorRGBA<T> {
        color_difference(self, rhs)
    }
}

/// Adding 8-bit colors does not depend on the order of the operands.
pub proof fn lemma_add_commutative(x: ColorRGBA<u8>, y: ColorRGBA<u8>)
    ensures
        color_sum(x, y) == color_sum(y, x),
{
}

/// Each channel of a sum of 8-bit colors is the true sum, cut off at 255.
pub proof fn lemma_add_saturates(x: ColorRGBA<u8>, y: ColorRGBA<u8>)
    ensures
        color_sum(x, y).r == if x.r + y.r > 255 { 255 } else { x.r + y.r },
        color_sum(x, y).g == if x.g + y.g > 255 { 255 } else { x.g + y.g },
        color_sum(x, y).b == if x.b + y.b > 255 { 255 } else { x.b + y.b },
        color_sum(x, y).a == if x.a + y.a > 255 { 255 } else { x.a + y.a },
{
}

/// Each channel of a difference of 8-bit colors is the true difference,
/// cut off at 0.
pub proof fn lemma_sub_saturates(x: ColorRGBA<u8>, y: ColorRGBA<u8>)
    ensures
        color_difference(x, y).r == if x.r < y.r { 0 } else { x.r - y.r },
        color_difference(x, y).g == if x.g < y.g { 0 } else { x.g - y.g },
        color_difference(x, y).b == if x.b < y.b { 0 } else { x.b - y.b },
        color_difference(x, y).a == if x.a < y.a { 0 } else { x.a - y.a },
{
}

/// Subtracting a color from itself leaves every channel, alpha included, at 0.
pub proof fn lemma_sub_self_is_zero(x: ColorRGBA<u8>)
    ensures
        color_difference(x, x) == (ColorRGBA::<u8> { r: 0, g: 0, b: 0, a: 0 }),
{
}

/// Adding a color whose every channel is 0 changes nothing, and adding a color
/// whose every channel is 255 gives all 255.
pub proof fn lemma_add_bounds(x: ColorRGBA<u8>)
    ensures
        color_sum(x, ColorRGBA { r: 0, g: 0, b: 0, a: 0 }) == x,
        color_sum(x, ColorRGBA { r: 255, g: 255, b: 255, a: 255 }) == (ColorRGBA::<u8> {
            r: 255,
            g: 255,
            b: 255,
            a: 255,
        }),
{
}

} // verus!
