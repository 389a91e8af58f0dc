use raytracer::compositor::colorrgba::clamp;
use raytracer::compositor::{Channel, ColorRGBA};

#[test]
fn color_add() {
    let foo_color: ColorRGBA<u8> = ColorRGBA::new_rgba(1, 1, 1, 1) + ColorRGBA::new_rgba(2, 2, 2, 2);
    assert_eq!(foo_color.r, 3);
    assert_eq!(foo_color.g, 3);
    assert_eq!(foo_color.b, 3);
    assert_eq!(foo_color.a, 3);

    let foo_color: ColorRGBA<u8> = ColorRGBA::new_rgba(200, 1, 1, 1) + ColorRGBA::new_rgba(200, 2, 2, 2);
    assert_eq!(foo_color.r, 255);
    assert_eq!(foo_color.g, 3);
    assert_eq!(foo_color.b, 3);
    assert_eq!(foo_color.a, 3);
}

#[test]
fn color_sub() {
    let foo_color: ColorRGBA<u8> = ColorRGBA::new_rgba(7, 7, 7, 7) - ColorRGBA::new_rgba(2, 2, 2, 2);
    assert_eq!(foo_color.r, 5);
    assert_eq!(foo_color.g, 5);
    assert_eq!(foo_color.b, 5);
    assert_eq!(foo_color.a, 5);
}

#[test]
fn color_sub_saturates_at_zero() {
    let c: ColorRGBA<u8> = ColorRGBA::new_rgba(2, 10, 0, 255) - ColorRGBA::new_rgba(7, 3, 0, 255);
    assert_eq!((c.r, c.g, c.b, c.a), (0, 7, 0, 0));
}

#[test]
fn color_add_is_commutative_on_examples() {
    let x: ColorRGBA<u8> = ColorRGBA::new_rgba(250, 3, 128, 0);
    let y: ColorRGBA<u8> = ColorRGBA::new_rgba(10, 4, 128, 255);
    let a = x + y;
    let b = y + x;
    assert_eq!((a.r, a.g, a.b, a.a), (b.r, b.g, b.b, b.a));
    assert_eq!((a.r, a.g, a.b, a.a), (255, 7, 255, 255));
}

#[test]
fn color_sub_self_is_zero() {
    let x: ColorRGBA<u8> = ColorRGBA::new_rgba(17, 200, 255, 9);
    let z = x - x;
    assert_eq!((z.r, z.g, z.b, z.a), (0, 0, 0, 0));
}

#[test]
fn color_add_bounds() {
    let x: ColorRGBA<u8> = ColorRGBA::new_rgba(17, 200, 255, 9);
    let same = x + ColorRGBA::transparent();
    assert_eq!((same.r, same.g, same.b, same.a), (17, 200, 255, 9));
    let full = x + ColorRGBA::new_rgba(255, 255, 255, 255);
    assert_eq!((full.r, full.g, full.b, full.a), (255, 255, 255, 255));
}

#[test]
fn named_colors() {
    let black: ColorRGBA<u8> = ColorRGBA::black();
    assert_eq!((black.r, black.g, black.b, black.a), (0, 0, 0, 255));
    let white: ColorRGBA<u8> = ColorRGBA::white();
    assert_eq!((white.r, white.g, white.b, white.a), (255, 255, 255, 255));
    let clear: ColorRGBA<u8> = ColorRGBA::transparent();
    assert_eq!((clear.r, clear.g, clear.b, clear.a), (0, 0, 0, 0));
    let red: ColorRGBA<u8> = ColorRGBA::new_rgb(255, 0, 0);
    assert_eq!((red.r, red.g, red.b, red.a), (255, 0, 0, 255));
}

#[test]
fn u8_channel_saturates() {
    assert_eq!(<u8 as Channel>::min_value(), 0);
    assert_eq!(<u8 as Channel>::max_value(), 255);
    assert_eq!(<u8 as Channel>::add(250, 10), 255);
    assert_eq!(<u8 as Channel>::add(25, 10), 35);
    assert_eq!(<u8 as Channel>::sub(5, 10), 0);
    assert_eq!(<u8 as Channel>::sub(15, 10), 5);
}

#[test]
fn clamp_limits_to_range() {
    assert_eq!(clamp(-5, 0, 255), 0);
    assert_eq!(clamp(300, 0, 255), 255);
    assert_eq!(clamp(128, 0, 255), 128);
    assert_eq!(clamp(0, 0, 255), 0);
    assert_eq!(clamp(255, 0, 255), 255);
    // An empty range gives its lower end.
    assert_eq!(clamp(7, 10, 5), 10);
}
