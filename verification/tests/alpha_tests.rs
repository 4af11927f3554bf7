use ears_rs::alpha::strip_alpha;
use ears_rs::image::{EarsImage, Rgba};

#[test]
fn alpha_stripper_works() {
    let mut image = EarsImage::new(64, 64);
    image.set_pixel(10, 3, Rgba { r: 1, g: 2, b: 3, a: 7 });
    image.set_pixel(60, 3, Rgba { r: 4, g: 5, b: 6, a: 7 });
    strip_alpha(&mut image);
    // Inside a stripped region: alpha forced opaque, colours kept.
    assert_eq!(image.get_pixel(10, 3).unwrap(), Rgba { r: 1, g: 2, b: 3, a: 255 });
    // Outside: untouched.
    assert_eq!(image.get_pixel(60, 3).unwrap(), Rgba { r: 4, g: 5, b: 6, a: 7 });
}

#[test]
fn alpha_strip_idempotent() {
    let mut image = EarsImage::new(64, 64);
    for x in 0..64u32 {
        image.set_pixel(x, x, Rgba { r: x as u8, g: 9, b: 9, a: (x as u8).wrapping_mul(37) });
    }
    strip_alpha(&mut image);
    let once = image.clone_raw();
    strip_alpha(&mut image);
    assert_eq!(image.clone_raw(), once);
}
