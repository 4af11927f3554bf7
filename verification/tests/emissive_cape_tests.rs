use ears_rs::cape::convert_ears_cape_to_mojang_cape;
use ears_rs::emissive::{
    apply_emissive_palette, extract_emissive_palette, write_emissive_palette, EarsColor,
    EarsEmissivePalette,
};
use ears_rs::features::{EarMode, EarAnchor, EarsFeatures};
use ears_rs::image::{EarsImage, Rgba};
use ears_rs::parser_v0::EarsWriterV0;

fn emissive_features() -> EarsFeatures {
    EarsFeatures {
        ear_mode: EarMode::Off,
        ear_anchor: EarAnchor::Center,
        tail: None,
        snout: None,
        wing: None,
        claws: false,
        horn: false,
        chest_size: 0,
        cape_enabled: false,
        emissive: true,
        data_version: 0,
    }
}

#[test]
fn emissive_writing_works() {
    let palette = EarsEmissivePalette(vec![
        EarsColor { r: 255, g: 0, b: 0 },
        EarsColor { r: 0, g: 255, b: 16 },
    ]);

    let mut image = EarsImage::new(64, 64);
    EarsWriterV0::write(&mut image, &emissive_features()).unwrap();
    write_emissive_palette(&mut image, &palette).unwrap();

    let written_palette = extract_emissive_palette(&image).unwrap();
    assert_eq!(written_palette, Some(palette));
}

#[test]
fn emissive_absent_without_flag() {
    let mut image = EarsImage::new(64, 64);
    let mut features = emissive_features();
    features.emissive = false;
    EarsWriterV0::write(&mut image, &features).unwrap();
    write_emissive_palette(
        &mut image,
        &EarsEmissivePalette(vec![EarsColor { r: 9, g: 9, b: 9 }]),
    )
    .unwrap();
    assert_eq!(extract_emissive_palette(&image).unwrap(), None);
}

#[test]
fn emissive_texture_works() {
    let palette = EarsEmissivePalette(vec![EarsColor { r: 200, g: 100, b: 50 }]);
    let mut texture = EarsImage::new(8, 8);
    texture.set_pixel(1, 1, Rgba { r: 200, g: 100, b: 50, a: 255 });
    texture.set_pixel(2, 2, Rgba { r: 1, g: 2, b: 3, a: 255 });
    texture.set_pixel(3, 3, Rgba { r: 200, g: 100, b: 50, a: 0 });

    let emissive = apply_emissive_palette(&mut texture, &palette).unwrap();

    // A palette colour moves to the emissive layer and is blanked.
    assert_eq!(texture.get_pixel(1, 1).unwrap(), Rgba { r: 0, g: 0, b: 0, a: 0 });
    assert_eq!(emissive.get_pixel(1, 1).unwrap(), Rgba { r: 200, g: 100, b: 50, a: 255 });
    // Other colours stay; transparent palette-coloured pixels stay.
    assert_eq!(texture.get_pixel(2, 2).unwrap(), Rgba { r: 1, g: 2, b: 3, a: 255 });
    assert_eq!(emissive.get_pixel(2, 2).unwrap(), Rgba { r: 0, g: 0, b: 0, a: 0 });
    assert_eq!(texture.get_pixel(3, 3).unwrap(), Rgba { r: 200, g: 100, b: 50, a: 0 });
}

#[test]
fn cape_format_conversion_works() {
    let mut cape = EarsImage::new(20, 16);
    for x in 0..20u32 {
        for y in 0..16u32 {
            cape.set_pixel(x, y, Rgba { r: x as u8, g: y as u8, b: 7, a: 255 });
        }
    }
    let converted = convert_ears_cape_to_mojang_cape(cape);
    assert_eq!(converted.width(), 64);
    assert_eq!(converted.height(), 32);
    // Front view lands at (1, 1).
    assert_eq!(converted.get_pixel(1, 1).unwrap(), Rgba { r: 0, g: 0, b: 7, a: 255 });
    // (20, 16) is covered by the back view too, which wins as the later copy.
    assert_eq!(converted.get_pixel(20, 16).unwrap(), Rgba { r: 18, g: 15, b: 7, a: 255 });
    // (1, 16) is only covered by the front view.
    assert_eq!(converted.get_pixel(1, 16).unwrap(), Rgba { r: 0, g: 15, b: 7, a: 255 });
    // Back view starts at column 10 of the source.
    assert_eq!(converted.get_pixel(12, 1).unwrap(), Rgba { r: 10, g: 0, b: 7, a: 255 });
    // Right edge view.
    assert_eq!(converted.get_pixel(11, 1).unwrap(), Rgba { r: 9, g: 0, b: 7, a: 255 });
    // Bottom strip.
    assert_eq!(converted.get_pixel(11, 0).unwrap(), Rgba { r: 10, g: 15, b: 7, a: 255 });
    // Untouched ground stays transparent.
    assert_eq!(converted.get_pixel(40, 20).unwrap(), Rgba { r: 0, g: 0, b: 0, a: 0 });
}

#[test]
fn cape_passthrough_when_already_converted() {
    let mut cape = EarsImage::new(64, 32);
    cape.set_pixel(5, 5, Rgba { r: 1, g: 2, b: 3, a: 4 });
    let converted = convert_ears_cape_to_mojang_cape(cape);
    assert_eq!(converted.get_pixel(5, 5).unwrap(), Rgba { r: 1, g: 2, b: 3, a: 4 });
}
