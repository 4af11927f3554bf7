use ears_rs::errors::EarsError;
use ears_rs::features::{
    EarAnchor, EarMode, EarsFeatures, SnoutData, TailData, TailMode, WingData, WingMode,
};
use ears_rs::image::{EarsImage, Rgba};
use ears_rs::parser::EarsParser;
use ears_rs::parser_v0::{EarsParserV0, EarsWriterV0};
use ears_rs::parser_v1::{EarsParserV1, EarsWriterV1};

// Bends are numerators over BEND_SCALE = 8064 (a full right angle):
// -10 degrees is -896, -100/7 degrees is -1280.
fn nickac_features() -> EarsFeatures {
    EarsFeatures {
        ear_mode: EarMode::Around,
        ear_anchor: EarAnchor::Center,
        tail: Some(TailData {
            mode: TailMode::Down,
            segments: 2,
            bends: [-896, -1280, 0, 0],
        }),
        snout: Some(SnoutData { offset: 1, width: 4, height: 2, depth: 2 }),
        wing: None,
        claws: true,
        horn: false,
        chest_size: 0,
        cape_enabled: true,
        emissive: false,
        data_version: 1,
    }
}

#[test]
fn v1_roundtrip_write_works() {
    let features = nickac_features();
    let mut image = EarsImage::new(64, 64);
    EarsWriterV1::write(&mut image, &features).unwrap();
    let result = EarsParserV1::parse(&image).unwrap();
    assert_eq!(result, Some(features));
}

#[test]
fn v1_parse_works() {
    // The payload assembled by hand, field by field, MSB first:
    // version 0, ears 10, claws 1, horn 0, tail mode 1, segments-1 = 1,
    // bends (sign+6) 1:7 and 1:10, snout 4/2/2/1, chest 0, wing 0,
    // cape 1, emissive 0.
    let payload: Vec<u8> = {
        let bits = "00000000_001010_1_0_001_01_1000111_1001010_100_01_001_001_00000_000_1_0";
        let bits: String = bits.chars().filter(|c| *c == '0' || *c == '1').collect();
        let mut bytes: Vec<u8> = Vec::new();
        let mut cur: u8 = 0;
        let mut n: u32 = 0;
        for c in bits.chars() {
            cur = (cur << 1) | (if c == '1' { 1 } else { 0 });
            n += 1;
            if n == 8 {
                bytes.push(cur);
                cur = 0;
                n = 0;
            }
        }
        if n > 0 {
            bytes.push(cur << (8 - n));
        }
        bytes
    };
    let mut image = EarsImage::new(64, 64);
    image.set_pixel(0, 32, Rgba { r: 0xEA, g: 0x25, b: 0x01, a: 0xFF });
    for c in 1u32..16 {
        let base = (3 * (c - 1)) as usize;
        let get = |i: usize| -> u8 { *payload.get(i).unwrap_or(&0) };
        image.set_pixel(
            c % 4,
            32 + c / 4,
            Rgba { r: get(base), g: get(base + 1), b: get(base + 2), a: 0xFF },
        );
    }
    let features = EarsParserV1::parse(&image).unwrap().unwrap();
    assert_eq!(features, nickac_features());
    // The dispatcher picks V1 here as well.
    assert_eq!(EarsParser::parse(&image).unwrap(), Some(nickac_features()));
}

#[test]
fn v1_detection_works() {
    let mut image = EarsImage::new(64, 64);
    assert!(EarsParserV1::parse(&image).unwrap().is_none());
    image.set_pixel(0, 32, Rgba { r: 0xEA, g: 0x25, b: 0x01, a: 0xFF });
    assert!(EarsParserV1::parse(&image).unwrap().is_some());
    assert!(EarsParserV0::parse(&image).unwrap().is_none());
}

#[test]
fn v0_works() {
    // "ear out / anchor front / claws / horn / tail back x3 / snout 4x3x4
    // offset 2 / wings symmetric dual": every field on the V0 grid.
    let features = EarsFeatures {
        ear_mode: EarMode::Out,
        ear_anchor: EarAnchor::Front,
        tail: Some(TailData {
            mode: TailMode::Back,
            segments: 3,
            bends: [63 * 43, -63 * 42, 63 * 86, 0],
        }),
        snout: Some(SnoutData { offset: 2, width: 4, height: 3, depth: 4 }),
        wing: Some(WingData { mode: WingMode::SymmetricDual, animated: true }),
        claws: true,
        horn: true,
        chest_size: 0,
        cape_enabled: false,
        emissive: false,
        data_version: 0,
    };
    let mut image = EarsImage::new(64, 64);
    EarsWriterV0::write(&mut image, &features).unwrap();
    let parsed = EarsParserV0::parse(&image).unwrap().unwrap();
    assert_eq!(parsed, features);
    assert_eq!(EarsParser::parse(&image).unwrap(), Some(features));
}

#[test]
fn v0_tail_works() {
    let features = EarsFeatures {
        tail: Some(TailData {
            mode: TailMode::Down,
            segments: 3,
            bends: [63 * 43, -63 * 42, 63 * 86, 0],
        }),
        data_version: 0,
        ..empty_features()
    };
    let mut image = EarsImage::new(64, 64);
    EarsWriterV0::write(&mut image, &features).unwrap();
    let tail = EarsParserV0::parse(&image).unwrap().unwrap().tail.unwrap();
    assert_eq!(tail.mode, TailMode::Down);
    assert_eq!(tail.segments, 3);
    // 30.234375, -29.53125 and 60.46875 degrees on the V0 grid.
    assert_eq!(tail.bends, [2709, -2646, 5418, 0]);
    assert!((tail.bends[0] as f32 / 8064.0 * 90.0 - 30.234375).abs() < 1e-4);
    assert!((tail.bends[1] as f32 / 8064.0 * 90.0 + 29.53125).abs() < 1e-4);
    assert!((tail.bends[2] as f32 / 8064.0 * 90.0 - 60.46875).abs() < 1e-4);
}

fn empty_features() -> EarsFeatures {
    EarsFeatures {
        ear_mode: EarMode::Off,
        ear_anchor: EarAnchor::Center,
        tail: None,
        snout: None,
        wing: None,
        claws: false,
        horn: false,
        chest_size: 0,
        cape_enabled: false,
        emissive: false,
        data_version: 0,
    }
}

#[test]
fn v0_can_change_chest_properly() {
    let mut image = EarsImage::new(64, 64);

    // 0.45 of the maximum, as a numerator over CHEST_SCALE = 3968.
    let features = EarsFeatures { chest_size: 1786, ..empty_features() };

    EarsWriterV0::write(&mut image, &features).unwrap();

    let mut features2 = EarsParserV0::parse(&image).unwrap().unwrap();

    let chest = features2.chest_size as f32 / 3968.0;
    assert!((chest - 0.45).abs() < 0.01, "Chest size is not equal: {} != {}", chest, 0.45);

    features2.chest_size = 0;

    EarsWriterV0::write(&mut image, &features2).unwrap();

    let features3 = EarsParserV0::parse(&image).unwrap().unwrap();

    let chest3 = features3.chest_size as f32 / 3968.0;
    assert!((chest3 - 0.0).abs() < 0.01, "Chest size is not equal: {} != {}", chest3, 0.0);
}

#[test]
fn v0_chest_quantization() {
    // Encoding then decoding keeps the chest size within a 1/128 step.
    let mut image = EarsImage::new(64, 64);
    let features = EarsFeatures { chest_size: 1786, ..empty_features() };
    EarsWriterV0::write(&mut image, &features).unwrap();
    let decoded = EarsParserV0::parse(&image).unwrap().unwrap();
    let got = decoded.chest_size as f32 / 3968.0;
    assert!((0.45 - got).abs() < 1.0 / 128.0);
}

#[test]
fn v0_ear_mode_none() {
    let mut image = EarsImage::new(64, 64);
    EarsWriterV0::write(&mut image, &empty_features()).unwrap();
    let features = EarsParserV0::parse(&image).unwrap().unwrap();
    assert_eq!(features.ear_mode, EarMode::Off);
    assert_eq!(features, empty_features());
}

#[test]
fn v0_ear_mode_above() {
    let mut image = EarsImage::new(64, 64);
    let features = EarsFeatures { ear_mode: EarMode::Above, ..empty_features() };
    EarsWriterV0::write(&mut image, &features).unwrap();
    let parsed = EarsParserV0::parse(&image).unwrap().unwrap();
    assert_eq!(parsed.ear_mode, EarMode::Above);
}

#[test]
fn v0_new_tail_modes_work() {
    for mode in [TailMode::CrossOverlap, TailMode::Cross, TailMode::Star, TailMode::StarOverlap] {
        let features = EarsFeatures {
            tail: Some(TailData { mode, segments: 1, bends: [63 * 64, 0, 0, 0] }),
            ..empty_features()
        };
        let mut image = EarsImage::new(64, 64);
        EarsWriterV0::write(&mut image, &features).unwrap();
        let tail = EarsParserV0::parse(&image).unwrap().unwrap().tail.unwrap();
        assert_eq!(tail.mode, mode);
    }
}

#[test]
fn v0_new_wing_modes_work() {
    for mode in [WingMode::Flat, WingMode::AsymmetricDual] {
        let features = EarsFeatures {
            wing: Some(WingData { mode, animated: false }),
            ..empty_features()
        };
        let mut image = EarsImage::new(64, 64);
        EarsWriterV0::write(&mut image, &features).unwrap();
        let wing = EarsParserV0::parse(&image).unwrap().unwrap().wing.unwrap();
        assert_eq!(wing.mode, mode);
    }
}

#[test]
fn v0_detection_works() {
    let mut image = EarsImage::new(64, 64);
    assert!(EarsParserV0::parse(&image).unwrap().is_none());
    EarsWriterV0::write(&mut image, &empty_features()).unwrap();
    assert!(EarsParserV0::parse(&image).unwrap().is_some());
}

#[test]
fn v0_roundtrip_works() {
    let features = EarsFeatures {
        ear_mode: EarMode::TallCross,
        ear_anchor: EarAnchor::Back,
        tail: Some(TailData {
            mode: TailMode::StarOverlap,
            segments: 4,
            bends: [63 * -2, 63 * 128, 63 * -128, 63 * 5],
        }),
        snout: Some(SnoutData { offset: 4, width: 7, height: 4, depth: 8 }),
        wing: Some(WingData { mode: WingMode::Flat, animated: false }),
        claws: false,
        horn: true,
        chest_size: 31 * 128,
        cape_enabled: true,
        emissive: true,
        data_version: 0,
    };
    let mut image = EarsImage::new(64, 64);
    EarsWriterV0::write(&mut image, &features).unwrap();
    let parsed = EarsParserV0::parse(&image).unwrap().unwrap();
    assert_eq!(parsed, features);
}

#[test]
fn v1_roundtrip_full_features() {
    let features = EarsFeatures {
        ear_mode: EarMode::TallCross,
        ear_anchor: EarAnchor::Back,
        tail: Some(TailData {
            mode: TailMode::Vertical,
            segments: 4,
            bends: [128 * 63, -128 * 63, 128 * 17, -128 * 1],
        }),
        snout: Some(SnoutData { offset: 7, width: 7, height: 4, depth: 8 }),
        wing: Some(WingData { mode: WingMode::Flat, animated: true }),
        claws: true,
        horn: true,
        chest_size: 128 * 31,
        cape_enabled: true,
        emissive: true,
        data_version: 1,
    };
    let mut image = EarsImage::new(64, 64);
    EarsWriterV1::write(&mut image, &features).unwrap();
    let parsed = EarsParserV1::parse(&image).unwrap().unwrap();
    assert_eq!(parsed, features);
}

#[test]
fn writer_errors_on_small_images() {
    let mut narrow = EarsImage::new(2, 64);
    assert!(matches!(
        EarsWriterV0::write(&mut narrow, &empty_features()),
        Err(EarsError::InvalidMagicPixelLocation(_))
    ));
    let features_v1 = EarsFeatures { data_version: 1, ..empty_features() };
    assert!(matches!(
        EarsWriterV1::write(&mut narrow, &features_v1),
        Err(EarsError::InvalidPixelLocation(_, _))
    ));
}

#[test]
fn parser_errors_on_small_detected_images() {
    let mut narrow = EarsImage::new(2, 64);
    narrow.set_pixel(0, 32, Rgba { r: 0x3F, g: 0x23, b: 0xD8, a: 0xFF });
    assert!(matches!(
        EarsParserV0::parse(&narrow),
        Err(EarsError::InvalidMagicPixelLocation(_))
    ));
    narrow.set_pixel(0, 32, Rgba { r: 0xEA, g: 0x25, b: 0x01, a: 0xFF });
    assert!(matches!(
        EarsParserV1::parse(&narrow),
        Err(EarsError::InvalidPixelLocation(_, _))
    ));
}
