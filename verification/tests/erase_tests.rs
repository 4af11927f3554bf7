use ears_rs::alfalfa::write_alfalfa;
use ears_rs::erase::{
    decode_erase_regions, encode_erase_regions, process_erase_regions, EraseRegion,
    EraseRegionsProvider,
};
use ears_rs::image::{EarsImage, Rgba};
use ears_rs::model::AlfalfaData;

fn sample_regions() -> Vec<EraseRegion> {
    vec![
        EraseRegion { x: 49, y: 8, width: 7, height: 8 },
        EraseRegion { x: 32, y: 8, width: 7, height: 8 },
        EraseRegion { x: 42, y: 13, width: 4, height: 2 },
        EraseRegion { x: 32, y: 38, width: 7, height: 10 },
    ]
}

fn sample_bytes() -> Vec<u8> {
    vec![0xc4, 0x83, 0x1e, 0x02, 0x0c, 0x7a, 0x8d, 0x18, 0x60, 0x98, 0xc9]
}

#[test]
fn erase_region_write_works() {
    let out: Vec<u8> = encode_erase_regions(sample_regions().as_slice());
    assert_eq!(out, sample_bytes());
}

#[test]
fn erase_region_decoding_works() {
    let regions = decode_erase_regions(sample_bytes().as_slice()).unwrap();
    assert_eq!(regions, sample_regions());
}

#[test]
fn erase_region_provider_roundtrip() {
    let mut data = AlfalfaData::new();
    data.set_erase_regions(sample_regions()).unwrap();
    let back = data.get_erase_regions().unwrap().unwrap();
    assert_eq!(back, sample_regions());
}

#[test]
fn erase_region_truncated_fails() {
    let data: Vec<u8> = vec![0xFF];
    assert!(decode_erase_regions(data.as_slice()).is_err());
}

#[test]
fn eraser_works() {
    let mut image = EarsImage::new(64, 64);
    for x in 0..64u32 {
        for y in 0..64u32 {
            image.set_pixel(x, y, Rgba { r: 10, g: 20, b: 30, a: 40 });
        }
    }
    let mut data = AlfalfaData::new();
    data.set_erase_regions(vec![EraseRegion { x: 50, y: 40, width: 4, height: 2 }]).unwrap();
    write_alfalfa(&data, &mut image).unwrap();

    process_erase_regions(&mut image).unwrap();

    // Covered pixels are blanked.
    assert_eq!(image.get_pixel(50, 40).unwrap(), Rgba { r: 0, g: 0, b: 0, a: 0 });
    assert_eq!(image.get_pixel(53, 41).unwrap(), Rgba { r: 0, g: 0, b: 0, a: 0 });
    // A neighbour outside the region keeps its colour.
    assert_eq!(image.get_pixel(54, 40).unwrap(), Rgba { r: 10, g: 20, b: 30, a: 40 });
}
