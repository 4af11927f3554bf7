use ears_rs::alfalfa::{encode_alfalfa, read_alfalfa, read_framed, write_alfalfa};
use ears_rs::errors::EarsError;
use ears_rs::image::EarsImage;
use ears_rs::model::{AlfalfaData, AlfalfaDataKey};

fn cape_bytes() -> Vec<u8> {
    vec![137, 80, 78, 71, 13, 10, 26, 10, 0, 0, 0, 13, 73, 72, 68, 82, 0, 0, 0, 20, 0, 0, 0, 16, 8, 6, 0, 0, 0, 22, 24, 95, 27, 0, 0, 2, 227, 73, 68, 65, 84, 120, 156, 141, 148, 91, 72, 84, 81, 24, 133, 215, 156, 57, 163, 51, 14, 131, 78, 83, 94, 38, 77, 71, 195, 176, 146, 66, 41, 181, 210, 210, 204, 202, 52, 145, 172, 36, 3, 49, 169, 4, 9, 11, 161, 52, 3, 43, 136, 160, 11, 61, 4, 249, 16, 37, 138, 189, 148, 21, 66, 55, 234, 165, 94, 194, 130, 160, 160, 32, 240, 33, 186, 80, 97, 151, 55, 159, 66, 86, 235, 204, 30, 26, 35, 168, 30, 190, 179, 255, 253, 239, 179, 214, 255, 159, 189, 247, 12, 38, 1, 78, 187, 193, 49, 141, 105, 34, 75, 164, 136, 27, 98, 196, 89, 179, 192, 207, 26, 243, 68, 241, 95, 40, 21, 171, 4, 214, 234, 113, 207, 17, 38, 9, 219, 22, 150, 10, 8, 75, 120, 193, 251, 90, 171, 18, 126, 145, 255, 31, 224, 226, 106, 61, 16, 39, 203, 47, 177, 13, 6, 236, 120, 110, 184, 74, 57, 143, 4, 201, 255, 32, 69, 239, 191, 235, 0, 235, 231, 131, 139, 66, 134, 12, 25, 214, 228, 128, 61, 203, 193, 83, 42, 86, 53, 15, 28, 88, 23, 51, 12, 198, 201, 14, 196, 153, 153, 199, 171, 93, 96, 97, 200, 136, 119, 20, 128, 117, 121, 224, 227, 22, 240, 102, 35, 120, 183, 9, 204, 85, 229, 103, 173, 127, 26, 166, 171, 112, 87, 145, 25, 127, 51, 156, 184, 3, 70, 194, 224, 143, 231, 46, 182, 54, 128, 71, 247, 130, 79, 134, 192, 241, 65, 240, 245, 85, 23, 195, 179, 193, 137, 81, 25, 250, 36, 80, 183, 249, 89, 134, 160, 58, 235, 104, 48, 227, 204, 60, 30, 141, 233, 48, 190, 197, 247, 171, 111, 63, 248, 252, 33, 232, 138, 205, 167, 191, 235, 96, 174, 201, 208, 233, 68, 221, 231, 231, 26, 130, 234, 188, 173, 217, 20, 202, 206, 140, 231, 209, 186, 93, 162, 169, 112, 84, 236, 211, 169, 78, 79, 122, 162, 88, 174, 152, 225, 84, 6, 175, 15, 198, 13, 29, 177, 131, 95, 183, 162, 101, 139, 33, 61, 117, 134, 225, 172, 78, 85, 235, 1, 83, 143, 218, 76, 222, 29, 239, 52, 212, 239, 224, 102, 64, 235, 161, 147, 234, 88, 157, 216, 18, 184, 37, 14, 56, 239, 233, 238, 250, 235, 13, 150, 186, 245, 104, 45, 193, 49, 76, 220, 172, 137, 174, 69, 210, 177, 152, 153, 29, 67, 177, 247, 136, 12, 22, 74, 212, 107, 114, 150, 58, 131, 140, 189, 58, 36, 232, 11, 18, 234, 13, 46, 25, 90, 234, 222, 142, 40, 239, 151, 161, 175, 78, 85, 15, 26, 19, 43, 205, 224, 196, 254, 3, 96, 98, 137, 126, 57, 125, 102, 30, 104, 51, 157, 249, 182, 25, 67, 111, 181, 226, 90, 211, 161, 99, 230, 201, 113, 12, 177, 138, 115, 208, 203, 124, 239, 179, 168, 40, 226, 121, 193, 37, 145, 55, 209, 56, 199, 247, 146, 33, 244, 51, 136, 125, 198, 16, 91, 77, 33, 212, 210, 135, 50, 122, 69, 18, 202, 117, 128, 126, 186, 17, 166, 7, 243, 156, 47, 89, 202, 160, 245, 148, 5, 89, 95, 149, 168, 149, 104, 152, 11, 194, 95, 20, 151, 50, 197, 61, 46, 113, 175, 196, 221, 102, 11, 208, 28, 29, 19, 80, 163, 245, 149, 49, 202, 53, 175, 165, 133, 116, 153, 230, 58, 91, 210, 204, 160, 107, 148, 57, 41, 159, 88, 144, 246, 81, 134, 135, 185, 56, 227, 61, 51, 189, 111, 89, 152, 249, 65, 243, 61, 162, 195, 220, 2, 52, 48, 17, 21, 50, 46, 215, 88, 246, 11, 31, 54, 202, 48, 153, 54, 34, 68, 37, 150, 113, 192, 58, 206, 17, 251, 28, 175, 88, 103, 217, 133, 157, 188, 101, 13, 112, 208, 62, 193, 7, 174, 203, 60, 102, 117, 178, 29, 141, 81, 195, 6, 84, 178, 2, 197, 49, 138, 126, 197, 27, 176, 66, 95, 226, 99, 38, 210, 136, 22, 212, 243, 188, 246, 105, 216, 58, 195, 219, 184, 196, 94, 117, 51, 138, 11, 28, 178, 78, 235, 47, 237, 34, 187, 209, 206, 67, 234, 210, 185, 232, 77, 88, 207, 74, 109, 69, 37, 74, 98, 152, 184, 90, 227, 38, 172, 225, 92, 164, 242, 39, 177, 98, 209, 227, 149, 197, 218, 189, 0, 0, 0, 0, 73, 69, 78, 68, 174, 66, 96, 130]
}

fn erase_bytes() -> Vec<u8> {
    vec![196, 131, 30, 2, 12, 122, 141, 24, 96, 152, 201]
}

fn expected_stream() -> Vec<u8> {
    vec![234, 31, 161, 250, 1, 3, 255, 137, 80, 78, 71, 13, 10, 26, 10, 0, 0, 0, 13, 73, 72, 68, 82, 0, 0, 0, 20, 0, 0, 0, 16, 8, 6, 0, 0, 0, 22, 24, 95, 27, 0, 0, 2, 227, 73, 68, 65, 84, 120, 156, 141, 148, 91, 72, 84, 81, 24, 133, 215, 156, 57, 163, 51, 14, 131, 78, 83, 94, 38, 77, 71, 195, 176, 146, 66, 41, 181, 210, 210, 204, 202, 52, 145, 172, 36, 3, 49, 169, 4, 9, 11, 161, 52, 3, 43, 136, 160, 11, 61, 4, 249, 16, 37, 138, 189, 148, 21, 66, 55, 234, 165, 94, 194, 130, 160, 160, 32, 240, 33, 186, 80, 97, 151, 55, 159, 66, 86, 235, 204, 30, 26, 35, 168, 30, 190, 179, 255, 253, 239, 179, 214, 255, 159, 189, 247, 12, 38, 1, 78, 187, 193, 49, 141, 105, 34, 75, 164, 136, 27, 98, 196, 89, 179, 192, 207, 26, 243, 68, 241, 95, 40, 21, 171, 4, 214, 234, 113, 207, 17, 38, 9, 219, 22, 150, 10, 8, 75, 120, 193, 251, 90, 171, 18, 126, 145, 255, 31, 224, 226, 106, 61, 16, 39, 203, 47, 177, 13, 6, 236, 120, 110, 184, 74, 57, 143, 4, 201, 255, 32, 69, 239, 191, 235, 0, 235, 231, 131, 139, 66, 134, 12, 25, 214, 228, 128, 61, 203, 193, 83, 42, 86, 53, 15, 28, 88, 23, 51, 12, 198, 201, 14, 196, 153, 153, 199, 171, 93, 96, 97, 200, 136, 119, 255, 20, 128, 117, 121, 224, 227, 22, 240, 102, 35, 120, 183, 9, 204, 85, 229, 103, 173, 127, 26, 166, 171, 112, 87, 145, 25, 127, 51, 156, 184, 3, 70, 194, 224, 143, 231, 46, 182, 54, 128, 71, 247, 130, 79, 134, 192, 241, 65, 240, 245, 85, 23, 195, 179, 193, 137, 81, 25, 250, 36, 80, 183, 249, 89, 134, 160, 58, 235, 104, 48, 227, 204, 60, 30, 141, 233, 48, 190, 197, 247, 171, 111, 63, 248, 252, 33, 232, 138, 205, 167, 191, 235, 96, 174, 201, 208, 233, 68, 221, 231, 231, 26, 130, 234, 188, 173, 217, 20, 202, 206, 140, 231, 209, 186, 93, 162, 169, 112, 84, 236, 211, 169, 78, 79, 122, 162, 88, 174, 152, 225, 84, 6, 175, 15, 198, 13, 29, 177, 131, 95, 183, 162, 101, 139, 33, 61, 117, 134, 225, 172, 78, 85, 235, 1, 83, 143, 218, 76, 222, 29, 239, 52, 212, 239, 224, 102, 64, 235, 161, 147, 234, 88, 157, 216, 18, 184, 37, 14, 56, 239, 233, 238, 250, 235, 13, 150, 186, 245, 104, 45, 193, 49, 76, 220, 172, 137, 174, 69, 210, 177, 152, 153, 29, 67, 177, 247, 136, 12, 22, 74, 212, 107, 114, 150, 58, 131, 140, 189, 58, 36, 232, 11, 18, 234, 13, 46, 25, 90, 234, 222, 142, 40, 239, 151, 161, 175, 78, 85, 15, 26, 19, 43, 205, 224, 196, 254, 3, 96, 98, 137, 126, 57, 125, 102, 30, 255, 104, 51, 157, 249, 182, 25, 67, 111, 181, 226, 90, 211, 161, 99, 230, 201, 113, 12, 177, 138, 115, 208, 203, 124, 239, 179, 168, 40, 226, 121, 193, 37, 145, 55, 209, 56, 199, 247, 146, 33, 244, 51, 136, 125, 198, 16, 91, 77, 33, 212, 210, 135, 50, 122, 69, 18, 202, 117, 128, 126, 186, 17, 166, 7, 243, 156, 47, 89, 202, 160, 245, 148, 5, 89, 95, 149, 168, 149, 104, 152, 11, 194, 95, 20, 151, 50, 197, 61, 46, 113, 175, 196, 221, 102, 11, 208, 28, 29, 19, 80, 163, 245, 149, 49, 202, 53, 175, 165, 133, 116, 153, 230, 58, 91, 210, 204, 160, 107, 148, 57, 41, 159, 88, 144, 246, 81, 134, 135, 185, 56, 227, 61, 51, 189, 111, 89, 152, 249, 65, 243, 61, 162, 195, 220, 2, 52, 48, 17, 21, 50, 46, 215, 88, 246, 11, 31, 54, 202, 48, 153, 54, 34, 68, 37, 150, 113, 192, 58, 206, 17, 251, 28, 175, 88, 103, 217, 133, 157, 188, 101, 13, 112, 208, 62, 193, 7, 174, 203, 60, 102, 117, 178, 29, 141, 81, 195, 6, 84, 178, 2, 197, 49, 138, 126, 197, 27, 176, 66, 95, 226, 99, 38, 210, 136, 22, 212, 243, 188, 246, 105, 216, 58, 195, 219, 184, 196, 94, 117, 51, 138, 11, 28, 178, 78, 235, 47, 237, 34, 187, 209, 206, 67, 234, 210, 185, 232, 77, 88, 207, 74, 109, 69, 37, 74, 98, 31, 152, 184, 90, 227, 38, 172, 225, 92, 164, 242, 39, 177, 98, 209, 227, 149, 197, 218, 189, 0, 0, 0, 0, 73, 69, 78, 68, 174, 66, 96, 130, 2, 11, 196, 131, 30, 2, 12, 122, 141, 24, 96, 152, 201, 0]
}

fn sample_data() -> AlfalfaData {
    let mut data = AlfalfaData::new();
    data.set_data(AlfalfaDataKey::Cape, cape_bytes());
    data.set_data(AlfalfaDataKey::Erase, erase_bytes());
    data
}

#[test]
fn alfalfa_write_works() {
    let out = encode_alfalfa(&sample_data()).unwrap();
    assert_eq!(out, expected_stream());
}

#[test]
fn alfalfa_framed_read_works() {
    let data = read_framed(expected_stream().as_slice()).unwrap().unwrap();
    assert_eq!(data.version(), 1);
    assert_eq!(data.get_data(AlfalfaDataKey::Cape).unwrap(), &cape_bytes());
    assert_eq!(data.get_data(AlfalfaDataKey::Erase).unwrap(), &erase_bytes());
    assert!(data.get_data(AlfalfaDataKey::Wings).is_none());
}

#[test]
fn alfalfa_framing_roundtrip_works() {
    let mut data = AlfalfaData::new();
    data.set_data(AlfalfaDataKey::Wings, vec![1, 2, 3]);
    data.set_data(AlfalfaDataKey::Custom("Hello"), vec![]);
    data.set_data(AlfalfaDataKey::Erase, vec![0; 255]);
    let out = encode_alfalfa(&data).unwrap();
    let back = read_framed(out.as_slice()).unwrap().unwrap();
    assert_eq!(back, data);
}

#[test]
fn alfalfa_image_roundtrip_works() {
    let mut image = EarsImage::new(64, 64);
    write_alfalfa(&sample_data(), &mut image).unwrap();
    let back = read_alfalfa(&image).unwrap().unwrap();
    assert_eq!(back.version(), 1);
    assert_eq!(back.get_data(AlfalfaDataKey::Cape).unwrap(), &cape_bytes());
    assert_eq!(back.get_data(AlfalfaDataKey::Erase).unwrap(), &erase_bytes());
}

#[test]
fn alfalfa_high_bit_invariant() {
    let mut image = EarsImage::new(64, 64);
    write_alfalfa(&sample_data(), &mut image).unwrap();
    let rects: [(u32, u32, u32, u32); 10] = [
        (8, 0, 24, 8),
        (0, 8, 8, 16),
        (16, 8, 32, 16),
        (4, 16, 12, 20),
        (20, 16, 36, 20),
        (44, 16, 52, 20),
        (0, 20, 56, 32),
        (20, 48, 28, 52),
        (36, 48, 44, 52),
        (16, 52, 48, 64),
    ];
    for (x1, y1, x2, y2) in rects {
        for x in x1..x2 {
            for y in y1..y2 {
                let p = image.get_pixel(x, y).unwrap();
                assert!(p.a & 0x80 != 0, "alpha high bit clear at ({}, {})", x, y);
            }
        }
    }
}

#[test]
fn alfalfa_empty_image_carries_nothing() {
    let image = EarsImage::new(64, 64);
    assert!(read_alfalfa(&image).unwrap().is_none());
    let image2 = EarsImage::new(32, 32);
    assert!(read_alfalfa(&image2).unwrap().is_none());
}

#[test]
fn alfalfa_version_errors() {
    let data = AlfalfaData::with_version(2);
    assert!(matches!(
        encode_alfalfa(&data),
        Err(EarsError::InvalidAlfalfaVersion(2))
    ));
    let empty = AlfalfaData::with_version(0);
    assert_eq!(encode_alfalfa(&empty).unwrap(), Vec::<u8>::new());
}

#[test]
fn alfalfa_key_errors() {
    let mut bad_start = AlfalfaData::new();
    bad_start.set_data(AlfalfaDataKey::Custom("!nope"), vec![1]);
    assert!(matches!(
        encode_alfalfa(&bad_start),
        Err(EarsError::InvalidAlfalfaEntryName(_))
    ));
    let mut non_ascii = AlfalfaData::new();
    non_ascii.set_data(AlfalfaDataKey::Custom("Gr\u{fc}n"), vec![1]);
    assert!(matches!(
        encode_alfalfa(&non_ascii),
        Err(EarsError::InvalidAlfalfaEntryNameAscii(_))
    ));
}

#[test]
fn alfalfa_unk_key_roundtrip() {
    let mut data = AlfalfaData::new();
    data.set_data(AlfalfaDataKey::Custom("!unk9"), vec![5, 6]);
    let out = encode_alfalfa(&data).unwrap();
    assert_eq!(out, vec![0xEA, 0x1F, 0xA1, 0xFA, 1, 9, 2, 5, 6, 0]);
    let back = read_framed(out.as_slice()).unwrap().unwrap();
    assert_eq!(
        back.get_data(AlfalfaDataKey::Custom("!unk9")).unwrap(),
        &vec![5, 6]
    );
}

#[test]
fn alfalfa_too_large_fails() {
    let mut data = AlfalfaData::new();
    data.set_data(AlfalfaDataKey::Cape, vec![7; 1500]);
    let mut image = EarsImage::new(64, 64);
    assert!(matches!(
        write_alfalfa(&data, &mut image),
        Err(EarsError::AlfalfaDataTooLarge(_))
    ));
}

#[test]
fn alfalfa_truncated_stream_fails() {
    let bytes: Vec<u8> = vec![0xEA, 0x1F, 0xA1, 0xFA, 1, 3, 10, 1, 2];
    assert!(matches!(
        read_framed(bytes.as_slice()),
        Err(EarsError::TruncatedBitStream)
    ));
    let short: Vec<u8> = vec![0xEA, 0x1F];
    assert!(matches!(
        read_framed(short.as_slice()),
        Err(EarsError::TruncatedBitStream)
    ));
    let other_magic: Vec<u8> = vec![1, 2, 3, 4, 5];
    assert!(read_framed(other_magic.as_slice()).unwrap().is_none());
    let other_version: Vec<u8> = vec![0xEA, 0x1F, 0xA1, 0xFA, 9];
    assert!(read_framed(other_version.as_slice()).unwrap().is_none());
}

#[test]
fn alfalfa_write_errors_on_small_images() {
    let mut small = EarsImage::new(32, 32);
    assert!(matches!(
        write_alfalfa(&sample_data(), &mut small),
        Err(EarsError::InvalidAlfalfaPixelPosition(_, _))
    ));
}

#[test]
fn alfalfa_model_basics() {
    let mut data = AlfalfaData::new();
    assert!(data.is_empty());
    assert_eq!(data.version(), 1);
    data.set_data(AlfalfaDataKey::Custom("Flag"), vec![1]);
    assert!(!data.is_empty());
    assert_eq!(data.get_data(AlfalfaDataKey::Custom("Flag")).unwrap(), &vec![1]);
    // Replacing a key keeps a single entry.
    data.set_data(AlfalfaDataKey::Custom("Flag"), vec![2]);
    assert_eq!(data.get_data(AlfalfaDataKey::Custom("Flag")).unwrap(), &vec![2]);
    assert_eq!(data.get_data(AlfalfaDataKey::Erase), None);
}
