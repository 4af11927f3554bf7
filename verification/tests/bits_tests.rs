use ears_rs::bits::{BitReader, BitWriter};
use ears_rs::errors::EarsError;

#[test]
fn write_complex_works() {
    let mut writer = BitWriter::new();

    writer.write_bool(true);
    writer.write_bool(false);

    writer.write_long(6, 63).unwrap();
    writer.write_long(6, 0).unwrap();

    writer.write_byte(255);
    writer.write_long(2, 2).unwrap();

    writer.align();
    let output: Vec<u8> = writer.into_bytes();

    let mut reader = BitReader::new(output.as_slice());

    assert!(reader.read_bool().unwrap());
    assert!(!(reader.read_bool().unwrap()));

    assert_eq!(reader.read_long(6).unwrap(), 63);
    assert_eq!(reader.read_long(6).unwrap(), 0);

    assert_eq!(reader.read_byte().unwrap(), 255);

    assert_eq!(reader.read(2).unwrap(), 2);
}

#[test]
fn read_width_limits() {
    let data: Vec<u8> = vec![1, 2, 3, 4, 5, 6, 7, 8, 9];
    let mut reader = BitReader::new(data.as_slice());
    assert!(matches!(
        reader.read(33),
        Err(EarsError::NotEnoughSpaceInIntForBitsError(33))
    ));
    assert!(matches!(
        reader.read_long(65),
        Err(EarsError::NotEnoughSpaceInLongForBitsError(65))
    ));
    assert_eq!(reader.read_long(0).unwrap(), 0);
}

#[test]
fn write_width_limits() {
    let mut writer = BitWriter::new();
    assert!(matches!(
        writer.write_long(0, 1),
        Err(EarsError::NotEnoughSpaceInLongForBitsError(0))
    ));
    assert!(matches!(
        writer.write_long(64, 1),
        Err(EarsError::NotEnoughSpaceInLongForBitsError(64))
    ));
}

#[test]
fn truncated_read_fails() {
    let data: Vec<u8> = vec![0xAB];
    let mut reader = BitReader::new(data.as_slice());
    assert_eq!(reader.read(8).unwrap(), 0xAB);
    assert!(matches!(
        reader.read_bit(),
        Err(EarsError::TruncatedBitStream)
    ));
}

#[test]
fn available_counts_touched_bytes() {
    let data: Vec<u8> = vec![0, 0, 0];
    let mut reader = BitReader::new(data.as_slice());
    assert_eq!(reader.available(), 3);
    reader.read_bit().unwrap();
    assert_eq!(reader.available(), 2);
    reader.read(7).unwrap();
    assert_eq!(reader.available(), 2);
    reader.read_byte().unwrap();
    assert_eq!(reader.available(), 1);
}
