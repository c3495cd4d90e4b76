use switchtools::NSPError;
use switchtools::ReadBytesExt;

#[test]
fn test_read_u32_le() {
    let mut bytes: &[u8] = &[32_u8, 1, 4, 56, 6, 6, 90, 4, 7];
    let num = bytes.read_u32_le().unwrap();

    assert_eq!(num, 939786528);
    assert_eq!(bytes, [6, 6, 90, 4, 7]);

    let num = bytes.read_u32_le().unwrap();
    assert_eq!(num, 73008646);
    assert_eq!(bytes, [7]);
}

#[test]
fn test_read_sized_data() {
    let mut bytes: &[u8] = &[9, 0, 0, 0, 0, 0, 0, 0, 4, 5];
    let content = bytes.read_sized_data().unwrap();

    assert_eq!(content, [9, 0, 0, 0, 0, 0, 0, 0, 4]);
    assert_eq!(bytes, [5]);

    // test two
    let bytes = [
        12_u64.to_le_bytes().to_vec(),
        64_u32.to_le_bytes().to_vec(),
        24_u32.to_le_bytes().to_vec(),
    ]
    .concat();
    assert_eq!(
        bytes.as_slice().read_sized_data().unwrap(),
        [12_u64.to_le_bytes().to_vec(), 64_u32.to_le_bytes().to_vec()].concat()
    );
}

#[test]
fn sized_data_too_small_reads_nothing() {
    let original: &[u8] = &[7, 0, 0, 0, 0, 0, 0, 0, 1, 2];
    let mut bytes = original;
    assert_eq!(bytes.read_sized_data(), Err(NSPError::SizeFieldTooSmall));
    assert_eq!(bytes, original);
}

#[test]
fn sized_data_of_exactly_its_field() {
    let mut bytes: &[u8] = &[8, 0, 0, 0, 0, 0, 0, 0, 3];
    assert_eq!(bytes.read_sized_data().unwrap(), vec![8, 0, 0, 0, 0, 0, 0, 0]);
    assert_eq!(bytes, [3]);
}

#[test]
fn sized_data_longer_than_source() {
    let original: &[u8] = &[10, 0, 0, 0, 0, 0, 0, 0, 1];
    let mut bytes = original;
    assert_eq!(bytes.read_sized_data(), Err(NSPError::UnexpectedEof));
    assert_eq!(bytes, original);
    let mut short: &[u8] = &[10, 0, 0];
    assert_eq!(short.read_sized_data(), Err(NSPError::UnexpectedEof));
}

#[test]
fn u32_be_and_u16_reads() {
    let mut bytes: &[u8] = &[0x12, 0x34, 0x56, 0x78, 0x12, 0x34, 0x12, 0x34, 9];
    assert_eq!(bytes.read_u32_be().unwrap(), 0x1234_5678);
    assert_eq!(bytes.read_u16_le().unwrap(), 0x3412);
    assert_eq!(bytes.read_u16_be().unwrap(), 0x1234);
    assert_eq!(bytes, [9]);
}

#[test]
fn u64_le_read() {
    let mut bytes: &[u8] = &[1, 2, 3, 4, 5, 6, 7, 8, 0xff];
    assert_eq!(bytes.read_u64_le().unwrap(), 0x0807_0605_0403_0201);
    assert_eq!(bytes, [0xff]);
    let mut all_ones: &[u8] = &[0xff; 8];
    assert_eq!(all_ones.read_u64_le().unwrap(), u64::MAX);
}

#[test]
fn signed_reads() {
    let mut bytes: &[u8] = &[0xff, 0x7f, 0xfe, 0xff, 0x00, 0x00, 0x00, 0x80, 0x05];
    assert_eq!(bytes.read_i8().unwrap(), -1);
    assert_eq!(bytes.read_i8().unwrap(), 127);
    assert_eq!(bytes.read_i16_le().unwrap(), -2);
    assert_eq!(bytes.read_i32_le().unwrap(), i32::MIN);
    assert_eq!(bytes.read_i8().unwrap(), 5);
    assert!(bytes.is_empty());
}

#[test]
fn byte_and_bool_reads() {
    let mut bytes: &[u8] = &[1, 0, 2, 200];
    assert!(bytes.read_bool().unwrap());
    assert!(!bytes.read_bool().unwrap());
    assert!(!bytes.read_bool().unwrap());
    assert_eq!(bytes.read_u8().unwrap(), 200);
    assert_eq!(bytes.read_bool(), Err(NSPError::UnexpectedEof));
}

#[test]
fn short_reads_leave_the_source_alone() {
    let original: &[u8] = &[1, 2, 3];
    let mut bytes = original;
    assert_eq!(bytes.read_u32_le(), Err(NSPError::UnexpectedEof));
    assert_eq!(bytes.read_u64_le(), Err(NSPError::UnexpectedEof));
    assert_eq!(bytes.read_i32_le(), Err(NSPError::UnexpectedEof));
    assert_eq!(bytes.read_bytes(4), Err(NSPError::UnexpectedEof));
    assert_eq!(bytes, original);
    let mut empty: &[u8] = &[];
    assert_eq!(empty.read_u8(), Err(NSPError::UnexpectedEof));
    assert_eq!(empty.read_u16_le(), Err(NSPError::UnexpectedEof));
}

#[test]
fn read_bytes_takes_exactly_n() {
    let mut bytes: &[u8] = &[1, 2, 3, 4, 5];
    assert_eq!(bytes.read_bytes(3).unwrap(), vec![1, 2, 3]);
    assert_eq!(bytes.read_bytes(0).unwrap(), Vec::<u8>::new());
    assert_eq!(bytes, [4, 5]);
}

#[test]
fn string_utf8_stops_at_the_terminator() {
    let mut bytes: &[u8] = b"abc\0rest";
    assert_eq!(bytes.read_string_utf8().unwrap(), "abc");
    assert_eq!(bytes, b"rest");
}

#[test]
fn string_utf8_multibyte_and_empty() {
    let mut bytes: &[u8] = "é€\0\0x".as_bytes();
    assert_eq!(bytes.read_string_utf8().unwrap(), "é€");
    assert_eq!(bytes.read_string_utf8().unwrap(), "");
    assert_eq!(bytes, b"x");
}

#[test]
fn string_utf8_without_terminator() {
    let original: &[u8] = b"abc";
    let mut bytes = original;
    assert_eq!(bytes.read_string_utf8(), Err(NSPError::UnexpectedEof));
    assert_eq!(bytes, original);
}

#[test]
fn string_utf8_invalid() {
    let mut bytes: &[u8] = &[0x61, 0xff, 0x62, 0, 1];
    assert_eq!(bytes.read_string_utf8(), Err(NSPError::InvalidUtf8));
}

#[test]
fn widestring_zero_length_reads_nothing_more() {
    let mut bytes: &[u8] = &[0, 0, 0, 0, 0x41, 0x00, 0x42];
    assert_eq!(bytes.read_widestring_utf16().unwrap(), "");
    assert_eq!(bytes, [0x41, 0x00, 0x42]);
}

#[test]
fn widestring_decodes_units() {
    let mut bytes: &[u8] = &[2, 0, 0, 0, 0x68, 0x00, 0x69, 0x00, 7];
    assert_eq!(bytes.read_widestring_utf16().unwrap(), "hi");
    assert_eq!(bytes, [7]);
    // a surrogate pair: U+1F600
    let mut pair: &[u8] = &[2, 0, 0, 0, 0x3d, 0xd8, 0x00, 0xde];
    assert_eq!(pair.read_widestring_utf16().unwrap(), "\u{1F600}");
}

#[test]
fn widestring_unpaired_surrogate() {
    let mut bytes: &[u8] = &[1, 0, 0, 0, 0x00, 0xd8];
    assert_eq!(bytes.read_widestring_utf16(), Err(NSPError::InvalidUtf16));
}

#[test]
fn widestring_short_body() {
    let original: &[u8] = &[3, 0, 0, 0, 0x41, 0x00];
    let mut bytes = original;
    assert_eq!(bytes.read_widestring_utf16(), Err(NSPError::UnexpectedEof));
    assert_eq!(bytes, original);
}
