use std::io::Write;

use jdx::wire::{get_u16, get_u32, get_u64, put_u16, put_u32, put_u64};
use jdx::{Dataset, Error, Header, Version};

fn header(width: u16, height: u16, bit_depth: u8, classes: &[&str]) -> Header {
    Header {
        version: Version::V0,
        image_width: width,
        image_height: height,
        bit_depth,
        image_count: 0,
        classes: classes.iter().map(|name| name.to_string()).collect(),
    }
}

fn deflated(data: &[u8]) -> Vec<u8> {
    let mut encoder = flate2::write::DeflateEncoder::new(Vec::new(), flate2::Compression::new(9));
    encoder.write_all(data).unwrap();
    encoder.finish().unwrap()
}

fn file(fixed: &[u8], table: &[u8], payload: &[u8]) -> Vec<u8> {
    let packed = deflated(payload);
    let mut bytes = fixed.to_vec();
    bytes.extend_from_slice(table);
    bytes.extend_from_slice(&(packed.len() as u64).to_le_bytes());
    bytes.extend_from_slice(&packed);
    bytes
}

fn fixed(width: u16, height: u16, bit_depth: u8, table_len: u32, count: u64) -> Vec<u8> {
    let mut bytes = b"JDX".to_vec();
    bytes.push(0);
    bytes.extend_from_slice(&width.to_le_bytes());
    bytes.extend_from_slice(&height.to_le_bytes());
    bytes.push(bit_depth);
    bytes.extend_from_slice(&table_len.to_le_bytes());
    bytes.extend_from_slice(&count.to_le_bytes());
    bytes
}

fn small_dataset() -> Dataset {
    let mut dataset = Dataset::with_header(header(2, 1, 8, &[]));
    dataset.push(vec![10, 11].into_boxed_slice(), "dog").unwrap();
    dataset.push(vec![20, 21].into_boxed_slice(), "cat").unwrap();
    dataset.push(vec![30, 31].into_boxed_slice(), "dog").unwrap();
    dataset
}

#[test]
fn numbers_are_written_least_significant_byte_first() {
    let mut out = vec![0xAA];
    put_u16(&mut out, 0x1234);
    put_u32(&mut out, 0x89AB_CDEF);
    put_u64(&mut out, 0x0102_0304_0506_0708);
    assert_eq!(
        out,
        vec![0xAA, 0x34, 0x12, 0xEF, 0xCD, 0xAB, 0x89, 0x08, 0x07, 0x06, 0x05, 0x04, 0x03, 0x02, 0x01]
    );
    assert_eq!(get_u16(&out, 1), 0x1234);
    assert_eq!(get_u32(&out, 3), 0x89AB_CDEF);
    assert_eq!(get_u64(&out, 7), 0x0102_0304_0506_0708);
}

#[test]
fn the_largest_numbers_keep_their_value() {
    let mut out = Vec::new();
    put_u16(&mut out, u16::MAX);
    put_u32(&mut out, u32::MAX);
    put_u64(&mut out, u64::MAX);
    put_u64(&mut out, 0);
    assert_eq!(out.len(), 22);
    assert_eq!(get_u16(&out, 0), u16::MAX);
    assert_eq!(get_u32(&out, 2), u32::MAX);
    assert_eq!(get_u64(&out, 6), u64::MAX);
    assert_eq!(get_u64(&out, 14), 0);
}

#[test]
fn a_header_is_written_byte_for_byte() {
    let mut example = header(52, 0x0102, 24, &["dog", "cat"]);
    example.image_count = 0x0000_0001_0000_0008;
    let mut out = vec![7];
    example.write_to_bytes(&mut out);
    let mut expected = vec![7];
    expected.extend_from_slice(b"JDX");
    expected.extend_from_slice(&[0, 52, 0, 0x02, 0x01, 24, 8, 0, 0, 0, 8, 0, 0, 0, 1, 0, 0, 0]);
    expected.extend_from_slice(b"dog\0cat\0");
    assert_eq!(out, expected);
}

#[test]
fn a_header_without_classes_has_an_empty_table() {
    let mut out = Vec::new();
    header(1, 2, 3, &[]).write_to_bytes(&mut out);
    assert_eq!(out, vec![b'J', b'D', b'X', 0, 1, 0, 2, 0, 3, 0, 0, 0, 0, 0, 0, 0, 0, 0, 0, 0, 0]);
    assert_eq!(Header::read_from_bytes(&out).unwrap(), header(1, 2, 3, &[]));
}

#[test]
fn a_header_reads_back_and_says_where_it_ends() {
    let mut example = header(640, 480, 32, &["naïve", "日本語", "x"]);
    example.image_count = 12345678901;
    let mut bytes = Vec::new();
    example.write_to_bytes(&mut bytes);
    let end = bytes.len();
    bytes.extend_from_slice(&[1, 2, 3]);
    let (read, used) = Header::read_prefix(&bytes).unwrap();
    assert_eq!(read, example);
    assert_eq!(used, end);
    assert_eq!(Header::read_from_bytes(&bytes).unwrap(), example);
}

#[test]
fn a_file_is_the_header_the_length_and_the_deflated_payload() {
    let written = small_dataset().write_to_bytes().unwrap();
    let payload = [10, 11, 0, 0, 20, 21, 1, 0, 30, 31, 0, 0];
    let expected = file(&fixed(2, 1, 8, 8, 3), b"dog\0cat\0", &payload);
    assert_eq!(written, expected);
    assert_eq!(small_dataset().payload(), payload.to_vec());
    assert_ne!(&written[written.len() - payload.len()..], &payload[..]);
}

#[test]
fn a_file_made_by_hand_is_read() {
    let payload = [1, 2, 3, 4, 5, 6, 1, 0, 7, 8, 9, 10, 11, 12, 0, 0];
    let bytes = file(&fixed(3, 1, 16, 4, 2), b"a\0b\0", &payload);
    let dataset = Dataset::read_from_bytes(&bytes).unwrap();
    let mut expected = header(3, 1, 16, &["a", "b"]);
    expected.image_count = 2;
    assert_eq!(dataset.get_header(), &expected);
    assert_eq!(dataset.len(), 2);
    assert_eq!(dataset.get(0).unwrap(), &(vec![1, 2, 3, 4, 5, 6].into_boxed_slice(), 1));
    assert_eq!(dataset.get(1).unwrap(), &(vec![7, 8, 9, 10, 11, 12].into_boxed_slice(), 0));
}

#[test]
fn an_empty_dataset_reads_back() {
    let dataset = Dataset::with_header(header(4, 4, 8, &["only"]));
    let bytes = dataset.write_to_bytes().unwrap();
    let read = Dataset::read_from_bytes(&bytes).unwrap();
    assert_eq!(read, dataset);
    assert_eq!(read.len(), 0);
}

#[test]
fn images_without_bytes_read_back() {
    let mut dataset = Dataset::with_header(header(9, 9, 4, &[]));
    dataset.push(Vec::new().into_boxed_slice(), "a").unwrap();
    dataset.push(Vec::new().into_boxed_slice(), "b").unwrap();
    assert_eq!(dataset.payload(), vec![0, 0, 1, 0]);
    let read = Dataset::read_from_bytes(&dataset.write_to_bytes().unwrap()).unwrap();
    assert_eq!(read, dataset);
}

#[test]
fn the_class_table_is_read_leniently() {
    let table = b"a\0\0b\0\xff\xfe\0c";
    let bytes = file(&fixed(1, 1, 8, table.len() as u32, 0), table, &[]);
    let read = Header::read_from_bytes(&bytes).unwrap();
    assert_eq!(read.classes, vec!["a", "b", "c"]);
    assert_eq!(Dataset::read_from_bytes(&bytes).unwrap().get_header().classes, vec!["a", "b", "c"]);
}

#[test]
fn the_image_count_is_taken_from_the_header() {
    let bytes = file(&fixed(1, 1, 8, 2, 77), b"a\0", &[5, 0, 0]);
    let read = Dataset::read_from_bytes(&bytes).unwrap();
    assert_eq!(read.get_header().image_count, 77);
    assert_eq!(read.len(), 1);
    assert!(!read.is_valid());
}

#[test]
fn bytes_behind_the_last_whole_record_are_left_out() {
    let bytes = file(&fixed(2, 1, 8, 2, 1), b"a\0", &[1, 2, 0, 0, 9, 9, 9]);
    let read = Dataset::read_from_bytes(&bytes).unwrap();
    assert_eq!(read.len(), 1);
    assert_eq!(read.get(0).unwrap(), &(vec![1, 2].into_boxed_slice(), 0));
}

#[test]
fn bytes_behind_the_body_are_left_out() {
    let mut bytes = small_dataset().write_to_bytes().unwrap();
    bytes.extend_from_slice(b"trailing");
    assert_eq!(Dataset::read_from_bytes(&bytes).unwrap(), small_dataset());
}

#[test]
fn a_wrong_magic_is_a_corrupt_file() {
    let mut bytes = small_dataset().write_to_bytes().unwrap();
    bytes[2] = b'Y';
    assert!(matches!(Dataset::read_from_bytes(&bytes), Err(Error::CorruptFile)));
    assert!(matches!(Header::read_from_bytes(&bytes), Err(Error::CorruptFile)));
    assert!(matches!(Header::read_from_bytes(b"JDY"), Err(Error::CorruptFile)));
}

#[test]
fn an_unknown_revision_is_a_corrupt_file() {
    let mut bytes = small_dataset().write_to_bytes().unwrap();
    bytes[3] = 1;
    assert!(matches!(Dataset::read_from_bytes(&bytes), Err(Error::CorruptFile)));
    assert!(matches!(Header::read_from_bytes(b"JDX\x07"), Err(Error::CorruptFile)));
    assert!(matches!(Version::read_from_bytes(&[255]), Err(Error::CorruptFile)));
    assert_eq!(Version::read_from_bytes(&[0, 9]).unwrap(), Version::V0);
}

#[test]
fn a_label_without_a_class_is_a_corrupt_file() {
    let at_the_limit = file(&fixed(1, 1, 8, 4, 1), b"a\0b\0", &[5, 2, 0]);
    assert!(matches!(Dataset::read_from_bytes(&at_the_limit), Err(Error::CorruptFile)));
    let later = file(&fixed(1, 1, 8, 4, 2), b"a\0b\0", &[5, 1, 0, 6, 0, 1]);
    assert!(matches!(Dataset::read_from_bytes(&later), Err(Error::CorruptFile)));
    let fine = file(&fixed(1, 1, 8, 4, 1), b"a\0b\0", &[5, 1, 0]);
    assert_eq!(Dataset::read_from_bytes(&fine).unwrap().get(0).unwrap().1, 1);
}

#[test]
fn every_early_end_is_an_io_failure() {
    let bytes = small_dataset().write_to_bytes().unwrap();
    let eof = std::io::ErrorKind::UnexpectedEof;
    let header_end = 21 + 8;
    for len in 0..header_end + 8 {
        assert_eq!(Dataset::read_from_bytes(&bytes[..len]), Err(Error::Io(eof)), "{len}");
    }
    for len in 0..header_end {
        assert_eq!(Header::read_from_bytes(&bytes[..len]).unwrap_err(), Error::Io(eof), "{len}");
    }
    assert!(Header::read_from_bytes(&bytes[..header_end]).is_ok());
    assert_eq!(Dataset::read_from_bytes(&bytes[..bytes.len() - 1]), Err(Error::Io(eof)));
    assert!(matches!(Version::read_from_bytes(&[]), Err(Error::Io(kind)) if kind == eof));
}

#[test]
fn a_body_that_does_not_inflate_is_an_io_failure() {
    let mut bytes = fixed(1, 1, 8, 0, 0);
    bytes.extend_from_slice(&4u64.to_le_bytes());
    bytes.extend_from_slice(&[0xFF, 0xFF, 0xFF, 0xFF]);
    assert!(matches!(Dataset::read_from_bytes(&bytes), Err(Error::Io(_))));

    let mut empty_body = fixed(1, 1, 8, 0, 0);
    empty_body.extend_from_slice(&0u64.to_le_bytes());
    assert_eq!(
        Dataset::read_from_bytes(&empty_body),
        Err(Error::Io(std::io::ErrorKind::UnexpectedEof))
    );
}

#[test]
fn the_parts_of_a_file_can_be_taken_apart() {
    let bytes = small_dataset().write_to_bytes().unwrap();
    let (read, packed) = Dataset::split_frame(&bytes).unwrap();
    assert_eq!(&read, small_dataset().get_header());
    assert_eq!(packed, &deflated(&small_dataset().payload())[..]);
    assert_eq!(small_dataset().frame(packed), bytes);
    let rebuilt = Dataset::from_payload(read, &small_dataset().payload()).unwrap();
    assert_eq!(rebuilt, small_dataset());
}

#[test]
fn names_that_are_empty_or_hold_nul_do_not_read_back() {
    let mut dataset = Dataset::with_header(header(1, 1, 8, &[]));
    dataset.push(vec![1].into_boxed_slice(), "").unwrap();
    dataset.push(vec![2].into_boxed_slice(), "a\0b").unwrap();
    let bytes = dataset.write_to_bytes().unwrap();
    let read = Dataset::read_from_bytes(&bytes).unwrap();
    assert_eq!(read.get_header().classes, vec!["a", "b"]);
    assert_ne!(read, dataset);
}

#[test]
fn a_header_knows_whether_it_can_be_written() {
    assert!(header(1, 1, 8, &["a", "a", ""]).is_encodable());
    let long = "x".repeat(70000);
    assert!(header(1, 1, 8, &[&long]).is_encodable());
    assert!(!header(1, 1, 8, &[&long]).is_valid());
}
