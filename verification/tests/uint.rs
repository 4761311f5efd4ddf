use opening_explorer::model::reader::{DecodeError, Reader};
use opening_explorer::model::uint::{read_uint, write_uint};

fn encode(n: u64) -> Vec<u8> {
    let mut out = Vec::new();
    write_uint(&mut out, n);
    out
}

fn decode(bytes: &[u8]) -> Result<u64, DecodeError> {
    let mut reader = Reader::new(bytes);
    read_uint(&mut reader)
}

#[test]
fn test_uint_roundtrip() {
    let mut samples: Vec<u64> = vec![0, 1, 2, 126, 127, 128, 129, 255, 256, 300, 16383, 16384];
    for shift in 0..64 {
        samples.push(1u64 << shift);
        samples.push((1u64 << shift) - 1);
        samples.push((1u64 << shift).wrapping_add(0x5555_5555_5555_5555));
    }
    samples.push(u64::MAX);
    samples.push(u64::MAX - 1);
    let mut state: u64 = 0x9e37_79b9_7f4a_7c15;
    for _ in 0..2000 {
        state ^= state << 13;
        state ^= state >> 7;
        state ^= state << 17;
        samples.push(state);
    }
    for n in samples {
        assert_eq!(decode(&encode(n)), Ok(n));
    }
}

#[test]
fn uint_small_values_take_one_byte() {
    assert_eq!(encode(0), vec![0]);
    assert_eq!(encode(1), vec![1]);
    assert_eq!(encode(127), vec![0x7f]);
}

#[test]
fn uint_groups_come_least_significant_first() {
    assert_eq!(encode(128), vec![0x80, 0x01]);
    assert_eq!(encode(300), vec![0xac, 0x02]);
    assert_eq!(encode(16384), vec![0x80, 0x80, 0x01]);
}

#[test]
fn uint_largest_value_takes_ten_bytes() {
    let mut expected = vec![0xff; 9];
    expected.push(0x01);
    assert_eq!(encode(u64::MAX), expected);
    assert_eq!(decode(&expected), Ok(u64::MAX));
}

#[test]
fn uint_write_appends() {
    let mut out = vec![9, 9];
    write_uint(&mut out, 300);
    write_uint(&mut out, 5);
    assert_eq!(out, vec![9, 9, 0xac, 0x02, 5]);
}

#[test]
fn uint_read_stops_behind_the_value() {
    let bytes = [0xac, 0x02, 0x07, 0x08];
    let mut reader = Reader::new(&bytes);
    assert_eq!(read_uint(&mut reader), Ok(300));
    assert_eq!(reader.remaining(), 2);
    assert_eq!(read_uint(&mut reader), Ok(7));
    assert_eq!(read_uint(&mut reader), Ok(8));
    assert!(reader.is_empty());
    assert_eq!(read_uint(&mut reader), Err(DecodeError::UnexpectedEof));
}

#[test]
fn uint_read_fails_at_the_end_of_input() {
    assert_eq!(decode(&[]), Err(DecodeError::UnexpectedEof));
    assert_eq!(decode(&[0x80]), Err(DecodeError::UnexpectedEof));
    assert_eq!(decode(&[0xff, 0xff]), Err(DecodeError::UnexpectedEof));
    assert_eq!(decode(&[0x80; 10]), Err(DecodeError::UnexpectedEof));
}

#[test]
fn uint_read_rejects_an_eleventh_byte() {
    let mut bytes = vec![0x80; 10];
    bytes.push(0x00);
    assert_eq!(decode(&bytes), Err(DecodeError::InvalidData));
    let mut bytes = vec![0xff; 10];
    bytes.push(0x01);
    assert_eq!(decode(&bytes), Err(DecodeError::InvalidData));
}

#[test]
fn uint_read_accepts_padded_encodings() {
    assert_eq!(decode(&[0x80, 0x00]), Ok(0));
    assert_eq!(decode(&[0x81, 0x80, 0x00]), Ok(1));
}

#[test]
fn uint_read_drops_the_bits_beyond_64() {
    let mut bytes = vec![0xff; 9];
    bytes.push(0x7f);
    assert_eq!(decode(&bytes), Ok(u64::MAX));
    let mut bytes = vec![0x80; 9];
    bytes.push(0x02);
    assert_eq!(decode(&bytes), Ok(0));
    let mut bytes = vec![0x80; 9];
    bytes.push(0x03);
    assert_eq!(decode(&bytes), Ok(1u64 << 63));
}

#[test]
fn reader_takes_bytes_in_order() {
    let bytes = [1, 2, 3, 4, 5];
    let mut reader = Reader::new(&bytes);
    assert_eq!(reader.remaining(), 5);
    assert_eq!(reader.read_u8(), Ok(1));
    assert_eq!(reader.read_exact(3).map(|s| s.to_vec()), Ok(vec![2, 3, 4]));
    assert_eq!(reader.read_exact(2).map(|s| s.to_vec()), Err(DecodeError::UnexpectedEof));
    assert_eq!(reader.remaining(), 1);
    assert_eq!(reader.read_u8(), Ok(5));
    assert_eq!(reader.read_u8(), Err(DecodeError::UnexpectedEof));
    assert_eq!(reader.read_exact(0).map(|s| s.to_vec()), Ok(vec![]));
}
