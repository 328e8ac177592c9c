use atlas_codec::error::DecodeError;
use atlas_codec::stream::ByteStream;
use atlas_codec::varint::{read_string, read_variable_usize};

fn encode(mut value: u128) -> Vec<u8> {
    let mut out = Vec::new();
    loop {
        let low = (value & 0x7f) as u8;
        value >>= 7;
        if value == 0 {
            out.push(low);
            return out;
        }
        out.push(low | 0x80);
    }
}

fn prefixed(text: &[u8]) -> Vec<u8> {
    let mut out = encode(text.len() as u128);
    out.extend_from_slice(text);
    out
}

#[test]
fn varint_two_bytes_is_129() {
    let data = [0x81u8, 0x01];
    let mut stream = ByteStream::new(&data);
    assert_eq!(read_variable_usize(&mut stream), Ok(129));
    assert!(stream.is_empty());
}

#[test]
fn varint_single_byte_values() {
    for v in [0u8, 1, 2, 100, 127] {
        let data = [v, 0xee];
        let mut stream = ByteStream::new(&data);
        assert_eq!(read_variable_usize(&mut stream), Ok(v as usize));
        assert_eq!(stream.remaining(), 1);
    }
}

#[test]
fn varint_group_order_is_little_endian() {
    let data = [0x80u8, 0x01];
    let mut stream = ByteStream::new(&data);
    assert_eq!(read_variable_usize(&mut stream), Ok(128));

    let data = [0xe5u8, 0x8e, 0x26];
    let mut stream = ByteStream::new(&data);
    assert_eq!(read_variable_usize(&mut stream), Ok(624_485));

    let data = [0xffu8, 0xff, 0x03];
    let mut stream = ByteStream::new(&data);
    assert_eq!(read_variable_usize(&mut stream), Ok(65_535));
}

#[test]
fn varint_stops_at_first_clear_high_bit() {
    let data = [0x05u8, 0x81, 0x01];
    let mut stream = ByteStream::new(&data);
    assert_eq!(read_variable_usize(&mut stream), Ok(5));
    assert_eq!(stream.remaining(), 2);
    assert_eq!(read_variable_usize(&mut stream), Ok(129));
    assert_eq!(stream.remaining(), 0);
}

#[test]
fn varint_empty_stream_is_truncated() {
    let data: [u8; 0] = [];
    let mut stream = ByteStream::new(&data);
    assert_eq!(read_variable_usize(&mut stream), Err(DecodeError::Truncated));
}

#[test]
fn varint_without_last_byte_is_truncated() {
    let data = [0x80u8, 0xff, 0x81];
    let mut stream = ByteStream::new(&data);
    assert_eq!(read_variable_usize(&mut stream), Err(DecodeError::Truncated));
    assert_eq!(stream.remaining(), 3);
}

#[test]
fn varint_trailing_zero_groups_add_nothing() {
    let data = [0x81u8, 0x80, 0x80, 0x00];
    let mut stream = ByteStream::new(&data);
    assert_eq!(read_variable_usize(&mut stream), Ok(1));
    assert!(stream.is_empty());

    let mut long = vec![0x82u8];
    for _ in 0..40 {
        long.push(0x80);
    }
    long.push(0x00);
    let mut stream = ByteStream::new(&long);
    assert_eq!(read_variable_usize(&mut stream), Ok(2));
    assert!(stream.is_empty());
}

#[test]
fn varint_largest_value_fits() {
    let data = encode(usize::MAX as u128);
    let mut stream = ByteStream::new(&data);
    assert_eq!(read_variable_usize(&mut stream), Ok(usize::MAX));
    assert!(stream.is_empty());
}

#[test]
fn varint_one_more_than_largest_overflows() {
    let data = encode(usize::MAX as u128 + 1);
    let mut stream = ByteStream::new(&data);
    assert_eq!(read_variable_usize(&mut stream), Err(DecodeError::Overflow));
    assert_eq!(stream.remaining(), data.len());
}

#[test]
fn varint_far_too_large_overflows() {
    let mut data = vec![0xffu8; 30];
    data.push(0x7f);
    let mut stream = ByteStream::new(&data);
    assert_eq!(read_variable_usize(&mut stream), Err(DecodeError::Overflow));
    assert_eq!(stream.remaining(), 31);
}

#[test]
fn varint_too_large_and_cut_is_truncated() {
    let data = vec![0xffu8; 30];
    let mut stream = ByteStream::new(&data);
    assert_eq!(read_variable_usize(&mut stream), Err(DecodeError::Truncated));
}

#[test]
fn varint_round_trips_through_encoder() {
    for v in [0usize, 1, 127, 128, 129, 255, 256, 16_383, 16_384, 1 << 20, u32::MAX as usize] {
        let data = encode(v as u128);
        let mut stream = ByteStream::new(&data);
        assert_eq!(read_variable_usize(&mut stream), Ok(v));
        assert!(stream.is_empty());
    }
}

#[test]
fn string_reads_text_and_leaves_the_rest() {
    let mut data = prefixed(b"hello");
    data.push(0x42);
    let mut stream = ByteStream::new(&data);
    assert_eq!(read_string(&mut stream), Ok(String::from("hello")));
    assert_eq!(stream.remaining(), 1);
    assert_eq!(stream.read_u8(), Ok(0x42));
}

#[test]
fn string_may_be_empty() {
    let data = [0u8];
    let mut stream = ByteStream::new(&data);
    assert_eq!(read_string(&mut stream), Ok(String::new()));
    assert!(stream.is_empty());
}

#[test]
fn string_with_two_byte_prefix() {
    let text = "x".repeat(300);
    let data = prefixed(text.as_bytes());
    assert_eq!(&data[..2], &[0xac, 0x02]);
    let mut stream = ByteStream::new(&data);
    assert_eq!(read_string(&mut stream), Ok(text));
    assert!(stream.is_empty());
}

#[test]
fn string_decodes_utf8() {
    let text = "h\u{e9}llo \u{4e16}\u{754c} \u{1f600}";
    let data = prefixed(text.as_bytes());
    let mut stream = ByteStream::new(&data);
    let got = read_string(&mut stream).unwrap();
    assert_eq!(got, text);
    assert_eq!(got.chars().count(), 10);
}

#[test]
fn string_keeps_backslashes() {
    let data = prefixed(b"a\\b");
    let mut stream = ByteStream::new(&data);
    assert_eq!(read_string(&mut stream), Ok(String::from("a\\b")));
}

#[test]
fn string_cut_short_is_truncated() {
    let data = [5u8, b'h', b'e', b'l', b'l'];
    let mut stream = ByteStream::new(&data);
    assert_eq!(read_string(&mut stream), Err(DecodeError::Truncated));
    assert_eq!(stream.remaining(), 5);
}

#[test]
fn string_without_length_is_truncated() {
    let data: [u8; 0] = [];
    let mut stream = ByteStream::new(&data);
    assert_eq!(read_string(&mut stream), Err(DecodeError::Truncated));

    let data = [0x80u8];
    let mut stream = ByteStream::new(&data);
    assert_eq!(read_string(&mut stream), Err(DecodeError::Truncated));
}

#[test]
fn string_with_implausible_length_is_truncated() {
    let mut data = encode(usize::MAX as u128);
    data.extend_from_slice(b"abc");
    let mut stream = ByteStream::new(&data);
    assert_eq!(read_string(&mut stream), Err(DecodeError::Truncated));
    assert_eq!(stream.remaining(), data.len());
}

#[test]
fn string_with_overflowing_length_overflows() {
    let mut data = encode(usize::MAX as u128 + 1);
    data.extend_from_slice(b"abc");
    let mut stream = ByteStream::new(&data);
    assert_eq!(read_string(&mut stream), Err(DecodeError::Overflow));
}

#[test]
fn string_with_bad_utf8_is_malformed() {
    for bad in [
        vec![0xffu8],
        vec![0xc3],
        vec![b'a', 0x80],
        vec![0xc0, 0x80],
        vec![0xed, 0xa0, 0x80],
        vec![0xf4, 0x90, 0x80, 0x80],
    ] {
        let data = prefixed(&bad);
        let mut stream = ByteStream::new(&data);
        assert_eq!(read_string(&mut stream), Err(DecodeError::MalformedText));
        assert_eq!(stream.remaining(), data.len());
    }
}

#[test]
fn string_takes_only_its_own_bytes() {
    let mut data = prefixed(b"ab");
    data.push(0xff);
    let mut stream = ByteStream::new(&data);
    assert_eq!(read_string(&mut stream), Ok(String::from("ab")));
    assert_eq!(stream.remaining(), 1);
}
