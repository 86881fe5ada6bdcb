use richeatta::{decode, encode, host_byte_order, ByteOrder, Error};

#[test]
fn encode_u32_little_and_big() {
    assert_eq!(encode(0x1234_5678u32, ByteOrder::Little), vec![0x78, 0x56, 0x34, 0x12]);
    assert_eq!(encode(0x1234_5678u32, ByteOrder::Big), vec![0x12, 0x34, 0x56, 0x78]);
}

#[test]
fn encode_negative_values() {
    assert_eq!(encode(-42i8, ByteOrder::Little), vec![0xD6]);
    assert_eq!(encode(-2i16, ByteOrder::Big), vec![0xFF, 0xFE]);
    assert_eq!(encode(i64::MIN, ByteOrder::Little), vec![0, 0, 0, 0, 0, 0, 0, 0x80]);
}

#[test]
fn decode_known_bytes() {
    assert_eq!(decode::<i32>(&[0x39, 0x30, 0, 0], ByteOrder::Little), Ok(12345));
    assert_eq!(decode::<i32>(&[0, 0, 0x30, 0x39], ByteOrder::Big), Ok(12345));
    assert_eq!(decode::<u16>(&[0xFF, 0xFF], ByteOrder::Little), Ok(u16::MAX));
    assert_eq!(decode::<i16>(&[0xFF, 0xFF], ByteOrder::Little), Ok(-1));
    assert_eq!(decode::<i64>(&[0xFF, 0xFF, 0xFF, 0xFF, 0xFF, 0xFF, 0xFF, 0x7F], ByteOrder::Little), Ok(i64::MAX));
}

#[test]
fn decode_wrong_length_is_invalid_length() {
    assert_eq!(decode::<u32>(&[1, 2, 3], ByteOrder::Little), Err(Error::InvalidLength));
    assert_eq!(decode::<u8>(&[], ByteOrder::Big), Err(Error::InvalidLength));
    assert_eq!(decode::<i64>(&[0; 9], ByteOrder::Little), Err(Error::InvalidLength));
}

#[test]
fn round_trip_every_width() {
    for order in [ByteOrder::Little, ByteOrder::Big] {
        for v in [0u8, 1, 127, 128, 255] {
            assert_eq!(decode::<u8>(&encode(v, order), order), Ok(v));
        }
        for v in [i8::MIN, -42, -1, 0, 1, i8::MAX] {
            assert_eq!(decode::<i8>(&encode(v, order), order), Ok(v));
        }
        for v in [0u16, 0x1234, u16::MAX] {
            assert_eq!(decode::<u16>(&encode(v, order), order), Ok(v));
        }
        for v in [i16::MIN, -300, 0, 300, i16::MAX] {
            assert_eq!(decode::<i16>(&encode(v, order), order), Ok(v));
        }
        for v in [0u32, 424242, u32::MAX] {
            assert_eq!(decode::<u32>(&encode(v, order), order), Ok(v));
        }
        for v in [i32::MIN, -54321, 0, 12345, i32::MAX] {
            assert_eq!(decode::<i32>(&encode(v, order), order), Ok(v));
        }
        for v in [0u64, 1 << 40, u64::MAX] {
            assert_eq!(decode::<u64>(&encode(v, order), order), Ok(v));
        }
        for v in [i64::MIN, -1, 0, i64::MAX] {
            assert_eq!(decode::<i64>(&encode(v, order), order), Ok(v));
        }
        for v in [0usize, 4096, usize::MAX] {
            assert_eq!(decode::<usize>(&encode(v, order), order), Ok(v));
        }
        for v in [isize::MIN, -7, 0, isize::MAX] {
            assert_eq!(decode::<isize>(&encode(v, order), order), Ok(v));
        }
    }
}

#[test]
fn encode_width_matches_type() {
    assert_eq!(encode(1usize, ByteOrder::Little).len(), std::mem::size_of::<usize>());
    assert_eq!(encode(1isize, ByteOrder::Little).len(), std::mem::size_of::<isize>());
    assert_eq!(encode(1u64, ByteOrder::Big).len(), 8);
}

#[test]
fn host_order_matches_native_bytes() {
    let expected = if 1u16.to_ne_bytes()[0] == 1 { ByteOrder::Little } else { ByteOrder::Big };
    assert_eq!(host_byte_order(), expected);
    let v = 0x0102_0304u32;
    assert_eq!(encode(v, host_byte_order()), v.to_ne_bytes().to_vec());
}
