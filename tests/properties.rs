use lebicon::{Error, Leb128, Reader, Writer};

fn round_trip<T: Reader + Writer + Copy + PartialEq + std::fmt::Debug>(value: T) {
    let mut bytes = Vec::new();
    value.leb128_write(&mut bytes);
    let n = bytes.len();
    bytes.push(0xFF);
    let (decoded, used) = T::leb128_read(&bytes).unwrap();
    assert_eq!(decoded, value);
    assert_eq!(used, n);
}

fn is_overflow<T: Reader>(buf: &[u8]) -> bool {
    matches!(T::leb128_read(buf), Err(Error::Overflow))
}

fn is_io_error<T: Reader>(buf: &[u8]) -> bool {
    matches!(T::leb128_read(buf), Err(Error::IoError(_)))
}

#[test]
fn cross_implementation_vector() {
    assert_eq!(Leb128::encode(268435142u64), vec![198, 253, 255, 127]);
    assert_eq!(Leb128::decode::<u64>(&[198, 253, 255, 127]).unwrap(), 268435142);
}

#[test]
fn unsigned_boundaries_round_trip() {
    for v in [0u8, 1, 127, 128, u8::MAX - 1, u8::MAX] {
        round_trip(v);
    }
    for v in [0u16, 1, u16::MAX - 1, u16::MAX] {
        round_trip(v);
    }
    for v in [0u32, 1, u32::MAX - 1, u32::MAX] {
        round_trip(v);
    }
    for v in [0u64, 1, u64::MAX - 1, u64::MAX] {
        round_trip(v);
    }
    for v in [0u128, 1, u128::MAX - 1, u128::MAX] {
        round_trip(v);
    }
    for v in [0usize, 1, usize::MAX - 1, usize::MAX] {
        round_trip(v);
    }
}

#[test]
fn signed_boundaries_round_trip() {
    for v in [i8::MIN, i8::MIN + 1, -65, -64, -63, -1, 0, 1, 63, 64, i8::MAX - 1, i8::MAX] {
        round_trip(v);
    }
    for v in [i16::MIN, i16::MIN + 1, -1, 0, i16::MAX - 1, i16::MAX] {
        round_trip(v);
    }
    for v in [i32::MIN, i32::MIN + 1, -1, 0, i32::MAX - 1, i32::MAX] {
        round_trip(v);
    }
    for v in [i64::MIN, i64::MIN + 1, -1, 0, i64::MAX - 1, i64::MAX] {
        round_trip(v);
    }
    for v in [i128::MIN, i128::MIN + 1, -1, 0, i128::MAX - 1, i128::MAX] {
        round_trip(v);
    }
    for v in [isize::MIN, isize::MIN + 1, -1, 0, isize::MAX - 1, isize::MAX] {
        round_trip(v);
    }
}

#[test]
fn unsigned_canonical_lengths() {
    assert_eq!(Leb128::encode(0u64), vec![0]);
    assert_eq!(Leb128::encode(127u64).len(), 1);
    assert_eq!(Leb128::encode(128u64).len(), 2);
    assert_eq!(Leb128::encode(16383u64).len(), 2);
    assert_eq!(Leb128::encode(16384u64).len(), 3);
    assert_eq!(Leb128::encode(u64::MAX).len(), 10);
    assert_eq!(Leb128::encode(u128::MAX).len(), 19);
    assert_eq!(Leb128::encode(u8::MAX), vec![0xFF, 0x01]);
}

#[test]
fn signed_canonical_lengths() {
    assert_eq!(Leb128::encode(63i64), vec![0x3F]);
    assert_eq!(Leb128::encode(-64i64), vec![0x40]);
    assert_eq!(Leb128::encode(64i64), vec![0xC0, 0x00]);
    assert_eq!(Leb128::encode(-65i64), vec![0xBF, 0x7F]);
    assert_eq!(Leb128::encode(-8192i64), vec![0x80, 0x40]);
    assert_eq!(Leb128::encode(i8::MIN), vec![0x80, 0x7F]);
    assert_eq!(Leb128::encode(i64::MIN).len(), 10);
    assert_eq!(Leb128::encode(i128::MIN).len(), 19);
}

#[test]
fn signed_encoding_matches_reference_crate() {
    for v in [i64::MIN, -8193, -8192, -65, -64, -63, -1, 0, 1, 63, 64, 8191, 8192, i64::MAX] {
        let mut expected = Vec::new();
        leb128::write::signed(&mut expected, v).unwrap();
        assert_eq!(Leb128::encode(v), expected);
    }
}

#[test]
fn unsigned_encoding_matches_reference_crate() {
    for v in [0u64, 1, 127, 128, 300, 16384, u32::MAX as u64, u64::MAX] {
        let mut expected = Vec::new();
        leb128::write::unsigned(&mut expected, v).unwrap();
        assert_eq!(Leb128::encode(v), expected);
    }
}

#[test]
fn writing_appends_to_existing_bytes() {
    let mut out = vec![9u8];
    300u16.leb128_write(&mut out);
    (-2i32).leb128_write(&mut out);
    assert_eq!(out, vec![9, 0xAC, 0x02, 0x7E]);
}

#[test]
fn truncated_input_is_io_error() {
    assert!(is_io_error::<u8>(&[]));
    assert!(is_io_error::<i8>(&[]));
    assert!(is_io_error::<u32>(&[0x80]));
    assert!(is_io_error::<u64>(&[0xFF, 0xFF]));
    assert!(is_io_error::<i128>(&[0x80, 0x80, 0x80]));
}

#[test]
fn reading_stops_at_last_group() {
    assert_eq!(u8::leb128_read(&[0x02, 0xFF, 0xFF]).unwrap(), (2, 1));
    assert_eq!(i16::leb128_read(&[0x80, 0x7F, 0x01]).unwrap(), (-128, 2));
    assert_eq!(u32::leb128_read(&[0xAC, 0x02, 0x80]).unwrap(), (300, 2));
}

#[test]
fn overlong_input_is_overflow_for_every_width() {
    assert!(is_overflow::<u8>(&[0x80, 0x80]));
    assert!(is_overflow::<i8>(&[0x80, 0x80]));
    assert!(is_overflow::<u16>(&[0x80, 0x80, 0x80]));
    assert!(is_overflow::<i16>(&[0x80, 0x80, 0x80]));
    assert!(is_overflow::<u32>(&[0x80; 5]));
    assert!(is_overflow::<i32>(&[0x80; 5]));
    assert!(is_overflow::<u64>(&[0x80; 10]));
    assert!(is_overflow::<i64>(&[0x80; 10]));
    assert!(is_overflow::<u128>(&[0x80; 19]));
    assert!(is_overflow::<i128>(&[0x80; 19]));
    assert!(is_overflow::<u64>(&[0x80, 0x80, 0x80, 0x80, 0x80, 0x80, 0x80, 0x80, 0x80, 0x80, 0x00]));
}

#[test]
fn excess_bits_of_last_group() {
    // Unsigned: bits beyond the width must be zero.
    assert_eq!(u8::leb128_read(&[0x80, 0x00]).unwrap(), (0, 2));
    assert_eq!(u8::leb128_read(&[0xFF, 0x01]).unwrap(), (255, 2));
    assert!(is_overflow::<u8>(&[0x80, 0x02]));
    assert!(is_overflow::<u32>(&[0xFF, 0xFF, 0xFF, 0xFF, 0x1F]));
    assert_eq!(u32::leb128_read(&[0xFF, 0xFF, 0xFF, 0xFF, 0x0F]).unwrap(), (u32::MAX, 5));
    // Signed: bits beyond the width must repeat the sign bit.
    assert_eq!(i8::leb128_read(&[0xFF, 0x7F]).unwrap(), (-1, 2));
    assert_eq!(i8::leb128_read(&[0xFF, 0x00]).unwrap(), (127, 2));
    assert_eq!(i8::leb128_read(&[0x80, 0x7F]).unwrap(), (-128, 2));
    assert!(is_overflow::<i8>(&[0x80, 0x01]));
    assert!(is_overflow::<i8>(&[0xFF, 0x7E]));
    assert_eq!(i32::leb128_read(&[0x80, 0x80, 0x80, 0x80, 0x78]).unwrap(), (i32::MIN, 5));
    assert!(is_overflow::<i32>(&[0x80, 0x80, 0x80, 0x80, 0x70]));
}
