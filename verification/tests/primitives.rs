use binary::{parse_bytes, Binary};
use rand::distributions::{Distribution, Standard};

fn test_serialization<T>(samples: usize)
where
    Standard: Distribution<T>,
    T: Binary + PartialEq + std::fmt::Debug,
{
    for _i in 0..samples {
        let x = rand::random::<T>();
        assert_eq!(x, T::from_bytes(&x.to_bytes()).unwrap());
    }
}

fn test_float_bits(samples: usize) {
    for _i in 0..samples {
        let x = rand::random::<f32>();
        let back = u32::from_bytes(&x.to_bits().to_bytes()).unwrap();
        assert_eq!(x, f32::from_bits(back));
        let y = rand::random::<f64>();
        let back = u64::from_bytes(&y.to_bits().to_bytes()).unwrap();
        assert_eq!(y, f64::from_bits(back));
    }
}

#[test]
fn test_primitives_binary() {
    let samples = 10000;
    test_serialization::<u8>(samples);
    test_serialization::<u16>(samples);
    test_serialization::<u32>(samples);
    test_serialization::<u64>(samples);
    test_serialization::<u128>(samples);
    test_serialization::<i8>(samples);
    test_serialization::<i16>(samples);
    test_serialization::<i32>(samples);
    test_serialization::<i64>(samples);
    test_serialization::<i128>(samples);
    test_float_bits(samples);
    test_serialization::<bool>(samples);
    test_serialization::<char>(samples);
}

#[test]
fn test_parse_bytes() {
    let bs = [1u8, 5, 3, 1, 2, 4, 5, 6];
    assert!(parse_bytes::<9>(&bs).is_none());
    assert!(parse_bytes::<8>(&bs).is_some());
    assert!(parse_bytes::<7>(&bs).is_some());
    assert!(parse_bytes::<6>(&bs).is_some());
    assert!(parse_bytes::<5>(&bs).is_some());
    assert!(parse_bytes::<4>(&bs).is_some());
    assert!(parse_bytes::<3>(&bs).is_some());
    assert!(parse_bytes::<2>(&bs).is_some());
    assert!(parse_bytes::<1>(&bs).is_some());
    assert!(parse_bytes::<0>(&bs).is_some());
}

#[test]
fn parse_bytes_splits_at_the_width() {
    let bs = [1u8, 5, 3, 1, 2, 4, 5, 6];
    let (head, rest) = parse_bytes::<3>(&bs).unwrap();
    assert_eq!(head, &[1u8, 5, 3]);
    assert_eq!(rest, &[1u8, 2, 4, 5, 6]);
    let (head, rest) = parse_bytes::<8>(&bs).unwrap();
    assert_eq!(head, &bs);
    assert!(rest.is_empty());
    let (_, rest) = parse_bytes::<0>(&bs).unwrap();
    assert_eq!(rest, &bs);
}

#[test]
fn u32_is_little_endian() {
    assert_eq!(0x01020304u32.to_bytes(), vec![4u8, 3, 2, 1]);
    let bs = [4u8, 3, 2, 1];
    let (x, rest) = u32::parse(&bs).unwrap();
    assert_eq!(x, 0x01020304);
    assert!(rest.is_empty());
    assert_eq!(u32::from_bytes(&bs), Some(0x01020304));
}

#[test]
fn unsigned_integers_have_their_widths() {
    assert_eq!(0xabu8.to_bytes(), vec![0xab]);
    assert_eq!(0xabcdu16.to_bytes(), vec![0xcd, 0xab]);
    assert_eq!(
        0x0102030405060708u64.to_bytes(),
        vec![8, 7, 6, 5, 4, 3, 2, 1]
    );
    assert_eq!(
        0x0102030405060708090a0b0c0d0e0f10u128.to_bytes(),
        vec![16, 15, 14, 13, 12, 11, 10, 9, 8, 7, 6, 5, 4, 3, 2, 1]
    );
    assert_eq!(u64::MAX.to_bytes(), vec![0xff; 8]);
    assert_eq!(u128::MAX.to_bytes(), vec![0xff; 16]);
    assert_eq!(u128::from_bytes(&[0xff; 16]), Some(u128::MAX));
}

#[test]
fn signed_integers_are_twos_complement() {
    assert_eq!((-1i8).to_bytes(), vec![0xff]);
    assert_eq!(i8::MIN.to_bytes(), vec![0x80]);
    assert_eq!((-2i16).to_bytes(), vec![0xfe, 0xff]);
    assert_eq!(i32::MIN.to_bytes(), vec![0, 0, 0, 0x80]);
    assert_eq!(i64::MAX.to_bytes(), vec![0xff, 0xff, 0xff, 0xff, 0xff, 0xff, 0xff, 0x7f]);
    assert_eq!((-1i128).to_bytes(), vec![0xff; 16]);
    let mut low = vec![0u8; 16];
    low[15] = 0x80;
    assert_eq!(i128::MIN.to_bytes(), low);
    assert_eq!(i128::from_bytes(&low), Some(i128::MIN));
    assert_eq!(i8::from_bytes(&[0x80]), Some(i8::MIN));
    assert_eq!(i16::from_bytes(&[0xfe, 0xff]), Some(-2));
    assert_eq!(i64::from_bytes(&i64::MIN.to_le_bytes()), Some(i64::MIN));
    for x in [i32::MIN, -1, 0, 1, i32::MAX] {
        assert_eq!(x.to_bytes(), x.to_le_bytes().to_vec());
    }
}

#[test]
fn bool_is_zero_or_one() {
    assert_eq!(true.to_bytes(), vec![1u8]);
    assert_eq!(false.to_bytes(), vec![0u8]);
    assert_eq!(bool::from_bytes(&[1]), Some(true));
    assert_eq!(bool::from_bytes(&[0]), Some(false));
    assert_eq!(bool::from_bytes(&[2]), None);
    assert!(bool::parse(&[2, 0]).is_none());
    assert_eq!(bool::from_bytes(&[]), None);
}

#[test]
fn char_is_a_scalar_value() {
    assert_eq!('a'.to_bytes(), vec![0x61, 0, 0, 0]);
    assert_eq!(char::from_bytes(&[0x61, 0, 0, 0]), Some('a'));
    assert_eq!(char::from_bytes(&0x10ffffu32.to_le_bytes()), Some('\u{10ffff}'));
    assert_eq!(char::from_bytes(&0xd7ffu32.to_le_bytes()), Some('\u{d7ff}'));
    assert_eq!(char::from_bytes(&0xe000u32.to_le_bytes()), Some('\u{e000}'));
    assert_eq!(char::from_bytes(&0xd800u32.to_le_bytes()), None);
    assert_eq!(char::from_bytes(&0xdfffu32.to_le_bytes()), None);
    assert_eq!(char::from_bytes(&0x110000u32.to_le_bytes()), None);
    assert_eq!(char::from_bytes(&[0x61, 0, 0]), None);
}

#[test]
fn truncated_primitives_fail() {
    assert!(u8::parse(&[]).is_none());
    assert!(u16::parse(&[1]).is_none());
    assert!(u32::parse(&[1, 2, 3]).is_none());
    assert!(u64::parse(&[0; 7]).is_none());
    assert!(u128::parse(&[0; 15]).is_none());
    assert!(i8::parse(&[]).is_none());
    assert!(i16::parse(&[1]).is_none());
    assert!(i32::parse(&[1, 2, 3]).is_none());
    assert!(i64::parse(&[0; 7]).is_none());
    assert!(i128::parse(&[0; 15]).is_none());
}

#[test]
fn trailing_bytes_are_rejected() {
    let mut bs = 7u32.to_bytes();
    assert_eq!(u32::from_bytes(&bs), Some(7));
    bs.push(0);
    assert_eq!(u32::from_bytes(&bs), None);
    let (x, rest) = u32::parse(&bs).unwrap();
    assert_eq!(x, 7);
    assert_eq!(rest, &[0u8]);
}

#[test]
fn unparse_appends() {
    let mut bs = vec![9u8];
    0x0201u16.unparse(&mut bs);
    true.unparse(&mut bs);
    assert_eq!(bs, vec![9u8, 1, 2, 1]);
}
