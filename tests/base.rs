use zkmemory::base::{Base, UIntConvertible, Word256, B128, B16, B256, B32, B64};

#[test]
fn base_struct_test() {
    // u256 test
    let chunk_zero = B256::zero();
    let bytes1 = [9u8; 32];
    let chunk1 = B256::from_bytes(bytes1);
    let bytes_convert: [u8; 32] = chunk1.to_bytes();
    assert_eq!(bytes_convert, bytes1);
    assert!(chunk_zero.is_zero());
    assert!(!chunk1.is_zero());

    // u128 test
    let chunk_zero = B128::zero();
    let bytes1 = [9u8; 16];
    let chunk1 = B128::from_bytes(bytes1);
    let bytes_convert: [u8; 16] = chunk1.to_bytes();
    assert_eq!(bytes_convert, bytes1);
    assert!(chunk_zero.is_zero());
    assert!(!chunk1.is_zero());

    // u64 test
    let chunk_zero = B64::zero();
    let bytes1 = [1u8; 8];
    let chunk1 = B64::from_bytes(bytes1);
    let bytes_convert: [u8; 8] = chunk1.to_bytes();
    assert_eq!(bytes_convert, bytes1);
    assert!(chunk_zero.is_zero());
    assert!(!chunk1.is_zero());

    // u32 test
    let chunk_zero = B64::zero();
    let bytes1 = [59u8; 8];
    let chunk1 = B64::from_bytes(bytes1);
    let bytes_convert: [u8; 8] = chunk1.to_bytes();
    assert_eq!(bytes_convert, bytes1);
    assert!(chunk_zero.is_zero());
    assert!(!chunk1.is_zero());
}

#[test]
fn base_arithmetic_test() {
    // u256 test
    let chunk_1 = B256::from_bytes([34u8; 32]);
    let chunk_2 = B256::from_bytes([17u8; 32]);
    let chunk_3 = B256::from_u64(5);
    let chunk_4 = B256::from_u64(156);
    assert_eq!(chunk_1.add(chunk_2), B256::from_bytes([51u8; 32]));
    assert_eq!(chunk_1.sub(chunk_2), B256::from_bytes([17u8; 32]));
    assert_eq!(chunk_4.mul(chunk_3), B256::from_u64(156 * 5));
    assert_eq!(chunk_4.div(chunk_3), B256::from_u64(156 / 5));
    assert_eq!(chunk_4.rem(chunk_3), B256::from_u64(156 % 5));

    // u128 test
    let chunk_1 = B128::from_bytes([19u8; 16]);
    let chunk_2 = B128::from_bytes([5u8; 16]);
    let chunk_3 = B128::from_u64(7);
    let chunk_4 = B128::from_u64(34);
    assert_eq!(chunk_1.add(chunk_2), B128::from_bytes([24u8; 16]));
    assert_eq!(chunk_1.sub(chunk_2), B128::from_bytes([14u8; 16]));
    assert_eq!(chunk_4.mul(chunk_3), B128::from_u64(34 * 7));
    assert_eq!(chunk_4.div(chunk_3), B128::from_u64(34 / 7));
    assert_eq!(chunk_4.rem(chunk_3), B128::from_u64(34 % 7));

    // u64 test
    let chunk_1 = B64::from_bytes([61u8; 8]);
    let chunk_2 = B64::from_bytes([16u8; 8]);
    let chunk_3 = B64::from_u64(12);
    let chunk_4 = B64::from_u64(99);
    assert_eq!(chunk_1.add(chunk_2), B64::from_bytes([77u8; 8]));
    assert_eq!(chunk_1.sub(chunk_2), B64::from_bytes([45u8; 8]));
    assert_eq!(chunk_4.mul(chunk_3), B64::from_u64(99 * 12));
    assert_eq!(chunk_4.div(chunk_3), B64::from_u64(99 / 12));
    assert_eq!(chunk_4.rem(chunk_3), B64::from_u64(99 % 12));

    // u32 test
    let chunk_1 = B32::from_bytes([34u8; 4]);
    let chunk_2 = B32::from_bytes([17u8; 4]);
    let chunk_3 = B32::from_u64(5);
    let chunk_4 = B32::from_u64(156);
    assert_eq!(chunk_1.add(chunk_2), B32::from_bytes([51u8; 4]));
    assert_eq!(chunk_1.sub(chunk_2), B32::from_bytes([17u8; 4]));
    assert_eq!(chunk_4.mul(chunk_3), B32::from_u64(156 * 5));
    assert_eq!(chunk_4.div(chunk_3), B32::from_u64(156 / 5));
    assert_eq!(chunk_4.rem(chunk_3), B32::from_u64(156 % 5));
}

#[test]
fn base_conversion_test() {
    // Test conversions of B256
    let left = 5;
    let chunk1 = B256::from_usize(5_usize);
    let right2 = chunk1.to_usize();
    let right3 = chunk1.to_u64();
    assert_eq!(left, right2 as u64);
    assert_eq!(left, right3);

    // Test conversions of B128
    let left = 5;
    let chunk1 = B128::from_usize(5_usize);
    let right2 = chunk1.to_usize();
    let right3 = chunk1.to_u64();
    assert_eq!(left, right2 as u64);
    assert_eq!(left, right3);

    // Test endianess of B256
    let num = B256::from_u64(5);
    let chunk_be = {
        let mut buffer = [0u8; 32];
        buffer[31] = 5u8;
        buffer
    };
    let chunk_le = {
        let mut buffer = [0u8; 32];
        buffer[0] = 5u8;
        buffer
    };
    assert_eq!(num.fixed_be_bytes(), chunk_be);
    assert_eq!(num.fixed_le_bytes(), chunk_le);

    // Test endianess of B32
    let num = B32::from_u64(10);
    let chunk_be = {
        let mut buffer = [0u8; 32];
        buffer[31] = 10u8;
        buffer
    };
    let chunk_le = {
        let mut buffer = [0u8; 32];
        buffer[0] = 10u8;
        buffer
    };
    assert_eq!(num.fixed_be_bytes(), chunk_be);
    assert_eq!(num.fixed_le_bytes(), chunk_le);
}

#[test]
fn bytes_round_trip_every_width() {
    let b: [u8; 32] = core::array::from_fn(|i| (i as u8).wrapping_mul(37).wrapping_add(1));
    assert_eq!(B256::from_bytes(b).to_bytes(), b);
    let b: [u8; 16] = core::array::from_fn(|i| 255 - i as u8);
    assert_eq!(B128::from_bytes(b).to_bytes(), b);
    let b = [0x80u8, 1, 2, 3, 4, 5, 6, 0xff];
    assert_eq!(B64::from_bytes(b).to_bytes(), b);
    let b = [0xdeu8, 0xad, 0xbe, 0xef];
    assert_eq!(B32::from_bytes(b).to_bytes(), b);
    let b = [0x12u8, 0x34];
    assert_eq!(B16::from_bytes(b).to_bytes(), b);
}

#[test]
fn from_bytes_is_big_endian() {
    assert_eq!(B32::from_bytes([0xde, 0xad, 0xbe, 0xef]), B32::from_u64(0xdead_beef));
    assert_eq!(B16::from_bytes([0x12, 0x34]).to_u64(), 0x1234);
    let mut b = [0u8; 32];
    b[15] = 1;
    b[31] = 2;
    assert_eq!(B256::from_bytes(b).0, Word256 { hi: 1, lo: 2 });
    let mut b = [0u8; 32];
    b[30] = 0x01;
    b[31] = 0x02;
    assert_eq!(B256::from_bytes(b), B256::from_u64(0x0102));
}

#[test]
fn add_then_sub_gives_back() {
    let a = B32::from_u64(0xffff_fff0);
    let b = B32::from_u64(0x20);
    assert_eq!(a.add(b), B32::from_u64(0x10));
    assert_eq!(a.add(b).sub(b), a);
    let a = B256::max_value();
    let b = B256::from_u64(7);
    assert_eq!(a.add(b), B256::from_u64(6));
    assert_eq!(a.add(b).sub(b), a);
    let a = B16::from_u64(3);
    let b = B16::from_u64(9);
    assert_eq!(a.add(b).sub(b), a);
}

#[test]
fn mul_then_div_gives_back() {
    let a = B64::from_u64(123_456);
    let b = B64::from_u64(789);
    assert_eq!(a.mul(b).div(b), a);
    let a = B256::from_bytes([0x01u8; 32]).div(B256::from_u64(1 << 40));
    let b = B256::from_u64(1 << 39);
    assert_eq!(a.mul(b).div(b), a);
}

#[test]
fn arithmetic_wraps_at_the_width() {
    assert!(B16::max_value().add(B16::from_u64(1)).is_zero());
    assert!(B32::max_value().add(B32::from_u64(1)).is_zero());
    assert!(B64::max_value().add(B64::from_u64(1)).is_zero());
    assert!(B128::max_value().add(B128::from_u64(1)).is_zero());
    assert!(B256::max_value().add(B256::from_u64(1)).is_zero());
    assert_eq!(B32::zero().sub(B32::from_u64(1)), B32::max_value());
    assert_eq!(B256::zero().sub(B256::from_u64(1)), B256::max_value());
    assert_eq!(B256::min_value(), B256::zero());
    assert_eq!(B16::from_u64(0x1_2345), B16::from_u64(0x2345));
    // 2^128 * 2^128 wraps to zero in 32 bytes
    let two_128 = B256::from_bytes({
        let mut b = [0u8; 32];
        b[15] = 1;
        b
    });
    assert!(two_128.mul(two_128).is_zero());
    assert_eq!(B256::max_value().to_bytes(), [0xffu8; 32]);
}

#[test]
fn div_and_rem_on_wide_values() {
    let a = B256::from_bytes([0xffu8; 32]);
    let b = B256::from_bytes({
        let mut b = [0u8; 32];
        b[15] = 1;
        b
    });
    // (2^256 - 1) / 2^128 = 2^128 - 1, remainder 2^128 - 1
    let mut q = [0u8; 32];
    for byte in q.iter_mut().skip(16) {
        *byte = 0xff;
    }
    assert_eq!(a.div(b).to_bytes(), q);
    assert_eq!(a.rem(b).to_bytes(), q);
}

#[test]
fn fixed_bytes_pad_every_width() {
    let v = B16::from_u64(0x0102);
    let mut be = [0u8; 32];
    be[30] = 1;
    be[31] = 2;
    let mut le = [0u8; 32];
    le[0] = 2;
    le[1] = 1;
    assert_eq!(v.fixed_be_bytes(), be);
    assert_eq!(v.fixed_le_bytes(), le);

    let v = B128::from_u64(0x0102_0304);
    let mut be = [0u8; 32];
    be[28..].copy_from_slice(&[1, 2, 3, 4]);
    let mut le = [0u8; 32];
    le[..4].copy_from_slice(&[4, 3, 2, 1]);
    assert_eq!(v.fixed_be_bytes(), be);
    assert_eq!(v.fixed_le_bytes(), le);

    let bytes: [u8; 32] = core::array::from_fn(|i| i as u8);
    let v = B256::from_bytes(bytes);
    let mut rev = bytes;
    rev.reverse();
    assert_eq!(v.fixed_be_bytes(), bytes);
    assert_eq!(v.fixed_le_bytes(), rev);
}

#[test]
fn u64_and_usize_conversions_truncate() {
    let wide = B256::from_bytes([0xabu8; 32]);
    assert_eq!(wide.to_u64(), 0xabab_abab_abab_abab);
    assert_eq!(B16::from_u64(0xffff_1234).to_u64(), 0x1234);
    assert_eq!(B32::from_usize(7).to_usize(), 7);
    assert_eq!(B64::from_usize(usize::MAX).to_usize(), usize::MAX);
    assert!(!B128::max_value().is_zero());
}
