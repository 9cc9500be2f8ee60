//! The codec against the bit patterns of X.691, and round trips through
//! every primitive.

use asn1rs::buffer::BitBuffer;
use asn1rs::error::Error;

#[test]
fn test_boolean_and_constrained_int_bits() {
    let mut b = BitBuffer::new();
    b.write_boolean(true).unwrap();
    b.write_constrained_whole_number(0, 15, 5).unwrap();
    assert_eq!(5, b.bit_len());
    assert_eq!(vec![0xA8], b.into_bytes_vec());
    assert_eq!(true, b.read_boolean().unwrap());
    assert_eq!(5, b.read_constrained_whole_number(0, 15).unwrap());
    assert_eq!(0, b.remaining());
}

#[test]
fn test_unconstrained_non_negative_200() {
    let mut b = BitBuffer::new();
    b.write_non_negative_binary_integer(None, None, 200).unwrap();
    assert_eq!(16, b.bit_len());
    assert_eq!(vec![0x01, 0xC8], b.into_bytes_vec());
    assert_eq!(200, b.read_non_negative_binary_integer(None, None).unwrap());
    assert_eq!(0, b.remaining());
}

#[test]
fn test_length_determinant_127() {
    let mut b = BitBuffer::new();
    assert_eq!(None, b.write_length_determinant(None, None, 127).unwrap());
    assert_eq!(8, b.bit_len());
    assert_eq!(vec![0x7F], b.into_bytes_vec());
    assert_eq!(127, b.read_length_determinant(None, None).unwrap());
}

#[test]
fn test_length_determinant_128() {
    let mut b = BitBuffer::new();
    assert_eq!(None, b.write_length_determinant(None, None, 128).unwrap());
    assert_eq!(16, b.bit_len());
    assert_eq!(vec![0x80, 0x80], b.into_bytes_vec());
    assert_eq!(128, b.read_length_determinant(None, None).unwrap());
}

#[test]
fn test_length_determinant_16384_chunk() {
    let mut b = BitBuffer::new();
    assert_eq!(Some(16384), b.write_length_determinant(None, None, 16384).unwrap());
    assert_eq!(8, b.bit_len());
    assert_eq!(vec![0xC1], b.into_bytes_vec());
    assert_eq!(16384, b.read_length_determinant(None, None).unwrap());
}

#[test]
fn test_length_determinant_boundaries() {
    let cases: Vec<(u64, Option<u64>, usize)> = vec![
        (0, None, 8),
        (1, None, 8),
        (127, None, 8),
        (128, None, 16),
        (16383, None, 16),
        (16384, Some(16384), 8),
        (65535, Some(49152), 8),
        (65536, Some(65536), 8),
        (65537, Some(65536), 8),
    ];
    for (value, chunk, bits) in cases {
        let mut b = BitBuffer::new();
        assert_eq!(chunk, b.write_length_determinant(None, None, value).unwrap());
        assert_eq!(bits, b.bit_len());
        let back = b.read_length_determinant(None, None).unwrap();
        match chunk {
            None => assert_eq!(value, back),
            Some(c) => assert_eq!(c, back),
        }
    }
}

#[test]
fn test_bounded_length_determinant() {
    let mut b = BitBuffer::new();
    assert_eq!(None, b.write_length_determinant(Some(1), Some(5), 3).unwrap());
    assert_eq!(3, b.bit_len());
    assert_eq!(3, b.read_length_determinant(Some(1), Some(5)).unwrap());
    assert_eq!(0, b.remaining());
}

#[test]
fn test_normally_small_numbers() {
    for value in [0u64, 5, 63, 64, 200, 100_000] {
        let mut b = BitBuffer::new();
        b.write_normally_small_non_negative_whole_number(value).unwrap();
        assert_eq!(value, b.read_normally_small_non_negative_whole_number().unwrap());
        assert_eq!(0, b.remaining());
    }
    let mut b = BitBuffer::new();
    b.write_normally_small_length(1).unwrap();
    assert_eq!(7, b.bit_len());
    assert_eq!(vec![0x02], b.into_bytes_vec());
    assert_eq!(1, b.read_normally_small_length().unwrap());
}

#[test]
fn test_twos_complement_widths() {
    let cases: Vec<(u64, i64)> = vec![
        (1, 0),
        (1, -1),
        (7, 63),
        (7, -64),
        (8, -128),
        (9, 255),
        (63, -4_611_686_018_427_387_904),
        (64, i64::MIN),
        (64, i64::MAX),
    ];
    for (bit_len, value) in cases {
        let mut b = BitBuffer::new();
        b.write_2s_compliment_binary_integer(bit_len, value).unwrap();
        assert_eq!(bit_len as usize, b.bit_len());
        assert_eq!(value, b.read_2s_compliment_binary_integer(bit_len).unwrap());
        assert_eq!(0, b.remaining());
    }
}

#[test]
fn test_unconstrained_whole_number_round_trip() {
    for value in [0i64, 1, -1, 127, 128, -128, -129, 65535, -65536, i64::MAX, i64::MIN] {
        let mut b = BitBuffer::new();
        b.write_unconstrained_whole_number(value).unwrap();
        assert_eq!(value, b.read_unconstrained_whole_number().unwrap());
        assert_eq!(0, b.remaining());
    }
    let mut b = BitBuffer::new();
    b.write_unconstrained_whole_number(-1).unwrap();
    assert_eq!(vec![0x01, 0xFF], b.into_bytes_vec());
}

#[test]
fn test_semi_constrained_round_trip() {
    for (lb, value) in [(-5i64, 3i64), (0, 0), (10, 200), (-1000, -999)] {
        let mut b = BitBuffer::new();
        b.write_semi_constrained_whole_number(lb, value).unwrap();
        assert_eq!(value, b.read_semi_constrained_whole_number(lb).unwrap());
        assert_eq!(0, b.remaining());
    }
}

#[test]
fn test_constrained_whole_number_round_trip() {
    for (lb, ub, value) in [(-10i64, 10i64, -10i64), (-10, 10, 10), (0, 0, 0), (5, 5, 5), (
        i64::MIN,
        -1,
        -42,
    )] {
        let mut b = BitBuffer::new();
        b.write_constrained_whole_number(lb, ub, value).unwrap();
        assert_eq!(value, b.read_constrained_whole_number(lb, ub).unwrap());
        assert_eq!(0, b.remaining());
    }
}

#[test]
fn test_enumeration_index_extension() {
    let mut b = BitBuffer::new();
    b.write_enumeration_index(3, true, 4).unwrap();
    assert_eq!(8, b.bit_len());
    assert_eq!(vec![0x81], b.into_bytes_vec());
    assert_eq!(4, b.read_enumeration_index(3, true).unwrap());
    assert_eq!(0, b.remaining());
}

#[test]
fn test_choice_index_round_trip() {
    for (std_variants, extensible, index) in [(3u64, false, 0u64), (3, false, 2), (3, true, 1), (
        3,
        true,
        7,
    )] {
        let mut b = BitBuffer::new();
        b.write_choice_index(std_variants, extensible, index).unwrap();
        assert_eq!(index, b.read_choice_index(std_variants, extensible).unwrap());
        assert_eq!(0, b.remaining());
    }
}

#[test]
fn test_octetstring_unbounded_round_trip() {
    let data: Vec<u8> = (0..300u32).map(|i| (i % 251) as u8).collect();
    let mut b = BitBuffer::new();
    b.write_octetstring(None, None, false, &data).unwrap();
    let back = b.read_octetstring(None, None, false).unwrap();
    assert_eq!(data, back);
    assert_eq!(0, b.remaining());
}

#[test]
fn test_octetstring_fragmented_round_trip() {
    let data: Vec<u8> = (0..20000u32).map(|i| (i % 251) as u8).collect();
    let mut b = BitBuffer::new();
    b.write_octetstring(None, None, false, &data).unwrap();
    let back = b.read_octetstring(None, None, false).unwrap();
    assert_eq!(data, back);
    assert_eq!(0, b.remaining());
}

#[test]
fn test_octetstring_fixed_size() {
    let data = vec![0xDE, 0xAD];
    let mut b = BitBuffer::new();
    b.write_octetstring(Some(2), Some(2), false, &data).unwrap();
    assert_eq!(16, b.bit_len());
    let back = b.read_octetstring(Some(2), Some(2), false).unwrap();
    assert_eq!(data, back);
}

#[test]
fn test_octetstring_extensible_out_of_range() {
    let data = vec![1, 2, 3];
    let mut b = BitBuffer::new();
    b.write_octetstring(Some(0), Some(1), true, &data).unwrap();
    let back = b.read_octetstring(Some(0), Some(1), true).unwrap();
    assert_eq!(data, back);
    assert_eq!(0, b.remaining());
}

#[test]
fn test_empty_octetstring_with_zero_bound() {
    let mut b = BitBuffer::new();
    b.write_octetstring(None, Some(0), false, &[]).unwrap();
    assert_eq!(0, b.bit_len());
    let back = b.read_octetstring(None, Some(0), false).unwrap();
    assert_eq!(Vec::<u8>::new(), back);
}

#[test]
fn test_bitstring_offset_and_len() {
    let src = vec![0b1010_1100u8, 0b1101_0010];
    let mut b = BitBuffer::new();
    b.write_bitstring(None, None, false, &src, 3, 13).unwrap();
    let (back, bit_len) = b.read_bitstring(None, None, false).unwrap();
    assert_eq!(13, bit_len);
    assert_eq!(vec![0b0110_0110, 0b1001_0000], back);
    assert_eq!(0, b.remaining());
}

#[test]
fn test_bitstring_fragmented_round_trip() {
    let src: Vec<u8> = (0..2500u32).map(|i| (i % 249) as u8).collect();
    let mut b = BitBuffer::new();
    b.write_bitstring(None, None, false, &src, 0, 20000).unwrap();
    let (back, bit_len) = b.read_bitstring(None, None, false).unwrap();
    assert_eq!(20000, bit_len);
    assert_eq!(src, back);
    assert_eq!(0, b.remaining());
}

#[test]
fn test_bitstring_extensible_in_range() {
    let src = vec![0xF0u8];
    let mut b = BitBuffer::new();
    b.write_bitstring(Some(4), Some(4), true, &src, 0, 4).unwrap();
    assert_eq!(5, b.bit_len());
    let (back, bit_len) = b.read_bitstring(Some(4), Some(4), true).unwrap();
    assert_eq!(4, bit_len);
    assert_eq!(vec![0xF0], back);
}

#[test]
fn test_value_not_in_range_error() {
    let mut b = BitBuffer::new();
    assert_eq!(
        Err(Error::ValueNotInRange(16, 0, 15)),
        b.write_constrained_whole_number(0, 15, 16)
    );
    assert_eq!(
        Err(Error::ValueNotInRange(-3, 0, i64::MAX)),
        b.write_semi_constrained_whole_number(0, -3)
    );
    assert_eq!(0, b.bit_len());
}

#[test]
fn test_size_not_in_range_error() {
    let mut b = BitBuffer::new();
    assert_eq!(
        Err(Error::SizeNotInRange(1, 2, 3)),
        b.write_octetstring(Some(2), Some(3), false, &[9])
    );
    assert_eq!(0, b.bit_len());
}

#[test]
fn test_invalid_choice_index_error() {
    let mut b = BitBuffer::new();
    assert_eq!(Err(Error::InvalidChoiceIndex(5, 3)), b.write_enumeration_index(3, false, 5));
    assert_eq!(0, b.bit_len());
}

#[test]
fn test_end_of_stream_error() {
    let mut b = BitBuffer::new();
    assert_eq!(Err(Error::EndOfStream), b.read_boolean());
    b.write_boolean(true).unwrap();
    b.read_boolean().unwrap();
    assert_eq!(Err(Error::EndOfStream), b.read_boolean());
}

#[test]
fn test_bit_len_not_in_range_error() {
    let mut b = BitBuffer::new();
    assert_eq!(Err(Error::BitLenNotInRange(0, 1, 64)), b.read_2s_compliment_binary_integer(0));
    assert_eq!(Err(Error::BitLenNotInRange(65, 1, 64)), b.read_2s_compliment_binary_integer(65));
}

#[test]
fn test_length_determinant_exceeds_limit_error() {
    let mut b = BitBuffer::new();
    b.write_length_determinant(None, None, 9).unwrap();
    b.write_bits(&[0u8; 9]).unwrap();
    assert_eq!(
        Err(Error::LengthDeterminantExceedsLimit(9, 8)),
        b.read_non_negative_binary_integer(None, None)
    );
}

#[test]
fn test_remaining_decreases_to_zero() {
    let mut b = BitBuffer::new();
    b.write_boolean(true).unwrap();
    b.write_non_negative_binary_integer(None, Some(63), 17).unwrap();
    b.write_unconstrained_whole_number(-7).unwrap();
    let r0 = b.remaining();
    b.read_boolean().unwrap();
    let r1 = b.remaining();
    b.read_non_negative_binary_integer(None, Some(63)).unwrap();
    let r2 = b.remaining();
    b.read_unconstrained_whole_number().unwrap();
    let r3 = b.remaining();
    assert!(r0 > r1 && r1 > r2 && r2 > r3);
    assert_eq!(0, r3);
}

#[test]
fn test_forward_compatible_choice_with_unknown_extension() {
    let mut b = BitBuffer::new();
    b.write_choice_index(3, true, 4).unwrap();
    b.write_octetstring(None, None, false, &[0xAB, 0xCD]).unwrap();
    b.write_boolean(true).unwrap();

    let index = b.read_choice_index(3, true).unwrap();
    assert_eq!(4, index);
    assert!(index >= 3);
    let skipped = b.read_octetstring(None, None, false).unwrap();
    assert_eq!(vec![0xAB, 0xCD], skipped);
    assert_eq!(true, b.read_boolean().unwrap());
    assert_eq!(0, b.remaining());
}

#[test]
fn test_octetstring_multi_chunk_round_trip() {
    let data: Vec<u8> = (0..70000u32).map(|i| (i % 253) as u8).collect();
    let mut b = BitBuffer::new();
    b.write_octetstring(None, None, false, &data).unwrap();
    let back = b.read_octetstring(None, None, false).unwrap();
    assert_eq!(data, back);
    assert_eq!(0, b.bits_remaining());
}

#[test]
fn test_bitstring_extensible_out_of_range_fragmented() {
    let src: Vec<u8> = (0..2200u32).map(|i| (i % 241) as u8).collect();
    let mut b = BitBuffer::new();
    b.write_bitstring(Some(0), Some(4), true, &src, 0, 17600).unwrap();
    let (back, bit_len) = b.read_bitstring(Some(0), Some(4), true).unwrap();
    assert_eq!(17600, bit_len);
    assert_eq!(src, back);
}

#[test]
fn test_truncated_stream_fails_cleanly() {
    let mut w = BitBuffer::new();
    w.write_non_negative_binary_integer(None, None, 123456).unwrap();
    let bytes = w.into_bytes_vec();
    let mut r = BitBuffer::from_bytes(&bytes, 12);
    assert!(r.read_non_negative_binary_integer(None, None).is_err());
}
