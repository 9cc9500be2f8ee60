//! The bit buffer itself, and the typed descriptor layer over it.

use asn1rs::buffer::{BitBuffer, BitRead, BitWrite, ScopedBitRead};
use asn1rs::descriptor::enumerated::{Constraint, Enumerated};
use asn1rs::descriptor::sequence::Sequence;
use asn1rs::error::Error;
use asn1rs::schema::{Header, Signal};
use asn1rs::syn::sequenceof::{NoConstraint, SequenceOf};

#[test]
fn test_buffer_bytes_round_trip() {
    let bytes = vec![0xDE, 0xAD, 0xBE, 0xEF];
    let b = BitBuffer::from_bytes(&bytes, 32);
    assert_eq!(32, b.len());
    assert_eq!(bytes, b.into_bytes_vec());
}

#[test]
fn test_buffer_partial_bits_zero_padding() {
    let bytes = vec![0xFF];
    let b = BitBuffer::from_bytes(&bytes, 3);
    assert_eq!(3, b.len());
    assert_eq!(vec![0xE0], b.into_bytes_vec());
}

#[test]
fn test_buffer_positions_clamp() {
    let mut b = BitBuffer::from_bytes(&[0xFF, 0x00], 16);
    assert_eq!(0, b.pos());
    assert_eq!(10, b.set_pos(10));
    assert_eq!(16, b.set_pos(99));
    assert_eq!(12, b.set_len(12));
    assert_eq!(12, b.pos());
    assert_eq!(0, b.remaining());
    assert!(!b.is_empty());
    assert_eq!(0, b.set_len(0));
    assert!(b.is_empty());
}

#[test]
fn test_bit_pattern_write_then_read_back() {
    let src = vec![0b1010_1100u8, 0b1101_0010];
    let mut b = BitBuffer::new();
    b.write_bits_with_offset_len(&src, 3, 13).unwrap();
    assert_eq!(13, b.bit_len());
    let mut dst = vec![0u8; 2];
    b.read_bits_with_len(&mut dst, 13).unwrap();
    assert_eq!(vec![0b0110_0110, 0b1001_0000], dst);
}

#[test]
fn test_bit_read_trait_object_free_generics() {
    fn first_two<T: BitRead>(source: &mut T) -> (bool, bool) {
        let a = source.read_bit().unwrap();
        let b = source.read_bit().unwrap();
        (a, b)
    }
    fn put_nibble<T: BitWrite>(sink: &mut T) {
        sink.write_bits_with_len(&[0b1011_0000], 4).unwrap();
    }
    let mut b = BitBuffer::new();
    put_nibble(&mut b);
    assert_eq!((true, false), first_two(&mut b));
    assert_eq!(2, ScopedBitRead::pos(&b));
    assert_eq!(2, ScopedBitRead::remaining(&b));
}

#[test]
fn test_with_read_position_at_restores_position() {
    let mut b = BitBuffer::from_bytes(&[0b1010_0000], 4);
    b.read_bit().unwrap();
    assert_eq!(1, b.pos());
    let peeked = b.with_read_position_at(3, |mut inner: BitBuffer| {
        let v = inner.read_bit().unwrap();
        (inner, v)
    });
    assert_eq!(false, peeked);
    assert_eq!(1, b.pos());
    assert_eq!(false, b.read_bit().unwrap());
}

#[test]
fn test_enumeration_index_round_trip_law() {
    let all = [Signal::Red, Signal::Amber, Signal::Green, Signal::Blink, Signal::Off];
    for v in all {
        assert_eq!(Some(v), Signal::from_choice_index(v.to_choice_index()));
    }
    assert_eq!(None, Signal::from_choice_index(5));
}

#[test]
fn test_enumerated_wire_round_trip() {
    let all = [Signal::Red, Signal::Amber, Signal::Green, Signal::Blink, Signal::Off];
    for v in all {
        let mut b = BitBuffer::new();
        Enumerated::<Signal>::write_value(&mut b, &v).unwrap();
        assert_eq!(v, Enumerated::<Signal>::read_value(&mut b).unwrap());
        assert_eq!(0, b.remaining());
    }
}

#[test]
fn test_enumerated_extension_bits() {
    let mut b = BitBuffer::new();
    Enumerated::<Signal>::write_value(&mut b, &Signal::Off).unwrap();
    assert_eq!(8, b.bit_len());
    assert_eq!(vec![0x81], b.into_bytes_vec());
    let mut s = BitBuffer::new();
    Enumerated::<Signal>::write_value(&mut s, &Signal::Amber).unwrap();
    assert_eq!(3, s.bit_len());
    assert_eq!(vec![0x20], s.into_bytes_vec());
}

#[test]
fn test_enumerated_unknown_index_is_refused() {
    let mut b = BitBuffer::new();
    b.write_enumeration_index(3, true, 9).unwrap();
    assert_eq!(
        Err(Error::InvalidChoiceIndex(9, 3)),
        Enumerated::<Signal>::read_value(&mut b)
    );
}

#[test]
fn test_sequence_round_trip() {
    let value = Header { flag: true, level: 5 };
    let mut b = BitBuffer::new();
    Sequence::<Header>::write_value(&mut b, &value).unwrap();
    assert_eq!(5, b.bit_len());
    assert_eq!(vec![0xA8], b.into_bytes_vec());
    assert_eq!(value, Sequence::<Header>::read_value(&mut b).unwrap());
    assert_eq!(0, b.remaining());
}

#[test]
fn test_sequence_rejects_field_out_of_range() {
    let value = Header { flag: false, level: 99 };
    let mut b = BitBuffer::new();
    assert_eq!(
        Err(Error::ValueNotInRange(99, 0, 15)),
        Sequence::<Header>::write_value(&mut b, &value)
    );
}

#[test]
fn test_sequence_of_round_trip() {
    let values = vec![
        Header { flag: true, level: 1 },
        Header { flag: false, level: 15 },
        Header { flag: true, level: 0 },
    ];
    let mut b = BitBuffer::new();
    SequenceOf::<Header, NoConstraint>::write_value(&mut b, &values).unwrap();
    assert_eq!(8 + 15, b.bit_len());
    let back = SequenceOf::<Header, NoConstraint>::read_value(&mut b).unwrap();
    assert_eq!(values, back);
    assert_eq!(0, b.remaining());
}

#[test]
fn test_sequence_of_empty() {
    let values: Vec<Header> = vec![];
    let mut b = BitBuffer::new();
    SequenceOf::<Header, NoConstraint>::write_value(&mut b, &values).unwrap();
    assert_eq!(8, b.bit_len());
    let back = SequenceOf::<Header, NoConstraint>::read_value(&mut b).unwrap();
    assert_eq!(values, back);
}

#[test]
fn test_decode_from_foreign_bytes() {
    let b_bytes = {
        let mut w = BitBuffer::new();
        w.write_boolean(true).unwrap();
        w.write_constrained_whole_number(0, 15, 5).unwrap();
        w.into_bytes_vec()
    };
    let mut r = BitBuffer::from_bytes(&b_bytes, 5);
    assert_eq!(true, r.read_boolean().unwrap());
    assert_eq!(5, r.read_constrained_whole_number(0, 15).unwrap());
    assert_eq!(0, r.remaining());
}

#[test]
fn test_top_level_write_and_read() {
    let value = Header { flag: false, level: 9 };
    let mut b = BitBuffer::new();
    b.write(&value).unwrap();
    assert_eq!(5, b.bit_len());
    let back: Header = b.read().unwrap();
    assert_eq!(value, back);
    assert_eq!(0, b.bits_remaining());
}
