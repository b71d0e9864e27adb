use immix_rust::common::{lower_bits, test_nth_bit, Address, ObjectReference};
use immix_rust::heap::{parse_heap_size, split_heap, DEFAULT_HEAP_SIZE};
use immix_rust::objectmodel::{decode, starts_object};

#[test]
fn plus_adds_bytes() {
    let a = Address::from_usize(0x1000);
    assert_eq!(a.plus(24).as_usize(), 0x1018);
    assert_eq!(a.plus(0), a);
}

#[test]
fn diff_is_distance() {
    let a = Address::from_usize(0x1000);
    let b = Address::from_usize(0x1234);
    assert_eq!(b.diff(a), 0x234);
    assert_eq!(a.diff(a), 0);
}

#[test]
fn align_up_rounds_to_next_multiple() {
    assert_eq!(Address::from_usize(13).align_up(8).as_usize(), 16);
    assert_eq!(Address::from_usize(16).align_up(8).as_usize(), 16);
    assert_eq!(Address::from_usize(17).align_up(16).as_usize(), 32);
    assert_eq!(Address::from_usize(0).align_up(4096).as_usize(), 0);
    assert_eq!(Address::from_usize(1).align_up(1 << 19).as_usize(), 1 << 19);
    assert_eq!(Address::from_usize(7).align_up(1).as_usize(), 7);
}

#[test]
fn null_is_zero() {
    assert!(Address::null().is_zero());
    assert_eq!(Address::null().as_usize(), 0);
    assert!(!Address::from_usize(8).is_zero());
}

#[test]
fn addresses_are_ordered_by_value() {
    assert!(Address::from_usize(8) < Address::from_usize(16));
    assert!(Address::from_usize(16) >= Address::from_usize(16));
    assert!(ObjectReference::from_usize(8) < ObjectReference::from_usize(9));
}

#[test]
fn object_reference_round_trip() {
    let a = Address::from_usize(0xdead_bee8);
    let r = a.to_object_reference();
    assert_eq!(r.as_usize(), 0xdead_bee8);
    assert_eq!(r.to_address(), a);
}

#[test]
fn lower_bits_keeps_low_bits() {
    assert_eq!(lower_bits(0b1100_0011, 6), 0b0000_0011);
    assert_eq!(lower_bits(0b1111_1111, 6), 0b0011_1111);
    assert_eq!(lower_bits(0b1111_1111, 0), 0);
    assert_eq!(lower_bits(0b1010_1010, 8), 0b1010_1010);
    assert_eq!(lower_bits(0b1010_1010, 100), 0b1010_1010);
}

#[test]
fn test_nth_bit_reads_one_bit() {
    assert!(test_nth_bit(0b1100_0011, 7));
    assert!(test_nth_bit(0b1100_0011, 6));
    assert!(!test_nth_bit(0b1100_0011, 5));
    assert!(test_nth_bit(0b1100_0011, 0));
    assert!(!test_nth_bit(0b1111_1111, 8));
}

#[test]
fn decode_splits_encoding_byte() {
    assert_eq!(decode(0b1100_0011), (0b0000_0011, true));
    assert_eq!(decode(0b0100_1111), (0b0000_1111, false));
    assert_eq!(decode(0b1000_0001), (0b0000_0001, true));
    assert_eq!(decode(0), (0, false));
}

#[test]
fn starts_object_reads_bit_six() {
    assert!(starts_object(0b0100_0000));
    assert!(starts_object(0b1100_0011));
    assert!(!starts_object(0b1000_0011));
    assert!(!starts_object(0));
}

#[test]
fn default_heap_is_split_four_to_one() {
    assert_eq!(DEFAULT_HEAP_SIZE, 500 << 20);
    assert_eq!(split_heap(DEFAULT_HEAP_SIZE), (400 << 20, 100 << 20));
    assert_eq!(split_heap(0), (0, 0));
    assert_eq!(split_heap(7), (6, 1));
}

#[test]
fn heap_size_is_read_in_mebibytes() {
    assert_eq!(parse_heap_size(b"500M"), Some(500 << 20));
    assert_eq!(parse_heap_size(b"1M"), Some(1 << 20));
    assert_eq!(parse_heap_size(b"0M"), Some(0));
    assert_eq!(parse_heap_size(b"007M"), Some(7 << 20));
    assert_eq!(parse_heap_size(b"16384M"), Some(16384 << 20));
    assert_eq!(parse_heap_size(b"17592186044415M"), Some(17592186044415 << 20));
}

#[test]
fn heap_size_of_another_form_is_refused() {
    assert_eq!(parse_heap_size(b""), None);
    assert_eq!(parse_heap_size(b"M"), None);
    assert_eq!(parse_heap_size(b"500"), None);
    assert_eq!(parse_heap_size(b"500m"), None);
    assert_eq!(parse_heap_size(b"500G"), None);
    assert_eq!(parse_heap_size(b"5x0M"), None);
    assert_eq!(parse_heap_size(b"+5M"), None);
    assert_eq!(parse_heap_size(b" 5M"), None);
    assert_eq!(parse_heap_size(b"5M "), None);
    assert_eq!(parse_heap_size(b"17592186044416M"), None);
    assert_eq!(parse_heap_size(b"99999999999999999999999999M"), None);
}
