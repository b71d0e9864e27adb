use immix_rust::common::{Address, AddressMap, SafeAddressMap, TraceMap};

#[test]
fn address_map_starts_zeroed() {
    let start = Address::from_usize(0x10000);
    let end = Address::from_usize(0x10000 + 64);
    let map = AddressMap::new(start, end);
    for i in 0..8 {
        assert_eq!(map.get(start.plus(8 * i)), 0);
    }
}

#[test]
fn address_map_set_then_get() {
    let start = Address::from_usize(0x10000);
    let end = Address::from_usize(0x10000 + 64);
    let mut map = AddressMap::new(start, end);
    map.set(start.plus(16), 0b1100_0011);
    assert_eq!(map.get(start.plus(16)), 0b1100_0011);
    // Every address of a word shares the cell of the word.
    assert_eq!(map.get(start.plus(23)), 0b1100_0011);
    assert_eq!(map.get(start.plus(8)), 0);
    assert_eq!(map.get(start.plus(24)), 0);
}

#[test]
fn safe_address_map_answers_none_outside() {
    let map: SafeAddressMap<u32> = SafeAddressMap::new_of(0x1000, 0x1000 + 20, || 7);
    // 20 bytes touch three words.
    assert_eq!(map.get(0x1000), Some(&7));
    assert_eq!(map.get(0x1000 + 16), Some(&7));
    assert_eq!(map.get(0x1000 + 23), Some(&7));
    assert_eq!(map.get(0x1000 + 24), None);
    assert_eq!(map.get(0xfff), None);
    assert_eq!(map.get(0), None);
}

#[test]
fn safe_address_map_default_and_set() {
    let mut map: SafeAddressMap<u8> = SafeAddressMap::new(64, 128);
    assert_eq!(map.get(64), Some(&0));
    map.set(72, 9);
    assert_eq!(map.get(72), Some(&9));
    assert_eq!(map.get(79), Some(&9));
    assert_eq!(map.get(80), Some(&0));
    assert_eq!(map.get(128), None);
}

#[test]
fn fresh_trace_map_has_nothing_traced() {
    let map = TraceMap::new(0x2000, 0x2000 + 80);
    for i in 0..10 {
        let addr = Address::from_usize(0x2000 + 8 * i);
        assert!(!map.is_traced(addr));
        assert!(map.is_untraced_and_valid(addr));
    }
}

#[test]
fn mark_as_traced_marks_one_word() {
    let mut map = TraceMap::new(0x2000, 0x2000 + 80);
    let addr = Address::from_usize(0x2000 + 24);
    map.mark_as_traced(addr);
    assert!(map.is_traced(addr));
    assert!(!map.is_untraced_and_valid(addr));
    assert!(!map.is_traced(Address::from_usize(0x2000 + 16)));
    assert!(!map.is_traced(Address::from_usize(0x2000 + 32)));
}

#[test]
fn is_untraced_and_valid_refuses_addresses_outside() {
    let map = TraceMap::new(0x2000, 0x2000 + 80);
    assert!(!map.is_untraced_and_valid(Address::from_usize(0x2000 + 80)));
    assert!(!map.is_untraced_and_valid(Address::from_usize(0x1ff8)));
    assert!(!map.is_untraced_and_valid(Address::null()));
    assert!(!map.is_untraced_and_valid(Address::from_usize(usize::MAX)));
}

#[test]
fn flip_mark_state_untraces_what_was_traced() {
    let mut map = TraceMap::new(0x2000, 0x2000 + 80);
    let marked = Address::from_usize(0x2000 + 8);
    let other = Address::from_usize(0x2000 + 40);
    map.mark_as_traced(marked);
    map.flip_mark_state();
    assert!(!map.is_traced(marked));
    // A byte that was never written holds the new mark state.
    assert!(map.is_traced(other));
}

#[test]
fn flip_mark_state_twice_restores_the_map() {
    let mut map = TraceMap::new(0x2000, 0x2000 + 80);
    let marked = Address::from_usize(0x2000 + 8);
    let other = Address::from_usize(0x2000 + 40);
    map.mark_as_traced(marked);
    map.flip_mark_state();
    map.flip_mark_state();
    assert!(map.is_traced(marked));
    assert!(!map.is_traced(other));
}
