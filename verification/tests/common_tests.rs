use immix_rust::common::bitmap::Bitmap;
use immix_rust::common::{lower_bits, test_nth_bit, Address, AddressBitmap, AddressMap, ObjectReference};

#[test]
fn address_align_up_rounds_to_multiple() {
    assert_eq!(Address(13).align_up(8).as_usize(), 16);
    assert_eq!(Address(16).align_up(8).as_usize(), 16);
    assert_eq!(Address(0).align_up(8).as_usize(), 0);
    assert_eq!(Address(1).align_up(1).as_usize(), 1);
    assert_eq!(Address(257).align_up(256).as_usize(), 512);
}

#[test]
fn address_arithmetic() {
    let a = Address::from_usize(100);
    assert_eq!(a.plus(28).as_usize(), 128);
    assert_eq!(a.plus(28).diff(a), 28);
    assert!(Address::zero().is_zero());
    assert!(!a.is_zero());
}

#[test]
fn object_reference_round_trip() {
    let a = Address(4096);
    assert_eq!(a.to_object_reference(), ObjectReference(4096));
    assert_eq!(ObjectReference(4096).to_address(), a);
}

#[test]
fn nth_bit_and_lower_bits() {
    assert!(test_nth_bit(0b1100_0011, 7));
    assert!(test_nth_bit(0b1100_0011, 6));
    assert!(!test_nth_bit(0b1100_0011, 5));
    assert!(test_nth_bit(0b1100_0011, 0));
    assert_eq!(lower_bits(0b1100_0011, 6), 0b11);
    assert_eq!(lower_bits(0b1100_1111, 6), 0b1111);
    assert_eq!(lower_bits(0xff, 1), 1);
}

#[test]
fn bitmap_starts_clear_and_sets_and_clears_bits() {
    let mut b = Bitmap::new(130);
    assert_eq!(b.len(), 130);
    for i in 0..130 {
        assert!(!b.test_bit(i));
    }
    b.set_bit(0);
    b.set_bit(64);
    b.set_bit(129);
    assert!(b.test_bit(0) && b.test_bit(64) && b.test_bit(129));
    assert!(!b.test_bit(1) && !b.test_bit(63) && !b.test_bit(65));
    b.clear_bit(64);
    assert!(!b.test_bit(64));
    assert!(b.test_bit(129));
}

#[test]
fn bitmap_get_after_set_gives_low_bits() {
    let mut b = Bitmap::new(200);
    b.set(60, 0b1011_0110, 8);
    assert_eq!(b.get(60, 8), 0b1011_0110);
    // only the low `length` bits are written
    b.set(100, 0xffff, 4);
    assert_eq!(b.get(100, 8), 0b1111);
    assert_eq!(b.get(99, 6), 0b11110);
    // a full word across the word boundary
    b.set(10, u64::MAX, 64);
    assert_eq!(b.get(10, 64), u64::MAX);
    assert!(!b.test_bit(9));
    assert!(!b.test_bit(74));
}

#[test]
fn bitmap_length_until_next_bit() {
    let mut b = Bitmap::new(100);
    b.set_bit(5);
    b.set_bit(12);
    assert_eq!(b.length_until_next_bit(0), 5);
    assert_eq!(b.length_until_next_bit(5), 7);
    assert_eq!(b.length_until_next_bit(11), 1);
}

#[test]
fn bitmap_print_lists_bits() {
    let mut b = Bitmap::new(5);
    b.set_bit(1);
    b.set_bit(4);
    assert_eq!(b.print(), vec![false, true, false, false, true]);
}

#[test]
fn address_bitmap_indexes_by_word() {
    let start = Address(0x1000);
    let end = Address(0x1000 + 8 * 32);
    let mut b = AddressBitmap::new(start, end);
    assert_eq!(b.print().len(), 32);
    b.set_bit(Address(0x1000 + 8 * 3));
    assert!(b.test_bit(Address(0x1000 + 8 * 3)));
    // any byte of the word shares its bit
    assert!(b.test_bit(Address(0x1000 + 8 * 3 + 5)));
    assert!(!b.test_bit(Address(0x1000 + 8 * 4)));
    assert_eq!(b.length_until_next_bit(start), 3);
    b.clear_bit(Address(0x1000 + 8 * 3));
    assert!(!b.test_bit(Address(0x1000 + 8 * 3)));
    b.set(Address(0x1000 + 8 * 10), 0b101, 3);
    assert_eq!(b.get(Address(0x1000 + 8 * 10), 3), 0b101);
    assert!(b.test_bit(Address(0x1000 + 8 * 12)));
    assert!(!b.test_bit(Address(0x1000 + 8 * 11)));
}

#[test]
fn address_map_reads_back_what_was_set() {
    let start = Address(0x2000);
    let mut m: AddressMap<u8> = AddressMap::new(start, Address(0x2000 + 8 * 16), 0u8);
    assert_eq!(m.len(), 16);
    assert_eq!(m.get(Address(0x2000 + 8 * 5)), 0);
    m.set(Address(0x2000 + 8 * 5), 42);
    assert_eq!(m.get(Address(0x2000 + 8 * 5)), 42);
    assert_eq!(m.get(Address(0x2000 + 8 * 5 + 7)), 42);
    assert_eq!(m.get(Address(0x2000 + 8 * 6)), 0);
}
