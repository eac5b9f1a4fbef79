use evremap::cond_bits::CondBits;
use evremap::state_machine::CondBitRef;

#[test]
fn new_bitmap_has_leading_bits_set() {
    let bits = CondBits::new(3, 11);
    assert_eq!(bits.len(), 11);
    assert_eq!(bits.unsatisfied(), 3);
    for i in 0..11 {
        assert_eq!(bits.get(i), i < 3);
    }
    assert!(!bits.is_eligible());
}

#[test]
fn new_bitmap_with_whole_bytes_set() {
    let bits = CondBits::new(16, 17);
    assert_eq!(bits.unsatisfied(), 16);
    for i in 0..17 {
        assert_eq!(bits.get(i), i < 16);
    }
    let bits = CondBits::new(8, 8);
    assert_eq!(bits.unsatisfied(), 8);
    assert!(bits.get(7));
}

#[test]
fn empty_bitmap_is_eligible() {
    let bits = CondBits::new(0, 0);
    assert_eq!(bits.len(), 0);
    assert_eq!(bits.unsatisfied(), 0);
    assert!(bits.is_eligible());
    let bits = CondBits::new(0, 9);
    assert!(bits.is_eligible());
}

#[test]
fn set_changes_one_bit_and_the_counter() {
    let mut bits = CondBits::new(2, 10);
    bits.set(9, true);
    assert_eq!(bits.unsatisfied(), 3);
    assert!(bits.get(9));
    assert!(!bits.get(8));
    bits.set(0, false);
    assert_eq!(bits.unsatisfied(), 2);
    assert!(!bits.get(0));
    assert!(bits.get(1));
    bits.set(1, false);
    bits.set(9, false);
    assert_eq!(bits.unsatisfied(), 0);
    assert!(bits.is_eligible());
}

#[test]
fn set_to_the_same_value_changes_nothing() {
    let mut bits = CondBits::new(2, 4);
    bits.set(0, true);
    assert_eq!(bits.unsatisfied(), 2);
    bits.set(3, false);
    assert_eq!(bits.unsatisfied(), 2);
    assert!(bits.get(0) && bits.get(1) && !bits.get(2) && !bits.get(3));
}

#[test]
fn counter_is_the_number_of_set_bits() {
    let mut bits = CondBits::new(5, 20);
    let changes = [(0, false), (19, true), (7, true), (7, true), (3, false), (12, true), (19, false)];
    for (index, value) in changes {
        bits.set(index, value);
        let set_bits = (0..20).filter(|i| bits.get(*i)).count();
        assert_eq!(bits.unsatisfied(), set_bits);
    }
    assert_eq!(bits.unsatisfied(), 5);
}

#[test]
fn bit_reference_sets_a_bit_in_its_bitmap_only() {
    let mut pool = vec![CondBits::new(1, 2), CondBits::new(2, 3)];
    let at = CondBitRef { cb: 1, i: 2 };
    at.set(&mut pool, true);
    assert_eq!(pool[0].unsatisfied(), 1);
    assert_eq!(pool[1].unsatisfied(), 3);
    assert!(pool[1].get(2));
    CondBitRef { cb: 0, i: 0 }.set(&mut pool, false);
    assert!(pool[0].is_eligible());
    assert_eq!(pool[1].unsatisfied(), 3);
}
