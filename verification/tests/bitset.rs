//! Behavior of the growable bit vector.

use voxtree::bits::Bitset;

#[test]
fn insert_true_then_get_true() {
    let mut b = Bitset::new();
    assert_eq!(b.insert(5, true), Ok(false));
    assert_eq!(b.get(5), Ok(true));
}

#[test]
fn insert_false_then_get_false() {
    let mut b = Bitset::new();
    assert_eq!(b.insert(5, true), Ok(false));
    assert_eq!(b.insert(5, false), Ok(true));
    assert_eq!(b.get(5), Ok(false));
}

#[test]
fn unread_indices_read_false_or_out_of_range() {
    let mut b = Bitset::new();
    assert_eq!(b.get(0), Err(()));
    b.insert(40, true).unwrap();
    assert_eq!(b.get(7), Ok(false));
    assert_eq!(b.get(63), Ok(false));
    assert_eq!(b.get(64), Err(()));
}

#[test]
fn len_stays_multiple_of_32_and_exceeds_last_insert() {
    let mut b = Bitset::new();
    assert_eq!(b.len(), 0);
    b.insert(0, true).unwrap();
    assert_eq!(b.len(), 32);
    b.insert(31, false).unwrap();
    assert_eq!(b.len(), 32);
    b.insert(32, true).unwrap();
    assert_eq!(b.len(), 64);
    b.insert(100, true).unwrap();
    assert_eq!(b.len() % 32, 0);
    assert!(b.len() > 100);
}

#[test]
fn words_pack_bits_little_end_first() {
    let mut b = Bitset::new();
    b.insert(0, true).unwrap();
    b.insert(33, true).unwrap();
    let words = b.data();
    assert_eq!(words.len(), 2);
    assert_eq!(words[0], 1);
    assert_eq!(words[1], 2);
}

#[test]
fn insert_reports_previous_value() {
    let mut b = Bitset::new();
    assert_eq!(b.insert(9, true), Ok(false));
    assert_eq!(b.insert(9, true), Ok(true));
    assert_eq!(b.insert(9, false), Ok(true));
    assert_eq!(b.insert(9, false), Ok(false));
}
