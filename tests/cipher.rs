use cretrit::ciphertext::Serializable;
use cretrit::{Cipher, Comparator, EqualityCMP, Error, OrderingCMP, PlainText, EQUALITY, ORDERING};

#[test]
fn cipher_rejects_invalid_parameters() {
    let key = [3u8; 32];
    assert!(matches!(Cipher::new(0, 256, ORDERING, &key), Err(Error::RangeError(_))));
    assert!(matches!(Cipher::new(4, 1, ORDERING, &key), Err(Error::RangeError(_))));
    assert!(matches!(Cipher::new(4, 256, 4, &key), Err(Error::RangeError(_))));
    assert!(matches!(Cipher::new(65_537, 256, EQUALITY, &key), Err(Error::RangeError(_))));
    let c = Cipher::new(4, 256, EQUALITY, &key).unwrap();
    assert_eq!((4, 256, 2), (c.block_count(), c.block_width(), c.comparator_arity()));
}

#[test]
fn encryption_rejects_bad_plaintexts() {
    let mut c = Cipher::new(2, 16, ORDERING, &[5u8; 32]).unwrap();
    assert!(matches!(c.full_encrypt(&PlainText::new(vec![1])), Err(Error::RangeError(_))));
    assert!(matches!(c.full_encrypt(&PlainText::new(vec![1, 16])), Err(Error::RangeError(_))));
    assert!(matches!(c.right_encrypt(&PlainText::new(vec![1, 2, 3])), Err(Error::RangeError(_))));
    assert!(c.full_encrypt(&PlainText::new(vec![15, 15])).is_ok());
}

#[test]
fn left_part_is_deterministic_right_part_is_not() {
    let mut c = Cipher::new(4, 256, ORDERING, &[9u8; 32]).unwrap();
    let a = c.full_encrypt(&PlainText::from_uint(4, 256, 777).unwrap()).unwrap().to_vec().unwrap();
    let b = c.full_encrypt(&PlainText::from_uint(4, 256, 777).unwrap()).unwrap().to_vec().unwrap();
    let left_end = 3 + 4 * 17;
    assert_eq!(a[..left_end], b[..left_end]);
    assert_ne!(a[left_end + 2..left_end + 18], b[left_end + 2..left_end + 18]);
    let mut d = Cipher::new(4, 256, ORDERING, &[9u8; 32]).unwrap();
    let e = d.full_encrypt(&PlainText::from_uint(4, 256, 777).unwrap()).unwrap().to_vec().unwrap();
    assert_eq!(a[..left_end], e[..left_end]);
}

#[test]
fn comparator_inversions() {
    assert_eq!(std::cmp::Ordering::Equal, OrderingCMP::invert(0).unwrap());
    assert_eq!(std::cmp::Ordering::Less, OrderingCMP::invert(1).unwrap());
    assert_eq!(std::cmp::Ordering::Greater, OrderingCMP::invert(2).unwrap());
    assert!(matches!(OrderingCMP::invert(3), Err(Error::RangeError(_))));
    assert!(EqualityCMP::invert(0).unwrap());
    assert!(!EqualityCMP::invert(1).unwrap());
    assert!(matches!(EqualityCMP::invert(2), Err(Error::RangeError(_))));
}

#[test]
fn comparator_codes() {
    assert_eq!(0, OrderingCMP::compare(7, 7));
    assert_eq!(1, OrderingCMP::compare(3, 7));
    assert_eq!(2, OrderingCMP::compare(9, 7));
    assert_eq!(0, EqualityCMP::compare(7, 7));
    assert_eq!(1, EqualityCMP::compare(3, 7));
    assert_eq!(1, EqualityCMP::compare(9, 7));
}

#[test]
fn fixed_nonce_seed_reproduces_ciphertexts() {
    let key = [0xADu8; 32];
    let seed = [1u8; 32];
    let mut a = Cipher::new_with_nonce_seed(4, 16, ORDERING, &key, &seed).unwrap();
    let mut b = Cipher::new_with_nonce_seed(4, 16, ORDERING, &key, &seed).unwrap();
    let x = PlainText::from_uint(4, 16, 1_234).unwrap();
    let ca = a.full_encrypt(&x).unwrap();
    let cb = b.full_encrypt(&x).unwrap();
    assert_eq!(ca.to_vec().unwrap(), cb.to_vec().unwrap());
    let ca2 = a.full_encrypt(&x).unwrap();
    assert_ne!(ca.to_vec().unwrap(), ca2.to_vec().unwrap());
    assert_eq!(0, ca.compare(&ca2).unwrap());
    assert!(matches!(
        Cipher::new_with_nonce_seed(4, 0, ORDERING, &key, &seed),
        Err(Error::RangeError(_))
    ));
}
