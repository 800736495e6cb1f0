use cretrit::{Cipher, PlainText, EQUALITY};
use rand::Rng;

fn ere_key() -> [u8; 32] {
    let mut k: [u8; 32] = Default::default();
    rand::thread_rng().fill(&mut k);
    k
}

#[test]
fn ere_tiny_self_equality() {
    let mut cipher = Cipher::new(1, 4, EQUALITY, &ere_key()).unwrap();

    let n = cipher.full_encrypt(&PlainText::new(vec![2u16])).unwrap();

    assert_eq!(0, n.compare(&n).unwrap());
}

#[test]
fn ere_tiny_equality() {
    let mut cipher = Cipher::new(1, 4, EQUALITY, &ere_key()).unwrap();

    let n2_1 = cipher.full_encrypt(&PlainText::new(vec![2u16])).unwrap();
    let n2_2 = cipher.full_encrypt(&PlainText::new(vec![2u16])).unwrap();

    assert_eq!(0, n2_1.compare(&n2_2).unwrap());
    assert_eq!(0, n2_2.compare(&n2_1).unwrap());
}

#[test]
fn ere_tiny_inequality() {
    let mut cipher = Cipher::new(1, 4, EQUALITY, &ere_key()).unwrap();

    let n1 = cipher.full_encrypt(&PlainText::new(vec![1u16])).unwrap();
    let n2 = cipher.full_encrypt(&PlainText::new(vec![2u16])).unwrap();

    assert_eq!(1, n1.compare(&n2).unwrap());
    assert_eq!(1, n2.compare(&n1).unwrap());
}

#[test]
fn ere_smol_self_equality() {
    let mut cipher = Cipher::new(2, 16, EQUALITY, &ere_key()).unwrap();

    let n12 = cipher.full_encrypt(&PlainText::new(vec![0u16, 12])).unwrap();

    assert_eq!(0, n12.compare(&n12).unwrap());
}

#[test]
fn ere_smol_equality() {
    let mut cipher = Cipher::new(2, 16, EQUALITY, &ere_key()).unwrap();

    let n12_1 = cipher.full_encrypt(&PlainText::new(vec![0u16, 12])).unwrap();
    let n12_2 = cipher.full_encrypt(&PlainText::new(vec![0u16, 12])).unwrap();

    assert_eq!(0, n12_1.compare(&n12_2).unwrap());
    assert_eq!(0, n12_2.compare(&n12_1).unwrap());
}

#[test]
fn ere_smol_inequality() {
    let mut cipher = Cipher::new(2, 16, EQUALITY, &ere_key()).unwrap();

    let n1 = cipher.full_encrypt(&PlainText::new(vec![0u16, 1])).unwrap();
    let n2 = cipher.full_encrypt(&PlainText::new(vec![0u16, 2])).unwrap();

    assert_eq!(1, n1.compare(&n2).unwrap());
    assert_eq!(1, n2.compare(&n1).unwrap());
}

#[test]
fn ere_big_diff_energy() {
    let mut cipher = Cipher::new(8, 256, EQUALITY, &ere_key()).unwrap();

    let n1 = cipher.full_encrypt(&PlainText::from_uint(8, 256, 1).unwrap()).unwrap();
    let n2 = cipher
        .full_encrypt(&PlainText::from_uint(8, 256, 372_363_178_678_738_176).unwrap())
        .unwrap();

    assert_eq!(1, n1.compare(&n2).unwrap());
    assert_eq!(1, n2.compare(&n1).unwrap());
}

#[test]
fn ere_u64_compare_samples() {
    let mut cipher = Cipher::new(8, 256, EQUALITY, &ere_key()).unwrap();
    let samples: [u64; 6] = [0, 1, 255, 256, 31_337, u64::MAX];
    for a in samples.iter() {
        for b in samples.iter() {
            let ca = cipher.full_encrypt(&PlainText::from_uint(8, 256, *a as u128).unwrap()).unwrap();
            let cb = cipher.full_encrypt(&PlainText::from_uint(8, 256, *b as u128).unwrap()).unwrap();
            let expected = if a == b { 0 } else { 1 };
            assert_eq!(expected, ca.compare(&cb).unwrap());
            assert_eq!(a == b, ca == cb);
        }
    }
}
