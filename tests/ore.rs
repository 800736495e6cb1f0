use cretrit::{Cipher, PlainText, ORDERING};
use rand::Rng;

fn ore_key() -> [u8; 32] {
    let mut k: [u8; 32] = Default::default();
    rand::thread_rng().fill(&mut k);
    k
}

#[test]
fn ore_tiny_self_equality() {
    let mut cipher = Cipher::new(1, 4, ORDERING, &ore_key()).unwrap();

    let n = cipher.full_encrypt(&PlainText::new(vec![2u16])).unwrap();

    assert_eq!(0, n.compare(&n).unwrap());
}

#[test]
fn ore_tiny_equality() {
    let mut cipher = Cipher::new(1, 4, ORDERING, &ore_key()).unwrap();

    let n2_1 = cipher.full_encrypt(&PlainText::new(vec![2u16])).unwrap();
    let n2_2 = cipher.full_encrypt(&PlainText::new(vec![2u16])).unwrap();

    assert_eq!(0, n2_1.compare(&n2_2).unwrap());
    assert_eq!(0, n2_2.compare(&n2_1).unwrap());
}

#[test]
fn ore_tiny_inequality() {
    let mut cipher = Cipher::new(1, 4, ORDERING, &ore_key()).unwrap();

    let n1 = cipher.full_encrypt(&PlainText::new(vec![1u16])).unwrap();
    let n2 = cipher.full_encrypt(&PlainText::new(vec![2u16])).unwrap();

    assert_eq!(1, n1.compare(&n2).unwrap());
    assert_eq!(2, n2.compare(&n1).unwrap());
}

#[test]
fn ore_smol_self_equality() {
    let mut cipher = Cipher::new(2, 16, ORDERING, &ore_key()).unwrap();

    let n12 = cipher.full_encrypt(&PlainText::new(vec![0u16, 12])).unwrap();

    assert_eq!(0, n12.compare(&n12).unwrap());
}

#[test]
fn ore_smol_equality() {
    let mut cipher = Cipher::new(2, 16, ORDERING, &ore_key()).unwrap();

    let n12_1 = cipher.full_encrypt(&PlainText::new(vec![0u16, 12])).unwrap();
    let n12_2 = cipher.full_encrypt(&PlainText::new(vec![0u16, 12])).unwrap();

    assert_eq!(0, n12_1.compare(&n12_2).unwrap());
    assert_eq!(0, n12_2.compare(&n12_1).unwrap());
}

#[test]
fn ore_smol_inequality() {
    let mut cipher = Cipher::new(2, 16, ORDERING, &ore_key()).unwrap();

    let n1 = cipher.full_encrypt(&PlainText::new(vec![0u16, 1])).unwrap();
    let n2 = cipher.full_encrypt(&PlainText::new(vec![0u16, 2])).unwrap();

    assert_eq!(1, n1.compare(&n2).unwrap());
    assert_eq!(2, n2.compare(&n1).unwrap());
}

#[test]
fn ore_big_diff_energy() {
    let mut cipher = Cipher::new(8, 256, ORDERING, &ore_key()).unwrap();

    let n1 = cipher.full_encrypt(&PlainText::from_uint(8, 256, 1).unwrap()).unwrap();
    let n2 = cipher
        .full_encrypt(&PlainText::from_uint(8, 256, 372_363_178_678_738_176).unwrap())
        .unwrap();

    assert_eq!(1, n1.compare(&n2).unwrap());
    assert_eq!(2, n2.compare(&n1).unwrap());
}

#[test]
fn ore_u32_compare_samples() {
    let mut cipher = Cipher::new(4, 256, ORDERING, &ore_key()).unwrap();
    let samples: [u32; 7] = [0, 1, 42, 255, 256, 9_001, u32::MAX];
    for a in samples.iter() {
        for b in samples.iter() {
            let ca = cipher.full_encrypt(&PlainText::from_uint(4, 256, *a as u128).unwrap()).unwrap();
            let cb = cipher.full_encrypt(&PlainText::from_uint(4, 256, *b as u128).unwrap()).unwrap();
            let expected = match a.cmp(b) {
                std::cmp::Ordering::Equal => 0,
                std::cmp::Ordering::Less => 1,
                std::cmp::Ordering::Greater => 2,
            };
            assert_eq!(expected, ca.compare(&cb).unwrap());
            assert_eq!(Some(a.cmp(b)), ca.partial_cmp(&cb));
        }
    }
}
