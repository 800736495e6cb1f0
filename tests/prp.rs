use cretrit::kbkdf::{KBKDFInit, CMACAES256};
use cretrit::prp::{PseudoRandomPermutation, PseudoRandomPermutationInit, RandShufflePRP};
use cretrit::Error;

fn zero_kdf() -> CMACAES256 {
    CMACAES256::new(&[0u8; 32]).unwrap()
}

#[test]
fn small_shuffle_isnt_a_sequential_list() {
    let prp = RandShufflePRP::new(16, &zero_kdf()).unwrap();

    assert!(!(0..16).all(|i| prp.value(i).unwrap() == i));
}

#[test]
fn small_shuffle_round_trips_correctly() {
    let prp = RandShufflePRP::new(16, &zero_kdf()).unwrap();

    for i in 0..16 {
        assert_eq!(i, prp.inverse(prp.value(i).unwrap()).unwrap());
    }
}

#[test]
fn shuffle_is_a_permutation_and_deterministic() {
    let a = RandShufflePRP::new(256, &zero_kdf()).unwrap();
    let b = RandShufflePRP::new(256, &zero_kdf()).unwrap();
    let mut seen = vec![false; 256];
    for i in 0..256u16 {
        let v = a.value(i).unwrap();
        assert!(!seen[v as usize]);
        seen[v as usize] = true;
        assert_eq!(v, b.value(i).unwrap());
        assert_eq!(i, a.value(a.inverse(i).unwrap()).unwrap());
    }
    let c = RandShufflePRP::new(256, &CMACAES256::new(&[1u8; 32]).unwrap()).unwrap();
    assert!(!(0..256u16).all(|i| a.value(i).unwrap() == c.value(i).unwrap()));
}

#[test]
fn shuffle_rejects_out_of_range() {
    let prp = RandShufflePRP::new(16, &zero_kdf()).unwrap();
    assert!(matches!(prp.value(16), Err(Error::RangeError(_))));
    assert!(matches!(prp.inverse(16), Err(Error::RangeError(_))));
}
