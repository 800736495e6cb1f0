use cretrit::hash::{HashFunction, CMACAES128HF};
use cretrit::kbkdf::{KBKDFInit, CMACAES256};
use cretrit::prf::{PseudoRandomFunction, PseudoRandomFunctionInit, AES128PRF};
use cretrit::Error;

#[test]
fn prf_is_keyed_and_not_the_identity() {
    let kdf = CMACAES256::new(&[4u8; 32]).unwrap();
    let prf = AES128PRF::new(&kdf).unwrap();
    let input = [0u8, 5, 0, 0, 0, 0, 0, 0, 0, 0, 0, 0, 0, 0, 0, 0];
    let out = prf.randomise(5);
    assert_ne!(input, out);
    assert_eq!(out, prf.randomise(5));
    assert_ne!(out, prf.randomise(6));
    let other = AES128PRF::new(&CMACAES256::new(&[5u8; 32]).unwrap()).unwrap();
    assert_ne!(out, other.randomise(5));
}

#[test]
fn hash_is_small_and_deterministic() {
    let key = [1u8; 16];
    let input = [2u8; 16];
    let h3 = CMACAES128HF::hash(3, &key, &input).unwrap();
    assert!(h3 < 3);
    assert_eq!(h3, CMACAES128HF::hash(3, &key, &input).unwrap());
    let h128 = CMACAES128HF::hash(128, &key, &input).unwrap();
    assert_eq!(h128 % 2, CMACAES128HF::hash(2, &key, &input).unwrap());
    assert!(matches!(CMACAES128HF::hash(0, &key, &input), Err(Error::RangeError(_))));
}
