use cretrit::kbkdf::{KBKDFInit, CMACAES128, CMACAES256, KBKDF, MAX_DERIVED_LEN};
use cretrit::Error;

fn unhex(s: &str) -> Vec<u8> {
    let digits: Vec<u8> = s
        .chars()
        .filter(|c| c.is_ascii_hexdigit())
        .map(|c| c.to_digit(16).unwrap() as u8)
        .collect();
    digits.chunks(2).map(|p| p[0] * 16 + p[1]).collect()
}

fn test_root_key() -> [u8; 32] {
    let mut k = [0u8; 32];
    k.copy_from_slice(&unhex(
        "d742ccd1 686b7bce af5d4183 06efe6d6 fe6e4a1d c73a7ef4 3c8f16fb c07c8999",
    ));
    k
}

#[test]
fn derive_short_subkey() {
    let subkey = CMACAES256::new(&test_root_key()).unwrap().derive_key(4, b"testing").unwrap();

    assert_eq!(unhex("3ba5490a"), subkey);
}

#[test]
fn derive_one_block_subkey() {
    let subkey = CMACAES256::new(&test_root_key()).unwrap().derive_key(16, b"blocktest").unwrap();

    assert_eq!(unhex("58844a69 d2e3d790 86770ea1 2fe70c0e"), subkey);
}

#[test]
fn derive_multiblock_subkey() {
    let subkey =
        CMACAES256::new(&test_root_key()).unwrap().derive_key(128, b"yugeblocktest").unwrap();

    assert_eq!(
        unhex(
            "feecb570 6fb7c2b7 7d4c05e3 6f379363 6e8eee75 30986d21 fda0173b e4bab445
             f7722e79 5b495cae bc3b19f1 fa49b5c5 f35feda0 b2745f42 40706454 58e52c7e
             77b46fb1 704f0b59 5961bb13 da9adcc2 9c24e1f7 e7577a17 76485614 0b94dcaf
             57790515 81eee28c 97a5b3f7 a377e10d 43553cfb b245dacf 097818f8 bd28c218"
        ),
        subkey
    );
}

#[test]
fn derive_odd_sized_subkey() {
    let subkey = CMACAES256::new(&test_root_key()).unwrap().derive_key(39, b"oddbod").unwrap();

    assert_eq!(
        unhex("cbec9336 64d9230e 975be577 8cc185ec d359e69e 7c4f7020 368146da 154f15e8 630c7d44 720d61"),
        subkey
    );
}

#[test]
fn different_keys_produce_different_subkeys() {
    let k1 = [0u8; 32];
    let k2 = [1u8; 32];
    let id = b"subkey_id";

    let sk1 = CMACAES256::new(&k1).unwrap().derive_key(32, id).unwrap();
    let sk2 = CMACAES256::new(&k2).unwrap().derive_key(32, id).unwrap();

    assert_ne!(sk1, sk2);

    assert_ne!(k1.to_vec(), sk1);
    assert_ne!(k1.to_vec(), sk2);
    assert_ne!(k2.to_vec(), sk1);
    assert_ne!(k2.to_vec(), sk2);
}

#[test]
fn derivation_is_deterministic_and_prefix_stable() {
    let kdf = CMACAES256::new(&test_root_key()).unwrap();
    let a = kdf.derive_key(39, b"oddbod").unwrap();
    let b = kdf.derive_key(39, b"oddbod").unwrap();
    assert_eq!(a, b);
    let long = kdf.derive_key(64, b"oddbod").unwrap();
    assert_eq!(&long[..39], &a[..]);
    let other = kdf.derive_key(39, b"oddbot").unwrap();
    assert_ne!(a, other);
    assert!(kdf.derive_key(0, b"x").unwrap().is_empty());
}

#[test]
fn derivation_length_limit() {
    let kdf = CMACAES128::new(&[7u8; 16]).unwrap();
    assert!(matches!(kdf.derive_key(MAX_DERIVED_LEN + 1, b"x"), Err(Error::KeyError(_))));
    assert_eq!(16, kdf.derive_key(16, b"x").unwrap().len());
    let wide = CMACAES256::new(&[7u8; 32]).unwrap();
    assert_ne!(wide.derive_key(16, b"x").unwrap(), kdf.derive_key(16, b"x").unwrap());
}
