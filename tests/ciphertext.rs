use cretrit::ciphertext::Serializable;
use cretrit::{Cipher, CipherText, Error, PlainText, EQUALITY, ORDERING};
use rand::Rng;

fn ct_key() -> [u8; 32] {
    let mut k: [u8; 32] = Default::default();
    rand::thread_rng().fill(&mut k);
    k
}

fn pt(n: usize, w: u16, v: u128) -> PlainText {
    PlainText::from_uint(n, w, v).unwrap()
}

#[test]
fn full_ciphertext_has_left() {
    let mut cipher = Cipher::new(8, 256, EQUALITY, &ct_key()).unwrap();
    let n = cipher.full_encrypt(&pt(8, 256, 31_337)).unwrap();
    assert!(n.has_left());
}

#[test]
fn right_ciphertext_does_not_have_left() {
    let mut cipher = Cipher::new(8, 256, EQUALITY, &ct_key()).unwrap();
    let n = cipher.right_encrypt(&pt(8, 256, 31_337)).unwrap();
    assert!(!n.has_left());
}

#[test]
fn binary_full_ciphertext_roundtrips_correctly() {
    let mut cipher = Cipher::new(8, 256, EQUALITY, &ct_key()).unwrap();
    let n = cipher.full_encrypt(&pt(8, 256, 31_337)).unwrap();
    let v = n.to_vec().unwrap();
    let n_rt = CipherText::from_slice(&v, 8, 256, EQUALITY).unwrap();
    assert_eq!(n, n_rt);
    assert_eq!(n_rt, n);
}

#[test]
fn binary_right_ciphertext_roundtrips_correctly() {
    let mut cipher = Cipher::new(8, 256, EQUALITY, &ct_key()).unwrap();
    let n1 = cipher.full_encrypt(&pt(8, 256, 31_337)).unwrap();
    let n2 = cipher.right_encrypt(&pt(8, 256, 31_337)).unwrap();
    let v = n2.to_vec().unwrap();
    let n2_rt = CipherText::from_slice(&v, 8, 256, EQUALITY).unwrap();
    assert_eq!(n1, n2_rt);
}

fn encode(n: usize, w: u16, m: u8, full: bool, value: u128) -> Vec<u8> {
    let mut cipher = Cipher::new(n, w, m, &ct_key()).unwrap();
    let c = if full {
        cipher.full_encrypt(&pt(n, w, value)).unwrap()
    } else {
        cipher.right_encrypt(&pt(n, w, value)).unwrap()
    };
    c.to_vec().unwrap()
}

#[test]
fn ciphertext_cannot_deserialise_full_ciphertext_with_smaller_chunk_count() {
    for m in [EQUALITY, ORDERING] {
        let v = encode(4, 256, m, true, 31_337);
        assert!(CipherText::from_slice(&v, 8, 256, m).is_err());
    }
}

#[test]
fn ciphertext_cannot_deserialise_full_ciphertext_with_larger_chunk_count() {
    for m in [EQUALITY, ORDERING] {
        let v = encode(8, 256, m, true, 31_337);
        assert!(CipherText::from_slice(&v, 4, 256, m).is_err());
    }
}

#[test]
fn ciphertext_cannot_deserialise_full_ciphertext_with_smaller_chunk_width() {
    for m in [EQUALITY, ORDERING] {
        let v = encode(4, 16, m, true, 42);
        assert!(CipherText::from_slice(&v, 4, 256, m).is_err());
    }
}

#[test]
fn ciphertext_cannot_deserialise_full_ciphertext_with_larger_chunk_width() {
    for m in [EQUALITY, ORDERING] {
        let v = encode(4, 256, m, true, 42);
        assert!(CipherText::from_slice(&v, 4, 16, m).is_err());
    }
}

#[test]
fn ciphertext_cannot_deserialise_right_ciphertext_with_smaller_chunk_count() {
    for m in [EQUALITY, ORDERING] {
        let v = encode(4, 256, m, false, 31_337);
        assert!(CipherText::from_slice(&v, 8, 256, m).is_err());
    }
}

#[test]
fn ciphertext_cannot_deserialise_right_ciphertext_with_larger_chunk_count() {
    for m in [EQUALITY, ORDERING] {
        let v = encode(8, 256, m, false, 31_337);
        assert!(CipherText::from_slice(&v, 4, 256, m).is_err());
    }
}

#[test]
fn ciphertext_cannot_deserialise_right_ciphertext_with_smaller_chunk_width() {
    for m in [EQUALITY, ORDERING] {
        let v = encode(4, 16, m, false, 42);
        assert!(CipherText::from_slice(&v, 4, 256, m).is_err());
    }
}

#[test]
fn ciphertext_cannot_deserialise_right_ciphertext_with_larger_chunk_width() {
    for m in [EQUALITY, ORDERING] {
        let v = encode(4, 256, m, false, 42);
        assert!(CipherText::from_slice(&v, 4, 16, m).is_err());
    }
}

#[test]
fn trinary_full_ciphertext_roundtrips_correctly() {
    let mut cipher = Cipher::new(8, 256, ORDERING, &ct_key()).unwrap();
    let n1 = cipher.full_encrypt(&pt(8, 256, 42)).unwrap();
    let n2 = cipher.full_encrypt(&pt(8, 256, 31_337)).unwrap();
    let v1 = n1.to_vec().unwrap();
    let v2 = n2.to_vec().unwrap();
    let n1_rt = CipherText::from_slice(&v1, 8, 256, ORDERING).unwrap();
    let n2_rt = CipherText::from_slice(&v2, 8, 256, ORDERING).unwrap();
    assert!(n1 == n1_rt);
    assert!(n2 == n2_rt);
    assert!(n1 < n2_rt);
    assert!(n2 > n1_rt);
    assert!(n1_rt == n1);
    assert!(n2_rt == n2);
    assert!(n1_rt < n2);
    assert!(n2_rt > n1);
}

#[test]
fn trinary_right_ciphertext_roundtrips_correctly() {
    let mut cipher = Cipher::new(8, 256, ORDERING, &ct_key()).unwrap();
    let n1f = cipher.full_encrypt(&pt(8, 256, 42)).unwrap();
    let n1r = cipher.right_encrypt(&pt(8, 256, 42)).unwrap();
    let v1r = n1r.to_vec().unwrap();
    let n1r_rt = CipherText::from_slice(&v1r, 8, 256, ORDERING).unwrap();
    let n2f = cipher.full_encrypt(&pt(8, 256, 31_337)).unwrap();
    let n2r = cipher.right_encrypt(&pt(8, 256, 31_337)).unwrap();
    let v2r = n2r.to_vec().unwrap();
    let n2r_rt = CipherText::from_slice(&v2r, 8, 256, ORDERING).unwrap();
    assert!(n1f == n1r_rt);
    assert!(n2f == n2r_rt);
    assert!(n1f < n2r_rt);
    assert!(n2f > n1r_rt);
}

#[test]
fn serialised_bytes_round_trip_exactly() {
    for m in [EQUALITY, ORDERING] {
        for full in [true, false] {
            let v = encode(4, 256, m, full, 9_001);
            let c = CipherText::from_slice(&v, 4, 256, m).unwrap();
            assert_eq!(v, c.to_vec().unwrap());
            assert_eq!(full, c.has_left());
        }
    }
}

#[test]
fn serialised_layout() {
    let v = encode(4, 256, EQUALITY, true, 1);
    assert_eq!(1, v[0]);
    assert_eq!([0u8, 68], [v[1], v[2]]);
    assert_eq!([0u8, 144], [v[71], v[72]]);
    assert_eq!(73 + 144, v.len());
    let r = encode(4, 256, EQUALITY, false, 1);
    assert_eq!(0, r[0]);
    assert_eq!([0u8, 144], [r[1], r[2]]);
    assert_eq!(3 + 144, r.len());
    let wide = encode(2, 300, EQUALITY, true, 1);
    assert_eq!([0u8, 36], [wide[1], wide[2]]);
}

#[test]
fn malformed_bytes_are_parse_errors() {
    let v = encode(2, 16, ORDERING, true, 200);
    assert!(matches!(CipherText::from_slice(&[], 2, 16, ORDERING), Err(Error::ParseError(_))));
    let mut bad_type = v.clone();
    bad_type[0] = 2;
    assert!(matches!(CipherText::from_slice(&bad_type, 2, 16, ORDERING), Err(Error::ParseError(_))));
    for cut in [1usize, 2, 3, 10, v.len() - 1] {
        assert!(matches!(CipherText::from_slice(&v[..cut], 2, 16, ORDERING), Err(Error::ParseError(_))));
    }
    let mut longer = v.clone();
    longer.push(0);
    assert!(matches!(CipherText::from_slice(&longer, 2, 16, ORDERING), Err(Error::ParseError(_))));
    assert!(matches!(CipherText::from_slice(&v, 2, 16, 4), Err(Error::ParseError(_))));
    let e = encode(1, 4, EQUALITY, false, 3);
    assert_eq!(3 + 16 + 1, e.len());
    let mut padded = e.clone();
    let last = padded.len() - 1;
    padded[last] |= 0x80;
    let from_padded = CipherText::from_slice(&padded, 1, 4, EQUALITY).unwrap();
    assert_eq!(e, from_padded.to_vec().unwrap());
    assert!(CipherText::from_slice(&e, 1, 4, EQUALITY).is_ok());
}

#[test]
fn comparison_errors() {
    let mut cipher = Cipher::new(2, 16, ORDERING, &ct_key()).unwrap();
    let full = cipher.full_encrypt(&pt(2, 16, 5)).unwrap();
    let right = cipher.right_encrypt(&pt(2, 16, 5)).unwrap();
    assert!(matches!(right.compare(&full), Err(Error::ComparisonError(_))));
    assert!(matches!(right.compare(&right), Err(Error::ComparisonError(_))));
    assert_eq!(0, full.compare(&right).unwrap());
    let mut other = Cipher::new(4, 16, ORDERING, &ct_key()).unwrap();
    let wider = other.full_encrypt(&pt(4, 16, 5)).unwrap();
    assert!(matches!(full.compare(&wider), Err(Error::ComparisonError(_))));
    assert!(right != right);
    assert_eq!(None, right.partial_cmp(&right));
}

#[test]
fn right_only_compares_as_its_value() {
    let mut cipher = Cipher::new(2, 16, ORDERING, &ct_key()).unwrap();
    let five = cipher.full_encrypt(&pt(2, 16, 5)).unwrap();
    let nine_right = cipher.right_encrypt(&pt(2, 16, 9)).unwrap();
    let five_right = cipher.right_encrypt(&pt(2, 16, 5)).unwrap();
    assert!(five < nine_right);
    assert!(nine_right > five);
    assert!(five_right == five);
    assert!(five == five_right);
    assert_eq!(1, five.compare(&nine_right).unwrap());
    let mut eq_cipher = Cipher::new(2, 16, EQUALITY, &ct_key()).unwrap();
    let a = eq_cipher.full_encrypt(&pt(2, 16, 5)).unwrap();
    let b = eq_cipher.right_encrypt(&pt(2, 16, 5)).unwrap();
    let c = eq_cipher.right_encrypt(&pt(2, 16, 6)).unwrap();
    assert!(a == b && b == a);
    assert!(a != c && c != a);
}
