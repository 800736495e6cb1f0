use cretrit::{Error, PlainText};

#[test]
fn plaintext_zero() {
    assert_eq!(vec![0u16; 4], PlainText::from_uint(4, 256, 0u32 as u128).unwrap().0);
    assert_eq!(vec![0u16], PlainText::from_uint(1, 256, 0u8 as u128).unwrap().0);
}

#[test]
fn zero() {
    assert_eq!(vec![0u16; 8], PlainText::from_uint(8, 256, 0u64 as u128).unwrap().0);
}

#[test]
fn plaintext_tiny() {
    assert_eq!(vec![0u16, 0, 0, 42], PlainText::from_uint(4, 256, 42u32 as u128).unwrap().0);
    assert_eq!(vec![42u16], PlainText::from_uint(1, 256, 42u8 as u128).unwrap().0);
}

#[test]
fn tiny() {
    assert_eq!(
        vec![0u16, 0, 0, 0, 0, 0, 0, 42],
        PlainText::from_uint(8, 256, 42u64 as u128).unwrap().0
    );
}

#[test]
fn plaintext_smol() {
    assert_eq!(vec![0u16, 0, 91, 42], PlainText::from_uint(4, 256, 23_338u32 as u128).unwrap().0);
}

#[test]
fn smol() {
    assert_eq!(
        vec![0u16, 0, 0, 0, 0, 0, 91, 42],
        PlainText::from_uint(8, 256, 23_338u64 as u128).unwrap().0
    );
}

#[test]
fn plaintext_yuuuge() {
    assert_eq!(
        vec![4u16, 3, 2, 1],
        PlainText::from_uint(4, 256, 67_305_985u32 as u128).unwrap().0
    );
}

#[test]
fn yuuuge() {
    assert_eq!(
        vec![8u16, 7, 6, 5, 4, 3, 2, 1],
        PlainText::from_uint(8, 256, 578_437_695_752_307_201u64 as u128).unwrap().0
    );
}

#[test]
fn one() {
    assert_eq!(
        vec![0u16, 0, 0, 0, 0, 0, 0, 1],
        PlainText::from_uint(8, 256, 1u64 as u128).unwrap().0
    );
}

#[test]
fn from_true() {
    assert_eq!(vec![1u16; 1], PlainText::from_bool(1, 2, true).unwrap().0);
}

#[test]
fn from_false() {
    assert_eq!(vec![0u16], PlainText::from_bool(1, 2, false).unwrap().0);
}

#[test]
fn plaintext_too_large_is_a_range_error() {
    assert!(matches!(PlainText::from_uint(4, 256, 1u128 << 32), Err(Error::RangeError(_))));
    assert!(PlainText::from_uint(4, 256, (1u128 << 32) - 1).is_ok());
    assert!(matches!(PlainText::from_uint(1, 4, 4), Err(Error::RangeError(_))));
    assert_eq!(vec![3u16], PlainText::from_uint(1, 4, 3).unwrap().0);
}

#[test]
fn plaintext_other_bases() {
    assert_eq!(vec![1u16, 0, 2], PlainText::from_uint(3, 10, 102).unwrap().0);
    assert_eq!(vec![0u16, 12], PlainText::from_uint(2, 16, 12).unwrap().0);
    assert_eq!(vec![1u16, 1, 0, 1], PlainText::from_uint(4, 2, 13).unwrap().0);
    assert_eq!(Vec::<u16>::new(), PlainText::from_uint(0, 256, 0).unwrap().0);
    assert!(PlainText::from_uint(0, 256, 1).is_err());
    assert_eq!(
        vec![65_534u16, 65_534],
        PlainText::from_uint(2, 65_535, 65_535u128 * 65_535 - 1).unwrap().0
    );
}

#[test]
fn plaintext_block_access() {
    let p = PlainText::new(vec![7u16, 9]);
    assert_eq!(7, p.block(0).unwrap());
    assert_eq!(9, p.block(1).unwrap());
    assert!(matches!(p.block(2), Err(Error::RangeError(_))));
}
