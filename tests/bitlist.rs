use cretrit::{ReadableBitList, WritableBitList};

#[test]
fn micro_push() {
    let mut bl = WritableBitList::new(1);

    bl.push(true).unwrap();
    bl.push(false).unwrap();
    bl.push(true).unwrap();
    bl.push(false).unwrap();
    bl.push(true).unwrap();

    assert_eq!(vec![0x15u8], bl.vec());
}

#[test]
fn smol_push() {
    let mut bl = WritableBitList::new(1);

    for _ in 0..4 {
        bl.push(false).unwrap();
    }
    bl.push(true).unwrap();
    for _ in 0..3 {
        bl.push(false).unwrap();
    }
    bl.push(true).unwrap();
    for _ in 0..12 {
        bl.push(false).unwrap();
    }

    assert_eq!(vec![0x10u8, 0x01, 0x00], bl.vec());
}

#[test]
fn micro_shift() {
    let mut bl = ReadableBitList::from_slice(&vec![0x15u8]);

    assert_eq!(Some(true), bl.shift());
    assert_eq!(Some(false), bl.shift());
    assert_eq!(Some(true), bl.shift());
    assert_eq!(Some(false), bl.shift());
    assert_eq!(Some(true), bl.shift());
    assert_eq!(Some(false), bl.shift());
    assert_eq!(Some(false), bl.shift());
    assert_eq!(Some(false), bl.shift());
    assert_eq!(None, bl.shift());
}

#[test]
fn smol_shift() {
    let mut bl = ReadableBitList::from_slice(&vec![0x10u8, 0x01, 0x00]);

    for _ in 0..4 {
        assert_eq!(Some(false), bl.shift());
    }
    assert_eq!(Some(true), bl.shift());
    for _ in 0..3 {
        assert_eq!(Some(false), bl.shift());
    }
    assert_eq!(Some(true), bl.shift());
    for _ in 0..12 {
        assert_eq!(Some(false), bl.shift());
    }
    for _ in 0..3 {
        assert_eq!(Some(false), bl.shift());
    }
    assert_eq!(None, bl.shift());
}

#[test]
fn bitlist_round_trip_and_consumption() {
    let bits = [true, true, false, true, false, false, true, true, true, false, true];
    let mut w = WritableBitList::new(bits.len());
    for b in bits.iter() {
        w.push(*b).unwrap();
    }
    let bytes = w.vec();
    assert_eq!(2, bytes.len());
    let mut r = ReadableBitList::from_slice(&bytes);
    for (i, b) in bits.iter().enumerate() {
        assert_eq!(i > 8, r.fully_consumed());
        assert_eq!(Some(*b), r.shift());
    }
    assert!(r.fully_consumed());
}

#[test]
fn empty_bitlist_is_consumed() {
    let w = WritableBitList::new(0);
    assert!(w.vec().is_empty());
    let mut r = ReadableBitList::from_slice(&[]);
    assert!(r.fully_consumed());
    assert_eq!(None, r.shift());
}
