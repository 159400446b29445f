use riffle::bitfield::BitField;

fn iter_count(bf: &BitField) -> usize {
    let mut it = bf.iter();
    let mut n = 0;
    while let Some(_) = it.next() {
        n += 1;
    }
    n
}

fn iter_set_count(bf: &BitField) -> usize {
    let mut it = bf.iter();
    let mut n = 0;
    while let Some(b) = it.next() {
        if b {
            n += 1;
        }
    }
    n
}

#[test]
fn test_bitfield() {
    let mut bitfield = BitField::new(10);
    assert_eq!(bitfield.len(), 10);
    assert_eq!(iter_count(&bitfield), 10);
    assert_eq!(iter_set_count(&bitfield), 0);

    bitfield.set(0);
    assert_eq!(iter_set_count(&bitfield), 1);

    bitfield.set(9);
    assert_eq!(iter_set_count(&bitfield), 2);

    bitfield.set(5);
    assert_eq!(iter_set_count(&bitfield), 3);

    bitfield.set(5);
    assert_eq!(iter_set_count(&bitfield), 3);

    bitfield.clear(5);
    assert_eq!(iter_set_count(&bitfield), 2);

    bitfield.clear(9);
    assert_eq!(iter_set_count(&bitfield), 1);
}

#[test]
fn set_then_clear_leaves_others() {
    let mut bf = BitField::new(12);
    bf.set(3);
    bf.set(7);
    bf.set(7);
    bf.clear(7);
    assert!(!bf.get(7));
    assert!(bf.get(3));
    for i in 0..12 {
        if i != 3 {
            assert!(!bf.get(i));
        }
    }
    assert_eq!(bf.len(), 12);
}

#[test]
fn count_set_matches_bits() {
    let mut bf = BitField::new(17);
    assert_eq!(bf.count_set(), 0);
    bf.set(0);
    bf.set(8);
    bf.set(16);
    assert_eq!(bf.count_set(), 3);
    bf.clear(8);
    assert_eq!(bf.count_set(), 2);
}

#[test]
fn wire_round_trip() {
    let mut bf = BitField::new(10);
    bf.set(0);
    bf.set(9);
    let bytes = bf.to_bytes();
    assert_eq!(bytes, vec![0x80u8, 0x40u8]);
    let back = BitField::from_bytes(&bytes, 10);
    for i in 0..10 {
        assert_eq!(back.get(i), bf.get(i));
    }
}

#[test]
fn from_bytes_ignores_spare_bits() {
    let bytes = vec![0xffu8, 0xffu8];
    let bf = BitField::from_bytes(&bytes, 10);
    assert_eq!(bf.len(), 10);
    for i in 0..10 {
        assert!(bf.get(i));
    }
    let packed = bf.to_bytes();
    assert_eq!(packed, vec![0xffu8, 0xc0u8]);
}

#[test]
fn empty_bitfield() {
    let bf = BitField::new(0);
    assert_eq!(bf.len(), 0);
    assert_eq!(bf.count_set(), 0);
    assert!(bf.to_bytes().is_empty());
    let mut it = bf.iter();
    assert!(it.next().is_none());
}
