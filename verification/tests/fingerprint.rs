use cuckoo_filter::Fingerprint;

#[test]
fn u16_uses_full_width() {
    // a hash with high byte set in its low 16 bits must survive
    assert_eq!(<u16 as Fingerprint>::from_hash(0xAB00), 0xAB00);
    assert_eq!(<u8 as Fingerprint>::from_hash(0xAB00), 1); // low byte 0 -> bumped
}

#[test]
fn fingerprint_is_never_empty() {
    for h in 0..200_000u64 {
        assert_ne!(<u8 as Fingerprint>::from_hash(h), u8::EMPTY);
        assert_ne!(<u16 as Fingerprint>::from_hash(h), u16::EMPTY);
    }
    assert_eq!(<u16 as Fingerprint>::from_hash(0x1_0000), 1);
}

#[test]
fn fingerprint_ignores_high_bits() {
    assert_eq!(<u8 as Fingerprint>::from_hash(0xFFFF_FFFF_0000_1234), 0x34);
    assert_eq!(<u16 as Fingerprint>::from_hash(0xFFFF_FFFF_0000_1234), 0x1234);
}

#[test]
fn fingerprints_are_written_little_endian() {
    let mut buf: Vec<u8> = vec![9];
    0x12u8.write_le(&mut buf);
    0xAB01u16.write_le(&mut buf);
    assert_eq!(buf, vec![9, 0x12, 0x01, 0xAB]);
    assert_eq!(0xAB01u16.to_u64(), 0xAB01);
    assert_eq!(0x12u8.to_u64(), 0x12);
}

#[test]
fn fingerprints_are_read_back() {
    let bytes = [9, 0x12, 0x01, 0xAB];
    let mut pos = 1;
    assert_eq!(<u8 as Fingerprint>::read_le(&bytes, &mut pos), 0x12);
    assert_eq!(pos, 2);
    assert_eq!(<u16 as Fingerprint>::read_le(&bytes, &mut pos), 0xAB01);
    assert_eq!(pos, 4);
}

#[test]
fn widths() {
    assert_eq!(<u8 as Fingerprint>::BITS, 8);
    assert_eq!(<u16 as Fingerprint>::BITS, 16);
}
