use cuckoo_filter::format::{read_32, read_64, read_bytes};
use cuckoo_filter::{Filter, ImportError};

const KEY: [u8; 16] = [0, 1, 2, 3, 4, 5, 6, 7, 8, 9, 10, 11, 12, 13, 14, 15];

const NUM_ITEMS: usize = 4;
const BUCKET_COUNT: usize = 12;
const BUCKET_SIZE: usize = 20;
const VICTIM_FLAG: usize = 48;
const VICTIM_BUCKET: usize = 49;
const VICTIM_FP: usize = 57;
const TABLE: usize = 58;

fn with_victim() -> Filter<u8> {
    let mut f: Filter<u8> = Filter::with_seed(2, 1, 5, KEY);
    assert!(f.insert_at(0, 1, 3).is_ok());
    assert!(f.insert_at(0, 1, 5).is_ok());
    assert!(f.insert_at(0, 1, 7).is_ok());
    f
}

fn without_victim() -> Filter<u8> {
    let mut f: Filter<u8> = Filter::with_seed(2, 2, 5, KEY);
    assert!(f.insert_at(0, 1, 3).is_ok());
    f
}

fn put_64(bytes: &mut Vec<u8>, at: usize, x: u64) {
    bytes[at..at + 8].copy_from_slice(&x.to_le_bytes());
}

fn error_of(bytes: &[u8]) -> ImportError {
    match Filter::<u8>::import(bytes) {
        Ok(_) => panic!("bytes were accepted"),
        Err(e) => e,
    }
}

#[test]
fn exported_bytes() {
    let mut expected: Vec<u8> = vec![0x43, 0x46, 1, 8];
    expected.extend_from_slice(&[3, 0, 0, 0, 0, 0, 0, 0]);
    expected.extend_from_slice(&[2, 0, 0, 0, 0, 0, 0, 0]);
    expected.extend_from_slice(&[1, 0, 0, 0, 0, 0, 0, 0]);
    expected.extend_from_slice(&[5, 0, 0, 0]);
    expected.extend_from_slice(&KEY);
    expected.extend_from_slice(&[1, 1, 0, 0, 0, 0, 0, 0, 0, 5]);
    expected.extend_from_slice(&[3, 7]);
    assert_eq!(with_victim().export(), expected);
}

#[test]
fn exported_bytes_of_wide_fingerprints() {
    let mut f: Filter<u16> = Filter::with_seed(1, 2, 0x0102_0304, KEY);
    assert!(f.insert_at(0, 0, 0xAB01).is_ok());
    let bytes = f.export();
    assert_eq!(bytes.len(), 59 + 4);
    assert_eq!(bytes[3], 16);
    assert_eq!(bytes[28..32], [4, 3, 2, 1]);
    assert_eq!(bytes[48..59], [0; 11]);
    assert_eq!(bytes[59..], [0x01, 0xAB, 0, 0]);
}

#[test]
fn import_reads_back_export() {
    let f = with_victim();
    let bytes = f.export();
    let g = Filter::<u8>::import(&bytes).unwrap();
    assert_eq!(g.table, f.table);
    assert_eq!(g.victim, Some((1, 5)));
    assert_eq!((g.bucket_count, g.bucket_size, g.max_kicks), (2, 1, 5));
    assert_eq!(g.seed, KEY);
    assert_eq!(g.num_items, 3);
    assert_eq!(g.export(), bytes);
}

#[test]
fn import_reads_back_a_large_filter() {
    let mut f: Filter<u16> = Filter::with_seed(128, 4, 100, KEY);
    for n in 0..480u32 {
        let _ = f.insert(&n.to_le_bytes());
    }
    let mut g = Filter::<u16>::import(&f.export()).unwrap();
    assert_eq!(g.export(), f.export());
    for n in 0..1000u32 {
        assert_eq!(f.count(&n.to_le_bytes()), g.count(&n.to_le_bytes()));
    }
    assert_eq!(f.delete(&[1, 0, 0, 0]), g.delete(&[1, 0, 0, 0]));
    assert_eq!(g.export(), f.export());
}

#[test]
fn export_of_other_parameters_is_not_read() {
    let f: Filter<u8> = Filter::with_seed(3, 1, 5, KEY);
    assert!(matches!(error_of(&f.export()), ImportError::InvalidBucketCount));
    let f: Filter<u8> = Filter::with_seed(1, 0, 5, KEY);
    assert!(matches!(error_of(&f.export()), ImportError::InvalidBucketSize));
    let f: Filter<u8> = Filter::with_seed(1, 256, 5, KEY);
    assert!(matches!(error_of(&f.export()), ImportError::BucketSizeTooLarge));
}

#[test]
fn largest_bucket_size_is_read() {
    let f: Filter<u8> = Filter::with_seed(2, 255, 5, KEY);
    assert_eq!(Filter::<u8>::import(&f.export()).unwrap().bucket_size, 255);
}

#[test]
fn too_short() {
    assert!(matches!(error_of(&[]), ImportError::TooShort));
    let bytes = with_victim().export();
    assert!(matches!(error_of(&bytes[..57]), ImportError::TooShort));
    assert!(matches!(error_of(&bytes[..58]), ImportError::SizeMismatch));
}

#[test]
fn bad_magic() {
    for at in 0..2 {
        let mut bytes = with_victim().export();
        bytes[at] = 0;
        assert!(matches!(error_of(&bytes), ImportError::BadMagic));
    }
}

#[test]
fn unsupported_version() {
    let mut bytes = with_victim().export();
    bytes[2] = 2;
    assert!(matches!(error_of(&bytes), ImportError::UnsupportedVersion(2)));
}

#[test]
fn other_fingerprint_width() {
    let bytes = with_victim().export();
    assert!(matches!(
        Filter::<u16>::import(&bytes),
        Err(ImportError::FpBitsMismatch { expected: 16, got: 8 })
    ));
    let mut bytes = bytes;
    bytes[3] = 7;
    assert!(matches!(error_of(&bytes), ImportError::FpBitsMismatch { expected: 8, got: 7 }));
}

#[test]
fn other_fingerprint_width_without_slots() {
    let narrow: Filter<u8> = Filter::with_seed(1, 0, 0, KEY);
    assert!(matches!(Filter::<u16>::import(&narrow.export()), Err(ImportError::TooShort)));
    let wide: Filter<u16> = Filter::with_seed(1, 0, 0, KEY);
    assert!(matches!(
        error_of(&wide.export()),
        ImportError::FpBitsMismatch { expected: 8, got: 16 }
    ));
}

#[test]
fn different_filters_are_written_differently() {
    // neither can be read back
    let f: Filter<u8> = Filter::with_seed(3, 2, 5, KEY);
    let g: Filter<u8> = Filter::with_seed(6, 1, 5, KEY);
    assert_eq!(f.table, g.table);
    assert_ne!(f.export(), g.export());
    let mut h = f.clone();
    assert!(h.bucket_insert(2, 9));
    assert_ne!(f.export(), h.export());
    // nor can one whose table is longer than its buckets
    let mut k = f.clone();
    k.table.push(0);
    assert_ne!(f.export(), k.export());
    assert_eq!(k.export()[..64], f.export()[..]);
}

#[test]
fn invalid_bucket_count() {
    for n in [0, 3, 6, 0x1_0000_0001] {
        let mut bytes = with_victim().export();
        put_64(&mut bytes, BUCKET_COUNT, n);
        assert!(matches!(error_of(&bytes), ImportError::InvalidBucketCount));
    }
}

#[test]
fn bucket_count_too_large() {
    let mut bytes = with_victim().export();
    put_64(&mut bytes, BUCKET_COUNT, 1 << 33);
    assert!(matches!(error_of(&bytes), ImportError::BucketCountTooLarge));
    put_64(&mut bytes, BUCKET_COUNT, 1 << 32);
    assert!(matches!(error_of(&bytes), ImportError::SizeMismatch));
}

#[test]
fn invalid_bucket_size() {
    let mut bytes = with_victim().export();
    put_64(&mut bytes, BUCKET_SIZE, 0);
    assert!(matches!(error_of(&bytes), ImportError::InvalidBucketSize));
}

#[test]
fn bucket_size_too_large() {
    let mut bytes = with_victim().export();
    put_64(&mut bytes, BUCKET_SIZE, 256);
    assert!(matches!(error_of(&bytes), ImportError::BucketSizeTooLarge));
}

#[test]
fn size_mismatch() {
    let mut bytes = with_victim().export();
    bytes.push(0);
    assert!(matches!(error_of(&bytes), ImportError::SizeMismatch));
}

#[test]
fn invalid_num_items() {
    let mut bytes = with_victim().export();
    put_64(&mut bytes, NUM_ITEMS, 4);
    assert!(matches!(error_of(&bytes), ImportError::InvalidNumItems));
}

#[test]
fn census_mismatch() {
    let mut bytes = with_victim().export();
    put_64(&mut bytes, NUM_ITEMS, 2);
    assert!(matches!(error_of(&bytes), ImportError::CensusMismatch));
    let mut bytes = with_victim().export();
    bytes[TABLE] = 0;
    assert!(matches!(error_of(&bytes), ImportError::CensusMismatch));
}

#[test]
fn invalid_victim_flag() {
    let mut bytes = with_victim().export();
    bytes[VICTIM_FLAG] = 2;
    assert!(matches!(error_of(&bytes), ImportError::InvalidVictimFlag(2)));
}

#[test]
fn invalid_victim_bucket() {
    let mut bytes = with_victim().export();
    put_64(&mut bytes, VICTIM_BUCKET, 2);
    assert!(matches!(error_of(&bytes), ImportError::InvalidVictimBucketId));
    let mut bytes = without_victim().export();
    put_64(&mut bytes, VICTIM_BUCKET, 1);
    assert!(matches!(error_of(&bytes), ImportError::InvalidVictimBucketId));
}

#[test]
fn invalid_victim_fingerprint() {
    let mut bytes = with_victim().export();
    bytes[VICTIM_FP] = 0;
    assert!(matches!(error_of(&bytes), ImportError::InvalidVictimFp));
    let mut bytes = without_victim().export();
    bytes[VICTIM_FP] = 9;
    assert!(matches!(error_of(&bytes), ImportError::InvalidVictimFp));
}

#[test]
fn readers_move_past_what_they_read() {
    let bytes = [1, 2, 3, 4, 5, 6, 7, 8, 9, 10, 11, 12, 13, 14];
    let mut pos = 1;
    assert_eq!(read_64(&bytes, &mut pos), 0x0908_0706_0504_0302);
    assert_eq!(pos, 9);
    assert_eq!(read_32(&bytes, &mut pos), 0x0d0c_0b0a);
    assert_eq!(pos, 13);
    assert_eq!(read_bytes(&bytes, 1, &mut pos), [14]);
    assert_eq!(pos, 14);
}
