use cuckoo_filter::{Filter, Full};

const KEY: [u8; 16] = [0, 1, 2, 3, 4, 5, 6, 7, 8, 9, 10, 11, 12, 13, 14, 15];

fn item(n: u32) -> [u8; 4] {
    n.to_le_bytes()
}

/// Two buckets of one slot, into which three entries with both buckets went.
fn crowded() -> Filter<u8> {
    let mut f: Filter<u8> = Filter::with_seed(2, 1, 5, KEY);
    assert!(f.insert_at(0, 1, 3).is_ok());
    assert!(f.insert_at(0, 1, 5).is_ok());
    assert!(f.insert_at(0, 1, 7).is_ok());
    f
}

#[test]
fn new_filter_is_empty() {
    let f: Filter<u16> = Filter::with_seed(8, 4, 10, KEY);
    assert_eq!(f.table, vec![0u16; 32]);
    assert_eq!((f.bucket_count, f.bucket_size, f.max_kicks), (8, 4, 10));
    assert_eq!(f.seed, KEY);
    assert_eq!((f.num_items, f.victim, f.census()), (0, None, 0));
    assert!(!f.contains(b"x"));
    assert_eq!(f.count(b"x"), 0);
}

#[test]
fn hash_is_siphash_1_3() {
    let f: Filter<u8> = Filter::with_seed(8, 4, 10, KEY);
    assert_eq!(f.hash(&[]), 0xabac_0158_050f_c4dc);
    assert_eq!(f.hash(&[0]), 0xc9f4_9bf3_7d57_ca93);
    assert_eq!(f.hash(&[0, 1]), 0x82cb_9b02_4dc7_d44d);
    assert_eq!(f.hash(&[0, 1, 2, 3, 4, 5, 6, 7]), 0x3690_9511_8d29_9a8e);
}

#[test]
fn hash_depends_on_seed() {
    let f: Filter<u8> = Filter::with_seed(8, 4, 10, KEY);
    let g: Filter<u8> = Filter::with_seed(8, 4, 10, [0; 16]);
    assert_ne!(f.hash(b"abc"), g.hash(b"abc"));
}

#[test]
fn place_of_a_hash() {
    let f: Filter<u8> = Filter::with_seed(8, 2, 5, KEY);
    assert_eq!(f.locate(0x5_0007), (5, 6, 7));
    assert_eq!(f.index1(0x5_0007), 5);
    assert_eq!(f.index1(0xFFFF), 0);
    assert_eq!(f.fingerprint(0x5_0007), 7);
    assert_eq!(f.alt_index(5, 7), 6);
    assert_eq!(f.bucket_range(3), 6..8);
}

#[test]
fn place_of_an_item() {
    let f: Filter<u16> = Filter::with_seed(16, 4, 5, KEY);
    // the hash of the empty item is 0xabac_0158_050f_c4dc
    let (i1, i2, fp) = f.probe(&[]);
    assert_eq!((i1, fp), (0xf, 0xc4dc));
    assert_eq!(i2, 0xf ^ ((0xc4dcu64 * 0x5bd1_e995) & 0xf) as usize);
}

#[test]
fn other_bucket_of_other_bucket() {
    let f: Filter<u16> = Filter::with_seed(1024, 4, 5, KEY);
    for i in [0, 1, 511, 1023] {
        for fp in [1u16, 2, 255, 256, 0xFFFF] {
            let j = f.alt_index(i, fp);
            assert!(j < 1024);
            assert_eq!(f.alt_index(j, fp), i);
        }
    }
}

#[test]
fn buckets_of_any_count_are_in_range() {
    let mut f: Filter<u8> = Filter::with_seed(3, 2, 4, KEY);
    assert_eq!(f.index1(0x1_0005), 0);
    for n in 0..100u32 {
        let (i1, i2, _) = f.probe(&item(n));
        assert!(i1 < 3 && i2 < 3);
        let _ = f.insert(&item(n));
        assert_eq!(f.num_items, f.census());
    }
}

#[test]
fn bucket_operations() {
    let mut f: Filter<u8> = Filter::with_seed(2, 3, 5, KEY);
    assert!(f.bucket_insert(1, 7));
    assert!(f.bucket_insert(1, 9));
    assert!(f.bucket_insert(1, 7));
    assert!(!f.bucket_insert(1, 8));
    assert_eq!(f.table, vec![0, 0, 0, 7, 9, 7]);
    assert!(f.bucket_contains(1, 9));
    assert!(!f.bucket_contains(0, 9));
    assert_eq!(f.bucket_count(1, 7), 2);
    assert!(f.bucket_remove(1, 7));
    assert!(!f.bucket_remove(0, 7));
    assert_eq!(f.table, vec![0, 0, 0, 0, 9, 7]);
    // slot (5 + 2) % 3 of bucket 1
    assert_eq!(f.bucket_displace(1, 5, 2), 9);
    assert_eq!(f.table, vec![0, 0, 0, 0, 5, 7]);
}

#[test]
fn inserted_items_are_found() {
    let mut f: Filter<u16> = Filter::with_seed(256, 4, 500, KEY);
    for n in 0..900u32 {
        assert!(f.insert(&item(n)).is_ok());
        assert_eq!(f.num_items, n as usize + 1);
    }
    assert_eq!(f.census(), 900);
    for n in 0..900u32 {
        assert!(f.contains(&item(n)));
        assert!(f.count(&item(n)) >= 1);
    }
}

#[test]
fn copies_are_counted() {
    let mut f: Filter<u16> = Filter::with_seed(256, 4, 500, KEY);
    for n in 0..6 {
        assert_eq!(f.count(b"twin"), n);
        assert!(f.insert(b"twin").is_ok());
    }
    assert_eq!(f.count(b"twin"), 6);
    for n in 0..6 {
        assert!(f.delete(b"twin"));
        assert_eq!(f.count(b"twin"), 5 - n);
    }
    assert!(!f.delete(b"twin"));
    assert_eq!(f.num_items, 0);
}

#[test]
fn deletion_undoes_insertion() {
    let mut f: Filter<u16> = Filter::with_seed(64, 4, 100, KEY);
    for n in 0..200u32 {
        assert!(f.insert(&item(n)).is_ok());
    }
    let before: Vec<usize> = (0..400u32).map(|n| f.count(&item(n))).collect();
    assert!(f.insert(b"guest").is_ok());
    assert!(f.delete(b"guest"));
    let after: Vec<usize> = (0..400u32).map(|n| f.count(&item(n))).collect();
    assert_eq!(before, after);
    assert_eq!(f.num_items, 200);
}

#[test]
fn no_item_is_lost() {
    let mut f: Filter<u8> = Filter::with_seed(32, 2, 20, KEY);
    let mut live: Vec<u32> = Vec::new();
    for n in 0..400u32 {
        if n % 3 == 2 && !live.is_empty() {
            let gone = live.remove((n as usize * 7) % live.len());
            assert!(f.delete(&item(gone)));
        } else if f.insert(&item(n)).is_ok() {
            live.push(n);
        }
        assert_eq!(f.num_items, live.len());
        assert_eq!(f.census(), live.len());
        for m in &live {
            assert!(f.contains(&item(*m)));
        }
    }
}

#[test]
fn chain_of_displacements() {
    let f = crowded();
    assert_eq!(f.table, vec![3, 7]);
    assert_eq!(f.victim, Some((1, 5)));
    assert_eq!(f.num_items, 3);
    assert_eq!(f.census(), 3);
    for fp in [3, 5, 7] {
        assert!(f.contains_at(0, 1, fp));
        assert_eq!(f.count_at(0, 1, fp), 1);
    }
    assert!(f.matches_victim(0, 1, 5));
    assert!(!f.matches_victim(0, 1, 7));
}

#[test]
fn chain_that_finds_room() {
    let mut f: Filter<u8> = Filter::with_seed(2, 1, 5, KEY);
    assert!(f.bucket_insert(0, 3));
    f.num_items = 1;
    assert!(f.initiate_kick(0, 2).is_ok());
    // 2 takes the slot of 3, which moves to its other bucket
    assert_eq!(f.table, vec![2, 3]);
    assert_eq!((f.num_items, f.victim), (2, None));
}

#[test]
fn refused_insertion_changes_nothing() {
    let mut f = crowded();
    assert!(matches!(f.insert_at(0, 1, 9), Err(Full)));
    assert!(matches!(f.initiate_kick(0, 9), Err(Full)));
    assert_eq!(f.table, vec![3, 7]);
    assert_eq!(f.victim, Some((1, 5)));
    assert_eq!(f.num_items, 3);
    assert!(!f.contains_at(0, 1, 9));
}

#[test]
fn full_filter_refuses_items() {
    let mut f: Filter<u8> = Filter::with_seed(1, 2, 3, KEY);
    assert!(f.insert(b"a").is_ok());
    assert!(f.insert(b"b").is_ok());
    assert!(f.insert(b"c").is_ok());
    assert!(f.victim.is_some());
    assert!(matches!(f.insert(b"d"), Err(Full)));
    assert_eq!(f.num_items, 3);
    assert!(f.contains(b"a") && f.contains(b"b") && f.contains(b"c"));
    assert!(f.delete(b"a"));
    assert!(f.victim.is_none());
    assert!(f.insert(b"d").is_ok());
}

#[test]
fn deletion_rehomes_the_victim() {
    let mut f = crowded();
    assert!(f.delete_at(0, 1, 7));
    assert_eq!(f.table, vec![3, 5]);
    assert_eq!((f.num_items, f.victim), (2, None));
}

#[test]
fn victim_is_rehomed_in_its_other_bucket() {
    let mut f = crowded();
    assert!(f.delete_at(0, 1, 3));
    assert_eq!(f.table, vec![5, 7]);
    assert_eq!((f.num_items, f.victim), (2, None));
    f.try_rehome_victim();
    assert_eq!(f.table, vec![5, 7]);
}

#[test]
fn deletion_takes_the_victim_first() {
    let mut f = crowded();
    assert!(f.delete_at(0, 1, 5));
    assert_eq!(f.table, vec![3, 7]);
    assert_eq!((f.num_items, f.victim), (2, None));
    assert!(!f.delete_at(0, 1, 5));
    assert_eq!(f.num_items, 2);
}

#[test]
fn victim_without_room_stays() {
    let mut f: Filter<u8> = Filter::with_seed(4, 1, 0, KEY);
    // the multiplier ends in 01: fingerprint 4 has the same bucket twice
    assert_eq!(f.alt_index(0, 4), 0);
    assert!(f.insert_at(0, 0, 4).is_ok());
    assert!(f.insert_at(0, 0, 4).is_ok());
    assert!(f.insert_at(1, 1, 8).is_ok());
    assert_eq!(f.victim, Some((0, 4)));
    assert_eq!(f.count_at(0, 0, 4), 2);
    assert!(f.delete_at(1, 1, 8));
    assert_eq!(f.victim, Some((0, 4)));
    assert_eq!(f.table, vec![4, 0, 0, 0]);
}

#[test]
fn filter_without_slots() {
    let mut f: Filter<u8> = Filter::with_seed(1, 0, 0, KEY);
    assert!(!f.contains(b"a"));
    assert!(f.insert(b"a").is_ok());
    assert!(f.contains(b"a"));
    assert!(matches!(f.insert(b"a"), Err(Full)));
    assert!(f.delete(b"a"));
    assert_eq!(f.census(), 0);
}

#[test]
fn layout_is_deterministic() {
    let mut f: Filter<u16> = Filter::with_seed(16, 4, 50, KEY);
    let mut g: Filter<u16> = Filter::with_seed(16, 4, 50, KEY);
    for n in 0..64u32 {
        assert_eq!(f.insert(&item(n)).is_ok(), g.insert(&item(n)).is_ok());
        if n % 5 == 0 {
            assert_eq!(f.delete(&item(n)), g.delete(&item(n)));
        }
    }
    assert_eq!(f.table, g.table);
    assert_eq!(f.victim, g.victim);
    assert_eq!(f.export(), g.export());
}

#[test]
fn clone_is_independent() {
    let f = crowded();
    let mut g = f.clone();
    assert!(g.delete_at(0, 1, 3));
    assert_eq!(f.num_items, 3);
    assert_eq!(f.table, vec![3, 7]);
}
