use std::collections::HashSet;
use sketches::cardinality::hll::HyperLogLog;
use sketches::hash::MixHash;
use sketches::random::{RandomSource, SplitMixRandom, ThreadRandom};
use sketches::set_membership::SetMembership;
use sketches::UnboundedShift;

#[test]
fn test_hash_set_membership() {
    let mut set: HashSet<u64> = HashSet::new();
    for i in 0..30u64 {
        SetMembership::insert(&mut set, &i).unwrap();
    }
    for i in 0..30u64 {
        assert!(SetMembership::contains(&set, &i));
    }
    assert!(!SetMembership::contains(&set, &99u64));
}

#[test]
fn test_thread_random_in_range() {
    let mut rng = ThreadRandom::new();
    for _ in 0..100 {
        assert!(rng.random_index(7) < 7);
        assert!(rng.random_index(1) == 0);
    }
}

#[test]
fn test_split_mix_random_deterministic() {
    let mut a = SplitMixRandom::new(42);
    let mut b = SplitMixRandom::new(42);
    let mut hit_high = false;
    for _ in 0..64 {
        let x = a.random_index(13);
        let y = b.random_index(13);
        assert_eq!(x, y);
        assert!(x < 13);
        if x > 6 {
            hit_high = true;
        }
    }
    assert!(hit_high);
}

#[test]
fn test_packed_hll_insert() {
    let mut hll = HyperLogLog::<u64, MixHash>::new(4, MixHash);
    for i in 0..100u64 {
        hll.insert(&i);
    }
    let snapshot = hll.registers();
    assert!(snapshot.iter().any(|&r| r > 0));
    for i in 0..100u64 {
        hll.insert(&i);
    }
    assert_eq!(hll.registers(), snapshot);
}

#[test]
fn test_unbounded_shift() {
    assert_eq!(1u8.ushl(7), 0x80);
    assert_eq!(1u8.ushl(8), 0);
    assert_eq!(1u16.ushl(15), 0x8000);
    assert_eq!(1u16.ushl(16), 0);
    assert_eq!(1u32.ushl(31), 0x8000_0000);
    assert_eq!(1u32.ushl(32), 0);
    assert_eq!(1u64.ushl(63), 1 << 63);
    assert_eq!(1u64.ushl(64), 0);
    assert_eq!(1u128.ushl(127), 1 << 127);
    assert_eq!(1u128.ushl(128), 0);
    assert_eq!(1usize.ushl(usize::BITS), 0);
    assert_eq!(1usize.ushl(3), 8);
    assert_eq!(0xffu32.ushl(4), 0xff0);
}
