use sketches::bloom::BloomFilter;
use sketches::hash::MixHash;
use sketches::set_membership::SetMembership;

#[test]
fn test_no_false_negatives() {
    let mut bf = BloomFilter::<u64, MixHash>::new(1024, 4, MixHash);
    for i in 0..100u64 {
        bf.insert(&i);
    }
    for i in 0..100u64 {
        assert!(bf.contains(&i));
    }
}

#[test]
fn test_contains_survives_later_inserts() {
    let mut bf = BloomFilter::<u64, MixHash>::new(256, 3, MixHash);
    bf.insert(&7u64);
    for i in 100..200u64 {
        bf.insert(&i);
        assert!(bf.contains(&7u64));
    }
}

#[test]
fn test_insert_reports_novelty() {
    let mut bf = BloomFilter::<u64, MixHash>::new(4096, 4, MixHash);
    assert!(bf.insert(&1u64));
    assert!(!bf.insert(&1u64));
}

#[test]
fn test_empty_filter_contains_nothing() {
    let bf = BloomFilter::<u64, MixHash>::new(512, 3, MixHash);
    for i in 0..50u64 {
        assert!(!bf.contains(&i));
    }
}

#[test]
fn test_clear_resets() {
    let mut bf = BloomFilter::<u64, MixHash>::new(512, 3, MixHash);
    for i in 0..20u64 {
        bf.insert(&i);
    }
    assert!(bf.count_ones() > 0);
    bf.clear();
    assert_eq!(bf.count_ones(), 0);
    for i in 0..20u64 {
        assert!(!bf.contains(&i));
    }
}

#[test]
fn test_getters() {
    let bf = BloomFilter::<u64, MixHash>::new(321, 5, MixHash);
    assert_eq!(bf.bits(), 321);
    assert_eq!(bf.num_hashes(), 5);
    assert!(!bf.is_empty());
    assert_eq!(bf.count_ones(), 0);
}

#[test]
fn test_single_bit_filter() {
    let mut bf = BloomFilter::<u64, MixHash>::new(1, 1, MixHash);
    assert!(!bf.contains(&9u64));
    bf.insert(&9u64);
    // with one bit every item now reads as present: false positives only
    assert!(bf.contains(&9u64));
    assert!(bf.contains(&10u64));
}

#[test]
fn test_membership_capability_bloom() {
    let mut bf =
        sketches::set_membership::bloom::BloomFilter::<u64, MixHash>::new(1024, 4, MixHash);
    for i in 0..60u64 {
        SetMembership::insert(&mut bf, &i).unwrap();
    }
    for i in 0..60u64 {
        assert!(SetMembership::contains(&bf, &i));
    }
}

#[test]
fn test_split_hash_bloom_inherent() {
    let mut bf =
        sketches::set_membership::bloom::BloomFilter::<u64, MixHash>::new(2048, 3, MixHash);
    assert!(bf.insert(&5u64));
    assert!(!bf.insert(&5u64));
    assert!(bf.contains(&5u64));
    bf.clear();
    assert!(!bf.contains(&5u64));
}

#[test]
fn test_false_positive_rate_at_design_load() {
    // 300 items over 4096 bits and 3 hashes: about a fifth of the bits
    // end up set, so the false-positive rate stays in the low percents
    let mut bf = BloomFilter::<u64, MixHash>::new(4096, 3, MixHash);
    for i in 0..300u64 {
        bf.insert(&i);
    }
    let mut false_positives = 0usize;
    for i in 1000..11000u64 {
        if bf.contains(&i) {
            false_positives += 1;
        }
    }
    assert!(false_positives < 300, "false positive rate too high");
}
