use sketches::set_membership::cuckoo::CuckooFilter;
use sketches::hash::MixHash;
use sketches::random::SplitMixRandom;

fn make_filter<const FINGERPRINT_SIZE: usize>(
    num_buckets: usize,
    bucket_size: usize,
) -> CuckooFilter<i32, FINGERPRINT_SIZE, MixHash, SplitMixRandom> {
    CuckooFilter::<_, FINGERPRINT_SIZE, _, _>::new(
        num_buckets,
        bucket_size,
        MixHash,
        SplitMixRandom::new(0),
    )
}

#[test]
fn test_contains_empty() {
    let cf = make_filter::<4>(64, 4);

    for i in 0..100 {
        assert!(!cf.contains(&i));
    }
}

#[test]
fn test_contains_inserted() {
    let mut cf = make_filter::<4>(64, 4);

    for i in 0..100 {
        cf.insert(&i).unwrap();
        assert!(cf.contains(&i));
    }
}

#[test]
fn test_not_enough_space() {
    let mut cf = make_filter::<4>(2, 1);

    cf.insert(&1).unwrap();
    cf.insert(&2).unwrap();

    assert!(cf.insert(&3).is_err());
}

#[test]
fn test_failed_insert_keeps_items_findable() {
    let mut cf = make_filter::<4>(2, 1);

    cf.insert(&1).unwrap();
    cf.insert(&2).unwrap();
    assert!(cf.insert(&3).is_err());

    assert!(cf.contains(&1));
    assert!(cf.contains(&2));
}

#[test]
fn test_cuckoo_contains_survives_later_inserts() {
    let mut cf = make_filter::<8>(32, 4);

    for i in 0..40 {
        cf.insert(&i).unwrap();
    }
    for i in 40..80 {
        let _ = cf.insert(&i);
        for j in 0..40 {
            assert!(cf.contains(&j));
        }
    }
}
