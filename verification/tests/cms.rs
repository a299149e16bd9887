use sketches::cms::CountMinSketch;
use sketches::hash::MixHash;

#[test]
fn test_count_at_least_frequency() {
    let mut cms = CountMinSketch::<u64, MixHash>::new(512, 4, MixHash);
    for i in 0..50u64 {
        for _ in 0..(i % 7 + 1) {
            cms.increment(&i, 1);
        }
    }
    for i in 0..50u64 {
        assert!(cms.count(&i) >= (i % 7 + 1) as u32);
    }
}

#[test]
fn test_exact_count_without_collisions() {
    // a wide sketch: 3 items in 4096 columns collide with negligible
    // probability, so the estimates are exact
    let mut cms = CountMinSketch::<u64, MixHash>::new(4096, 4, MixHash);
    cms.increment(&1, 5);
    cms.increment(&2, 7);
    cms.increment(&1, 3);
    assert_eq!(cms.count(&1), 8);
    assert_eq!(cms.count(&2), 7);
}

#[test]
fn test_never_incremented_counts_zero() {
    let mut cms = CountMinSketch::<u64, MixHash>::new(4096, 4, MixHash);
    for i in 0..20u64 {
        cms.increment(&i, 2);
    }
    assert_eq!(cms.count(&999u64), 0);
}

#[test]
fn test_clear_zeroes_counters() {
    let mut cms = CountMinSketch::<u64, MixHash>::new(64, 3, MixHash);
    cms.increment(&4u64, 10);
    assert!(cms.count(&4u64) >= 10);
    cms.clear();
    assert_eq!(cms.count(&4u64), 0);
}

#[test]
fn test_cms_getters() {
    let cms = CountMinSketch::<u64, MixHash>::new(37, 5, MixHash);
    assert_eq!(cms.width(), 37);
    assert_eq!(cms.depth(), 5);
}

#[test]
fn test_single_column_counts_everything() {
    let mut cms = CountMinSketch::<u64, MixHash>::new(1, 2, MixHash);
    cms.increment(&1u64, 4);
    cms.increment(&2u64, 6);
    // all items share the single column of each row
    assert_eq!(cms.count(&3u64), 10);
}
