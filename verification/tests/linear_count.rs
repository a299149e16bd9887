use sketches::linear_count::LinearCount;
use sketches::hash::MixHash;

#[test]
fn test_zeros_decrease_on_new_items() {
    let mut lc = LinearCount::<u64, MixHash>::new(1024, MixHash);
    assert_eq!(lc.zeros(), 1024);
    lc.insert(&1u64);
    assert_eq!(lc.zeros(), 1023);
}

#[test]
fn test_repeat_insert_keeps_zeros() {
    let mut lc = LinearCount::<u64, MixHash>::new(4096, MixHash);
    for i in 0..100u64 {
        lc.insert(&i);
    }
    let z = lc.zeros();
    for i in 0..100u64 {
        lc.insert(&i);
    }
    assert_eq!(lc.zeros(), z);
}

#[test]
fn test_num_bits() {
    let lc = LinearCount::<u64, MixHash>::new(777, MixHash);
    assert_eq!(lc.num_bits(), 777);
}

#[test]
fn test_saturation() {
    let mut lc = LinearCount::<u64, MixHash>::new(2, MixHash);
    for i in 0..64u64 {
        lc.insert(&i);
    }
    assert_eq!(lc.zeros(), 0);
}

#[test]
fn test_cardinality_variant_matches() {
    let mut a = LinearCount::<u64, MixHash>::new(512, MixHash);
    let mut b = sketches::cardinality::linear_count::LinearCount::<u64, MixHash>::new(
        512, MixHash,
    );
    for i in 0..40u64 {
        a.insert(&i);
        b.insert(&i);
    }
    assert_eq!(a.zeros(), b.zeros());
}

#[test]
fn test_linear_estimate_converges() {
    let mut lc = LinearCount::<u64, MixHash>::new(16384, MixHash);
    for i in 0..1000u64 {
        lc.insert(&i);
    }
    let m = lc.num_bits() as f64;
    let estimate = -m * (lc.zeros() as f64 / m).ln();
    assert!((estimate - 1000.0).abs() < 50.0);
}
