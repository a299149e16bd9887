use sketches::hash::{iter_hashes, next_k, BuildHash, MixHash, RawHash};

#[test]
fn test_iter_hashes() {
    let hashes = iter_hashes(&4294967298u64, &RawHash, 5);
    assert_eq!(hashes, vec![4, 13, 34, 73, 136]);
}

#[test]
fn test_iter_hashes_exact_count() {
    assert_eq!(iter_hashes(&7u64, &MixHash, 0).len(), 0);
    assert_eq!(iter_hashes(&7u64, &MixHash, 11).len(), 11);
}

#[test]
fn test_next_k_in_range() {
    let values = next_k(&123u64, &MixHash, 97, 50);
    assert_eq!(values.len(), 50);
    for v in values {
        assert!(v < 97);
    }
}

#[test]
fn test_next_k_recurrence() {
    // values follow: first two are the salted digests mod m, then each
    // combines the two before it with the growing coefficient
    let m = 1_000_003u64;
    let values = next_k(&55u64, &RawHash, m, 6);
    let h1 = RawHash.hash(&55u64, 1) % m;
    let h2 = RawHash.hash(&55u64, 2) % m;
    assert_eq!(values[0], h1);
    assert_eq!(values[1], h2);
    for i in 2..6 {
        let coef = (i as u64) + 1;
        let expected = values[i - 2].wrapping_add(coef.wrapping_mul(values[i - 1])) % m;
        assert_eq!(values[i], expected);
    }
}

#[test]
fn test_hash_depends_on_salt() {
    let a = MixHash.hash(&42u64, 0);
    let b = MixHash.hash(&42u64, 1);
    let c = MixHash.hash(&43u64, 0);
    assert_ne!(a, b);
    assert_ne!(a, c);
    assert_eq!(a, MixHash.hash(&42u64, 0));
}
