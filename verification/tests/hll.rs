use sketches::hll::{HyperLogLog, Registers};
use sketches::hash::MixHash;

#[test]
fn test_number_of_blocks() {
    assert_eq!(Registers::new(0).blocks().len(), 0);
    assert_eq!(Registers::new(6).blocks().len(), 2);
    assert_eq!(Registers::new(7).blocks().len(), 3);
}

#[test]
fn test_iter() {
    let blocks = vec![0b10001_00101_11000, 0b00000_11011_00101];
    let registers = Registers::with_blocks_and_count(blocks, 5);

    assert_eq!(
        registers.iter(),
        vec![0b11000, 0b00101, 0b10001, 0b00101, 0b11011]
    );
}

#[test]
fn test_update_max() {
    let blocks = vec![0b10001_00101_11000, 0b00000_11011_00101];
    let mut registers = Registers::with_blocks_and_count(blocks, 5);

    registers.update_max(1, 0b01011);
    let expected = vec![0b10001_01011_11000, 0b00000_11011_00101];
    assert_eq!(*registers.blocks(), expected);

    registers.update_max(3, 0b00011);
    assert_eq!(*registers.blocks(), expected);
}

#[test]
fn test_insert_monotone_registers() {
    let mut hll = HyperLogLog::<u64, MixHash>::new(4, MixHash);
    let mut prev = hll.registers();
    for i in 0..200u64 {
        hll.insert(&i);
        let now = hll.registers();
        for (a, b) in prev.iter().zip(now.iter()) {
            assert!(a <= b);
        }
        prev = now;
    }
}

#[test]
fn test_repeat_insert_is_noop() {
    let mut hll = HyperLogLog::<u64, MixHash>::new(6, MixHash);
    for i in 0..50u64 {
        hll.insert(&i);
    }
    let snapshot = hll.registers();
    for i in 0..50u64 {
        hll.insert(&i);
    }
    assert_eq!(hll.registers(), snapshot);
}

#[test]
fn test_hll_estimate_converges() {
    let mut hll = HyperLogLog::<u64, MixHash>::new(12, MixHash);
    for i in 0..20000u64 {
        hll.insert(&i);
    }
    let registers = hll.registers();
    let m = registers.len() as f64;
    let mut harmonic_sum = 0.0f64;
    let mut zero_registers = 0u64;
    for &r in registers.iter() {
        harmonic_sum += 1.0 / 2.0f64.powi(r as i32);
        if r == 0 {
            zero_registers += 1;
        }
    }
    let alpha = 0.7213 / (1.0 + 1.079 / m);
    let mut estimate = alpha * m * m / harmonic_sum;
    if estimate <= 2.5 * m && zero_registers > 0 {
        estimate = m * (m / zero_registers as f64).ln();
    }
    assert!((estimate - 20000.0).abs() < 1000.0);
}
