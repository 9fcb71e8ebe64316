//! Distinct counts.

use webstat::hll::HyperLogLog;

#[test]
fn from_bytes_roundtrip_precision_4() {
    let mut hll = HyperLogLog::new(4);
    for i in 0..20u64 {
        hll.add_str(&format!("item-{i}"));
    }
    let bytes = hll.to_bytes();
    let restored = HyperLogLog::from_bytes(&bytes).expect("should decode");
    assert_eq!(hll.to_bytes(), restored.to_bytes());
}

#[test]
fn from_bytes_roundtrip_precision_16() {
    let mut hll = HyperLogLog::new(16);
    for i in 0..1_000u64 {
        hll.add_str(&format!("item-{i}"));
    }
    let bytes = hll.to_bytes();
    let restored = HyperLogLog::from_bytes(&bytes).expect("should decode");
    assert_eq!(hll.to_bytes(), restored.to_bytes());
}

#[test]
fn from_bytes_empty_returns_none() {
    assert!(HyperLogLog::from_bytes(&[]).is_none());
}

#[test]
fn from_bytes_single_precision_byte_returns_none() {
    // precision=4 expects 2^4=16 register bytes after it; giving 0 is wrong.
    assert!(HyperLogLog::from_bytes(&[4u8]).is_none());
}

#[test]
fn from_bytes_wrong_register_count_returns_none() {
    // precision=10 → 1024 registers; supply only 5.
    let mut bytes = vec![10u8];
    bytes.extend_from_slice(&[0u8; 5]);
    assert!(HyperLogLog::from_bytes(&bytes).is_none());
}

#[test]
fn merge_self_is_idempotent() {
    let mut hll = HyperLogLog::new(10);
    for i in 0..200u64 {
        hll.add_str(&format!("item-{i}"));
    }
    let before = hll.to_bytes();
    let clone = hll.clone();
    hll.merge(&clone);
    assert_eq!(hll.to_bytes(), before);
}

#[test]
fn to_bytes_first_byte_is_precision() {
    let hll = HyperLogLog::new(8);
    let bytes = hll.to_bytes();
    assert_eq!(bytes[0], 8);
    assert_eq!(bytes.len(), 1 + (1 << 8)); // 1 precision byte + 256 registers
}

/// The registers that are not zero, by their place.
fn registers(hll: &HyperLogLog) -> Vec<(usize, u8)> {
    hll.to_bytes()[1..].iter().copied().enumerate().filter(|(_, r)| *r > 0).collect()
}

#[test]
fn add_hash_directly() {
    let mut hll = HyperLogLog::new(12);
    hll.add_hash(0xdead_beef_cafe_1234);
    hll.add_hash(0x1234_5678_9abc_def0);
    assert_eq!(registers(&hll), vec![(0x123, 2), (0xdea, 1)]);
}

#[test]
fn lists_of_hashes_merge_to_the_sketch_of_all() {
    let sketch = |hashes: &[u64]| {
        let mut h = HyperLogLog::new(4);
        for x in hashes {
            h.add_hash(*x);
        }
        h
    };
    let mut a = sketch(&[1 << 63, 5, 1 << 40]);
    a.merge(&sketch(&[7, 1 << 59, 5]));
    let all = sketch(&[5, 1 << 59, 7, 7, 1 << 40, 1 << 63, 1 << 63]);
    assert_eq!(a.to_bytes(), all.to_bytes());
}
