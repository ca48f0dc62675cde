use filters::{
    BinaryFuseFilter, BloomFilter, CountingBloomFilter, CuckooFilter, FourWiseBinaryFuseFilter8,
    MortonFilter, QuotientFilter, Reduction, ThreeWiseBinaryFuseFilter8, XorFilter,
};

fn bloom_sizing(n: u64, p: f64) -> (u64, usize) {
    let m = (-1.44 * n as f64 * p.log2() + 0.5).ceil() as u64;
    let k = (-p.log2() + 0.5).round() as usize;
    (m, k)
}

#[test]
fn bloom_filter_scenario() {
    let (m, k) = bloom_sizing(1000, 0.01);
    let mut filter = BloomFilter::with_size(m, k, Reduction::Modulo);
    for key in 0..1000u64 {
        filter.insert(key);
    }
    for key in 0..1000u64 {
        assert!(filter.member(key));
    }
    let positives = (1001..2500u64).filter(|&k| filter.member(k)).count();
    assert!((positives as f64) / 1499.0 <= 0.02, "false positives: {}", positives);
}

#[test]
fn bloom_filter_double_hash_scenario() {
    let (m, k) = bloom_sizing(1000, 0.01);
    let mut filter = BloomFilter::with_size(m, k, Reduction::DoubleHash);
    for key in 0..1000u64 {
        filter.insert(key);
    }
    for key in 0..1000u64 {
        assert!(filter.member(key));
    }
}

#[test]
fn counting_bloom_filter_delete() {
    let (m, k) = bloom_sizing(100, 0.01);
    let mut filter = CountingBloomFilter::with_size(m, k, Reduction::Modulo);
    filter.insert(42);
    assert!(filter.member(42));
    filter.delete(42);
    assert!(!filter.member(42));
    filter.delete(42);
    assert!(!filter.member(42));
}

#[test]
fn cuckoo_filter_scenario() {
    let mut filter = CuckooFilter::new(1000, 500, 4);
    for key in 0..950u64 {
        assert!(filter.insert(key));
    }
    for key in 0..950u64 {
        assert!(filter.member(key));
    }
    assert!(filter.delete(7));
}

#[test]
fn xor_filter_scenario() {
    let filter = XorFilter::new((0..10000).collect()).expect("construction");
    for key in 0..10000u64 {
        assert!(filter.member(key));
    }
    let positives = (10000..20000u64).filter(|&k| filter.member(k)).count();
    assert!(positives < 100, "false positives: {}", positives);
}

#[test]
fn binary_fuse_filters_scenario() {
    let keys: Vec<u64> = (0..5000).collect();
    let three = BinaryFuseFilter::new(keys.clone()).expect("construction");
    let three8 = ThreeWiseBinaryFuseFilter8::new(keys.clone()).expect("construction");
    let four8 = FourWiseBinaryFuseFilter8::new(&keys).expect("construction");
    for &key in &keys {
        assert!(three.member(key));
        assert!(three8.member(key));
        assert!(four8.member(key));
    }
}

#[test]
fn quotient_filter_scenario() {
    let mut filter = QuotientFilter::new(1000);
    let mut stored = Vec::new();
    for key in 0..300u64 {
        if filter.insert(key) {
            stored.push(key);
        }
    }
    assert!(stored.len() > 200);
    for &key in &stored {
        assert!(filter.member(key));
    }
}

#[test]
fn morton_filter_scenario() {
    let mut filter = MortonFilter::new(64);
    let mut stored = Vec::new();
    for key in 0..1000u64 {
        if filter.insert(key) {
            stored.push(key);
        }
    }
    assert!(stored.len() > 900);
    for &key in &stored {
        assert!(filter.member(key));
    }
}

#[test]
fn quotient_filter_colliding_quotients() {
    let mut filter = QuotientFilter::new(1000);
    let base = (0..1000u64)
        .find(|&k| filter.get_quotient(filter.fingerprint(k)) < 900)
        .unwrap();
    let target = filter.get_quotient(filter.fingerprint(base));
    let colliding: Vec<u64> = (0..2_000_000u64)
        .filter(|&k| filter.get_quotient(filter.fingerprint(k)) == target)
        .take(6)
        .collect();
    assert!(colliding.len() >= 2);
    let neighbours: Vec<u64> = (0..2_000_000u64)
        .filter(|&k| filter.get_quotient(filter.fingerprint(k)) == target + 1)
        .take(3)
        .collect();
    for &k in colliding.iter().chain(neighbours.iter()) {
        assert!(filter.insert(k));
    }
    for &k in colliding.iter().chain(neighbours.iter()) {
        assert!(filter.member(k));
    }
}
