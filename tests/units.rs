use filters::{
    closest_power_of_two, hash, BinaryFuseFilter, BitVector, BlockedBloomFilter, CountingBloomFilter,
    CuckooFilter, FourWiseBinaryFuseFilter8, HashFunction, HashScheme, KeyGenerator, MortonBlock,
    MortonFilter, QuotientInfo, Reduction, RegisterAlignedBloomFilter, TabulationHashing,
    ThreeWiseBinaryFuseFilter8, XorFilter, BloomFilter,
};

#[test]
fn hash_takes_top_bits() {
    assert_eq!(hash(0, 8, 1 << 60, 8, 0), 128);
    assert_eq!(hash(0, 0, 1 << 60, 8, 0), 0);
    assert_eq!(hash(1, 64, 1, 1, 1), 3);
    let a1: u64 = 0x9E37_79B9_7F4A_7C15;
    let a2: u64 = 0xC2B2_AE3D_27D4_EB4F;
    let b: u64 = 0x1656_67B1_9E37_79F9;
    let x: u64 = 123_456_789_000;
    let expected = (a1.wrapping_add(x).wrapping_mul(a2.wrapping_add(x >> 32)).wrapping_add(b) >> 44) as u32;
    assert_eq!(hash(x, 20, a1, a2, b), expected);
    assert!(hash(x, 20, a1, a2, b) < (1 << 20));
}

#[test]
fn random_hash_functions_have_nonzero_coefficients() {
    let mut draws = Vec::new();
    for _ in 0..100 {
        let h = HashFunction::random();
        assert!(h.a1 >= 1 && h.a2 >= 1 && h.b >= 1);
        draws.push(h.a1);
    }
    draws.sort();
    draws.dedup();
    assert!(draws.len() > 90);
}

#[test]
fn closest_power_of_two_rounds_up() {
    assert_eq!(closest_power_of_two(0), 0);
    assert_eq!(closest_power_of_two(1), 1);
    assert_eq!(closest_power_of_two(5), 8);
    assert_eq!(closest_power_of_two(8), 8);
    assert_eq!(closest_power_of_two(1000), 1024);
    assert_eq!(closest_power_of_two(1 << 63), 1 << 63);
}

#[test]
fn bitvector_round_trip() {
    let mut bits = BitVector::new(77);
    assert_eq!(bits.size(), 77);
    for i in 0..77 {
        assert!(!bits.member(i));
        bits.insert(i);
        assert!(bits.member(i));
        bits.delete(i);
        assert!(!bits.member(i));
    }
    bits.insert(9);
    assert!(bits.member(9));
    assert!(!bits.member(8));
    assert!(!bits.member(10));
}

#[test]
fn bitvector_bytes() {
    let bits = BitVector::from_bytes(vec![0b0000_0101, 0x80]);
    assert_eq!(bits.size(), 16);
    assert!(bits.member(0));
    assert!(!bits.member(1));
    assert!(bits.member(2));
    assert!(bits.member(15));
    assert_eq!(bits.into_bytes(), vec![0b0000_0101, 0x80]);
}

#[test]
fn modulo_bloom_ignores_keys_outside_its_size() {
    let mut filter = BloomFilter::with_size(100, 3, Reduction::Modulo);
    filter.insert(100);
    assert!(!filter.member(100));
    filter.insert(99);
    assert!(filter.member(99));
}

#[test]
fn double_hash_positions_follow_the_formula() {
    let h = HashFunction::new(0x1234_5678_9abc_def0, 0x0fed_cba9_8765_4321, 0x1111_2222_3333_4444);
    let scheme = HashScheme::from_hash_functions(1 << 20, 4, Reduction::DoubleHash, vec![h]);
    let raw = hash(42, 20, h.a1, h.a2, h.b) % (1 << 20);
    let h1 = ((raw >> 16) & 0xFFFF) as u64;
    let h2 = (raw & 0xFFFF) as u64;
    for i in 0..4usize {
        assert_eq!(scheme.position_of(42, i), (h1 * i as u64 + h2) % (1 << 20));
    }
}

#[test]
fn modulo_positions_follow_the_formula() {
    let hs = vec![HashFunction::new(3, 5, 7), HashFunction::new(11, 13, 17)];
    let scheme = HashScheme::from_hash_functions(1000, 2, Reduction::Modulo, hs.clone());
    for (i, h) in hs.iter().enumerate() {
        assert_eq!(scheme.position_of(77, i), (hash(77, 10, h.a1, h.a2, h.b) as u64) % 1000);
    }
}

#[test]
fn counting_bloom_counters_saturate() {
    let h = HashFunction::new(1, 1, 1);
    let scheme = HashScheme::from_hash_functions(64, 1, Reduction::Modulo, vec![h]);
    let mut filter = CountingBloomFilter::from_scheme(scheme);
    for _ in 0..300 {
        filter.insert(5);
    }
    for _ in 0..254 {
        filter.delete(5);
    }
    assert!(filter.member(5));
    filter.delete(5);
    assert!(!filter.member(5));
}

#[test]
fn cuckoo_fingerprint_is_low_byte_of_murmur3() {
    for key in [0u64, 1, 42, u64::MAX] {
        let expected = fastmurmur3::hash(&key.to_le_bytes()) as u8;
        assert_eq!(CuckooFilter::fingerprint(key), expected);
    }
    assert_ne!(CuckooFilter::fingerprint(42) as u64, 42);
}

#[test]
fn cuckoo_alternate_bucket_inverts_for_power_of_two() {
    let filter = CuckooFilter::with_hash_function(1024, 100, 4, HashFunction::new(99, 7, 3));
    for key in 0..200u64 {
        let f = CuckooFilter::fingerprint(key) as u32;
        for i1 in [0u32, 5, 1023] {
            let i2 = filter.hash2(i1, f) % 1024;
            assert_eq!(filter.hash2(i2, f) % 1024, i1);
        }
    }
}

#[test]
fn cuckoo_full_filter_reports_failure() {
    let mut filter = CuckooFilter::new(2, 10, 1);
    let mut inserted = 0;
    for key in 0..10u64 {
        if filter.insert(key) {
            inserted += 1;
        }
    }
    assert!(inserted <= 2);
    assert!(filter.is_full());
}

#[test]
fn cuckoo_delete_missing_key() {
    let mut filter = CuckooFilter::new(64, 10, 4);
    assert!(filter.insert(3));
    let absent = (100..10_000u64).find(|&k| !filter.member(k)).unwrap();
    assert!(!filter.delete(absent));
    assert!(filter.delete(3));
}

#[test]
fn morton_hash2_involution() {
    let filter = MortonFilter::new(10);
    let n = filter.size() as u32;
    assert_eq!(n, 460);
    for h1 in 0..n {
        for f in [0u8, 1, 77, 255] {
            assert_eq!(filter.hash2(filter.hash2(h1, f), f), h1);
        }
    }
    assert_eq!(filter.offset(0), 47);
    assert_eq!(filter.offset(4), 51);
}

#[test]
fn morton_empty_filter_has_no_members() {
    let filter = MortonFilter::new(4);
    for key in 0..100u64 {
        assert!(!filter.member(key));
    }
    let block = MortonBlock::new();
    assert_eq!(format!("{:?}", block).is_empty(), false);
}

#[test]
fn static_filters_on_no_keys() {
    let hs: Vec<HashFunction> = (0..5).map(|i| HashFunction::new(i + 1, i + 2, i + 3)).collect();
    assert!(XorFilter::with_hash_functions(&vec![], hs[..5].to_vec()).is_some());
    assert!(BinaryFuseFilter::with_hash_functions(&vec![], hs[..5].to_vec()).is_some());
    assert!(ThreeWiseBinaryFuseFilter8::with_hash_functions(&vec![], hs[..5].to_vec()).is_some());
    let hs6: Vec<HashFunction> = (0..6).map(|i| HashFunction::new(i + 1, i + 2, i + 3)).collect();
    assert!(FourWiseBinaryFuseFilter8::with_hash_functions(&vec![], hs6).is_some());
}

#[test]
fn xor_filter_fingerprint_width() {
    let keys: Vec<u64> = (0..1000).map(|k| k * 7919).collect();
    let filter = XorFilter::new(keys.clone()).expect("construction");
    for &key in &keys {
        assert!(filter.member(key));
        assert!(filter.fingerprint(key) < 256);
    }
    let four = FourWiseBinaryFuseFilter8::new(&keys).expect("construction");
    for &key in &keys {
        assert!(four.member(key));
        assert!(four.fingerprint(key) < 256);
    }
}

#[test]
fn static_filters_reject_duplicates_gracefully() {
    let hs: Vec<HashFunction> = (0..5).map(|i| HashFunction::new(i + 1, i + 2, i + 3)).collect();
    assert!(XorFilter::with_hash_functions(&vec![7, 7], hs).is_none());
}

#[test]
fn quotient_info_starts_empty() {
    let info = QuotientInfo::new();
    assert!(!info.is_occupied && !info.is_shifted && !info.is_continuation);
    assert!(info.is_empty());
}

#[test]
fn quotient_filter_absent_keys() {
    let mut filter = filters::QuotientFilter::new(256);
    assert_eq!(filter.size(), 256);
    for key in 0..50u64 {
        assert!(!filter.member(key));
    }
    assert!(filter.insert(5));
    assert!(filter.member(5));
}

#[test]
fn blocked_bloom_filters() {
    let mut blocked = BlockedBloomFilter::with_blocks(32, 64, 5);
    let mut register = RegisterAlignedBloomFilter::with_blocks(256, 64, 5);
    for key in 0..500u64 {
        blocked.insert(key);
        register.insert(key);
    }
    for key in 0..500u64 {
        assert!(blocked.member(key));
        assert!(register.member(key));
    }
    let empty = BlockedBloomFilter::with_blocks(4, 64, 3);
    assert!(!empty.member(1));
}

#[test]
fn key_generator_sets() {
    let keys = KeyGenerator::new(100);
    assert_eq!(keys.disjoint.0, (0..100).collect::<Vec<u64>>());
    assert_eq!(keys.disjoint.1, (100..200).collect::<Vec<u64>>());
    assert_eq!(keys.random.0.len(), 100);
    assert_eq!(keys.random.1.len(), 100);
    assert_eq!(keys.mixed.0.len(), 100);
    assert_eq!(keys.mixed.1.len(), 100);
    assert_eq!(keys.mixed.1[..50], keys.mixed.0[..50]);
    for k in &keys.mixed.1[50..] {
        assert!(!keys.mixed.0.contains(k));
    }
    for k in &keys.random.1 {
        assert!(!keys.random.0.contains(k));
        assert!(*k < 250);
    }
    let mut sorted = keys.mixed.0.clone();
    sorted.sort();
    sorted.dedup();
    assert_eq!(sorted.len(), keys.mixed.0.len());
    let empty = KeyGenerator::new_empty();
    assert!(empty.random.0.is_empty() && empty.mixed.1.is_empty());
}

#[test]
fn tabulation_hashing_is_a_function() {
    let t = TabulationHashing::new();
    assert_eq!(t.tabulation_hashing(12345), t.tabulation_hashing(12345));
    let distinct: std::collections::HashSet<u64> = (0..100u64).map(|x| t.tabulation_hashing(x)).collect();
    assert!(distinct.len() > 90);
}

#[test]
fn parse_keys_reads_decimal_tokens() {
    assert_eq!(filters::parse_keys(b"1 2 3 "), vec![1, 2, 3]);
    assert_eq!(filters::parse_keys(b"  10\t20\n+30 "), vec![10, 20, 30]);
    assert_eq!(filters::parse_keys(b"7 x 8a 9"), vec![7, 9]);
    assert_eq!(filters::parse_keys(b"18446744073709551615 18446744073709551616"), vec![u64::MAX]);
    assert_eq!(filters::parse_keys(b""), Vec::<u64>::new());
    assert_eq!(filters::parse_keys(b"+ 5"), vec![5]);
}

#[test]
fn quotient_filter_reports_no_room() {
    let mut filter = filters::QuotientFilter::new(8);
    let mut stored = Vec::new();
    let mut refused = 0;
    for key in 0..64u64 {
        if filter.insert(key) {
            stored.push(key);
        } else {
            refused += 1;
        }
    }
    assert!(refused > 0);
    assert!(stored.len() <= 8);
    for &key in &stored {
        assert!(filter.member(key));
    }
}

#[test]
fn tabulation_positions_follow_the_tables() {
    let tables = vec![TabulationHashing::new(), TabulationHashing::new()];
    let expected: Vec<u64> = tables.iter().map(|t| t.tabulation_hashing(987_654_321) % 5000).collect();
    let scheme = HashScheme::from_tables(5000, tables);
    assert_eq!(scheme.num_hashes(), 2);
    for i in 0..2usize {
        assert_eq!(scheme.position_of(987_654_321, i), expected[i]);
    }
}

#[test]
fn tabulation_bloom_and_counting_filters() {
    let mut bloom = BloomFilter::with_size(20_000, 7, Reduction::Tabulation);
    let mut counting = CountingBloomFilter::with_size(20_000, 7, Reduction::Tabulation);
    for key in 0..1000u64 {
        bloom.insert(key * 31);
        counting.insert(key * 31);
    }
    for key in 0..1000u64 {
        assert!(bloom.member(key * 31));
        assert!(counting.member(key * 31));
    }
    let positives = (0..5000u64).map(|k| 1_000_000 + k).filter(|&k| bloom.member(k)).count();
    assert!(positives < 250, "false positives: {}", positives);
}
