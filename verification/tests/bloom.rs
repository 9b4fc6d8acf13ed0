use pebbledb::bloom::BloomFilter;

/// An empty filter sized for a number of keys and a false positive rate.
fn sized(expected_items: usize, false_positive_rate: f64) -> BloomFilter {
    let items = expected_items as f64;
    let ln2 = std::f64::consts::LN_2;
    let bits = ((-(items * false_positive_rate.ln()) / (ln2 * ln2)).ceil() as usize).max(64);
    let hashes = (((bits as f64 / items) * ln2).round() as usize).clamp(1, 30);
    BloomFilter::new(bits, hashes)
}

#[test]
fn test_bloom_insert_and_check() {
    let mut filter = sized(100, 0.01);
    filter.insert("apple");
    filter.insert("banana");
    assert!(filter.might_contain("apple"));
    assert!(filter.might_contain("banana"));
}

#[test]
fn test_bloom_false_positive_possible() {
    let mut filter = sized(1000, 0.01);
    for i in 0..500 {
        filter.insert(&format!("key_{}", i));
    }
    let mut false_positives = 0;
    for i in 500..1500 {
        if filter.might_contain(&format!("key_{}", i)) {
            false_positives += 1;
        }
    }
    assert!(
        false_positives < 50,
        "too many false positives: {}",
        false_positives
    );
}

#[test]
fn test_bloom_encode_decode() {
    let mut filter = sized(100, 0.01);
    filter.insert("hello");
    filter.insert("world");
    let encoded = filter.encode();
    let decoded = BloomFilter::decode(&encoded).unwrap();
    assert!(decoded.might_contain("hello"));
    assert!(decoded.might_contain("world"));
}

#[test]
fn test_bloom_encode_decode_empty() {
    let filter = sized(100, 0.01);
    let encoded = filter.encode();
    let decoded = BloomFilter::decode(&encoded).unwrap();
    assert!(!decoded.might_contain("anything"));
}

#[test]
fn test_bloom_from_entries() {
    let keys = vec!["x", "y", "z"];
    let filter = BloomFilter::from_entries(&keys);
    assert!(filter.might_contain("x"));
    assert!(filter.might_contain("y"));
    assert!(filter.might_contain("z"));
    assert!(!filter.might_contain("w"));
}
