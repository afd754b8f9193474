use vnode::aggregate::{build_merkle_root, collect_signatures, group_by_key};
use vnode::hexcode::encode_hex;
use vnode::median::{calculate_median, Median};
use vnode::ordering::{compare_bytes, reading_bits, reading_key, KeyOrder};
use vnode::{Sha256Hasher, SignedObservation, UtcTime};

use rs_merkle::{algorithms::Sha256, Hasher, MerkleTree};
use sha2::Digest;

fn key(x: f64) -> u64 {
    reading_key(x.to_bits())
}

fn obs(key_name: &str, value: u64, sig: &str) -> SignedObservation {
    SignedObservation {
        node_id: "n".to_string(),
        key: key_name.to_string(),
        value,
        timestamp: UtcTime { secs: 0, nanos: 0 },
        signature: sig.to_string(),
        public_key: "pk".to_string(),
    }
}

fn sha256(data: &[u8]) -> [u8; 32] {
    sha2::Sha256::digest(data).into()
}

#[test]
fn median_of_odd_count_is_middle() {
    let mut v = vec![5, 1, 3];
    assert_eq!(calculate_median(&mut v), Median::Single(3));
    assert_eq!(v, vec![1, 3, 5]);
}

#[test]
fn median_of_even_count_is_pair() {
    let mut v = vec![10, 2, 8, 4];
    assert_eq!(calculate_median(&mut v), Median::Between(4, 8));
    assert_eq!(v, vec![2, 4, 8, 10]);
}

#[test]
fn median_of_single_value() {
    let mut v = vec![42];
    assert_eq!(calculate_median(&mut v), Median::Single(42));
}

#[test]
fn median_keeps_duplicates() {
    let mut v = vec![7, 7, 1, 7, 9, 1];
    assert_eq!(calculate_median(&mut v), Median::Between(7, 7));
    assert_eq!(v, vec![1, 1, 7, 7, 7, 9]);
}

#[test]
fn median_does_not_depend_on_order() {
    let base = vec![31u64, 4, 15, 92, 65, 35, 89];
    let mut a = base.clone();
    let expected = calculate_median(&mut a);
    let mut b = base.clone();
    b.reverse();
    let mut c = base.clone();
    c.rotate_left(3);
    assert_eq!(calculate_median(&mut b), expected);
    assert_eq!(calculate_median(&mut c), expected);
    assert_eq!(a, b);
    assert_eq!(a, c);
}

#[test]
fn median_resists_outliers() {
    // three of five readings lie between 2495 and 2505; two are wild
    let readings = [2_500.0, 25_000.0, 2_497.5, -1.0e9, 2_504.25];
    let mut keys: Vec<u64> = readings.iter().map(|x| key(*x)).collect();
    match calculate_median(&mut keys) {
        Median::Single(k) => {
            let m = f64::from_bits(reading_bits(k));
            assert!((2_495.0..=2_505.0).contains(&m));
            assert_eq!(m, 2_500.0);
        }
        other => panic!("unexpected {:?}", other),
    }
}

#[test]
fn median_of_readings_uses_numeric_order() {
    let readings = [2_510.0, -3.5, 2_490.0, 0.0, 2_500.0, 1.0e-3];
    let mut keys: Vec<u64> = readings.iter().map(|x| key(*x)).collect();
    let m = calculate_median(&mut keys);
    let sorted: Vec<f64> = keys.iter().map(|k| f64::from_bits(reading_bits(*k))).collect();
    assert_eq!(sorted, vec![-3.5, 0.0, 1.0e-3, 2_490.0, 2_500.0, 2_510.0]);
    assert_eq!(m, Median::Between(key(1.0e-3), key(2_490.0)));
}

#[test]
fn reading_keys_round_trip() {
    for x in [0.0f64, -0.0, 1.5, -1.5, f64::MAX, f64::MIN, 2_500.125, f64::INFINITY] {
        assert_eq!(reading_bits(reading_key(x.to_bits())), x.to_bits());
    }
    for k in [0u64, 1, u64::MAX, 0x8000_0000_0000_0000, 0x7fff_ffff_ffff_ffff] {
        assert_eq!(reading_key(reading_bits(k)), k);
    }
}

#[test]
fn reading_keys_follow_numeric_order() {
    let xs = [f64::NEG_INFINITY, -1.0e9, -2.5, -0.0, 0.0, 1.0e-9, 2.5, 1.0e9, f64::INFINITY];
    for w in xs.windows(2) {
        assert!(key(w[0]) < key(w[1]));
    }
}

#[test]
fn compare_bytes_is_lexicographic() {
    assert_eq!(compare_bytes(b"ETH/USD", b"ETH/USD"), KeyOrder::Equal);
    assert_eq!(compare_bytes(b"BTC/USD", b"ETH/USD"), KeyOrder::Less);
    assert_eq!(compare_bytes(b"ETH", b"ETH/USD"), KeyOrder::Less);
    assert_eq!(compare_bytes(b"ETH/USD", b"ETH"), KeyOrder::Greater);
    assert_eq!(compare_bytes(b"", b""), KeyOrder::Equal);
    assert_eq!(compare_bytes(b"b", b"a"), KeyOrder::Greater);
}

#[test]
fn grouping_sorts_keys_and_keeps_arrival_order() {
    let o = vec![
        obs("ETH/USD", 3, "s1"),
        obs("BTC/USD", 9, "s2"),
        obs("ETH/USD", 1, "s3"),
        obs("SOL/USD", 4, "s4"),
        obs("BTC/USD", 2, "s5"),
    ];
    let g = group_by_key(&o);
    assert_eq!(
        g,
        vec![
            ("BTC/USD".to_string(), vec![9, 2]),
            ("ETH/USD".to_string(), vec![3, 1]),
            ("SOL/USD".to_string(), vec![4]),
        ]
    );
    let total: usize = g.iter().map(|(_, v)| v.len()).sum();
    assert_eq!(total, o.len());
}

#[test]
fn grouping_of_nothing_is_empty() {
    assert!(group_by_key(&Vec::new()).is_empty());
}

#[test]
fn grouping_orders_by_bytes() {
    let o = vec![obs("b", 1, "x"), obs("B", 2, "x"), obs("a", 3, "x"), obs("é", 4, "x"), obs("ab", 5, "x")];
    let keys: Vec<String> = group_by_key(&o).into_iter().map(|(k, _)| k).collect();
    let mut expected: Vec<String> = vec!["b", "B", "a", "é", "ab"].into_iter().map(String::from).collect();
    expected.sort();
    assert_eq!(keys, expected);
}

#[test]
fn merkle_root_of_nothing_is_zero() {
    assert_eq!(build_merkle_root(&Vec::new()), "0".repeat(64));
}

#[test]
fn merkle_root_of_one_value_is_its_leaf() {
    let values = vec![("ETH/USD".to_string(), "2500.5".to_string())];
    let expected = hex::encode(sha256(b"ETH/USD:2500.5"));
    assert_eq!(build_merkle_root(&values), expected);
}

#[test]
fn merkle_root_of_two_values_hashes_both_leaves() {
    let values = vec![
        ("BTC/USD".to_string(), "60000".to_string()),
        ("ETH/USD".to_string(), "2500".to_string()),
    ];
    let mut both = sha256(b"BTC/USD:60000").to_vec();
    both.extend_from_slice(&sha256(b"ETH/USD:2500"));
    assert_eq!(build_merkle_root(&values), hex::encode(sha256(&both)));
}

#[test]
fn merkle_root_matches_rs_merkle() {
    let values: Vec<(String, String)> =
        (0..5).map(|i| (format!("K{}", i), format!("{}", i * 10))).collect();
    let leaves: Vec<[u8; 32]> =
        values.iter().map(|(k, v)| Sha256::hash(format!("{}:{}", k, v).as_bytes())).collect();
    let root = MerkleTree::<Sha256>::from_leaves(&leaves).root().unwrap();
    assert_eq!(build_merkle_root(&values), hex::encode(root));
}

#[test]
fn merkle_root_depends_on_values() {
    let a = vec![("ETH/USD".to_string(), "2500".to_string())];
    let b = vec![("ETH/USD".to_string(), "2501".to_string())];
    assert_ne!(build_merkle_root(&a), build_merkle_root(&b));
}

#[test]
fn signatures_are_collected_in_order() {
    let o = vec![obs("a", 1, "s1"), obs("b", 2, "s2"), obs("a", 3, "s3")];
    assert_eq!(collect_signatures(&o), vec!["s1", "s2", "s3"]);
}

#[test]
fn sha256_hasher_matches_known_vector() {
    assert_eq!(
        hex::encode(Sha256Hasher::hash(b"abc")),
        "ba7816bf8f01cfea414140de5dae2223b00361a396177a9cb410ff61f20015ad"
    );
    assert_eq!(
        hex::encode(Sha256Hasher::hash(b"")),
        "e3b0c44298fc1c149afbf4c8996fb92427ae41e4649b934ca495991b7852b855"
    );
}

#[test]
fn hex_encoding_matches_hex_crate() {
    assert_eq!(encode_hex(&[]), "");
    assert_eq!(encode_hex(&[0x00, 0x0f, 0xa5, 0xff]), "000fa5ff");
    let bytes: Vec<u8> = (0..=255).collect();
    let text = encode_hex(&bytes);
    assert_eq!(text, hex::encode(&bytes));
    assert_eq!(text.len(), 2 * bytes.len());
    assert!(text.chars().all(|c| c.is_ascii_hexdigit() && !c.is_ascii_uppercase()));
}

#[test]
fn leaf_text_joins_key_and_value() {
    let t = vnode::aggregate::leaf_text_of(&"ETH/USD".to_string(), &"2500.5".to_string());
    assert_eq!(t, "ETH/USD:2500.5");
}

#[test]
fn root_text_of_missing_root_is_zero() {
    assert_eq!(vnode::aggregate::root_hex(None), "0".repeat(64));
    let mut r = [0u8; 32];
    r[0] = 0xab;
    r[31] = 0x01;
    let text = vnode::aggregate::root_hex(Some(r));
    assert!(text.starts_with("ab"));
    assert!(text.ends_with("01"));
    assert_eq!(text.len(), 64);
}

#[test]
fn medians_per_key_in_key_order() {
    let o = vec![
        obs("ETH/USD", 30, "s1"),
        obs("BTC/USD", 9, "s2"),
        obs("ETH/USD", 10, "s3"),
        obs("ETH/USD", 20, "s4"),
        obs("BTC/USD", 2, "s5"),
    ];
    let table = vnode::aggregate::aggregate_medians(&o);
    assert_eq!(
        table,
        vec![
            ("BTC/USD".to_string(), Median::Between(2, 9)),
            ("ETH/USD".to_string(), Median::Single(20)),
        ]
    );
}

#[test]
fn snapshot_commits_medians_and_signatures() {
    let o = vec![obs("ETH/USD", 30, "s1"), obs("ETH/USD", 10, "s2")];
    let medians = vnode::aggregate::aggregate_medians(&o);
    let texts = vec!["20".to_string()];
    let snap = vnode::aggregate::QuorumSnapshot::assemble(5, medians.clone(), &texts, &o);
    assert_eq!(snap.epoch, 5);
    assert_eq!(snap.values, medians);
    assert_eq!(snap.signatures, vec!["s1", "s2"]);
    assert_eq!(snap.merkle_root, hex::encode(sha256(b"ETH/USD:20")));
}

#[test]
fn snapshot_of_empty_round_has_zero_root() {
    let snap = vnode::aggregate::QuorumSnapshot::assemble(1, Vec::new(), &Vec::new(), &Vec::new());
    assert_eq!(snap.merkle_root, "0".repeat(64));
    assert!(snap.values.is_empty());
    assert!(snap.signatures.is_empty());
}

#[test]
fn rounds_with_same_readings_agree() {
    let a = vec![
        obs("ETH/USD", 30, "s1"),
        obs("BTC/USD", 9, "s2"),
        obs("ETH/USD", 10, "s3"),
        obs("BTC/USD", 2, "s4"),
        obs("ETH/USD", 20, "s5"),
    ];
    let b = vec![
        obs("BTC/USD", 2, "t1"),
        obs("ETH/USD", 20, "t2"),
        obs("ETH/USD", 30, "t3"),
        obs("BTC/USD", 9, "t4"),
        obs("ETH/USD", 10, "t5"),
    ];
    let ta = vnode::aggregate::aggregate_medians(&a);
    let tb = vnode::aggregate::aggregate_medians(&b);
    assert_eq!(ta, tb);
}

#[test]
fn median_of_single_nan_reading_is_that_reading() {
    let k = key(f64::NAN);
    let mut v = vec![k];
    assert_eq!(calculate_median(&mut v), Median::Single(k));
    assert!(f64::from_bits(reading_bits(k)).is_nan());
}

#[test]
fn median_keeps_zeros_in_arrival_order() {
    // -0.0 and +0.0 are equal numbers: a stable sort leaves them as they came
    let mut a = vec![key(0.0), key(-0.0), key(1.0)];
    assert_eq!(calculate_median(&mut a), Median::Single(key(-0.0)));
    assert_eq!(a, vec![key(0.0), key(-0.0), key(1.0)]);
    let mut b = vec![key(-0.0), key(2.0), key(0.0)];
    assert_eq!(calculate_median(&mut b), Median::Single(key(0.0)));
    assert_eq!(b, vec![key(-0.0), key(0.0), key(2.0)]);
    let mut c = vec![key(1.0), key(-1.0), key(0.0), key(-0.0)];
    assert_eq!(calculate_median(&mut c), Median::Between(key(0.0), key(-0.0)));
}
