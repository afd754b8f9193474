use ed25519_dalek::{Signature, Signer, SigningKey, Verifier, VerifyingKey};
use vnode::node::{next_round, RoundAction};
use vnode::simulation::{injected_delay, total_latency};
use vnode::{ExchangeApi, IngestionNode, StateValue, UtcTime};

const RFC8032_SECRET: &str = "9d61b19deffd5a60ba844af492ec2cc44449c5697b326919703bac031cae7f60";
const RFC8032_PUBLIC: &str = "d75a980182b10ab7d54bfed3c964073a0ee172f3daa62325af021a68f707511a";

fn rfc_secret() -> [u8; 32] {
    hex::decode(RFC8032_SECRET).unwrap().try_into().unwrap()
}

#[test]
fn node_keeps_name_and_interval() {
    let n = IngestionNode::new("node_alpha", 250);
    assert_eq!(n.id(), "node_alpha");
    assert_eq!(n.interval_ms(), 250);
    assert_eq!(n.public_key_hex().len(), 64);
}

#[test]
fn fresh_nodes_get_distinct_keys() {
    let a = IngestionNode::new("a", 1);
    let b = IngestionNode::new("a", 1);
    assert_ne!(a.public_key_hex(), b.public_key_hex());
}

#[test]
fn public_key_matches_rfc8032_vector() {
    let n = IngestionNode::with_secret_key("n", 1, rfc_secret());
    assert_eq!(n.public_key_hex(), RFC8032_PUBLIC);
}

#[test]
fn signed_observation_at_fixed_time() {
    let n = IngestionNode::with_secret_key("node_alpha", 250, rfc_secret());
    let t = UtcTime { secs: 0, nanos: 0 };
    let o = n.sign_observation_at("ETH/USD", 42, "2500.5", t).unwrap();
    assert_eq!(o.node_id, "node_alpha");
    assert_eq!(o.key, "ETH/USD");
    assert_eq!(o.value, 42);
    assert_eq!(o.timestamp, t);
    assert_eq!(o.public_key, RFC8032_PUBLIC);
    let message = "node_alpha:ETH/USD:2500.5:1970-01-01T00:00:00+00:00";
    let expected = SigningKey::from_bytes(&rfc_secret()).sign(message.as_bytes());
    assert_eq!(o.signature, hex::encode(expected.to_bytes()));
}

#[test]
fn signed_observation_writes_nanoseconds() {
    let n = IngestionNode::with_secret_key("n", 1, rfc_secret());
    let t = UtcTime { secs: 1_431_648_000, nanos: 123_456_789 };
    let o = n.sign_observation_at("K", 1, "1", t).unwrap();
    let message = "n:K:1:2015-05-15T00:00:00.123456789+00:00";
    let expected = SigningKey::from_bytes(&rfc_secret()).sign(message.as_bytes());
    assert_eq!(o.signature, hex::encode(expected.to_bytes()));
}

#[test]
fn signing_is_deterministic() {
    let n = IngestionNode::with_secret_key("n", 1, rfc_secret());
    let t = UtcTime { secs: 1_700_000_000, nanos: 1 };
    let a = n.sign_observation_at("K", 1, "1.25", t).unwrap();
    let b = n.sign_observation_at("K", 1, "1.25", t).unwrap();
    assert_eq!(a.signature, b.signature);
    let c = n.sign_observation_at("K", 1, "1.26", t).unwrap();
    assert_ne!(a.signature, c.signature);
}

#[test]
fn unrepresentable_time_gives_no_observation() {
    let n = IngestionNode::with_secret_key("n", 1, rfc_secret());
    assert!(n.sign_observation_at("K", 1, "1", UtcTime { secs: i64::MAX, nanos: 0 }).is_none());
    assert!(n.sign_observation_at("K", 1, "1", UtcTime { secs: 0, nanos: 2_000_000_000 }).is_none());
}

#[test]
fn observation_signed_now_verifies() {
    let n = IngestionNode::new("node_alpha", 250);
    let o = n.sign_observation("ETH/USD", 7, "2512.75");
    let dt = chrono::DateTime::from_timestamp(o.timestamp.secs, o.timestamp.nanos).unwrap();
    let message = format!("node_alpha:ETH/USD:2512.75:{}", dt.to_rfc3339());
    let pk: [u8; 32] = hex::decode(&o.public_key).unwrap().try_into().unwrap();
    let sig: [u8; 64] = hex::decode(&o.signature).unwrap().try_into().unwrap();
    let vk = VerifyingKey::from_bytes(&pk).unwrap();
    assert!(vk.verify(message.as_bytes(), &Signature::from_bytes(&sig)).is_ok());
    assert_eq!(o.signature.len(), 128);
    assert_eq!(o.public_key.len(), 64);
}

#[test]
fn state_value_is_stamped_now() {
    let before = chrono::Utc::now().timestamp();
    let s = StateValue::observed(9, "Feed_A".to_string());
    assert_eq!(s.value, 9);
    assert_eq!(s.source, "Feed_A");
    assert!(s.timestamp.secs >= before);
    assert!(s.timestamp.nanos < 1_000_000_000);
}

#[test]
fn exchange_api_name() {
    let api = ExchangeApi { name: "Feed_A".to_string() };
    assert_eq!(api.name(), "Feed_A");
}

#[test]
fn rounds_skip_until_state_is_present() {
    assert_eq!(next_round(0, true), (1, RoundAction::Skip));
    assert_eq!(next_round(1, false), (2, RoundAction::Aggregate { epoch: 2 }));
    assert_eq!(next_round(41, false), (42, RoundAction::Aggregate { epoch: 42 }));
}

#[test]
fn no_delay_when_maximum_is_zero() {
    assert_eq!(injected_delay((0, 0)), None);
    assert_eq!(injected_delay((5, 0)), None);
}

#[test]
fn fixed_delay_when_bounds_agree() {
    assert_eq!(injected_delay((30, 30)), Some(30));
}

#[test]
fn random_delay_within_bounds() {
    for _ in 0..200 {
        let d = injected_delay((10, 20)).unwrap();
        assert!((10..=20).contains(&d));
    }
}

#[test]
fn latency_total_sums() {
    assert_eq!(total_latency(&vec![]), Some(0));
    assert_eq!(total_latency(&vec![3, 4, 5]), Some(12));
}

#[test]
fn latency_total_overflow_is_none() {
    assert_eq!(total_latency(&vec![u128::MAX, 1]), None);
    assert_eq!(total_latency(&vec![u128::MAX]), Some(u128::MAX));
}

#[test]
fn observation_message_layout() {
    let m = vnode::node::observation_message_text("node_alpha", "ETH/USD", "2500", "1970-01-01T00:00:00+00:00");
    assert_eq!(m, "node_alpha:ETH/USD:2500:1970-01-01T00:00:00+00:00");
}
