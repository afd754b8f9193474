//! An ingestion node: its observations, their signatures and the decisions of
//! its consensus rounds.
//!
//! Readings are held by their integer keys (see `ordering::reading_key`); the
//! text of a reading, as it is signed and committed, is given alongside.

use vstd::prelude::*;

use crate::clock::{representable, rfc3339, rfc3339_text, utc_now, UtcTime};
use crate::crypto::{
    ed25519_public_key, ed25519_sign, ed25519_signature, ed25519_verifying_key,
    generate_secret_key,
};
use crate::hexcode::{encode_hex, hex_encoding, lemma_hex_shape};
use vstd::utf8::encode_utf8;

verus! {

/// The latest value of one tracked key in a node's state cache.
#[derive(Debug)]
pub struct StateValue {
    /// The reading's key.
    pub value: u64,
    pub timestamp: UtcTime,
    pub source: String,
}

impl StateValue {
    /// A value read now from `source`.
    pub fn observed(value: u64, source: String) -> (s: Self)
        ensures
            s.value == value,
            s.source == source,
            representable(s.timestamp),
    {
        StateValue { value, timestamp: utc_now(), source }
    }
}

/// An observation of `key` by `node_id`, signed by that node.
#[derive(Debug)]
pub struct SignedObservation {
    pub node_id: String,
    pub key: String,
    /// The reading's key.
    pub value: u64,
    pub timestamp: UtcTime,
    /// Lower-case hexadecimal text of the 64-byte Ed25519 signature.
    pub signature: String,
    /// Lower-case hexadecimal text of the 32-byte Ed25519 public key.
    pub public_key: String,
}

impl Clone for SignedObservation {
    fn clone(&self) -> (res: Self)
        ensures
            res == *self,
    {
        SignedObservation {
            node_id: self.node_id.clone(),
            key: self.key.clone(),
            value: self.value,
            timestamp: self.timestamp,
            signature: self.signature.clone(),
            public_key: self.public_key.clone(),
        }
    }
}

/// A data feed, named by `name`.
#[derive(Debug)]
pub struct ExchangeApi {
    pub name: String,
}

impl ExchangeApi {
    /// The feed's name.
    pub fn name(&self) -> (r: String)
        ensures
            r@ == self.name@,
    {
        self.name.clone()
    }
}

/// The text that a node signs for an observation:
/// `node:key:value:time`, the time in RFC 3339.
pub open spec fn observation_message(
    node: Seq<char>,
    key: Seq<char>,
    value_text: Seq<char>,
    time_text: Seq<char>,
) -> Seq<char> {
    node + seq![':'] + key + seq![':'] + value_text + seq![':'] + time_text
}

/// The text that a node signs for an observation.
pub fn observation_message_text(node: &str, key: &str, value_text: &str, time_text: &str) -> (m:
    String)
    ensures
        m@ == observation_message(node@, key@, value_text@, time_text@),
{
    let mut message = node.to_owned();
    message.append(":");
    message.append(key);
    message.append(":");
    message.append(value_text);
    message.append(":");
    message.append(time_text);
    proof {
        reveal_strlit(":");
        assert(message@ =~= observation_message(node@, key@, value_text@, time_text@));
    }
    message
}

/// `o` is the observation that a node `node` with secret key `secret` makes
/// of `key` at `timestamp`, for the reading `value` written `value_text`.
pub open spec fn is_signed_observation(
    o: SignedObservation,
    node: Seq<char>,
    secret: Seq<u8>,
    key: Seq<char>,
    value: u64,
    value_text: Seq<char>,
    timestamp: UtcTime,
) -> bool {
    &&& rfc3339_text(timestamp.secs, timestamp.nanos) is Some
    &&& o.node_id@ == node
    &&& o.key@ == key
    &&& o.value == value
    &&& o.timestamp == timestamp
    &&& o.signature@ == hex_encoding(
        ed25519_signature(
            secret,
            encode_utf8(
                observation_message(
                    node,
                    key,
                    value_text,
                    rfc3339_text(timestamp.secs, timestamp.nanos)->0,
                ),
            ),
        ),
    )
    &&& o.public_key@ == hex_encoding(ed25519_public_key(secret))
}

/// A node that ingests readings and signs what it observes.
pub struct IngestionNode {
    id: String,
    secret_key: [u8; 32],
    interval_ms: u64,
}

impl IngestionNode {
    pub closed spec fn spec_id(&self) -> Seq<char> {
        self.id@
    }

    pub closed spec fn spec_secret(&self) -> Seq<u8> {
        self.secret_key@
    }

    pub closed spec fn spec_interval_ms(&self) -> u64 {
        self.interval_ms
    }

    /// A node named `id` that polls its sources every `interval_ms`
    /// milliseconds, with a fresh random signing key.
    pub fn new(id: &str, interval_ms: u64) -> (n: Self)
        ensures
            n.spec_id() == id@,
            n.spec_interval_ms() == interval_ms,
            n.spec_secret().len() == 32,
    {
        let secret = generate_secret_key();
        Self::with_secret_key(id, interval_ms, secret)
    }

    /// A node named `id` that signs with the given 32-byte secret key.
    pub fn with_secret_key(id: &str, interval_ms: u64, secret_key: [u8; 32]) -> (n: Self)
        ensures
            n.spec_id() == id@,
            n.spec_interval_ms() == interval_ms,
            n.spec_secret() == secret_key@,
            n.spec_secret().len() == 32,
    {
        IngestionNode { id: id.to_owned(), secret_key, interval_ms }
    }

    /// The node's name.
    pub fn id(&self) -> (r: String)
        ensures
            r@ == self.spec_id(),
    {
        self.id.clone()
    }

    /// The polling interval in milliseconds.
    pub fn interval_ms(&self) -> (r: u64)
        ensures
            r == self.spec_interval_ms(),
    {
        self.interval_ms
    }

    /// Lower-case hexadecimal text of the node's public key.
    pub fn public_key_hex(&self) -> (r: String)
        ensures
            r@ == hex_encoding(ed25519_public_key(self.spec_secret())),
            r@.len() == 64,
    {
        let pk = ed25519_verifying_key(&self.secret_key);
        proof {
            lemma_hex_shape(pk@);
        }
        encode_hex(&pk)
    }

    /// Signs an observation of `key` with the reading `value` (written
    /// `value_text`) made at `timestamp`. `None` where chrono cannot write
    /// the timestamp.
    pub fn sign_observation_at(
        &self,
        key: &str,
        value: u64,
        value_text: &str,
        timestamp: UtcTime,
    ) -> (r: Option<SignedObservation>)
        ensures
            r is None <==> rfc3339_text(timestamp.secs, timestamp.nanos) is None,
            r matches Some(o) ==> is_signed_observation(
                o,
                self.spec_id(),
                self.spec_secret(),
                key@,
                value,
                value_text@,
                timestamp,
            ),
            r matches Some(o) ==> o.signature@.len() == 128 && o.public_key@.len() == 64,
    {
        let time_text = match rfc3339(&timestamp) {
            Some(t) => t,
            None => {
                return None;
            },
        };
        let message = observation_message_text(self.id.as_str(), key, value_text, time_text.as_str());
        let signature = ed25519_sign(&self.secret_key, message.as_str().as_bytes());
        let public_key = ed25519_verifying_key(&self.secret_key);
        proof {
            lemma_hex_shape(signature@);
            lemma_hex_shape(public_key@);
        }
        Some(
            SignedObservation {
                node_id: self.id.clone(),
                key: key.to_owned(),
                value,
                timestamp,
                signature: encode_hex(&signature),
                public_key: encode_hex(&public_key),
            },
        )
    }

    /// Signs an observation of `key` with the reading `value` (written
    /// `value_text`), made now.
    pub fn sign_observation(&self, key: &str, value: u64, value_text: &str) -> (o:
        SignedObservation)
        ensures
            exists|t: UtcTime|
                representable(t) && #[trigger] is_signed_observation(
                    o,
                    self.spec_id(),
                    self.spec_secret(),
                    key@,
                    value,
                    value_text@,
                    t,
                ),
            o.signature@.len() == 128,
            o.public_key@.len() == 64,
    {
        let now = utc_now();
        self.sign_observation_at(key, value, value_text, now).unwrap()
    }
}

/// What a consensus round does after its tick.
#[derive(Clone, Copy, Debug, PartialEq, Eq, Structural)]
pub enum RoundAction {
    /// Nothing is tracked yet: wait for the next tick.
    Skip,
    /// Aggregate the observations for this epoch.
    Aggregate { epoch: u64 },
}

/// The decision of one consensus round: the epoch advances on every tick, and
/// a round aggregates only when the state cache holds something.
pub fn next_round(epoch: u64, state_is_empty: bool) -> (r: (u64, RoundAction))
    requires
        epoch < u64::MAX,
    ensures
        r.0 == epoch + 1,
        state_is_empty ==> r.1 == RoundAction::Skip,
        !state_is_empty ==> r.1 == (RoundAction::Aggregate { epoch: (epoch + 1) as u64 }),
{
    let next = epoch + 1;
    if state_is_empty {
        (next, RoundAction::Skip)
    } else {
        (next, RoundAction::Aggregate { epoch: next })
    }
}

} // verus!
