//! Verified core of a verifiable data node: staking economics, deterministic
//! median aggregation, Merkle commitments and signed observations.

pub mod aggregate;
pub mod clock;
pub mod crypto;
pub mod economics;
pub mod hexcode;
pub mod median;
pub mod node;
pub mod ordering;
pub mod simulation;
pub mod split;

pub use aggregate::QuorumSnapshot;
pub use clock::UtcTime;
pub use crypto::Sha256Hasher;
pub use economics::{NodeStats, SlashingEvent, StakingError, StakingManager};
pub use node::{ExchangeApi, IngestionNode, SignedObservation, StateValue};
