# vnode

The verified core of a verifiable data node: staking economics, deterministic
median aggregation of signed observations, and Merkle commitments of the
aggregated state. The library in `src/` is written in Verus; every function in
it carries a contract that Verus proves.

- `src/economics.rs`: the staking registry (registration, reputation,
  slashing, reward split and distribution), in integer units.
- `src/split.rs`: splitting a pool of whole units over weights by largest
  remainders, so that the whole pool is handed out.
- `src/median.rs`: sorting and the median of reading keys, with the laws that
  make aggregation deterministic (up to the sign of a zero reading) and
  outlier-resistant.
- `src/aggregate.rs`: grouping observations by key, per-key medians, Merkle
  roots and round snapshots.
- `src/node.rs`: ingestion nodes and their signed observations.
- `src/crypto.rs`, `src/clock.rs`: calls into `sha2`, `rs_merkle`,
  `ed25519-dalek` and `chrono`, behind trusted contracts.
- `src/ordering.rs`, `src/hexcode.rs`: byte order of keys, integer keys of
  readings, hexadecimal text.
- `src/simulation.rs`: decisions of the fault-injection harness.

`app/` holds the executable around it: tokio tasks, locks, data sources,
logging, serde copies of the records, and the floating-point readings, which
the library handles through their integer keys.
