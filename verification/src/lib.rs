//! The deterministic core of an off-chain order-matching engine whose
//! outputs are anchored to a blockchain.
//!
//! Two subsystems make up the library.  The matching engine
//! ([`orderbook`], [`matcher`]) is a price-time-priority limit order
//! book with self-trade prevention and partial fills; its operations
//! carry contracts for crossing, conservation, priority and cancel
//! idempotence.  The state-commitment layer ([`merkle`], [`smt`],
//! [`encode`], [`prover`]) keys a sparse Merkle tree by hashed,
//! type-tagged byte keys, packs balances and book aggregates into
//! 256-bit cells, and turns each processed command into a before and
//! after multiproof against the tree's root.
//!
//! All amounts and prices are scaled integers: a fixed-point decimal
//! at its currency's scale, so that comparison and arithmetic are
//! exact and hash inputs are reproduced bit for bit on every node.

pub mod encode;
pub mod matcher;
pub mod merkle;
pub mod orderbook;
pub mod prover;
pub mod smt;
pub mod types;
