//! The transaction hash set of a chain: three append-only Merkle trees that hold
//! the outputs, their range proofs and the transaction kernels, and the rules by
//! which blocks and transactions change them.
//!
//! The trees, the chain store and the cryptography are not part of this library.
//! Every operation is a dialogue with whoever has them: it makes one request at
//! a time ([`program::Request`]), is resumed with the reply
//! ([`program::Reply`]), and ends with a result. The contract of an operation
//! names its program, the mathematical form of the whole dialogue
//! ([`program::Program`]), so that every request, and the result for every
//! course of replies, is fixed.
//!
//! - [`txhashset`], [`compact`]: the trees as their files have them.
//! - [`extending`], [`extension`]: units of work on top of the trees.
//! - [`apply`], [`tasks`], [`block`], [`raw_tx`]: what blocks and transactions do.
//! - [`rewind`], [`merkle`]: going back to an earlier block.
//! - [`validation`], [`signatures`], [`rangeproofs`], [`leaves`], [`maturity`]:
//!   checks.
//! - [`script`], [`query`]: plain sequences of requests, and single questions.
//! - [`world`] models what answers the requests, [`courses`] tells courses of
//!   replies apart, and the modules named after laws prove what the operations
//!   promise: in that world, in courses in which nothing fails or in which it is
//!   settled what verifies, and whatever the replies are.
pub mod accept_laws;
pub mod apply;
pub mod bitmap;
pub mod block;
pub mod block_laws;
pub mod chain_laws;
pub mod commit_laws;
pub mod compact;
pub mod courses;
pub mod exact_laws;
pub mod extend_laws;
pub mod extending;
pub mod extension;
pub mod heed_laws;
pub mod leaf_laws;
pub mod leaves;
pub mod log_laws;
pub mod maturity;
pub mod merkle;
pub mod need_laws;
pub mod paths;
pub mod pmmr;
pub mod pmmr_laws;
pub mod pool_laws;
pub mod program;
pub mod query;
pub mod rangeproofs;
pub mod raw_tx;
pub mod read_laws;
pub mod replay_laws;
pub mod rewind;
pub mod rewind_laws;
pub mod script;
pub mod select_laws;
pub mod settle_laws;
pub mod signatures;
pub mod spend_laws;
pub mod state_laws;
pub mod table;
pub mod tally_laws;
pub mod tasks;
pub mod turn_laws;
pub mod tx_laws;
pub mod txhashset;
pub mod types;
pub mod validation;
pub mod validation_laws;
pub mod verdict_laws;
pub mod visible_laws;
pub mod world;
