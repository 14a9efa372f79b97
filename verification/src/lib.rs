//! Execution-time data layer of a blockchain runtime.
//!
//! Two surfaces are covered. The first turns untyped, caller-supplied JSON
//! call arguments into canonical typed binary values: a homogeneity
//! pre-check on raw JSON, a type-directed encoder producing bytes in the
//! ledger's canonical binary format, and whole-call resolution that splits
//! object-reference arguments from primitive arguments. The second mediates
//! all object reads, writes and deletes performed during a single
//! transaction: a persistent id-to-object map overlaid by a per-transaction
//! scratchpad, committed atomically by `flush` or discarded by `reset`.

pub mod base_types;
pub mod codec;
pub mod storage;
pub mod sui_json;
pub mod wallet_commands;
