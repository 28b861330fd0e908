//! An immutable, segmented snapshot store for finalized chain history.
//!
//! Headers, transactions and receipts are kept in append-only jars, each
//! covering one aligned block range of one segment. A two-map index resolves
//! a block number or a transaction number to the jar that holds it.
use vstd::prelude::*;

pub mod segment;
pub mod primitives;
pub mod jar;
pub mod index;
pub mod error;
pub mod store;
pub mod provider;
pub mod readers;
pub mod snapshotter;
pub mod unsupported;
pub mod execution;
pub mod laws;
pub mod naming;
pub mod cache;

verus! {

} // verus!
