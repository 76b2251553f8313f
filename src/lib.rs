//! Reconciliation of accounts and transactions fetched from a SimpleFIN
//! aggregation server into a local ledger.
pub mod money;
pub mod models;
pub mod store;
pub mod error;
pub mod simplefin;
pub mod sync;
pub mod scheduler;
