//! An index over a blockchain's canonical ledger and its unconfirmed pool,
//! kept consistent with a node that is the sole source of truth.

pub mod chain;
pub mod fetch;
pub mod mempool;
pub mod query;
pub mod schema;
pub mod store;
pub mod sync;
