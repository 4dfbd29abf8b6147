//! Transaction execution context: keyed storage with read-your-own-writes and
//! all-or-nothing commit, a token ledger with conservation of value, a typed
//! event log, a router that dispatches protocol actions to modules, and the
//! entry convention of a transaction program.

pub mod threads;
pub mod store;
pub mod types;
pub mod ledger;
pub mod ctx;
pub mod ibc;
pub mod tx;
