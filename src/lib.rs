//! A UTXO ledger state-transition engine: transactions spend unspent outputs
//! and create new ones, under verified rules for double-spend freedom,
//! authorization and value conservation.

pub mod types;
pub mod encoding;
pub mod utxo_set;
pub mod ledger;
pub mod laws;
