//! A point/token exchange ledger: named users transfer named-token
//! quantities to one another, and the engine answers balance and history
//! queries. Identity references are resolved by id, by name, or by
//! name-with-create; balances derive from an append-only transaction
//! history; aggregate queries project that history per sender, per token,
//! and per receiver with a selectable sort order.

pub mod aggregate;
pub mod cli;
pub mod engine;
pub mod laws;
pub mod model;
