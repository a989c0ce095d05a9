//! A small in-memory key-value store: a snapshot decoder that restores the
//! initial keyspace from a binary dump, a store with get/set/remove/keys, and
//! a command engine that parses the array-of-bulk-strings wire protocol,
//! dispatches commands against the store, and encodes replies.

pub mod load;
pub mod process;
pub mod store;
pub mod text;
pub mod wire;
