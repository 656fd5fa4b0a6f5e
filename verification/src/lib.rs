//! Small-state conflict-free replicated containers with verified merge laws.

pub mod atom;
pub mod crdt;
pub mod crdt_map;
pub mod error;
pub mod expiring_set;
pub mod grow_only_set;
pub mod maps;
pub mod order;
pub mod ranking;
pub mod register;
pub mod sized_set;
pub mod sorted_map;
pub mod values;
