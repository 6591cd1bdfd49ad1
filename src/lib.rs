//! A multi-valued map data type for an embeddable key-value store: the container,
//! its snapshot codec, its replication-log emitter and the command layer that guards
//! the host keyspace.
pub mod bytes;
pub mod multi_map;
pub mod codec;
pub mod replication;
pub mod command;
