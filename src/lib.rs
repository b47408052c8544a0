//! A flash translation layer that exposes a random-access block address space
//! on top of a zoned (sequential-write) NVMe namespace.
//!
//! - `map`: the logical-to-physical map, its reverse, and the invalid-block bitmap;
//! - `zones`: zone records and the pools that partition the zones;
//! - `nonseq`: the layer's state and the decisions of its write, read and reclaim paths;
//! - `laws`: what holds of every state the layer's operations leave;
//! - `nvme`, `queues`, `zns`: the commands, rings and zone data the layer exchanges with the device.
pub mod error;
pub mod map;
pub mod zones;
pub mod nvme;
pub mod nonseq;
pub mod laws;
pub mod zns;
pub mod queues;
