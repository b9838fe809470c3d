//! An identity-and-state engine for observing Bluetooth Low Energy
//! advertisers: it derives a stable signature for each advertiser from its
//! ephemeral advertisement data, merges repeated sightings into per-device
//! records, orders and diffs snapshots of those records, and offers a bounded,
//! recency-evicting tracker with a compact serialized form for constrained
//! deployments.

pub mod compact;
pub mod device_state;
pub mod device_tracker;
pub mod discover;
pub mod history;
pub mod keyed;
pub mod peripheral;
pub mod scan_mode;
pub mod signature;
pub mod snapshot;
pub mod state;
pub mod time;
