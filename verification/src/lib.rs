//! Event-driven provisioning core for a local game client's control API.
//!
//! The crate holds the verified logic of a background agent that watches
//! match-setup events and provisions perk loadouts: the phase state machine,
//! the fact decoders' decision rules, the subscription registry and frame
//! grammar of the streaming channel, the capacity/eviction planner, the
//! startup cleanup planner, and the candidate merge/dedup/rank pipeline.
//! All I/O (HTTP, websocket, database, process discovery) lives outside,
//! in a thin shell that feeds these functions plain values.

pub mod capacity;
pub mod champions;
pub mod cleanup;
pub mod frames;
pub mod json;
pub mod loadout;
pub mod phase;
pub mod provision;
pub mod registry;
pub mod session;
pub mod text;
pub mod transport;
