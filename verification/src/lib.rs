//! A synchronization engine for a live, mutable, typed object/attribute store
//! observed and mutated by remote clients.
//!
//! The engine keeps, per connected observer, a baseline of what has already
//! been reported, computes a minimal incremental diff of the store every tick,
//! and offers a closed set of mutation commands (update / insert / remove /
//! toggle an attribute, despawn / reparent / spawn an object, toggle
//! visibility) that keep the tracking state consistent while they run.

pub mod command;
pub mod context;
pub mod error;
pub mod events;
pub mod schema;
pub mod keyed;
pub mod laws;
pub mod lookup;
pub mod store;
pub mod tracker;
pub mod value;
pub mod web_asset;
