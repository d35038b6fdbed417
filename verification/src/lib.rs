//! Server-side entity replication with room-based interest management.
//!
//! The library keeps the authoritative simulation state (the entity
//! registry), groups clients and entities into rooms that gate replication
//! visibility, resolves replication interest when a client connects, computes
//! the per-client replication directives once per tick, and encodes a
//! self-contained snapshot of replicable state into a textual format that can
//! be written to durable storage and read back at startup.
//!
//! Transport, rendering, and the actual durable-storage writes are external
//! collaborators; callers hand this library plain values (client identities,
//! snapshot bytes) and carry its results to the outside world.

pub mod codec;
pub mod config;
pub mod dispatch;
pub mod registry;
pub mod resolver;
pub mod rooms;
