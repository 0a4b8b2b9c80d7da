//! Verified state-synchronization kernel for a voxel multiplayer world.
//!
//! The crate holds the pieces of the game that are worth proving: the wire
//! codec for the typed network messages, the server-to-client entity mapping
//! table, the server replication engine, the client reconciliation engine,
//! and the view-distance-driven chunk lifecycle manager.  Transport, ECS
//! scheduling and rendering stay outside; they hand the library plain values
//! and take plain values back.
pub mod assoc;
pub mod client;
pub mod codec;
pub mod entity_map;
pub mod protocol;
pub mod server;
pub mod terrain;
pub mod types;
pub mod world;
