//! Plain value types shared by the replication, reconciliation and chunk
//! subsystems.
//!
//! The sync layer never does arithmetic on world-space positions or
//! orientations: it only stores, compares and forwards them.  They are
//! therefore carried as raw IEEE-754 bit patterns (`u32` per component),
//! which keeps comparison and wire encoding exact.
use vstd::prelude::*;

verus! {

/// Identifier of a simulated object: an opaque (generation, index) pair.
/// Server and client each have their own identifier space; translation
/// between the two is explicit, through the network mapping table.
#[derive(Clone, Copy, PartialEq, Eq, Structural, Debug)]
pub struct EntityId {
    pub index: u32,
    pub generation: u32,
}

/// A 3-vector carried as the bit patterns of its three components.
#[derive(Clone, Copy, PartialEq, Eq, Structural, Debug)]
pub struct Vec3Bits {
    pub x: u32,
    pub y: u32,
    pub z: u32,
}

/// A quaternion carried as the bit patterns of its four components.
#[derive(Clone, Copy, PartialEq, Eq, Structural, Debug)]
pub struct QuatBits {
    pub x: u32,
    pub y: u32,
    pub z: u32,
    pub w: u32,
}

/// Position and orientation of a simulated object.
#[derive(Clone, Copy, PartialEq, Eq, Structural, Debug)]
pub struct Transform {
    pub translation: Vec3Bits,
    pub rotation: QuatBits,
}

impl Transform {
    /// A transform with every component bit pattern zero.
    pub fn zeroed() -> (r: Transform)
        ensures
            r.translation == (Vec3Bits { x: 0, y: 0, z: 0 }),
            r.rotation == (QuatBits { x: 0, y: 0, z: 0, w: 0 }),
    {
        Transform {
            translation: Vec3Bits { x: 0, y: 0, z: 0 },
            rotation: QuatBits { x: 0, y: 0, z: 0, w: 0 },
        }
    }
}

/// The identity orientation, as component bit patterns: what a freshly
/// spawned entity faces.
pub open spec fn spec_identity_rotation() -> QuatBits {
    QuatBits { x: 0, y: 0, z: 0, w: 0x3F800000 }
}

/// Builds the identity orientation.
pub fn identity_rotation() -> (r: QuatBits)
    ensures
        r == spec_identity_rotation(),
{
    QuatBits { x: 0, y: 0, z: 0, w: 0x3F800000 }
}

/// Per-player gameplay counters consumed by the sync layer for transport.
#[derive(Clone, Copy, PartialEq, Eq, Structural, Debug)]
pub struct Stats {
    pub score: u64,
}

/// Adds one point to a player's score.
pub fn add_score(stats: &mut Stats)
    requires
        old(stats).score < u64::MAX,
    ensures
        final(stats).score == old(stats).score + 1,
{
    stats.score = stats.score + 1;
}

} // verus!
