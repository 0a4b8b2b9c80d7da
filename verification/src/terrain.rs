//! Terrain generation.
//!
//! The chunk manager only asks one thing of a generator: fill a chunk's
//! padded voxel buffer.  This one lays plains strata: empty air above the
//! surface level, grass for the top two layers below it, dirt underneath.
use vstd::prelude::*;
use crate::world::{Chunk, Voxel, PADDED_SIDE, PADDED_VOLUME};

verus! {

/// Material byte for grass.
pub const GRASS_MATERIAL: u8 = 1;

/// Material byte for dirt.
pub const DIRT_MATERIAL: u8 = 2;

/// Padded-buffer height (along the innermost axis) of the terrain surface.
pub const SURFACE_HEIGHT: usize = 16;

/// The plains biome: grass over dirt, no decoration.
pub struct BasicPlainsBiomeTerrainGenerator;

impl BasicPlainsBiomeTerrainGenerator {
    /// The stratum voxel at `layer` steps below the surface: grass for the
    /// top two layers, dirt below.
    pub open spec fn spec_fill_strata(layer: u32) -> Voxel {
        if layer <= 1 {
            Voxel { attributes: [GRASS_MATERIAL, 0, 0, 0] }
        } else {
            Voxel { attributes: [DIRT_MATERIAL, 0, 0, 0] }
        }
    }

    /// Picks the stratum voxel for a layer below the surface.
    pub fn fill_strata(&self, layer: u32) -> (r: Voxel)
        ensures
            r == Self::spec_fill_strata(layer),
    {
        if layer <= 1 {
            Voxel { attributes: [GRASS_MATERIAL, 0, 0, 0] }
        } else {
            Voxel { attributes: [DIRT_MATERIAL, 0, 0, 0] }
        }
    }
}

/// The voxel generated at flat buffer index `i`: the buffer is laid out
/// with the vertical axis innermost, so the height is `i % PADDED_SIDE`.
pub open spec fn spec_generated_voxel(i: int) -> Voxel {
    let y = i % (PADDED_SIDE as int);
    if y > SURFACE_HEIGHT {
        Voxel::spec_air()
    } else {
        BasicPlainsBiomeTerrainGenerator::spec_fill_strata((SURFACE_HEIGHT - y) as u32)
    }
}

/// The buffer a generated chunk carries.
pub open spec fn generated_buffer() -> Seq<Voxel> {
    Seq::new(PADDED_VOLUME as nat, |i: int| spec_generated_voxel(i))
}

/// Fills a chunk's padded buffer with the plains strata.  The chunk's
/// coordinate is untouched; every voxel of the buffer afterwards equals
/// [`spec_generated_voxel`] at its index.
pub fn generate_chunk(chunk: &mut Chunk)
    requires
        old(chunk).block_data@.len() == PADDED_VOLUME,
    ensures
        final(chunk).pos == old(chunk).pos,
        final(chunk).block_data@ == generated_buffer(),
{
    let gen = BasicPlainsBiomeTerrainGenerator;
    let mut i: usize = 0;
    while i < PADDED_VOLUME
        invariant
            i <= PADDED_VOLUME,
            chunk.pos == old(chunk).pos,
            chunk.block_data@.len() == PADDED_VOLUME,
            forall|j: int| 0 <= j < i ==> chunk.block_data@[j] == spec_generated_voxel(j),
        decreases PADDED_VOLUME - i,
    {
        let y = i % PADDED_SIDE;
        let v = if y > SURFACE_HEIGHT {
            Voxel::air()
        } else {
            gen.fill_strata((SURFACE_HEIGHT - y) as u32)
        };
        chunk.block_data[i] = v;
        i = i + 1;
    }
    proof {
        assert(chunk.block_data@ =~= generated_buffer());
    }
}

} // verus!
