use vx_sync::terrain::{generate_chunk, BasicPlainsBiomeTerrainGenerator, DIRT_MATERIAL,
    GRASS_MATERIAL, SURFACE_HEIGHT};
use vx_sync::world::{ChunkPos, Chunk, Voxel, PADDED_SIDE, PADDED_VOLUME};

#[test]
fn strata_are_grass_over_dirt() {
    let generator = BasicPlainsBiomeTerrainGenerator;
    assert_eq!(generator.fill_strata(0).attributes[0], GRASS_MATERIAL);
    assert_eq!(generator.fill_strata(1).attributes[0], GRASS_MATERIAL);
    assert_eq!(generator.fill_strata(2).attributes[0], DIRT_MATERIAL);
    assert_eq!(generator.fill_strata(100).attributes[0], DIRT_MATERIAL);
}

#[test]
fn generated_chunk_layers() {
    let mut chunk = Chunk {
        pos: ChunkPos { x: 0, y: 0 },
        block_data: vec![Voxel { attributes: [0, 0, 0, 0] }; PADDED_VOLUME],
    };
    generate_chunk(&mut chunk);
    assert_eq!(chunk.block_data.len(), PADDED_VOLUME);
    // the vertical axis is innermost: index == height for the first column
    assert_eq!(chunk.block_data[SURFACE_HEIGHT].attributes[0], GRASS_MATERIAL);
    assert_eq!(chunk.block_data[SURFACE_HEIGHT - 1].attributes[0], GRASS_MATERIAL);
    assert_eq!(chunk.block_data[SURFACE_HEIGHT - 2].attributes[0], DIRT_MATERIAL);
    assert_eq!(chunk.block_data[0].attributes[0], DIRT_MATERIAL);
    // above the surface: air
    assert_eq!(chunk.block_data[SURFACE_HEIGHT + 1].attributes, [0, 0, 0, 0]);
    // the second column repeats the strata
    assert_eq!(
        chunk.block_data[PADDED_SIDE + SURFACE_HEIGHT].attributes[0],
        GRASS_MATERIAL
    );
}
