use vx_sync::world::{chunk_extent, ChunkLoadState, ChunkPos, ChunkWorld, CHUNK_DEPTH, CHUNK_HEIGHT,
    CHUNK_WIDTH, DEFAULT_VIEW_DISTANCE};

fn cp(x: i32, y: i32) -> ChunkPos {
    ChunkPos { x, y }
}

#[test]
fn candidate_set_is_the_open_disc() {
    let world = ChunkWorld::new();
    let (spawns, despawns) = world.update_visible_chunks(cp(0, 0), 3);
    // exactly the offsets with dx*dx + dy*dy < 9: all of [-2, 2] x [-2, 2]
    assert_eq!(spawns.len(), 25);
    assert!(spawns.contains(&cp(0, 0)));
    assert!(spawns.contains(&cp(2, 2)));
    assert!(spawns.contains(&cp(-2, -2)));
    // the boundary ring with dx*dx + dy*dy >= 9 is excluded
    assert!(!spawns.contains(&cp(3, 0)));
    assert!(!spawns.contains(&cp(0, -3)));
    assert!(despawns.is_empty());
}

#[test]
fn candidates_are_sorted_closest_first() {
    let world = ChunkWorld::new();
    let viewer = cp(10, -10);
    let (spawns, _) = world.update_visible_chunks(viewer, 3);
    assert_eq!(spawns[0], viewer);
    let d2 = |p: &ChunkPos| {
        let dx = (p.x - viewer.x) as i64;
        let dy = (p.y - viewer.y) as i64;
        dx * dx + dy * dy
    };
    for w in spawns.windows(2) {
        assert!(d2(&w[0]) <= d2(&w[1]));
    }
}

#[test]
fn resident_candidates_are_not_requested_again() {
    let mut world = ChunkWorld::new();
    world.create_chunks(&vec![cp(0, 0), cp(1, 0)]);
    let (spawns, _) = world.update_visible_chunks(cp(0, 0), 3);
    assert_eq!(spawns.len(), 23);
    assert!(!spawns.contains(&cp(0, 0)));
    assert!(!spawns.contains(&cp(1, 0)));
}

#[test]
fn far_resident_chunk_is_queued_for_despawn() {
    let mut world = ChunkWorld::new();
    world.create_chunks(&vec![cp(0, 0), cp(1, 0), cp(5, 5)]);
    let (_, despawns) = world.update_visible_chunks(cp(0, 0), 3);
    // (5, 5) is outside the view disc; (0, 0) and (1, 0) are inside it
    assert_eq!(despawns.len(), 1);
    assert_eq!(despawns[0].0, cp(5, 5));
}

#[test]
fn boundary_chunk_is_neither_spawned_nor_despawned() {
    let mut world = ChunkWorld::new();
    world.create_chunks(&vec![cp(3, 0)]);
    let (spawns, despawns) = world.update_visible_chunks(cp(0, 0), 3);
    // squared distance exactly 9: outside the spawn disc, inside the keep radius
    assert!(!spawns.contains(&cp(3, 0)));
    assert!(despawns.is_empty());
}

#[test]
fn generation_throughput_is_capped_at_half_the_view_distance() {
    let mut world = ChunkWorld::new();
    let mut spawns = Vec::new();
    for i in 0..20 {
        spawns.push(cp(i, 0));
    }
    world.create_chunks(&spawns);
    world.load_chunk_data();
    assert_eq!(world.queue_len(), 20);
    world.generate_chunks(10);
    // exactly 10 / 2 = 5 requests are drained per tick, 15 remain
    assert_eq!(world.queue_len(), 15);
    world.generate_chunks(10);
    assert_eq!(world.queue_len(), 10);
}

#[test]
fn chunks_walk_load_generate_done() {
    let mut world = ChunkWorld::new();
    world.create_chunks(&vec![cp(0, 0)]);
    assert_eq!(world.chunk_state(cp(0, 0)), Some(ChunkLoadState::Load));
    world.load_chunk_data();
    assert_eq!(world.chunk_state(cp(0, 0)), Some(ChunkLoadState::Generate));
    world.generate_chunks(2);
    assert_eq!(world.chunk_state(cp(0, 0)), Some(ChunkLoadState::Done));
    let events = world.mark_chunks_ready();
    assert_eq!(events.len(), 1);
    assert_eq!(events[0].0, cp(0, 0));
}

#[test]
fn unload_marks_and_destroys() {
    let mut world = ChunkWorld::new();
    world.create_chunks(&vec![cp(0, 0), cp(9, 9)]);
    let (_, despawns) = world.update_visible_chunks(cp(0, 0), 3);
    assert_eq!(despawns.len(), 1);
    world.prepare_for_unload(&despawns);
    assert_eq!(world.chunk_state(cp(9, 9)), Some(ChunkLoadState::Unload));
    world.destroy_chunks();
    assert_eq!(world.chunk_state(cp(9, 9)), None);
    assert_eq!(world.chunk_state(cp(0, 0)), Some(ChunkLoadState::Load));
    assert_eq!(world.resident_count(), 1);
}

#[test]
fn tick_streams_chunks_around_the_viewer() {
    let mut world = ChunkWorld::new();
    let events = world.tick(cp(0, 0), 2);
    // first tick: 9 chunks spawn (dx*dx + dy*dy < 4), one is generated
    assert!(events.len() <= 1);
    assert_eq!(world.resident_count(), 9);
    let mut total_ready = events.len();
    for _ in 0..20 {
        total_ready += world.tick(cp(0, 0), 2).len();
    }
    assert_eq!(total_ready, 9);
}

#[test]
fn default_view_distance_and_extent_constants() {
    assert_eq!(DEFAULT_VIEW_DISTANCE, 10);
    let e = chunk_extent();
    assert_eq!((e.shape_x, e.shape_y, e.shape_z), (CHUNK_WIDTH, CHUNK_HEIGHT, CHUNK_DEPTH));
    let p = e.padded(1);
    assert_eq!((p.shape_x, p.shape_y, p.shape_z), (CHUNK_WIDTH + 2, CHUNK_HEIGHT + 2, CHUNK_DEPTH + 2));
}
