//! Chunk lifecycle manager.
//!
//! Terrain is streamed in and out of memory around a moving viewpoint.  Each
//! resident chunk is keyed by its 2D coordinate and walks the state machine
//! `Load -> Generate -> Done`, or is marked `Unload` and destroyed on the
//! next destruction pass.  Generation work is queued and drained at a
//! bounded per-tick rate so a burst of requests can never stall a tick.
use vstd::prelude::*;
use crate::assoc::{assoc_contains, assoc_map, assoc_wf, lemma_assoc_at, lemma_assoc_empty,
    lemma_assoc_push, lemma_assoc_update, lemma_push_contains, lemma_push_no_duplicates};
use crate::types::EntityId;

verus! {

/// Chunk side lengths, in voxels.
pub const CHUNK_WIDTH: i32 = 32;

pub const CHUNK_HEIGHT: i32 = 32;

pub const CHUNK_DEPTH: i32 = 32;

/// Default radius, in chunk units, within which chunks are kept resident.
pub const DEFAULT_VIEW_DISTANCE: i32 = 10;

/// One voxel of padding on each side of a chunk, for seam sampling.
pub const PADDED_SIDE: usize = 34;

/// Voxels in one chunk buffer, padding included.
pub const PADDED_VOLUME: usize = 34 * 34 * 34;

/// A chunk coordinate on the 2D chunk grid.
#[derive(Clone, Copy, PartialEq, Eq, Structural, Debug)]
pub struct ChunkPos {
    pub x: i32,
    pub y: i32,
}

/// One voxel: four packed attribute bytes, the first being the material.
#[derive(Clone, Copy, PartialEq, Eq, Debug)]
pub struct Voxel {
    pub attributes: [u8; 4],
}

impl Voxel {
    /// The empty voxel: all attribute bytes zero.
    pub fn air() -> (r: Voxel)
        ensures
            r == Voxel::spec_air(),
    {
        Voxel { attributes: [0, 0, 0, 0] }
    }

    /// The empty voxel, in specifications.
    pub open spec fn spec_air() -> Voxel {
        Voxel { attributes: [0, 0, 0, 0] }
    }
}

/// The loading state of a resident chunk.
#[derive(Clone, Copy, PartialEq, Eq, Structural, Debug)]
pub enum ChunkLoadState {
    /// Freshly spawned; its buffer is still empty.
    Load,
    /// Queued for destruction on the next destruction pass.
    Unload,
    /// Waiting in the generation queue.
    Generate,
    /// Fully populated and ready to be displayed.
    Done,
}

/// The axis-aligned voxel extent of one chunk, anchored at the origin.
#[derive(Clone, Copy, PartialEq, Eq, Structural, Debug)]
pub struct Extent3 {
    pub shape_x: i32,
    pub shape_y: i32,
    pub shape_z: i32,
}

impl Extent3 {
    /// The same extent grown by `pad` voxels on every side.
    pub fn padded(self, pad: i32) -> (r: Extent3)
        requires
            0 <= pad <= 1000,
            0 <= self.shape_x <= 100000,
            0 <= self.shape_y <= 100000,
            0 <= self.shape_z <= 100000,
        ensures
            r.shape_x == self.shape_x + 2 * pad,
            r.shape_y == self.shape_y + 2 * pad,
            r.shape_z == self.shape_z + 2 * pad,
    {
        Extent3 {
            shape_x: self.shape_x + 2 * pad,
            shape_y: self.shape_y + 2 * pad,
            shape_z: self.shape_z + 2 * pad,
        }
    }
}

/// The extent of one chunk's voxel block, before padding.
pub fn chunk_extent() -> (r: Extent3)
    ensures
        r.shape_x == CHUNK_WIDTH,
        r.shape_y == CHUNK_HEIGHT,
        r.shape_z == CHUNK_DEPTH,
{
    Extent3 { shape_x: CHUNK_WIDTH, shape_y: CHUNK_HEIGHT, shape_z: CHUNK_DEPTH }
}

/// A resident chunk: its grid coordinate and its voxel block, stored as one
/// flat buffer of `PADDED_VOLUME` voxels.
pub struct Chunk {
    pub pos: ChunkPos,
    pub block_data: Vec<Voxel>,
}

/// A chunk together with its lifecycle state.
pub struct ChunkEntry {
    pub chunk: Chunk,
    pub state: ChunkLoadState,
}

/// A chunk and its handle have finished loading and may be displayed.
#[derive(Clone, Copy, PartialEq, Eq, Structural, Debug)]
pub struct ChunkReadyEvent(pub ChunkPos, pub EntityId);

/// Squared Euclidean distance between two chunk coordinates, in chunk
/// units.
pub open spec fn dist2(a: ChunkPos, b: ChunkPos) -> int {
    (a.x - b.x) * (a.x - b.x) + (a.y - b.y) * (a.y - b.y)
}

/// The chunk store: the coordinate map, the per-handle chunk entries, the
/// bounded generation queue, and the completions not yet announced.
pub struct ChunkWorld {
    map: Vec<(ChunkPos, EntityId)>,
    chunks: Vec<(EntityId, ChunkEntry)>,
    gen_queue: Vec<EntityId>,
    newly_done: Vec<EntityId>,
    next_index: u32,
}

impl ChunkWorld {
    /// The coordinate map: which handle owns each resident coordinate.
    pub closed spec fn chunk_map(self) -> Map<ChunkPos, EntityId> {
        assoc_map(self.map@)
    }

    /// Whether a chunk entry exists under handle `e`.
    pub closed spec fn has_chunk(self, e: EntityId) -> bool {
        assoc_contains(self.chunks@, e)
    }

    /// The lifecycle state of the chunk under handle `e`.
    pub closed spec fn state_of(self, e: EntityId) -> ChunkLoadState {
        assoc_map(self.chunks@)[e].state
    }

    /// The coordinate of the chunk under handle `e`.
    pub closed spec fn pos_of(self, e: EntityId) -> ChunkPos {
        assoc_map(self.chunks@)[e].chunk.pos
    }

    /// The voxel buffer of the chunk under handle `e`.
    pub closed spec fn data_of(self, e: EntityId) -> Seq<Voxel> {
        assoc_map(self.chunks@)[e].chunk.block_data@
    }

    /// The generation queue, front first.
    pub closed spec fn queue(self) -> Seq<EntityId> {
        self.gen_queue@
    }

    /// Completions recorded by the generation pass and not yet announced.
    pub closed spec fn pending_ready(self) -> Seq<EntityId> {
        self.newly_done@
    }

    /// The handles the load pass would push, front-of-queue first: the
    /// `Load`-state chunks, newest request first.
    pub closed spec fn pending_loads(self) -> Seq<EntityId> {
        load_handles_rev(self.chunks@)
    }

    /// Structural soundness: the coordinate map and the chunk entries are
    /// inverse views of one another, no key is duplicated, every buffer has
    /// the padded size, and every handle is below the allocation cursor.
    pub closed spec fn wf(self) -> bool {
        &&& assoc_wf(self.map@)
        &&& assoc_wf(self.chunks@)
        &&& forall|p: ChunkPos| #[trigger]
            self.chunk_map().contains_key(p) ==> self.has_chunk(self.chunk_map()[p])
                && self.pos_of(self.chunk_map()[p]) == p
        &&& forall|e: EntityId| #[trigger]
            self.has_chunk(e) ==> self.chunk_map().contains_key(self.pos_of(e))
                && self.chunk_map()[self.pos_of(e)] == e
        &&& forall|e: EntityId| #[trigger]
            self.has_chunk(e) ==> self.data_of(e).len() == PADDED_VOLUME
        &&& forall|e: EntityId| #[trigger]
            self.has_chunk(e) ==> e.generation == 0 && e.index < self.next_index
    }

    /// An empty world: nothing resident, nothing queued, the full handle
    /// space still allocatable.
    pub fn new() -> (r: ChunkWorld)
        ensures
            r.wf(),
            r.chunk_map() == Map::<ChunkPos, EntityId>::empty(),
            r.queue() == Seq::<EntityId>::empty(),
            r.pending_ready() == Seq::<EntityId>::empty(),
            r.can_allocate(u32::MAX as int),
    {
        let r = ChunkWorld {
            map: Vec::new(),
            chunks: Vec::new(),
            gen_queue: Vec::new(),
            newly_done: Vec::new(),
            next_index: 0,
        };
        proof {
            lemma_assoc_empty(r.map@);
            lemma_assoc_empty(r.chunks@);
            assert(r.queue() =~= Seq::<EntityId>::empty());
            assert(r.pending_ready() =~= Seq::<EntityId>::empty());
        }
        r
    }

    /// Whether coordinate `p` is resident.
    pub fn contains_pos(&self, p: ChunkPos) -> (r: bool)
        requires
            self.wf(),
        ensures
            r == self.chunk_map().contains_key(p),
    {
        let n = self.map.len();
        let mut i: usize = 0;
        while i < n
            invariant
                self.wf(),
                n == self.map@.len(),
                i <= n,
                forall|j: int| 0 <= j < i ==> self.map@[j].0 != p,
            decreases n - i,
        {
            if self.map[i].0 == p {
                proof {
                    lemma_assoc_at(self.map@, i as int);
                }
                return true;
            }
            i = i + 1;
        }
        proof {
            assert(!assoc_contains(self.map@, p));
        }
        false
    }
}

/// A squared value below a squared positive bound means the value sits
/// strictly inside the bound either way round.
proof fn lemma_abs_bound(ox: int, vd: int)
    requires
        vd >= 1,
        ox * ox < vd * vd,
    ensures
        -vd < ox < vd,
{
    if ox >= vd {
        assert(ox * ox >= vd * vd) by (nonlinear_arith)
            requires
                ox >= vd >= 1,
        ;
    }
    if ox <= -vd {
        assert(ox * ox >= vd * vd) by (nonlinear_arith)
            requires
                ox <= -vd,
                vd >= 1,
        ;
    }
}

/// Squares are never negative.
proof fn lemma_sq_nonneg(a: int)
    ensures
        a * a >= 0,
{
    assert(a * a >= 0) by (nonlinear_arith);
}

/// Computes the squared distance between two chunk coordinates exactly,
/// wide enough that no pair of coordinates can overflow it.
fn dist2_exec(a: ChunkPos, b: ChunkPos) -> (r: i128)
    ensures
        r == dist2(a, b),
{
    let dx: i128 = a.x as i128 - b.x as i128;
    let dy: i128 = a.y as i128 - b.y as i128;
    proof {
        assert(0 <= dx * dx <= 0x40000000000000000) by (nonlinear_arith)
            requires
                -0x100000000 <= dx <= 0x100000000,
        ;
        assert(0 <= dy * dy <= 0x40000000000000000) by (nonlinear_arith)
            requires
                -0x100000000 <= dy <= 0x100000000,
        ;
    }
    dx * dx + dy * dy
}

/// The squared view distance, widened.
fn vd2_exec(vd: i32) -> (r: i128)
    requires
        1 <= vd <= 100,
    ensures
        r == vd * vd,
{
    proof {
        assert(1 <= (vd as i128) * (vd as i128) <= 10000) by (nonlinear_arith)
            requires
                1 <= vd <= 100,
        ;
    }
    (vd as i128) * (vd as i128)
}

/// The offset of `p` from `viewer` falls lexicographically before `(dx,
/// dy)`: the region the candidate scan has already covered.
pub open spec fn offset_before(viewer: ChunkPos, dx: int, dy: int, p: ChunkPos) -> bool {
    ||| p.x - viewer.x < dx
    ||| (p.x - viewer.x == dx && p.y - viewer.y < dy)
}

/// The spawn candidates around `viewer`: strictly inside the view disc and
/// not yet resident, closest first — stated by [`ChunkWorld::update_visible_chunks`].
pub open spec fn is_candidate(
    world_map: Map<ChunkPos, EntityId>,
    viewer: ChunkPos,
    vd: int,
    p: ChunkPos,
) -> bool {
    dist2(p, viewer) < vd * vd && !world_map.contains_key(p)
}

impl ChunkWorld {
    /// Visibility pass.  Hands back the coordinates to spawn — exactly the
    /// non-resident ones strictly inside the view disc, closest first — and
    /// the resident entries strictly outside it, to be despawned.
    pub fn update_visible_chunks(&self, viewer: ChunkPos, view_distance: i32) -> (r: (
        Vec<ChunkPos>,
        Vec<(ChunkPos, EntityId)>,
    ))
        requires
            self.wf(),
            1 <= view_distance <= 100,
            i32::MIN + 100 <= viewer.x <= i32::MAX - 100,
            i32::MIN + 100 <= viewer.y <= i32::MAX - 100,
        ensures
            forall|p: ChunkPos| #[trigger]
                r.0@.contains(p) <==> is_candidate(
                    self.chunk_map(),
                    viewer,
                    view_distance as int,
                    p,
                ),
            r.0@.no_duplicates(),
            r.0@.len() <= (2 * view_distance + 1) * (2 * view_distance + 1),
            forall|i: int, j: int|
                0 <= i < j < r.0@.len() ==> dist2(r.0@[i], viewer) <= dist2(r.0@[j], viewer),
            forall|pe: (ChunkPos, EntityId)| #[trigger]
                r.1@.contains(pe) <==> (self.chunk_map().contains_key(pe.0)
                    && self.chunk_map()[pe.0] == pe.1 && dist2(pe.0, viewer) > view_distance
                    * view_distance),
            r.1@.no_duplicates(),
    {
        let vd = view_distance;
        let mut cands: Vec<ChunkPos> = Vec::new();
        let mut dx: i32 = -vd;
        proof {
            assert((-vd as int + vd) * (2 * vd + 1) == 0) by (nonlinear_arith);
            assert forall|q: ChunkPos|
                !(is_candidate(self.chunk_map(), viewer, vd as int, q) && offset_before(
                    viewer,
                    -vd as int,
                    -vd as int,
                    q,
                )) by {
                if is_candidate(self.chunk_map(), viewer, vd as int, q) {
                    lemma_sq_nonneg(q.x - viewer.x);
                    lemma_sq_nonneg(q.y - viewer.y);
                    lemma_abs_bound(q.x - viewer.x, vd as int);
                    lemma_abs_bound(q.y - viewer.y, vd as int);
                }
            }
        }
        while dx <= vd
            invariant
                self.wf(),
                1 <= vd <= 100,
                i32::MIN + 100 <= viewer.x <= i32::MAX - 100,
                i32::MIN + 100 <= viewer.y <= i32::MAX - 100,
                -vd <= dx <= vd + 1,
                forall|p: ChunkPos| #[trigger]
                    cands@.contains(p) <==> (is_candidate(self.chunk_map(), viewer, vd as int, p)
                        && offset_before(viewer, dx as int, -vd as int, p)),
                cands@.no_duplicates(),
                cands@.len() <= (dx + vd) * (2 * vd + 1),
            decreases vd + 1 - dx,
        {
            let mut dy: i32 = -vd;
            proof {
                assert((dx + vd) * (2 * vd + 1) + (-vd + vd) == (dx + vd) * (2 * vd + 1));
            }
            while dy <= vd
                invariant
                    self.wf(),
                    1 <= vd <= 100,
                    i32::MIN + 100 <= viewer.x <= i32::MAX - 100,
                    i32::MIN + 100 <= viewer.y <= i32::MAX - 100,
                    -vd <= dx <= vd,
                    -vd <= dy <= vd + 1,
                    forall|p: ChunkPos| #[trigger]
                        cands@.contains(p) <==> (is_candidate(
                            self.chunk_map(),
                            viewer,
                            vd as int,
                            p,
                        ) && offset_before(viewer, dx as int, dy as int, p)),
                    cands@.no_duplicates(),
                    cands@.len() <= (dx + vd) * (2 * vd + 1) + (dy + vd),
                decreases vd + 1 - dy,
            {
                let p = ChunkPos { x: viewer.x + dx, y: viewer.y + dy };
                if dist2_exec(p, viewer) < vd2_exec(vd) {
                    if !self.contains_pos(p) {
                        proof {
                            assert(!cands@.contains(p));
                        }
                        let ghost before_push = cands@;
                        cands.push(p);
                        proof {
                            lemma_push_no_duplicates(before_push, p);
                            assert forall|q: ChunkPos| #[trigger]
                                cands@.contains(q) <==> (is_candidate(
                                    self.chunk_map(),
                                    viewer,
                                    vd as int,
                                    q,
                                ) && offset_before(viewer, dx as int, dy as int + 1, q)) by {
                                lemma_push_contains(before_push, p, q);
                            }
                        }
                    } else {
                        proof {
                            assert forall|q: ChunkPos| #[trigger]
                                cands@.contains(q) <==> (is_candidate(
                                    self.chunk_map(),
                                    viewer,
                                    vd as int,
                                    q,
                                ) && offset_before(viewer, dx as int, dy as int + 1, q)) by {}
                        }
                    }
                } else {
                    proof {
                        assert forall|q: ChunkPos|
                            is_candidate(self.chunk_map(), viewer, vd as int, q) && offset_before(
                                viewer,
                                dx as int,
                                dy as int + 1,
                                q,
                            ) implies #[trigger] cands@.contains(q) by {
                            if q.x - viewer.x == dx && q.y - viewer.y == dy {
                                assert(q == p);
                            }
                        }
                    }
                }
                dy = dy + 1;
            }
            proof {
                assert((dx as int + 1 + vd) * (2 * vd + 1) == (dx as int + vd) * (2 * vd + 1) + (2
                    * vd + 1)) by (nonlinear_arith);
                assert forall|q: ChunkPos|
                    (is_candidate(self.chunk_map(), viewer, vd as int, q) && offset_before(
                        viewer,
                        dx as int + 1,
                        -vd as int,
                        q,
                    )) implies #[trigger] cands@.contains(q) by {
                    lemma_sq_nonneg(q.x - viewer.x);
                    lemma_sq_nonneg(q.y - viewer.y);
                    if q.x - viewer.x == dx || q.x - viewer.x == dx + 1 {
                        lemma_abs_bound(q.y - viewer.y, vd as int);
                    }
                }
            }
            dx = dx + 1;
        }
        proof {
            assert forall|q: ChunkPos|
                is_candidate(self.chunk_map(), viewer, vd as int, q) implies #[trigger]
                cands@.contains(q) by {
                lemma_sq_nonneg(q.y - viewer.y);
                lemma_abs_bound(q.x - viewer.x, vd as int);
            }
        }
        let sorted = sort_by_dist(cands, viewer);
        let mut despawns: Vec<(ChunkPos, EntityId)> = Vec::new();
        let n = self.map.len();
        let mut i: usize = 0;
        while i < n
            invariant
                self.wf(),
                n == self.map@.len(),
                i <= n,
                i32::MIN + 100 <= viewer.x <= i32::MAX - 100,
                i32::MIN + 100 <= viewer.y <= i32::MAX - 100,
                1 <= vd <= 100,
                forall|pe: (ChunkPos, EntityId)| #[trigger]
                    despawns@.contains(pe) <==> (exists|j: int|
                        0 <= j < i && self.map@[j] == pe && dist2(pe.0, viewer) > vd * vd),
                despawns@.no_duplicates(),
            decreases n - i,
        {
            let (p, e) = self.map[i];
            if dist2_exec(p, viewer) > vd2_exec(vd) {
                proof {
                    assert forall|j: int| 0 <= j < i implies self.map@[j] != (p, e) by {
                        assert(self.map@[j].0 != self.map@[i as int].0);
                    }
                    assert(!despawns@.contains((p, e)));
                }
                let ghost before_push = despawns@;
                despawns.push((p, e));
                proof {
                    lemma_push_no_duplicates(before_push, (p, e));
                    assert forall|pe: (ChunkPos, EntityId)| #[trigger]
                        despawns@.contains(pe) <==> (exists|j: int|
                            0 <= j < i + 1 && self.map@[j] == pe && dist2(pe.0, viewer) > vd
                                * vd) by {
                        lemma_push_contains(before_push, (p, e), pe);
                        if before_push.contains(pe) {
                            let j = choose|j: int|
                                0 <= j < i && self.map@[j] == pe && dist2(pe.0, viewer) > vd * vd;
                            assert(0 <= j < i + 1 && self.map@[j] == pe);
                        }
                        if pe == (p, e) {
                            assert(self.map@[i as int] == pe && dist2(pe.0, viewer) > vd * vd);
                        }
                        if exists|j: int|
                            0 <= j < i + 1 && self.map@[j] == pe && dist2(pe.0, viewer) > vd
                                * vd {
                            let j = choose|j: int|
                                0 <= j < i + 1 && self.map@[j] == pe && dist2(pe.0, viewer) > vd
                                    * vd;
                            if j < i {
                            } else {
                                assert(pe == (p, e));
                            }
                        }
                    }
                }
            } else {
                proof {
                    assert forall|pe: (ChunkPos, EntityId)| #[trigger]
                        despawns@.contains(pe) <==> (exists|j: int|
                            0 <= j < i + 1 && self.map@[j] == pe && dist2(pe.0, viewer) > vd
                                * vd) by {
                        if !despawns@.contains(pe) {
                            if exists|j: int|
                                0 <= j < i + 1 && self.map@[j] == pe && dist2(pe.0, viewer) > vd
                                    * vd {
                                let j = choose|j: int|
                                    0 <= j < i + 1 && self.map@[j] == pe && dist2(pe.0, viewer)
                                        > vd * vd;
                                assert(j < i);
                            }
                        }
                    }
                }
            }
            i = i + 1;
        }
        proof {
            assert forall|pe: (ChunkPos, EntityId)| #[trigger]
                despawns@.contains(pe) <==> (self.chunk_map().contains_key(pe.0)
                    && self.chunk_map()[pe.0] == pe.1 && dist2(pe.0, viewer) > vd * vd) by {
                if despawns@.contains(pe) {
                    let j = choose|j: int|
                        0 <= j < n && self.map@[j] == pe && dist2(pe.0, viewer) > vd * vd;
                    lemma_assoc_at(self.map@, j);
                } else {
                    if self.chunk_map().contains_key(pe.0) && self.chunk_map()[pe.0] == pe.1
                        && dist2(pe.0, viewer) > vd * vd {
                        let j = crate::assoc::assoc_index_of(self.map@, pe.0);
                        assert(0 <= j < n && self.map@[j].0 == pe.0);
                        lemma_assoc_at(self.map@, j);
                        assert(self.map@[j] == pe);
                    }
                }
            }
        }
        (sorted, despawns)
    }
}

/// The buffer a chunk spawns with: `PADDED_VOLUME` empty voxels.
pub open spec fn air_buffer() -> Seq<Voxel> {
    Seq::new(PADDED_VOLUME as nat, |i: int| Voxel::spec_air())
}

/// Builds the buffer a chunk spawns with.
fn air_buffer_exec() -> (r: Vec<Voxel>)
    ensures
        r@ == air_buffer(),
{
    let mut out: Vec<Voxel> = Vec::new();
    let mut i: usize = 0;
    while i < PADDED_VOLUME
        invariant
            i <= PADDED_VOLUME,
            out@.len() == i,
            forall|j: int| 0 <= j < i ==> out@[j] == Voxel::spec_air(),
        decreases PADDED_VOLUME - i,
    {
        out.push(Voxel::air());
        i = i + 1;
    }
    proof {
        assert(out@ =~= air_buffer());
    }
    out
}

impl ChunkWorld {
    /// Whether `n` more handles can still be allocated.
    pub closed spec fn can_allocate(self, n: int) -> bool {
        self.next_index + n <= u32::MAX
    }

    /// The coordinate `p` is resident, freshly spawned by this pass: its
    /// chunk is in `Load` state with an empty padded buffer, under a handle
    /// that did not exist before the pass.
    pub open spec fn freshly_spawned(self, older: ChunkWorld, p: ChunkPos) -> bool {
        &&& self.chunk_map().contains_key(p)
        &&& !older.has_chunk(self.chunk_map()[p])
        &&& self.has_chunk(self.chunk_map()[p])
        &&& self.state_of(self.chunk_map()[p]) == ChunkLoadState::Load
        &&& self.pos_of(self.chunk_map()[p]) == p
        &&& self.data_of(self.chunk_map()[p]) == air_buffer()
    }

    /// Spawn pass.  Each requested coordinate that is not yet resident is
    /// created under a fresh handle, in `Load` state, with an empty,
    /// correctly-sized voxel buffer; coordinates already resident are left
    /// alone.
    pub fn create_chunks(&mut self, spawns: &Vec<ChunkPos>)
        requires
            old(self).wf(),
            old(self).can_allocate(spawns@.len() as int),
        ensures
            final(self).wf(),
            forall|p: ChunkPos| #[trigger]
                final(self).chunk_map().contains_key(p) <==> (old(self).chunk_map().contains_key(p) || spawns@.contains(p)),
            forall|p: ChunkPos| #[trigger]
                old(self).chunk_map().contains_key(p) ==> final(self).chunk_map()[p] == old(self).chunk_map()[p],
            forall|e: EntityId| #[trigger]
                old(self).has_chunk(e) ==> final(self).has_chunk(e) && final(self).state_of(e)
                    == old(self).state_of(e) && final(self).pos_of(e) == old(self).pos_of(e)
                    && final(self).data_of(e) == old(self).data_of(e),
            forall|p: ChunkPos|
                spawns@.contains(p) && !old(self).chunk_map().contains_key(p)
                    ==> #[trigger] final(self).freshly_spawned(*old(self), p),
            final(self).queue() == old(self).queue(),
            final(self).pending_ready() == old(self).pending_ready(),
    {
        let n = spawns.len();
        let mut i: usize = 0;
        while i < n
            invariant
                n == spawns@.len(),
                i <= n,
                self.wf(),
                self.can_allocate((n - i) as int),
                forall|p: ChunkPos| #[trigger]
                    self.chunk_map().contains_key(p) <==> (old(self).chunk_map().contains_key(p)
                        || spawns@.take(i as int).contains(p)),
                forall|p: ChunkPos| #[trigger]
                    old(self).chunk_map().contains_key(p) ==> self.chunk_map()[p] == old(self).chunk_map()[p],
                forall|e: EntityId| #[trigger]
                    old(self).has_chunk(e) ==> self.has_chunk(e) && self.state_of(e) == old(self).state_of(e) && self.pos_of(e) == old(self).pos_of(e) && self.data_of(e)
                        == old(self).data_of(e),
                forall|p: ChunkPos|
                    spawns@.take(i as int).contains(p) && !old(self).chunk_map().contains_key(p)
                        ==> #[trigger] self.freshly_spawned(*old(self), p),
                forall|e: EntityId| #[trigger]
                    self.has_chunk(e) && !old(self).has_chunk(e) ==> !old(self).chunk_map().contains_key(self.pos_of(e)),
                old(self).next_index <= self.next_index,
                self.gen_queue@ == old(self).gen_queue@,
                self.newly_done@ == old(self).newly_done@,
            decreases n - i,
        {
            let p = spawns[i];
            let ghost prev = *self;
            let resident = self.contains_pos(p);
            if !resident {
                let e = EntityId { index: self.next_index, generation: 0 };
                let entry = ChunkEntry {
                    chunk: Chunk { pos: p, block_data: air_buffer_exec() },
                    state: ChunkLoadState::Load,
                };
                proof {
                    assert(!self.has_chunk(e)) by {
                        if self.has_chunk(e) {
                            assert(e.index < self.next_index);
                        }
                    }
                    assert(!assoc_contains(self.chunks@, e));
                    assert(!assoc_contains(self.map@, p));
                    lemma_assoc_push(self.map@, p, e);
                    lemma_assoc_push(self.chunks@, e, entry);
                }
                self.map.push((p, e));
                self.chunks.push((e, entry));
                self.next_index = self.next_index + 1;
                proof {
                    let ghost cur = *self;
                    assert forall|q: ChunkPos| #[trigger]
                        cur.chunk_map().contains_key(q) implies cur.has_chunk(cur.chunk_map()[q])
                        && cur.pos_of(cur.chunk_map()[q]) == q by {
                        if q == p {
                            assert(cur.chunk_map()[q] == e);
                            assert(assoc_map(cur.chunks@)[e] == entry);
                        } else {
                            assert(prev.chunk_map().contains_key(q));
                            let eq = prev.chunk_map()[q];
                            assert(prev.has_chunk(eq));
                            assert(eq.index < prev.next_index);
                            assert(eq != e);
                        }
                    }
                    assert forall|e2: EntityId| #[trigger]
                        cur.has_chunk(e2) implies cur.chunk_map().contains_key(cur.pos_of(e2))
                        && cur.chunk_map()[cur.pos_of(e2)] == e2 && cur.data_of(e2).len()
                        == PADDED_VOLUME && e2.generation == 0 && e2.index < cur.next_index by {
                        if e2 == e {
                            assert(assoc_map(cur.chunks@)[e] == entry);
                            assert(cur.pos_of(e) == p);
                            assert(cur.data_of(e) == air_buffer());
                        } else {
                            assert(prev.has_chunk(e2));
                            assert(prev.chunk_map().contains_key(prev.pos_of(e2)));
                            assert(prev.pos_of(e2) != p);
                            assert(cur.pos_of(e2) == prev.pos_of(e2));
                        }
                    }
                    assert(cur.wf());
                }
            }
            proof {
                if !resident {
                    let e = self.chunk_map()[p];
                    assert(self.has_chunk(e));
                    if old(self).has_chunk(e) {
                        assert(e.index < old(self).next_index);
                    }
                    assert(self.freshly_spawned(*old(self), p));
                }
                assert(spawns@.take(i as int + 1) =~= spawns@.take(i as int).push(p));
                assert forall|q: ChunkPos| #[trigger]
                    self.chunk_map().contains_key(q) <==> (old(self).chunk_map().contains_key(q)
                        || spawns@.take(i as int + 1).contains(q)) by {
                    lemma_push_contains(spawns@.take(i as int), p, q);
                }
                assert forall|q: ChunkPos|
                    spawns@.take(i as int + 1).contains(q) && !old(self).chunk_map().contains_key(q) implies #[trigger] self.freshly_spawned(
                    *old(self),
                    q,
                ) by {
                    lemma_push_contains(spawns@.take(i as int), p, q);
                    if q != p {
                        assert(prev.freshly_spawned(*old(self), q));
                        let eq = prev.chunk_map()[q];
                        assert(prev.has_chunk(eq));
                        assert(eq.index < prev.next_index);
                    }
                }
            }
            i = i + 1;
        }
        proof {
            assert(spawns@.take(n as int) =~= spawns@);
        }
    }
}

/// The handles of the `Load`-state chunks of `s`, in reverse order of
/// appearance: exactly what prepending each of them in turn to a queue
/// leaves at its front.
pub open spec fn load_handles_rev(s: Seq<(EntityId, ChunkEntry)>) -> Seq<EntityId>
    decreases s.len(),
{
    if s.len() == 0 {
        Seq::empty()
    } else {
        (if s.last().1.state is Load {
            seq![s.last().0]
        } else {
            Seq::empty()
        }) + load_handles_rev(s.drop_last())
    }
}

/// What the load queue prefix holds: exactly the handles of `Load`-state
/// entries.
proof fn lemma_load_handles_rev_membership(s: Seq<(EntityId, ChunkEntry)>)
    ensures
        forall|e: EntityId| #[trigger]
            load_handles_rev(s).contains(e) <==> (exists|i: int|
                0 <= i < s.len() && #[trigger] s[i].0 == e && s[i].1.state is Load),
    decreases s.len(),
{
    if s.len() > 0 {
        lemma_load_handles_rev_membership(s.drop_last());
        let head: Seq<EntityId> = if s.last().1.state is Load {
            seq![s.last().0]
        } else {
            Seq::empty()
        };
        assert forall|e: EntityId| #[trigger]
            load_handles_rev(s).contains(e) <==> (exists|i: int|
                0 <= i < s.len() && #[trigger] s[i].0 == e && s[i].1.state is Load) by {
            if load_handles_rev(s).contains(e) {
                let k = choose|k: int|
                    0 <= k < load_handles_rev(s).len() && load_handles_rev(s)[k] == e;
                if k < head.len() {
                    assert(s[s.len() - 1].0 == e && s[s.len() - 1].1.state is Load);
                } else {
                    assert(load_handles_rev(s.drop_last())[k - head.len()] == e);
                    assert(load_handles_rev(s.drop_last()).contains(e));
                    let i = choose|i: int|
                        0 <= i < s.drop_last().len() && #[trigger] s.drop_last()[i].0 == e
                            && s.drop_last()[i].1.state is Load;
                    assert(s[i].0 == e && s[i].1.state is Load);
                }
            }
            if exists|i: int| 0 <= i < s.len() && #[trigger] s[i].0 == e && s[i].1.state is Load {
                let i = choose|i: int|
                    0 <= i < s.len() && #[trigger] s[i].0 == e && s[i].1.state is Load;
                if i == s.len() - 1 {
                    assert(load_handles_rev(s)[0] == e);
                } else {
                    assert(s.drop_last()[i].0 == e && s.drop_last()[i].1.state is Load);
                    assert(load_handles_rev(s.drop_last()).contains(e));
                    let k = choose|k: int|
                        0 <= k < load_handles_rev(s.drop_last()).len() && load_handles_rev(
                            s.drop_last(),
                        )[k] == e;
                    assert(load_handles_rev(s)[head.len() + k] == e);
                }
            }
        }
    }
}

impl ChunkWorld {
    /// What the load pass queues: exactly the handles of the chunks still
    /// in `Load` state.
    pub proof fn lemma_pending_loads_membership(self)
        requires
            self.wf(),
        ensures
            forall|e: EntityId| #[trigger]
                self.pending_loads().contains(e) <==> (self.has_chunk(e) && self.state_of(e)
                    is Load),
    {
        lemma_load_handles_rev_membership(self.chunks@);
        assert forall|e: EntityId| #[trigger]
            self.pending_loads().contains(e) <==> (self.has_chunk(e) && self.state_of(e)
                is Load) by {
            if exists|i: int|
                0 <= i < self.chunks@.len() && #[trigger] self.chunks@[i].0 == e
                    && self.chunks@[i].1.state is Load {
                let i = choose|i: int|
                    0 <= i < self.chunks@.len() && #[trigger] self.chunks@[i].0 == e
                        && self.chunks@[i].1.state is Load;
                lemma_assoc_at(self.chunks@, i);
            }
            if self.has_chunk(e) && self.state_of(e) is Load {
                let i = crate::assoc::assoc_index_of(self.chunks@, e);
                lemma_assoc_at(self.chunks@, i);
                assert(self.chunks@[i].0 == e && self.chunks@[i].1.state is Load);
            }
        }
    }
}

/// Some despawn request names handle `e`.
pub open spec fn despawn_listed(d: Seq<(ChunkPos, EntityId)>, e: EntityId) -> bool {
    exists|i: int| 0 <= i < d.len() && d[i].1 == e
}

impl ChunkWorld {
    /// The index of the chunk entry under handle `e`, where one exists.
    fn find_chunk(&self, e: EntityId) -> (r: Option<usize>)
        ensures
            match r {
                Some(i) => i < self.chunks@.len() && self.chunks@[i as int].0 == e,
                None => !self.has_chunk(e),
            },
    {
        let n = self.chunks.len();
        let mut i: usize = 0;
        while i < n
            invariant
                n == self.chunks@.len(),
                i <= n,
                forall|j: int| 0 <= j < i ==> self.chunks@[j].0 != e,
            decreases n - i,
        {
            if self.chunks[i].0 == e {
                return Some(i);
            }
            i = i + 1;
        }
        proof {
            assert(!assoc_contains(self.chunks@, e));
        }
        None
    }

    /// Load pass.  Every chunk still in `Load` state moves to `Generate`
    /// and its handle is pushed onto the front of the generation queue, so
    /// newer requests stand before older ones.
    pub fn load_chunk_data(&mut self)
        requires
            old(self).wf(),
        ensures
            final(self).wf(),
            final(self).chunk_map() == old(self).chunk_map(),
            forall|e: EntityId| #[trigger]
                final(self).has_chunk(e) == old(self).has_chunk(e),
            forall|e: EntityId| #[trigger]
                old(self).has_chunk(e) ==> final(self).pos_of(e) == old(self).pos_of(e) && final(self).data_of(e) == old(self).data_of(e),
            forall|e: EntityId| #[trigger]
                old(self).has_chunk(e) ==> final(self).state_of(e) == (if old(self).state_of(e)
                    is Load {
                    ChunkLoadState::Generate
                } else {
                    old(self).state_of(e)
                }),
            final(self).queue() == old(self).pending_loads() + old(self).queue(),
            final(self).pending_ready() == old(self).pending_ready(),
    {
        let n = self.chunks.len();
        let mut i: usize = 0;
        while i < n
            invariant
                self.wf(),
                n == self.chunks@.len(),
                n == old(self).chunks@.len(),
                i <= n,
                self.map@ == old(self).map@,
                self.newly_done@ == old(self).newly_done@,
                self.next_index == old(self).next_index,
                forall|j: int| #![trigger self.chunks@[j]]
                    0 <= j < n ==> self.chunks@[j].0 == old(self).chunks@[j].0
                        && self.chunks@[j].1.chunk.pos == old(self).chunks@[j].1.chunk.pos
                        && self.chunks@[j].1.chunk.block_data == old(self).chunks@[j].1.chunk.block_data,
                forall|j: int| #![trigger self.chunks@[j]]
                    0 <= j < i ==> self.chunks@[j].1.state == (if old(self).chunks@[j].1.state
                        is Load {
                        ChunkLoadState::Generate
                    } else {
                        old(self).chunks@[j].1.state
                    }),
                forall|j: int| #![trigger self.chunks@[j]]
                    i <= j < n ==> self.chunks@[j].1.state == old(self).chunks@[j].1.state,
                self.gen_queue@ == load_handles_rev(old(self).chunks@.take(i as int)) + old(self).gen_queue@,
            decreases n - i,
        {
            let ghost prev = *self;
            let is_load = match self.chunks[i].1.state {
                ChunkLoadState::Load => true,
                _ => false,
            };
            if is_load {
                let e = self.chunks[i].0;
                self.chunks[i].1.state = ChunkLoadState::Generate;
                self.gen_queue.insert(0, e);
                proof {
                    let entry2 = self.chunks@[i as int].1;
                    assert(self.chunks@ == prev.chunks@.update(
                        i as int,
                        (prev.chunks@[i as int].0, entry2),
                    ));
                    lemma_assoc_update(prev.chunks@, i as int, entry2);
                }
            }
            proof {
                assert(old(self).chunks@.take(i as int + 1).drop_last() =~= old(self).chunks@.take(i as int));
                assert(old(self).chunks@.take(i as int + 1).last() == old(self).chunks@[i as int]);
                assert(self.gen_queue@ =~= load_handles_rev(old(self).chunks@.take(i as int + 1))
                    + old(self).gen_queue@);
                assert forall|q: ChunkPos| #[trigger]
                    self.chunk_map().contains_key(q) implies self.has_chunk(self.chunk_map()[q])
                    && self.pos_of(self.chunk_map()[q]) == q by {
                    assert(prev.chunk_map().contains_key(q));
                }
                assert forall|e2: EntityId| #[trigger]
                    self.has_chunk(e2) implies self.chunk_map().contains_key(self.pos_of(e2))
                    && self.chunk_map()[self.pos_of(e2)] == e2 && self.data_of(e2).len()
                    == PADDED_VOLUME && e2.generation == 0 && e2.index < self.next_index by {
                    assert(prev.has_chunk(e2));
                }
                assert(self.wf());
            }
            i = i + 1;
        }
        proof {
            assert(old(self).chunks@.take(n as int) =~= old(self).chunks@);
            assert forall|e: EntityId| #[trigger]
                old(self).has_chunk(e) implies self.has_chunk(e) && self.pos_of(e) == old(self).pos_of(e) && self.data_of(e) == old(self).data_of(e) && self.state_of(e) == (if old(self).state_of(e) is Load {
                ChunkLoadState::Generate
            } else {
                old(self).state_of(e)
            }) by {
                let j = crate::assoc::assoc_index_of(old(self).chunks@, e);
                lemma_assoc_at(old(self).chunks@, j);
                lemma_assoc_at(self.chunks@, j);
            }
            assert forall|e: EntityId| #[trigger]
                self.has_chunk(e) implies old(self).has_chunk(e) by {
                let j = crate::assoc::assoc_index_of(self.chunks@, e);
                lemma_assoc_at(self.chunks@, j);
                assert(old(self).chunks@[j].0 == e);
            }
        }
    }

    /// Unload-marking pass.  Every chunk named by a despawn request is
    /// marked `Unload`, whatever state it was in; the destruction pass
    /// removes it later.
    pub fn prepare_for_unload(&mut self, despawns: &Vec<(ChunkPos, EntityId)>)
        requires
            old(self).wf(),
        ensures
            final(self).wf(),
            final(self).chunk_map() == old(self).chunk_map(),
            forall|e: EntityId| #[trigger]
                final(self).has_chunk(e) == old(self).has_chunk(e),
            forall|e: EntityId| #[trigger]
                old(self).has_chunk(e) ==> final(self).pos_of(e) == old(self).pos_of(e) && final(self).data_of(e) == old(self).data_of(e),
            forall|e: EntityId| #[trigger]
                old(self).has_chunk(e) ==> final(self).state_of(e) == (if despawn_listed(
                    despawns@,
                    e,
                ) {
                    ChunkLoadState::Unload
                } else {
                    old(self).state_of(e)
                }),
            final(self).queue() == old(self).queue(),
            final(self).pending_ready() == old(self).pending_ready(),
    {
        let n = despawns.len();
        let mut i: usize = 0;
        while i < n
            invariant
                self.wf(),
                n == despawns@.len(),
                i <= n,
                self.map@ == old(self).map@,
                self.gen_queue@ == old(self).gen_queue@,
                self.newly_done@ == old(self).newly_done@,
                self.next_index == old(self).next_index,
                old(self).wf(),
                forall|e: EntityId| #[trigger]
                    self.has_chunk(e) == old(self).has_chunk(e),
                forall|e: EntityId| #[trigger]
                    old(self).has_chunk(e) ==> self.pos_of(e) == old(self).pos_of(e)
                        && self.data_of(e) == old(self).data_of(e),
                forall|e: EntityId| #[trigger]
                    old(self).has_chunk(e) ==> self.state_of(e) == (if despawn_listed(
                        despawns@.take(i as int),
                        e,
                    ) {
                        ChunkLoadState::Unload
                    } else {
                        old(self).state_of(e)
                    }),
            decreases n - i,
        {
            let (_, e) = despawns[i];
            let ghost prev = *self;
            let found = self.find_chunk(e);
            match found {
                Some(idx) => {
                    self.chunks[idx].1.state = ChunkLoadState::Unload;
                    proof {
                        let entry2 = self.chunks@[idx as int].1;
                        assert(self.chunks@ == prev.chunks@.update(
                            idx as int,
                            (prev.chunks@[idx as int].0, entry2),
                        ));
                        lemma_assoc_update(prev.chunks@, idx as int, entry2);
                        lemma_assoc_at(prev.chunks@, idx as int);
                        assert forall|e2: EntityId| #[trigger]
                            self.has_chunk(e2) == prev.has_chunk(e2) by {
                            assert(assoc_contains(
                                prev.chunks@.update(
                                    idx as int,
                                    (prev.chunks@[idx as int].0, entry2),
                                ),
                                e2,
                            ) <==> assoc_contains(prev.chunks@, e2));
                        }
                        assert forall|q: ChunkPos| #[trigger]
                            self.chunk_map().contains_key(q) implies self.has_chunk(
                            self.chunk_map()[q],
                        ) && self.pos_of(self.chunk_map()[q]) == q by {
                            assert(prev.chunk_map().contains_key(q));
                        }
                        assert forall|e2: EntityId| #[trigger]
                            self.has_chunk(e2) implies self.chunk_map().contains_key(
                            self.pos_of(e2),
                        ) && self.chunk_map()[self.pos_of(e2)] == e2 && self.data_of(e2).len()
                            == PADDED_VOLUME && e2.generation == 0 && e2.index
                            < self.next_index by {
                            assert(prev.has_chunk(e2));
                        }
                        assert(self.wf());
                        assert(prev.chunks@[idx as int].0 == e);
                        assert(prev.has_chunk(e));
                        assert(old(self).has_chunk(e));
                    }
                },
                None => {},
            }
            proof {
                assert(despawns@.take(i as int + 1) =~= despawns@.take(i as int).push(
                    despawns@[i as int],
                ));
                assert forall|e2: EntityId| #[trigger]
                    old(self).has_chunk(e2) implies self.state_of(e2) == (if despawn_listed(
                    despawns@.take(i as int + 1),
                    e2,
                ) {
                    ChunkLoadState::Unload
                } else {
                    old(self).state_of(e2)
                }) by {
                    if despawn_listed(despawns@.take(i as int + 1), e2) {
                        let j = choose|j: int|
                            0 <= j < i + 1 && #[trigger] despawns@.take(i as int + 1)[j].1 == e2;
                        if j < i {
                            assert(despawn_listed(despawns@.take(i as int), e2));
                        } else {
                            assert(e2 == e);
                        }
                    } else {
                        assert(!despawn_listed(despawns@.take(i as int), e2)) by {
                            if despawn_listed(despawns@.take(i as int), e2) {
                                let j = choose|j: int|
                                    0 <= j < i && #[trigger] despawns@.take(i as int)[j].1 == e2;
                                assert(despawns@.take(i as int + 1)[j].1 == e2);
                            }
                        }
                        assert(e2 != e) by {
                            if e2 == e {
                                assert(despawns@.take(i as int + 1)[i as int].1 == e2);
                            }
                        }
                    }
                }
            }
            i = i + 1;
        }
        proof {
            assert(despawns@.take(n as int) =~= despawns@);
        }
    }
}

impl ChunkWorld {
    /// Whether `n` more chunk handles can still be allocated — the
    /// run-time face of the allocation headroom that a tick requires.
    pub fn can_spawn_chunks(&self, n: u32) -> (r: bool)
        ensures
            r == self.can_allocate(n as int),
    {
        self.next_index as u64 + n as u64 <= u32::MAX as u64
    }

    /// How many completions are recorded and not yet announced — zero
    /// whenever ticks are driven to completion, which a tick requires.
    pub fn pending_ready_len(&self) -> (r: usize)
        ensures
            r == self.pending_ready().len(),
    {
        self.newly_done.len()
    }

    /// How many generation requests are pending.
    pub fn queue_len(&self) -> (r: usize)
        ensures
            r == self.queue().len(),
    {
        self.gen_queue.len()
    }

    /// How many chunks are resident.
    pub fn resident_count(&self) -> (r: usize)
        requires
            self.wf(),
        ensures
            r == self.chunk_map().dom().len(),
    {
        proof {
            crate::assoc::lemma_assoc_dom_len(self.map@);
        }
        self.map.len()
    }

    /// The lifecycle state of the chunk at `p`, where one is resident.
    pub fn chunk_state(&self, p: ChunkPos) -> (r: Option<ChunkLoadState>)
        requires
            self.wf(),
        ensures
            r == (if self.chunk_map().contains_key(p) {
                Some(self.state_of(self.chunk_map()[p]))
            } else {
                None::<ChunkLoadState>
            }),
    {
        let n = self.map.len();
        let mut i: usize = 0;
        while i < n
            invariant
                self.wf(),
                n == self.map@.len(),
                i <= n,
                forall|j: int| 0 <= j < i ==> self.map@[j].0 != p,
            decreases n - i,
        {
            if self.map[i].0 == p {
                let e = self.map[i].1;
                proof {
                    lemma_assoc_at(self.map@, i as int);
                }
                let found = self.find_chunk(e);
                match found {
                    Some(k) => {
                        proof {
                            lemma_assoc_at(self.chunks@, k as int);
                        }
                        return Some(self.chunks[k].1.state);
                    },
                    None => {
                        proof {
                            assert(self.has_chunk(e));
                            assert(false);
                        }
                        return None;
                    },
                }
            }
            i = i + 1;
        }
        proof {
            assert(!assoc_contains(self.map@, p));
        }
        None
    }
}

/// The smaller of two integers.
pub open spec fn spec_min(a: int, b: int) -> int {
    if a <= b {
        a
    } else {
        b
    }
}

/// The handles of `popped` that exist in `w`, in order: exactly the
/// completions the generation pass records while draining `popped`.
pub open spec fn ready_append(w: ChunkWorld, popped: Seq<EntityId>) -> Seq<EntityId>
    decreases popped.len(),
{
    if popped.len() == 0 {
        Seq::empty()
    } else {
        ready_append(w, popped.drop_last()) + (if w.has_chunk(popped.last()) {
            seq![popped.last()]
        } else {
            Seq::empty()
        })
    }
}

/// Every handle the generation pass records comes from the drained
/// requests and had a chunk.
proof fn lemma_ready_append_membership(w: ChunkWorld, popped: Seq<EntityId>)
    ensures
        forall|e: EntityId| #[trigger]
            ready_append(w, popped).contains(e) ==> w.has_chunk(e) && popped.contains(e),
    decreases popped.len(),
{
    if popped.len() > 0 {
        lemma_ready_append_membership(w, popped.drop_last());
        assert forall|e: EntityId| #[trigger]
            ready_append(w, popped).contains(e) implies w.has_chunk(e) && popped.contains(e) by {
            let whole = ready_append(w, popped);
            let front = ready_append(w, popped.drop_last());
            let k = choose|k: int| 0 <= k < whole.len() && whole[k] == e;
            if k < front.len() {
                assert(front[k] == e);
                assert(front.contains(e));
                let j = choose|j: int|
                    0 <= j < popped.drop_last().len() && popped.drop_last()[j] == e;
                assert(popped[j] == e);
            } else {
                assert(e == popped.last());
                assert(popped[popped.len() - 1] == e);
            }
        }
    }
}

/// Every announced event names a recorded handle that has a chunk, with
/// that chunk's coordinate.
proof fn lemma_ready_events_membership(w: ChunkWorld, pending: Seq<EntityId>)
    ensures
        forall|k: int|
            0 <= k < ready_events(w, pending).len() ==> (#[trigger] ready_events(w, pending)[k]
                matches ChunkReadyEvent(p, e) && w.has_chunk(e) && p == w.pos_of(e)
                && pending.contains(e)),
    decreases pending.len(),
{
    if pending.len() > 0 {
        lemma_ready_events_membership(w, pending.drop_last());
        assert forall|k: int|
            0 <= k < ready_events(w, pending).len() implies (#[trigger] ready_events(
            w,
            pending,
        )[k] matches ChunkReadyEvent(p, e) && w.has_chunk(e) && p == w.pos_of(e)
            && pending.contains(e)) by {
            let whole = ready_events(w, pending);
            let front = ready_events(w, pending.drop_last());
            if k < front.len() {
                assert(whole[k] == front[k]);
                assert(front[k] matches ChunkReadyEvent(p, e) && w.has_chunk(e) && p == w.pos_of(
                    e,
                ) && pending.drop_last().contains(e));
                let pe = front[k];
                let j = choose|j: int|
                    0 <= j < pending.drop_last().len() && pending.drop_last()[j] == pe.1;
                assert(pending[j] == pe.1);
            } else {
                assert(whole[k] == ChunkReadyEvent(w.pos_of(pending.last()), pending.last()));
                assert(pending[pending.len() - 1] == pending.last());
            }
        }
    }
}

impl ChunkWorld {
    /// Generation pass.  Drains at most `view_distance / 2` requests from
    /// the back of the queue; each drained handle that still has a chunk is
    /// filled by the generator, moved to `Done`, and recorded for the ready
    /// pass.  Exactly `min(view_distance / 2, queue length)` requests leave
    /// the queue.
    #[verifier::rlimit(80)]
    pub fn generate_chunks(&mut self, view_distance: i32)
        requires
            old(self).wf(),
            0 <= view_distance <= 100,
        ensures
            final(self).wf(),
            final(self).chunk_map() == old(self).chunk_map(),
            forall|e: EntityId| #[trigger]
                final(self).has_chunk(e) == old(self).has_chunk(e),
            forall|e: EntityId| #[trigger]
                old(self).has_chunk(e) ==> final(self).pos_of(e) == old(self).pos_of(e),
            final(self).queue() == old(self).queue().take(
                old(self).queue().len() - spec_min(
                    view_distance as int / 2,
                    old(self).queue().len() as int,
                ),
            ),
            forall|e: EntityId| #[trigger]
                old(self).has_chunk(e) ==> (if old(self).queue().skip(
                    old(self).queue().len() - spec_min(
                        view_distance as int / 2,
                        old(self).queue().len() as int,
                    ),
                ).contains(e) {
                    final(self).state_of(e) is Done && final(self).data_of(e)
                        == crate::terrain::generated_buffer()
                } else {
                    final(self).state_of(e) == old(self).state_of(e) && final(self).data_of(e)
                        == old(self).data_of(e)
                }),
            final(self).pending_ready() == old(self).pending_ready() + ready_append(
                *old(self),
                old(self).queue().skip(
                    old(self).queue().len() - spec_min(
                        view_distance as int / 2,
                        old(self).queue().len() as int,
                    ),
                ).reverse(),
            ),
    {
        let cap = view_distance / 2;
        let ghost len0 = old(self).gen_queue@.len() as int;
        let ghost mut popped: Seq<EntityId> = Seq::empty();
        let mut count: i32 = 0;
        while count < cap
            invariant
                self.wf(),
                old(self).wf(),
                0 <= cap <= 50,
                0 <= count <= cap,
                len0 == old(self).gen_queue@.len(),
                popped.len() == count,
                count <= len0,
                self.gen_queue@ == old(self).gen_queue@.take(len0 - count),
                popped == old(self).gen_queue@.skip(len0 - count).reverse(),
                self.map@ == old(self).map@,
                self.next_index == old(self).next_index,
                forall|e: EntityId| #[trigger]
                    self.has_chunk(e) == old(self).has_chunk(e),
                forall|e: EntityId| #[trigger]
                    old(self).has_chunk(e) ==> self.pos_of(e) == old(self).pos_of(e),
                forall|e: EntityId| #[trigger]
                    old(self).has_chunk(e) ==> (if popped.contains(e) {
                        self.state_of(e) is Done && self.data_of(e)
                            == crate::terrain::generated_buffer()
                    } else {
                        self.state_of(e) == old(self).state_of(e) && self.data_of(e) == old(self).data_of(e)
                    }),
                self.newly_done@ == old(self).newly_done@ + ready_append(*old(self), popped),
            ensures
                self.wf(),
                count == spec_min(cap as int, len0),
                self.gen_queue@ == old(self).gen_queue@.take(len0 - count),
                popped == old(self).gen_queue@.skip(len0 - count).reverse(),
                self.map@ == old(self).map@,
                forall|e: EntityId| #[trigger]
                    self.has_chunk(e) == old(self).has_chunk(e),
                forall|e: EntityId| #[trigger]
                    old(self).has_chunk(e) ==> self.pos_of(e) == old(self).pos_of(e),
                forall|e: EntityId| #[trigger]
                    old(self).has_chunk(e) ==> (if popped.contains(e) {
                        self.state_of(e) is Done && self.data_of(e)
                            == crate::terrain::generated_buffer()
                    } else {
                        self.state_of(e) == old(self).state_of(e) && self.data_of(e) == old(self).data_of(e)
                    }),
                self.newly_done@ == old(self).newly_done@ + ready_append(*old(self), popped),
            decreases cap - count,
        {
            if self.gen_queue.len() == 0 {
                proof {
                    assert(len0 - count == 0);
                }
                break ;
            }
            let ghost at_head = *self;
            let ghost popped_before = popped;
            let next = self.gen_queue.pop();
            let e = match next {
                Some(x) => x,
                None => {
                    proof {
                        assert(false);
                    }
                    EntityId { index: 0, generation: 0 }
                },
            };
            proof {
                assert(e == at_head.gen_queue@.last());
                assert(self.gen_queue@ =~= old(self).gen_queue@.take(len0 - count - 1));
                assert(old(self).gen_queue@.skip(len0 - count - 1).reverse() =~= popped.push(e));
                popped = popped.push(e);
                assert(self.chunk_map() == at_head.chunk_map());
                assert forall|e2: EntityId| #[trigger]
                    self.has_chunk(e2) == at_head.has_chunk(e2) by {
                    assert(self.chunks@ == at_head.chunks@);
                }
                assert forall|e2: EntityId| #[trigger]
                    at_head.has_chunk(e2) implies self.state_of(e2) == at_head.state_of(e2)
                    && self.data_of(e2) == at_head.data_of(e2) && self.pos_of(e2)
                    == at_head.pos_of(e2) by {
                    assert(self.chunks@ == at_head.chunks@);
                }
                assert forall|q: ChunkPos| #[trigger]
                    self.chunk_map().contains_key(q) implies self.has_chunk(self.chunk_map()[q])
                    && self.pos_of(self.chunk_map()[q]) == q by {
                    assert(at_head.chunk_map().contains_key(q));
                }
                assert forall|e2: EntityId| #[trigger]
                    self.has_chunk(e2) implies self.chunk_map().contains_key(self.pos_of(e2))
                    && self.chunk_map()[self.pos_of(e2)] == e2 && self.data_of(e2).len()
                    == PADDED_VOLUME && e2.generation == 0 && e2.index < self.next_index by {
                    assert(at_head.has_chunk(e2));
                }
                assert(self.wf());
            }
            let found = self.find_chunk(e);
            match found {
                Some(idx) => {
                    let ghost before_record = *self;
                    self.newly_done.push(e);
                    proof {
                        assert(self.chunks@ == before_record.chunks@);
                        assert(self.map@ == before_record.map@);
                        assert(self.chunk_map() == before_record.chunk_map());
                        assert forall|e2: EntityId| #[trigger]
                            self.has_chunk(e2) == before_record.has_chunk(e2) by {
                            assert(self.chunks@ == before_record.chunks@);
                        }
                        assert forall|e2: EntityId| #[trigger]
                            before_record.has_chunk(e2) implies self.state_of(e2)
                            == before_record.state_of(e2) && self.data_of(e2)
                            == before_record.data_of(e2) && self.pos_of(e2)
                            == before_record.pos_of(e2) by {
                            assert(self.chunks@ == before_record.chunks@);
                        }
                        assert forall|q: ChunkPos| #[trigger]
                            self.chunk_map().contains_key(q) implies self.has_chunk(
                            self.chunk_map()[q],
                        ) && self.pos_of(self.chunk_map()[q]) == q by {
                            assert(before_record.chunk_map().contains_key(q));
                        }
                        assert forall|e2: EntityId| #[trigger]
                            self.has_chunk(e2) implies self.chunk_map().contains_key(
                            self.pos_of(e2),
                        ) && self.chunk_map()[self.pos_of(e2)] == e2 && self.data_of(e2).len()
                            == PADDED_VOLUME && e2.generation == 0 && e2.index
                            < self.next_index by {
                            assert(before_record.has_chunk(e2));
                        }
                        assert(self.wf());
                    }
                    let ghost prev = *self;
                    self.chunks[idx].1.state = ChunkLoadState::Done;
                    proof {
                        let entry2 = self.chunks@[idx as int].1;
                        assert(self.chunks@ == prev.chunks@.update(
                            idx as int,
                            (prev.chunks@[idx as int].0, entry2),
                        ));
                        lemma_assoc_update(prev.chunks@, idx as int, entry2);
                        lemma_assoc_at(prev.chunks@, idx as int);
                        assert forall|e2: EntityId| #[trigger]
                            self.has_chunk(e2) == prev.has_chunk(e2) by {
                            assert(assoc_contains(
                                prev.chunks@.update(
                                    idx as int,
                                    (prev.chunks@[idx as int].0, entry2),
                                ),
                                e2,
                            ) <==> assoc_contains(prev.chunks@, e2));
                        }
                    }
                    let ghost mid = *self;
                    proof {
                        assert(self.chunks@[idx as int].1.chunk.block_data@.len()
                            == PADDED_VOLUME) by {
                            lemma_assoc_at(self.chunks@, idx as int);
                            assert(self.has_chunk(e));
                        }
                    }
                    crate::terrain::generate_chunk(&mut self.chunks[idx].1.chunk);
                    proof {
                        let entry3 = self.chunks@[idx as int].1;
                        assert(self.chunks@ == mid.chunks@.update(
                            idx as int,
                            (mid.chunks@[idx as int].0, entry3),
                        ));
                        lemma_assoc_update(mid.chunks@, idx as int, entry3);
                        lemma_assoc_at(mid.chunks@, idx as int);
                        assert forall|e2: EntityId| #[trigger]
                            self.has_chunk(e2) == mid.has_chunk(e2) by {
                            assert(assoc_contains(
                                mid.chunks@.update(idx as int, (mid.chunks@[idx as int].0, entry3)),
                                e2,
                            ) <==> assoc_contains(mid.chunks@, e2));
                        }
                        assert forall|q: ChunkPos| #[trigger]
                            self.chunk_map().contains_key(q) implies self.has_chunk(
                            self.chunk_map()[q],
                        ) && self.pos_of(self.chunk_map()[q]) == q by {
                            assert(prev.chunk_map().contains_key(q));
                        }
                        assert forall|e2: EntityId| #[trigger]
                            self.has_chunk(e2) implies self.chunk_map().contains_key(
                            self.pos_of(e2),
                        ) && self.chunk_map()[self.pos_of(e2)] == e2 && self.data_of(e2).len()
                            == PADDED_VOLUME && e2.generation == 0 && e2.index
                            < self.next_index by {
                            assert(prev.has_chunk(e2));
                        }
                        assert(self.wf());
                        assert(prev.chunks@[idx as int].0 == e);
                        assert(prev.has_chunk(e));
                        assert(old(self).has_chunk(e));
                    }
                },
                None => {
                    proof {
                        assert(!old(self).has_chunk(e));
                    }
                },
            }
            proof {
                assert(popped.drop_last() =~= popped_before);
                assert(self.newly_done@ =~= old(self).newly_done@ + ready_append(
                    *old(self),
                    popped,
                ));
                assert forall|e2: EntityId| #[trigger]
                    old(self).has_chunk(e2) implies (if popped.contains(e2) {
                    self.state_of(e2) is Done && self.data_of(e2)
                        == crate::terrain::generated_buffer()
                } else {
                    self.state_of(e2) == old(self).state_of(e2) && self.data_of(e2) == old(self).data_of(e2)
                }) by {
                    lemma_push_contains(popped_before, e, e2);
                }
            }
            count = count + 1;
        }
        proof {
            assert(old(self).queue().skip(len0 - count) =~= old(self).gen_queue@.skip(
                len0 - count,
            ));
            let sk = old(self).gen_queue@.skip(len0 - count);
            assert forall|e: EntityId| #[trigger]
                sk.contains(e) <==> popped.contains(e) by {
                assert(popped == sk.reverse());
                if sk.contains(e) {
                    let i = choose|i: int| 0 <= i < sk.len() && sk[i] == e;
                    assert(sk.reverse()[sk.len() - 1 - i] == e);
                }
                if popped.contains(e) {
                    let i = choose|i: int| 0 <= i < popped.len() && popped[i] == e;
                    assert(sk[sk.len() - 1 - i] == e);
                }
            }
        }
    }
}

/// The ready events announced for `pending`, in order: one per recorded
/// handle that still has a chunk, carrying its coordinate.
pub open spec fn ready_events(w: ChunkWorld, pending: Seq<EntityId>) -> Seq<ChunkReadyEvent>
    decreases pending.len(),
{
    if pending.len() == 0 {
        Seq::empty()
    } else {
        ready_events(w, pending.drop_last()) + (if w.has_chunk(pending.last()) {
            seq![ChunkReadyEvent(w.pos_of(pending.last()), pending.last())]
        } else {
            Seq::empty()
        })
    }
}

impl ChunkWorld {
    /// Ready pass.  Announces one event per completion the generation pass
    /// recorded — coordinate and handle — and clears the record.
    pub fn mark_chunks_ready(&mut self) -> (events: Vec<ChunkReadyEvent>)
        requires
            old(self).wf(),
        ensures
            final(self).wf(),
            final(self).chunk_map() == old(self).chunk_map(),
            forall|e: EntityId| #[trigger]
                final(self).has_chunk(e) == old(self).has_chunk(e),
            forall|e: EntityId| #[trigger]
                old(self).has_chunk(e) ==> final(self).state_of(e) == old(self).state_of(e)
                    && final(self).pos_of(e) == old(self).pos_of(e) && final(self).data_of(e)
                    == old(self).data_of(e),
            final(self).queue() == old(self).queue(),
            final(self).pending_ready() == Seq::<EntityId>::empty(),
            events@ == ready_events(*old(self), old(self).pending_ready()),
    {
        let mut events: Vec<ChunkReadyEvent> = Vec::new();
        let n = self.newly_done.len();
        let mut i: usize = 0;
        while i < n
            invariant
                self.wf(),
                *self == *old(self),
                n == self.newly_done@.len(),
                i <= n,
                events@ == ready_events(*old(self), old(self).newly_done@.take(i as int)),
            decreases n - i,
        {
            let e = self.newly_done[i];
            let found = self.find_chunk(e);
            proof {
                assert(old(self).newly_done@.take(i as int + 1).drop_last() =~= old(self).newly_done@.take(i as int));
            }
            match found {
                Some(idx) => {
                    proof {
                        lemma_assoc_at(self.chunks@, idx as int);
                        assert(self.has_chunk(e));
                    }
                    let p = self.chunks[idx].1.chunk.pos;
                    events.push(ChunkReadyEvent(p, e));
                    proof {
                        assert(events@ =~= ready_events(
                            *old(self),
                            old(self).newly_done@.take(i as int + 1),
                        ));
                    }
                },
                None => {
                    proof {
                        assert(events@ =~= ready_events(
                            *old(self),
                            old(self).newly_done@.take(i as int + 1),
                        ));
                    }
                },
            }
            i = i + 1;
        }
        proof {
            assert(old(self).newly_done@.take(n as int) =~= old(self).newly_done@);
        }
        let ghost before_clear = *self;
        self.newly_done.clear();
        proof {
            assert(self.chunks@ == before_clear.chunks@);
            assert(self.map@ == before_clear.map@);
            assert(self.chunk_map() == before_clear.chunk_map());
            assert forall|e2: EntityId| #[trigger]
                self.has_chunk(e2) == before_clear.has_chunk(e2) by {
                assert(self.chunks@ == before_clear.chunks@);
            }
            assert forall|e2: EntityId| #[trigger]
                before_clear.has_chunk(e2) implies self.state_of(e2) == before_clear.state_of(e2)
                && self.data_of(e2) == before_clear.data_of(e2) && self.pos_of(e2)
                == before_clear.pos_of(e2) by {
                assert(self.chunks@ == before_clear.chunks@);
            }
            assert forall|q: ChunkPos| #[trigger]
                self.chunk_map().contains_key(q) implies self.has_chunk(self.chunk_map()[q])
                && self.pos_of(self.chunk_map()[q]) == q by {
                assert(before_clear.chunk_map().contains_key(q));
            }
            assert forall|e2: EntityId| #[trigger]
                self.has_chunk(e2) implies self.chunk_map().contains_key(self.pos_of(e2))
                && self.chunk_map()[self.pos_of(e2)] == e2 && self.data_of(e2).len()
                == PADDED_VOLUME && e2.generation == 0 && e2.index < self.next_index by {
                assert(before_clear.has_chunk(e2));
            }
            assert(self.wf());
        }
        events
    }

    /// Destruction pass.  Every chunk marked `Unload` is removed from the
    /// coordinate map and destroyed; everything else is untouched.
    pub fn destroy_chunks(&mut self)
        requires
            old(self).wf(),
        ensures
            final(self).wf(),
            forall|e: EntityId| #[trigger]
                final(self).has_chunk(e) <==> (old(self).has_chunk(e) && !(old(self).state_of(e)
                    is Unload)),
            forall|e: EntityId| #[trigger]
                final(self).has_chunk(e) ==> final(self).state_of(e) == old(self).state_of(e)
                    && final(self).pos_of(e) == old(self).pos_of(e) && final(self).data_of(e)
                    == old(self).data_of(e),
            forall|p: ChunkPos| #[trigger]
                final(self).chunk_map().contains_key(p) <==> (old(self).chunk_map().contains_key(p) && !(old(self).state_of(old(self).chunk_map()[p])
                    is Unload)),
            forall|p: ChunkPos| #[trigger]
                final(self).chunk_map().contains_key(p) ==> final(self).chunk_map()[p] == old(self).chunk_map()[p],
            final(self).queue() == old(self).queue(),
            final(self).pending_ready() == old(self).pending_ready(),
    {
        let ghost oldw = *old(self);
        let mut kept: Vec<(EntityId, ChunkEntry)> = Vec::new();
        proof {
            lemma_assoc_empty(kept@);
        }
        loop
            invariant
                oldw.wf(),
                self.map@ == oldw.map@,
                self.gen_queue@ == oldw.gen_queue@,
                self.newly_done@ == oldw.newly_done@,
                self.next_index == oldw.next_index,
                self.chunks@.len() <= oldw.chunks@.len(),
                self.chunks@ == oldw.chunks@.take(self.chunks@.len() as int),
                assoc_wf(kept@),
                forall|e: EntityId| #[trigger]
                    assoc_contains(kept@, e) ==> oldw.has_chunk(e),
                forall|e: EntityId| #[trigger]
                    assoc_contains(kept@, e) <==> (exists|j: int|
                        self.chunks@.len() <= j < oldw.chunks@.len() && oldw.chunks@[j].0 == e
                            && !(oldw.chunks@[j].1.state is Unload)),
                forall|e: EntityId| #[trigger]
                    assoc_contains(kept@, e) ==> assoc_map(kept@)[e] == assoc_map(oldw.chunks@)[e],
            ensures
                self.chunks@.len() == 0,
                assoc_wf(kept@),
                forall|e: EntityId| #[trigger]
                    assoc_contains(kept@, e) <==> (oldw.has_chunk(e) && !(oldw.state_of(e)
                        is Unload)),
                forall|e: EntityId| #[trigger]
                    assoc_contains(kept@, e) ==> assoc_map(kept@)[e] == assoc_map(oldw.chunks@)[e],
                self.map@ == oldw.map@,
                self.gen_queue@ == oldw.gen_queue@,
                self.newly_done@ == oldw.newly_done@,
                self.next_index == oldw.next_index,
            decreases self.chunks@.len(),
        {
            let ghost at_head = *self;
            let ghost kept_before = kept@;
            let next = self.chunks.pop();
            match next {
                None => {
                    proof {
                        assert forall|e: EntityId| #[trigger]
                            assoc_contains(kept@, e) <==> (oldw.has_chunk(e) && !(oldw.state_of(
                            e,
                        ) is Unload)) by {
                            if oldw.has_chunk(e) {
                                let j = crate::assoc::assoc_index_of(oldw.chunks@, e);
                                lemma_assoc_at(oldw.chunks@, j);
                            }
                            if assoc_contains(kept@, e) {
                                let j = choose|j: int|
                                    0 <= j < oldw.chunks@.len() && #[trigger] oldw.chunks@[j].0
                                        == e && !(oldw.chunks@[j].1.state is Unload);
                                lemma_assoc_at(oldw.chunks@, j);
                            }
                        }
                    }
                    break ;
                },
                Some(pair) => {
                    let (e, entry) = pair;
                    proof {
                        let j = at_head.chunks@.len() - 1;
                        assert(at_head.chunks@ == oldw.chunks@.take(j + 1));
                        assert(oldw.chunks@[j].0 == e);
                        assert(oldw.chunks@[j].1 == entry);
                        assert(self.chunks@ =~= oldw.chunks@.take(j));
                    }
                    let keep = match entry.state {
                        ChunkLoadState::Unload => false,
                        _ => true,
                    };
                    if keep {
                        proof {
                            let j = at_head.chunks@.len() - 1;
                            assert(!assoc_contains(kept@, e)) by {
                                if assoc_contains(kept@, e) {
                                    let j2 = choose|j2: int|
                                        at_head.chunks@.len() <= j2 < oldw.chunks@.len()
                                            && #[trigger] oldw.chunks@[j2].0 == e;
                                    assert(oldw.chunks@[j2].0 == oldw.chunks@[j].0);
                                }
                            }
                            lemma_assoc_push(kept@, e, entry);
                            lemma_assoc_at(oldw.chunks@, j);
                        }
                        kept.push((e, entry));
                        proof {
                            assert forall|e2: EntityId| #[trigger]
                                assoc_contains(kept@, e2) <==> (exists|j: int|
                                    self.chunks@.len() <= j < oldw.chunks@.len()
                                        && oldw.chunks@[j].0 == e2 && !(oldw.chunks@[j].1.state
                                        is Unload)) by {
                                let j = at_head.chunks@.len() - 1;
                                if assoc_contains(kept@, e2) {
                                    if e2 == e {
                                        assert(oldw.chunks@[j].0 == e2 && !(oldw.chunks@[j].1.state
                                            is Unload));
                                    } else {
                                        assert(assoc_contains(kept_before, e2));
                                    }
                                } else {
                                    if exists|j2: int|
                                        self.chunks@.len() <= j2 < oldw.chunks@.len()
                                            && #[trigger] oldw.chunks@[j2].0 == e2 && !(
                                        oldw.chunks@[j2].1.state is Unload) {
                                        let j2 = choose|j2: int|
                                            self.chunks@.len() <= j2 < oldw.chunks@.len()
                                                && #[trigger] oldw.chunks@[j2].0 == e2 && !(
                                            oldw.chunks@[j2].1.state is Unload);
                                        if j2 < at_head.chunks@.len() {
                                            assert(oldw.chunks@[j2].0 == e2);
                                        } else {
                                            assert(assoc_contains(kept_before, e2));
                                        }
                                    }
                                }
                            }
                        }
                    } else {
                        proof {
                            assert forall|e2: EntityId| #[trigger]
                                assoc_contains(kept@, e2) <==> (exists|j: int|
                                    self.chunks@.len() <= j < oldw.chunks@.len()
                                        && oldw.chunks@[j].0 == e2 && !(oldw.chunks@[j].1.state
                                        is Unload)) by {
                                let j = at_head.chunks@.len() - 1;
                                if !assoc_contains(kept@, e2) {
                                    if exists|j2: int|
                                        self.chunks@.len() <= j2 < oldw.chunks@.len()
                                            && #[trigger] oldw.chunks@[j2].0 == e2 && !(
                                        oldw.chunks@[j2].1.state is Unload) {
                                        let j2 = choose|j2: int|
                                            self.chunks@.len() <= j2 < oldw.chunks@.len()
                                                && #[trigger] oldw.chunks@[j2].0 == e2 && !(
                                            oldw.chunks@[j2].1.state is Unload);
                                        if j2 == j {
                                            assert(oldw.chunks@[j].1 == entry);
                                        } else {
                                            assert(assoc_contains(kept_before, e2));
                                        }
                                    }
                                }
                            }
                        }
                    }
                },
            }
        }
        self.chunks = kept;
        let ghost mid = *self;
        let mut kept_map: Vec<(ChunkPos, EntityId)> = Vec::new();
        proof {
            lemma_assoc_empty(kept_map@);
        }
        let n = self.map.len();
        let mut i: usize = 0;
        while i < n
            invariant
                oldw.wf(),
                *self == mid,
                mid.map@ == oldw.map@,
                n == self.map@.len(),
                i <= n,
                assoc_wf(mid.chunks@),
                forall|e: EntityId| #[trigger]
                    assoc_contains(mid.chunks@, e) <==> (oldw.has_chunk(e) && !(oldw.state_of(e)
                        is Unload)),
                forall|e: EntityId| #[trigger]
                    assoc_contains(mid.chunks@, e) ==> assoc_map(mid.chunks@)[e] == assoc_map(
                        oldw.chunks@,
                    )[e],
                assoc_wf(kept_map@),
                forall|p: ChunkPos| #[trigger]
                    assoc_contains(kept_map@, p) ==> (exists|j: int|
                        0 <= j < i && oldw.map@[j] == (p, assoc_map(kept_map@)[p])),
                forall|p: ChunkPos| #[trigger]
                    assoc_contains(kept_map@, p) <==> (exists|j: int|
                        0 <= j < i && oldw.map@[j].0 == p && assoc_contains(
                            mid.chunks@,
                            oldw.map@[j].1,
                        )),
            decreases n - i,
        {
            let (p, e) = self.map[i];
            let found = self.find_chunk(e);
            let ghost kept_map_before = kept_map@;
            match found {
                Some(_) => {
                    proof {
                        assert(assoc_contains(mid.chunks@, e)) by {
                            let idx = choose|idx: int|
                                0 <= idx < mid.chunks@.len() && #[trigger] mid.chunks@[idx].0 == e;
                        }
                        assert(!assoc_contains(kept_map@, p)) by {
                            if assoc_contains(kept_map@, p) {
                                let j = choose|j: int|
                                    0 <= j < i && #[trigger] oldw.map@[j].0 == p
                                        && assoc_contains(mid.chunks@, oldw.map@[j].1);
                                assert(oldw.map@[j].0 == oldw.map@[i as int].0);
                            }
                        }
                        lemma_assoc_push(kept_map@, p, e);
                    }
                    kept_map.push((p, e));
                    proof {
                        assert forall|p2: ChunkPos| #[trigger]
                            assoc_contains(kept_map@, p2) <==> (exists|j: int|
                                0 <= j < i + 1 && oldw.map@[j].0 == p2 && assoc_contains(
                                    mid.chunks@,
                                    oldw.map@[j].1,
                                )) by {
                            if assoc_contains(kept_map@, p2) {
                                if p2 == p {
                                    assert(oldw.map@[i as int].0 == p2 && assoc_contains(
                                        mid.chunks@,
                                        oldw.map@[i as int].1,
                                    ));
                                } else {
                                    assert(assoc_contains(kept_map_before, p2));
                                    let j = choose|j: int|
                                        0 <= j < i && #[trigger] oldw.map@[j].0 == p2
                                            && assoc_contains(mid.chunks@, oldw.map@[j].1);
                                }
                            } else {
                                if exists|j: int|
                                    0 <= j < i + 1 && #[trigger] oldw.map@[j].0 == p2
                                        && assoc_contains(mid.chunks@, oldw.map@[j].1) {
                                    let j = choose|j: int|
                                        0 <= j < i + 1 && #[trigger] oldw.map@[j].0 == p2
                                            && assoc_contains(mid.chunks@, oldw.map@[j].1);
                                    if j < i {
                                        assert(assoc_contains(kept_map_before, p2));
                                    } else {
                                        assert(p2 == p);
                                    }
                                }
                            }
                        }
                        assert forall|p2: ChunkPos| #[trigger]
                            assoc_contains(kept_map@, p2) implies (exists|j: int|
                            0 <= j < i + 1 && oldw.map@[j] == (p2, assoc_map(kept_map@)[p2])) by {
                            if p2 == p {
                                assert(assoc_map(kept_map@)[p2] == e);
                                assert(oldw.map@[i as int] == (p2, e));
                            } else {
                                assert(assoc_contains(kept_map_before, p2));
                                let j = choose|j: int|
                                    0 <= j < i && #[trigger] oldw.map@[j] == (
                                    p2,
                                    assoc_map(kept_map_before)[p2],
                                );
                                assert(assoc_map(kept_map@)[p2] == assoc_map(kept_map_before)[p2]);
                            }
                        }
                    }
                },
                None => {
                    proof {
                        assert(!assoc_contains(mid.chunks@, e));
                        assert forall|p2: ChunkPos| #[trigger]
                            assoc_contains(kept_map@, p2) <==> (exists|j: int|
                                0 <= j < i + 1 && oldw.map@[j].0 == p2 && assoc_contains(
                                    mid.chunks@,
                                    oldw.map@[j].1,
                                )) by {
                            if !assoc_contains(kept_map@, p2) {
                                if exists|j: int|
                                    0 <= j < i + 1 && #[trigger] oldw.map@[j].0 == p2
                                        && assoc_contains(mid.chunks@, oldw.map@[j].1) {
                                    let j = choose|j: int|
                                        0 <= j < i + 1 && #[trigger] oldw.map@[j].0 == p2
                                            && assoc_contains(mid.chunks@, oldw.map@[j].1);
                                    assert(j < i);
                                }
                            }
                        }
                    }
                },
            }
            i = i + 1;
        }
        self.map = kept_map;
        proof {
            lemma_destroy_final(oldw, *self, i as int);
        }
    }
}

/// After the destruction pass has rebuilt both tables, the world is well
/// formed and related to the old one as [`ChunkWorld::destroy_chunks`]
/// states.
proof fn lemma_destroy_final(oldw: ChunkWorld, cur: ChunkWorld, n: int)
    requires
        oldw.wf(),
        n == oldw.map@.len(),
        cur.gen_queue@ == oldw.gen_queue@,
        cur.newly_done@ == oldw.newly_done@,
        cur.next_index == oldw.next_index,
        assoc_wf(cur.chunks@),
        forall|e: EntityId| #[trigger]
            assoc_contains(cur.chunks@, e) <==> (oldw.has_chunk(e) && !(oldw.state_of(e)
                is Unload)),
        forall|e: EntityId| #[trigger]
            assoc_contains(cur.chunks@, e) ==> assoc_map(cur.chunks@)[e] == assoc_map(
                oldw.chunks@,
            )[e],
        assoc_wf(cur.map@),
        forall|p: ChunkPos| #[trigger]
            assoc_contains(cur.map@, p) ==> (exists|j: int|
                0 <= j < n && oldw.map@[j] == (p, assoc_map(cur.map@)[p])),
        forall|p: ChunkPos| #[trigger]
            assoc_contains(cur.map@, p) <==> (exists|j: int|
                0 <= j < n && oldw.map@[j].0 == p && assoc_contains(cur.chunks@, oldw.map@[j].1)),
    ensures
        cur.wf(),
        forall|e: EntityId| #[trigger]
            cur.has_chunk(e) <==> (oldw.has_chunk(e) && !(oldw.state_of(e) is Unload)),
        forall|e: EntityId| #[trigger]
            cur.has_chunk(e) ==> cur.state_of(e) == oldw.state_of(e) && cur.pos_of(e)
                == oldw.pos_of(e) && cur.data_of(e) == oldw.data_of(e),
        forall|p: ChunkPos| #[trigger]
            cur.chunk_map().contains_key(p) <==> (oldw.chunk_map().contains_key(p) && !(
            oldw.state_of(oldw.chunk_map()[p]) is Unload)),
        forall|p: ChunkPos| #[trigger]
            cur.chunk_map().contains_key(p) ==> cur.chunk_map()[p] == oldw.chunk_map()[p],
        cur.queue() == oldw.queue(),
        cur.pending_ready() == oldw.pending_ready(),
{
    assert forall|e: EntityId| #[trigger]
        cur.has_chunk(e) implies cur.state_of(e) == oldw.state_of(e) && cur.pos_of(e)
        == oldw.pos_of(e) && cur.data_of(e) == oldw.data_of(e) by {}
    assert forall|p: ChunkPos| #[trigger]
        cur.chunk_map().contains_key(p) implies (oldw.chunk_map().contains_key(p) && !(
    oldw.state_of(oldw.chunk_map()[p]) is Unload) && cur.chunk_map()[p]
        == oldw.chunk_map()[p]) by {
        let j = choose|j: int| 0 <= j < n && #[trigger] oldw.map@[j] == (p, assoc_map(cur.map@)[p]);
        lemma_assoc_at(oldw.map@, j);
        let j2 = choose|j2: int|
            0 <= j2 < n && #[trigger] oldw.map@[j2].0 == p && assoc_contains(
                cur.chunks@,
                oldw.map@[j2].1,
            );
        assert(j2 == j) by {
            if j2 != j {
                assert(oldw.map@[j].0 != oldw.map@[j2].0);
            }
        }
    }
    assert forall|p: ChunkPos|
        oldw.chunk_map().contains_key(p) && !(oldw.state_of(oldw.chunk_map()[p])
            is Unload) implies #[trigger] cur.chunk_map().contains_key(p) by {
        let j = crate::assoc::assoc_index_of(oldw.map@, p);
        lemma_assoc_at(oldw.map@, j);
        assert(oldw.map@[j].0 == p && assoc_contains(cur.chunks@, oldw.map@[j].1));
        assert(assoc_contains(cur.map@, p));
    }
    assert forall|e: EntityId| #[trigger]
        cur.has_chunk(e) implies cur.chunk_map().contains_key(cur.pos_of(e))
        && cur.chunk_map()[cur.pos_of(e)] == e && cur.data_of(e).len() == PADDED_VOLUME
        && e.generation == 0 && e.index < cur.next_index by {
        assert(oldw.has_chunk(e));
        assert(oldw.chunk_map().contains_key(oldw.pos_of(e)));
        assert(oldw.chunk_map()[oldw.pos_of(e)] == e);
        assert(cur.pos_of(e) == oldw.pos_of(e));
        assert(!(oldw.state_of(oldw.chunk_map()[oldw.pos_of(e)]) is Unload));
    }
    assert forall|p: ChunkPos| #[trigger]
        cur.chunk_map().contains_key(p) implies cur.has_chunk(cur.chunk_map()[p]) && cur.pos_of(
        cur.chunk_map()[p],
    ) == p by {
        assert(oldw.chunk_map().contains_key(p));
    }
    assert(cur.wf());
}

impl ChunkWorld {
    /// One full lifecycle tick around `viewer`: visibility recomputation,
    /// spawning, load queueing, bounded generation, ready announcement, then
    /// unload marking and destruction — so generation completion is checked,
    /// and completions are announced, before any chunk is destroyed.
    #[verifier::rlimit(80)]
    pub fn tick(&mut self, viewer: ChunkPos, view_distance: i32) -> (events: Vec<ChunkReadyEvent>)
        requires
            old(self).wf(),
            1 <= view_distance <= 100,
            i32::MIN + 100 <= viewer.x <= i32::MAX - 100,
            i32::MIN + 100 <= viewer.y <= i32::MAX - 100,
            old(self).can_allocate(40401),
            old(self).pending_ready() == Seq::<EntityId>::empty(),
        ensures
            final(self).wf(),
            final(self).pending_ready() == Seq::<EntityId>::empty(),
            forall|p: ChunkPos|
                is_candidate(old(self).chunk_map(), viewer, view_distance as int, p)
                    ==> #[trigger] final(self).chunk_map().contains_key(p),
            forall|p: ChunkPos|
                #[trigger] old(self).chunk_map().contains_key(p) && dist2(p, viewer)
                    > view_distance * view_distance ==> !final(self).chunk_map().contains_key(p),
            forall|p: ChunkPos|
                #[trigger] old(self).chunk_map().contains_key(p) && dist2(p, viewer)
                    <= view_distance * view_distance && !(old(self).state_of(
                    old(self).chunk_map()[p],
                ) is Unload) ==> final(self).chunk_map().contains_key(p) && final(self).chunk_map()[p] == old(self).chunk_map()[p],
            forall|k: int|
                0 <= k < events@.len() ==> (#[trigger] events@[k] matches ChunkReadyEvent(p, e)
                    && ((final(self).has_chunk(e) && final(self).state_of(e) is Done && final(self).pos_of(e) == p) || dist2(p, viewer) > view_distance * view_distance)),
    {
        let vd = view_distance;
        let (spawns, despawns) = self.update_visible_chunks(viewer, vd);
        proof {
            assert((2 * vd as int + 1) * (2 * vd as int + 1) <= 40401) by (nonlinear_arith)
                requires
                    1 <= vd <= 100,
            ;
        }
        let ghost w0 = *self;
        self.create_chunks(&spawns);
        let ghost w1 = *self;
        self.load_chunk_data();
        let ghost w2 = *self;
        self.generate_chunks(vd);
        let ghost w3 = *self;
        let events = self.mark_chunks_ready();
        let ghost w4 = *self;
        self.prepare_for_unload(&despawns);
        let ghost w5 = *self;
        self.destroy_chunks();
        proof {
            let vdi = vd as int;
            // a despawn request names exactly the far residents of the old map
            assert forall|e: EntityId|
                despawn_listed(despawns@, e) implies w0.has_chunk(e) && dist2(
                w0.pos_of(e),
                viewer,
            ) > vdi * vdi by {
                let j = choose|j: int| 0 <= j < despawns@.len() && #[trigger] despawns@[j].1 == e;
                let pe = despawns@[j];
                assert(despawns@.contains(pe));
                assert(w0.chunk_map().contains_key(pe.0) && w0.chunk_map()[pe.0] == e);
                assert(w0.pos_of(e) == pe.0);
            }
            // new spawns stay resident
            assert forall|p: ChunkPos|
                is_candidate(w0.chunk_map(), viewer, vdi, p) implies #[trigger]
                self.chunk_map().contains_key(p) by {
                assert(spawns@.contains(p));
                let e = w1.chunk_map()[p];
                assert(w1.freshly_spawned(w0, p));
                assert(w1.has_chunk(e) && w1.state_of(e) is Load);
                assert(w5.has_chunk(e));
                assert(!despawn_listed(despawns@, e)) by {
                    if despawn_listed(despawns@, e) {
                        assert(w0.has_chunk(e));
                        assert(e.index < w0.next_index);
                        assert(!w0.has_chunk(e));
                    }
                }
                assert(!(w5.state_of(e) is Unload));
                assert(w5.chunk_map().contains_key(p) && w5.chunk_map()[p] == e);
                assert(self.chunk_map().contains_key(p));
            }
            // far old residents are destroyed
            assert forall|p: ChunkPos|
                #[trigger] w0.chunk_map().contains_key(p) && dist2(p, viewer) > vdi
                    * vdi implies !self.chunk_map().contains_key(p) by {
                let e = w0.chunk_map()[p];
                assert(w0.has_chunk(e) && w0.pos_of(e) == p);
                assert(despawns@.contains((p, e)));
                assert(despawn_listed(despawns@, e)) by {
                    let j = choose|j: int| 0 <= j < despawns@.len() && despawns@[j] == (p, e);
                    assert(despawns@[j].1 == e);
                }
                assert(w1.has_chunk(e) && w2.has_chunk(e) && w3.has_chunk(e) && w4.has_chunk(e));
                assert(w5.state_of(e) is Unload);
                assert(w5.chunk_map().contains_key(p) && w5.chunk_map()[p] == e);
                assert(!self.chunk_map().contains_key(p));
            }
            // near old residents not already condemned keep their binding
            assert forall|p: ChunkPos|
                #[trigger] w0.chunk_map().contains_key(p) && dist2(p, viewer) <= vdi * vdi && !(
                w0.state_of(w0.chunk_map()[p]) is Unload) implies self.chunk_map().contains_key(
                p,
            ) && self.chunk_map()[p] == w0.chunk_map()[p] by {
                let e = w0.chunk_map()[p];
                assert(w0.has_chunk(e) && w0.pos_of(e) == p);
                assert(!despawn_listed(despawns@, e)) by {
                    if despawn_listed(despawns@, e) {
                        assert(dist2(w0.pos_of(e), viewer) > vdi * vdi);
                    }
                }
                assert(w1.has_chunk(e) && w1.state_of(e) == w0.state_of(e));
                assert(w2.has_chunk(e) && !(w2.state_of(e) is Unload));
                assert(w3.has_chunk(e) && !(w3.state_of(e) is Unload));
                assert(w4.has_chunk(e) && !(w4.state_of(e) is Unload));
                assert(w5.has_chunk(e) && !(w5.state_of(e) is Unload));
                assert(w5.chunk_map().contains_key(p) && w5.chunk_map()[p] == e);
                assert(!(w5.state_of(w5.chunk_map()[p]) is Unload));
                assert(self.chunk_map().contains_key(p));
                assert(self.chunk_map()[p] == e);
            }
            // every announced completion is resident and Done afterwards,
            // unless it lay outside the view disc and was condemned
            let keep = w2.queue().len() - spec_min(vdi / 2, w2.queue().len() as int);
            let sk = w2.queue().skip(keep);
            assert(w2.pending_ready() =~= Seq::<EntityId>::empty());
            assert(w3.pending_ready() =~= ready_append(w2, sk.reverse()));
            assert(events@ == ready_events(w3, w3.pending_ready()));
            lemma_ready_events_membership(w3, w3.pending_ready());
            lemma_ready_append_membership(w2, sk.reverse());
            assert forall|k: int|
                0 <= k < events@.len() implies (#[trigger] events@[k] matches ChunkReadyEvent(
                p,
                e,
            ) && ((self.has_chunk(e) && self.state_of(e) is Done && self.pos_of(e) == p)
                || dist2(p, viewer) > vdi * vdi)) by {
                let ev = events@[k];
                let p = ev.0;
                let e = ev.1;
                assert(w3.has_chunk(e) && p == w3.pos_of(e) && w3.pending_ready().contains(e));
                assert(ready_append(w2, sk.reverse()).contains(e));
                assert(w2.has_chunk(e) && sk.reverse().contains(e));
                crate::assoc::lemma_reverse_contains(sk, e);
                assert(sk.contains(e));
                assert(w3.state_of(e) is Done);
                assert(w4.has_chunk(e) && w4.state_of(e) is Done && w4.pos_of(e) == p);
                if despawn_listed(despawns@, e) {
                    let j = choose|j: int|
                        0 <= j < despawns@.len() && #[trigger] despawns@[j].1 == e;
                    let pe = despawns@[j];
                    assert(despawns@.contains(pe));
                    assert(w0.chunk_map().contains_key(pe.0) && w0.chunk_map()[pe.0] == e
                        && dist2(pe.0, viewer) > vdi * vdi);
                    assert(w0.has_chunk(e) && w0.pos_of(e) == pe.0);
                    assert(w1.pos_of(e) == w0.pos_of(e));
                    assert(w2.pos_of(e) == w1.pos_of(e));
                    assert(w3.pos_of(e) == w2.pos_of(e));
                    assert(dist2(p, viewer) > vdi * vdi);
                } else {
                    assert(w5.has_chunk(e) && w5.state_of(e) is Done && w5.pos_of(e) == p);
                    assert(!(w5.state_of(e) is Unload));
                    assert(self.has_chunk(e));
                    assert(self.state_of(e) == w5.state_of(e));
                    assert(self.pos_of(e) == w5.pos_of(e));
                }
            }
        }
        events
    }
}

/// Stable insertion sort of chunk coordinates by squared distance from
/// `viewer`, ascending.
fn sort_by_dist(v: Vec<ChunkPos>, viewer: ChunkPos) -> (r: Vec<ChunkPos>)
    ensures
        r@.to_multiset() == v@.to_multiset(),
        r@.len() == v@.len(),
        forall|i: int, j: int| 0 <= i < j < r@.len() ==> dist2(r@[i], viewer) <= dist2(r@[j], viewer),
        forall|p: ChunkPos| #[trigger] r@.contains(p) <==> v@.contains(p),
        r@.no_duplicates() <== v@.no_duplicates(),
{
    proof {
        broadcast use vstd::seq_lib::group_to_multiset_ensures;
        broadcast use vstd::seq_lib::to_multiset_insert;

    }
    let n = v.len();
    let mut out: Vec<ChunkPos> = Vec::new();
    let mut i: usize = 0;
    while i < n
        invariant
            n == v@.len(),
            i <= n,
            out@.to_multiset() == v@.take(i as int).to_multiset(),
            forall|a: int, b: int|
                0 <= a < b < out@.len() ==> dist2(out@[a], viewer) <= dist2(out@[b], viewer),
        decreases n - i,
    {
        proof {
            broadcast use vstd::seq_lib::group_to_multiset_ensures;
            broadcast use vstd::seq_lib::to_multiset_insert;

        }
        let x = v[i];
        let m = out.len();
        let mut k: usize = 0;
        let key_x: i128 = dist2_exec(x, viewer);
        while k < m
            invariant
                m == out@.len(),
                k <= m,
                key_x == dist2(x, viewer),
                forall|a: int| 0 <= a < k ==> dist2(out@[a], viewer) <= dist2(x, viewer),
                forall|a: int, b: int|
                    0 <= a < b < out@.len() ==> dist2(out@[a], viewer) <= dist2(out@[b], viewer),
            ensures
                k <= m,
                forall|a: int| 0 <= a < k ==> dist2(out@[a], viewer) <= dist2(x, viewer),
                forall|b: int| k <= b < out@.len() ==> dist2(x, viewer) <= dist2(out@[b], viewer),
            decreases m - k,
        {
            let key_c: i128 = dist2_exec(out[k], viewer);
            if key_c > key_x {
                break ;
            }
            k = k + 1;
        }
        let ghost before_insert = out@;
        out.insert(k, x);
        proof {
            before_insert.insert_ensures(k as int, x);
            assert(v@.take(i as int + 1) =~= v@.take(i as int).push(x));
            assert(out@.to_multiset() == v@.take(i as int + 1).to_multiset());
        }
        i = i + 1;
    }
    proof {
        broadcast use vstd::seq_lib::group_to_multiset_ensures;

        assert(v@.take(n as int) =~= v@);
        assert(out@.len() == out@.to_multiset().len());
        assert(v@.len() == v@.to_multiset().len());
        assert forall|p: ChunkPos| #[trigger] out@.contains(p) <==> v@.contains(p) by {
            assert(out@.contains(p) <==> out@.to_multiset().count(p) > 0);
            assert(v@.contains(p) <==> v@.to_multiset().count(p) > 0);
        }
        if v@.no_duplicates() {
            v@.lemma_multiset_has_no_duplicates();
            out@.lemma_multiset_has_no_duplicates_conv();
        }
    }
    out
}

} // verus!
