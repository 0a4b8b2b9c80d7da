//! Client reconciliation engine.
//!
//! Applies every inbound authoritative message to the client's local state
//! while never overwriting the locally-controlled player's own transform.
//! Lifecycle messages maintain the lobby and the entity mapping table;
//! snapshots are translated through the table and applied only where the
//! incoming translation differs from the current one.
use vstd::prelude::*;
use crate::assoc::{assoc_contains, assoc_map, assoc_wf, lemma_assoc_at, lemma_assoc_empty,
    lemma_assoc_push, lemma_assoc_remove, lemma_assoc_update};
use crate::codec::{decode, spec_decode, Message, MessageView};
use crate::entity_map::NetworkMapping;
use crate::types::{EntityId, QuatBits, Transform, Vec3Bits};

verus! {

/// The pinned bidirectional binding of one connected player: created on
/// `PlayerCreate`, destroyed on `PlayerRemove`.
#[derive(Clone, Copy, PartialEq, Eq, Structural, Debug)]
pub struct PlayerInfo {
    pub server_entity: EntityId,
    pub client_entity: EntityId,
}

/// Mathematical model of the client's replicated state.
#[verifier::ext_equal]
pub struct ClientView {
    pub client_id: u64,
    pub next_local: u32,
    pub lobby: Map<u64, PlayerInfo>,
    pub mapping: Map<EntityId, EntityId>,
    pub locals: Map<EntityId, Transform>,
    pub controlled: Option<EntityId>,
    pub display: Seq<u8>,
    pub pending: Seq<u8>,
}

/// A lifecycle message is taken only when its identifiers are genuinely new
/// and a local entity can still be allocated; anything else degrades to
/// "ignored", never to a failure.
pub open spec fn create_applies(v: ClientView, id: u64, server_entity: EntityId) -> bool {
    &&& !v.lobby.contains_key(id)
    &&& !v.mapping.contains_key(server_entity)
    &&& v.next_local < u32::MAX
}

/// The local entity a create would spawn.
pub open spec fn spec_fresh_local(v: ClientView) -> EntityId {
    EntityId { index: v.next_local, generation: 0 }
}

/// Effect of a `PlayerCreate` on the client: spawn a local entity at the
/// given translation, bind the player and the mapping to it, and take
/// control of it when the created player is this client.
pub open spec fn spec_apply_player_create(
    v: ClientView,
    id: u64,
    server_entity: EntityId,
    translation: Vec3Bits,
) -> ClientView {
    if create_applies(v, id, server_entity) {
        let c = spec_fresh_local(v);
        ClientView {
            client_id: v.client_id,
            next_local: (v.next_local + 1) as u32,
            lobby: v.lobby.insert(id, PlayerInfo { server_entity, client_entity: c }),
            mapping: v.mapping.insert(server_entity, c),
            locals: v.locals.insert(c, Transform { translation, rotation: crate::types::spec_identity_rotation() }),
            controlled: if id == v.client_id {
                Some(c)
            } else {
                v.controlled
            },
            display: v.display,
            pending: v.pending,
        }
    } else {
        v
    }
}

/// Effect of a `PlayerRemove` on the client: despawn the bound local
/// entity and drop both bindings; unknown players are ignored.
pub open spec fn spec_apply_player_remove(v: ClientView, id: u64) -> ClientView {
    if v.lobby.contains_key(id) {
        let info = v.lobby[id];
        ClientView {
            client_id: v.client_id,
            next_local: v.next_local,
            lobby: v.lobby.remove(id),
            mapping: v.mapping.remove(info.server_entity),
            locals: v.locals.remove(info.client_entity),
            controlled: if v.controlled == Some(info.client_entity) {
                None
            } else {
                v.controlled
            },
            display: v.display,
            pending: v.pending,
        }
    } else {
        v
    }
}

/// Effect of one decoded lifecycle-channel message; every other message
/// kind is ignored on this channel.
pub open spec fn lifecycle_step(v: ClientView, m: MessageView) -> ClientView {
    match m {
        MessageView::PlayerCreate { id, entity, translation } => spec_apply_player_create(
            v,
            id,
            entity,
            translation,
        ),
        MessageView::PlayerRemove { id } => spec_apply_player_remove(v, id),
        _ => v,
    }
}

/// Effect of draining the lifecycle channel from buffer `i` on: each
/// buffer that decodes is applied, each that does not is dropped, and the
/// drain continues either way.
pub open spec fn spec_process_lifecycle(v: ClientView, bufs: Seq<Vec<u8>>, i: int) -> ClientView
    decreases bufs.len() - i,
{
    if i < 0 || i >= bufs.len() {
        v
    } else {
        spec_process_lifecycle(
            match spec_decode(bufs[i]@) {
                Some(m) => lifecycle_step(v, m),
                None => v,
            },
            bufs,
            i + 1,
        )
    }
}

/// A snapshot record for `server` is applied when the identifier is
/// mapped, the mapped local entity is not the controlled one, and it still
/// exists locally.
pub open spec fn record_applies(
    locals: Map<EntityId, Transform>,
    mapping: Map<EntityId, EntityId>,
    controlled: Option<EntityId>,
    server: EntityId,
) -> bool {
    &&& mapping.contains_key(server)
    &&& controlled != Some(mapping[server])
    &&& locals.contains_key(mapping[server])
}

/// One applied record writes only when the incoming translation differs
/// from the current one; an equal translation leaves the entry untouched,
/// whatever its rotation.
pub open spec fn snapshot_step(
    locals: Map<EntityId, Transform>,
    mapping: Map<EntityId, EntityId>,
    controlled: Option<EntityId>,
    server: EntityId,
    t: Vec3Bits,
    r: QuatBits,
) -> Map<EntityId, Transform> {
    if record_applies(locals, mapping, controlled, server) && locals[mapping[server]].translation
        != t {
        locals.insert(mapping[server], Transform { translation: t, rotation: r })
    } else {
        locals
    }
}

/// The local transforms after applying snapshot records from `i` on, in
/// order.
pub open spec fn spec_apply_snapshot(
    locals: Map<EntityId, Transform>,
    mapping: Map<EntityId, EntityId>,
    controlled: Option<EntityId>,
    es: Seq<EntityId>,
    ts: Seq<Vec3Bits>,
    rs: Seq<QuatBits>,
    i: int,
) -> Map<EntityId, Transform>
    decreases es.len() - i,
{
    if i < 0 || i >= es.len() {
        locals
    } else {
        spec_apply_snapshot(
            snapshot_step(locals, mapping, controlled, es[i], ts[i], rs[i]),
            mapping,
            controlled,
            es,
            ts,
            rs,
            i + 1,
        )
    }
}

/// The local entities actually written while applying records from `i`
/// on: the applied records whose incoming translation differs from the
/// current one.
pub open spec fn spec_snapshot_dirty(
    locals: Map<EntityId, Transform>,
    mapping: Map<EntityId, EntityId>,
    controlled: Option<EntityId>,
    es: Seq<EntityId>,
    ts: Seq<Vec3Bits>,
    rs: Seq<QuatBits>,
    i: int,
) -> Seq<EntityId>
    decreases es.len() - i,
{
    if i < 0 || i >= es.len() {
        Seq::empty()
    } else {
        let hit = record_applies(locals, mapping, controlled, es[i]) && locals[mapping[es[i]]].translation
            != ts[i];
        (if hit {
            seq![mapping[es[i]]]
        } else {
            Seq::empty()
        }) + spec_snapshot_dirty(
            snapshot_step(locals, mapping, controlled, es[i], ts[i], rs[i]),
            mapping,
            controlled,
            es,
            ts,
            rs,
            i + 1,
        )
    }
}

/// Applying a snapshot never creates or destroys a local entity.
pub proof fn lemma_snapshot_dom(
    locals: Map<EntityId, Transform>,
    mapping: Map<EntityId, EntityId>,
    controlled: Option<EntityId>,
    es: Seq<EntityId>,
    ts: Seq<Vec3Bits>,
    rs: Seq<QuatBits>,
    i: int,
)
    ensures
        forall|c: EntityId| #[trigger]
            spec_apply_snapshot(locals, mapping, controlled, es, ts, rs, i).contains_key(c)
                == locals.contains_key(c),
    decreases es.len() - i,
{
    if 0 <= i < es.len() {
        let l2 = snapshot_step(locals, mapping, controlled, es[i], ts[i], rs[i]);
        lemma_snapshot_dom(l2, mapping, controlled, es, ts, rs, i + 1);
        assert(spec_apply_snapshot(locals, mapping, controlled, es, ts, rs, i)
            == spec_apply_snapshot(l2, mapping, controlled, es, ts, rs, i + 1));
        assert forall|c: EntityId| #[trigger]
            spec_apply_snapshot(locals, mapping, controlled, es, ts, rs, i).contains_key(c)
                == locals.contains_key(c) by {
            assert(spec_apply_snapshot(l2, mapping, controlled, es, ts, rs, i + 1).contains_key(c)
                == l2.contains_key(c));
        }
    }
}

/// Self-authority: applying a snapshot never touches the transform of the
/// controlled entity.
pub proof fn lemma_snapshot_controlled(
    locals: Map<EntityId, Transform>,
    mapping: Map<EntityId, EntityId>,
    controlled: Option<EntityId>,
    es: Seq<EntityId>,
    ts: Seq<Vec3Bits>,
    rs: Seq<QuatBits>,
    i: int,
)
    requires
        controlled is Some,
    ensures
        spec_apply_snapshot(locals, mapping, controlled, es, ts, rs, i).contains_key(
            controlled->Some_0,
        ) == locals.contains_key(controlled->Some_0),
        locals.contains_key(controlled->Some_0) ==> spec_apply_snapshot(
            locals,
            mapping,
            controlled,
            es,
            ts,
            rs,
            i,
        )[controlled->Some_0] == locals[controlled->Some_0],
    decreases es.len() - i,
{
    if 0 <= i < es.len() {
        let l2 = snapshot_step(locals, mapping, controlled, es[i], ts[i], rs[i]);
        lemma_snapshot_controlled(l2, mapping, controlled, es, ts, rs, i + 1);
        assert(spec_apply_snapshot(locals, mapping, controlled, es, ts, rs, i)
            == spec_apply_snapshot(l2, mapping, controlled, es, ts, rs, i + 1));
        assert(l2.contains_key(controlled->Some_0) == locals.contains_key(controlled->Some_0));
    }
}

/// No two distinct mapped server identifiers share a local entity.
pub open spec fn mapping_injective(mapping: Map<EntityId, EntityId>) -> bool {
    forall|a: EntityId, b: EntityId|
        mapping.contains_key(a) && mapping.contains_key(b) && #[trigger] mapping[a]
            == #[trigger] mapping[b] ==> a == b
}

/// In a sound view the mapping is injective: each local entity is reached
/// from one server identifier only.
pub proof fn lemma_wf_view_injective(v: ClientView)
    requires
        wf_view(v),
    ensures
        mapping_injective(v.mapping),
{
    assert forall|a: EntityId, b: EntityId|
        v.mapping.contains_key(a) && v.mapping.contains_key(b) && #[trigger] v.mapping[a]
            == #[trigger] v.mapping[b] implies a == b by {
        let ida = choose|ida: u64|
            #[trigger] v.lobby.contains_key(ida) && v.lobby[ida].server_entity == a;
        let idb = choose|idb: u64|
            #[trigger] v.lobby.contains_key(idb) && v.lobby[idb].server_entity == b;
        if ida != idb {
            assert(v.lobby[ida].client_entity != v.lobby[idb].client_entity);
        }
    }
}

/// A local entity no remaining record targets keeps its transform.
proof fn lemma_apply_preserves_other(
    locals: Map<EntityId, Transform>,
    mapping: Map<EntityId, EntityId>,
    controlled: Option<EntityId>,
    es: Seq<EntityId>,
    ts: Seq<Vec3Bits>,
    rs: Seq<QuatBits>,
    i: int,
    c: EntityId,
)
    requires
        forall|k: int|
            i <= k < es.len() ==> !(record_applies(locals, mapping, controlled, #[trigger] es[k])
                && mapping[es[k]] == c),
    ensures
        spec_apply_snapshot(locals, mapping, controlled, es, ts, rs, i).contains_key(c)
            == locals.contains_key(c),
        locals.contains_key(c) ==> spec_apply_snapshot(locals, mapping, controlled, es, ts, rs, i)[c]
            == locals[c],
    decreases es.len() - i,
{
    if 0 <= i < es.len() {
        let l2 = snapshot_step(locals, mapping, controlled, es[i], ts[i], rs[i]);
        assert forall|k2: int|
            i + 1 <= k2 < es.len() implies !(record_applies(
            l2,
            mapping,
            controlled,
            #[trigger] es[k2],
        ) && mapping[es[k2]] == c) by {
            assert(!(record_applies(locals, mapping, controlled, es[k2]) && mapping[es[k2]] == c));
        }
        lemma_apply_preserves_other(l2, mapping, controlled, es, ts, rs, i + 1, c);
        assert(l2.contains_key(c) == locals.contains_key(c));
        if locals.contains_key(c) {
            assert(l2[c] == locals[c]);
        }
    }
}

/// After a full application pass, every applied record's target holds the
/// transform the snapshot carries — provided the snapshot has no duplicate
/// identifiers and the mapping is injective.
proof fn lemma_apply_agrees(
    locals: Map<EntityId, Transform>,
    mapping: Map<EntityId, EntityId>,
    controlled: Option<EntityId>,
    es: Seq<EntityId>,
    ts: Seq<Vec3Bits>,
    rs: Seq<QuatBits>,
    i: int,
    j: int,
)
    requires
        es.no_duplicates(),
        mapping_injective(mapping),
        0 <= i <= j < es.len(),
        record_applies(locals, mapping, controlled, es[j]),
    ensures
        spec_apply_snapshot(locals, mapping, controlled, es, ts, rs, i).contains_key(
            mapping[es[j]],
        ),
        spec_apply_snapshot(locals, mapping, controlled, es, ts, rs, i)[mapping[es[j]]].translation
            == ts[j],
    decreases j - i,
{
    let target = mapping[es[j]];
    let l2 = snapshot_step(locals, mapping, controlled, es[i], ts[i], rs[i]);
    if i == j {
        assert(l2.contains_key(target) && l2[target].translation == ts[j]);
        assert forall|k: int|
            i + 1 <= k < es.len() implies !(record_applies(
            l2,
            mapping,
            controlled,
            #[trigger] es[k],
        ) && mapping[es[k]] == target) by {
            if record_applies(l2, mapping, controlled, es[k]) && mapping[es[k]] == target {
                assert(es[k] == es[j]);
            }
        }
        lemma_apply_preserves_other(l2, mapping, controlled, es, ts, rs, i + 1, target);
    } else {
        assert(record_applies(l2, mapping, controlled, es[j]));
        lemma_apply_agrees(l2, mapping, controlled, es, ts, rs, i + 1, j);
    }
}

/// A snapshot every one of whose applied records already matches the state
/// changes nothing and writes nothing.
proof fn lemma_apply_stable(
    locals: Map<EntityId, Transform>,
    mapping: Map<EntityId, EntityId>,
    controlled: Option<EntityId>,
    es: Seq<EntityId>,
    ts: Seq<Vec3Bits>,
    rs: Seq<QuatBits>,
    i: int,
)
    requires
        forall|j: int|
            i <= j < es.len() && record_applies(locals, mapping, controlled, #[trigger] es[j])
                ==> locals[mapping[es[j]]].translation == ts[j],
    ensures
        spec_apply_snapshot(locals, mapping, controlled, es, ts, rs, i) == locals,
        spec_snapshot_dirty(locals, mapping, controlled, es, ts, rs, i) == Seq::<EntityId>::empty(),
    decreases es.len() - i,
{
    if 0 <= i < es.len() {
        let l2 = snapshot_step(locals, mapping, controlled, es[i], ts[i], rs[i]);
        assert(l2 == locals);
        lemma_apply_stable(locals, mapping, controlled, es, ts, rs, i + 1);
        assert(spec_snapshot_dirty(locals, mapping, controlled, es, ts, rs, i) =~= Seq::<
            EntityId,
        >::empty());
    }
}

/// Idempotence of snapshot application: re-applying an identical snapshot
/// — one without duplicate identifiers, through an injective mapping —
/// leaves the state unchanged and writes nothing the second time.
pub proof fn lemma_snapshot_idempotent(
    locals: Map<EntityId, Transform>,
    mapping: Map<EntityId, EntityId>,
    controlled: Option<EntityId>,
    es: Seq<EntityId>,
    ts: Seq<Vec3Bits>,
    rs: Seq<QuatBits>,
)
    requires
        es.no_duplicates(),
        mapping_injective(mapping),
    ensures
        spec_apply_snapshot(
            spec_apply_snapshot(locals, mapping, controlled, es, ts, rs, 0),
            mapping,
            controlled,
            es,
            ts,
            rs,
            0,
        ) == spec_apply_snapshot(locals, mapping, controlled, es, ts, rs, 0),
        spec_snapshot_dirty(
            spec_apply_snapshot(locals, mapping, controlled, es, ts, rs, 0),
            mapping,
            controlled,
            es,
            ts,
            rs,
            0,
        ) == Seq::<EntityId>::empty(),
{
    let applied = spec_apply_snapshot(locals, mapping, controlled, es, ts, rs, 0);
    lemma_snapshot_dom(locals, mapping, controlled, es, ts, rs, 0);
    assert forall|j: int|
        0 <= j < es.len() && record_applies(
            applied,
            mapping,
            controlled,
            #[trigger] es[j],
        ) implies applied[mapping[es[j]]].translation == ts[j] by {
        assert(record_applies(locals, mapping, controlled, es[j]));
        lemma_apply_agrees(locals, mapping, controlled, es, ts, rs, 0, j);
    }
    lemma_apply_stable(applied, mapping, controlled, es, ts, rs, 0);
}

/// Replay of a sequence of decoded lifecycle messages from index `i` on.
pub open spec fn spec_replay_lifecycle(v: ClientView, ms: Seq<MessageView>, i: int) -> ClientView
    decreases ms.len() - i,
{
    if i < 0 || i >= ms.len() {
        v
    } else {
        spec_replay_lifecycle(lifecycle_step(v, ms[i]), ms, i + 1)
    }
}

/// The lifecycle messages from `i` on are what a correct server sends
/// from state `v`: only creates and removes, each create for a player and
/// an entity not currently bound (with allocation headroom), each remove
/// for a player currently bound.
pub open spec fn lifecycle_ok(v: ClientView, ms: Seq<MessageView>, i: int) -> bool
    decreases ms.len() - i,
{
    if i < 0 || i >= ms.len() {
        true
    } else {
        match ms[i] {
            MessageView::PlayerCreate { id, entity, translation } => create_applies(v, id, entity)
                && lifecycle_ok(spec_apply_player_create(v, id, entity, translation), ms, i + 1),
            MessageView::PlayerRemove { id } => v.lobby.contains_key(id) && lifecycle_ok(
                spec_apply_player_remove(v, id),
                ms,
                i + 1,
            ),
            _ => false,
        }
    }
}

/// Whether some message in `[i, len)` removes player `id`.
pub open spec fn has_remove(ms: Seq<MessageView>, i: int, id: u64) -> bool {
    exists|j: int| i <= j < ms.len() && ms[j] == (MessageView::PlayerRemove { id })
}

/// Whether some message in `[i, len)` creates player `id` or reuses
/// server entity `e`.
pub open spec fn has_create_for(ms: Seq<MessageView>, i: int, id: u64, e: EntityId) -> bool {
    exists|j: int|
        i <= j < ms.len() && (#[trigger] ms[j] matches MessageView::PlayerCreate {
            id: id2,
            entity: e2,
            ..
        } && (id2 == id || e2 == e))
}

/// While player `id` stays bound to `entity` and no later message creates
/// `id` or reuses `entity`, the mapping keeps `entity` exactly until a
/// remove for `id`, and afterwards never regains it.
proof fn lemma_mapping_consistency_aux(
    v: ClientView,
    ms: Seq<MessageView>,
    k: int,
    id: u64,
    entity: EntityId,
)
    requires
        wf_view(v),
        lifecycle_ok(v, ms, k),
        0 <= k <= ms.len(),
        !has_create_for(ms, k, id, entity),
        v.lobby.contains_key(id) ==> v.lobby[id].server_entity == entity,
        v.mapping.contains_key(entity) ==> v.lobby.contains_key(id) && v.lobby[id].server_entity
            == entity,
    ensures
        spec_replay_lifecycle(v, ms, k).mapping.contains_key(entity) <==> (
        v.mapping.contains_key(entity) && !has_remove(ms, k, id)),
    decreases ms.len() - k,
{
    if k < ms.len() {
        let v2 = lifecycle_step(v, ms[k]);
        match ms[k] {
            MessageView::PlayerCreate { id: id2, entity: e2, translation } => {
                assert(id2 != id && e2 != entity) by {
                    assert(ms[k] matches MessageView::PlayerCreate { id: id3, entity: e3, .. }
                        && (id3 == id2 && e3 == e2));
                }
                lemma_create_preserves_wf(v, id2, e2, translation);
                assert(!has_create_for(ms, k + 1, id, entity)) by {
                    if has_create_for(ms, k + 1, id, entity) {
                        let j = choose|j: int|
                            k + 1 <= j < ms.len() && (#[trigger] ms[j]
                                matches MessageView::PlayerCreate { id: id3, entity: e3, .. } && (
                            id3 == id || e3 == entity));
                        assert(has_create_for(ms, k, id, entity));
                    }
                }
                assert(v2.mapping.contains_key(entity) ==> v2.lobby.contains_key(id)
                    && v2.lobby[id].server_entity == entity) by {
                    if v2.mapping.contains_key(entity) {
                        assert(v.mapping.contains_key(entity));
                    }
                }
                lemma_mapping_consistency_aux(v2, ms, k + 1, id, entity);
                assert(has_remove(ms, k, id) == has_remove(ms, k + 1, id)) by {
                    if has_remove(ms, k, id) {
                        let j = choose|j: int|
                            k <= j < ms.len() && ms[j] == (MessageView::PlayerRemove { id });
                        assert(j != k);
                    }
                }
            },
            MessageView::PlayerRemove { id: id2 } => {
                lemma_remove_preserves_wf(v, id2);
                assert(!has_create_for(ms, k + 1, id, entity)) by {
                    if has_create_for(ms, k + 1, id, entity) {
                        let j = choose|j: int|
                            k + 1 <= j < ms.len() && (#[trigger] ms[j]
                                matches MessageView::PlayerCreate { id: id3, entity: e3, .. } && (
                            id3 == id || e3 == entity));
                        assert(has_create_for(ms, k, id, entity));
                    }
                }
                if id2 == id {
                    assert(v.lobby.contains_key(id));
                    assert(v.lobby[id].server_entity == entity);
                    assert(!v2.mapping.contains_key(entity));
                    assert(!v2.lobby.contains_key(id));
                    lemma_mapping_consistency_aux(v2, ms, k + 1, id, entity);
                    assert(has_remove(ms, k, id)) by {
                        assert(ms[k as int] == (MessageView::PlayerRemove { id }));
                    }
                    assert(!spec_replay_lifecycle(v, ms, k).mapping.contains_key(entity));
                } else {
                    let info2 = v.lobby[id2];
                    assert(info2.server_entity != entity) by {
                        if info2.server_entity == entity {
                            assert(v.mapping.contains_key(entity));
                            assert(v.lobby.contains_key(id) && v.lobby[id].server_entity
                                == entity);
                            assert(v.lobby[id2].server_entity != v.lobby[id].server_entity);
                        }
                    }
                    assert(v2.mapping.contains_key(entity) == v.mapping.contains_key(entity));
                    assert(v2.lobby.contains_key(id) == v.lobby.contains_key(id));
                    lemma_mapping_consistency_aux(v2, ms, k + 1, id, entity);
                    assert(has_remove(ms, k, id) == has_remove(ms, k + 1, id)) by {
                        if has_remove(ms, k, id) {
                            let j = choose|j: int|
                                k <= j < ms.len() && ms[j] == (MessageView::PlayerRemove { id });
                            assert(j != k);
                        }
                    }
                }
            },
            _ => {},
        }
    } else {
        assert(!has_remove(ms, k, id));
    }
}

/// Mapping consistency: after the create that binds player `id` to server
/// entity `e` — with no later message re-creating `id` or reusing `e` —
/// looking `e` up succeeds exactly until the server sends the matching
/// remove, and fails ever after.
pub proof fn lemma_mapping_consistency(
    v: ClientView,
    ms: Seq<MessageView>,
    k: int,
    i: int,
    id: u64,
    entity: EntityId,
    translation: Vec3Bits,
)
    requires
        wf_view(v),
        lifecycle_ok(v, ms, k),
        0 <= k <= i < ms.len(),
        ms[i] == (MessageView::PlayerCreate { id, entity, translation }),
        !has_create_for(ms, i + 1, id, entity),
    ensures
        spec_replay_lifecycle(v, ms, k).mapping.contains_key(entity) <==> !has_remove(
            ms,
            i + 1,
            id,
        ),
    decreases i - k,
{
    let v2 = lifecycle_step(v, ms[k]);
    if k == i {
        assert(create_applies(v, id, entity));
        lemma_create_preserves_wf(v, id, entity, translation);
        assert(v2.mapping.contains_key(entity));
        assert(v2.lobby.contains_key(id) && v2.lobby[id].server_entity == entity);
        lemma_mapping_consistency_aux(v2, ms, k + 1, id, entity);
    } else {
        match ms[k] {
            MessageView::PlayerCreate { id: id2, entity: e2, translation: t2 } => {
                lemma_create_preserves_wf(v, id2, e2, t2);
                lemma_mapping_consistency(v2, ms, k + 1, i, id, entity, translation);
            },
            MessageView::PlayerRemove { id: id2 } => {
                lemma_remove_preserves_wf(v, id2);
                lemma_mapping_consistency(v2, ms, k + 1, i, id, entity, translation);
            },
            _ => {
                assert(false);
            },
        }
    }
}

/// When every buffer of a drain decodes to the corresponding message,
/// draining the buffers is replaying the messages.
pub proof fn lemma_process_is_replay(
    v: ClientView,
    bufs: Seq<Vec<u8>>,
    ms: Seq<MessageView>,
    i: int,
)
    requires
        bufs.len() == ms.len(),
        forall|j: int| 0 <= j < bufs.len() ==> spec_decode(#[trigger] bufs[j]@) == Some(ms[j]),
    ensures
        spec_process_lifecycle(v, bufs, i) == spec_replay_lifecycle(v, ms, i),
    decreases bufs.len() - i,
{
    if 0 <= i < bufs.len() {
        lemma_process_is_replay(v, bufs, ms, i + 1);
        lemma_process_is_replay(lifecycle_step(v, ms[i]), bufs, ms, i + 1);
    }
}

/// A buffer that does not decode costs only itself: draining continues
/// with the next buffer from an unchanged state.
pub proof fn lemma_corrupt_buffer_skipped(v: ClientView, bufs: Seq<Vec<u8>>, i: int)
    requires
        0 <= i < bufs.len(),
        spec_decode(bufs[i]@) is None,
    ensures
        spec_process_lifecycle(v, bufs, i) == spec_process_lifecycle(v, bufs, i + 1),
{
}

/// Replacing the local transforms with ones over the same entities keeps a
/// view sound.
pub proof fn restore_wf_view_locals(before: ClientView, after: ClientView)
    requires
        wf_view(before),
        after.client_id == before.client_id,
        after.next_local == before.next_local,
        after.lobby == before.lobby,
        after.mapping == before.mapping,
        after.controlled == before.controlled,
        forall|c: EntityId| #[trigger]
            after.locals.contains_key(c) == before.locals.contains_key(c),
    ensures
        wf_view(after),
{
    assert forall|id: u64| #[trigger]
        after.lobby.contains_key(id) implies after.mapping.contains_key(
        after.lobby[id].server_entity,
    ) && after.mapping[after.lobby[id].server_entity] == after.lobby[id].client_entity
        && after.locals.contains_key(after.lobby[id].client_entity) by {
        assert(before.lobby.contains_key(id));
    }
    assert forall|c: EntityId| #[trigger]
        after.locals.contains_key(c) implies c.generation == 0 && c.index < after.next_local by {
        assert(before.locals.contains_key(c));
    }
}

/// The text of the last chat message among the first `i` buffers that
/// decodes, if any: incoming chat replaces a one-slot display, keeping no
/// history.
pub open spec fn spec_last_chat(bufs: Seq<Vec<u8>>, i: int) -> Option<Seq<u8>>
    decreases i,
{
    if i <= 0 {
        None
    } else {
        match spec_decode(bufs[i - 1]@) {
            Some(MessageView::ChatMessage { client_id, text }) => Some(text),
            _ => spec_last_chat(bufs, i - 1),
        }
    }
}

/// The local transforms after draining a snapshot channel from buffer `i`
/// on: each buffer that decodes to a snapshot is applied, everything else
/// is dropped.
pub open spec fn spec_process_snapshots(
    locals: Map<EntityId, Transform>,
    mapping: Map<EntityId, EntityId>,
    controlled: Option<EntityId>,
    bufs: Seq<Vec<u8>>,
    i: int,
) -> Map<EntityId, Transform>
    decreases bufs.len() - i,
{
    if i < 0 || i >= bufs.len() {
        locals
    } else {
        let l2 = match spec_decode(bufs[i]@) {
            Some(
                MessageView::NetworkedEntities { entities, translations, rotations },
            ) => spec_apply_snapshot(locals, mapping, controlled, entities, translations, rotations, 0),
            Some(
                MessageView::NonNetworkedEntities { entities, translations, rotations },
            ) => spec_apply_snapshot(locals, mapping, controlled, entities, translations, rotations, 0),
            _ => locals,
        };
        spec_process_snapshots(l2, mapping, controlled, bufs, i + 1)
    }
}

/// Soundness of a client view: the lobby, the mapping and the local
/// entity store agree — the mapping's keys are exactly the lobby's server
/// entities, each binding points at a live local entity, no two players
/// share either side of a binding, and local handles sit below the
/// allocation cursor.
pub open spec fn wf_view(v: ClientView) -> bool {
    &&& forall|e: EntityId| #[trigger]
        v.mapping.contains_key(e) <==> (exists|id: u64|
            #[trigger] v.lobby.contains_key(id) && v.lobby[id].server_entity == e)
    &&& forall|id: u64| #[trigger]
        v.lobby.contains_key(id) ==> v.mapping.contains_key(v.lobby[id].server_entity)
            && v.mapping[v.lobby[id].server_entity] == v.lobby[id].client_entity
            && v.locals.contains_key(v.lobby[id].client_entity)
    &&& forall|id1: u64, id2: u64|
        v.lobby.contains_key(id1) && v.lobby.contains_key(id2) && id1 != id2 ==> #[trigger] (
        v.lobby[id1].server_entity) != #[trigger] (v.lobby[id2].server_entity)
            && v.lobby[id1].client_entity != v.lobby[id2].client_entity
    &&& forall|c: EntityId| #[trigger]
        v.locals.contains_key(c) ==> c.generation == 0 && c.index < v.next_local
    &&& match v.controlled {
        Some(c) => v.locals.contains_key(c),
        None => true,
    }
}

/// A create preserves view soundness.
pub proof fn lemma_create_preserves_wf(v: ClientView, id: u64, server_entity: EntityId, t: Vec3Bits)
    requires
        wf_view(v),
    ensures
        wf_view(spec_apply_player_create(v, id, server_entity, t)),
{
    if create_applies(v, id, server_entity) {
        let c = spec_fresh_local(v);
        let v2 = spec_apply_player_create(v, id, server_entity, t);
        assert(!v.locals.contains_key(c));
        assert forall|e: EntityId| #[trigger]
            v2.mapping.contains_key(e) <==> (exists|id2: u64|
                #[trigger] v2.lobby.contains_key(id2) && v2.lobby[id2].server_entity == e) by {
            if v2.mapping.contains_key(e) {
                if e == server_entity {
                    assert(v2.lobby.contains_key(id) && v2.lobby[id].server_entity == e);
                } else {
                    let id2 = choose|id2: u64|
                        #[trigger] v.lobby.contains_key(id2) && v.lobby[id2].server_entity == e;
                    assert(v2.lobby.contains_key(id2) && v2.lobby[id2].server_entity == e);
                }
            } else {
                if exists|id2: u64|
                    #[trigger] v2.lobby.contains_key(id2) && v2.lobby[id2].server_entity == e {
                    let id2 = choose|id2: u64|
                        #[trigger] v2.lobby.contains_key(id2) && v2.lobby[id2].server_entity == e;
                    assert(id2 != id);
                    assert(v.lobby.contains_key(id2));
                }
            }
        }
    }
}

/// A remove preserves view soundness.
pub proof fn lemma_remove_preserves_wf(v: ClientView, id: u64)
    requires
        wf_view(v),
    ensures
        wf_view(spec_apply_player_remove(v, id)),
{
    if v.lobby.contains_key(id) {
        let info = v.lobby[id];
        let v2 = spec_apply_player_remove(v, id);
        assert forall|e: EntityId| #[trigger]
            v2.mapping.contains_key(e) <==> (exists|id2: u64|
                #[trigger] v2.lobby.contains_key(id2) && v2.lobby[id2].server_entity == e) by {
            if v2.mapping.contains_key(e) {
                let id2 = choose|id2: u64|
                    #[trigger] v.lobby.contains_key(id2) && v.lobby[id2].server_entity == e;
                assert(id2 != id);
                assert(v2.lobby.contains_key(id2) && v2.lobby[id2].server_entity == e);
            } else {
                if exists|id2: u64|
                    #[trigger] v2.lobby.contains_key(id2) && v2.lobby[id2].server_entity == e {
                    let id2 = choose|id2: u64|
                        #[trigger] v2.lobby.contains_key(id2) && v2.lobby[id2].server_entity == e;
                    assert(v.lobby.contains_key(id2));
                    assert(id2 != id);
                    assert(e != info.server_entity);
                }
            }
        }
        assert forall|id2: u64| #[trigger]
            v2.lobby.contains_key(id2) implies v2.mapping.contains_key(
            v2.lobby[id2].server_entity,
        ) && v2.mapping[v2.lobby[id2].server_entity] == v2.lobby[id2].client_entity
            && v2.locals.contains_key(v2.lobby[id2].client_entity) by {
            assert(v.lobby.contains_key(id2) && id2 != id);
            assert(v.lobby[id2].server_entity != info.server_entity);
            assert(v.lobby[id2].client_entity != info.client_entity);
        }
    }
}

/// The client's replicated state: who is connected, how authoritative
/// entities translate to local ones, the local entity transforms, which
/// local entity this client controls, and the two one-slot chat buffers.
pub struct ClientState {
    client_id: u64,
    lobby: Vec<(u64, PlayerInfo)>,
    mapping: NetworkMapping,
    entities: Vec<(EntityId, Transform)>,
    next_local: u32,
    controlled: Option<EntityId>,
    display_message: Vec<u8>,
    pending_chat: Vec<u8>,
}

impl View for ClientState {
    type V = ClientView;

    closed spec fn view(&self) -> ClientView {
        ClientView {
            client_id: self.client_id,
            next_local: self.next_local,
            lobby: assoc_map(self.lobby@),
            mapping: self.mapping@,
            locals: assoc_map(self.entities@),
            controlled: self.controlled,
            display: self.display_message@,
            pending: self.pending_chat@,
        }
    }
}

impl ClientState {
    /// Representation soundness: distinct keys in every table, and the
    /// view-level agreement of [`wf_view`].
    pub closed spec fn wf(self) -> bool {
        &&& assoc_wf(self.lobby@)
        &&& self.mapping.wf()
        &&& assoc_wf(self.entities@)
        &&& wf_view(self@)
    }

    /// A fresh client with no known players.
    pub fn new(client_id: u64) -> (r: ClientState)
        ensures
            r.wf(),
            r@ == (ClientView {
                client_id,
                next_local: 0,
                lobby: Map::<u64, PlayerInfo>::empty(),
                mapping: Map::<EntityId, EntityId>::empty(),
                locals: Map::<EntityId, Transform>::empty(),
                controlled: None::<EntityId>,
                display: Seq::<u8>::empty(),
                pending: Seq::<u8>::empty(),
            }),
    {
        let r = ClientState {
            client_id,
            lobby: Vec::new(),
            mapping: NetworkMapping::new(),
            entities: Vec::new(),
            next_local: 0,
            controlled: None,
            display_message: Vec::new(),
            pending_chat: Vec::new(),
        };
        proof {
            lemma_assoc_empty(r.lobby@);
            lemma_assoc_empty(r.entities@);
            assert(r@ =~= (ClientView {
                client_id,
                next_local: 0,
                lobby: Map::<u64, PlayerInfo>::empty(),
                mapping: Map::<EntityId, EntityId>::empty(),
                locals: Map::<EntityId, Transform>::empty(),
                controlled: None::<EntityId>,
                display: Seq::<u8>::empty(),
                pending: Seq::<u8>::empty(),
            }));
        }
        r
    }

    /// Whether the lobby knows player `id`.
    fn lobby_contains(&self, id: u64) -> (r: bool)
        requires
            self.wf(),
        ensures
            r == self@.lobby.contains_key(id),
    {
        let n = self.lobby.len();
        let mut i: usize = 0;
        while i < n
            invariant
                self.wf(),
                n == self.lobby@.len(),
                i <= n,
                forall|j: int| 0 <= j < i ==> self.lobby@[j].0 != id,
            decreases n - i,
        {
            if self.lobby[i].0 == id {
                proof {
                    lemma_assoc_at(self.lobby@, i as int);
                }
                return true;
            }
            i = i + 1;
        }
        proof {
            assert(!assoc_contains(self.lobby@, id));
        }
        false
    }

    /// Handles one `PlayerCreate`: spawns a local entity for the new
    /// player and binds it, handing back its handle, or ignores a message
    /// whose identifiers are already bound.
    pub fn apply_player_create(
        &mut self,
        id: u64,
        server_entity: EntityId,
        translation: Vec3Bits,
    ) -> (r: Option<EntityId>)
        requires
            old(self).wf(),
        ensures
            final(self).wf(),
            final(self)@ == spec_apply_player_create(old(self)@, id, server_entity, translation),
            r == (if create_applies(old(self)@, id, server_entity) {
                Some(spec_fresh_local(old(self)@))
            } else {
                None::<EntityId>
            }),
    {
        proof {
            lemma_create_preserves_wf(old(self)@, id, server_entity, translation);
        }
        if self.lobby_contains(id) {
            return None;
        }
        let mapped = self.mapping.lookup(server_entity);
        if mapped.is_some() {
            return None;
        }
        if self.next_local == u32::MAX {
            return None;
        }
        let c = EntityId { index: self.next_local, generation: 0 };
        proof {
            assert(!assoc_contains(self.lobby@, id));
            assert(!assoc_contains(self.entities@, c)) by {
                if assoc_contains(self.entities@, c) {
                    let j = crate::assoc::assoc_index_of(self.entities@, c);
                    lemma_assoc_at(self.entities@, j);
                    assert(self@.locals.contains_key(c));
                }
            }
            lemma_assoc_push(self.lobby@, id, PlayerInfo { server_entity, client_entity: c });
            lemma_assoc_push(
                self.entities@,
                c,
                Transform { translation, rotation: crate::types::spec_identity_rotation() },
            );
        }
        self.lobby.push((id, PlayerInfo { server_entity, client_entity: c }));
        self.mapping.insert(server_entity, c);
        self.entities.push((c, Transform { translation, rotation: crate::types::identity_rotation() }));
        self.next_local = self.next_local + 1;
        if id == self.client_id {
            self.controlled = Some(c);
        }
        proof {
            assert(self@ =~= spec_apply_player_create(old(self)@, id, server_entity, translation));
        }
        Some(c)
    }

    /// The index of the local entity `e`, where one exists.
    fn find_local(&self, e: EntityId) -> (r: Option<usize>)
        ensures
            match r {
                Some(i) => i < self.entities@.len() && self.entities@[i as int].0 == e,
                None => !assoc_contains(self.entities@, e),
            },
    {
        let n = self.entities.len();
        let mut i: usize = 0;
        while i < n
            invariant
                n == self.entities@.len(),
                i <= n,
                forall|j: int| 0 <= j < i ==> self.entities@[j].0 != e,
            decreases n - i,
        {
            if self.entities[i].0 == e {
                return Some(i);
            }
            i = i + 1;
        }
        None
    }

    /// Handles one `PlayerRemove`: despawns the bound local entity and
    /// drops the binding; an unknown player is ignored.
    pub fn apply_player_remove(&mut self, id: u64)
        requires
            old(self).wf(),
        ensures
            final(self).wf(),
            final(self)@ == spec_apply_player_remove(old(self)@, id),
    {
        proof {
            lemma_remove_preserves_wf(old(self)@, id);
        }
        let n = self.lobby.len();
        let mut i: usize = 0;
        while i < n
            invariant
                old(self).wf(),
                *self == *old(self),
                n == self.lobby@.len(),
                i <= n,
                forall|j: int| 0 <= j < i ==> self.lobby@[j].0 != id,
            decreases n - i,
        {
            if self.lobby[i].0 == id {
                let info = self.lobby[i].1;
                proof {
                    lemma_remove_preserves_wf(old(self)@, id);
                    lemma_assoc_at(self.lobby@, i as int);
                    lemma_assoc_remove(self.lobby@, i as int);
                }
                self.lobby.remove(i);
                let _ = self.mapping.remove(info.server_entity);
                let found = self.find_local(info.client_entity);
                match found {
                    Some(k) => {
                        proof {
                            lemma_assoc_at(self.entities@, k as int);
                            lemma_assoc_remove(self.entities@, k as int);
                        }
                        self.entities.remove(k);
                    },
                    None => {
                        proof {
                            assert(assoc_map(self.entities@) =~= assoc_map(
                                self.entities@,
                            ).remove(info.client_entity));
                        }
                    },
                }
                let clear = match self.controlled {
                    Some(c) => c == info.client_entity,
                    None => false,
                };
                if clear {
                    self.controlled = None;
                }
                proof {
                    assert(self@ =~= spec_apply_player_remove(old(self)@, id));
                }
                return ;
            }
            i = i + 1;
        }
        proof {
            assert(!assoc_contains(self.lobby@, id));
            assert(self@ =~= spec_apply_player_remove(old(self)@, id));
        }
    }

    /// Applies one entity snapshot — the `NetworkedEntities` and
    /// `NonNetworkedEntities` payloads share this logic.  Each record is
    /// translated through the mapping table; unknown identifiers are
    /// skipped, the controlled entity is never written, and a transform is
    /// written only when its translation differs from the current one.
    /// Returns the local entities actually written.
    pub fn apply_entity_snapshot(
        &mut self,
        entities: &Vec<EntityId>,
        translations: &Vec<Vec3Bits>,
        rotations: &Vec<QuatBits>,
    ) -> (dirty: Vec<EntityId>)
        requires
            old(self).wf(),
            entities@.len() == translations@.len(),
            entities@.len() == rotations@.len(),
        ensures
            final(self).wf(),
            final(self)@ == (ClientView {
                locals: spec_apply_snapshot(
                    old(self)@.locals,
                    old(self)@.mapping,
                    old(self)@.controlled,
                    entities@,
                    translations@,
                    rotations@,
                    0,
                ),
                ..old(self)@
            }),
            dirty@ == spec_snapshot_dirty(
                old(self)@.locals,
                old(self)@.mapping,
                old(self)@.controlled,
                entities@,
                translations@,
                rotations@,
                0,
            ),
            match old(self)@.controlled {
                Some(c) => final(self)@.locals.contains_key(c) == old(self)@.locals.contains_key(c) && (old(self)@.locals.contains_key(c) ==> final(self)@.locals[c] == old(self)@.locals[c]),
                None => true,
            },
    {
        let ghost locals0 = old(self)@.locals;
        let ghost mapping0 = old(self)@.mapping;
        let ghost controlled0 = old(self)@.controlled;
        let ghost es = entities@;
        let ghost ts = translations@;
        let ghost rs = rotations@;
        let mut dirty: Vec<EntityId> = Vec::new();
        let n = entities.len();
        let mut i: usize = 0;
        while i < n
            invariant
                self.wf(),
                n == es.len(),
                n == ts.len(),
                n == rs.len(),
                i <= n,
                es == entities@,
                ts == translations@,
                rs == rotations@,
                self@.client_id == old(self)@.client_id,
                self@.next_local == old(self)@.next_local,
                self@.lobby == old(self)@.lobby,
                self@.mapping == mapping0,
                self@.controlled == controlled0,
                self@.display == old(self)@.display,
                self@.pending == old(self)@.pending,
                forall|c: EntityId| #[trigger]
                    self@.locals.contains_key(c) == locals0.contains_key(c),
                spec_apply_snapshot(self@.locals, mapping0, controlled0, es, ts, rs, i as int)
                    == spec_apply_snapshot(locals0, mapping0, controlled0, es, ts, rs, 0),
                dirty@ + spec_snapshot_dirty(self@.locals, mapping0, controlled0, es, ts, rs, i as int)
                    == spec_snapshot_dirty(locals0, mapping0, controlled0, es, ts, rs, 0),
            decreases n - i,
        {
            let ghost at_head = self@;
            let ghost dirty_head = dirty@;
            let server = entities[i];
            let mapped = self.mapping.lookup(server);
            match mapped {
                Some(ce) => {
                    let skip = match self.controlled {
                        Some(c) => c == ce,
                        None => false,
                    };
                    if !skip {
                        let found = self.find_local(ce);
                        match found {
                            Some(idx) => {
                                proof {
                                    lemma_assoc_at(self.entities@, idx as int);
                                }
                                let cur = self.entities[idx].1;
                                let fresh = Transform {
                                    translation: translations[i],
                                    rotation: rotations[i],
                                };
                                if cur.translation != fresh.translation {
                                    let ghost prev = *self;
                                    proof {
                                        lemma_assoc_update(self.entities@, idx as int, fresh);
                                    }
                                    self.entities[idx] = (ce, fresh);
                                    dirty.push(ce);
                                    proof {
                                        assert(self@.locals == at_head.locals.insert(ce, fresh));
                                        assert(record_applies(
                                            at_head.locals,
                                            mapping0,
                                            controlled0,
                                            server,
                                        ));
                                        assert(wf_view(self@)) by {
                                            restore_wf_view_locals(at_head, self@);
                                        }
                                    }
                                } else {
                                    proof {
                                        assert(at_head.locals[ce].translation
                                            == fresh.translation);
                                    }
                                }
                            },
                            None => {
                                proof {
                                    assert(!at_head.locals.contains_key(ce));
                                }
                            },
                        }
                    }
                },
                None => {},
            }
            proof {
                assert(spec_apply_snapshot(at_head.locals, mapping0, controlled0, es, ts, rs, i as int)
                    == spec_apply_snapshot(self@.locals, mapping0, controlled0, es, ts, rs, i as int + 1));
                assert(dirty@ + spec_snapshot_dirty(
                    self@.locals,
                    mapping0,
                    controlled0,
                    es,
                    ts,
                    rs,
                    i as int + 1,
                ) =~= dirty_head + spec_snapshot_dirty(
                    at_head.locals,
                    mapping0,
                    controlled0,
                    es,
                    ts,
                    rs,
                    i as int,
                ));
            }
            i = i + 1;
        }
        proof {
            assert(spec_snapshot_dirty(self@.locals, mapping0, controlled0, es, ts, rs, n as int)
                =~= Seq::<EntityId>::empty());
            assert(dirty@ + Seq::<EntityId>::empty() =~= dirty@);
            assert(final(self)@ =~= (ClientView {
                locals: spec_apply_snapshot(locals0, mapping0, controlled0, es, ts, rs, 0),
                ..old(self)@
            }));
            lemma_snapshot_dom(locals0, mapping0, controlled0, es, ts, rs, 0);
            match controlled0 {
                Some(c) => {
                    lemma_snapshot_controlled(locals0, mapping0, controlled0, es, ts, rs, 0);
                },
                None => {},
            }
        }
        dirty
    }

    /// Drains the lifecycle channel: decodes each buffer, applies the
    /// creates and removes, drops everything else — a corrupt buffer costs
    /// only itself.
    pub fn process_server_messages(&mut self, msgs: &Vec<Vec<u8>>)
        requires
            old(self).wf(),
        ensures
            final(self).wf(),
            final(self)@ == spec_process_lifecycle(old(self)@, msgs@, 0),
    {
        let n = msgs.len();
        let mut i: usize = 0;
        while i < n
            invariant
                self.wf(),
                n == msgs@.len(),
                i <= n,
                spec_process_lifecycle(self@, msgs@, i as int) == spec_process_lifecycle(
                    old(self)@,
                    msgs@,
                    0,
                ),
            decreases n - i,
        {
            let ghost at_head = self@;
            match decode(&msgs[i]) {
                Ok(Message::PlayerCreate { id, entity, translation }) => {
                    let _ = self.apply_player_create(id, entity, translation);
                },
                Ok(Message::PlayerRemove { id }) => {
                    self.apply_player_remove(id);
                },
                Ok(_) => {},
                Err(_) => {},
            }
            proof {
                assert(spec_process_lifecycle(at_head, msgs@, i as int) == spec_process_lifecycle(
                    self@,
                    msgs@,
                    i as int + 1,
                ));
            }
            i = i + 1;
        }
    }

    /// A well-formed client has a sound view — the bridge that lets a
    /// caller discharge the hypotheses of the view-level lemmas, such as
    /// the injectivity behind snapshot idempotence.
    pub proof fn lemma_wf_view(self)
        requires
            self.wf(),
        ensures
            wf_view(self@),
    {
    }

    /// Translates a server entity identifier to the bound local entity.
    pub fn lookup(&self, server: EntityId) -> (r: Option<EntityId>)
        requires
            self.wf(),
        ensures
            r == (if self@.mapping.contains_key(server) {
                Some(self@.mapping[server])
            } else {
                None::<EntityId>
            }),
    {
        self.mapping.lookup(server)
    }

    /// The current transform of a local entity, where it exists.
    pub fn local_transform(&self, e: EntityId) -> (r: Option<Transform>)
        requires
            self.wf(),
        ensures
            r == (if self@.locals.contains_key(e) {
                Some(self@.locals[e])
            } else {
                None::<Transform>
            }),
    {
        let found = self.find_local(e);
        match found {
            Some(i) => {
                proof {
                    lemma_assoc_at(self.entities@, i as int);
                }
                Some(self.entities[i].1)
            },
            None => {
                proof {
                    if self@.locals.contains_key(e) {
                        assert(assoc_contains(self.entities@, e));
                    }
                }
                None
            },
        }
    }

    /// The local entity this client controls, where one exists.
    pub fn controlled_entity(&self) -> (r: Option<EntityId>)
        ensures
            r == self@.controlled,
    {
        self.controlled
    }

    /// The text in the one-slot chat display.
    pub fn display_text(&self) -> (r: Vec<u8>)
        ensures
            r@ == self@.display,
    {
        vstd::slice::slice_to_vec(self.display_message.as_slice())
    }

    /// Drains one snapshot channel: each buffer that decodes to an entity
    /// snapshot is applied through [`ClientState::apply_entity_snapshot`];
    /// corrupt buffers and other message kinds are dropped and the drain
    /// continues.
    pub fn process_entity_snapshots(&mut self, msgs: &Vec<Vec<u8>>)
        requires
            old(self).wf(),
        ensures
            final(self).wf(),
            final(self)@ == (ClientView {
                locals: spec_process_snapshots(
                    old(self)@.locals,
                    old(self)@.mapping,
                    old(self)@.controlled,
                    msgs@,
                    0,
                ),
                ..old(self)@
            }),
    {
        let ghost mapping0 = old(self)@.mapping;
        let ghost controlled0 = old(self)@.controlled;
        let n = msgs.len();
        let mut i: usize = 0;
        while i < n
            invariant
                self.wf(),
                n == msgs@.len(),
                i <= n,
                self@.client_id == old(self)@.client_id,
                self@.next_local == old(self)@.next_local,
                self@.lobby == old(self)@.lobby,
                self@.mapping == mapping0,
                self@.controlled == controlled0,
                self@.display == old(self)@.display,
                self@.pending == old(self)@.pending,
                spec_process_snapshots(self@.locals, mapping0, controlled0, msgs@, i as int)
                    == spec_process_snapshots(old(self)@.locals, mapping0, controlled0, msgs@, 0),
            decreases n - i,
        {
            let ghost at_head = self@;
            match decode(&msgs[i]) {
                Ok(Message::NetworkedEntities { entities, translations, rotations }) => {
                    let _ = self.apply_entity_snapshot(&entities, &translations, &rotations);
                },
                Ok(Message::NonNetworkedEntities { entities, translations, rotations }) => {
                    let _ = self.apply_entity_snapshot(&entities, &translations, &rotations);
                },
                Ok(_) => {},
                Err(_) => {},
            }
            proof {
                assert(spec_process_snapshots(at_head.locals, mapping0, controlled0, msgs@, i as int)
                    == spec_process_snapshots(self@.locals, mapping0, controlled0, msgs@, i as int + 1));
            }
            i = i + 1;
        }
        proof {
            assert(final(self)@ =~= (ClientView {
                locals: spec_process_snapshots(
                    old(self)@.locals,
                    old(self)@.mapping,
                    old(self)@.controlled,
                    msgs@,
                    0,
                ),
                ..old(self)@
            }));
        }
    }

    /// Drains the chat channel: each decoded chat message replaces the
    /// one-slot display; the last one wins, and corrupt buffers are
    /// dropped.
    pub fn process_chat_messages(&mut self, msgs: &Vec<Vec<u8>>)
        requires
            old(self).wf(),
        ensures
            final(self).wf(),
            final(self)@ == (ClientView {
                display: match spec_last_chat(msgs@, msgs@.len() as int) {
                    Some(t) => t,
                    None => old(self)@.display,
                },
                ..old(self)@
            }),
    {
        let n = msgs.len();
        let mut i: usize = 0;
        while i < n
            invariant
                self.wf(),
                n == msgs@.len(),
                i <= n,
                self@ == (ClientView {
                    display: match spec_last_chat(msgs@, i as int) {
                        Some(t) => t,
                        None => old(self)@.display,
                    },
                    ..old(self)@
                }),
            decreases n - i,
        {
            let ghost at_head = self@;
            match decode(&msgs[i]) {
                Ok(Message::ChatMessage { client_id, text }) => {
                    self.apply_chat(text);
                },
                Ok(_) => {},
                Err(_) => {},
            }
            proof {
                assert(self@ =~= (ClientView {
                    display: match spec_last_chat(msgs@, i as int + 1) {
                        Some(t) => t,
                        None => old(self)@.display,
                    },
                    ..old(self)@
                }));
            }
            i = i + 1;
        }
    }

    /// Replaces the one-slot chat display with an incoming message's text.
    pub fn apply_chat(&mut self, text: Vec<u8>)
        requires
            old(self).wf(),
        ensures
            final(self).wf(),
            final(self)@ == (ClientView { display: text@, ..old(self)@ }),
    {
        let ghost before = self@;
        self.display_message = text;
        proof {
            restore_wf_view_slots(before, self@);
            assert(self@ =~= (ClientView { display: text@, ..old(self)@ }));
        }
    }

    /// Stores a line the player typed into the one-slot outgoing chat
    /// buffer.
    pub fn set_pending_chat(&mut self, text: Vec<u8>)
        requires
            old(self).wf(),
        ensures
            final(self).wf(),
            final(self)@ == (ClientView { pending: text@, ..old(self)@ }),
    {
        let ghost before = self@;
        self.pending_chat = text;
        proof {
            restore_wf_view_slots(before, self@);
            assert(self@ =~= (ClientView { pending: text@, ..old(self)@ }));
        }
    }

    /// The outgoing chat message, where one is pending: carries this
    /// client's identifier and the pending text, and leaves the slot as it
    /// is.
    pub fn send_one_chat(&self) -> (r: Option<Message>)
        requires
            self.wf(),
        ensures
            r is Some <==> self@.pending.len() > 0,
            match r {
                Some(m) => m@ == (MessageView::ChatMessage {
                    client_id: self@.client_id,
                    text: self@.pending,
                }),
                None => true,
            },
    {
        if self.pending_chat.len() == 0 {
            None
        } else {
            let text = vstd::slice::slice_to_vec(self.pending_chat.as_slice());
            Some(Message::ChatMessage { client_id: self.client_id, text })
        }
    }

    /// Takes the pending chat message, clearing the slot so the same line
    /// is never sent twice.
    pub fn send_text(&mut self) -> (r: Option<Message>)
        requires
            old(self).wf(),
        ensures
            final(self).wf(),
            match r {
                Some(m) => old(self)@.pending.len() > 0 && m@ == (MessageView::ChatMessage {
                    client_id: old(self)@.client_id,
                    text: old(self)@.pending,
                }) && final(self)@ == (ClientView { pending: Seq::<u8>::empty(), ..old(self)@ }),
                None => old(self)@.pending.len() == 0 && final(self)@ == old(self)@,
            },
    {
        if self.pending_chat.len() == 0 {
            return None;
        }
        let ghost before = self@;
        let text = vstd::slice::slice_to_vec(self.pending_chat.as_slice());
        self.pending_chat = Vec::new();
        proof {
            restore_wf_view_slots(before, self@);
            assert(self@ =~= (ClientView { pending: Seq::<u8>::empty(), ..old(self)@ }));
        }
        Some(Message::ChatMessage { client_id: self.client_id, text })
    }

    /// The fixed-rate position report: the controlled player's current
    /// translation, sent whether or not it changed; nothing while no
    /// player is controlled.
    pub fn sync_input(&self) -> (r: Option<Message>)
        requires
            self.wf(),
        ensures
            r == (match self@.controlled {
                Some(c) => Some(
                    Message::PlayerInput { translation: self@.locals[c].translation },
                ),
                None => None::<Message>,
            }),
    {
        match self.controlled {
            Some(c) => {
                let found = self.find_local(c);
                match found {
                    Some(idx) => {
                        proof {
                            lemma_assoc_at(self.entities@, idx as int);
                        }
                        Some(Message::PlayerInput { translation: self.entities[idx].1.translation })
                    },
                    None => {
                        proof {
                            assert(self@.locals.contains_key(c));
                            assert(false);
                        }
                        None
                    },
                }
            },
            None => None,
        }
    }

    /// The fixed-rate look report: the controlled player's current
    /// rotation; nothing while no player is controlled.
    pub fn sync_rotation(&self) -> (r: Option<Message>)
        requires
            self.wf(),
        ensures
            r == (match self@.controlled {
                Some(c) => Some(Message::RotationInput { rotation: self@.locals[c].rotation }),
                None => None::<Message>,
            }),
    {
        match self.controlled {
            Some(c) => {
                let found = self.find_local(c);
                match found {
                    Some(idx) => {
                        proof {
                            lemma_assoc_at(self.entities@, idx as int);
                        }
                        Some(Message::RotationInput { rotation: self.entities[idx].1.rotation })
                    },
                    None => {
                        proof {
                            assert(self@.locals.contains_key(c));
                            assert(false);
                        }
                        None
                    },
                }
            },
            None => None,
        }
    }
}

/// Encodes the queued discrete commands, one buffer per command, in
/// order.
pub fn sync_player_commands(commands: &Vec<Vec3Bits>) -> (r: Vec<Vec<u8>>)
    ensures
        r@.len() == commands@.len(),
        forall|i: int|
            0 <= i < commands@.len() ==> #[trigger] r@[i]@ == crate::codec::spec_encode(
                MessageView::PlayerCommand { cast_at: commands@[i] },
            ),
{
    let mut out: Vec<Vec<u8>> = Vec::new();
    let n = commands.len();
    let mut i: usize = 0;
    while i < n
        invariant
            n == commands@.len(),
            i <= n,
            out@.len() == i,
            forall|j: int|
                0 <= j < i ==> #[trigger] out@[j]@ == crate::codec::spec_encode(
                    MessageView::PlayerCommand { cast_at: commands@[j] },
                ),
        decreases n - i,
    {
        let m = Message::PlayerCommand { cast_at: commands[i] };
        out.push(crate::codec::encode(&m));
        i = i + 1;
    }
    out
}

/// Replacing only the chat slots keeps a view sound: soundness never
/// reads them.
proof fn restore_wf_view_slots(before: ClientView, after: ClientView)
    requires
        wf_view(before),
        after.client_id == before.client_id,
        after.next_local == before.next_local,
        after.lobby == before.lobby,
        after.mapping == before.mapping,
        after.locals == before.locals,
        after.controlled == before.controlled,
    ensures
        wf_view(after),
{
    assert forall|id: u64| #[trigger]
        after.lobby.contains_key(id) implies after.mapping.contains_key(
        after.lobby[id].server_entity,
    ) && after.mapping[after.lobby[id].server_entity] == after.lobby[id].client_entity
        && after.locals.contains_key(after.lobby[id].client_entity) by {
        assert(before.lobby.contains_key(id));
    }
    assert forall|c: EntityId| #[trigger]
        after.locals.contains_key(c) implies c.generation == 0 && c.index
        < after.next_local by {
        assert(before.locals.contains_key(c));
    }
}

} // verus!
