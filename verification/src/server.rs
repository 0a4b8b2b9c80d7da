//! Server replication engine.
//!
//! Owns the authoritative player state.  On connect it tells the new client
//! about every existing player and announces the newcomer to everyone; on
//! disconnect it despawns and announces the removal.  Each tick it drains
//! the per-client input channels — the last decoded message wins — applies
//! them to the authoritative transforms, and assembles one full snapshot to
//! broadcast.
use vstd::prelude::*;
use crate::assoc::{assoc_contains, assoc_map, assoc_wf, lemma_assoc_at, lemma_assoc_dom_len,
    lemma_assoc_empty, lemma_assoc_push, lemma_assoc_remove, lemma_assoc_update};
use crate::codec::{decode, spec_decode, Message, MessageView};
use crate::types::{EntityId, QuatBits, Transform, Vec3Bits};

verus! {

/// The authoritative record of one connected player.
#[derive(Clone, Copy, PartialEq, Eq, Structural, Debug)]
pub struct PlayerRec {
    pub id: u64,
    pub transform: Transform,
}

/// Why a connection attempt was refused.
#[derive(Clone, Copy, PartialEq, Eq, Structural, Debug)]
pub enum ConnectRefused {
    /// The server already holds its maximum number of clients.
    AtCapacity,
    /// The client identifier is already connected.
    AlreadyConnected,
    /// No authoritative entity handle can be allocated any more.
    OutOfHandles,
}

/// What a successful connect produces: the catch-up messages for the new
/// client and the announcement for everyone.
pub struct ConnectResponse {
    /// One `PlayerCreate` per player that existed before the connect,
    /// delivered to the new client only.
    pub to_new_client: Vec<Message>,
    /// The `PlayerCreate` for the new player, broadcast to all clients,
    /// the new one included.
    pub broadcast: Message,
}

/// Mathematical model of the server's authoritative state.
#[verifier::ext_equal]
pub struct ServerView {
    pub lobby: Map<u64, EntityId>,
    pub players: Map<EntityId, PlayerRec>,
    pub next_index: u32,
    pub max_clients: usize,
}

/// The server-side lobby: which authoritative entity each connected
/// client identifier owns.
pub struct ServerLobby {
    pub players: Vec<(u64, EntityId)>,
}

/// The authoritative server state.
pub struct ServerState {
    lobby: ServerLobby,
    players: Vec<(EntityId, PlayerRec)>,
    next_index: u32,
    max_clients: usize,
}

impl View for ServerState {
    type V = ServerView;

    closed spec fn view(&self) -> ServerView {
        ServerView {
            lobby: assoc_map(self.lobby.players@),
            players: assoc_map(self.players@),
            next_index: self.next_index,
            max_clients: self.max_clients,
        }
    }
}

/// Soundness of a server view: lobby and player table are inverse
/// bijections, and every handle sits below the allocation cursor.
pub open spec fn wf_server_view(v: ServerView) -> bool {
    &&& forall|id: u64| #[trigger]
        v.lobby.contains_key(id) ==> v.players.contains_key(v.lobby[id]) && v.players[v.lobby[id]].id
            == id
    &&& forall|e: EntityId| #[trigger]
        v.players.contains_key(e) ==> v.lobby.contains_key(v.players[e].id) && v.lobby[v.players[e].id]
            == e
    &&& forall|e: EntityId| #[trigger]
        v.players.contains_key(e) ==> e.generation == 0 && e.index < v.next_index
}

impl ServerState {
    /// Representation soundness.
    pub closed spec fn wf(self) -> bool {
        &&& assoc_wf(self.lobby.players@)
        &&& assoc_wf(self.players@)
        &&& wf_server_view(self@)
    }

    /// A fresh server that will accept at most `max_clients` clients.
    pub fn new(max_clients: usize) -> (r: ServerState)
        ensures
            r.wf(),
            r@ == (ServerView {
                lobby: Map::<u64, EntityId>::empty(),
                players: Map::<EntityId, PlayerRec>::empty(),
                next_index: 0,
                max_clients,
            }),
    {
        let r = ServerState {
            lobby: ServerLobby { players: Vec::new() },
            players: Vec::new(),
            next_index: 0,
            max_clients,
        };
        proof {
            lemma_assoc_empty(r.lobby.players@);
            lemma_assoc_empty(r.players@);
            assert(r@ =~= (ServerView {
                lobby: Map::<u64, EntityId>::empty(),
                players: Map::<EntityId, PlayerRec>::empty(),
                next_index: 0,
                max_clients,
            }));
        }
        r
    }

    /// A well-formed server has a sound view — the bridge that lets a
    /// caller use the view-level invariants.
    pub proof fn lemma_wf_view(self)
        requires
            self.wf(),
        ensures
            wf_server_view(self@),
    {
    }

    /// The index of client `id` in the lobby, where connected.
    fn find_client(&self, id: u64) -> (r: Option<usize>)
        ensures
            match r {
                Some(i) => i < self.lobby.players@.len() && self.lobby.players@[i as int].0 == id,
                None => !assoc_contains(self.lobby.players@, id),
            },
    {
        let n = self.lobby.players.len();
        let mut i: usize = 0;
        while i < n
            invariant
                n == self.lobby.players@.len(),
                i <= n,
                forall|j: int| 0 <= j < i ==> self.lobby.players@[j].0 != id,
            decreases n - i,
        {
            if self.lobby.players[i].0 == id {
                return Some(i);
            }
            i = i + 1;
        }
        None
    }

    /// The index of entity `e` in the player table, where present.
    fn find_player(&self, e: EntityId) -> (r: Option<usize>)
        ensures
            match r {
                Some(i) => i < self.players@.len() && self.players@[i as int].0 == e,
                None => !assoc_contains(self.players@, e),
            },
    {
        let n = self.players.len();
        let mut i: usize = 0;
        while i < n
            invariant
                n == self.players@.len(),
                i <= n,
                forall|j: int| 0 <= j < i ==> self.players@[j].0 != e,
            decreases n - i,
        {
            if self.players[i].0 == e {
                return Some(i);
            }
            i = i + 1;
        }
        None
    }

    /// Connect handling.  A client below capacity and not yet connected is
    /// given an authoritative entity at the supplied spawn translation;
    /// the response carries exactly one `PlayerCreate` per pre-existing
    /// player for the new client, and the broadcast `PlayerCreate` for the
    /// new player.
    pub fn handle_client_connected(&mut self, client_id: u64, spawn_translation: Vec3Bits) -> (r:
        Result<ConnectResponse, ConnectRefused>)
        requires
            old(self).wf(),
        ensures
            final(self).wf(),
            r is Err ==> final(self)@ == old(self)@ && *final(self) == *old(self),
            r is Ok <==> (old(self)@.lobby.dom().len() < old(self)@.max_clients && !old(
                self,
            )@.lobby.contains_key(client_id) && old(self)@.next_index < u32::MAX),
            r matches Err(ConnectRefused::AtCapacity) <==> old(self)@.lobby.dom().len() >= old(
                self,
            )@.max_clients,
            r matches Err(ConnectRefused::AlreadyConnected) <==> (old(self)@.lobby.dom().len()
                < old(self)@.max_clients && old(self)@.lobby.contains_key(client_id)),
            r matches Err(ConnectRefused::OutOfHandles) <==> (old(self)@.lobby.dom().len() < old(
                self,
            )@.max_clients && !old(self)@.lobby.contains_key(client_id) && old(self)@.next_index
                == u32::MAX),
            match r {
                Ok(resp) => {
                    let e = EntityId { index: old(self)@.next_index, generation: 0 };
                    &&& final(self)@ == (ServerView {
                        lobby: old(self)@.lobby.insert(client_id, e),
                        players: old(self)@.players.insert(
                            e,
                            PlayerRec {
                                id: client_id,
                                transform: Transform {
                                    translation: spawn_translation,
                                    rotation: crate::types::spec_identity_rotation(),
                                },
                            },
                        ),
                        next_index: (old(self)@.next_index + 1) as u32,
                        max_clients: old(self)@.max_clients,
                    })
                    &&& !old(self)@.players.contains_key(e)
                    &&& resp.broadcast@ == (MessageView::PlayerCreate {
                        id: client_id,
                        entity: e,
                        translation: spawn_translation,
                    })
                    &&& resp.to_new_client@.len() == old(self)@.players.dom().len()
                    &&& forall|i: int|
                        0 <= i < resp.to_new_client@.len() ==> (#[trigger] resp.to_new_client@[i]@
                            matches MessageView::PlayerCreate { id, entity, translation } && old(
                            self,
                        )@.players.contains_key(entity) && old(self)@.players[entity].id == id
                            && translation == old(self)@.players[entity].transform.translation)
                    &&& forall|pe: EntityId| #[trigger]
                        old(self)@.players.contains_key(pe) ==> exists|i: int|
                            0 <= i < resp.to_new_client@.len()
                                && (#[trigger] resp.to_new_client@[i]@
                                matches MessageView::PlayerCreate { id, entity, translation }
                                && entity == pe)
                },
                Err(_) => true,
            },
    {
        proof {
            lemma_assoc_dom_len(self.lobby.players@);
        }
        if self.lobby.players.len() >= self.max_clients {
            return Err(ConnectRefused::AtCapacity);
        }
        let already = self.find_client(client_id);
        if already.is_some() {
            proof {
                let i = already->Some_0;
                lemma_assoc_at(self.lobby.players@, i as int);
            }
            return Err(ConnectRefused::AlreadyConnected);
        }
        if self.next_index == u32::MAX {
            return Err(ConnectRefused::OutOfHandles);
        }
        let mut to_new_client: Vec<Message> = Vec::new();
        let n = self.players.len();
        let mut i: usize = 0;
        while i < n
            invariant
                self.wf(),
                n == self.players@.len(),
                i <= n,
                to_new_client@.len() == i,
                forall|j: int|
                    0 <= j < i ==> #[trigger] to_new_client@[j]@ == (MessageView::PlayerCreate {
                        id: self.players@[j].1.id,
                        entity: self.players@[j].0,
                        translation: self.players@[j].1.transform.translation,
                    }),
            decreases n - i,
        {
            let (pe, rec) = self.players[i];
            to_new_client.push(
                Message::PlayerCreate {
                    id: rec.id,
                    entity: pe,
                    translation: rec.transform.translation,
                },
            );
            i = i + 1;
        }
        proof {
            lemma_assoc_dom_len(self.players@);
            assert forall|j: int| 0 <= j < n implies (#[trigger] to_new_client@[j]@
                matches MessageView::PlayerCreate { id, entity, translation } && self@.players.contains_key(
                entity,
            ) && self@.players[entity].id == id && translation
                == self@.players[entity].transform.translation) by {
                lemma_assoc_at(self.players@, j);
            }
            assert forall|pe: EntityId| #[trigger]
                self@.players.contains_key(pe) implies exists|j: int|
                0 <= j < n && (#[trigger] to_new_client@[j]@ matches MessageView::PlayerCreate {
                    id,
                    entity,
                    translation,
                } && entity == pe) by {
                let j = crate::assoc::assoc_index_of(self.players@, pe);
                lemma_assoc_at(self.players@, j);
                assert(to_new_client@[j]@ matches MessageView::PlayerCreate {
                    id,
                    entity,
                    translation,
                } && entity == pe);
            }
        }
        let e = EntityId { index: self.next_index, generation: 0 };
        let rec = PlayerRec {
            id: client_id,
            transform: Transform {
                translation: spawn_translation,
                rotation: crate::types::identity_rotation(),
            },
        };
        proof {
            assert(!assoc_contains(self.players@, e)) by {
                if assoc_contains(self.players@, e) {
                    let j = crate::assoc::assoc_index_of(self.players@, e);
                    lemma_assoc_at(self.players@, j);
                    assert(self@.players.contains_key(e));
                }
            }
            assert(!assoc_contains(self.lobby.players@, client_id));
            lemma_assoc_push(self.lobby.players@, client_id, e);
            lemma_assoc_push(self.players@, e, rec);
        }
        self.lobby.players.push((client_id, e));
        self.players.push((e, rec));
        self.next_index = self.next_index + 1;
        proof {
            assert(self@ =~= (ServerView {
                lobby: old(self)@.lobby.insert(client_id, e),
                players: old(self)@.players.insert(e, rec),
                next_index: (old(self)@.next_index + 1) as u32,
                max_clients: old(self)@.max_clients,
            }));
            assert forall|id2: u64| #[trigger]
                self@.lobby.contains_key(id2) implies self@.players.contains_key(self@.lobby[id2])
                && self@.players[self@.lobby[id2]].id == id2 by {
                if id2 != client_id {
                    assert(old(self)@.lobby.contains_key(id2));
                    let pe = old(self)@.lobby[id2];
                    assert(old(self)@.players.contains_key(pe));
                    assert(pe != e);
                }
            }
            assert forall|pe: EntityId| #[trigger]
                self@.players.contains_key(pe) implies self@.lobby.contains_key(
                self@.players[pe].id,
            ) && self@.lobby[self@.players[pe].id] == pe && pe.generation == 0 && pe.index
                < self@.next_index by {
                if pe != e {
                    assert(old(self)@.players.contains_key(pe));
                    assert(old(self)@.players[pe].id != client_id) by {
                        if old(self)@.players[pe].id == client_id {
                            assert(old(self)@.lobby.contains_key(client_id));
                        }
                    }
                }
            }
            assert(self.wf());
        }
        let broadcast = Message::PlayerCreate { id: client_id, entity: e, translation: spawn_translation };
        Ok(ConnectResponse { to_new_client, broadcast })
    }

    /// Disconnect handling: the client's authoritative entity is despawned
    /// and the removal is broadcast — also for a client that was not in
    /// the lobby, as the removal is harmless to apply.
    pub fn handle_client_disconnected(&mut self, client_id: u64) -> (r: Message)
        requires
            old(self).wf(),
        ensures
            final(self).wf(),
            r@ == (MessageView::PlayerRemove { id: client_id }),
            final(self)@ == (if old(self)@.lobby.contains_key(client_id) {
                ServerView {
                    lobby: old(self)@.lobby.remove(client_id),
                    players: old(self)@.players.remove(old(self)@.lobby[client_id]),
                    next_index: old(self)@.next_index,
                    max_clients: old(self)@.max_clients,
                }
            } else {
                old(self)@
            }),
    {
        let found = self.find_client(client_id);
        match found {
            Some(i) => {
                let e = self.lobby.players[i].1;
                proof {
                    lemma_assoc_at(self.lobby.players@, i as int);
                    lemma_assoc_remove(self.lobby.players@, i as int);
                }
                self.lobby.players.remove(i);
                let pfound = self.find_player(e);
                match pfound {
                    Some(k) => {
                        proof {
                            lemma_assoc_at(self.players@, k as int);
                            lemma_assoc_remove(self.players@, k as int);
                        }
                        self.players.remove(k);
                    },
                    None => {
                        proof {
                            assert(old(self)@.lobby.contains_key(client_id));
                            assert(old(self)@.lobby[client_id] == e);
                            assert(old(self)@.players.contains_key(e));
                            assert(assoc_contains(old(self).players@, e));
                            assert(self.players@ == old(self).players@);
                            assert(false);
                        }
                    },
                }
                proof {
                    assert(self@ =~= (ServerView {
                        lobby: old(self)@.lobby.remove(client_id),
                        players: old(self)@.players.remove(old(self)@.lobby[client_id]),
                        next_index: old(self)@.next_index,
                        max_clients: old(self)@.max_clients,
                    }));
                    let e0 = old(self)@.lobby[client_id];
                    assert forall|id2: u64| #[trigger]
                        self@.lobby.contains_key(id2) implies self@.players.contains_key(
                        self@.lobby[id2],
                    ) && self@.players[self@.lobby[id2]].id == id2 by {
                        assert(old(self)@.lobby.contains_key(id2));
                        assert(id2 != client_id);
                        assert(old(self)@.lobby[id2] != e0) by {
                            if old(self)@.lobby[id2] == e0 {
                                assert(old(self)@.players[e0].id == id2);
                                assert(old(self)@.players[e0].id == client_id);
                            }
                        }
                    }
                    assert forall|pe: EntityId| #[trigger]
                        self@.players.contains_key(pe) implies self@.lobby.contains_key(
                        self@.players[pe].id,
                    ) && self@.lobby[self@.players[pe].id] == pe by {
                        assert(old(self)@.players.contains_key(pe));
                        assert(pe != e0);
                        assert(old(self)@.players[pe].id != client_id) by {
                            if old(self)@.players[pe].id == client_id {
                                assert(old(self)@.lobby[client_id] == pe);
                            }
                        }
                    }
                    assert(self.wf());
                }
            },
            None => {
                proof {
                    assert(!self@.lobby.contains_key(client_id));
                }
            },
        }
        Message::PlayerRemove { id: client_id }
    }

    /// Applies one decoded translation input to the client's authoritative
    /// transform; unknown clients are ignored.
    pub fn apply_input(&mut self, client_id: u64, translation: Vec3Bits)
        requires
            old(self).wf(),
        ensures
            final(self).wf(),
            final(self)@ == spec_apply_input(old(self)@, client_id, translation),
    {
        let found = self.find_client(client_id);
        match found {
            Some(i) => {
                proof {
                    lemma_assoc_at(self.lobby.players@, i as int);
                }
                let e = self.lobby.players[i].1;
                let pfound = self.find_player(e);
                match pfound {
                    Some(k) => {
                        proof {
                            lemma_assoc_at(self.players@, k as int);
                        }
                        let rec = self.players[k].1;
                        let rec2 = PlayerRec {
                            id: rec.id,
                            transform: Transform {
                                translation,
                                rotation: rec.transform.rotation,
                            },
                        };
                        proof {
                            lemma_assoc_update(self.players@, k as int, rec2);
                        }
                        self.players[k] = (e, rec2);
                        proof {
                            assert(self@ =~= spec_apply_input(old(self)@, client_id, translation));
                            assert forall|id2: u64| #[trigger]
                                self@.lobby.contains_key(id2) implies self@.players.contains_key(
                                self@.lobby[id2],
                            ) && self@.players[self@.lobby[id2]].id == id2 by {
                                assert(old(self)@.lobby.contains_key(id2));
                            }
                            assert forall|pe: EntityId| #[trigger]
                                self@.players.contains_key(pe) implies self@.lobby.contains_key(
                                self@.players[pe].id,
                            ) && self@.lobby[self@.players[pe].id] == pe && pe.generation == 0
                                && pe.index < self@.next_index by {
                                assert(old(self)@.players.contains_key(pe));
                            }
                            assert(self.wf());
                        }
                    },
                    None => {
                        proof {
                            assert(old(self)@.players.contains_key(e));
                            assert(false);
                        }
                    },
                }
            },
            None => {
                proof {
                    assert(self@ =~= spec_apply_input(old(self)@, client_id, translation));
                }
            },
        }
    }

    /// Applies one decoded look rotation to the client's authoritative
    /// transform; unknown clients are ignored.
    pub fn apply_rotation(&mut self, client_id: u64, rotation: QuatBits)
        requires
            old(self).wf(),
        ensures
            final(self).wf(),
            final(self)@ == spec_apply_rotation(old(self)@, client_id, rotation),
    {
        let found = self.find_client(client_id);
        match found {
            Some(i) => {
                proof {
                    lemma_assoc_at(self.lobby.players@, i as int);
                }
                let e = self.lobby.players[i].1;
                let pfound = self.find_player(e);
                match pfound {
                    Some(k) => {
                        proof {
                            lemma_assoc_at(self.players@, k as int);
                        }
                        let rec = self.players[k].1;
                        let rec2 = PlayerRec {
                            id: rec.id,
                            transform: Transform {
                                translation: rec.transform.translation,
                                rotation,
                            },
                        };
                        proof {
                            lemma_assoc_update(self.players@, k as int, rec2);
                        }
                        self.players[k] = (e, rec2);
                        proof {
                            assert(self@ =~= spec_apply_rotation(old(self)@, client_id, rotation));
                            assert forall|id2: u64| #[trigger]
                                self@.lobby.contains_key(id2) implies self@.players.contains_key(
                                self@.lobby[id2],
                            ) && self@.players[self@.lobby[id2]].id == id2 by {
                                assert(old(self)@.lobby.contains_key(id2));
                            }
                            assert forall|pe: EntityId| #[trigger]
                                self@.players.contains_key(pe) implies self@.lobby.contains_key(
                                self@.players[pe].id,
                            ) && self@.lobby[self@.players[pe].id] == pe && pe.generation == 0
                                && pe.index < self@.next_index by {
                                assert(old(self)@.players.contains_key(pe));
                            }
                            assert(self.wf());
                        }
                    },
                    None => {
                        proof {
                            assert(old(self)@.players.contains_key(e));
                            assert(false);
                        }
                    },
                }
            },
            None => {
                proof {
                    assert(self@ =~= spec_apply_rotation(old(self)@, client_id, rotation));
                }
            },
        }
    }
}

impl ServerState {
    /// Drains one client's `Input` channel: every decoded translation is
    /// applied in order, so the last successfully decoded one is what
    /// stands at the end of the tick; corrupt buffers are dropped
    /// silently.
    pub fn drain_input_channel(&mut self, client_id: u64, msgs: &Vec<Vec<u8>>)
        requires
            old(self).wf(),
        ensures
            final(self).wf(),
            final(self)@ == spec_drain_inputs(old(self)@, client_id, msgs@, 0),
    {
        let n = msgs.len();
        let mut i: usize = 0;
        while i < n
            invariant
                self.wf(),
                n == msgs@.len(),
                i <= n,
                spec_drain_inputs(self@, client_id, msgs@, i as int) == spec_drain_inputs(
                    old(self)@,
                    client_id,
                    msgs@,
                    0,
                ),
            decreases n - i,
        {
            let ghost at_head = self@;
            match decode(&msgs[i]) {
                Ok(Message::PlayerInput { translation }) => {
                    self.apply_input(client_id, translation);
                },
                Ok(_) => {},
                Err(_) => {},
            }
            proof {
                assert(spec_drain_inputs(at_head, client_id, msgs@, i as int) == spec_drain_inputs(
                    self@,
                    client_id,
                    msgs@,
                    i as int + 1,
                ));
            }
            i = i + 1;
        }
    }

    /// Drains one client's `Rots` channel: every decoded rotation is
    /// applied in order, most recent winning; corrupt buffers are dropped
    /// silently.
    pub fn drain_rotation_channel(&mut self, client_id: u64, msgs: &Vec<Vec<u8>>)
        requires
            old(self).wf(),
        ensures
            final(self).wf(),
            final(self)@ == spec_drain_rotations(old(self)@, client_id, msgs@, 0),
    {
        let n = msgs.len();
        let mut i: usize = 0;
        while i < n
            invariant
                self.wf(),
                n == msgs@.len(),
                i <= n,
                spec_drain_rotations(self@, client_id, msgs@, i as int) == spec_drain_rotations(
                    old(self)@,
                    client_id,
                    msgs@,
                    0,
                ),
            decreases n - i,
        {
            let ghost at_head = self@;
            match decode(&msgs[i]) {
                Ok(Message::RotationInput { rotation }) => {
                    self.apply_rotation(client_id, rotation);
                },
                Ok(_) => {},
                Err(_) => {},
            }
            proof {
                assert(spec_drain_rotations(at_head, client_id, msgs@, i as int)
                    == spec_drain_rotations(self@, client_id, msgs@, i as int + 1));
            }
            i = i + 1;
        }
    }

    /// Assembles the fixed-rate snapshot covering every authoritative
    /// player entity: one aligned record per player, broadcast
    /// unconditionally each tick.
    pub fn server_network_sync(&self) -> (r: Message)
        requires
            self.wf(),
        ensures
            crate::codec::wf_message(r@),
            r@ matches MessageView::NetworkedEntities { entities, translations, rotations } && {
                &&& entities.len() == self@.players.dom().len()
                &&& entities.no_duplicates()
                &&& forall|i: int|
                    0 <= i < entities.len() ==> self@.players.contains_key(#[trigger] entities[i])
                        && translations[i] == self@.players[entities[i]].transform.translation
                        && rotations[i] == self@.players[entities[i]].transform.rotation
                &&& forall|pe: EntityId| #[trigger]
                    self@.players.contains_key(pe) ==> entities.contains(pe)
            },
    {
        let mut entities: Vec<EntityId> = Vec::new();
        let mut translations: Vec<Vec3Bits> = Vec::new();
        let mut rotations: Vec<QuatBits> = Vec::new();
        let n = self.players.len();
        let mut i: usize = 0;
        while i < n
            invariant
                self.wf(),
                n == self.players@.len(),
                i <= n,
                entities@.len() == i,
                translations@.len() == i,
                rotations@.len() == i,
                forall|j: int|
                    0 <= j < i ==> #[trigger] entities@[j] == self.players@[j].0
                        && translations@[j] == self.players@[j].1.transform.translation
                        && rotations@[j] == self.players@[j].1.transform.rotation,
            decreases n - i,
        {
            let (pe, rec) = self.players[i];
            entities.push(pe);
            translations.push(rec.transform.translation);
            rotations.push(rec.transform.rotation);
            i = i + 1;
        }
        proof {
            lemma_assoc_dom_len(self.players@);
            assert(entities@.no_duplicates()) by {
                assert forall|a: int, b: int|
                    0 <= a < b < entities@.len() implies entities@[a] != entities@[b] by {
                    assert(self.players@[a].0 != self.players@[b].0);
                }
            }
            assert forall|j: int|
                0 <= j < entities@.len() implies self@.players.contains_key(
                #[trigger] entities@[j],
            ) && translations@[j] == self@.players[entities@[j]].transform.translation
                && rotations@[j] == self@.players[entities@[j]].transform.rotation by {
                lemma_assoc_at(self.players@, j);
            }
            assert forall|pe: EntityId| #[trigger]
                self@.players.contains_key(pe) implies entities@.contains(pe) by {
                let j = crate::assoc::assoc_index_of(self.players@, pe);
                lemma_assoc_at(self.players@, j);
                assert(entities@[j] == pe);
            }
        }
        Message::NetworkedEntities { entities, translations, rotations }
    }
}

/// The authoritative state after draining translation inputs from buffer
/// `i` on.
pub open spec fn spec_drain_inputs(
    v: ServerView,
    client_id: u64,
    bufs: Seq<Vec<u8>>,
    i: int,
) -> ServerView
    decreases bufs.len() - i,
{
    if i < 0 || i >= bufs.len() {
        v
    } else {
        spec_drain_inputs(
            match spec_decode(bufs[i]@) {
                Some(MessageView::PlayerInput { translation }) => spec_apply_input(
                    v,
                    client_id,
                    translation,
                ),
                _ => v,
            },
            client_id,
            bufs,
            i + 1,
        )
    }
}

/// The authoritative state after draining look rotations from buffer `i`
/// on.
pub open spec fn spec_drain_rotations(
    v: ServerView,
    client_id: u64,
    bufs: Seq<Vec<u8>>,
    i: int,
) -> ServerView
    decreases bufs.len() - i,
{
    if i < 0 || i >= bufs.len() {
        v
    } else {
        spec_drain_rotations(
            match spec_decode(bufs[i]@) {
                Some(MessageView::RotationInput { rotation }) => spec_apply_rotation(
                    v,
                    client_id,
                    rotation,
                ),
                _ => v,
            },
            client_id,
            bufs,
            i + 1,
        )
    }
}

/// The translation of the last buffer in `[i, len)` that decodes to a
/// translation input, if any.
pub open spec fn spec_last_input(bufs: Seq<Vec<u8>>, i: int) -> Option<Vec3Bits>
    decreases bufs.len() - i,
{
    if i < 0 || i >= bufs.len() {
        None
    } else {
        match spec_last_input(bufs, i + 1) {
            Some(t) => Some(t),
            None => match spec_decode(bufs[i]@) {
                Some(MessageView::PlayerInput { translation }) => Some(translation),
                _ => None,
            },
        }
    }
}

/// Most-recent-wins: draining a tick's worth of translation inputs leaves
/// the client's authoritative translation equal to the last successfully
/// decoded input, and leaves it alone when none decoded; the rotation is
/// never touched.
pub proof fn lemma_last_input_wins(v: ServerView, client_id: u64, bufs: Seq<Vec<u8>>, i: int)
    requires
        v.lobby.contains_key(client_id),
        v.players.contains_key(v.lobby[client_id]),
    ensures
        ({
            let e = v.lobby[client_id];
            let vf = spec_drain_inputs(v, client_id, bufs, i);
            &&& vf.lobby == v.lobby
            &&& vf.players.contains_key(e)
            &&& vf.players[e].transform.translation == (match spec_last_input(bufs, i) {
                Some(t) => t,
                None => v.players[e].transform.translation,
            })
            &&& vf.players[e].transform.rotation == v.players[e].transform.rotation
        }),
    decreases bufs.len() - i,
{
    if 0 <= i < bufs.len() {
        let v2 = match spec_decode(bufs[i]@) {
            Some(MessageView::PlayerInput { translation }) => spec_apply_input(
                v,
                client_id,
                translation,
            ),
            _ => v,
        };
        assert(v2.lobby == v.lobby);
        assert(v2.players.contains_key(v.lobby[client_id]));
        lemma_last_input_wins(v2, client_id, bufs, i + 1);
    }
}

impl ServerState {
    /// How many players are connected.
    pub fn player_count(&self) -> (r: usize)
        requires
            self.wf(),
        ensures
            r == self@.players.dom().len(),
    {
        proof {
            lemma_assoc_dom_len(self.players@);
        }
        self.players.len()
    }

    /// The authoritative transform of a connected client's player.
    pub fn player_transform(&self, client_id: u64) -> (r: Option<Transform>)
        requires
            self.wf(),
        ensures
            r == (if self@.lobby.contains_key(client_id) {
                Some(self@.players[self@.lobby[client_id]].transform)
            } else {
                None::<Transform>
            }),
    {
        let found = self.find_client(client_id);
        match found {
            Some(i) => {
                proof {
                    lemma_assoc_at(self.lobby.players@, i as int);
                }
                let e = self.lobby.players[i].1;
                let pfound = self.find_player(e);
                match pfound {
                    Some(k) => {
                        proof {
                            lemma_assoc_at(self.players@, k as int);
                        }
                        Some(self.players[k].1.transform)
                    },
                    None => {
                        proof {
                            assert(self@.lobby.contains_key(client_id));
                            assert(self@.lobby[client_id] == e);
                            assert(self@.players.contains_key(e));
                            assert(assoc_contains(self.players@, e));
                            assert(false);
                        }
                        None
                    },
                }
            },
            None => {
                proof {
                    assert(!assoc_contains(self.lobby.players@, client_id));
                }
                None
            },
        }
    }
}

/// Effect of one translation input on the authoritative state.
pub open spec fn spec_apply_input(v: ServerView, client_id: u64, translation: Vec3Bits) -> ServerView {
    if v.lobby.contains_key(client_id) && v.players.contains_key(v.lobby[client_id]) {
        let e = v.lobby[client_id];
        let rec = v.players[e];
        ServerView {
            players: v.players.insert(
                e,
                PlayerRec {
                    id: rec.id,
                    transform: Transform { translation, rotation: rec.transform.rotation },
                },
            ),
            ..v
        }
    } else {
        v
    }
}

/// Effect of one look rotation on the authoritative state.
pub open spec fn spec_apply_rotation(v: ServerView, client_id: u64, rotation: QuatBits) -> ServerView {
    if v.lobby.contains_key(client_id) && v.players.contains_key(v.lobby[client_id]) {
        let e = v.lobby[client_id];
        let rec = v.players[e];
        ServerView {
            players: v.players.insert(
                e,
                PlayerRec {
                    id: rec.id,
                    transform: Transform { translation: rec.transform.translation, rotation },
                },
            ),
            ..v
        }
    } else {
        v
    }
}

} // verus!
