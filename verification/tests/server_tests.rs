use vx_sync::codec::{encode, Message};
use vx_sync::server::{ConnectRefused, ServerState};
use vx_sync::types::{QuatBits, Vec3Bits};

fn v3(x: u32, y: u32, z: u32) -> Vec3Bits {
    Vec3Bits { x, y, z }
}

#[test]
fn connect_broadcasts_one_create_per_existing_player() {
    let mut server = ServerState::new(64);
    let r1 = server.handle_client_connected(1, v3(1, 0, 0)).unwrap();
    assert!(r1.to_new_client.is_empty());
    let r2 = server.handle_client_connected(2, v3(2, 0, 0)).unwrap();
    assert_eq!(r2.to_new_client.len(), 1);
    let r3 = server.handle_client_connected(3, v3(3, 0, 0)).unwrap();
    // exactly one PlayerCreate per pre-existing connected player
    assert_eq!(r3.to_new_client.len(), 2);
    let mut seen_ids: Vec<u64> = r3
        .to_new_client
        .iter()
        .map(|m| match m {
            Message::PlayerCreate { id, .. } => *id,
            other => panic!("unexpected message {:?}", other),
        })
        .collect();
    seen_ids.sort();
    assert_eq!(seen_ids, vec![1, 2]);
    // followed by exactly one broadcast create for the new player
    match r3.broadcast {
        Message::PlayerCreate { id, translation, .. } => {
            assert_eq!(id, 3);
            assert_eq!(translation, v3(3, 0, 0));
        },
        other => panic!("unexpected message {:?}", other),
    }
    assert_eq!(server.player_count(), 3);
}

#[test]
fn connect_at_capacity_is_refused() {
    let mut server = ServerState::new(1);
    server.handle_client_connected(1, v3(0, 0, 0)).unwrap();
    match server.handle_client_connected(2, v3(0, 0, 0)) {
        Err(ConnectRefused::AtCapacity) => {},
        other => panic!("expected capacity refusal, got {:?}", other.is_ok()),
    }
    assert_eq!(server.player_count(), 1);
}

#[test]
fn connect_twice_is_refused() {
    let mut server = ServerState::new(64);
    server.handle_client_connected(1, v3(0, 0, 0)).unwrap();
    match server.handle_client_connected(1, v3(0, 0, 0)) {
        Err(ConnectRefused::AlreadyConnected) => {},
        other => panic!("expected already-connected refusal, got {:?}", other.is_ok()),
    }
}

#[test]
fn disconnect_broadcasts_remove_and_despawns() {
    let mut server = ServerState::new(64);
    server.handle_client_connected(1, v3(0, 0, 0)).unwrap();
    server.handle_client_connected(2, v3(0, 0, 0)).unwrap();
    let m = server.handle_client_disconnected(1);
    assert_eq!(m, Message::PlayerRemove { id: 1 });
    assert_eq!(server.player_count(), 1);
    assert!(server.player_transform(1).is_none());
    assert!(server.player_transform(2).is_some());
}

#[test]
fn input_drain_applies_most_recent() {
    let mut server = ServerState::new(64);
    server.handle_client_connected(1, v3(0, 0, 0)).unwrap();
    let first = encode(&Message::PlayerInput { translation: v3(1, 1, 1) });
    let corrupt = vec![5, 0];
    let last = encode(&Message::PlayerInput { translation: v3(9, 9, 9) });
    server.drain_input_channel(1, &vec![first, corrupt, last]);
    // the last successfully decoded input wins; the corrupt one is dropped
    assert_eq!(server.player_transform(1).unwrap().translation, v3(9, 9, 9));
}

#[test]
fn input_for_unknown_client_is_ignored() {
    let mut server = ServerState::new(64);
    server.handle_client_connected(1, v3(4, 4, 4)).unwrap();
    let msg = encode(&Message::PlayerInput { translation: v3(9, 9, 9) });
    server.drain_input_channel(2, &vec![msg]);
    assert_eq!(server.player_transform(1).unwrap().translation, v3(4, 4, 4));
}

#[test]
fn rotation_drain_applies_most_recent() {
    let mut server = ServerState::new(64);
    server.handle_client_connected(1, v3(0, 0, 0)).unwrap();
    let r1 = encode(&Message::RotationInput { rotation: QuatBits { x: 1, y: 0, z: 0, w: 0 } });
    let r2 = encode(&Message::RotationInput { rotation: QuatBits { x: 0, y: 2, z: 0, w: 0 } });
    server.drain_rotation_channel(1, &vec![r1, r2]);
    assert_eq!(
        server.player_transform(1).unwrap().rotation,
        QuatBits { x: 0, y: 2, z: 0, w: 0 }
    );
}

#[test]
fn snapshot_covers_every_player() {
    let mut server = ServerState::new(64);
    server.handle_client_connected(1, v3(1, 0, 0)).unwrap();
    server.handle_client_connected(2, v3(2, 0, 0)).unwrap();
    match server.server_network_sync() {
        Message::NetworkedEntities { entities, translations, rotations } => {
            assert_eq!(entities.len(), 2);
            assert_eq!(translations.len(), 2);
            assert_eq!(rotations.len(), 2);
            let mut xs: Vec<u32> = translations.iter().map(|t| t.x).collect();
            xs.sort();
            assert_eq!(xs, vec![1, 2]);
        },
        other => panic!("unexpected message {:?}", other),
    }
}

#[test]
fn snapshot_round_trips_through_the_codec() {
    let mut server = ServerState::new(64);
    server.handle_client_connected(1, v3(7, 8, 9)).unwrap();
    let m = server.server_network_sync();
    let bytes = encode(&m);
    assert_eq!(vx_sync::codec::decode(&bytes), Ok(m));
}
