use vx_sync::client::ClientState;
use vx_sync::codec::{encode, Message};
use vx_sync::types::{EntityId, QuatBits, Vec3Bits};

fn v3(x: u32, y: u32, z: u32) -> Vec3Bits {
    Vec3Bits { x, y, z }
}

fn q4(x: u32, y: u32, z: u32, w: u32) -> QuatBits {
    QuatBits { x, y, z, w }
}

fn eid(index: u32, generation: u32) -> EntityId {
    EntityId { index, generation }
}

#[test]
fn mapping_consistency_create_then_remove() {
    let mut client = ClientState::new(7);
    let server_entity = eid(100, 0);
    let local = client.apply_player_create(8, server_entity, v3(1, 2, 3)).unwrap();
    // after the create, the lookup resolves to the spawned local entity
    assert_eq!(client.lookup(server_entity), Some(local));
    client.apply_player_remove(8);
    // after the matching remove, the binding is gone
    assert_eq!(client.lookup(server_entity), None);
}

#[test]
fn create_duplicate_is_ignored() {
    let mut client = ClientState::new(7);
    let server_entity = eid(100, 0);
    assert!(client.apply_player_create(8, server_entity, v3(1, 2, 3)).is_some());
    assert!(client.apply_player_create(8, eid(101, 0), v3(4, 5, 6)).is_none());
    assert!(client.apply_player_create(9, server_entity, v3(4, 5, 6)).is_none());
}

#[test]
fn remove_unknown_player_is_ignored() {
    let mut client = ClientState::new(7);
    client.apply_player_remove(99);
    assert_eq!(client.lookup(eid(0, 0)), None);
}

#[test]
fn snapshot_never_touches_controlled_player() {
    let mut client = ClientState::new(7);
    let self_server = eid(1, 0);
    let other_server = eid(2, 0);
    let self_local = client.apply_player_create(7, self_server, v3(10, 10, 10)).unwrap();
    let other_local = client.apply_player_create(8, other_server, v3(20, 20, 20)).unwrap();
    let before_self = client.local_transform(self_local).unwrap();

    let entities = vec![self_server, other_server];
    let translations = vec![v3(111, 111, 111), v3(222, 222, 222)];
    let rotations = vec![q4(0, 0, 0, 1), q4(0, 0, 0, 2)];
    let dirty = client.apply_entity_snapshot(&entities, &translations, &rotations);

    // the controlled entity keeps its own transform
    assert_eq!(client.local_transform(self_local).unwrap(), before_self);
    // the other entity takes the authoritative transform
    let other = client.local_transform(other_local).unwrap();
    assert_eq!(other.translation, v3(222, 222, 222));
    assert_eq!(other.rotation, q4(0, 0, 0, 2));
    assert_eq!(dirty, vec![other_local]);
}

#[test]
fn reapplying_identical_snapshot_writes_nothing() {
    let mut client = ClientState::new(7);
    let a = eid(1, 0);
    let b = eid(2, 0);
    client.apply_player_create(8, a, v3(0, 0, 0)).unwrap();
    client.apply_player_create(9, b, v3(0, 0, 0)).unwrap();

    let entities = vec![a, b];
    let translations = vec![v3(5, 5, 5), v3(6, 6, 6)];
    let rotations = vec![q4(1, 0, 0, 0), q4(0, 1, 0, 0)];
    let first = client.apply_entity_snapshot(&entities, &translations, &rotations);
    assert_eq!(first.len(), 2);
    let second = client.apply_entity_snapshot(&entities, &translations, &rotations);
    assert!(second.is_empty());
}

#[test]
fn equal_translation_skips_the_write_whatever_the_rotation() {
    let mut client = ClientState::new(7);
    let server = eid(1, 0);
    let local = client.apply_player_create(8, server, v3(5, 5, 5)).unwrap();
    let before = client.local_transform(local).unwrap();
    // same translation, new rotation: the comparison is on the translation
    // alone, so nothing is written and the old rotation stays
    let dirty = client.apply_entity_snapshot(
        &vec![server],
        &vec![v3(5, 5, 5)],
        &vec![q4(9, 9, 9, 9)],
    );
    assert!(dirty.is_empty());
    assert_eq!(client.local_transform(local).unwrap(), before);
    // a differing translation writes both components
    let dirty = client.apply_entity_snapshot(
        &vec![server],
        &vec![v3(6, 6, 6)],
        &vec![q4(9, 9, 9, 9)],
    );
    assert_eq!(dirty, vec![local]);
    let after = client.local_transform(local).unwrap();
    assert_eq!(after.translation, v3(6, 6, 6));
    assert_eq!(after.rotation, q4(9, 9, 9, 9));
}

#[test]
fn snapshot_with_unknown_identifier_is_skipped() {
    let mut client = ClientState::new(7);
    let known = eid(1, 0);
    let local = client.apply_player_create(8, known, v3(0, 0, 0)).unwrap();
    let entities = vec![eid(99, 0), known];
    let translations = vec![v3(1, 1, 1), v3(2, 2, 2)];
    let rotations = vec![q4(0, 0, 0, 0), q4(0, 0, 0, 1)];
    client.apply_entity_snapshot(&entities, &translations, &rotations);
    assert_eq!(client.local_transform(local).unwrap().translation, v3(2, 2, 2));
}

#[test]
fn corrupt_buffer_does_not_stop_the_drain() {
    let mut client = ClientState::new(7);
    let create = Message::PlayerCreate { id: 8, entity: eid(1, 0), translation: v3(1, 2, 3) };
    let msgs = vec![vec![0xFF, 0xFF], encode(&create)];
    client.process_server_messages(&msgs);
    // the message after the corrupt one was still applied
    assert!(client.lookup(eid(1, 0)).is_some());
}

#[test]
fn lifecycle_channel_ignores_other_message_kinds() {
    let mut client = ClientState::new(7);
    let chat = Message::ChatMessage { client_id: 1, text: b"hi".to_vec() };
    client.process_server_messages(&vec![encode(&chat)]);
    assert!(client.display_text().is_empty());
}

#[test]
fn chat_display_slot_keeps_last_message() {
    let mut client = ClientState::new(7);
    let first = Message::ChatMessage { client_id: 1, text: b"first".to_vec() };
    let second = Message::ChatMessage { client_id: 2, text: b"second".to_vec() };
    client.process_chat_messages(&vec![encode(&first), vec![9, 9], encode(&second)]);
    assert_eq!(client.display_text(), b"second".to_vec());
}

#[test]
fn pending_chat_is_cleared_after_send() {
    let mut client = ClientState::new(7);
    assert!(client.send_text().is_none());
    client.set_pending_chat(b"gg".to_vec());
    let sent = client.send_text().unwrap();
    assert_eq!(sent, Message::ChatMessage { client_id: 7, text: b"gg".to_vec() });
    // the slot was cleared: nothing is re-sent
    assert!(client.send_text().is_none());
}

#[test]
fn send_one_chat_does_not_clear_the_slot() {
    let mut client = ClientState::new(7);
    assert!(client.send_one_chat().is_none());
    client.set_pending_chat(b"gg".to_vec());
    assert!(client.send_one_chat().is_some());
    assert!(client.send_one_chat().is_some());
}

#[test]
fn sync_input_reports_controlled_translation() {
    let mut client = ClientState::new(7);
    assert!(client.sync_input().is_none());
    assert!(client.sync_rotation().is_none());
    client.apply_player_create(7, eid(1, 0), v3(9, 8, 7)).unwrap();
    match client.sync_input().unwrap() {
        Message::PlayerInput { translation } => assert_eq!(translation, v3(9, 8, 7)),
        other => panic!("unexpected message {:?}", other),
    }
    assert!(client.sync_rotation().is_some());
}

#[test]
fn controlled_entity_is_tagged_on_own_create() {
    let mut client = ClientState::new(7);
    let other = client.apply_player_create(8, eid(1, 0), v3(0, 0, 0)).unwrap();
    assert_eq!(client.controlled_entity(), None);
    let own = client.apply_player_create(7, eid(2, 0), v3(0, 0, 0)).unwrap();
    assert_eq!(client.controlled_entity(), Some(own));
    assert_ne!(own, other);
}

#[test]
fn sync_player_commands_encodes_each_command() {
    let bufs = vx_sync::client::sync_player_commands(&vec![v3(1, 2, 3), v3(4, 5, 6)]);
    assert_eq!(bufs.len(), 2);
    assert_eq!(
        vx_sync::codec::decode(&bufs[1]),
        Ok(Message::PlayerCommand { cast_at: v3(4, 5, 6) })
    );
}
