use vx_sync::codec::{decode, encode, Message};
use vx_sync::types::{EntityId, QuatBits, Vec3Bits};

fn v3(x: u32, y: u32, z: u32) -> Vec3Bits {
    Vec3Bits { x, y, z }
}

fn q4(x: u32, y: u32, z: u32, w: u32) -> QuatBits {
    QuatBits { x, y, z, w }
}

fn eid(index: u32, generation: u32) -> EntityId {
    EntityId { index, generation }
}

#[test]
fn round_trip_player_create() {
    let m = Message::PlayerCreate { id: 42, entity: eid(7, 1), translation: v3(1, 2, 3) };
    let bytes = encode(&m);
    assert_eq!(bytes.len(), 29);
    assert_eq!(decode(&bytes), Ok(m));
}

#[test]
fn round_trip_player_remove() {
    let m = Message::PlayerRemove { id: u64::MAX };
    let bytes = encode(&m);
    assert_eq!(bytes.len(), 9);
    assert_eq!(bytes[0], 1);
    assert_eq!(decode(&bytes), Ok(m));
}

#[test]
fn round_trip_networked_entities() {
    let m = Message::NetworkedEntities {
        entities: vec![eid(1, 0), eid(2, 0)],
        translations: vec![v3(10, 20, 30), v3(40, 50, 60)],
        rotations: vec![q4(0, 0, 0, 1), q4(1, 2, 3, 4)],
    };
    let bytes = encode(&m);
    assert_eq!(bytes.len(), 9 + 2 * 36);
    assert_eq!(decode(&bytes), Ok(m));
}

#[test]
fn round_trip_networked_entities_empty() {
    let m = Message::NetworkedEntities {
        entities: vec![],
        translations: vec![],
        rotations: vec![],
    };
    let bytes = encode(&m);
    assert_eq!(bytes.len(), 9);
    assert_eq!(decode(&bytes), Ok(m));
}

#[test]
fn round_trip_non_networked_entities() {
    let m = Message::NonNetworkedEntities {
        entities: vec![eid(9, 2)],
        translations: vec![v3(5, 6, 7)],
        rotations: vec![q4(8, 9, 10, 11)],
    };
    let bytes = encode(&m);
    assert_eq!(decode(&bytes), Ok(m));
}

#[test]
fn round_trip_chat_message() {
    let m = Message::ChatMessage { client_id: 3, text: b"hello world".to_vec() };
    let bytes = encode(&m);
    assert_eq!(bytes.len(), 17 + 11);
    assert_eq!(decode(&bytes), Ok(m));
}

#[test]
fn round_trip_chat_message_empty_text() {
    let m = Message::ChatMessage { client_id: 0, text: vec![] };
    let bytes = encode(&m);
    assert_eq!(bytes.len(), 17);
    assert_eq!(decode(&bytes), Ok(m));
}

#[test]
fn round_trip_player_input() {
    let m = Message::PlayerInput { translation: v3(0xDEADBEEF, 0, 0xFFFFFFFF) };
    let bytes = encode(&m);
    assert_eq!(bytes.len(), 13);
    assert_eq!(decode(&bytes), Ok(m));
}

#[test]
fn round_trip_rotation_input() {
    let m = Message::RotationInput { rotation: q4(1, 2, 3, 0x3F800000) };
    let bytes = encode(&m);
    assert_eq!(bytes.len(), 17);
    assert_eq!(decode(&bytes), Ok(m));
}

#[test]
fn round_trip_player_command() {
    let m = Message::PlayerCommand { cast_at: v3(100, 200, 300) };
    let bytes = encode(&m);
    assert_eq!(bytes.len(), 13);
    assert_eq!(decode(&bytes), Ok(m));
}

#[test]
fn round_trip_host() {
    for is_host in [false, true] {
        let m = Message::Host { is_host };
        let bytes = encode(&m);
        assert_eq!(bytes.len(), 2);
        assert_eq!(decode(&bytes), Ok(m));
    }
}

#[test]
fn decode_empty_buffer_fails() {
    assert!(decode(&vec![]).is_err());
}

#[test]
fn decode_unknown_tag_fails() {
    assert!(decode(&vec![99, 0, 0, 0, 0, 0, 0, 0, 0]).is_err());
}

#[test]
fn decode_truncated_fails() {
    let m = Message::PlayerCreate { id: 1, entity: eid(2, 3), translation: v3(4, 5, 6) };
    let mut bytes = encode(&m);
    bytes.pop();
    assert!(decode(&bytes).is_err());
}

#[test]
fn decode_trailing_bytes_fails() {
    let m = Message::PlayerRemove { id: 5 };
    let mut bytes = encode(&m);
    bytes.push(0);
    assert!(decode(&bytes).is_err());
}

#[test]
fn decode_host_bad_flag_fails() {
    assert!(decode(&vec![8, 2]).is_err());
}

#[test]
fn decode_snapshot_wrong_count_fails() {
    let m = Message::NetworkedEntities {
        entities: vec![eid(1, 0)],
        translations: vec![v3(0, 0, 0)],
        rotations: vec![q4(0, 0, 0, 0)],
    };
    let mut bytes = encode(&m);
    // claim two records while carrying one
    bytes[1] = 2;
    assert!(decode(&bytes).is_err());
}

#[test]
fn decode_chat_wrong_length_fails() {
    let m = Message::ChatMessage { client_id: 1, text: b"abc".to_vec() };
    let mut bytes = encode(&m);
    // claim four text bytes while carrying three
    bytes[9] = 4;
    assert!(decode(&bytes).is_err());
}
