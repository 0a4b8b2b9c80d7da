use vx_sync::entity_map::NetworkMapping;
use vx_sync::protocol::{protocol_accepts, ClientChannel, ServerChannel, PROTOCOL_ID};
use vx_sync::types::{add_score, EntityId, Stats, Transform};

fn eid(index: u32, generation: u32) -> EntityId {
    EntityId { index, generation }
}

#[test]
fn protocol_identifier_must_match() {
    assert!(protocol_accepts(PROTOCOL_ID));
    assert!(!protocol_accepts(PROTOCOL_ID + 1));
}

#[test]
fn channel_reliability_classes() {
    assert!(ServerChannel::ServerMessages.is_reliable());
    assert!(ServerChannel::Host.is_reliable());
    assert!(!ServerChannel::NetworkedEntities.is_reliable());
    assert!(!ServerChannel::NonNetworkedEntities.is_reliable());
    assert!(ServerChannel::ChatChannel.is_reliable());
    assert!(!ClientChannel::Input.is_reliable());
    assert!(!ClientChannel::Rots.is_reliable());
    assert!(ClientChannel::Command.is_reliable());
    assert!(ClientChannel::Chat.is_reliable());
}

#[test]
fn network_mapping_insert_lookup_remove() {
    let mut mapping = NetworkMapping::new();
    assert_eq!(mapping.lookup(eid(1, 0)), None);
    mapping.insert(eid(1, 0), eid(10, 0));
    mapping.insert(eid(2, 0), eid(20, 0));
    assert_eq!(mapping.len(), 2);
    assert_eq!(mapping.lookup(eid(1, 0)), Some(eid(10, 0)));
    // a re-insert replaces the earlier binding
    mapping.insert(eid(1, 0), eid(30, 0));
    assert_eq!(mapping.len(), 2);
    assert_eq!(mapping.lookup(eid(1, 0)), Some(eid(30, 0)));
    assert_eq!(mapping.remove(eid(1, 0)), Some(eid(30, 0)));
    assert_eq!(mapping.remove(eid(1, 0)), None);
    assert_eq!(mapping.lookup(eid(1, 0)), None);
    assert_eq!(mapping.len(), 1);
}

#[test]
fn score_increments() {
    let mut stats = Stats { score: 41 };
    add_score(&mut stats);
    assert_eq!(stats.score, 42);
}

#[test]
fn zeroed_transform_is_all_zero_bits() {
    let t = Transform::zeroed();
    assert_eq!((t.translation.x, t.translation.y, t.translation.z), (0, 0, 0));
    assert_eq!((t.rotation.x, t.rotation.y, t.rotation.z, t.rotation.w), (0, 0, 0, 0));
}
