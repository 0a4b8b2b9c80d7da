//! Wire protocol codec.
//!
//! One network message is one encoded value.  Every message is a tagged
//! variant; the encoding is a single tag byte followed by fixed-width
//! little-endian fields, with the two snapshot variants and chat carrying a
//! 64-bit element count before their payload.  `decode` accepts exactly the
//! buffers that `encode` produces: a truncated or corrupt buffer yields a
//! `DecodeError` and harms nothing but that one message.
use vstd::prelude::*;
use vstd::bytes::*;
use vstd::slice::{slice_subrange, slice_to_vec};
use crate::types::{EntityId, QuatBits, Vec3Bits};

verus! {

/// A buffer could not be decoded: it is empty, truncated, carries an unknown
/// tag, or its length does not match its contents.
#[derive(Clone, Copy, PartialEq, Eq, Structural, Debug)]
pub struct DecodeError;

/// The typed messages that travel over the network channels.
///
/// The two snapshot variants hold parallel arrays: the i-th identifier
/// belongs with the i-th translation and the i-th rotation, and a
/// well-formed snapshot keeps all three the same length.
#[derive(Clone, PartialEq, Eq, Debug)]
pub enum Message {
    /// A player joined: its stable id, its server-side entity, and where it
    /// spawned.
    PlayerCreate { id: u64, entity: EntityId, translation: Vec3Bits },
    /// A player left.
    PlayerRemove { id: u64 },
    /// Fixed-rate snapshot of every replicated player entity.
    NetworkedEntities {
        entities: Vec<EntityId>,
        translations: Vec<Vec3Bits>,
        rotations: Vec<QuatBits>,
    },
    /// Snapshot of simulated entities that are not player-owned.
    NonNetworkedEntities {
        entities: Vec<EntityId>,
        translations: Vec<Vec3Bits>,
        rotations: Vec<QuatBits>,
    },
    /// A line of chat, as raw text bytes.
    ChatMessage { client_id: u64, text: Vec<u8> },
    /// Client-authoritative position of the controlled player.
    PlayerInput { translation: Vec3Bits },
    /// Client-authoritative look rotation of the controlled player.
    RotationInput { rotation: QuatBits },
    /// A discrete action aimed at a world position.
    PlayerCommand { cast_at: Vec3Bits },
    /// Whether this client is the session host.
    Host { is_host: bool },
}

/// Mathematical model of a [`Message`]: the same variants over `Seq` instead
/// of `Vec`.
#[verifier::ext_equal]
pub enum MessageView {
    PlayerCreate { id: u64, entity: EntityId, translation: Vec3Bits },
    PlayerRemove { id: u64 },
    NetworkedEntities {
        entities: Seq<EntityId>,
        translations: Seq<Vec3Bits>,
        rotations: Seq<QuatBits>,
    },
    NonNetworkedEntities {
        entities: Seq<EntityId>,
        translations: Seq<Vec3Bits>,
        rotations: Seq<QuatBits>,
    },
    ChatMessage { client_id: u64, text: Seq<u8> },
    PlayerInput { translation: Vec3Bits },
    RotationInput { rotation: QuatBits },
    PlayerCommand { cast_at: Vec3Bits },
    Host { is_host: bool },
}

impl View for Message {
    type V = MessageView;

    open spec fn view(&self) -> MessageView {
        match self {
            Message::PlayerCreate { id, entity, translation } => MessageView::PlayerCreate {
                id: *id,
                entity: *entity,
                translation: *translation,
            },
            Message::PlayerRemove { id } => MessageView::PlayerRemove { id: *id },
            Message::NetworkedEntities { entities, translations, rotations } => {
                MessageView::NetworkedEntities {
                    entities: entities@,
                    translations: translations@,
                    rotations: rotations@,
                }
            },
            Message::NonNetworkedEntities { entities, translations, rotations } => {
                MessageView::NonNetworkedEntities {
                    entities: entities@,
                    translations: translations@,
                    rotations: rotations@,
                }
            },
            Message::ChatMessage { client_id, text } => MessageView::ChatMessage {
                client_id: *client_id,
                text: text@,
            },
            Message::PlayerInput { translation } => MessageView::PlayerInput {
                translation: *translation,
            },
            Message::RotationInput { rotation } => MessageView::RotationInput {
                rotation: *rotation,
            },
            Message::PlayerCommand { cast_at } => MessageView::PlayerCommand { cast_at: *cast_at },
            Message::Host { is_host } => MessageView::Host { is_host: *is_host },
        }
    }
}

/// A message is well formed when its parallel arrays agree in length and its
/// counted payloads fit the 64-bit count carried on the wire.
pub open spec fn wf_message(m: MessageView) -> bool {
    match m {
        MessageView::NetworkedEntities { entities, translations, rotations } => {
            &&& entities.len() == translations.len()
            &&& entities.len() == rotations.len()
            &&& entities.len() <= u64::MAX
        },
        MessageView::NonNetworkedEntities { entities, translations, rotations } => {
            &&& entities.len() == translations.len()
            &&& entities.len() == rotations.len()
            &&& entities.len() <= u64::MAX
        },
        MessageView::ChatMessage { client_id, text } => text.len() <= u64::MAX,
        _ => true,
    }
}

/// Checks at run time that a snapshot's parallel arrays agree in length.
pub fn message_is_wf(m: &Message) -> (r: bool)
    ensures
        r == wf_message(m@),
{
    match m {
        Message::NetworkedEntities { entities, translations, rotations } => {
            let n = entities.len();
            proof {
                assert(n <= u64::MAX);
            }
            n == translations.len() && n == rotations.len()
        },
        Message::NonNetworkedEntities { entities, translations, rotations } => {
            let n = entities.len();
            proof {
                assert(n <= u64::MAX);
            }
            n == translations.len() && n == rotations.len()
        },
        Message::ChatMessage { client_id, text } => {
            let n = text.len();
            proof {
                assert(n <= u64::MAX);
            }
            true
        },
        _ => true,
    }
}

pub const TAG_PLAYER_CREATE: u8 = 0;

pub const TAG_PLAYER_REMOVE: u8 = 1;

pub const TAG_NETWORKED_ENTITIES: u8 = 2;

pub const TAG_NON_NETWORKED_ENTITIES: u8 = 3;

pub const TAG_CHAT_MESSAGE: u8 = 4;

pub const TAG_PLAYER_INPUT: u8 = 5;

pub const TAG_ROTATION_INPUT: u8 = 6;

pub const TAG_PLAYER_COMMAND: u8 = 7;

pub const TAG_HOST: u8 = 8;

/// Bytes of one entity identifier: index then generation, 8 bytes.
pub open spec fn spec_entity_bytes(e: EntityId) -> Seq<u8> {
    spec_u32_to_le_bytes(e.index) + spec_u32_to_le_bytes(e.generation)
}

/// Bytes of one 3-vector: 12 bytes.
pub open spec fn spec_vec3_bytes(v: Vec3Bits) -> Seq<u8> {
    spec_u32_to_le_bytes(v.x) + spec_u32_to_le_bytes(v.y) + spec_u32_to_le_bytes(v.z)
}

/// Bytes of one quaternion: 16 bytes.
pub open spec fn spec_quat_bytes(q: QuatBits) -> Seq<u8> {
    spec_u32_to_le_bytes(q.x) + spec_u32_to_le_bytes(q.y) + spec_u32_to_le_bytes(q.z)
        + spec_u32_to_le_bytes(q.w)
}

/// Bytes of one snapshot record: entity, translation, rotation — 36 bytes.
pub open spec fn spec_record_bytes(e: EntityId, t: Vec3Bits, r: QuatBits) -> Seq<u8> {
    spec_entity_bytes(e) + spec_vec3_bytes(t) + spec_quat_bytes(r)
}

/// Bytes of the first `n` snapshot records, in order.
pub open spec fn spec_records_bytes(
    entities: Seq<EntityId>,
    translations: Seq<Vec3Bits>,
    rotations: Seq<QuatBits>,
    n: int,
) -> Seq<u8>
    decreases n,
{
    if n <= 0 {
        Seq::empty()
    } else {
        spec_records_bytes(entities, translations, rotations, n - 1) + spec_record_bytes(
            entities[n - 1],
            translations[n - 1],
            rotations[n - 1],
        )
    }
}

/// The encoding of a well-formed message: tag byte, then fixed-width
/// little-endian fields.
pub open spec fn spec_encode(m: MessageView) -> Seq<u8> {
    match m {
        MessageView::PlayerCreate { id, entity, translation } => seq![TAG_PLAYER_CREATE]
            + spec_u64_to_le_bytes(id) + spec_entity_bytes(entity) + spec_vec3_bytes(translation),
        MessageView::PlayerRemove { id } => seq![TAG_PLAYER_REMOVE] + spec_u64_to_le_bytes(id),
        MessageView::NetworkedEntities { entities, translations, rotations } => seq![
            TAG_NETWORKED_ENTITIES,
        ] + spec_u64_to_le_bytes(entities.len() as u64) + spec_records_bytes(
            entities,
            translations,
            rotations,
            entities.len() as int,
        ),
        MessageView::NonNetworkedEntities { entities, translations, rotations } => seq![
            TAG_NON_NETWORKED_ENTITIES,
        ] + spec_u64_to_le_bytes(entities.len() as u64) + spec_records_bytes(
            entities,
            translations,
            rotations,
            entities.len() as int,
        ),
        MessageView::ChatMessage { client_id, text } => seq![TAG_CHAT_MESSAGE]
            + spec_u64_to_le_bytes(client_id) + spec_u64_to_le_bytes(text.len() as u64) + text,
        MessageView::PlayerInput { translation } => seq![TAG_PLAYER_INPUT] + spec_vec3_bytes(
            translation,
        ),
        MessageView::RotationInput { rotation } => seq![TAG_ROTATION_INPUT] + spec_quat_bytes(
            rotation,
        ),
        MessageView::PlayerCommand { cast_at } => seq![TAG_PLAYER_COMMAND] + spec_vec3_bytes(
            cast_at,
        ),
        MessageView::Host { is_host } => seq![TAG_HOST, (if is_host { 1u8 } else { 0u8 })],
    }
}

/// Appends the little-endian bytes of `x`.
fn push_u32(out: &mut Vec<u8>, x: u32)
    ensures
        final(out)@ == old(out)@ + spec_u32_to_le_bytes(x),
{
    let mut bytes = u32_to_le_bytes(x);
    out.append(&mut bytes);
}

/// Appends the little-endian bytes of `x`.
fn push_u64(out: &mut Vec<u8>, x: u64)
    ensures
        final(out)@ == old(out)@ + spec_u64_to_le_bytes(x),
{
    let mut bytes = u64_to_le_bytes(x);
    out.append(&mut bytes);
}

/// Appends the 8 bytes of an entity identifier.
fn push_entity(out: &mut Vec<u8>, e: &EntityId)
    ensures
        final(out)@ == old(out)@ + spec_entity_bytes(*e),
{
    push_u32(out, e.index);
    push_u32(out, e.generation);
    assert(out@ =~= old(out)@ + spec_entity_bytes(*e));
}

/// Appends the 12 bytes of a 3-vector.
fn push_vec3(out: &mut Vec<u8>, v: &Vec3Bits)
    ensures
        final(out)@ == old(out)@ + spec_vec3_bytes(*v),
{
    push_u32(out, v.x);
    push_u32(out, v.y);
    push_u32(out, v.z);
    assert(out@ =~= old(out)@ + spec_vec3_bytes(*v));
}

/// Appends the 16 bytes of a quaternion.
fn push_quat(out: &mut Vec<u8>, q: &QuatBits)
    ensures
        final(out)@ == old(out)@ + spec_quat_bytes(*q),
{
    push_u32(out, q.x);
    push_u32(out, q.y);
    push_u32(out, q.z);
    push_u32(out, q.w);
    assert(out@ =~= old(out)@ + spec_quat_bytes(*q));
}

/// Appends the count and the records of one snapshot payload.
fn push_records(
    out: &mut Vec<u8>,
    entities: &Vec<EntityId>,
    translations: &Vec<Vec3Bits>,
    rotations: &Vec<QuatBits>,
)
    requires
        entities@.len() == translations@.len(),
        entities@.len() == rotations@.len(),
    ensures
        final(out)@ == old(out)@ + spec_u64_to_le_bytes(entities@.len() as u64)
            + spec_records_bytes(entities@, translations@, rotations@, entities@.len() as int),
{
    push_u64(out, entities.len() as u64);
    let ghost prefix = out@;
    let n = entities.len();
    for i in 0..n
        invariant
            n == entities@.len(),
            n == translations@.len(),
            n == rotations@.len(),
            out@ == prefix + spec_records_bytes(entities@, translations@, rotations@, i as int),
    {
        push_entity(out, &entities[i]);
        push_vec3(out, &translations[i]);
        push_quat(out, &rotations[i]);
        assert(out@ =~= prefix + spec_records_bytes(
            entities@,
            translations@,
            rotations@,
            i + 1 as int,
        ));
    }
    assert(out@ =~= old(out)@ + spec_u64_to_le_bytes(entities@.len() as u64) + spec_records_bytes(
        entities@,
        translations@,
        rotations@,
        entities@.len() as int,
    ));
}

/// Encodes a message into the byte buffer that travels over a channel.
pub fn encode(m: &Message) -> (r: Vec<u8>)
    requires
        wf_message(m@),
    ensures
        r@ == spec_encode(m@),
{
    let mut out: Vec<u8> = Vec::new();
    match m {
        Message::PlayerCreate { id, entity, translation } => {
            out.push(TAG_PLAYER_CREATE);
            push_u64(&mut out, *id);
            push_entity(&mut out, entity);
            push_vec3(&mut out, translation);
            assert(out@ =~= spec_encode(m@));
        },
        Message::PlayerRemove { id } => {
            out.push(TAG_PLAYER_REMOVE);
            push_u64(&mut out, *id);
            assert(out@ =~= spec_encode(m@));
        },
        Message::NetworkedEntities { entities, translations, rotations } => {
            out.push(TAG_NETWORKED_ENTITIES);
            push_records(&mut out, entities, translations, rotations);
            assert(out@ =~= spec_encode(m@));
        },
        Message::NonNetworkedEntities { entities, translations, rotations } => {
            out.push(TAG_NON_NETWORKED_ENTITIES);
            push_records(&mut out, entities, translations, rotations);
            assert(out@ =~= spec_encode(m@));
        },
        Message::ChatMessage { client_id, text } => {
            out.push(TAG_CHAT_MESSAGE);
            push_u64(&mut out, *client_id);
            push_u64(&mut out, text.len() as u64);
            let mut body = text.clone();
            out.append(&mut body);
            assert(out@ =~= spec_encode(m@));
        },
        Message::PlayerInput { translation } => {
            out.push(TAG_PLAYER_INPUT);
            push_vec3(&mut out, translation);
            assert(out@ =~= spec_encode(m@));
        },
        Message::RotationInput { rotation } => {
            out.push(TAG_ROTATION_INPUT);
            push_quat(&mut out, rotation);
            assert(out@ =~= spec_encode(m@));
        },
        Message::PlayerCommand { cast_at } => {
            out.push(TAG_PLAYER_COMMAND);
            push_vec3(&mut out, cast_at);
            assert(out@ =~= spec_encode(m@));
        },
        Message::Host { is_host } => {
            out.push(TAG_HOST);
            out.push(if *is_host { 1u8 } else { 0u8 });
            assert(out@ =~= spec_encode(m@));
        },
    }
    out
}

/// The `u32` whose little-endian bytes sit at `off`.
pub open spec fn spec_u32_at(b: Seq<u8>, off: int) -> u32 {
    spec_u32_from_le_bytes(b.subrange(off, off + 4))
}

/// The `u64` whose little-endian bytes sit at `off`.
pub open spec fn spec_u64_at(b: Seq<u8>, off: int) -> u64 {
    spec_u64_from_le_bytes(b.subrange(off, off + 8))
}

/// The entity identifier whose 8 bytes sit at `off`.
pub open spec fn spec_entity_at(b: Seq<u8>, off: int) -> EntityId {
    EntityId { index: spec_u32_at(b, off), generation: spec_u32_at(b, off + 4) }
}

/// The 3-vector whose 12 bytes sit at `off`.
pub open spec fn spec_vec3_at(b: Seq<u8>, off: int) -> Vec3Bits {
    Vec3Bits { x: spec_u32_at(b, off), y: spec_u32_at(b, off + 4), z: spec_u32_at(b, off + 8) }
}

/// The quaternion whose 16 bytes sit at `off`.
pub open spec fn spec_quat_at(b: Seq<u8>, off: int) -> QuatBits {
    QuatBits {
        x: spec_u32_at(b, off),
        y: spec_u32_at(b, off + 4),
        z: spec_u32_at(b, off + 8),
        w: spec_u32_at(b, off + 12),
    }
}

/// A snapshot buffer is shaped right when its length is exactly the header
/// plus 36 bytes for each of the records its count announces.
pub open spec fn spec_snapshot_ok(b: Seq<u8>) -> bool {
    &&& b.len() >= 9
    &&& b.len() == 9 + spec_u64_at(b, 1) * 36
}

/// The entity column of a snapshot buffer.
pub open spec fn spec_snapshot_entities(b: Seq<u8>) -> Seq<EntityId> {
    Seq::new(spec_u64_at(b, 1) as nat, |i: int| spec_entity_at(b, 9 + i * 36))
}

/// The translation column of a snapshot buffer.
pub open spec fn spec_snapshot_translations(b: Seq<u8>) -> Seq<Vec3Bits> {
    Seq::new(spec_u64_at(b, 1) as nat, |i: int| spec_vec3_at(b, 9 + i * 36 + 8))
}

/// The rotation column of a snapshot buffer.
pub open spec fn spec_snapshot_rotations(b: Seq<u8>) -> Seq<QuatBits> {
    Seq::new(spec_u64_at(b, 1) as nat, |i: int| spec_quat_at(b, 9 + i * 36 + 20))
}

/// The message a buffer decodes to, or `None` where no message encodes to
/// that buffer.  This is the whole decoder: the executable [`decode`] agrees
/// with it exactly.
pub open spec fn spec_decode(b: Seq<u8>) -> Option<MessageView> {
    if b.len() < 1 {
        None
    } else if b[0] == TAG_PLAYER_CREATE {
        if b.len() == 29 {
            Some(
                MessageView::PlayerCreate {
                    id: spec_u64_at(b, 1),
                    entity: spec_entity_at(b, 9),
                    translation: spec_vec3_at(b, 17),
                },
            )
        } else {
            None
        }
    } else if b[0] == TAG_PLAYER_REMOVE {
        if b.len() == 9 {
            Some(MessageView::PlayerRemove { id: spec_u64_at(b, 1) })
        } else {
            None
        }
    } else if b[0] == TAG_NETWORKED_ENTITIES {
        if spec_snapshot_ok(b) {
            Some(
                MessageView::NetworkedEntities {
                    entities: spec_snapshot_entities(b),
                    translations: spec_snapshot_translations(b),
                    rotations: spec_snapshot_rotations(b),
                },
            )
        } else {
            None
        }
    } else if b[0] == TAG_NON_NETWORKED_ENTITIES {
        if spec_snapshot_ok(b) {
            Some(
                MessageView::NonNetworkedEntities {
                    entities: spec_snapshot_entities(b),
                    translations: spec_snapshot_translations(b),
                    rotations: spec_snapshot_rotations(b),
                },
            )
        } else {
            None
        }
    } else if b[0] == TAG_CHAT_MESSAGE {
        if b.len() >= 17 && b.len() == 17 + spec_u64_at(b, 9) {
            Some(
                MessageView::ChatMessage {
                    client_id: spec_u64_at(b, 1),
                    text: b.subrange(17, b.len() as int),
                },
            )
        } else {
            None
        }
    } else if b[0] == TAG_PLAYER_INPUT {
        if b.len() == 13 {
            Some(MessageView::PlayerInput { translation: spec_vec3_at(b, 1) })
        } else {
            None
        }
    } else if b[0] == TAG_ROTATION_INPUT {
        if b.len() == 17 {
            Some(MessageView::RotationInput { rotation: spec_quat_at(b, 1) })
        } else {
            None
        }
    } else if b[0] == TAG_PLAYER_COMMAND {
        if b.len() == 13 {
            Some(MessageView::PlayerCommand { cast_at: spec_vec3_at(b, 1) })
        } else {
            None
        }
    } else if b[0] == TAG_HOST {
        if b.len() == 2 && (b[1] == 0 || b[1] == 1) {
            Some(MessageView::Host { is_host: b[1] == 1 })
        } else {
            None
        }
    } else {
        None
    }
}

/// Reads the `u32` at `off`.
fn read_u32_at(b: &Vec<u8>, off: usize) -> (r: u32)
    requires
        off + 4 <= b@.len(),
    ensures
        r == spec_u32_at(b@, off as int),
{
    let _len: usize = b.len();
    u32_from_le_bytes(slice_subrange(b.as_slice(), off, off + 4))
}

/// Reads the `u64` at `off`.
fn read_u64_at(b: &Vec<u8>, off: usize) -> (r: u64)
    requires
        off + 8 <= b@.len(),
    ensures
        r == spec_u64_at(b@, off as int),
{
    let _len: usize = b.len();
    u64_from_le_bytes(slice_subrange(b.as_slice(), off, off + 8))
}

/// Reads the entity identifier at `off`.
fn read_entity_at(b: &Vec<u8>, off: usize) -> (r: EntityId)
    requires
        off + 8 <= b@.len(),
    ensures
        r == spec_entity_at(b@, off as int),
{
    let _len: usize = b.len();
    EntityId { index: read_u32_at(b, off), generation: read_u32_at(b, off + 4) }
}

/// Reads the 3-vector at `off`.
fn read_vec3_at(b: &Vec<u8>, off: usize) -> (r: Vec3Bits)
    requires
        off + 12 <= b@.len(),
    ensures
        r == spec_vec3_at(b@, off as int),
{
    let _len: usize = b.len();
    Vec3Bits { x: read_u32_at(b, off), y: read_u32_at(b, off + 4), z: read_u32_at(b, off + 8) }
}

/// Reads the quaternion at `off`.
fn read_quat_at(b: &Vec<u8>, off: usize) -> (r: QuatBits)
    requires
        off + 16 <= b@.len(),
    ensures
        r == spec_quat_at(b@, off as int),
{
    let _len: usize = b.len();
    QuatBits {
        x: read_u32_at(b, off),
        y: read_u32_at(b, off + 4),
        z: read_u32_at(b, off + 8),
        w: read_u32_at(b, off + 12),
    }
}

/// Reads the three record columns of a snapshot buffer, or reports that the
/// buffer is not shaped like a snapshot.
fn decode_snapshot(b: &Vec<u8>) -> (r: Option<(Vec<EntityId>, Vec<Vec3Bits>, Vec<QuatBits>)>)
    requires
        b@.len() >= 1,
    ensures
        r is Some <==> spec_snapshot_ok(b@),
        match r {
            Some((es, ts, qs)) => {
                &&& es@ == spec_snapshot_entities(b@)
                &&& ts@ == spec_snapshot_translations(b@)
                &&& qs@ == spec_snapshot_rotations(b@)
            },
            None => true,
        },
{
    let len = b.len();
    if len < 9 {
        return None;
    }
    let n64 = read_u64_at(b, 1);
    let rem = len - 9;
    let count = rem / 36;
    proof {
        vstd::arithmetic::div_mod::lemma_fundamental_div_mod(rem as int, 36);
    }
    if rem % 36 != 0 {
        proof {
            if spec_snapshot_ok(b@) {
                vstd::arithmetic::div_mod::lemma_mod_multiples_basic(n64 as int, 36);
            }
        }
        return None;
    }
    if n64 != count as u64 {
        proof {
            if spec_snapshot_ok(b@) {
                vstd::arithmetic::div_mod::lemma_div_multiples_vanish(n64 as int, 36);
            }
        }
        return None;
    }
    assert(count * 36 == rem);
    assert(spec_snapshot_ok(b@));
    let mut entities: Vec<EntityId> = Vec::new();
    let mut translations: Vec<Vec3Bits> = Vec::new();
    let mut rotations: Vec<QuatBits> = Vec::new();
    for i in 0..count
        invariant
            count * 36 == rem,
            rem == len - 9,
            len == b@.len(),
            entities@.len() == i,
            translations@.len() == i,
            rotations@.len() == i,
            forall|j: int| 0 <= j < i ==> entities@[j] == spec_entity_at(b@, 9 + j * 36),
            forall|j: int| 0 <= j < i ==> translations@[j] == spec_vec3_at(b@, 9 + j * 36 + 8),
            forall|j: int| 0 <= j < i ==> rotations@[j] == spec_quat_at(b@, 9 + j * 36 + 20),
    {
        proof {
            assert((i + 1) * 36 <= count * 36) by (nonlinear_arith)
                requires
                    i < count,
            ;
        }
        let off = 9 + i * 36;
        entities.push(read_entity_at(b, off));
        translations.push(read_vec3_at(b, off + 8));
        rotations.push(read_quat_at(b, off + 20));
    }
    proof {
        assert(entities@ =~= spec_snapshot_entities(b@));
        assert(translations@ =~= spec_snapshot_translations(b@));
        assert(rotations@ =~= spec_snapshot_rotations(b@));
    }
    Some((entities, translations, rotations))
}

/// Decodes one channel buffer back into a message.
///
/// Succeeds exactly on the buffers that [`spec_decode`] accepts — which, by
/// [`lemma_encode_decode`], are exactly the outputs of [`encode`] — and
/// fails with `DecodeError` on every other buffer.
pub fn decode(b: &Vec<u8>) -> (r: Result<Message, DecodeError>)
    ensures
        match r {
            Ok(m) => spec_decode(b@) == Some(m@) && wf_message(m@),
            Err(_) => spec_decode(b@) is None,
        },
{
    let len = b.len();
    if len < 1 {
        return Err(DecodeError);
    }
    let tag = b[0];
    if tag == TAG_PLAYER_CREATE {
        if len == 29 {
            Ok(
                Message::PlayerCreate {
                    id: read_u64_at(b, 1),
                    entity: read_entity_at(b, 9),
                    translation: read_vec3_at(b, 17),
                },
            )
        } else {
            Err(DecodeError)
        }
    } else if tag == TAG_PLAYER_REMOVE {
        if len == 9 {
            Ok(Message::PlayerRemove { id: read_u64_at(b, 1) })
        } else {
            Err(DecodeError)
        }
    } else if tag == TAG_NETWORKED_ENTITIES {
        match decode_snapshot(b) {
            Some((entities, translations, rotations)) => Ok(
                Message::NetworkedEntities { entities, translations, rotations },
            ),
            None => Err(DecodeError),
        }
    } else if tag == TAG_NON_NETWORKED_ENTITIES {
        match decode_snapshot(b) {
            Some((entities, translations, rotations)) => Ok(
                Message::NonNetworkedEntities { entities, translations, rotations },
            ),
            None => Err(DecodeError),
        }
    } else if tag == TAG_CHAT_MESSAGE {
        if len < 17 {
            return Err(DecodeError);
        }
        let text_len = read_u64_at(b, 9);
        if text_len != (len - 17) as u64 {
            return Err(DecodeError);
        }
        let text = slice_to_vec(slice_subrange(b.as_slice(), 17, len));
        Ok(Message::ChatMessage { client_id: read_u64_at(b, 1), text })
    } else if tag == TAG_PLAYER_INPUT {
        if len == 13 {
            Ok(Message::PlayerInput { translation: read_vec3_at(b, 1) })
        } else {
            Err(DecodeError)
        }
    } else if tag == TAG_ROTATION_INPUT {
        if len == 17 {
            Ok(Message::RotationInput { rotation: read_quat_at(b, 1) })
        } else {
            Err(DecodeError)
        }
    } else if tag == TAG_PLAYER_COMMAND {
        if len == 13 {
            Ok(Message::PlayerCommand { cast_at: read_vec3_at(b, 1) })
        } else {
            Err(DecodeError)
        }
    } else if tag == TAG_HOST {
        if len == 2 {
            let flag = b[1];
            if flag == 0 || flag == 1 {
                Ok(Message::Host { is_host: flag == 1 })
            } else {
                Err(DecodeError)
            }
        } else {
            Err(DecodeError)
        }
    } else {
        Err(DecodeError)
    }
}

/// The first `n` records occupy exactly `36 * n` bytes.
proof fn lemma_records_len(
    entities: Seq<EntityId>,
    translations: Seq<Vec3Bits>,
    rotations: Seq<QuatBits>,
    n: int,
)
    requires
        0 <= n,
    ensures
        spec_records_bytes(entities, translations, rotations, n).len() == 36 * n,
    decreases n,
{
    lemma_auto_spec_u32_to_from_le_bytes();
    if n > 0 {
        lemma_records_len(entities, translations, rotations, n - 1);
    }
}

/// The bytes of record `i` sit at offset `36 * i` of the record region.
proof fn lemma_records_index(
    entities: Seq<EntityId>,
    translations: Seq<Vec3Bits>,
    rotations: Seq<QuatBits>,
    n: int,
    i: int,
)
    requires
        0 <= i < n,
    ensures
        spec_records_bytes(entities, translations, rotations, n).subrange(36 * i, 36 * i + 36)
            == spec_record_bytes(entities[i], translations[i], rotations[i]),
    decreases n,
{
    lemma_records_len(entities, translations, rotations, n);
    lemma_records_len(entities, translations, rotations, n - 1);
    lemma_auto_spec_u32_to_from_le_bytes();
    let whole = spec_records_bytes(entities, translations, rotations, n);
    let front = spec_records_bytes(entities, translations, rotations, n - 1);
    let last = spec_record_bytes(entities[n - 1], translations[n - 1], rotations[n - 1]);
    if i == n - 1 {
        assert(whole.subrange(36 * i, 36 * i + 36) =~= last);
    } else {
        lemma_records_index(entities, translations, rotations, n - 1, i);
        assert(whole.subrange(36 * i, 36 * i + 36) =~= front.subrange(36 * i, 36 * i + 36));
    }
}

/// Where the 8 bytes at `off` are an entity's encoding, reading an entity at
/// `off` gives that entity back.
proof fn lemma_entity_at(b: Seq<u8>, off: int, e: EntityId)
    requires
        0 <= off,
        off + 8 <= b.len(),
        b.subrange(off, off + 8) == spec_entity_bytes(e),
    ensures
        spec_entity_at(b, off) == e,
{
    lemma_auto_spec_u32_to_from_le_bytes();
    let piece = b.subrange(off, off + 8);
    assert(b.subrange(off, off + 4) =~= piece.subrange(0, 4));
    assert(piece.subrange(0, 4) =~= spec_u32_to_le_bytes(e.index));
    assert(b.subrange(off + 4, off + 8) =~= piece.subrange(4, 8));
    assert(piece.subrange(4, 8) =~= spec_u32_to_le_bytes(e.generation));
}

/// Where the 12 bytes at `off` are a 3-vector's encoding, reading one there
/// gives it back.
proof fn lemma_vec3_at(b: Seq<u8>, off: int, v: Vec3Bits)
    requires
        0 <= off,
        off + 12 <= b.len(),
        b.subrange(off, off + 12) == spec_vec3_bytes(v),
    ensures
        spec_vec3_at(b, off) == v,
{
    lemma_auto_spec_u32_to_from_le_bytes();
    let piece = b.subrange(off, off + 12);
    assert(b.subrange(off, off + 4) =~= piece.subrange(0, 4));
    assert(piece.subrange(0, 4) =~= spec_u32_to_le_bytes(v.x));
    assert(b.subrange(off + 4, off + 8) =~= piece.subrange(4, 8));
    assert(piece.subrange(4, 8) =~= spec_u32_to_le_bytes(v.y));
    assert(b.subrange(off + 8, off + 12) =~= piece.subrange(8, 12));
    assert(piece.subrange(8, 12) =~= spec_u32_to_le_bytes(v.z));
}

/// Where the 16 bytes at `off` are a quaternion's encoding, reading one
/// there gives it back.
proof fn lemma_quat_at(b: Seq<u8>, off: int, q: QuatBits)
    requires
        0 <= off,
        off + 16 <= b.len(),
        b.subrange(off, off + 16) == spec_quat_bytes(q),
    ensures
        spec_quat_at(b, off) == q,
{
    lemma_auto_spec_u32_to_from_le_bytes();
    let piece = b.subrange(off, off + 16);
    assert(b.subrange(off, off + 4) =~= piece.subrange(0, 4));
    assert(piece.subrange(0, 4) =~= spec_u32_to_le_bytes(q.x));
    assert(b.subrange(off + 4, off + 8) =~= piece.subrange(4, 8));
    assert(piece.subrange(4, 8) =~= spec_u32_to_le_bytes(q.y));
    assert(b.subrange(off + 8, off + 12) =~= piece.subrange(8, 12));
    assert(piece.subrange(8, 12) =~= spec_u32_to_le_bytes(q.z));
    assert(b.subrange(off + 12, off + 16) =~= piece.subrange(12, 16));
    assert(piece.subrange(12, 16) =~= spec_u32_to_le_bytes(q.w));
}

/// Round trip: decoding an encoded well-formed message gives the message
/// back.  Together with the contracts of [`encode`] and [`decode`] this says
/// one network message survives the wire unchanged.
pub proof fn lemma_encode_decode(m: MessageView)
    requires
        wf_message(m),
    ensures
        spec_decode(spec_encode(m)) == Some(m),
{
    lemma_auto_spec_u32_to_from_le_bytes();
    lemma_auto_spec_u64_to_from_le_bytes();
    let b = spec_encode(m);
    match m {
        MessageView::PlayerCreate { id, entity, translation } => {
            assert(b.len() == 29);
            assert(b[0] == TAG_PLAYER_CREATE);
            assert(b.subrange(1, 9) =~= spec_u64_to_le_bytes(id));
            assert(b.subrange(9, 17) =~= spec_entity_bytes(entity));
            assert(b.subrange(17, 29) =~= spec_vec3_bytes(translation));
            lemma_entity_at(b, 9, entity);
            lemma_vec3_at(b, 17, translation);
        },
        MessageView::PlayerRemove { id } => {
            assert(b.len() == 9);
            assert(b[0] == TAG_PLAYER_REMOVE);
            assert(b.subrange(1, 9) =~= spec_u64_to_le_bytes(id));
        },
        MessageView::NetworkedEntities { entities, translations, rotations } => {
            lemma_snapshot_payload(TAG_NETWORKED_ENTITIES, b, entities, translations, rotations);
            assert(spec_decode(b) == Some(m));
        },
        MessageView::NonNetworkedEntities { entities, translations, rotations } => {
            lemma_snapshot_payload(
                TAG_NON_NETWORKED_ENTITIES,
                b,
                entities,
                translations,
                rotations,
            );
            assert(spec_decode(b) == Some(m));
        },
        MessageView::ChatMessage { client_id, text } => {
            assert(b.len() == 17 + text.len());
            assert(b[0] == TAG_CHAT_MESSAGE);
            assert(b.subrange(1, 9) =~= spec_u64_to_le_bytes(client_id));
            assert(b.subrange(9, 17) =~= spec_u64_to_le_bytes(text.len() as u64));
            assert(spec_u64_at(b, 9) == text.len());
            assert(b.subrange(17, b.len() as int) =~= text);
        },
        MessageView::PlayerInput { translation } => {
            assert(b.len() == 13);
            assert(b[0] == TAG_PLAYER_INPUT);
            assert(b.subrange(1, 13) =~= spec_vec3_bytes(translation));
            lemma_vec3_at(b, 1, translation);
        },
        MessageView::RotationInput { rotation } => {
            assert(b.len() == 17);
            assert(b[0] == TAG_ROTATION_INPUT);
            assert(b.subrange(1, 17) =~= spec_quat_bytes(rotation));
            lemma_quat_at(b, 1, rotation);
        },
        MessageView::PlayerCommand { cast_at } => {
            assert(b.len() == 13);
            assert(b[0] == TAG_PLAYER_COMMAND);
            assert(b.subrange(1, 13) =~= spec_vec3_bytes(cast_at));
            lemma_vec3_at(b, 1, cast_at);
        },
        MessageView::Host { is_host } => {
            assert(b.len() == 2);
            assert(b[0] == TAG_HOST);
            assert(b[1] == (if is_host { 1u8 } else { 0u8 }));
        },
    }
}

/// The columns read back from an encoded snapshot payload are the columns
/// that were encoded.
proof fn lemma_snapshot_payload(
    tag: u8,
    b: Seq<u8>,
    entities: Seq<EntityId>,
    translations: Seq<Vec3Bits>,
    rotations: Seq<QuatBits>,
)
    requires
        entities.len() == translations.len(),
        entities.len() == rotations.len(),
        entities.len() <= u64::MAX,
        b == seq![tag] + spec_u64_to_le_bytes(entities.len() as u64) + spec_records_bytes(
            entities,
            translations,
            rotations,
            entities.len() as int,
        ),
    ensures
        spec_snapshot_ok(b),
        spec_snapshot_entities(b) == entities,
        spec_snapshot_translations(b) == translations,
        spec_snapshot_rotations(b) == rotations,
{
    lemma_auto_spec_u32_to_from_le_bytes();
    lemma_auto_spec_u64_to_from_le_bytes();
    let n = entities.len() as int;
    lemma_records_len(entities, translations, rotations, n);
    assert(b.len() == 9 + 36 * n);
    assert(b.subrange(1, 9) =~= spec_u64_to_le_bytes(entities.len() as u64));
    assert(spec_u64_at(b, 1) == entities.len() as u64);
    assert(spec_snapshot_ok(b));
    let records = spec_records_bytes(entities, translations, rotations, n);
    assert forall|i: int| 0 <= i < n implies {
        &&& spec_entity_at(b, 9 + i * 36) == entities[i]
        &&& spec_vec3_at(b, 9 + i * 36 + 8) == translations[i]
        &&& spec_quat_at(b, 9 + i * 36 + 20) == rotations[i]
    } by {
        lemma_records_index(entities, translations, rotations, n, i);
        let rec = spec_record_bytes(entities[i], translations[i], rotations[i]);
        assert(b.subrange(9 + i * 36, 9 + i * 36 + 8) =~= rec.subrange(0, 8));
        assert(rec.subrange(0, 8) =~= spec_entity_bytes(entities[i]));
        lemma_entity_at(b, 9 + i * 36, entities[i]);
        assert(b.subrange(9 + i * 36 + 8, 9 + i * 36 + 20) =~= rec.subrange(8, 20));
        assert(rec.subrange(8, 20) =~= spec_vec3_bytes(translations[i]));
        lemma_vec3_at(b, 9 + i * 36 + 8, translations[i]);
        assert(b.subrange(9 + i * 36 + 20, 9 + i * 36 + 36) =~= rec.subrange(20, 36));
        assert(rec.subrange(20, 36) =~= spec_quat_bytes(rotations[i]));
        lemma_quat_at(b, 9 + i * 36 + 20, rotations[i]);
    }
    assert(spec_snapshot_entities(b) =~= entities);
    assert(spec_snapshot_translations(b) =~= translations);
    assert(spec_snapshot_rotations(b) =~= rotations);
}

} // verus!
