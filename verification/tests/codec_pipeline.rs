use entity_sync::codec::{
    decode_component, deserialize_component, encode_component, serialize_component, Component,
    ComponentKind, ComponentRecord, ComponentRegistry,
};
use entity_sync::components::{PlayerInfo, PlayerType, PlayerTypeOp, Position};
use entity_sync::compression::{pack, pack_with, same_bytes, unpack, LZ4, MAX_COMPRESSED, STORED};
use entity_sync::envelope::{decode, encode, open, seal, seal_with};
use entity_sync::error::{ChannelClosedError, DecodeError, SyncError, UnregisteredComponentError};
use entity_sync::uid::IdentityError;

#[test]
fn position_serialises_low_byte_first() {
    let bytes = serialize_component(&Component::Position(Position::new(0x0102, 0xFFFE)));
    assert_eq!(bytes, vec![0x02, 0x01, 0xFE, 0xFF]);
}

#[test]
fn every_component_kind_round_trips_through_its_record() {
    let registry = ComponentRegistry::standard();
    let values = [
        Component::Position(Position::new(10, 10)),
        Component::Position(Position::new(0, 65535)),
        Component::PlayerType(PlayerType::new(PlayerTypeOp::Enemy)),
        Component::PlayerType(PlayerType { player_type: 4711 }),
        Component::PlayerInfo(PlayerInfo::new(9999)),
    ];
    for value in values.iter() {
        let record = encode_component(value);
        assert_eq!(decode_component(&registry, &record), Ok(*value));
    }
}

#[test]
fn every_component_kind_round_trips_through_the_envelope() {
    let registry = ComponentRegistry::standard();
    let values = [
        Component::Position(Position::new(11, 10)),
        Component::PlayerType(PlayerType::new(PlayerTypeOp::Player)),
        Component::PlayerInfo(PlayerInfo::new(3)),
    ];
    for value in values.iter() {
        let bytes = encode(&registry, value).unwrap();
        assert_eq!(bytes[0], value.kind().tag());
        assert_eq!(decode(&registry, &bytes), Ok(*value));
    }
}

#[test]
fn encoding_is_the_same_for_the_same_value() {
    let registry = ComponentRegistry::standard();
    let value = Component::Position(Position::new(200, 200));
    assert_eq!(encode(&registry, &value), encode(&registry, &value));
}

#[test]
fn unpacking_expands_a_known_stream() {
    assert_eq!(unpack(&[LZ4, 0x11, b'a', 1, 0]), Ok(b"aaaaaa".to_vec()));
    assert_eq!(unpack(&[LZ4, 0x30, b'a', b'4', b'9']), Ok(b"a49".to_vec()));
    assert_eq!(unpack(&[STORED, 0x30, b'a', b'4', b'9']), Ok(vec![0x30, b'a', b'4', b'9']));
    assert_eq!(unpack(&[STORED]), Ok(Vec::new()));
}

#[test]
fn unpacking_refuses_a_broken_stream() {
    assert_eq!(unpack(&[]), Err(DecodeError::Truncated));
    assert_eq!(unpack(&[LZ4, 0x10, b'a', 2, 0]), Err(DecodeError::Corrupt));
    assert_eq!(unpack(&[LZ4, 0x40, b'a', 1, 0]), Err(DecodeError::Corrupt));
    assert_eq!(unpack(&[2, 0x30, b'a', b'4', b'9']), Err(DecodeError::InvalidVariant));
}

#[test]
fn unpacking_refuses_a_compressed_stream_that_is_too_long() {
    let mut long = vec![0u8; MAX_COMPRESSED + 2];
    long[0] = LZ4;
    assert_eq!(unpack(&long), Err(DecodeError::TooLong));
    long[0] = STORED;
    assert_eq!(unpack(&long).map(|payload| payload.len()), Ok(MAX_COMPRESSED + 1));
}

#[test]
fn what_is_packed_unpacks_to_the_input() {
    let inputs: [&[u8]; 5] = [
        b"",
        b"x",
        b"to live or not to live, to live or not to live",
        b"as6yhol.;jrew5tyuikbfewedfyjltre22459ba",
        &[0u8; 5000],
    ];
    for input in inputs.iter() {
        assert_eq!(unpack(&pack(input)), Ok(input.to_vec()));
    }
    let repetitive = [7u8; 5000];
    let packed = pack(&repetitive);
    assert_eq!(packed[0], LZ4);
    assert!(packed.len() < 100);
}

#[test]
fn a_candidate_that_is_not_the_compressed_form_is_not_used() {
    assert_eq!(pack_with(b"abc", b"abc".to_vec()), vec![STORED, b'a', b'b', b'c']);
    assert_eq!(pack_with(b"abc", vec![0x10, b'a', 2, 0]), vec![STORED, b'a', b'b', b'c']);
    assert_eq!(pack_with(b"abc", vec![0x30, b'a', b'4', b'9']), vec![STORED, b'a', b'b', b'c']);
    assert_eq!(pack_with(b"a49", vec![0x30, b'a', b'4', b'9']), vec![LZ4, 0x30, b'a', b'4', b'9']);
    assert_eq!(seal_with(7, b"abc", vec![0x10, b'a', 2, 0]), vec![7, STORED, b'a', b'b', b'c']);
    assert_eq!(seal_with(7, b"a49", vec![0x30, b'a', b'4', b'9']), vec![7, LZ4, 0x30, b'a', b'4', b'9']);
    assert!(same_bytes(b"abc", b"abc"));
    assert!(!same_bytes(b"abc", b"abd"));
    assert!(!same_bytes(b"abc", b"ab"));
}

#[test]
fn envelope_opens_to_tag_and_payload() {
    let bytes = seal(42, b"hello hello hello hello");
    assert_eq!(bytes[0], 42);
    assert_eq!(open(&bytes), Ok((42, b"hello hello hello hello".to_vec())));
    assert_eq!(open(&[]), Err(DecodeError::Truncated));
    assert_eq!(open(&[42]), Err(DecodeError::Truncated));
    assert_eq!(open(&[42, LZ4, 0x10, b'a', 2, 0]), Err(DecodeError::Corrupt));
    assert_eq!(open(&[42, 9, 0]), Err(DecodeError::InvalidVariant));
}

#[test]
fn unregistered_tag_is_a_schema_mismatch() {
    let mut registry = ComponentRegistry::new();
    registry.register(ComponentKind::Position);
    let value = Component::PlayerInfo(PlayerInfo::new(1));
    let error = SyncError::UnregisteredComponent(UnregisteredComponentError { tag: 3 });
    assert_eq!(encode(&registry, &value), Err(UnregisteredComponentError { tag: 3 }));
    assert!(!error.recoverable());
    let bytes = encode(&ComponentRegistry::standard(), &value).unwrap();
    assert_eq!(decode(&registry, &bytes), Err(error));
    assert_eq!(
        decode(&registry, &[99, STORED]),
        Err(SyncError::UnregisteredComponent(UnregisteredComponentError { tag: 99 }))
    );
    let record = ComponentRecord { tag: 2, payload: vec![1, 0] };
    assert_eq!(
        decode_component(&registry, &record),
        Err(SyncError::UnregisteredComponent(UnregisteredComponentError { tag: 2 }))
    );
}

#[test]
fn malformed_payload_is_a_decode_error() {
    let registry = ComponentRegistry::standard();
    assert_eq!(deserialize_component(ComponentKind::Position, &[1, 2, 3]), Err(DecodeError::Truncated));
    assert_eq!(
        deserialize_component(ComponentKind::PlayerType, &[1, 2, 3]),
        Err(DecodeError::TrailingBytes)
    );
    assert_eq!(decode(&registry, &[]), Err(SyncError::Decode(DecodeError::Truncated)));
    assert_eq!(decode(&registry, &[1, LZ4, 0x10, b'a', 2, 0]), Err(SyncError::Decode(DecodeError::Corrupt)));
    assert_eq!(decode(&registry, &[1]), Err(SyncError::Decode(DecodeError::Truncated)));
    assert_eq!(decode(&registry, &[2, STORED, 5, 0]), Ok(Component::PlayerType(PlayerType { player_type: 5 })));
    let short = seal(1, &[1, 2]);
    assert_eq!(decode(&registry, &short), Err(SyncError::Decode(DecodeError::Truncated)));
    assert!(SyncError::Decode(DecodeError::Truncated).recoverable());
}

#[test]
fn a_fault_is_recoverable_unless_the_peers_have_diverged() {
    assert!(SyncError::Identity(IdentityError::NotFound).recoverable());
    assert!(!SyncError::Identity(IdentityError::UidInUse).recoverable());
    assert!(!SyncError::Identity(IdentityError::EntityInUse).recoverable());
    assert!(!SyncError::Identity(IdentityError::Exhausted).recoverable());
    assert!(SyncError::Decode(DecodeError::Corrupt).recoverable());
    assert!(SyncError::Decode(DecodeError::TooLong).recoverable());
    assert!(SyncError::ChannelClosed(ChannelClosedError { client_id: 1 }).recoverable());
    assert!(!SyncError::UnregisteredComponent(UnregisteredComponentError { tag: 1 }).recoverable());
}

#[test]
fn the_registry_knows_what_was_registered() {
    let mut registry = ComponentRegistry::new();
    assert!(!registry.is_registered(ComponentKind::Position));
    assert_eq!(registry.lookup(1), Err(UnregisteredComponentError { tag: 1 }));
    registry.register(ComponentKind::Position);
    registry.register(ComponentKind::Position);
    assert!(registry.is_registered(ComponentKind::Position));
    assert!(!registry.is_registered(ComponentKind::PlayerType));
    assert_eq!(registry.lookup(1), Ok(ComponentKind::Position));
    assert_eq!(registry.lookup(2), Err(UnregisteredComponentError { tag: 2 }));
    assert_eq!(registry.lookup(0), Err(UnregisteredComponentError { tag: 0 }));
    let standard = ComponentRegistry::standard();
    for (tag, kind) in [(1u8, ComponentKind::Position), (2, ComponentKind::PlayerType), (3, ComponentKind::PlayerInfo)] {
        assert_eq!(kind.tag(), tag);
        assert_eq!(ComponentKind::from_tag(tag), Some(kind));
        assert_eq!(standard.lookup(tag), Ok(kind));
    }
    assert_eq!(ComponentKind::from_tag(4), None);
    assert_eq!(standard.lookup(4), Err(UnregisteredComponentError { tag: 4 }));
}
