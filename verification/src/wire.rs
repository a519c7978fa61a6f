//! The bytes of the messages that travel between the peers.
//!
//! A message travels in an envelope. The tag of the envelope says what the
//! payload is: a message of a client, a command, a message of the server
//! or an event. Numbers are written low byte first. An event names its
//! kind and its entity, and carries its components as records: the tag of
//! the type, the length of the value and the value.

use vstd::prelude::*;
use vstd::slice::slice_subrange;
use crate::apply::{set_component, with_component};
use crate::codec::{
    component_payload, deserialize_component, from_le16, le16, lemma_payload_round_trip,
    parse_record, serialize_component, Component, ComponentRegistry,
};
use crate::envelope::{open, opened, seal};
use crate::error::{DecodeError, SyncError, UnregisteredComponentError};
use crate::message::{ClientCommand, ClientMessage, ServerMessage};
use crate::tracker::Event;
use crate::transport::{ClientToServerMessage, ServerToClientMessage};
use crate::uid::Uid;
use crate::world::Entity;

verus! {

/// The tag of the envelope of a client's message.
pub const TAG_CLIENT_MESSAGE: u8 = 16;

/// The tag of the envelope of a command.
pub const TAG_COMMAND: u8 = 17;

/// The tag of the envelope of a server's message.
pub const TAG_SERVER_MESSAGE: u8 = 32;

/// The tag of the envelope of an event.
pub const TAG_EVENT: u8 = 33;

/// The four bytes of `value`, low byte first.
pub open spec fn le32(value: u32) -> Seq<u8> {
    seq![
        (value % 256) as u8,
        ((value / 256) % 256) as u8,
        ((value / 65536) % 256) as u8,
        (value / 16777216) as u8,
    ]
}

/// The number that the four bytes from `at` on hold, low byte first.
pub open spec fn from_le32(bytes: Seq<u8>, at: int) -> u32 {
    (bytes[at] + bytes[at + 1] * 256 + bytes[at + 2] * 65536 + bytes[at + 3] * 16777216) as u32
}

/// Splitting a number into four bytes and joining them gives the number.
pub proof fn lemma_le32_round_trip(value: u32)
    ensures
        le32(value).len() == 4,
        from_le32(le32(value), 0) == value,
{
}

fn push_le32(bytes: &mut Vec<u8>, value: u32)
    ensures
        final(bytes)@ == old(bytes)@ + le32(value),
{
    bytes.push((value % 256) as u8);
    bytes.push(((value / 256) % 256) as u8);
    bytes.push(((value / 65536) % 256) as u8);
    bytes.push((value / 16777216) as u8);
    assert(bytes@ =~= old(bytes)@ + le32(value));
}

fn read_le32(bytes: &[u8], at: usize) -> (r: u32)
    requires
        at + 4 <= bytes@.len(),
    ensures
        r == from_le32(bytes@, at as int),
{
    bytes[at] as u32 + bytes[at + 1] as u32 * 256 + bytes[at + 2] as u32 * 65536 + bytes[at
        + 3] as u32 * 16777216
}

/// The byte that stands for a command.
pub open spec fn command_byte(command: ClientCommand) -> u8 {
    match command {
        ClientCommand::MoveUp => 0,
        ClientCommand::MoveRight => 1,
        ClientCommand::MoveDown => 2,
        ClientCommand::MoveLeft => 3,
    }
}

/// The command that a byte stands for.
pub open spec fn byte_command(byte: u8) -> Option<ClientCommand> {
    if byte == 0 {
        Some(ClientCommand::MoveUp)
    } else if byte == 1 {
        Some(ClientCommand::MoveRight)
    } else if byte == 2 {
        Some(ClientCommand::MoveDown)
    } else if byte == 3 {
        Some(ClientCommand::MoveLeft)
    } else {
        None
    }
}

/// The components that an entity has, in the order of their tags.
pub open spec fn components_of(entity: Entity) -> Seq<Component> {
    (match entity.position {
        Some(position) => seq![Component::Position(position)],
        None => Seq::empty(),
    }) + (match entity.player_type {
        Some(player_type) => seq![Component::PlayerType(player_type)],
        None => Seq::empty(),
    }) + (match entity.player_info {
        Some(player_info) => seq![Component::PlayerInfo(player_info)],
        None => Seq::empty(),
    })
}

/// The entity that has the components `components`; of two of one type,
/// the later.
pub open spec fn entity_of(components: Seq<Component>) -> Entity
    decreases components.len(),
{
    if components.len() == 0 {
        Entity { position: None, player_type: None, player_info: None }
    } else {
        with_component(entity_of(components.drop_last()), components.last())
    }
}

/// The bytes of one record: the tag, the length of the value, the value.
pub open spec fn record_bytes(component: Component) -> Seq<u8> {
    seq![component.kind().tag(), component_payload(component).len() as u8] + component_payload(
        component,
    )
}

/// The bytes of a run of records.
pub open spec fn records_bytes(components: Seq<Component>) -> Seq<u8>
    decreases components.len(),
{
    if components.len() == 0 {
        Seq::empty()
    } else {
        record_bytes(components.first()) + records_bytes(components.drop_first())
    }
}

/// The `count` components whose records make up `bytes`.
pub open spec fn parse_records(registry: ComponentRegistry, bytes: Seq<u8>, count: nat) -> Result<
    Seq<Component>,
    SyncError,
>
    decreases count,
{
    if count == 0 {
        if bytes.len() == 0 {
            Ok(Seq::empty())
        } else {
            Err(SyncError::Decode(DecodeError::TrailingBytes))
        }
    } else if bytes.len() < 2 || bytes.len() < 2 + bytes[1] {
        Err(SyncError::Decode(DecodeError::Truncated))
    } else {
        match parse_record(registry, bytes[0], bytes.subrange(2, 2 + bytes[1])) {
            Err(e) => Err(e),
            Ok(component) => match parse_records(
                registry,
                bytes.skip(2 + bytes[1]),
                (count - 1) as nat,
            ) {
                Err(e) => Err(e),
                Ok(rest) => Ok(seq![component] + rest),
            },
        }
    }
}

/// The bytes of an event.
pub open spec fn event_bytes(event: Event) -> Seq<u8> {
    match event {
        Event::Inserted(uid, entity) => seq![0u8] + le32(uid.0) + seq![
            components_of(entity).len() as u8,
        ] + records_bytes(components_of(entity)),
        Event::Modified(uid, component) => seq![1u8] + le32(uid.0) + record_bytes(component),
        Event::Removed(uid) => seq![2u8] + le32(uid.0),
    }
}

/// The event that `bytes` hold.
pub open spec fn parse_event(registry: ComponentRegistry, bytes: Seq<u8>) -> Result<Event, SyncError> {
    if bytes.len() < 5 {
        Err(SyncError::Decode(DecodeError::Truncated))
    } else {
        let uid = Uid(from_le32(bytes, 1));
        if bytes[0] == 0 {
            if bytes.len() < 6 {
                Err(SyncError::Decode(DecodeError::Truncated))
            } else {
                match parse_records(registry, bytes.skip(6), bytes[5] as nat) {
                    Err(e) => Err(e),
                    Ok(components) => Ok(Event::Inserted(uid, entity_of(components))),
                }
            }
        } else if bytes[0] == 1 {
            match parse_records(registry, bytes.skip(5), 1) {
                Err(e) => Err(e),
                Ok(components) => Ok(Event::Modified(uid, components[0])),
            }
        } else if bytes[0] == 2 {
            if bytes.len() > 5 {
                Err(SyncError::Decode(DecodeError::TrailingBytes))
            } else {
                Ok(Event::Removed(uid))
            }
        } else {
            Err(SyncError::Decode(DecodeError::InvalidVariant))
        }
    }
}

/// The tag and the payload of what a client sends.
pub open spec fn to_server_payload(message: ClientToServerMessage) -> (u8, Seq<u8>) {
    match message {
        ClientToServerMessage::Message(ClientMessage::ConnectionRequest) => (
            TAG_CLIENT_MESSAGE,
            seq![0u8],
        ),
        ClientToServerMessage::Message(ClientMessage::Disconnect) => (TAG_CLIENT_MESSAGE, seq![1u8]),
        ClientToServerMessage::Command(frame, command) => (
            TAG_COMMAND,
            le32(frame) + seq![command_byte(command)],
        ),
    }
}

/// What a client has sent, read from the tag and the payload.
pub open spec fn parse_to_server(tag: u8, payload: Seq<u8>) -> Result<
    ClientToServerMessage,
    SyncError,
> {
    if tag == TAG_CLIENT_MESSAGE {
        if payload.len() < 1 {
            Err(SyncError::Decode(DecodeError::Truncated))
        } else if payload.len() > 1 {
            Err(SyncError::Decode(DecodeError::TrailingBytes))
        } else if payload[0] == 0 {
            Ok(ClientToServerMessage::Message(ClientMessage::ConnectionRequest))
        } else if payload[0] == 1 {
            Ok(ClientToServerMessage::Message(ClientMessage::Disconnect))
        } else {
            Err(SyncError::Decode(DecodeError::InvalidVariant))
        }
    } else if tag == TAG_COMMAND {
        if payload.len() < 5 {
            Err(SyncError::Decode(DecodeError::Truncated))
        } else if payload.len() > 5 {
            Err(SyncError::Decode(DecodeError::TrailingBytes))
        } else {
            match byte_command(payload[4]) {
                Some(command) => Ok(ClientToServerMessage::Command(from_le32(payload, 0), command)),
                None => Err(SyncError::Decode(DecodeError::InvalidVariant)),
            }
        }
    } else {
        Err(SyncError::UnregisteredComponent(UnregisteredComponentError { tag }))
    }
}

/// The tag and the payload of what the server sends.
pub open spec fn to_client_payload(message: ServerToClientMessage) -> (u8, Seq<u8>) {
    match message {
        ServerToClientMessage::Message(ServerMessage::ConnectionAccepted(client_id)) => (
            TAG_SERVER_MESSAGE,
            seq![0u8] + le16(client_id),
        ),
        ServerToClientMessage::Event(frame, event) => (TAG_EVENT, le32(frame) + event_bytes(event)),
    }
}

/// What the server has sent, read from the tag and the payload.
pub open spec fn parse_to_client(registry: ComponentRegistry, tag: u8, payload: Seq<u8>) -> Result<
    ServerToClientMessage,
    SyncError,
> {
    if tag == TAG_SERVER_MESSAGE {
        if payload.len() < 3 {
            Err(SyncError::Decode(DecodeError::Truncated))
        } else if payload.len() > 3 {
            Err(SyncError::Decode(DecodeError::TrailingBytes))
        } else if payload[0] == 0 {
            Ok(
                ServerToClientMessage::Message(
                    ServerMessage::ConnectionAccepted(from_le16(payload[1], payload[2])),
                ),
            )
        } else {
            Err(SyncError::Decode(DecodeError::InvalidVariant))
        }
    } else if tag == TAG_EVENT {
        if payload.len() < 4 {
            Err(SyncError::Decode(DecodeError::Truncated))
        } else {
            match parse_event(registry, payload.skip(4)) {
                Err(e) => Err(e),
                Ok(event) => Ok(ServerToClientMessage::Event(from_le32(payload, 0), event)),
            }
        }
    } else {
        Err(SyncError::UnregisteredComponent(UnregisteredComponentError { tag }))
    }
}

/// What a client has sent, read from an envelope.
pub open spec fn decoded_to_server(bytes: Seq<u8>) -> Result<ClientToServerMessage, SyncError> {
    match opened(bytes) {
        Err(e) => Err(SyncError::Decode(e)),
        Ok((tag, payload)) => parse_to_server(tag, payload),
    }
}

/// What the server has sent, read from an envelope.
pub open spec fn decoded_to_client(registry: ComponentRegistry, bytes: Seq<u8>) -> Result<
    ServerToClientMessage,
    SyncError,
> {
    match opened(bytes) {
        Err(e) => Err(SyncError::Decode(e)),
        Ok((tag, payload)) => parse_to_client(registry, tag, payload),
    }
}

/// Whether every type among `components` is registered.
pub open spec fn all_registered(registry: ComponentRegistry, components: Seq<Component>) -> bool {
    forall|i: int| 0 <= i < components.len() ==> registry.has((#[trigger] components[i]).kind())
}

/// Whether an event carries components of registered types only.
pub open spec fn carries_registered(registry: ComponentRegistry, event: Event) -> bool {
    match event {
        Event::Inserted(_, entity) => all_registered(registry, components_of(entity)),
        Event::Modified(_, component) => registry.has(component.kind()),
        Event::Removed(_) => true,
    }
}

/// A record of a registered type reads back as its component.
pub proof fn lemma_record_reads_back(registry: ComponentRegistry, component: Component, rest: Seq<u8>)
    requires
        registry.has(component.kind()),
    ensures
        ({
            let bytes = record_bytes(component) + rest;
            &&& bytes.len() >= 2 + bytes[1]
            &&& parse_record(registry, bytes[0], bytes.subrange(2, 2 + bytes[1])) == Ok::<
                Component,
                SyncError,
            >(component)
            &&& bytes.skip(2 + bytes[1]) == rest
        }),
{
    lemma_payload_round_trip(component);
    let bytes = record_bytes(component) + rest;
    let payload = component_payload(component);
    assert(bytes[1] == payload.len());
    assert(bytes.subrange(2, 2 + bytes[1]) =~= payload);
    assert(bytes.skip(2 + bytes[1]) =~= rest);
}

/// Records of registered types read back as their components.
pub proof fn lemma_records_read_back(registry: ComponentRegistry, components: Seq<Component>)
    requires
        all_registered(registry, components),
    ensures
        parse_records(registry, records_bytes(components), components.len()) == Ok::<
            Seq<Component>,
            SyncError,
        >(components),
    decreases components.len(),
{
    if components.len() > 0 {
        let first = components.first();
        let others = components.drop_first();
        assert(registry.has(components[0].kind()));
        assert forall|i: int| 0 <= i < others.len() implies registry.has(
            (#[trigger] others[i]).kind(),
        ) by {
            assert(others[i] == components[i + 1]);
        }
        lemma_records_read_back(registry, others);
        lemma_record_reads_back(registry, first, records_bytes(others));
        assert(seq![first] + others =~= components);
        let bytes = records_bytes(components);
        assert(bytes == record_bytes(first) + records_bytes(others));
        assert(bytes.len() >= 2);
        assert(parse_records(registry, bytes.skip(2 + bytes[1]), (components.len() - 1) as nat)
            == Ok::<Seq<Component>, SyncError>(others));
    } else {
        assert(components =~= Seq::<Component>::empty());
    }
}

/// An entity is the entity of its components.
pub proof fn lemma_entity_round_trip(entity: Entity)
    ensures
        entity_of(components_of(entity)) == entity,
        components_of(entity).len() <= 3,
{
    let components = components_of(entity);
    reveal_with_fuel(entity_of, 4);
    if components.len() == 1 {
        assert(components.drop_last() =~= Seq::<Component>::empty());
    } else if components.len() == 2 {
        assert(components.drop_last() =~= seq![components[0]]);
        assert(components.drop_last().drop_last() =~= Seq::<Component>::empty());
    } else if components.len() == 3 {
        assert(components.drop_last() =~= seq![components[0], components[1]]);
        assert(components.drop_last().drop_last() =~= seq![components[0]]);
        assert(components.drop_last().drop_last().drop_last() =~= Seq::<Component>::empty());
    }
}

/// An event that carries registered types reads back as itself.
pub proof fn lemma_event_round_trip(registry: ComponentRegistry, event: Event)
    requires
        carries_registered(registry, event),
    ensures
        parse_event(registry, event_bytes(event)) == Ok::<Event, SyncError>(event),
{
    let bytes = event_bytes(event);
    lemma_le32_round_trip(event.uid().0);
    assert(from_le32(bytes, 1) == from_le32(le32(event.uid().0), 0));
    match event {
        Event::Inserted(uid, entity) => {
            lemma_entity_round_trip(entity);
            lemma_records_read_back(registry, components_of(entity));
            assert(bytes.skip(6) =~= records_bytes(components_of(entity)));
        },
        Event::Modified(uid, component) => {
            let components = seq![component];
            assert(components.drop_first() =~= Seq::<Component>::empty());
            assert(records_bytes(components) =~= record_bytes(component)) by {
                reveal_with_fuel(records_bytes, 2);
            }
            lemma_records_read_back(registry, components);
            assert(bytes.skip(5) =~= record_bytes(component));
        },
        Event::Removed(uid) => {},
    }
}

/// What a client sends reads back as itself.
pub proof fn lemma_to_server_round_trip(message: ClientToServerMessage)
    ensures
        parse_to_server(to_server_payload(message).0, to_server_payload(message).1) == Ok::<
            ClientToServerMessage,
            SyncError,
        >(message),
{
    match message {
        ClientToServerMessage::Command(frame, command) => {
            lemma_le32_round_trip(frame);
            let payload = to_server_payload(message).1;
            assert(from_le32(payload, 0) == from_le32(le32(frame), 0));
        },
        _ => {},
    }
}

/// What the server sends reads back as itself, where it carries
/// registered types.
pub proof fn lemma_to_client_round_trip(registry: ComponentRegistry, message: ServerToClientMessage)
    requires
        message matches ServerToClientMessage::Event(_, event) ==> carries_registered(
            registry,
            event,
        ),
    ensures
        parse_to_client(registry, to_client_payload(message).0, to_client_payload(message).1)
            == Ok::<ServerToClientMessage, SyncError>(message),
{
    match message {
        ServerToClientMessage::Event(frame, event) => {
            lemma_le32_round_trip(frame);
            lemma_event_round_trip(registry, event);
            let payload = to_client_payload(message).1;
            assert(from_le32(payload, 0) == from_le32(le32(frame), 0));
            assert(payload.skip(4) =~= event_bytes(event));
        },
        ServerToClientMessage::Message(ServerMessage::ConnectionAccepted(client_id)) => {
            crate::codec::lemma_le16_round_trip(client_id);
        },
    }
}

fn push_record(bytes: &mut Vec<u8>, component: &Component)
    ensures
        final(bytes)@ == old(bytes)@ + record_bytes(*component),
{
    let mut payload = serialize_component(component);
    proof {
        lemma_payload_round_trip(*component);
    }
    bytes.push(component.kind().tag());
    bytes.push(payload.len() as u8);
    bytes.append(&mut payload);
    assert(bytes@ =~= old(bytes)@ + record_bytes(*component));
}

/// Serialises an event.
pub fn serialize_event(event: &Event) -> (r: Vec<u8>)
    ensures
        r@ == event_bytes(*event),
{
    let mut bytes: Vec<u8> = Vec::new();
    match event {
        Event::Inserted(uid, entity) => {
            bytes.push(0);
            push_le32(&mut bytes, uid.0);
            let mut count: u8 = 0;
            if entity.position.is_some() {
                count = count + 1;
            }
            if entity.player_type.is_some() {
                count = count + 1;
            }
            if entity.player_info.is_some() {
                count = count + 1;
            }
            bytes.push(count);
            let ghost head = bytes@;
            let ghost mut written: Seq<Component> = Seq::empty();
            proof {
                assert(head + records_bytes(written) =~= head);
            }
            match entity.position {
                Some(position) => {
                    let component = Component::Position(position);
                    push_record(&mut bytes, &component);
                    proof {
                        lemma_records_push(written, component);
                        written = written.push(component);
                        assert(bytes@ =~= head + records_bytes(written));
                    }
                },
                None => {},
            }
            match entity.player_type {
                Some(player_type) => {
                    let component = Component::PlayerType(player_type);
                    push_record(&mut bytes, &component);
                    proof {
                        lemma_records_push(written, component);
                        written = written.push(component);
                        assert(bytes@ =~= head + records_bytes(written));
                    }
                },
                None => {},
            }
            match entity.player_info {
                Some(player_info) => {
                    let component = Component::PlayerInfo(player_info);
                    push_record(&mut bytes, &component);
                    proof {
                        lemma_records_push(written, component);
                        written = written.push(component);
                        assert(bytes@ =~= head + records_bytes(written));
                    }
                },
                None => {},
            }
            proof {
                assert(written =~= components_of(*entity));
                assert(bytes@ =~= event_bytes(*event));
            }
        },
        Event::Modified(uid, component) => {
            bytes.push(1);
            push_le32(&mut bytes, uid.0);
            push_record(&mut bytes, component);
            assert(bytes@ =~= event_bytes(*event));
        },
        Event::Removed(uid) => {
            bytes.push(2);
            push_le32(&mut bytes, uid.0);
            assert(bytes@ =~= event_bytes(*event));
        },
    }
    bytes
}

/// The bytes of a run of records with one more record at its end.
proof fn lemma_records_push(components: Seq<Component>, component: Component)
    ensures
        records_bytes(components.push(component)) == records_bytes(components) + record_bytes(
            component,
        ),
    decreases components.len(),
{
    let grown = components.push(component);
    if components.len() == 0 {
        assert(grown.drop_first() =~= Seq::<Component>::empty());
        assert(records_bytes(grown) =~= record_bytes(component)) by {
            reveal_with_fuel(records_bytes, 2);
        }
        assert(records_bytes(components) + record_bytes(component) =~= record_bytes(component));
    } else {
        lemma_records_push(components.drop_first(), component);
        assert(grown.drop_first() =~= components.drop_first().push(component));
        assert(grown.first() == components.first());
        assert(records_bytes(grown) =~= records_bytes(components) + record_bytes(component));
    }
}

/// Reads `count` records from `bytes` into an entity.
fn read_records(registry: &ComponentRegistry, bytes: &[u8], count: u8) -> (r: Result<Entity, SyncError>)
    ensures
        match parse_records(*registry, bytes@, count as nat) {
            Ok(components) => r == Ok::<Entity, SyncError>(entity_of(components)),
            Err(e) => r == Err::<Entity, SyncError>(e),
        },
{
    let mut entity = Entity { position: None, player_type: None, player_info: None };
    let ghost mut read: Seq<Component> = Seq::empty();
    let mut at: usize = 0;
    let mut i: u8 = 0;
    proof {
        assert(bytes@.skip(0) =~= bytes@);
    }
    while i < count
        invariant
            i <= count,
            at <= bytes@.len(),
            entity == entity_of(read),
            parse_records(*registry, bytes@, count as nat) == match parse_records(
                *registry,
                bytes@.skip(at as int),
                (count - i) as nat,
            ) {
                Ok(rest) => Ok::<Seq<Component>, SyncError>(read + rest),
                Err(e) => Err::<Seq<Component>, SyncError>(e),
            },
        decreases count - i,
    {
        let ghost left = bytes@.skip(at as int);
        if bytes.len() - at < 2 {
            return Err(SyncError::Decode(DecodeError::Truncated));
        }
        let tag = bytes[at];
        let length = bytes[at + 1] as usize;
        if bytes.len() - at < 2 + length {
            return Err(SyncError::Decode(DecodeError::Truncated));
        }
        let payload = slice_subrange(bytes, at + 2, at + 2 + length);
        proof {
            assert(payload@ =~= left.subrange(2, 2 + left[1]));
        }
        let kind = match registry.lookup(tag) {
            Ok(kind) => kind,
            Err(e) => {
                return Err(SyncError::UnregisteredComponent(e));
            },
        };
        let component = match deserialize_component(kind, payload) {
            Ok(component) => component,
            Err(e) => {
                return Err(SyncError::Decode(e));
            },
        };
        set_component(&mut entity, component);
        proof {
            assert(left.skip(2 + left[1]) =~= bytes@.skip(at + 2 + length));
            let rest = parse_records(
                *registry,
                bytes@.skip(at + 2 + length),
                (count - i - 1) as nat,
            );
            if rest is Ok {
                assert(read + (seq![component] + rest->Ok_0) =~= read.push(component) + rest->Ok_0);
            }
            assert(read.push(component).drop_last() =~= read);
            read = read.push(component);
        }
        at = at + 2 + length;
        i = i + 1;
    }
    if at < bytes.len() {
        return Err(SyncError::Decode(DecodeError::TrailingBytes));
    }
    proof {
        assert(read + Seq::<Component>::empty() =~= read);
    }
    Ok(entity)
}

/// Reads the bytes of an event.
pub fn deserialize_event(registry: &ComponentRegistry, bytes: &[u8]) -> (r: Result<Event, SyncError>)
    ensures
        r == parse_event(*registry, bytes@),
{
    if bytes.len() < 5 {
        return Err(SyncError::Decode(DecodeError::Truncated));
    }
    let uid = Uid(read_le32(bytes, 1));
    if bytes[0] == 0 {
        if bytes.len() < 6 {
            return Err(SyncError::Decode(DecodeError::Truncated));
        }
        let body = slice_subrange(bytes, 6, bytes.len());
        proof {
            assert(body@ =~= bytes@.skip(6));
        }
        match read_records(registry, body, bytes[5]) {
            Ok(entity) => Ok(Event::Inserted(uid, entity)),
            Err(e) => Err(e),
        }
    } else if bytes[0] == 1 {
        let body = slice_subrange(bytes, 5, bytes.len());
        proof {
            assert(body@ =~= bytes@.skip(5));
        }
        match read_records(registry, body, 1) {
            Ok(entity) => {
                proof {
                    let components = parse_records(*registry, body@, 1)->Ok_0;
                    lemma_one_record(*registry, body@);
                    assert(components.drop_last() =~= Seq::<Component>::empty());
                    reveal_with_fuel(entity_of, 2);
                }
                let component = match (entity.position, entity.player_type, entity.player_info) {
                    (Some(position), _, _) => Component::Position(position),
                    (_, Some(player_type), _) => Component::PlayerType(player_type),
                    (_, _, Some(player_info)) => Component::PlayerInfo(player_info),
                    _ => {
                        assert(false);
                        return Err(SyncError::Decode(DecodeError::InvalidVariant));
                    },
                };
                Ok(Event::Modified(uid, component))
            },
            Err(e) => Err(e),
        }
    } else if bytes[0] == 2 {
        if bytes.len() > 5 {
            return Err(SyncError::Decode(DecodeError::TrailingBytes));
        }
        Ok(Event::Removed(uid))
    } else {
        Err(SyncError::Decode(DecodeError::InvalidVariant))
    }
}

/// One record parses to one component.
proof fn lemma_one_record(registry: ComponentRegistry, bytes: Seq<u8>)
    requires
        parse_records(registry, bytes, 1) is Ok,
    ensures
        parse_records(registry, bytes, 1)->Ok_0.len() == 1,
{
    reveal_with_fuel(parse_records, 2);
}

/// Encodes what a client sends. What comes back decodes to the message.
pub fn encode_to_server(message: &ClientToServerMessage) -> (r: Vec<u8>)
    ensures
        decoded_to_server(r@) == Ok::<ClientToServerMessage, SyncError>(*message),
{
    let mut payload: Vec<u8> = Vec::new();
    let tag = match message {
        ClientToServerMessage::Message(ClientMessage::ConnectionRequest) => {
            payload.push(0);
            TAG_CLIENT_MESSAGE
        },
        ClientToServerMessage::Message(ClientMessage::Disconnect) => {
            payload.push(1);
            TAG_CLIENT_MESSAGE
        },
        ClientToServerMessage::Command(frame, command) => {
            push_le32(&mut payload, *frame);
            payload.push(
                match command {
                    ClientCommand::MoveUp => 0,
                    ClientCommand::MoveRight => 1,
                    ClientCommand::MoveDown => 2,
                    ClientCommand::MoveLeft => 3,
                },
            );
            TAG_COMMAND
        },
    };
    proof {
        assert(payload@ =~= to_server_payload(*message).1);
        lemma_to_server_round_trip(*message);
    }
    seal(tag, payload.as_slice())
}

/// Decodes what a client has sent.
pub fn decode_to_server(bytes: &[u8]) -> (r: Result<ClientToServerMessage, SyncError>)
    ensures
        r == decoded_to_server(bytes@),
{
    let (tag, payload) = match open(bytes) {
        Ok(parts) => parts,
        Err(e) => {
            return Err(SyncError::Decode(e));
        },
    };
    if tag == TAG_CLIENT_MESSAGE {
        if payload.len() < 1 {
            Err(SyncError::Decode(DecodeError::Truncated))
        } else if payload.len() > 1 {
            Err(SyncError::Decode(DecodeError::TrailingBytes))
        } else if payload[0] == 0 {
            Ok(ClientToServerMessage::Message(ClientMessage::ConnectionRequest))
        } else if payload[0] == 1 {
            Ok(ClientToServerMessage::Message(ClientMessage::Disconnect))
        } else {
            Err(SyncError::Decode(DecodeError::InvalidVariant))
        }
    } else if tag == TAG_COMMAND {
        if payload.len() < 5 {
            Err(SyncError::Decode(DecodeError::Truncated))
        } else if payload.len() > 5 {
            Err(SyncError::Decode(DecodeError::TrailingBytes))
        } else {
            let frame = read_le32(payload.as_slice(), 0);
            let byte = payload[4];
            if byte == 0 {
                Ok(ClientToServerMessage::Command(frame, ClientCommand::MoveUp))
            } else if byte == 1 {
                Ok(ClientToServerMessage::Command(frame, ClientCommand::MoveRight))
            } else if byte == 2 {
                Ok(ClientToServerMessage::Command(frame, ClientCommand::MoveDown))
            } else if byte == 3 {
                Ok(ClientToServerMessage::Command(frame, ClientCommand::MoveLeft))
            } else {
                Err(SyncError::Decode(DecodeError::InvalidVariant))
            }
        }
    } else {
        Err(SyncError::UnregisteredComponent(UnregisteredComponentError { tag }))
    }
}

/// Encodes what the server sends. A message is always encoded, and what
/// comes back decodes to the message, unless it is an event that carries a
/// type that is not registered: that is refused.
pub fn encode_to_client(registry: &ComponentRegistry, message: &ServerToClientMessage) -> (r: Result<
    Vec<u8>,
    UnregisteredComponentError,
>)
    ensures
        r.is_ok() == match *message {
            ServerToClientMessage::Event(_, event) => carries_registered(*registry, event),
            _ => true,
        },
        r.is_ok() ==> decoded_to_client(*registry, r.unwrap()@) == Ok::<
            ServerToClientMessage,
            SyncError,
        >(*message),
{
    let mut payload: Vec<u8> = Vec::new();
    let tag = match message {
        ServerToClientMessage::Message(ServerMessage::ConnectionAccepted(client_id)) => {
            payload.push(0);
            payload.push((*client_id % 256) as u8);
            payload.push((*client_id / 256) as u8);
            TAG_SERVER_MESSAGE
        },
        ServerToClientMessage::Event(frame, event) => {
            match first_unregistered(registry, event) {
                Some(tag) => {
                    return Err(UnregisteredComponentError { tag });
                },
                None => {},
            }
            push_le32(&mut payload, *frame);
            let mut body = serialize_event(event);
            payload.append(&mut body);
            TAG_EVENT
        },
    };
    proof {
        assert(payload@ =~= to_client_payload(*message).1);
        lemma_to_client_round_trip(*registry, *message);
    }
    Ok(seal(tag, payload.as_slice()))
}

/// The tag of the first component of an event whose type is not
/// registered.
fn first_unregistered(registry: &ComponentRegistry, event: &Event) -> (r: Option<u8>)
    ensures
        r.is_none() == carries_registered(*registry, *event),
{
    match event {
        Event::Inserted(_, entity) => {
            let ghost components = components_of(*entity);
            if entity.position.is_some() && !registry.is_registered(
                crate::codec::ComponentKind::Position,
            ) {
                assert(components[0].kind() == crate::codec::ComponentKind::Position);
                return Some(1);
            }
            if entity.player_type.is_some() && !registry.is_registered(
                crate::codec::ComponentKind::PlayerType,
            ) {
                let ghost at = if entity.position.is_some() {
                    1int
                } else {
                    0int
                };
                assert(components[at].kind() == crate::codec::ComponentKind::PlayerType);
                return Some(2);
            }
            if entity.player_info.is_some() && !registry.is_registered(
                crate::codec::ComponentKind::PlayerInfo,
            ) {
                assert(components[components.len() - 1].kind()
                    == crate::codec::ComponentKind::PlayerInfo);
                return Some(3);
            }
            None
        },
        Event::Modified(_, component) => {
            if registry.is_registered(component.kind()) {
                None
            } else {
                Some(component.kind().tag())
            }
        },
        Event::Removed(_) => None,
    }
}

/// Decodes what the server has sent.
pub fn decode_to_client(registry: &ComponentRegistry, bytes: &[u8]) -> (r: Result<
    ServerToClientMessage,
    SyncError,
>)
    ensures
        r == decoded_to_client(*registry, bytes@),
{
    let (tag, payload) = match open(bytes) {
        Ok(parts) => parts,
        Err(e) => {
            return Err(SyncError::Decode(e));
        },
    };
    if tag == TAG_SERVER_MESSAGE {
        if payload.len() < 3 {
            Err(SyncError::Decode(DecodeError::Truncated))
        } else if payload.len() > 3 {
            Err(SyncError::Decode(DecodeError::TrailingBytes))
        } else if payload[0] == 0 {
            Ok(
                ServerToClientMessage::Message(
                    ServerMessage::ConnectionAccepted(payload[1] as u16 + payload[2] as u16 * 256),
                ),
            )
        } else {
            Err(SyncError::Decode(DecodeError::InvalidVariant))
        }
    } else if tag == TAG_EVENT {
        if payload.len() < 4 {
            return Err(SyncError::Decode(DecodeError::Truncated));
        }
        let frame = read_le32(payload.as_slice(), 0);
        let body = slice_subrange(payload.as_slice(), 4, payload.len());
        proof {
            assert(body@ =~= payload@.skip(4));
        }
        match deserialize_event(registry, body) {
            Ok(event) => Ok(ServerToClientMessage::Event(frame, event)),
            Err(e) => Err(e),
        }
    } else {
        Err(SyncError::UnregisteredComponent(UnregisteredComponentError { tag }))
    }
}

} // verus!
