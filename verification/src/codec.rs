//! The serialised form of the components: how a component becomes a tagged
//! record of bytes, and how a record becomes a component again.

use vstd::prelude::*;
use crate::components::{PlayerInfo, PlayerType, Position};
use crate::error::{DecodeError, SyncError, UnregisteredComponentError};

verus! {

/// The component types that can be synchronised.
#[derive(Debug, Clone, Copy, PartialEq, Eq, Structural)]
pub enum ComponentKind {
    Position,
    PlayerType,
    PlayerInfo,
}

impl ComponentKind {
    /// The tag that names this type on the wire.
    pub open spec fn spec_tag(&self) -> u8 {
        match self {
            ComponentKind::Position => 1,
            ComponentKind::PlayerType => 2,
            ComponentKind::PlayerInfo => 3,
        }
    }

    /// The number of bytes that a value of this type serialises to.
    pub open spec fn payload_len(&self) -> nat {
        match self {
            ComponentKind::Position => 4,
            ComponentKind::PlayerType => 2,
            ComponentKind::PlayerInfo => 2,
        }
    }

    /// The type that `tag` names, if any.
    pub open spec fn of_tag(tag: u8) -> Option<ComponentKind> {
        if tag == 1 {
            Some(ComponentKind::Position)
        } else if tag == 2 {
            Some(ComponentKind::PlayerType)
        } else if tag == 3 {
            Some(ComponentKind::PlayerInfo)
        } else {
            None
        }
    }

    #[verifier::when_used_as_spec(spec_tag)]
    pub fn tag(&self) -> (r: u8)
        ensures
            r == self.spec_tag(),
    {
        match self {
            ComponentKind::Position => 1,
            ComponentKind::PlayerType => 2,
            ComponentKind::PlayerInfo => 3,
        }
    }

    pub fn from_tag(tag: u8) -> (r: Option<ComponentKind>)
        ensures
            r == Self::of_tag(tag),
    {
        if tag == 1 {
            Some(ComponentKind::Position)
        } else if tag == 2 {
            Some(ComponentKind::PlayerType)
        } else if tag == 3 {
            Some(ComponentKind::PlayerInfo)
        } else {
            None
        }
    }
}

/// A value of one of the component types.
#[derive(Debug, Clone, Copy, PartialEq, Eq, Structural)]
pub enum Component {
    Position(Position),
    PlayerType(PlayerType),
    PlayerInfo(PlayerInfo),
}

impl Component {
    pub open spec fn spec_kind(&self) -> ComponentKind {
        match self {
            Component::Position(_) => ComponentKind::Position,
            Component::PlayerType(_) => ComponentKind::PlayerType,
            Component::PlayerInfo(_) => ComponentKind::PlayerInfo,
        }
    }

    #[verifier::when_used_as_spec(spec_kind)]
    pub fn kind(&self) -> (r: ComponentKind)
        ensures
            r == self.spec_kind(),
    {
        match self {
            Component::Position(_) => ComponentKind::Position,
            Component::PlayerType(_) => ComponentKind::PlayerType,
            Component::PlayerInfo(_) => ComponentKind::PlayerInfo,
        }
    }
}

/// A serialised component: the tag of its type and the bytes of its value.
#[derive(Debug, PartialEq, Eq)]
pub struct ComponentRecord {
    pub tag: u8,
    pub payload: Vec<u8>,
}

/// The table of component types that both peers have agreed on.
#[derive(Debug, Clone, Copy, PartialEq, Eq)]
pub struct ComponentRegistry {
    position: bool,
    player_type: bool,
    player_info: bool,
}

impl ComponentRegistry {
    /// Whether `kind` has been registered.
    pub closed spec fn has(&self, kind: ComponentKind) -> bool {
        match kind {
            ComponentKind::Position => self.position,
            ComponentKind::PlayerType => self.player_type,
            ComponentKind::PlayerInfo => self.player_info,
        }
    }

    /// The type that `tag` names in this registry.
    pub open spec fn kind_of(&self, tag: u8) -> Result<ComponentKind, UnregisteredComponentError> {
        match ComponentKind::of_tag(tag) {
            Some(kind) => if self.has(kind) {
                Ok(kind)
            } else {
                Err(UnregisteredComponentError { tag })
            },
            None => Err(UnregisteredComponentError { tag }),
        }
    }

    /// The registry that knows no type.
    pub fn new() -> (r: ComponentRegistry)
        ensures
            forall|kind: ComponentKind| !r.has(kind),
    {
        ComponentRegistry { position: false, player_type: false, player_info: false }
    }

    /// The registry that knows every type.
    pub fn standard() -> (r: ComponentRegistry)
        ensures
            forall|kind: ComponentKind| r.has(kind),
    {
        ComponentRegistry { position: true, player_type: true, player_info: true }
    }

    pub fn register(&mut self, kind: ComponentKind)
        ensures
            forall|other: ComponentKind|
                final(self).has(other) == (other == kind || old(self).has(other)),
    {
        match kind {
            ComponentKind::Position => {
                self.position = true;
            },
            ComponentKind::PlayerType => {
                self.player_type = true;
            },
            ComponentKind::PlayerInfo => {
                self.player_info = true;
            },
        }
    }

    pub fn is_registered(&self, kind: ComponentKind) -> (r: bool)
        ensures
            r == self.has(kind),
    {
        match kind {
            ComponentKind::Position => self.position,
            ComponentKind::PlayerType => self.player_type,
            ComponentKind::PlayerInfo => self.player_info,
        }
    }

    /// Finds the type that `tag` names.
    pub fn lookup(&self, tag: u8) -> (r: Result<ComponentKind, UnregisteredComponentError>)
        ensures
            r == self.kind_of(tag),
    {
        match ComponentKind::from_tag(tag) {
            Some(kind) => {
                if self.is_registered(kind) {
                    Ok(kind)
                } else {
                    Err(UnregisteredComponentError { tag })
                }
            },
            None => Err(UnregisteredComponentError { tag }),
        }
    }
}

/// The two bytes of `value`, low byte first.
pub open spec fn le16(value: u16) -> Seq<u8> {
    seq![(value % 256) as u8, (value / 256) as u8]
}

/// The number whose low byte is `low` and whose high byte is `high`.
pub open spec fn from_le16(low: u8, high: u8) -> u16 {
    (low + high * 256) as u16
}

/// The bytes that a component serialises to.
pub open spec fn component_payload(component: Component) -> Seq<u8> {
    match component {
        Component::Position(position) => le16(position.x) + le16(position.y),
        Component::PlayerType(player_type) => le16(player_type.player_type),
        Component::PlayerInfo(player_info) => le16(player_info.client_id()),
    }
}

/// The component of type `kind` that `bytes` hold.
pub open spec fn parse_payload(kind: ComponentKind, bytes: Seq<u8>) -> Result<
    Component,
    DecodeError,
> {
    if bytes.len() < kind.payload_len() {
        Err(DecodeError::Truncated)
    } else if bytes.len() > kind.payload_len() {
        Err(DecodeError::TrailingBytes)
    } else {
        Ok(
            match kind {
                ComponentKind::Position => Component::Position(
                    Position { x: from_le16(bytes[0], bytes[1]), y: from_le16(bytes[2], bytes[3]) },
                ),
                ComponentKind::PlayerType => Component::PlayerType(
                    PlayerType { player_type: from_le16(bytes[0], bytes[1]) },
                ),
                ComponentKind::PlayerInfo => Component::PlayerInfo(
                    PlayerInfo::of_client(from_le16(bytes[0], bytes[1])),
                ),
            },
        )
    }
}

/// The component that a record holds, as a peer with the types `registry`
/// reads it.
pub open spec fn parse_record(registry: ComponentRegistry, tag: u8, payload: Seq<u8>) -> Result<
    Component,
    SyncError,
> {
    match registry.kind_of(tag) {
        Err(e) => Err(SyncError::UnregisteredComponent(e)),
        Ok(kind) => match parse_payload(kind, payload) {
            Err(e) => Err(SyncError::Decode(e)),
            Ok(component) => Ok(component),
        },
    }
}

fn push_le16(bytes: &mut Vec<u8>, value: u16)
    ensures
        final(bytes)@ == old(bytes)@ + le16(value),
{
    bytes.push((value % 256) as u8);
    bytes.push((value / 256) as u8);
    assert(bytes@ =~= old(bytes)@ + le16(value));
}

fn read_le16(bytes: &[u8], at: usize) -> (r: u16)
    requires
        at + 2 <= bytes@.len(),
    ensures
        r == from_le16(bytes@[at as int], bytes@[at + 1]),
{
    bytes[at] as u16 + bytes[at + 1] as u16 * 256
}

/// Serialises a component.
pub fn serialize_component(component: &Component) -> (r: Vec<u8>)
    ensures
        r@ == component_payload(*component),
{
    let mut bytes: Vec<u8> = Vec::new();
    match component {
        Component::Position(position) => {
            push_le16(&mut bytes, position.x);
            push_le16(&mut bytes, position.y);
        },
        Component::PlayerType(player_type) => {
            push_le16(&mut bytes, player_type.player_type);
        },
        Component::PlayerInfo(player_info) => {
            push_le16(&mut bytes, player_info.client_id());
        },
    }
    assert(bytes@ =~= component_payload(*component));
    bytes
}

/// Reads the bytes of a component of type `kind`.
pub fn deserialize_component(kind: ComponentKind, bytes: &[u8]) -> (r: Result<
    Component,
    DecodeError,
>)
    ensures
        r == parse_payload(kind, bytes@),
{
    let expected: usize = match kind {
        ComponentKind::Position => 4,
        ComponentKind::PlayerType => 2,
        ComponentKind::PlayerInfo => 2,
    };
    if bytes.len() < expected {
        return Err(DecodeError::Truncated);
    }
    if bytes.len() > expected {
        return Err(DecodeError::TrailingBytes);
    }
    match kind {
        ComponentKind::Position => Ok(
            Component::Position(Position { x: read_le16(bytes, 0), y: read_le16(bytes, 2) }),
        ),
        ComponentKind::PlayerType => Ok(
            Component::PlayerType(PlayerType { player_type: read_le16(bytes, 0) }),
        ),
        ComponentKind::PlayerInfo => {
            Ok(Component::PlayerInfo(PlayerInfo::new(read_le16(bytes, 0))))
        },
    }
}

/// Splitting a number into two bytes and joining them gives the number.
pub proof fn lemma_le16_round_trip(value: u16)
    ensures
        le16(value).len() == 2,
        from_le16(le16(value)[0], le16(value)[1]) == value,
{
}

/// What was serialised reads back as the same component.
pub proof fn lemma_payload_round_trip(component: Component)
    ensures
        component_payload(component).len() == component.kind().payload_len(),
        parse_payload(component.kind(), component_payload(component)) == Ok::<
            Component,
            DecodeError,
        >(component),
{
    match component {
        Component::Position(position) => {
            lemma_le16_round_trip(position.x);
            lemma_le16_round_trip(position.y);
        },
        Component::PlayerType(player_type) => {
            lemma_le16_round_trip(player_type.player_type);
        },
        Component::PlayerInfo(player_info) => {
            lemma_le16_round_trip(player_info.client_id());
            PlayerInfo::lemma_of_client(player_info);
        },
    }
}

/// Puts a component into its record.
pub fn encode_component(component: &Component) -> (r: ComponentRecord)
    ensures
        r.tag == component.kind().tag(),
        r.payload@ == component_payload(*component),
{
    ComponentRecord { tag: component.kind().tag(), payload: serialize_component(component) }
}

/// Reads the component out of a record. The tag has to name a registered
/// type, and the payload has to hold a value of it.
pub fn decode_component(registry: &ComponentRegistry, record: &ComponentRecord) -> (r: Result<
    Component,
    SyncError,
>)
    ensures
        r == parse_record(*registry, record.tag, record.payload@),
{
    match registry.lookup(record.tag) {
        Err(e) => Err(SyncError::UnregisteredComponent(e)),
        Ok(kind) => match deserialize_component(kind, record.payload.as_slice()) {
            Err(e) => Err(SyncError::Decode(e)),
            Ok(component) => Ok(component),
        },
    }
}

/// For every component of a registered type, decoding the record that
/// encoding made gives the component back.
pub proof fn lemma_record_round_trip(registry: ComponentRegistry, component: Component)
    requires
        registry.has(component.kind()),
    ensures
        parse_record(registry, component.kind().tag(), component_payload(component)) == Ok::<
            Component,
            SyncError,
        >(component),
{
    lemma_payload_round_trip(component);
}

} // verus!
