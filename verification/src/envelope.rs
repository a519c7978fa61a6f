//! The envelope in which a value travels: the tag of its type, then its
//! serialised form, packed.

use vstd::prelude::*;
use vstd::slice::slice_subrange;
use crate::codec::{
    component_payload, deserialize_component, lemma_payload_round_trip, parse_payload,
    serialize_component, Component, ComponentRegistry,
};
use crate::compression::{lemma_packed_unpacks, pack, pack_with, packed, unpack, unpacked};
use crate::error::{DecodeError, SyncError, UnregisteredComponentError};

verus! {

/// The tag and the payload that an envelope holds.
pub open spec fn opened(bytes: Seq<u8>) -> Result<(u8, Seq<u8>), DecodeError> {
    if bytes.len() == 0 {
        Err(DecodeError::Truncated)
    } else {
        match unpacked(bytes.skip(1)) {
            Ok(payload) => Ok((bytes[0], payload)),
            Err(e) => Err(e),
        }
    }
}

/// An envelope opens to the tag and to the payload that it was made of.
pub proof fn lemma_sealed_opens(tag: u8, payload: Seq<u8>, body: Seq<u8>)
    requires
        unpacked(body) == Ok::<Seq<u8>, DecodeError>(payload),
    ensures
        opened(seq![tag] + body) == Ok::<(u8, Seq<u8>), DecodeError>((tag, payload)),
{
    assert((seq![tag] + body).skip(1) =~= body);
}

/// Makes the envelope of `payload` under `tag`, given what the compressor
/// made of `payload`.
pub fn seal_with(tag: u8, payload: &[u8], candidate: Vec<u8>) -> (r: Vec<u8>)
    ensures
        r@ == seq![tag] + packed(payload@, candidate@),
        opened(r@) == Ok::<(u8, Seq<u8>), DecodeError>((tag, payload@)),
{
    let mut bytes: Vec<u8> = Vec::new();
    bytes.push(tag);
    let mut body = pack_with(payload, candidate);
    proof {
        lemma_packed_unpacks(payload@, candidate@);
        lemma_sealed_opens(tag, payload@, body@);
    }
    bytes.append(&mut body);
    assert(bytes@ =~= seq![tag] + packed(payload@, candidate@));
    bytes
}

/// Puts `payload` into an envelope under `tag`. The envelope opens to the
/// two.
pub fn seal(tag: u8, payload: &[u8]) -> (r: Vec<u8>)
    ensures
        opened(r@) == Ok::<(u8, Seq<u8>), DecodeError>((tag, payload@)),
        r@.len() > 0 && r@[0] == tag,
{
    let mut bytes: Vec<u8> = Vec::new();
    bytes.push(tag);
    let mut body = pack(payload);
    proof {
        lemma_sealed_opens(tag, payload@, body@);
        assert(seq![tag] + body@ =~= bytes@ + body@);
    }
    bytes.append(&mut body);
    bytes
}

/// Takes the tag and the payload out of an envelope.
pub fn open(bytes: &[u8]) -> (r: Result<(u8, Vec<u8>), DecodeError>)
    ensures
        match r {
            Ok((tag, payload)) => opened(bytes@) == Ok::<(u8, Seq<u8>), DecodeError>(
                (tag, payload@),
            ),
            Err(e) => opened(bytes@) == Err::<(u8, Seq<u8>), DecodeError>(e),
        },
{
    if bytes.len() == 0 {
        return Err(DecodeError::Truncated);
    }
    let body = slice_subrange(bytes, 1, bytes.len());
    proof {
        assert(body@ =~= bytes@.skip(1));
    }
    match unpack(body) {
        Ok(payload) => Ok((bytes[0], payload)),
        Err(e) => Err(e),
    }
}

/// The component that the envelope `bytes` holds, as a peer with the types
/// `registry` reads it.
pub open spec fn decoded(registry: ComponentRegistry, bytes: Seq<u8>) -> Result<Component, SyncError> {
    if bytes.len() == 0 {
        Err(SyncError::Decode(DecodeError::Truncated))
    } else {
        match registry.kind_of(bytes[0]) {
            Err(e) => Err(SyncError::UnregisteredComponent(e)),
            Ok(kind) => match unpacked(bytes.skip(1)) {
                Err(e) => Err(SyncError::Decode(e)),
                Ok(payload) => match parse_payload(kind, payload) {
                    Err(e) => Err(SyncError::Decode(e)),
                    Ok(component) => Ok(component),
                },
            },
        }
    }
}

/// Encodes a component: serialises it, packs the bytes and puts the tag of
/// its type in front. A component of a registered type is always encoded,
/// and what comes back decodes to the component; a type that is not
/// registered is refused.
pub fn encode(registry: &ComponentRegistry, component: &Component) -> (r: Result<
    Vec<u8>,
    UnregisteredComponentError,
>)
    ensures
        r.is_ok() == registry.has(component.kind()),
        r.is_err() ==> r == Err::<Vec<u8>, UnregisteredComponentError>(
            UnregisteredComponentError { tag: component.kind().tag() },
        ),
        r.is_ok() ==> decoded(*registry, r.unwrap()@) == Ok::<Component, SyncError>(*component),
{
    let kind = component.kind();
    if !registry.is_registered(kind) {
        return Err(UnregisteredComponentError { tag: kind.tag() });
    }
    let payload = serialize_component(component);
    proof {
        lemma_payload_round_trip(*component);
    }
    Ok(seal(kind.tag(), payload.as_slice()))
}

/// Decodes a component.
pub fn decode(registry: &ComponentRegistry, bytes: &[u8]) -> (r: Result<Component, SyncError>)
    ensures
        r == decoded(*registry, bytes@),
{
    if bytes.len() == 0 {
        return Err(SyncError::Decode(DecodeError::Truncated));
    }
    let kind = match registry.lookup(bytes[0]) {
        Ok(kind) => kind,
        Err(e) => {
            return Err(SyncError::UnregisteredComponent(e));
        },
    };
    let body = slice_subrange(bytes, 1, bytes.len());
    proof {
        assert(body@ =~= bytes@.skip(1));
    }
    let payload = match unpack(body) {
        Ok(payload) => payload,
        Err(e) => {
            return Err(SyncError::Decode(e));
        },
    };
    match deserialize_component(kind, payload.as_slice()) {
        Ok(component) => Ok(component),
        Err(e) => Err(SyncError::Decode(e)),
    }
}

/// The round trip of the codec: a component of a registered type decodes
/// from its envelope, whatever the compressor made of its bytes.
pub proof fn lemma_round_trip(registry: ComponentRegistry, component: Component, candidate: Seq<u8>)
    requires
        registry.has(component.kind()),
    ensures
        decoded(
            registry,
            seq![component.kind().tag()] + packed(component_payload(component), candidate),
        ) == Ok::<Component, SyncError>(component),
{
    lemma_payload_round_trip(component);
    lemma_packed_unpacks(component_payload(component), candidate);
    let body = packed(component_payload(component), candidate);
    assert((seq![component.kind().tag()] + body).skip(1) =~= body);
}

} // verus!
