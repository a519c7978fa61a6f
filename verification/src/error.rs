//! What can go wrong in a synchronisation pass.

use vstd::prelude::*;
use crate::message::ClientId;
use crate::uid::IdentityError;

verus! {

/// Bytes that do not hold what they should. The message is dropped; the
/// pass goes on.
#[derive(Debug, Clone, Copy, PartialEq, Eq, Structural)]
pub enum DecodeError {
    /// The bytes end before the value does.
    Truncated,
    /// Bytes are left over behind the value.
    TrailingBytes,
    /// A byte that selects a variant has no variant to select.
    InvalidVariant,
    /// The compressed payload does not decompress.
    Corrupt,
    /// The compressed payload is longer than a peer accepts.
    TooLong,
}

/// A component type that the registry does not know. The two peers
/// disagree on the schema: a fault of the setup, not of one message.
#[derive(Debug, Clone, Copy, PartialEq, Eq, Structural)]
pub struct UnregisteredComponentError {
    pub tag: u8,
}

/// A peer that is no longer connected.
#[derive(Debug, Clone, Copy, PartialEq, Eq, Structural)]
pub struct ChannelClosedError {
    pub client_id: ClientId,
}

/// Any fault of a synchronisation pass.
#[derive(Debug, Clone, Copy, PartialEq, Eq, Structural)]
pub enum SyncError {
    Identity(IdentityError),
    Decode(DecodeError),
    UnregisteredComponent(UnregisteredComponentError),
    ChannelClosed(ChannelClosedError),
}

impl SyncError {
    /// Whether the pass may go on after dropping the message at fault. A
    /// schema mismatch and an exhausted allocator are not of that kind.
    pub open spec fn is_recoverable(self) -> bool {
        match self {
            SyncError::Identity(IdentityError::NotFound) => true,
            SyncError::Identity(_) => false,
            SyncError::Decode(_) => true,
            SyncError::UnregisteredComponent(_) => false,
            SyncError::ChannelClosed(_) => true,
        }
    }

    pub fn recoverable(&self) -> (r: bool)
        ensures
            r == self.is_recoverable(),
    {
        match self {
            SyncError::Identity(IdentityError::NotFound) => true,
            SyncError::Identity(_) => false,
            SyncError::Decode(_) => true,
            SyncError::UnregisteredComponent(_) => false,
            SyncError::ChannelClosed(_) => true,
        }
    }
}

} // verus!
