//! The application-level vocabulary that peers exchange: player commands and
//! the handshake messages of either direction.

use vstd::prelude::*;

verus! {

/// Identity that the server assigns to a connected client.
pub type ClientId = u16;

/// Index of a fixed simulation tick.
pub type CommandFrame = u32;

/// A player intent, issued on the client and replayed on the server.
#[derive(Debug, Clone, Copy, Hash, PartialEq, Eq, Structural)]
pub enum ClientCommand {
    MoveUp,
    MoveRight,
    MoveDown,
    MoveLeft,
}

/// Application-level messages that travel from a client to the server.
#[derive(Debug, Clone, Copy, Hash, PartialEq, Eq, Structural)]
pub enum ClientMessage {
    ConnectionRequest,
    Disconnect,
}

/// Application-level messages that travel from the server to a client.
#[derive(Debug, Clone, Copy, Hash, PartialEq, Eq, Structural)]
pub enum ServerMessage {
    ConnectionAccepted(ClientId),
}

} // verus!
