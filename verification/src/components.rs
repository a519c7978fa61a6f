//! The synchronised components of a simulated entity.

use vstd::prelude::*;
use crate::message::ClientId;

verus! {

/// Where an entity stands on the playing field.
#[derive(Debug, Clone, Copy, PartialEq, Eq, Structural)]
pub struct Position {
    pub x: u16,
    pub y: u16,
}

impl Position {
    pub fn new(x: u16, y: u16) -> (r: Self)
        ensures
            r.x == x,
            r.y == y,
    {
        Position { x, y }
    }

    pub fn set(&mut self, pos: (u16, u16))
        ensures
            final(self).x == pos.0,
            final(self).y == pos.1,
    {
        self.x = pos.0;
        self.y = pos.1;
    }
}

impl Default for Position {
    fn default() -> (r: Self)
        ensures
            r.x == 0,
            r.y == 0,
    {
        Position { x: 0, y: 0 }
    }
}

/// The two kinds of entity that take part in the simulation.
#[derive(Debug, Clone, Copy, PartialEq, Eq, Structural)]
pub enum PlayerTypeOp {
    Enemy,
    Player,
}

impl PlayerTypeOp {
    /// The number that stands for this kind inside a `PlayerType`.
    pub open spec fn code(self) -> u16 {
        match self {
            PlayerTypeOp::Enemy => 1,
            PlayerTypeOp::Player => 2,
        }
    }
}

/// The kind of an entity, kept as the number that goes over the wire.
#[derive(Debug, Clone, Copy, PartialEq, Eq, Structural)]
pub struct PlayerType {
    pub player_type: u16,
}

impl PlayerType {
    /// Whether the stored number stands for one of the known kinds.
    pub open spec fn is_supported(self) -> bool {
        self.player_type == 1 || self.player_type == 2
    }

    pub fn new(player_type: PlayerTypeOp) -> (r: PlayerType)
        ensures
            r.player_type == player_type.code(),
            r.is_supported(),
    {
        match player_type {
            PlayerTypeOp::Enemy => PlayerType { player_type: 1 },
            PlayerTypeOp::Player => PlayerType { player_type: 2 },
        }
    }

    pub fn player_type(&self) -> (r: PlayerTypeOp)
        requires
            self.is_supported(),
        ensures
            r.code() == self.player_type,
    {
        if self.player_type == 1 {
            PlayerTypeOp::Enemy
        } else {
            PlayerTypeOp::Player
        }
    }

    /// As `player_type`, for a number that may stand for no kind at all.
    pub fn checked_player_type(&self) -> (r: Option<PlayerTypeOp>)
        ensures
            r.is_some() == self.is_supported(),
            r.is_some() ==> r.unwrap().code() == self.player_type,
    {
        if self.player_type == 1 {
            Some(PlayerTypeOp::Enemy)
        } else if self.player_type == 2 {
            Some(PlayerTypeOp::Player)
        } else {
            None
        }
    }
}

impl Default for PlayerType {
    fn default() -> (r: Self)
        ensures
            r.player_type == 1,
    {
        PlayerType { player_type: 1 }
    }
}

/// The client that steers an entity.
#[derive(Debug, Clone, Copy, PartialEq, Eq, Structural)]
pub struct PlayerInfo {
    client_id: ClientId,
}

impl PlayerInfo {
    pub closed spec fn spec_client_id(&self) -> ClientId {
        self.client_id
    }

    /// The value that names `client_id`.
    pub closed spec fn of_client(client_id: ClientId) -> PlayerInfo {
        PlayerInfo { client_id }
    }

    /// A value holds its client and nothing else.
    pub broadcast proof fn lemma_of_client(info: PlayerInfo)
        ensures
            #[trigger] PlayerInfo::of_client(info.client_id()) == info,
    {
    }

    /// The value that names a client is the value of that client.
    pub broadcast proof fn lemma_client_of(client_id: ClientId)
        ensures
            #[trigger] PlayerInfo::of_client(client_id).client_id() == client_id,
    {
    }

    pub fn new(client_id: ClientId) -> (r: PlayerInfo)
        ensures
            r == PlayerInfo::of_client(client_id),
            r.spec_client_id() == client_id,
    {
        PlayerInfo { client_id }
    }

    #[verifier::when_used_as_spec(spec_client_id)]
    pub fn client_id(&self) -> (r: ClientId)
        ensures
            r == self.spec_client_id(),
    {
        self.client_id
    }
}

impl Default for PlayerInfo {
    fn default() -> (r: Self)
        ensures
            r.client_id() == 9999,
    {
        PlayerInfo { client_id: 9999 }
    }
}

} // verus!
