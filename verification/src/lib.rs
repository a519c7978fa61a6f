//! State synchronisation between one authoritative server and predicting
//! clients of a tick-based simulation.

use vstd::prelude::*;

pub mod apply;
pub mod client;
pub mod clock;
pub mod codec;
pub mod components;
pub mod compression;
pub mod envelope;
pub mod error;
pub mod frame_order;
pub mod message;
pub mod postbox;
pub mod prediction;
pub mod queue;
pub mod resimulation;
pub mod server;
pub mod tracker;
pub mod transport;
pub mod uid;
pub mod wire;
pub mod world;

use crate::components::Position;
use crate::message::{ClientCommand, ClientId};

verus! {

/// Simulated network latency, in milliseconds.
pub const LATENCY: u32 = 200;

/// Length of one command frame, in milliseconds.
pub const COMMAND_FRAME_INTERVAL: u32 = 1000;

/// Length of one rendered frame, in milliseconds.
pub const FRAME_INTERVAL: u32 = 200;

/// Distance that one move command carries a player.
pub const MOVE_VELOCITY: u16 = 20;

pub const SCREEN_WIDTH: u32 = 800;

pub const SCREEN_HEIGHT: u32 = 500;

/// Whether the move stays inside the coordinate range.
pub open spec fn can_move(event: ClientCommand, x: u16, y: u16) -> bool {
    match event {
        ClientCommand::MoveUp => y >= MOVE_VELOCITY,
        ClientCommand::MoveRight => x + MOVE_VELOCITY <= u16::MAX,
        ClientCommand::MoveDown => y + MOVE_VELOCITY <= u16::MAX,
        ClientCommand::MoveLeft => x >= MOVE_VELOCITY,
    }
}

/// The coordinates that a move leads to, over the unbounded integers.
pub open spec fn moved(event: ClientCommand, x: int, y: int) -> (int, int) {
    match event {
        ClientCommand::MoveUp => (x, y - MOVE_VELOCITY),
        ClientCommand::MoveRight => (x + MOVE_VELOCITY, y),
        ClientCommand::MoveDown => (x, y + MOVE_VELOCITY),
        ClientCommand::MoveLeft => (x - MOVE_VELOCITY, y),
    }
}

/// Moves a point by one step of `MOVE_VELOCITY` in the direction of `event`.
pub fn calculate_player_movement(event: &ClientCommand, x: u16, y: u16) -> (r: (u16, u16))
    requires
        can_move(*event, x, y),
    ensures
        (r.0 as int, r.1 as int) == moved(*event, x as int, y as int),
{
    match event {
        ClientCommand::MoveUp => (x, y - MOVE_VELOCITY),
        ClientCommand::MoveRight => (x + MOVE_VELOCITY, y),
        ClientCommand::MoveDown => (x, y + MOVE_VELOCITY),
        ClientCommand::MoveLeft => (x - MOVE_VELOCITY, y),
    }
}

/// As `calculate_player_movement`, but `None` where the move would leave the
/// coordinate range.
pub fn checked_player_movement(event: &ClientCommand, x: u16, y: u16) -> (r: Option<(u16, u16)>)
    ensures
        r.is_some() == can_move(*event, x, y),
        r.is_some() ==> (r.unwrap().0 as int, r.unwrap().1 as int) == moved(
            *event,
            x as int,
            y as int,
        ),
{
    let fits = match event {
        ClientCommand::MoveUp => y >= MOVE_VELOCITY,
        ClientCommand::MoveRight => x <= u16::MAX - MOVE_VELOCITY,
        ClientCommand::MoveDown => y <= u16::MAX - MOVE_VELOCITY,
        ClientCommand::MoveLeft => x >= MOVE_VELOCITY,
    };
    if fits {
        Some(calculate_player_movement(event, x, y))
    } else {
        None
    }
}

/// The position that a command leads to: one step in its direction, or the
/// same position where the step would leave the coordinate range.
pub open spec fn next_position(command: ClientCommand, position: Position) -> Position {
    if can_move(command, position.x, position.y) {
        Position {
            x: moved(command, position.x as int, position.y as int).0 as u16,
            y: moved(command, position.x as int, position.y as int).1 as u16,
        }
    } else {
        position
    }
}

/// Applies one command to a position.
pub fn apply_command(command: &ClientCommand, position: Position) -> (r: Position)
    ensures
        r == next_position(*command, position),
{
    match checked_player_movement(command, position.x, position.y) {
        Some(target) => Position { x: target.0, y: target.1 },
        None => position,
    }
}

/// The phases of a client's connection to the server.
#[derive(Debug, Clone, Copy, PartialEq, Eq, PartialOrd, Structural)]
pub enum ConnectionState {
    Connected,
    Connecting,
    Disconnected,
    Disconnecting,
}

/// What a client knows of its own connection.
pub struct ConnectionInformation {
    state: ConnectionState,
    client_id: Option<ClientId>,
}

impl ConnectionInformation {
    pub closed spec fn state(self) -> ConnectionState {
        self.state
    }

    /// The identity that the server assigned last, if it ever assigned one.
    pub closed spec fn assigned_id(self) -> Option<ClientId> {
        self.client_id
    }

    pub fn new() -> (r: ConnectionInformation)
        ensures
            r.state() == ConnectionState::Disconnected,
            r.assigned_id().is_none(),
    {
        ConnectionInformation { state: ConnectionState::Disconnected, client_id: None }
    }

    pub fn set_connected(&mut self, client_id: ClientId)
        ensures
            final(self).state() == ConnectionState::Connected,
            final(self).assigned_id() == Some(client_id),
    {
        self.state = ConnectionState::Connected;
        self.client_id = Some(client_id);
    }

    pub fn set_disconnected(&mut self)
        ensures
            final(self).state() == ConnectionState::Disconnected,
            final(self).assigned_id() == old(self).assigned_id(),
    {
        self.state = ConnectionState::Disconnected;
    }

    pub fn set_disconnecting(&mut self)
        ensures
            final(self).state() == ConnectionState::Disconnecting,
            final(self).assigned_id() == old(self).assigned_id(),
    {
        self.state = ConnectionState::Disconnecting;
    }

    pub fn set_connecting(&mut self)
        ensures
            final(self).state() == ConnectionState::Connecting,
            final(self).assigned_id() == old(self).assigned_id(),
    {
        self.state = ConnectionState::Connecting;
    }

    pub fn connection_state(&self) -> (r: &ConnectionState)
        ensures
            *r == self.state(),
    {
        &self.state
    }

    pub fn is_connected(&self) -> (r: bool)
        ensures
            r == (self.state() == ConnectionState::Connected),
    {
        self.state == ConnectionState::Connected
    }

    pub fn client_id(&self) -> (r: ClientId)
        requires
            self.assigned_id().is_some(),
        ensures
            Some(r) == self.assigned_id(),
    {
        self.client_id.unwrap()
    }

    /// As `client_id`, for a client that may never have been connected.
    pub fn assigned_client_id(&self) -> (r: Option<ClientId>)
        ensures
            r == self.assigned_id(),
    {
        self.client_id
    }
}

} // verus!
