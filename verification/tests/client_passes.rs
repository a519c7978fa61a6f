use std::collections::VecDeque;

use entity_sync::client::{
    handle_event, handle_events_system, handle_messages_system, handle_resimulation,
    move_player_system, Key, PressedInputBuffer, ResimulationReport,
};
use entity_sync::clock::CommandFrameTicker;
use entity_sync::codec::Component;
use entity_sync::components::{PlayerInfo, PlayerType, PlayerTypeOp, Position};
use entity_sync::message::{ClientCommand, ClientMessage, ServerMessage};
use entity_sync::postbox::PostBox;
use entity_sync::prediction::{ClientCommandBuffer, PredictionEntry};
use entity_sync::resimulation::{ResimulationBuffer, ResimulationEngine};
use entity_sync::tracker::Event;
use entity_sync::transport::{ClientToServerMessage, ServerToClientMessage};
use entity_sync::uid::{EntityId, Uid, UidAllocator};
use entity_sync::world::{Entity, World};
use entity_sync::{ConnectionInformation, ConnectionState};

type ClientPostBox = PostBox<ServerToClientMessage, ClientToServerMessage>;

fn player(client_id: u16, x: u16, y: u16) -> Entity {
    Entity {
        position: Some(Position::new(x, y)),
        player_type: Some(PlayerType::new(PlayerTypeOp::Player)),
        player_info: Some(PlayerInfo::new(client_id)),
    }
}

fn ticker_at(frame: u32) -> CommandFrameTicker {
    let mut ticker = CommandFrameTicker::new(1000);
    for _ in 0..frame {
        ticker.advance();
    }
    ticker
}

fn pressed(keys: &[Key]) -> PressedInputBuffer {
    let mut input: VecDeque<Key> = VecDeque::new();
    for key in keys {
        input.push_back(*key);
    }
    PressedInputBuffer { input }
}

struct Peer {
    input: PressedInputBuffer,
    buffer: ClientCommandBuffer,
    postbox: ClientPostBox,
    connection: ConnectionInformation,
    world: World,
    allocator: UidAllocator,
    engine: ResimulationEngine,
    report: ResimulationBuffer,
}

fn peer(keys: &[Key]) -> Peer {
    let mut peer = Peer {
        input: pressed(keys),
        buffer: ClientCommandBuffer::new(),
        postbox: PostBox::new(),
        connection: ConnectionInformation::new(),
        world: World::new(),
        allocator: UidAllocator::new(),
        engine: ResimulationEngine::new(),
        report: ResimulationBuffer::new(),
    };
    peer.connection.set_connected(1);
    for (uid, entity) in [(7u32, player(1, 200, 200)), (8u32, player(2, 100, 100))] {
        let id = peer.world.create(entity);
        peer.allocator.allocate(id, Some(Uid(uid))).unwrap();
    }
    peer
}

fn step(peer: &mut Peer, frame: u32) {
    move_player_system(
        &mut peer.input,
        &ticker_at(frame),
        &mut peer.buffer,
        &mut peer.postbox,
        &peer.connection,
        &mut peer.world,
        &peer.allocator,
    );
}

#[test]
fn a_new_input_buffer_is_empty() {
    assert!(PressedInputBuffer::new().input.is_empty());
}

#[test]
fn q_asks_for_a_connection() {
    let mut peer = peer(&[Key::Q, Key::W]);
    step(&mut peer, 0);
    assert_eq!(
        peer.postbox.drain_outbox(),
        vec![ClientToServerMessage::Message(ClientMessage::ConnectionRequest)]
    );
    assert_eq!(peer.input.input.len(), 1);
    assert_eq!(peer.world.get(EntityId(0)), Some(player(1, 200, 200)));
    assert_eq!(peer.buffer.len(), 0);
}

#[test]
fn a_move_key_moves_the_own_entity_ahead_of_the_server() {
    let mut peer = peer(&[Key::W, Key::D, Key::S, Key::A, Key::D]);
    step(&mut peer, 4);
    assert_eq!(peer.world.get(EntityId(0)), Some(player(1, 200, 180)));
    assert_eq!(peer.world.get(EntityId(1)), Some(player(2, 100, 100)));
    step(&mut peer, 5);
    assert_eq!(peer.world.get(EntityId(0)), Some(player(1, 220, 180)));
    step(&mut peer, 5);
    step(&mut peer, 6);
    step(&mut peer, 7);
    assert_eq!(peer.world.get(EntityId(0)), Some(player(1, 220, 200)));
    assert_eq!(peer.world.get(EntityId(1)), Some(player(2, 100, 100)));
    assert_eq!(
        peer.postbox.drain_outbox(),
        vec![
            ClientToServerMessage::Command(4, ClientCommand::MoveUp),
            ClientToServerMessage::Command(5, ClientCommand::MoveRight),
            ClientToServerMessage::Command(5, ClientCommand::MoveDown),
            ClientToServerMessage::Command(6, ClientCommand::MoveLeft),
            ClientToServerMessage::Command(7, ClientCommand::MoveRight),
        ]
    );
    let entry = |frame, command, x, y| PredictionEntry {
        command_frame: frame,
        command,
        uid: Uid(7),
        pre_state: Position::new(x, y),
    };
    assert_eq!(
        peer.buffer.commands_at_or_after(0),
        vec![
            entry(4, ClientCommand::MoveUp, 200, 200),
            entry(5, ClientCommand::MoveRight, 200, 180),
            entry(5, ClientCommand::MoveDown, 220, 180),
            entry(6, ClientCommand::MoveLeft, 220, 200),
            entry(7, ClientCommand::MoveRight, 200, 200),
        ]
    );
    assert!(peer.input.input.is_empty());
    step(&mut peer, 8);
    assert!(peer.postbox.empty_outbox());
}

#[test]
fn another_key_does_nothing() {
    let mut peer = peer(&[Key::Other]);
    step(&mut peer, 0);
    assert!(peer.input.input.is_empty());
    assert!(peer.postbox.empty_outbox());
    assert_eq!(peer.buffer.len(), 0);
    assert_eq!(peer.world.get(EntityId(0)), Some(player(1, 200, 200)));
}

#[test]
fn a_client_that_was_never_connected_steers_nothing() {
    let mut peer = peer(&[Key::W]);
    peer.connection = ConnectionInformation::new();
    step(&mut peer, 0);
    assert!(peer.input.input.is_empty());
    assert!(peer.postbox.empty_outbox());
    assert_eq!(peer.world.get(EntityId(0)), Some(player(1, 200, 200)));
}

#[test]
fn an_acceptance_connects_the_client() {
    let mut postbox: ClientPostBox = PostBox::new();
    let mut connection = ConnectionInformation::new();
    handle_messages_system(&mut postbox, &mut connection);
    assert_eq!(*connection.connection_state(), ConnectionState::Disconnected);
    let event = ServerToClientMessage::Event(3, Event::Removed(Uid(1)));
    postbox.add_to_inbox(event);
    postbox.add_to_inbox(ServerToClientMessage::Message(ServerMessage::ConnectionAccepted(5)));
    postbox.add_to_inbox(event);
    postbox.add_to_inbox(ServerToClientMessage::Message(ServerMessage::ConnectionAccepted(6)));
    handle_messages_system(&mut postbox, &mut connection);
    assert!(connection.is_connected());
    assert_eq!(connection.client_id(), 6);
    assert_eq!(postbox.drain_all_inbox(), vec![event, event]);
}

fn receive(peer: &mut Peer, now: u32) {
    handle_events_system(
        &mut peer.postbox,
        &mut peer.world,
        &mut peer.allocator,
        &mut peer.engine,
        &mut peer.buffer,
        &mut peer.report,
        &peer.connection,
        &ticker_at(now),
    );
}

#[test]
fn events_of_the_server_change_the_local_entities() {
    let mut peer = peer(&[]);
    let accepted = ServerToClientMessage::Message(ServerMessage::ConnectionAccepted(1));
    peer.postbox.add_to_inbox(ServerToClientMessage::Event(1, Event::Inserted(Uid(9), player(3, 5, 5))));
    peer.postbox.add_to_inbox(accepted);
    peer.postbox.add_to_inbox(ServerToClientMessage::Event(
        2,
        Event::Modified(Uid(8), Component::Position(Position::new(120, 100))),
    ));
    peer.postbox.add_to_inbox(ServerToClientMessage::Event(2, Event::Removed(Uid(9))));
    peer.postbox.add_to_inbox(ServerToClientMessage::Event(
        3,
        Event::Modified(Uid(9), Component::Position(Position::new(6, 5))),
    ));
    receive(&mut peer, 3);
    assert_eq!(peer.world.len(), 3);
    assert_eq!(peer.world.get(EntityId(0)), Some(player(1, 200, 200)));
    assert_eq!(peer.world.get(EntityId(1)), Some(player(2, 120, 100)));
    assert_eq!(peer.world.get(EntityId(2)), None);
    assert_eq!(peer.allocator.len(), 2);
    assert_eq!(peer.postbox.drain_all_inbox(), vec![accepted]);
    assert_eq!(peer.report.len(), 0);
}

#[test]
fn a_correction_of_the_own_entity_is_resimulated() {
    let mut peer = peer(&[Key::D, Key::D, Key::D]);
    step(&mut peer, 1);
    step(&mut peer, 2);
    step(&mut peer, 3);
    assert_eq!(peer.world.get(EntityId(0)), Some(player(1, 260, 200)));
    peer.postbox.add_to_inbox(ServerToClientMessage::Event(
        2,
        Event::Modified(Uid(7), Component::Position(Position::new(220, 300))),
    ));
    receive(&mut peer, 4);
    assert_eq!(peer.world.get(EntityId(0)), Some(player(1, 260, 300)));
    assert_eq!(peer.buffer.len(), 2);
    assert_eq!(
        handle_resimulation(&mut peer.report),
        vec![ResimulationReport { start_command_frame: 2, end_command_frame: 4, commands: 2 }]
    );
    peer.postbox.add_to_inbox(ServerToClientMessage::Event(
        1,
        Event::Modified(Uid(7), Component::Position(Position::new(0, 0))),
    ));
    receive(&mut peer, 4);
    assert_eq!(peer.world.get(EntityId(0)), Some(player(1, 260, 300)));
    peer.postbox.add_to_inbox(ServerToClientMessage::Event(
        9,
        Event::Modified(Uid(7), Component::Position(Position::new(1, 2))),
    ));
    receive(&mut peer, 5);
    assert_eq!(peer.world.get(EntityId(0)), Some(player(1, 1, 2)));
    assert_eq!(peer.buffer.len(), 0);
    assert_eq!(peer.report.len(), 0);
}

#[test]
fn one_event_is_handled_as_the_pass_handles_it() {
    let mut peer = peer(&[]);
    handle_event(
        &mut peer.world,
        &mut peer.allocator,
        &mut peer.engine,
        &mut peer.buffer,
        &mut peer.report,
        &peer.connection,
        &ticker_at(0),
        0,
        &Event::Modified(Uid(8), Component::PlayerType(PlayerType::new(PlayerTypeOp::Enemy))),
    );
    assert_eq!(peer.world.get(EntityId(1)).unwrap().player_type, Some(PlayerType { player_type: 1 }));
}
