use std::collections::VecDeque;

use entity_sync::client::{
    handle_events_system, handle_messages_system as client_messages, handle_resimulation,
    move_player_system, Key, PressedInputBuffer, ResimulationReport,
};
use entity_sync::clock::CommandFrameTicker;
use entity_sync::codec::ComponentRegistry;
use entity_sync::components::Position;
use entity_sync::message::ClientMessage;
use entity_sync::postbox::PostBox;
use entity_sync::prediction::ClientCommandBuffer;
use entity_sync::resimulation::{ResimulationBuffer, ResimulationEngine};
use entity_sync::server::{
    broadcast_events_system, handle_commands_system, handle_messages_system as server_messages,
};
use entity_sync::tracker::ChangeTracker;
use entity_sync::transport::{ClientToServerMessage, PostOffice, ServerToClientMessage};
use entity_sync::uid::{EntityId, Uid, UidAllocator};
use entity_sync::wire::{decode_to_client, decode_to_server, encode_to_client, encode_to_server};
use entity_sync::world::{Entity, World};
use entity_sync::ConnectionInformation;

struct Server {
    post_office: PostOffice,
    allocator: UidAllocator,
    world: World,
    tracker: ChangeTracker,
    ticker: CommandFrameTicker,
}

struct Client {
    input: PressedInputBuffer,
    buffer: ClientCommandBuffer,
    postbox: PostBox<ServerToClientMessage, ClientToServerMessage>,
    connection: ConnectionInformation,
    world: World,
    allocator: UidAllocator,
    engine: ResimulationEngine,
    report: ResimulationBuffer,
    ticker: CommandFrameTicker,
}

fn server() -> Server {
    Server {
        post_office: PostOffice::new(),
        allocator: UidAllocator::new(),
        world: World::new(),
        tracker: ChangeTracker::new(),
        ticker: CommandFrameTicker::new(1000),
    }
}

fn client() -> Client {
    Client {
        input: PressedInputBuffer { input: VecDeque::new() },
        buffer: ClientCommandBuffer::new(),
        postbox: PostBox::new(),
        connection: ConnectionInformation::new(),
        world: World::new(),
        allocator: UidAllocator::new(),
        engine: ResimulationEngine::new(),
        report: ResimulationBuffer::new(),
        ticker: CommandFrameTicker::new(1000),
    }
}

/// Carries what the client has queued to the server, as bytes.
fn uplink(client: &mut Client, client_id: u16, server: &mut Server) {
    for message in client.postbox.drain_outbox() {
        let bytes = encode_to_server(&message);
        let arrived = decode_to_server(&bytes).unwrap();
        assert_eq!(arrived, message);
        server.post_office.receive(client_id, arrived, server.ticker.command_frame()).unwrap();
    }
}

/// Carries what the server has queued to the client, as bytes.
fn downlink(server: &mut Server, index: usize, client: &mut Client) {
    let registry = ComponentRegistry::standard();
    for message in server.post_office.postbox_mut(index).drain_outbox() {
        let bytes = encode_to_client(&registry, &message).unwrap();
        let arrived = decode_to_client(&registry, &bytes).unwrap();
        assert_eq!(arrived, message);
        client.postbox.add_to_inbox(arrived);
    }
}

fn server_pass(server: &mut Server) {
    server_messages(
        &mut server.post_office,
        &mut server.allocator,
        &mut server.world,
        &mut server.tracker,
    );
    handle_commands_system(
        &mut server.post_office,
        &server.ticker,
        &mut server.world,
        &server.allocator,
        &mut server.tracker,
    );
    broadcast_events_system(&mut server.tracker, &mut server.post_office, &server.ticker);
}

fn client_pass(client: &mut Client) {
    move_player_system(
        &mut client.input,
        &client.ticker,
        &mut client.buffer,
        &mut client.postbox,
        &client.connection,
        &mut client.world,
        &client.allocator,
    );
    client_messages(&mut client.postbox, &mut client.connection);
    handle_events_system(
        &mut client.postbox,
        &mut client.world,
        &mut client.allocator,
        &mut client.engine,
        &mut client.buffer,
        &mut client.report,
        &client.connection,
        &client.ticker,
    );
}

fn position_of(world: &World, allocator: &UidAllocator, uid: u32) -> Position {
    let id = allocator.resolve(Uid(uid)).unwrap();
    world.get(id).unwrap().position.unwrap()
}

fn connect(server: &mut Server, client: &mut Client) {
    server.post_office.add_client(1);
    client.input.input.push_back(Key::Q);
    client_pass(client);
    uplink(client, 1, server);
    server_pass(server);
    downlink(server, 0, client);
    client_pass(client);
    assert!(client.connection.is_connected());
    assert_eq!(client.connection.client_id(), 1);
    assert_eq!(position_of(&client.world, &client.allocator, 0), Position::new(200, 200));
}

#[test]
fn a_client_connects_and_is_given_its_player() {
    let mut server = server();
    let mut client = client();
    connect(&mut server, &mut client);
    assert_eq!(server.world.len(), 1);
    assert_eq!(client.world.len(), 1);
    assert_eq!(client.world.get(EntityId(0)), server.world.get(EntityId(0)));
    assert_eq!(
        server.post_office.receive(1, ClientToServerMessage::Message(ClientMessage::Disconnect), 0),
        Ok(true)
    );
}

#[test]
fn prediction_and_authority_agree_when_nothing_interferes() {
    let mut server = server();
    let mut client = client();
    for _ in 0..7 {
        server.ticker.advance();
    }
    for _ in 0..50 {
        client.ticker.advance();
    }
    connect(&mut server, &mut client);
    for key in [Key::D, Key::D, Key::W] {
        client.input.input.push_back(key);
        client_pass(&mut client);
        client.ticker.advance();
    }
    let predicted = position_of(&client.world, &client.allocator, 0);
    assert_eq!(predicted, Position::new(240, 180));
    uplink(&mut client, 1, &mut server);
    for step in 0..3u16 {
        server_pass(&mut server);
        server.ticker.advance();
        downlink(&mut server, 0, &mut client);
        client_pass(&mut client);
        assert_eq!(position_of(&client.world, &client.allocator, 0), predicted);
        assert_eq!(client.buffer.len(), 2 - step as usize);
    }
    assert_eq!(position_of(&server.world, &server.allocator, 0), predicted);
    assert_eq!(
        handle_resimulation(&mut client.report),
        vec![
            ResimulationReport { start_command_frame: 51, end_command_frame: 53, commands: 2 },
            ResimulationReport { start_command_frame: 52, end_command_frame: 53, commands: 1 },
        ]
    );
}

#[test]
fn the_client_converges_on_the_state_of_the_server() {
    let mut server = server();
    let mut client = client();
    for _ in 0..20 {
        client.ticker.advance();
    }
    connect(&mut server, &mut client);
    let player = server.world.get(EntityId(0)).unwrap();
    server
        .world
        .set(EntityId(0), Entity { position: Some(Position::new(0, 200)), ..player });
    for key in [Key::A, Key::D, Key::S] {
        client.input.input.push_back(key);
        client_pass(&mut client);
        client.ticker.advance();
    }
    assert_eq!(position_of(&client.world, &client.allocator, 0), Position::new(200, 220));
    uplink(&mut client, 1, &mut server);
    for _ in 0..3 {
        server_pass(&mut server);
        server.ticker.advance();
        downlink(&mut server, 0, &mut client);
        client_pass(&mut client);
    }
    assert_eq!(position_of(&server.world, &server.allocator, 0), Position::new(20, 220));
    assert_eq!(position_of(&client.world, &client.allocator, 0), Position::new(20, 220));
    assert_eq!(client.buffer.len(), 0);
}
