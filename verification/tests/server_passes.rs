use entity_sync::clock::CommandFrameTicker;
use entity_sync::codec::Component;
use entity_sync::components::Position;
use entity_sync::message::{ClientCommand, ClientMessage, ServerMessage};
use entity_sync::server::{handle_commands_system, handle_messages_system};
use entity_sync::tracker::{ChangeTracker, Event};
use entity_sync::transport::{ClientToServerMessage, PostOffice, ServerToClientMessage};
use entity_sync::uid::{EntityId, Uid, UidAllocator};
use entity_sync::world::World;

#[test]
fn connection_request_makes_a_player_and_is_answered() {
    let mut post_office = PostOffice::new();
    let mut allocator = UidAllocator::new();
    let mut world = World::new();
    let mut tracker = ChangeTracker::new();
    assert!(post_office.add_client(5));
    assert_eq!(
        post_office.receive(5, ClientToServerMessage::Message(ClientMessage::ConnectionRequest), 0),
        Ok(true)
    );
    assert_eq!(post_office.clients_with_inbox(), vec![5]);
    handle_messages_system(&mut post_office, &mut allocator, &mut world, &mut tracker);
    assert_eq!(post_office.clients_with_inbox(), Vec::<u16>::new());
    assert_eq!(world.len(), 1);
    let player = world.get(EntityId(0)).unwrap();
    assert_eq!(player.position, Some(Position::new(200, 200)));
    assert_eq!(player.player_info.unwrap().client_id(), 5);
    assert_eq!(allocator.resolve(Uid(0)), Ok(EntityId(0)));
    let sent = post_office.postbox_mut(0).drain_outbox();
    assert_eq!(sent, vec![ServerToClientMessage::Message(ServerMessage::ConnectionAccepted(5))]);
    assert_eq!(tracker.drain_inserted(), vec![Event::Inserted(Uid(0), player)]);
}

#[test]
fn two_clients_move_right_at_the_same_frame() {
    let mut post_office = PostOffice::new();
    let mut allocator = UidAllocator::new();
    let mut world = World::new();
    let mut tracker = ChangeTracker::new();
    post_office.add_client(1);
    post_office.add_client(2);
    for id in [1u16, 2u16] {
        post_office
            .receive(id, ClientToServerMessage::Message(ClientMessage::ConnectionRequest), 0)
            .unwrap();
    }
    handle_messages_system(&mut post_office, &mut allocator, &mut world, &mut tracker);
    let _ = tracker.drain_inserted();
    let mut ticker = CommandFrameTicker::new(1000);
    ticker.advance();
    for id in [1u16, 2u16] {
        assert_eq!(
            post_office.receive(id, ClientToServerMessage::Command(7, ClientCommand::MoveRight), 1),
            Ok(true)
        );
    }
    handle_commands_system(&mut post_office, &ticker, &mut world, &allocator, &mut tracker);
    assert_eq!(world.get(EntityId(0)).unwrap().position, Some(Position::new(220, 200)));
    assert_eq!(world.get(EntityId(1)).unwrap().position, Some(Position::new(220, 200)));
    assert_eq!(
        tracker.drain_modified(),
        vec![
            Event::Modified(Uid(0), Component::Position(Position::new(220, 200))),
            Event::Modified(Uid(1), Component::Position(Position::new(220, 200))),
        ]
    );
}

fn connected(clients: &[u16]) -> (PostOffice, UidAllocator, World, ChangeTracker) {
    let mut post_office = PostOffice::new();
    let mut allocator = UidAllocator::new();
    let mut world = World::new();
    let mut tracker = ChangeTracker::new();
    for id in clients {
        post_office.add_client(*id);
        post_office
            .receive(*id, ClientToServerMessage::Message(ClientMessage::ConnectionRequest), 0)
            .unwrap();
    }
    handle_messages_system(&mut post_office, &mut allocator, &mut world, &mut tracker);
    let _ = tracker.drain_inserted();
    for index in 0..clients.len() {
        let _ = post_office.postbox_mut(index).drain_outbox();
    }
    (post_office, allocator, world, tracker)
}

fn ticker_at(frame: u32) -> CommandFrameTicker {
    let mut ticker = CommandFrameTicker::new(1000);
    for _ in 0..frame {
        ticker.advance();
    }
    ticker
}

#[test]
fn commands_that_arrive_out_of_order_are_applied_in_frame_order() {
    let (mut post_office, allocator, mut world, mut tracker) = connected(&[1]);
    let player = world.get(EntityId(0)).unwrap();
    world.set(
        EntityId(0),
        entity_sync::world::Entity { position: Some(Position::new(10, 200)), ..player },
    );
    let commands = [
        (3u32, ClientCommand::MoveRight),
        (1u32, ClientCommand::MoveLeft),
        (2u32, ClientCommand::MoveRight),
    ];
    for (frame, command) in commands {
        assert_eq!(
            post_office.receive(1, ClientToServerMessage::Command(frame, command), 10),
            Ok(true)
        );
    }
    handle_commands_system(&mut post_office, &ticker_at(10), &mut world, &allocator, &mut tracker);
    let in_frame_order = [ClientCommand::MoveLeft, ClientCommand::MoveRight, ClientCommand::MoveRight]
        .iter()
        .fold(Position::new(10, 200), |position, command| {
            entity_sync::apply_command(command, position)
        });
    assert_eq!(in_frame_order, Position::new(50, 200));
    assert_eq!(world.get(EntityId(0)).unwrap().position, Some(in_frame_order));
    let in_arrival_order = commands.iter().fold(Position::new(10, 200), |position, (_, command)| {
        entity_sync::apply_command(command, position)
    });
    assert_eq!(in_arrival_order, Position::new(30, 200));
}

#[test]
fn a_command_waits_for_its_frame() {
    let (mut post_office, allocator, mut world, mut tracker) = connected(&[1]);
    post_office.receive(1, ClientToServerMessage::Command(5, ClientCommand::MoveDown), 2).unwrap();
    post_office.receive(1, ClientToServerMessage::Command(7, ClientCommand::MoveDown), 2).unwrap();
    handle_commands_system(&mut post_office, &ticker_at(2), &mut world, &allocator, &mut tracker);
    assert_eq!(world.get(EntityId(0)).unwrap().position, Some(Position::new(200, 220)));
    handle_commands_system(&mut post_office, &ticker_at(3), &mut world, &allocator, &mut tracker);
    assert_eq!(world.get(EntityId(0)).unwrap().position, Some(Position::new(200, 220)));
    handle_commands_system(&mut post_office, &ticker_at(4), &mut world, &allocator, &mut tracker);
    assert_eq!(world.get(EntityId(0)).unwrap().position, Some(Position::new(200, 240)));
    assert_eq!(
        tracker.drain_modified(),
        vec![Event::Modified(Uid(0), Component::Position(Position::new(200, 240)))]
    );
}

#[test]
fn the_commands_of_a_client_move_no_entity_of_another() {
    let (mut post_office, allocator, mut world, mut tracker) = connected(&[1, 2, 3]);
    post_office.receive(2, ClientToServerMessage::Command(0, ClientCommand::MoveUp), 0).unwrap();
    handle_commands_system(&mut post_office, &ticker_at(0), &mut world, &allocator, &mut tracker);
    assert_eq!(world.get(EntityId(0)).unwrap().position, Some(Position::new(200, 200)));
    assert_eq!(world.get(EntityId(1)).unwrap().position, Some(Position::new(200, 180)));
    assert_eq!(world.get(EntityId(2)).unwrap().position, Some(Position::new(200, 200)));
    assert_eq!(
        tracker.drain_modified(),
        vec![Event::Modified(Uid(1), Component::Position(Position::new(200, 180)))]
    );
}

#[test]
fn a_move_that_ends_where_it_began_is_not_noted() {
    let (mut post_office, allocator, mut world, mut tracker) = connected(&[1]);
    post_office.receive(1, ClientToServerMessage::Command(0, ClientCommand::MoveUp), 0).unwrap();
    post_office.receive(1, ClientToServerMessage::Command(0, ClientCommand::MoveDown), 0).unwrap();
    handle_commands_system(&mut post_office, &ticker_at(0), &mut world, &allocator, &mut tracker);
    assert_eq!(world.get(EntityId(0)).unwrap().position, Some(Position::new(200, 200)));
    assert_eq!(tracker.drain_modified(), Vec::<Event>::new());
}

#[test]
fn every_request_of_every_client_is_served_in_order() {
    let mut post_office = PostOffice::new();
    let mut allocator = UidAllocator::new();
    let mut world = World::new();
    let mut tracker = ChangeTracker::new();
    for id in [3u16, 1, 2] {
        post_office.add_client(id);
    }
    let request = ClientToServerMessage::Message(ClientMessage::ConnectionRequest);
    post_office.receive(1, request, 0).unwrap();
    post_office.receive(3, request, 0).unwrap();
    post_office.receive(1, ClientToServerMessage::Message(ClientMessage::Disconnect), 0).unwrap();
    post_office.receive(1, request, 0).unwrap();
    handle_messages_system(&mut post_office, &mut allocator, &mut world, &mut tracker);
    assert_eq!(world.len(), 3);
    let owners: Vec<u16> = (0..3)
        .map(|slot| world.get(EntityId(slot)).unwrap().player_info.unwrap().client_id())
        .collect();
    assert_eq!(owners, vec![3, 1, 1]);
    let accepted = |id| ServerToClientMessage::Message(ServerMessage::ConnectionAccepted(id));
    assert_eq!(post_office.postbox_mut(0).drain_outbox(), vec![accepted(3)]);
    assert_eq!(post_office.postbox_mut(1).drain_outbox(), vec![accepted(1), accepted(1)]);
    assert_eq!(post_office.postbox_mut(2).drain_outbox(), Vec::new());
    assert_eq!(post_office.clients_with_inbox(), Vec::<u16>::new());
    assert_eq!(tracker.drain_inserted().len(), 3);
}

#[test]
fn a_request_stays_unanswered_while_the_identifiers_are_used_up() {
    let mut post_office = PostOffice::new();
    let mut allocator = UidAllocator::new();
    let mut world = World::new();
    let mut tracker = ChangeTracker::new();
    let first = world.create(entity_sync::world::Entity::empty());
    allocator.allocate(first, Some(Uid(u32::MAX - 1))).unwrap();
    post_office.add_client(1);
    post_office.add_client(2);
    let request = ClientToServerMessage::Message(ClientMessage::ConnectionRequest);
    post_office.receive(1, request, 0).unwrap();
    post_office.receive(1, request, 0).unwrap();
    post_office.receive(2, request, 0).unwrap();
    handle_messages_system(&mut post_office, &mut allocator, &mut world, &mut tracker);
    assert_eq!(world.len(), 2);
    assert_eq!(allocator.resolve(Uid(u32::MAX)), Ok(EntityId(1)));
    assert_eq!(post_office.postbox_mut(0).drain_outbox().len(), 1);
    assert_eq!(post_office.postbox_mut(1).drain_outbox().len(), 0);
    assert_eq!(post_office.clients_with_inbox(), Vec::<u16>::new());
}

#[test]
fn an_enemy_appears_at_every_hundredth_frame() {
    let mut allocator = UidAllocator::new();
    let mut world = World::new();
    let mut tracker = ChangeTracker::new();
    entity_sync::server::enemy_system(&ticker_at(99), &mut world, &mut allocator, &mut tracker);
    assert_eq!(world.len(), 0);
    entity_sync::server::enemy_system(&ticker_at(100), &mut world, &mut allocator, &mut tracker);
    assert_eq!(world.len(), 1);
    let enemy = world.get(EntityId(0)).unwrap();
    assert_eq!(enemy.position, Some(Position::new(20, 15)));
    assert_eq!(enemy.player_type.unwrap().player_type, 1);
    assert_eq!(enemy.player_info, None);
    assert_eq!(allocator.resolve(Uid(0)), Ok(EntityId(0)));
    assert_eq!(tracker.drain_inserted(), vec![Event::Inserted(Uid(0), enemy)]);
}

#[test]
fn the_enemies_leave_at_every_three_hundredth_frame() {
    let (_, mut allocator, mut world, mut tracker) = connected(&[1]);
    entity_sync::server::enemy_system(&ticker_at(100), &mut world, &mut allocator, &mut tracker);
    entity_sync::server::enemy_system(&ticker_at(200), &mut world, &mut allocator, &mut tracker);
    let _ = tracker.drain_inserted();
    tracker.track_modified(Uid(1), Component::Position(Position::new(19, 15)));
    entity_sync::server::enemy_system(&ticker_at(300), &mut world, &mut allocator, &mut tracker);
    assert_eq!(world.len(), 4);
    assert!(world.contains(EntityId(0)));
    assert!(!world.contains(EntityId(1)));
    assert!(!world.contains(EntityId(2)));
    assert!(world.contains(EntityId(3)));
    assert_eq!(allocator.len(), 2);
    assert_eq!(allocator.resolve(Uid(3)), Ok(EntityId(3)));
    assert_eq!(tracker.drain_removed(), vec![Event::Removed(Uid(1)), Event::Removed(Uid(2))]);
    assert_eq!(tracker.drain_modified(), Vec::<Event>::new());
    assert_eq!(tracker.drain_inserted().len(), 1);
}

#[test]
fn every_client_is_told_of_every_change() {
    let (mut post_office, _, _, mut tracker) = connected(&[1, 2]);
    let entity = entity_sync::world::Entity::empty();
    tracker.track_removed(Uid(4));
    tracker.track_modified(Uid(1), Component::Position(Position::new(1, 1)));
    tracker.track_inserted(Uid(9), entity);
    entity_sync::server::broadcast_events_system(&mut tracker, &mut post_office, &ticker_at(12));
    let news = vec![
        ServerToClientMessage::Event(13, Event::Inserted(Uid(9), entity)),
        ServerToClientMessage::Event(13, Event::Modified(Uid(1), Component::Position(Position::new(1, 1)))),
        ServerToClientMessage::Event(13, Event::Removed(Uid(4))),
    ];
    assert_eq!(post_office.postbox_mut(0).drain_outbox(), news);
    assert_eq!(post_office.postbox_mut(1).drain_outbox(), news);
    assert_eq!(tracker.drain_inserted(), Vec::<Event>::new());
    assert_eq!(tracker.drain_modified(), Vec::<Event>::new());
    assert_eq!(tracker.drain_removed(), Vec::<Event>::new());
}

#[test]
fn a_change_is_stamped_on_the_clock_of_each_client() {
    let (mut post_office, _, _, mut tracker) = connected(&[1, 2, 3]);
    post_office.receive(1, ClientToServerMessage::Command(50, ClientCommand::MoveUp), 7).unwrap();
    post_office.receive(2, ClientToServerMessage::Command(3, ClientCommand::MoveUp), 7).unwrap();
    tracker.track_removed(Uid(4));
    entity_sync::server::broadcast_events_system(&mut tracker, &mut post_office, &ticker_at(7));
    let removed = |frame| vec![ServerToClientMessage::Event(frame, Event::Removed(Uid(4)))];
    assert_eq!(post_office.postbox_mut(0).drain_outbox(), removed(51));
    assert_eq!(post_office.postbox_mut(1).drain_outbox(), removed(4));
    assert_eq!(post_office.postbox_mut(2).drain_outbox(), removed(8));
}
