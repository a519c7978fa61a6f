use entity_sync::apply::{apply_event, set_component, Applied};
use entity_sync::codec::Component;
use entity_sync::components::{PlayerInfo, PlayerType, PlayerTypeOp, Position};
use entity_sync::tracker::{ChangeTracker, Event};
use entity_sync::uid::{EntityId, IdentityError, Uid, UidAllocator};
use entity_sync::world::{Entity, World};

fn at(x: u16, y: u16) -> Entity {
    Entity { position: Some(Position::new(x, y)), player_type: None, player_info: None }
}

#[test]
fn an_insertion_makes_an_entity_under_the_identifier() {
    let mut world = World::new();
    let mut allocator = UidAllocator::new();
    let outcome = apply_event(&mut world, &mut allocator, &Event::Inserted(Uid(7), at(10, 10)));
    assert_eq!(outcome, Applied::Inserted(EntityId(0)));
    assert_eq!(allocator.resolve(Uid(7)), Ok(EntityId(0)));
    assert_eq!(world.get(EntityId(0)), Some(at(10, 10)));
    assert_eq!(allocator.allocate(EntityId(50), None), Ok(Uid(8)));
}

#[test]
fn a_modification_changes_the_component_and_no_other() {
    let mut world = World::new();
    let mut allocator = UidAllocator::new();
    let entity = Entity {
        position: Some(Position::new(10, 10)),
        player_type: Some(PlayerType::new(PlayerTypeOp::Player)),
        player_info: Some(PlayerInfo::new(4)),
    };
    apply_event(&mut world, &mut allocator, &Event::Inserted(Uid(7), entity));
    let outcome = apply_event(
        &mut world,
        &mut allocator,
        &Event::Modified(Uid(7), Component::Position(Position::new(11, 10))),
    );
    assert_eq!(outcome, Applied::Updated(EntityId(0)));
    assert_eq!(
        world.get(EntityId(0)),
        Some(Entity { position: Some(Position::new(11, 10)), ..entity })
    );
}

#[test]
fn applying_a_modification_twice_is_applying_it_once() {
    let mut world = World::new();
    let mut allocator = UidAllocator::new();
    apply_event(&mut world, &mut allocator, &Event::Inserted(Uid(7), at(10, 10)));
    apply_event(&mut world, &mut allocator, &Event::Inserted(Uid(8), at(1, 1)));
    let event = Event::Modified(Uid(7), Component::Position(Position::new(11, 10)));
    apply_event(&mut world, &mut allocator, &event);
    let once = (world.get(EntityId(0)), world.get(EntityId(1)), world.len(), allocator.len());
    assert_eq!(apply_event(&mut world, &mut allocator, &event), Applied::Updated(EntityId(0)));
    let twice = (world.get(EntityId(0)), world.get(EntityId(1)), world.len(), allocator.len());
    assert_eq!(once, twice);
    assert_eq!(world.get(EntityId(0)), Some(at(11, 10)));
}

#[test]
fn applying_an_insertion_twice_makes_one_entity() {
    let mut world = World::new();
    let mut allocator = UidAllocator::new();
    let event = Event::Inserted(Uid(3), at(4, 4));
    assert_eq!(apply_event(&mut world, &mut allocator, &event), Applied::Inserted(EntityId(0)));
    assert_eq!(apply_event(&mut world, &mut allocator, &event), Applied::Updated(EntityId(0)));
    assert_eq!(world.len(), 1);
    assert_eq!(allocator.len(), 1);
}

#[test]
fn a_removal_deletes_the_entity_and_ends_the_mapping() {
    let mut world = World::new();
    let mut allocator = UidAllocator::new();
    apply_event(&mut world, &mut allocator, &Event::Inserted(Uid(7), at(10, 10)));
    assert_eq!(
        apply_event(&mut world, &mut allocator, &Event::Removed(Uid(7))),
        Applied::Removed(EntityId(0))
    );
    assert_eq!(world.get(EntityId(0)), None);
    assert!(!world.contains(EntityId(0)));
    assert_eq!(allocator.resolve(Uid(7)), Err(IdentityError::NotFound));
    assert_eq!(apply_event(&mut world, &mut allocator, &Event::Removed(Uid(7))), Applied::Dropped);
}

#[test]
fn a_modification_of_an_unknown_identifier_is_dropped() {
    let mut world = World::new();
    let mut allocator = UidAllocator::new();
    let mut tracker = ChangeTracker::new();
    apply_event(&mut world, &mut allocator, &Event::Inserted(Uid(7), at(10, 10)));
    apply_event(&mut world, &mut allocator, &Event::Inserted(Uid(8), at(20, 20)));
    tracker.track_modified(Uid(8), Component::Position(Position::new(20, 20)));
    apply_event(&mut world, &mut allocator, &Event::Removed(Uid(7)));
    let outcome = apply_event(
        &mut world,
        &mut allocator,
        &Event::Modified(Uid(7), Component::Position(Position::new(11, 10))),
    );
    assert_eq!(outcome, Applied::Dropped);
    assert_eq!(world.get(EntityId(0)), None);
    assert_eq!(world.get(EntityId(1)), Some(at(20, 20)));
    assert_eq!(world.len(), 2);
    assert_eq!(allocator.len(), 1);
    assert_eq!(tracker.drain_inserted(), Vec::<Event>::new());
    assert_eq!(
        tracker.drain_modified(),
        vec![Event::Modified(Uid(8), Component::Position(Position::new(20, 20)))]
    );
    assert_eq!(tracker.drain_removed(), Vec::<Event>::new());
}

#[test]
fn a_component_is_set_in_its_own_place() {
    let mut entity = Entity::empty();
    set_component(&mut entity, Component::PlayerInfo(PlayerInfo::new(2)));
    set_component(&mut entity, Component::Position(Position::new(1, 2)));
    set_component(&mut entity, Component::PlayerType(PlayerType::new(PlayerTypeOp::Enemy)));
    set_component(&mut entity, Component::Position(Position::new(3, 4)));
    assert_eq!(
        entity,
        Entity {
            position: Some(Position::new(3, 4)),
            player_type: Some(PlayerType { player_type: 1 }),
            player_info: Some(PlayerInfo::new(2)),
        }
    );
}

#[test]
fn the_world_keeps_its_slots() {
    let mut world = World::new();
    assert_eq!(world.create(at(1, 1)), EntityId(0));
    assert_eq!(world.create(at(2, 2)), EntityId(1));
    assert!(world.delete(EntityId(0)));
    assert!(!world.delete(EntityId(0)));
    assert!(!world.delete(EntityId(5)));
    assert!(!world.set(EntityId(0), at(3, 3)));
    assert!(world.set(EntityId(1), at(3, 3)));
    assert_eq!(world.create(at(4, 4)), EntityId(2));
    assert_eq!(world.get(EntityId(1)), Some(at(3, 3)));
    assert_eq!(world.get(EntityId(9)), None);
    assert_eq!(world.len(), 3);
}
