//! Applying the events of the peer to the local entities.

use vstd::prelude::*;
use crate::codec::Component;
use crate::tracker::Event;
use crate::uid::{EntityId, Uid, UidAllocator};
use crate::world::{is_live, Entity, World};

verus! {

/// Every identifier names an entity that is alive.
pub open spec fn consistent(world: Seq<Option<Entity>>, ids: Map<Uid, EntityId>) -> bool {
    forall|uid: Uid| #[trigger] ids.contains_key(uid) ==> is_live(world, ids[uid])
}

/// The entity with `component` in place of its component of that type.
pub open spec fn with_component(entity: Entity, component: Component) -> Entity {
    match component {
        Component::Position(position) => Entity { position: Some(position), ..entity },
        Component::PlayerType(player_type) => Entity { player_type: Some(player_type), ..entity },
        Component::PlayerInfo(player_info) => Entity { player_info: Some(player_info), ..entity },
    }
}

/// What became of an event.
#[derive(Debug, Clone, Copy, PartialEq, Eq)]
pub enum Applied {
    /// A new entity was made.
    Inserted(EntityId),
    /// A live entity took new values.
    Updated(EntityId),
    /// A live entity was deleted.
    Removed(EntityId),
    /// The event named no live entity and was dropped.
    Dropped,
}

/// The entities after an event.
pub open spec fn applied_world(
    world: Seq<Option<Entity>>,
    ids: Map<Uid, EntityId>,
    event: Event,
) -> Seq<Option<Entity>> {
    match event {
        Event::Inserted(uid, entity) => if ids.contains_key(uid) {
            world.update(ids[uid].0 as int, Some(entity))
        } else {
            world.push(Some(entity))
        },
        Event::Modified(uid, component) => if ids.contains_key(uid) {
            world.update(
                ids[uid].0 as int,
                Some(with_component(world[ids[uid].0 as int].unwrap(), component)),
            )
        } else {
            world
        },
        Event::Removed(uid) => if ids.contains_key(uid) {
            world.update(ids[uid].0 as int, None)
        } else {
            world
        },
    }
}

/// The identifiers after an event.
pub open spec fn applied_ids(
    world: Seq<Option<Entity>>,
    ids: Map<Uid, EntityId>,
    event: Event,
) -> Map<Uid, EntityId> {
    match event {
        Event::Inserted(uid, _) => if ids.contains_key(uid) {
            ids
        } else {
            ids.insert(uid, EntityId(world.len() as usize))
        },
        Event::Modified(_, _) => ids,
        Event::Removed(uid) => ids.remove(uid),
    }
}

/// The counter of the identity allocator after an event: an insertion
/// under a new identifier moves it past that identifier.
pub open spec fn applied_next_uid(ids: Map<Uid, EntityId>, next_uid: nat, event: Event) -> nat {
    match event {
        Event::Inserted(uid, _) => if !ids.contains_key(uid) && uid.0 >= next_uid {
            (uid.0 + 1) as nat
        } else {
            next_uid
        },
        _ => next_uid,
    }
}

/// What becomes of an event.
pub open spec fn applied_outcome(
    world: Seq<Option<Entity>>,
    ids: Map<Uid, EntityId>,
    event: Event,
) -> Applied {
    if ids.contains_key(event.uid()) {
        match event {
            Event::Inserted(_, _) => Applied::Updated(ids[event.uid()]),
            Event::Modified(_, _) => Applied::Updated(ids[event.uid()]),
            Event::Removed(_) => Applied::Removed(ids[event.uid()]),
        }
    } else {
        match event {
            Event::Inserted(_, _) => Applied::Inserted(EntityId(world.len() as usize)),
            _ => Applied::Dropped,
        }
    }
}

/// Writes `component` into `entity`.
pub fn set_component(entity: &mut Entity, component: Component)
    ensures
        *final(entity) == with_component(*old(entity), component),
{
    match component {
        Component::Position(position) => {
            entity.position = Some(position);
        },
        Component::PlayerType(player_type) => {
            entity.player_type = Some(player_type);
        },
        Component::PlayerInfo(player_info) => {
            entity.player_info = Some(player_info);
        },
    }
}

/// Applies an event of the peer to the local entities. An insertion makes
/// an entity and maps the identifier to it; where the identifier is known
/// already, the entity it names takes the values. A modification or a
/// removal of an unknown identifier is dropped: the entity is gone, and
/// nothing changes.
pub fn apply_event(world: &mut World, allocator: &mut UidAllocator, event: &Event) -> (r: Applied)
    requires
        old(allocator).wf(),
        consistent(old(world)@, old(allocator)@),
    ensures
        final(allocator).wf(),
        consistent(final(world)@, final(allocator)@),
        final(world)@ == applied_world(old(world)@, old(allocator)@, *event),
        final(allocator)@ == applied_ids(old(world)@, old(allocator)@, *event),
        final(allocator).next_uid() == applied_next_uid(
            old(allocator)@,
            old(allocator).next_uid(),
            *event,
        ),
        r == applied_outcome(old(world)@, old(allocator)@, *event),
{
    let ghost ids = allocator@;
    let ghost before = world@;
    match *event {
        Event::Inserted(uid, entity) => {
            match allocator.resolve(uid) {
                Ok(id) => {
                    let _ = world.set(id, entity);
                    Applied::Updated(id)
                },
                Err(_) => {
                    let id = EntityId(world.len());
                    proof {
                        if allocator.is_mapped(id) {
                            let other = choose|other: Uid| #[trigger]
                                ids.contains_key(other) && ids[other] == id;
                            assert(is_live(before, ids[other]));
                        }
                    }
                    let _ = allocator.allocate(id, Some(uid));
                    let made = world.create(entity);
                    proof {
                        assert forall|other: Uid| #[trigger]
                            allocator@.contains_key(other) implies is_live(
                            world@,
                            allocator@[other],
                        ) by {
                            if other != uid {
                                assert(ids.contains_key(other));
                                assert(is_live(before, ids[other]));
                            }
                        }
                    }
                    Applied::Inserted(made)
                },
            }
        },
        Event::Modified(uid, component) => {
            match allocator.resolve(uid) {
                Ok(id) => {
                    match world.get(id) {
                        Some(entity) => {
                            let mut changed = entity;
                            set_component(&mut changed, component);
                            let _ = world.set(id, changed);
                        },
                        None => {
                            assert(false);
                        },
                    }
                    Applied::Updated(id)
                },
                Err(_) => Applied::Dropped,
            }
        },
        Event::Removed(uid) => {
            proof {
                allocator.lemma_one_to_one();
            }
            match allocator.release(uid) {
                Ok(id) => {
                    let _ = world.delete(id);
                    proof {
                        assert forall|other: Uid| #[trigger]
                            allocator@.contains_key(other) implies is_live(
                            world@,
                            allocator@[other],
                        ) by {
                            assert(ids.contains_key(other));
                            assert(is_live(before, ids[other]));
                            assert(ids[other] != ids[uid]);
                        }
                    }
                    Applied::Removed(id)
                },
                Err(_) => {
                    assert(allocator@ =~= ids);
                    Applied::Dropped
                },
            }
        },
    }
}

/// Applying an event a second time changes nothing: the entities and the
/// identifiers are what they were after the first time.
pub proof fn lemma_apply_is_idempotent(
    world: Seq<Option<Entity>>,
    ids: Map<Uid, EntityId>,
    event: Event,
)
    requires
        consistent(world, ids),
        world.len() <= usize::MAX,
    ensures
        applied_world(
            applied_world(world, ids, event),
            applied_ids(world, ids, event),
            event,
        ) == applied_world(world, ids, event),
        applied_ids(applied_world(world, ids, event), applied_ids(world, ids, event), event)
            == applied_ids(world, ids, event),
{
    let once = applied_world(world, ids, event);
    let named = applied_ids(world, ids, event);
    if ids.contains_key(event.uid()) {
        assert(is_live(world, ids[event.uid()]));
    }
    assert(applied_world(once, named, event) =~= once);
    assert(applied_ids(once, named, event) =~= named);
}

} // verus!
