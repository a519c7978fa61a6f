//! The entity store that the synchronisation passes read and write: an
//! arena of component bundles, addressed by slot.

use vstd::prelude::*;
use crate::components::{PlayerInfo, PlayerType, Position};
use crate::uid::EntityId;

verus! {

/// The synchronised components of one entity. A component that the entity
/// lacks is `None`.
#[derive(Debug, Clone, Copy, PartialEq, Eq)]
pub struct Entity {
    pub position: Option<Position>,
    pub player_type: Option<PlayerType>,
    pub player_info: Option<PlayerInfo>,
}

impl Entity {
    /// The entity without any component.
    pub fn empty() -> (r: Entity)
        ensures
            r == (Entity { position: None, player_type: None, player_info: None }),
    {
        Entity { position: None, player_type: None, player_info: None }
    }
}

/// The arena of entities. A slot is taken once and never handed out again,
/// so a handle never comes to name another entity.
pub struct World {
    slots: Vec<Option<Entity>>,
}

impl View for World {
    type V = Seq<Option<Entity>>;

    /// The slots in order; a deleted entity leaves `None` behind.
    closed spec fn view(&self) -> Seq<Option<Entity>> {
        self.slots@
    }
}

/// Whether `id` names a live entity among `slots`.
pub open spec fn is_live(slots: Seq<Option<Entity>>, id: EntityId) -> bool {
    id.0 < slots.len() && slots[id.0 as int].is_some()
}

impl World {
    pub fn new() -> (r: World)
        ensures
            r@ == Seq::<Option<Entity>>::empty(),
    {
        World { slots: Vec::new() }
    }

    /// The number of slots taken so far, live or not.
    pub fn len(&self) -> (r: usize)
        ensures
            r == self@.len(),
    {
        self.slots.len()
    }

    /// Stores `entity` in a fresh slot and returns its handle.
    pub fn create(&mut self, entity: Entity) -> (r: EntityId)
        ensures
            r.0 == old(self)@.len(),
            final(self)@ == old(self)@.push(Some(entity)),
    {
        let id = EntityId(self.slots.len());
        self.slots.push(Some(entity));
        id
    }

    pub fn contains(&self, id: EntityId) -> (r: bool)
        ensures
            r == is_live(self@, id),
    {
        id.0 < self.slots.len() && self.slots[id.0].is_some()
    }

    /// The components of the entity, or `None` where `id` names no live one.
    pub fn get(&self, id: EntityId) -> (r: Option<Entity>)
        ensures
            r == if is_live(self@, id) {
                self@[id.0 as int]
            } else {
                None
            },
    {
        if id.0 < self.slots.len() {
            self.slots[id.0]
        } else {
            None
        }
    }

    /// Replaces the components of a live entity. Answers whether `id` named
    /// one; nothing changes where it did not.
    pub fn set(&mut self, id: EntityId, entity: Entity) -> (r: bool)
        ensures
            r == is_live(old(self)@, id),
            final(self)@ == if r {
                old(self)@.update(id.0 as int, Some(entity))
            } else {
                old(self)@
            },
    {
        if id.0 < self.slots.len() && self.slots[id.0].is_some() {
            self.slots[id.0] = Some(entity);
            true
        } else {
            false
        }
    }

    /// Deletes a live entity. Answers whether `id` named one; nothing changes
    /// where it did not.
    pub fn delete(&mut self, id: EntityId) -> (r: bool)
        ensures
            r == is_live(old(self)@, id),
            final(self)@ == if r {
                old(self)@.update(id.0 as int, None)
            } else {
                old(self)@
            },
    {
        if id.0 < self.slots.len() && self.slots[id.0].is_some() {
            self.slots[id.0] = None;
            true
        } else {
            false
        }
    }
}

} // verus!
