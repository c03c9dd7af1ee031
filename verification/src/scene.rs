//! The set of entities of a scene, keyed by the id they were given.
use vstd::prelude::*;
use std::collections::HashMap;

verus! {

/// Entities under consecutive ids; `E` is the entity type.
pub struct Scene<E> {
    entities: HashMap<u32, E>,
    entity_id_counter: u32,
}

impl<E> Scene<E> {
    /// The entities by id.
    pub closed spec fn entity_map(&self) -> Map<u32, E> {
        self.entities@
    }

    /// The id the next entity gets.
    pub closed spec fn next_id(&self) -> u32 {
        self.entity_id_counter
    }

    /// An empty scene whose first entity gets id 0.
    pub fn new() -> (r: Self)
        ensures
            r.entity_map() == Map::<u32, E>::empty(),
            r.next_id() == 0,
    {
        Scene { entities: HashMap::new(), entity_id_counter: 0 }
    }

    /// Adds an entity under the next id.
    pub fn add_entity(&mut self, entity: E)
        requires
            old(self).next_id() < u32::MAX,
        ensures
            final(self).entity_map() == old(self).entity_map().insert(old(self).next_id(), entity),
            final(self).next_id() == old(self).next_id() + 1,
    {
        self.entities.insert(self.entity_id_counter, entity);
        self.entity_id_counter += 1;
    }

    /// Removes the entity with an id, if present.
    pub fn remove_entity(&mut self, entity_id: u32)
        ensures
            final(self).entity_map() == old(self).entity_map().remove(entity_id),
            final(self).next_id() == old(self).next_id(),
    {
        self.entities.remove(&entity_id);
    }
}

} // verus!
