use vstd::prelude::*;

use crate::component::ComponentType;
use crate::component::EcsComponent;
use crate::pools::PoolKey;
use crate::typed_index_vec::TiVecKey;

verus! {

/// Position of an entity slot in the entity storage.
#[derive(Copy, Clone, PartialEq, Eq, Structural, Hash, Debug)]
pub struct EntityIndex {
    pub index: u32,
}

/// Reuse counter of an entity slot: it moves on each time the slot is handed out.
#[derive(Copy, Clone, PartialEq, Eq, Structural, Hash, Debug)]
pub struct EntityGeneration(pub u16);

/// The generation that follows `g`; it wraps around after `u16::MAX`.
pub open spec fn next_generation(g: u16) -> u16 {
    if g == u16::MAX {
        0
    } else {
        (g + 1) as u16
    }
}

impl EntityGeneration {
    pub fn new() -> (r: Self)
        ensures
            r.0 == 0,
    {
        EntityGeneration(0)
    }

    pub fn increment(&mut self)
        requires
            old(self).0 < u16::MAX,
        ensures
            final(self).0 == old(self).0 + 1,
    {
        self.0 = self.0 + 1;
    }

    pub fn to_next_generation(&self) -> (r: Self)
        ensures
            r.0 == next_generation(self.0),
    {
        EntityGeneration(self.0.wrapping_add(1))
    }
}

/// Identity of an entity inside the library: slot and generation.
#[derive(Copy, Clone, PartialEq, Eq, Structural, Hash, Debug)]
pub struct InternalEntityKey {
    pub index: EntityIndex,
    pub generation: EntityGeneration,
    pub temp: bool,
}

/// Identity of an entity as handed to users.
#[derive(Copy, Clone, PartialEq, Eq, Structural, Hash, Debug)]
pub struct EntityKey {
    pub inner: InternalEntityKey,
}

impl InternalEntityKey {
    /// The user facing key for the same slot and generation.
    pub fn export(&self) -> (r: EntityKey)
        ensures
            r.inner.index == self.index,
            r.inner.generation == self.generation,
            !r.inner.temp,
    {
        let index = self.index;
        let generation = self.generation;
        EntityKey { inner: InternalEntityKey { index, generation, temp: false } }
    }
}

/// A component of one entity: the entity and the component type.
#[derive(Copy, Clone, PartialEq, Eq, Structural, Hash, Debug)]
pub struct ComponentKey {
    pub entity: InternalEntityKey,
    pub component_type: ComponentType,
}

impl ComponentKey {
    pub fn new(entity: InternalEntityKey, component_type: ComponentType) -> (r: ComponentKey)
        ensures
            r.entity == entity,
            r.component_type == component_type,
    {
        ComponentKey { entity, component_type }
    }

    /// The component of type `T` of `entity`.
    pub fn of<T: EcsComponent>(entity: InternalEntityKey) -> (r: ComponentKey)
        ensures
            r.entity == entity,
            r.component_type.index == T::INDEX,
    {
        ComponentKey { entity, component_type: T::get_component_type() }
    }
}

/// Slot of a component value in the pool of its type.
#[derive(Copy, Clone, PartialEq, Eq, Structural, Hash, Debug)]
pub struct ComponentDataKey {
    pub index: usize,
}

impl PoolKey for ComponentDataKey {
    open spec fn pool_index(&self) -> usize {
        self.index
    }

    fn as_usize(&self) -> (r: usize) {
        self.index
    }

    fn from_usize(value: usize) -> (r: Self) {
        ComponentDataKey { index: value }
    }
}

/// Slot of a signal payload in the pool of its type.
#[derive(Copy, Clone, PartialEq, Eq, Structural, Hash, Debug)]
pub struct SignalDataKey(pub usize);

impl PoolKey for SignalDataKey {
    open spec fn pool_index(&self) -> usize {
        self.0
    }

    fn as_usize(&self) -> (r: usize) {
        self.0
    }

    fn from_usize(value: usize) -> (r: Self) {
        SignalDataKey(value)
    }
}

/// Position of a filter in the filter manager.
#[derive(Copy, Clone, PartialEq, Eq, Structural, Hash, Debug)]
pub struct InternalFilterKey(pub usize);

impl TiVecKey for InternalFilterKey {
    open spec fn vec_index(&self) -> usize {
        self.0
    }

    fn from_index(index: usize) -> (r: Self) {
        InternalFilterKey(index)
    }

    fn as_index(&self) -> (r: usize) {
        self.0
    }
}

} // verus!
