use vstd::prelude::*;

use std::collections::HashMap;

use crate::component::ComponentType;
use crate::keys::ComponentDataKey;
use crate::keys::EntityIndex;

verus! {

broadcast use vstd::std_specs::hash::group_hash_axioms;

/// The number under which the data of `component_type` for `entity` is filed.
pub open spec fn mapping_key(entity: EntityIndex, component_type: ComponentType) -> u64 {
    (component_type.index as int * 0x1_0000_0000 + entity.index as int) as u64
}

proof fn lemma_mapping_key_injective(
    e1: EntityIndex,
    c1: ComponentType,
    e2: EntityIndex,
    c2: ComponentType,
)
    requires
        mapping_key(e1, c1) == mapping_key(e2, c2),
    ensures
        e1 == e2,
        c1 == c2,
{
}

fn compute_mapping_key(entity: EntityIndex, component_type: ComponentType) -> (r: u64)
    ensures
        r == mapping_key(entity, component_type),
{
    (component_type.index as u64) * 0x1_0000_0000u64 + (entity.index as u64)
}

/// For each component type and entity, the pool slot of the component value.
pub struct ComponentMappingStorage {
    data_by_entity_by_type: HashMap<u64, ComponentDataKey>,
}

impl ComponentMappingStorage {
    /// The pool slot of the `component_type` value of `entity`, if there is one.
    pub closed spec fn mapping(&self, entity: EntityIndex, component_type: ComponentType) -> Option<
        ComponentDataKey,
    > {
        let k = mapping_key(entity, component_type);
        if self.data_by_entity_by_type@.contains_key(k) {
            Some(self.data_by_entity_by_type@[k])
        } else {
            None
        }
    }

    pub fn new() -> (r: ComponentMappingStorage)
        ensures
            forall|e: EntityIndex, c: ComponentType| #[trigger] r.mapping(e, c) is None,
    {
        ComponentMappingStorage { data_by_entity_by_type: HashMap::new() }
    }

    pub fn has_component_no_validation(&self, entity: EntityIndex, component_type: ComponentType) -> (r:
        bool)
        ensures
            r == self.mapping(entity, component_type) is Some,
    {
        let k = compute_mapping_key(entity, component_type);
        self.data_by_entity_by_type.contains_key(&k)
    }

    pub fn get(&self, entity: EntityIndex, component_type: ComponentType) -> (r: Option<
        ComponentDataKey,
    >)
        ensures
            r == self.mapping(entity, component_type),
    {
        let k = compute_mapping_key(entity, component_type);
        match self.data_by_entity_by_type.get(&k) {
            Some(d) => Some(*d),
            None => None,
        }
    }

    /// Files `data` for `entity` and `component_type`; returns what was filed before.
    pub fn insert(
        &mut self,
        entity: EntityIndex,
        component_type: ComponentType,
        data: ComponentDataKey,
    ) -> (r: Option<ComponentDataKey>)
        ensures
            r == old(self).mapping(entity, component_type),
            final(self).mapping(entity, component_type) == Some(data),
            forall|e: EntityIndex, c: ComponentType|
                (e != entity || c != component_type) ==> #[trigger] final(self).mapping(e, c)
                    == old(self).mapping(e, c),
    {
        let k = compute_mapping_key(entity, component_type);
        let r = self.data_by_entity_by_type.insert(k, data);
        proof {
            assert forall|e: EntityIndex, c: ComponentType|
                (e != entity || c != component_type) implies #[trigger] self.mapping(e, c)
                == old(self).mapping(e, c) by {
                if mapping_key(e, c) == k {
                    lemma_mapping_key_injective(e, c, entity, component_type);
                }
            }
        }
        r
    }

    /// Drops the entry of `entity` and `component_type`; returns it.
    pub fn remove(&mut self, entity: EntityIndex, component_type: ComponentType) -> (r: Option<
        ComponentDataKey,
    >)
        ensures
            r == old(self).mapping(entity, component_type),
            final(self).mapping(entity, component_type) is None,
            forall|e: EntityIndex, c: ComponentType|
                (e != entity || c != component_type) ==> #[trigger] final(self).mapping(e, c)
                    == old(self).mapping(e, c),
    {
        let k = compute_mapping_key(entity, component_type);
        let r = self.data_by_entity_by_type.remove(&k);
        proof {
            assert forall|e: EntityIndex, c: ComponentType|
                (e != entity || c != component_type) implies #[trigger] self.mapping(e, c)
                == old(self).mapping(e, c) by {
                if mapping_key(e, c) == k {
                    lemma_mapping_key_injective(e, c, entity, component_type);
                }
            }
        }
        r
    }
}

} // verus!
