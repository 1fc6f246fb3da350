use reactex_core::component::ComponentType;
use reactex_core::entity_component_index::EntityComponentIndex;
use reactex_core::entity_storage::EntityStorage;

#[test]
fn three_components_added_and_read() {
    let mut entities = EntityStorage::with_capacity(512);
    let mut components = EntityComponentIndex::new(512, 8);
    let e1 = entities.new_entity();
    components.add_entity(e1.index);
    components.add_component_type(e1.index, ComponentType { index: 11 });
    components.add_component_type(e1.index, ComponentType { index: 12 });
    components.add_component_type(e1.index, ComponentType { index: 13 });

    let component_types = components.get_component_types(e1.index);
    assert_eq!(
        component_types,
        vec![
            ComponentType { index: 11 },
            ComponentType { index: 12 },
            ComponentType { index: 13 }
        ]
    )
}

#[test]
fn three_components_added_and_read_on_the_second_entity() {
    let mut entities = EntityStorage::with_capacity(512);
    let mut components = EntityComponentIndex::new(512, 8);
    entities.new_entity();
    let e1 = entities.new_entity();
    components.add_entity(e1.index);
    components.add_component_type(e1.index, ComponentType { index: 11 });
    components.add_component_type(e1.index, ComponentType { index: 12 });
    components.add_component_type(e1.index, ComponentType { index: 13 });

    let component_types = components.get_component_types(e1.index);
    assert_eq!(
        component_types,
        vec![
            ComponentType { index: 11 },
            ComponentType { index: 12 },
            ComponentType { index: 13 }
        ]
    )
}

#[test]
fn deleting_a_type_keeps_the_other_types() {
    let mut entities = EntityStorage::with_capacity(512);
    let mut components = EntityComponentIndex::new(512, 8);
    let e1 = entities.new_entity();
    let e2 = entities.new_entity();
    components.add_entity(e1.index);
    components.add_entity(e2.index);
    components.add_component_type(e1.index, ComponentType { index: 11 });
    components.add_component_type(e1.index, ComponentType { index: 12 });
    components.add_component_type(e1.index, ComponentType { index: 13 });
    components.add_component_type(e2.index, ComponentType { index: 12 });
    components.delete_component_type(e1.index, ComponentType { index: 11 });
    let mut left = components.get_component_types(e1.index);
    left.sort();
    assert_eq!(left, vec![ComponentType { index: 12 }, ComponentType { index: 13 }]);
    components.delete_component_type(e1.index, ComponentType { index: 40 });
    assert_eq!(components.get_component_types(e1.index).len(), 2);
    assert_eq!(components.get_component_types(e2.index), vec![ComponentType { index: 12 }]);
}
