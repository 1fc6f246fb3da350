use reactex_core::cause::Cause;
use reactex_core::cause::OptTinyVec;
use reactex_core::collections::AssocMap;
use reactex_core::collections::KeySet;
use reactex_core::component::component_type_gt;
use reactex_core::component::component_type_of;
use reactex_core::component::sort_component_types;
use reactex_core::component::ComponentType;
use reactex_core::component::EcsComponent;
use reactex_core::component_mappings::ComponentMappingStorage;
use reactex_core::entity_storage::EntityStorage;
use reactex_core::entity_storage::TemporaryEntityKeyStorage;
use reactex_core::entity_storage::ValidateUncommitted;
use reactex_core::errors::ComponentError;
use reactex_core::errors::ComponentNotFoundError;
use reactex_core::errors::EntityError;
use reactex_core::errors::WorldError;
use reactex_core::filter::FilterDesc;
use reactex_core::keys::ComponentDataKey;
use reactex_core::keys::EntityGeneration;
use reactex_core::keys::EntityIndex;
use reactex_core::keys::InternalFilterKey;
use reactex_core::optimistic_list::OptimisticList;
use reactex_core::pools::SpecificPool;
use reactex_core::pools::SpecificPoolPump;
use reactex_core::typed_index_vec::TiVec;

struct Health;

impl EcsComponent for Health {
    const INDEX: u16 = 5;
    const NAME: &'static str = "Health";
}

fn ct(index: u16) -> ComponentType {
    ComponentType { index }
}

#[test]
fn pool_reuses_the_oldest_hole_first() {
    let mut pool: SpecificPool<usize, &'static str> = SpecificPool::new();
    let a = pool.add("a");
    let b = pool.add("b");
    let c = pool.add("c");
    let d = pool.add("d");
    assert_eq!((a, b, c, d), (0, 1, 2, 3));
    assert_eq!(pool.del_and_get(&b), Some("b"));
    assert_eq!(pool.del_and_get(&a), Some("a"));
    assert_eq!(pool.get(&b), None);
    assert_eq!(pool.add("e"), 1);
    assert_eq!(pool.add("f"), 0);
    assert_eq!(pool.add("g"), 4);
    assert_eq!(pool.get(&2), Some(&"c"));
}

#[test]
fn pool_drops_the_last_slot_instead_of_making_a_hole() {
    let mut pool: SpecificPool<usize, i32> = SpecificPool::new();
    pool.add(1);
    let last = pool.add(2);
    pool.del(&last);
    assert_eq!(pool.add(3), 1);
}

#[test]
fn pool_update_and_get_mut_change_values_in_place() {
    let mut pool: SpecificPool<ComponentDataKey, i32> = SpecificPool::new();
    let k = pool.add(10);
    assert!(pool.update(&k, |v| v + 5));
    assert_eq!(pool.get(&k), Some(&15));
    if let Some(v) = pool.get_mut(&k) {
        *v = 99;
    }
    assert_eq!(pool.get(&k), Some(&99));
    assert!(!pool.update(&ComponentDataKey { index: 7 }, |v| v));
    pool.clear();
    assert_eq!(pool.get(&k), None);
}

#[test]
fn pump_moves_a_value_between_pools() {
    let mut src: SpecificPool<usize, i32> = SpecificPool::new();
    let mut dst: SpecificPool<ComponentDataKey, i32> = SpecificPool::new();
    dst.add(1);
    let k = src.add(42);
    let pump: SpecificPoolPump<usize, ComponentDataKey, i32> = SpecificPoolPump::new();
    let moved = pump.do_move(&mut src, &mut dst, &k);
    assert_eq!(moved, ComponentDataKey { index: 1 });
    assert_eq!(dst.get(&moved), Some(&42));
    assert_eq!(src.get(&k), None);
}

#[test]
fn typed_index_vec_hands_out_keys_in_order() {
    let mut v: TiVec<InternalFilterKey, String> = TiVec::new();
    let a = v.push_with_key(|k| format!("first {}", k.0));
    let b = v.push_with_key(|k| format!("second {}", k.0));
    assert_eq!(a, InternalFilterKey(0));
    assert_eq!(b, InternalFilterKey(1));
    assert_eq!(v.len(), 2);
    assert_eq!(v.get(&b), Some(&"second 1".to_string()));
    v.set(&a, "changed".to_string());
    assert_eq!(v.iter()[0], "changed");
    assert_eq!(v.get(&InternalFilterKey(5)), None);
}

#[test]
fn optimistic_list_keeps_the_order_of_pushes() {
    let mut list: OptimisticList<i32> = OptimisticList::default();
    for i in 0..5 {
        list.push(i);
    }
    let mut it = list.iter();
    let mut seen = Vec::new();
    while let Some(v) = it.next() {
        seen.push(*v);
    }
    assert_eq!(seen, vec![0, 1, 2, 3, 4]);
}

#[test]
fn optimistic_list_variant_follows_its_length() {
    let mut list: OptimisticList<i32> = OptimisticList::default();
    assert!(matches!(list, OptimisticList::Empty));
    list.push(1);
    assert!(matches!(list, OptimisticList::One(1)));
    list.push(2);
    assert!(matches!(list, OptimisticList::Two(1, 2)));
    list.push(3);
    assert!(matches!(&list, OptimisticList::Multiple(v) if *v == vec![1, 2, 3]));
}

#[test]
fn entity_storage_reuses_a_freed_slot_with_a_new_generation() {
    let mut s = EntityStorage::with_capacity(4);
    let k = s.new_entity();
    s.mark_committed(k.index);
    s.delete_entity_data(k.index);
    let k2 = s.new_entity();
    s.mark_committed(k2.index);
    assert_eq!(k2.index, k.index);
    assert_ne!(k2.generation, k.generation);
    assert_eq!(s.validate(k, ValidateUncommitted::DenyUncommitted), Err(EntityError::IsStale));
    assert_eq!(s.validate(k, ValidateUncommitted::AllowUncommitted), Err(EntityError::IsStale));
    assert_eq!(s.validate(k2, ValidateUncommitted::DenyUncommitted), Ok(()));
}

#[test]
fn opt_tiny_vec_extends_in_order() {
    let mut a = OptTinyVec::single(Cause::initial());
    a.push(Cause::consequence("second", vec![]));
    a.extend(OptTinyVec::from_iterable(vec![
        Cause::consequence("third", vec![]),
        Cause::consequence("fourth", vec![Cause::initial()]),
    ]));
    assert_eq!(a.len(), 4);
    assert_eq!(a.get(2).get_title(), "third");
    let titles: Vec<&str> = a.into_vec().iter().map(|c| c.get_title()).collect();
    assert_eq!(titles, vec!["initial", "second", "third", "fourth"]);
}

#[test]
fn component_types_are_sorted() {
    let sorted = sort_component_types([ct(9), ct(2), ct(7), ct(2)]);
    assert_eq!(sorted, [ct(2), ct(2), ct(7), ct(9)]);
    assert_eq!(sort_component_types([ct(7), ct(2), ct(9), ct(2)]), sorted);
    assert!(component_type_gt(ct(3), ct(1)));
    assert!(!component_type_gt(ct(1), ct(1)));
    assert_eq!(component_type_of::<Health>(), ct(5));
    assert_eq!(Health::get_component_type(), ct(5));
}

#[test]
fn entity_storage_hands_out_temporary_keys_in_persist_order() {
    let mut storage = EntityStorage::with_capacity(2);
    let first = storage.new_entity();
    let second = storage.new_entity();
    storage.delete_entity_data(first.index);
    storage.delete_entity_data(second.index);
    let mut state = TemporaryEntityKeyStorage::new();
    let t1 = storage.generate_temporary(&mut state);
    let t2 = storage.generate_temporary(&mut state);
    let t3 = storage.generate_temporary(&mut state);
    let (i1, i2, i3) = (t1.inner, t2.inner, t3.inner);
    assert_eq!(storage.persist_generated(t1), i1);
    assert_eq!(storage.persist_generated(t2), i2);
    assert_eq!(storage.persist_generated(t3), i3);
    assert_eq!(i3.index.index, 2);
    assert_eq!(storage.slot_count(), 4);
    assert_eq!(storage.validate(first, ValidateUncommitted::AllowUncommitted), Err(EntityError::IsStale));
}

#[test]
fn entity_storage_listing_follows_persists_and_deletes() {
    let mut storage = EntityStorage::with_capacity(4);
    let a = storage.new_entity();
    let b = storage.new_entity();
    let c = storage.new_entity();
    storage.mark_committed(a.index);
    storage.mark_committed(b.index);
    storage.mark_committed(c.index);
    assert_eq!(storage.get_all(), vec![a, b, c]);
    storage.delete_entity_data(b.index);
    assert_eq!(storage.get_all(), vec![a, c]);
    let mut state = TemporaryEntityKeyStorage::new();
    let t1 = storage.generate_temporary(&mut state);
    let t2 = storage.generate_temporary(&mut state);
    assert_ne!(t1.inner.index, t2.inner.index);
    assert_eq!(t1.inner.index, b.index);
    assert_eq!(t2.inner.index.index, 3);
    storage.persist_generated(t1);
    assert_eq!(storage.get_all(), vec![a, c]);
}

#[test]
fn entity_storage_validates_and_lists_committed_entities() {
    let mut storage = EntityStorage::with_capacity(4);
    let a = storage.new_entity();
    let b = storage.new_entity();
    assert_eq!(storage.validate(a, ValidateUncommitted::DenyUncommitted), Err(EntityError::NotCommitted));
    assert_eq!(storage.validate(a, ValidateUncommitted::AllowUncommitted), Ok(()));
    storage.mark_committed(b.index);
    assert!(storage.is_not_committed(a.index));
    assert_eq!(storage.get_all(), vec![b]);
    storage.delete_entity_data(b.index);
    assert_eq!(storage.validate(b, ValidateUncommitted::AllowUncommitted), Err(EntityError::NotExists));
    assert_eq!(storage.get_all(), vec![]);
}

#[test]
fn generation_wraps_around() {
    let mut g = EntityGeneration::new();
    g.increment();
    assert_eq!(g.0, 1);
    assert_eq!(EntityGeneration(u16::MAX).to_next_generation(), EntityGeneration(0));
}

#[test]
fn component_mappings_are_kept_per_entity_and_type() {
    let mut m = ComponentMappingStorage::new();
    let e1 = EntityIndex { index: 1 };
    let e2 = EntityIndex { index: 2 };
    assert_eq!(m.insert(e1, ct(1), ComponentDataKey { index: 10 }), None);
    m.insert(e2, ct(1), ComponentDataKey { index: 20 });
    m.insert(e1, ct(2), ComponentDataKey { index: 30 });
    assert_eq!(m.get(e1, ct(1)), Some(ComponentDataKey { index: 10 }));
    assert_eq!(m.get(e2, ct(1)), Some(ComponentDataKey { index: 20 }));
    assert!(m.has_component_no_validation(e1, ct(2)));
    assert_eq!(m.remove(e1, ct(1)), Some(ComponentDataKey { index: 10 }));
    assert!(!m.has_component_no_validation(e1, ct(1)));
    assert!(m.has_component_no_validation(e1, ct(2)));
}

#[test]
fn assoc_map_and_key_set_keep_keys_once() {
    let mut map: AssocMap<InternalFilterKey, i32> = AssocMap::new();
    map.insert_new(InternalFilterKey(1), 10);
    map.insert_new(InternalFilterKey(2), 20);
    assert!(map.contains_key(&InternalFilterKey(1)));
    assert_eq!(map.remove(&InternalFilterKey(1)), Some(10));
    assert_eq!(map.get(&InternalFilterKey(2)), Some(&20));
    assert_eq!(map.take_all(), vec![(InternalFilterKey(2), 20)]);
    assert!(map.is_empty());

    let mut set: KeySet<InternalFilterKey> = KeySet::new();
    set.insert(InternalFilterKey(3));
    set.insert(InternalFilterKey(3));
    set.insert(InternalFilterKey(4));
    assert_eq!(set.as_slice(), &[InternalFilterKey(3), InternalFilterKey(4)]);
    set.remove(&InternalFilterKey(3));
    assert!(!set.contains(&InternalFilterKey(3)));
    assert_eq!(set.take_all(), vec![InternalFilterKey(4)]);
}

#[test]
fn filter_descriptions_compare_by_their_types() {
    const A: &[ComponentType] = &[ComponentType { index: 1 }, ComponentType { index: 2 }];
    const B: &[ComponentType] = &[ComponentType { index: 1 }, ComponentType { index: 2 }];
    const C: &[ComponentType] = &[ComponentType { index: 2 }, ComponentType { index: 1 }];
    assert!(FilterDesc::new(A).same_as(&FilterDesc::new(B)));
    assert!(!FilterDesc::new(A).same_as(&FilterDesc::new(C)));
}

#[test]
fn causes_record_their_reasons() {
    let root = Cause::initial();
    let shared = root.share();
    assert_eq!(shared.get_title(), "initial");
    let derived = Cause::consequence("handler", vec![root, shared]);
    assert_eq!(derived.get_title(), "handler");
    assert_eq!(derived.get_reasons().len(), 2);
    assert_eq!(derived.get_reasons()[1].get_title(), "initial");
}

#[test]
fn errors_convert_into_world_errors() {
    let e: WorldError = EntityError::IsStale.into();
    assert_eq!(e, WorldError::Entity(EntityError::IsStale));
    let c: ComponentError = ComponentNotFoundError::Data.into();
    let w: WorldError = c.into();
    assert_eq!(w, WorldError::Component(ComponentError::NotFound(ComponentNotFoundError::Data)));
}
