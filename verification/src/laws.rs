use vstd::prelude::*;

use crate::collections::entries_to_map;
use crate::collections::entry_keys;
use crate::cause::Cause;
use crate::component::ComponentType;
use crate::entity_storage::ValidateUncommitted;
use crate::filter::after_component_added;
use crate::filter::after_disappear;
use crate::filter::all_present;
use crate::filter::FilterView;
use crate::filter::FilterDesc;
use crate::keys::ComponentKey;
use crate::keys::EntityKey;
use crate::keys::InternalEntityKey;
use crate::keys::InternalFilterKey;
use crate::world::component_key_of;
use crate::world::is_live;
use crate::world::added_filters;
use crate::world::created_filters;
use crate::world::disappeared_filters;
use crate::world::entity_disappeared_filters;
use crate::world::added_rows;
use crate::world::limit_reached;
use crate::world::matched_tracked;
use crate::world::order_pairs;
use crate::world::targets;
use crate::world::SignalDelivery;
use crate::world::World;
use crate::world::HandlerBinding;
use crate::world::handlers_for;
use crate::world::destroyed_filters;
use crate::world::removed_filters;
use crate::world::disappeared_marks;
use crate::world::added_appear;
use crate::change_buffer::Change;
use crate::change_buffer::changes_applied;
use crate::change_buffer::key_of;

verus! {

/// The keys of an order of the entries of `m` are the keys of `m`.
pub proof fn lemma_order_keys<K, T>(order: Seq<(K, T)>, m: Map<K, T>)
    requires
        entry_keys(order).no_duplicates(),
        entries_to_map(order) == m,
    ensures
        forall|k: K| #[trigger] m.contains_key(k) <==> entry_keys(order).contains(k),
{
    crate::collections::lemma_entries_to_map(order);
}

/// A component added to an entity that is alive and has no such component,
/// with nothing else queued for it, can be read after the queued additions
/// are flushed: its value is the added one (unless the component table hit
/// the limits of the machine).
pub proof fn law_added_component_is_read_back<V, S, M: FnOnce(V) -> V>(
    w0: World<V, S, M>,
    w1: World<V, S, M>,
    w2: World<V, S, M>,
    entity: EntityKey,
    component_type: ComponentType,
    value: V,
)
    requires
        w0.wf(),
        w1.wf(),
        w0.in_range(entity),
        w0.validation(entity, ValidateUncommitted::AllowUncommitted) is Ok,
        w0.mapping(entity.inner.index, component_type) is None,
        !targets(w0.pending_adds(), entity.inner.index, component_type),
        World::add_effect(&w0, &w1, entity, component_type, value),
        World::flush_component_addition_done(&w1, &w2),
    ensures
        w2.component_value(entity.inner.index, component_type) == Some(value) || limit_reached(
            w2.component_rows(),
            w2.component_table_len(),
            entity.inner.index.index as int,
        ),
{
    let ck = component_key_of(entity, component_type);
    let e = entity.inner.index;
    assert(w1.pending_adds().contains_key(ck));
    assert(w1.pending_adds()[ck][0].data == value);
    assert(is_live(w1.entities(), ck.entity));
    assert(w1.mapping(e, component_type) is None);
    let order = choose|order: Seq<(ComponentKey, Seq<crate::cause::Cause>)>|
        #[trigger] World::additions_applied(&w1, &w2, order);
    assert(World::additions_applied(&w1, &w2, order));
    if order_pairs(order).contains((e, component_type)) {
        let i = choose|i: int| 0 <= i < order_pairs(order).len() && order_pairs(order)[i] == (e, component_type);
        let k = order[i].0;
        assert(w1.pending_adds().contains_key(k));
        if k != ck {
            assert(w0.pending_adds().contains_key(k));
            assert(targets(w0.pending_adds(), e, component_type));
        }
    } else {
        assert(w2.mapping(e, component_type) == w1.mapping(e, component_type));
    }
}


/// Of two values added to the same component in one transaction, the first
/// is the one read after the additions are flushed (unless the component
/// table hit the limits of the machine).
pub proof fn law_first_added_value_wins<V, S, M: FnOnce(V) -> V>(
    w0: World<V, S, M>,
    w1: World<V, S, M>,
    w2: World<V, S, M>,
    w3: World<V, S, M>,
    entity: EntityKey,
    component_type: ComponentType,
    first: V,
    second: V,
)
    requires
        w0.wf(),
        w1.wf(),
        w2.wf(),
        w0.in_range(entity),
        w0.validation(entity, ValidateUncommitted::AllowUncommitted) is Ok,
        w0.mapping(entity.inner.index, component_type) is None,
        !targets(w0.pending_adds(), entity.inner.index, component_type),
        World::add_effect(&w0, &w1, entity, component_type, first),
        World::add_effect(&w1, &w2, entity, component_type, second),
        World::flush_component_addition_done(&w2, &w3),
    ensures
        w3.component_value(entity.inner.index, component_type) == Some(first) || limit_reached(
            w3.component_rows(),
            w3.component_table_len(),
            entity.inner.index.index as int,
        ),
{
    let ck = component_key_of(entity, component_type);
    let e = entity.inner.index;
    assert(w2.pending_adds().contains_key(ck));
    assert(w2.pending_adds()[ck][0].data == first);
    assert(is_live(w2.entities(), ck.entity));
    assert(w2.mapping(e, component_type) is None);
    let order = choose|order: Seq<(ComponentKey, Seq<crate::cause::Cause>)>|
        #[trigger] World::additions_applied(&w2, &w3, order);
    assert(World::additions_applied(&w2, &w3, order));
    if order_pairs(order).contains((e, component_type)) {
        let i = choose|i: int| 0 <= i < order_pairs(order).len() && order_pairs(order)[i] == (e, component_type);
        let k = order[i].0;
        assert(w2.pending_adds().contains_key(k));
        if k != ck {
            assert(w1.pending_adds().contains_key(k));
            assert(w0.pending_adds().contains_key(k));
            assert(targets(w0.pending_adds(), e, component_type));
        }
    } else {
        assert(w3.mapping(e, component_type) == w2.mapping(e, component_type));
    }
}

/// A component removed from a committed entity is gone once its disappear
/// events are generated and the removals are flushed.
pub proof fn law_removed_component_is_gone<V, S, M: FnOnce(V) -> V>(
    w0: World<V, S, M>,
    w1: World<V, S, M>,
    w2: World<V, S, M>,
    w3: World<V, S, M>,
    entity: EntityKey,
    component_type: ComponentType,
)
    requires
        w0.wf(),
        w0.in_range(entity),
        w0.validation(entity, ValidateUncommitted::DenyUncommitted) is Ok,
        w0.mapping(entity.inner.index, component_type) is Some,
        !w0.pending_adds().contains_key(component_key_of(entity, component_type)),
        World::remove_effect(&w0, &w1, entity, component_type),
        World::generate_disappear_events_done(&w1, &w2),
        World::flush_component_removals_done(&w2, &w3),
    ensures
        w3.mapping(entity.inner.index, component_type) is None,
        w3.component_value(entity.inner.index, component_type) is None,
{
    let ck = component_key_of(entity, component_type);
    assert(w1.to_delete().contains_key(ck));
    let order = choose|order: Seq<(ComponentKey, Seq<crate::cause::Cause>)>|
        #[trigger] crate::world::is_order_of(order, w1.to_delete()) && w2.to_delete_after()
            == crate::world::causes_folded(w1.to_delete_after(), order) && w2.filters()
            == crate::world::disappeared_filters(w1.filters(), w1.component_rows(), order)
            && w2.new_disappear() == crate::world::disappeared_marks(
            w1.new_disappear(),
            w1.filters(),
            w1.component_rows(),
            order,
        );
    lemma_order_keys(order, w1.to_delete());
    crate::world::lemma_causes_folded_dom(w1.to_delete_after(), order);
    assert(entry_keys(order).to_set().contains(ck));
    assert(w2.to_delete_after().contains_key(ck));
    assert(targets(w2.to_delete_after(), entity.inner.index, component_type));
}

/// A created entity exists at once (for validation that accepts
/// uncommitted entities) and passes every validation once the creations are
/// flushed.
pub proof fn law_created_entity_is_committed<V, S, M: FnOnce(V) -> V>(
    w0: World<V, S, M>,
    w1: World<V, S, M>,
    w2: World<V, S, M>,
    key: crate::keys::InternalEntityKey,
    cause: crate::cause::Cause,
    strategy: ValidateUncommitted,
)
    requires
        w0.wf(),
        World::entity_created(&w0, &w1, key, cause),
        World::flush_entity_create_actions_done(&w1, &w2),
    ensures
        w1.validation((EntityKey { inner: key }), ValidateUncommitted::AllowUncommitted) is Ok,
        w2.validation((EntityKey { inner: key }), strategy) is Ok,
{
    let idx = key.index.index as int;
    assert(w0.entities().len() > 0) by {
        w0.lemma_has_slots();
    }
    assert(idx < w1.entities().len());
    assert(w1.to_commit().contains_key(key));
    assert(w1.to_commit().dom().contains(key));
    assert(w2.entities()[idx] == crate::world::committed_slot(w1.entities(), w1.to_commit().dom(), idx));
}


proof fn lemma_row_removals_dom(
    m: Map<ComponentKey, Seq<crate::cause::Cause>>,
    entity: crate::keys::InternalEntityKey,
    row: Seq<ComponentType>,
    causes: Seq<crate::cause::Cause>,
)
    ensures
        forall|k: ComponentKey|
            m.contains_key(k) ==> #[trigger] crate::world::row_removals_folded(
                m,
                entity,
                row,
                causes,
            ).contains_key(k),
        forall|c: ComponentType|
            row.contains(c) ==> #[trigger] crate::world::row_removals_folded(
                m,
                entity,
                row,
                causes,
            ).contains_key(ComponentKey { entity, component_type: c }),
    decreases row.len(),
{
    if row.len() > 0 {
        lemma_row_removals_dom(m, entity, row.drop_last(), causes);
        let prev = crate::world::row_removals_folded(m, entity, row.drop_last(), causes);
        let cur = crate::world::row_removals_folded(m, entity, row, causes);
        assert(cur == crate::world::causes_added(
            prev,
            ComponentKey { entity, component_type: row.last() },
            causes,
        ));
        assert forall|k: ComponentKey| m.contains_key(k) implies #[trigger] cur.contains_key(k) by {
            assert(prev.contains_key(k));
        }
        assert forall|c: ComponentType| row.contains(c) implies #[trigger] cur.contains_key(
            ComponentKey { entity, component_type: c },
        ) by {
            if c != row.last() {
                let i = choose|i: int| 0 <= i < row.len() && row[i] == c;
                assert(row.drop_last()[i] == c);
                assert(row.drop_last().contains(c));
                assert(prev.contains_key(ComponentKey { entity, component_type: c }));
            }
        }
    }
}

proof fn lemma_scheduled_removals_dom(
    m: Map<ComponentKey, Seq<crate::cause::Cause>>,
    rows: Seq<Seq<ComponentType>>,
    order: Seq<(crate::keys::InternalEntityKey, Seq<crate::cause::Cause>)>,
)
    ensures
        forall|k: ComponentKey|
            m.contains_key(k) ==> #[trigger] crate::world::scheduled_removals(
                m,
                rows,
                order,
            ).contains_key(k),
        forall|i: int, c: ComponentType|
            0 <= i < order.len() && rows[order[i].0.index.index as int].contains(c)
                ==> #[trigger] crate::world::scheduled_removals(m, rows, order).contains_key(
                (ComponentKey { entity: order[i].0, component_type: c }),
            ) && #[trigger] order[i] == order[i],
    decreases order.len(),
{
    if order.len() > 0 {
        let prev = crate::world::scheduled_removals(m, rows, order.drop_last());
        lemma_scheduled_removals_dom(m, rows, order.drop_last());
        let k = order.last().0;
        lemma_row_removals_dom(prev, k, rows[k.index.index as int], order.last().1);
        assert forall|i: int, c: ComponentType|
            0 <= i < order.len() && rows[order[i].0.index.index as int].contains(c)
                implies #[trigger] crate::world::scheduled_removals(m, rows, order).contains_key(
            (ComponentKey { entity: order[i].0, component_type: c }),
        ) && #[trigger] order[i] == order[i] by {
            if i < order.len() - 1 {
                assert(order.drop_last()[i] == order[i]);
                assert(prev.contains_key(ComponentKey { entity: order[i].0, component_type: c }));
            }
        }
    }
}

/// Destroying a committed entity takes effect when the pipeline has
/// scheduled the removal of its components, generated the disappear events,
/// flushed the removals and the destructions: the entity no longer exists
/// and none of its components is left.
pub proof fn law_destroyed_entity_is_gone<V, S, M: FnOnce(V) -> V>(
    w0: World<V, S, M>,
    w1: World<V, S, M>,
    w2: World<V, S, M>,
    w3: World<V, S, M>,
    w4: World<V, S, M>,
    w5: World<V, S, M>,
    entity: EntityKey,
    component_type: ComponentType,
)
    requires
        w0.wf(),
        w0.in_range(entity),
        w0.validation(entity, ValidateUncommitted::DenyUncommitted) is Ok,
        World::destroy_effect(&w0, &w1, entity),
        World::schedule_destroyed_entities_component_removal_done(&w1, &w2),
        World::generate_disappear_events_done(&w2, &w3),
        World::flush_component_removals_done(&w3, &w4),
        World::flush_entity_destroy_actions_done(&w4, &w5),
    ensures
        w5.validation(entity, ValidateUncommitted::AllowUncommitted) == Err::<
            (),
            crate::errors::EntityError,
        >(crate::errors::EntityError::NotExists),
        w0.component_rows()[entity.inner.index.index as int].contains(component_type) ==> w5.mapping(
            entity.inner.index,
            component_type,
        ) is None,
{
    let k = entity.inner;
    let idx = k.index.index as int;
    assert(w1.to_destroy().contains_key(k));
    let o1 = choose|order: Seq<(crate::keys::InternalEntityKey, Seq<crate::cause::Cause>)>|
        #[trigger] crate::world::is_order_of(order, w1.to_destroy()) && w2.to_destroy_after()
            == crate::world::causes_folded(w1.to_destroy_after(), order) && w2.to_delete()
            == crate::world::scheduled_removals(w1.to_delete(), w1.component_rows(), order)
            && w2.filters() == crate::world::entity_disappeared_filters(
            w1.filters(),
            w1.all_entities_filter(),
            order,
        ) && w2.new_disappear() == crate::world::entity_disappeared_marks(
            w1.new_disappear(),
            w1.filters(),
            w1.all_entities_filter(),
            order,
        );
    lemma_order_keys(o1, w1.to_destroy());
    crate::world::lemma_causes_folded_dom(w1.to_destroy_after(), o1);
    assert(entry_keys(o1).to_set().contains(k));
    assert(w2.to_destroy_after().contains_key(k));
    assert(w5.entities()[idx] == crate::world::destroyed_slot(w4.entities(), w4.to_destroy_after().dom(), idx));
    assert(w4.to_destroy_after().dom().contains(k));
    assert(is_live(w4.entities(), k));
    if w0.component_rows()[idx].contains(component_type) {
        let ck = ComponentKey { entity: k, component_type };
        let j = choose|j: int| 0 <= j < entry_keys(o1).len() && entry_keys(o1)[j] == k;
        assert(o1[j].0 == k);
        lemma_scheduled_removals_dom(w1.to_delete(), w1.component_rows(), o1);
        assert(w2.to_delete().contains_key(ck));
        let o2 = choose|order: Seq<(ComponentKey, Seq<crate::cause::Cause>)>|
            #[trigger] crate::world::is_order_of(order, w2.to_delete()) && w3.to_delete_after()
                == crate::world::causes_folded(w2.to_delete_after(), order) && w3.filters()
                == crate::world::disappeared_filters(w2.filters(), w2.component_rows(), order)
                && w3.new_disappear() == crate::world::disappeared_marks(
                w2.new_disappear(),
                w2.filters(),
                w2.component_rows(),
                order,
            );
        lemma_order_keys(o2, w2.to_delete());
        crate::world::lemma_causes_folded_dom(w2.to_delete_after(), o2);
        assert(entry_keys(o2).to_set().contains(ck));
        assert(w3.to_delete_after().contains_key(ck));
        assert(targets(w3.to_delete_after(), k.index, component_type));
        assert(w4.mapping(k.index, component_type) is None);
    }
}


/// A value added to a pool is what the pool holds under the returned key.
pub proof fn law_pool_added_value_read_back<K: crate::pools::PoolKey, V>(
    p0: crate::pools::SpecificPool<K, V>,
    p1: crate::pools::SpecificPool<K, V>,
    key: K,
    value: V,
)
    requires
        p0.wf(),
        crate::pools::SpecificPool::add_done(&p0, &p1, key, value),
    ensures
        (key.pool_index() as int) < p1@.len(),
        p1@[key.pool_index() as int] == Some(value),
        forall|i: int|
            0 <= i < p0@.len() && (#[trigger] p0@[i]) is Some ==> p1@[i] == p0@[i],
{
}

/// In a pool without free slots, the slot freed by deleting a value (not the
/// last one) is the slot the next added value takes.
pub proof fn law_pool_freed_slot_is_reused<K: crate::pools::PoolKey, V>(
    p0: crate::pools::SpecificPool<K, V>,
    p1: crate::pools::SpecificPool<K, V>,
    p2: crate::pools::SpecificPool<K, V>,
    freed: K,
    added: K,
    value: V,
)
    requires
        p0.wf(),
        p0.holes() == Seq::<usize>::empty(),
        (freed.pool_index() as int) < p0@.len() - 1,
        p0@[freed.pool_index() as int] is Some,
        crate::pools::SpecificPool::del_done(&p0, &p1, freed),
        crate::pools::SpecificPool::add_done(&p1, &p2, added, value),
    ensures
        added.pool_index() == freed.pool_index(),
        p2@[freed.pool_index() as int] == Some(value),
{
}

/// Registering a query for component types that no query tracked before
/// makes it track exactly the committed entities that have a committed
/// component of each of those types; `query` then lists their keys.
pub proof fn law_registered_query_tracks_matching_entities<V, S, M: FnOnce(V) -> V>(
    w0: World<V, S, M>,
    w1: World<V, S, M>,
    filter: FilterDesc,
)
    requires
        w0.wf(),
        w1.wf(),
        !w0.query_registered(filter),
        exists|k: InternalFilterKey|
            #[trigger] matched_tracked(
                w0.filters(),
                w1.filters(),
                k,
                filter.component_types@,
                w0.matching_entities(filter.component_types@),
            ),
        World::only_filters_changed(&w0, &w1),
    ensures
        w1.query_registered(filter),
        forall|j: int|
            0 <= j < w1.filters().len() && #[trigger] w1.filters()[j].criteria == filter.component_types@
                ==> w1.filters()[j].matched == Some(w1.matching_entities(filter.component_types@)),
{
    let criteria = filter.component_types@;
    let k = choose|k: InternalFilterKey|
        #[trigger] matched_tracked(w0.filters(), w1.filters(), k, criteria, w0.matching_entities(criteria));
    assert(w1.matching_entities(criteria) =~= w0.matching_entities(criteria)) by {
        assert forall|e: InternalEntityKey| #[trigger] w1.matching_entities(criteria).contains(e)
            == w0.matching_entities(criteria).contains(e) by {
            assert forall|i: int| 0 <= i < criteria.len() implies #[trigger] w1.mapping(e.index, criteria[i])
                == w0.mapping(e.index, criteria[i]) by {}
        }
    }
    let ki = k.0 as int;
    if ki < w0.filters().len() {
        assert(w0.filters()[ki].criteria == criteria);
        assert(w0.filters()[ki].matched is None);
    }
    assert(w1.filters()[ki].criteria == criteria);
    assert(w1.filters()[ki].matched == Some(w0.matching_entities(criteria)));
    assert forall|j: int|
        0 <= j < w1.filters().len() && #[trigger] w1.filters()[j].criteria == criteria implies w1.filters()[j].matched
        == Some(w1.matching_entities(criteria)) by {
        w1.law_filter_criteria_unique(j, ki);
    }
}

/// Additions keep the number of rows, and a type once in a row stays there.
proof fn lemma_rows_grow(rows: Seq<Seq<ComponentType>>, order: Seq<(ComponentKey, Seq<Cause>)>, p: int)
    requires
        0 <= p <= order.len(),
        forall|i: int|
            0 <= i < order.len() ==> (#[trigger] order[i]).0.entity.index.index < rows.len(),
    ensures
        added_rows(rows, order).len() == rows.len(),
        added_rows(rows, order.take(p)).len() == rows.len(),
        forall|x: int, t: ComponentType|
            0 <= x < rows.len() && #[trigger] added_rows(rows, order.take(p))[x].contains(t)
                ==> added_rows(rows, order)[x].contains(t),
    decreases order.len(),
{
    if order.len() == 0 {
        assert(order.take(p) =~= order);
    } else if p == order.len() {
        assert(order.take(p) =~= order);
        lemma_rows_grow(rows, order.drop_last(), 0);
    } else {
        let prev = order.drop_last();
        assert(prev.take(p) =~= order.take(p));
        assert forall|i: int| 0 <= i < prev.len() implies (#[trigger] prev[i]).0.entity.index.index
            < rows.len() by {
            assert(prev[i] == order[i]);
        }
        lemma_rows_grow(rows, prev, p);
        let k = order.last().0;
        let e = k.entity.index.index as int;
        assert(order[order.len() - 1] == order.last());
        assert forall|x: int, t: ComponentType|
            0 <= x < rows.len() && #[trigger] added_rows(rows, order.take(p))[x].contains(t)
                implies added_rows(rows, order)[x].contains(t) by {
            let before = added_rows(rows, prev)[x];
            assert(before.contains(t));
            if x == e {
                let w = choose|w: int| 0 <= w < before.len() && before[w] == t;
                assert(added_rows(rows, order)[x] == before.push(k.component_type));
                assert(added_rows(rows, order)[x][w] == t);
            }
        }
    }
}

/// Additions keep the number of filters, their criteria, and which of them
/// track matched entities or record appear events.
proof fn lemma_added_filters_shape(
    fs: Seq<FilterView>,
    rows: Seq<Seq<ComponentType>>,
    order: Seq<(ComponentKey, Seq<Cause>)>,
)
    ensures
        added_filters(fs, rows, order).len() == fs.len(),
        forall|j: int|
            0 <= j < fs.len() ==> {
                let f = #[trigger] added_filters(fs, rows, order)[j];
                &&& f.criteria == fs[j].criteria
                &&& f.appear is Some <==> fs[j].appear is Some
                &&& f.matched is Some <==> fs[j].matched is Some
            },
    decreases order.len(),
{
    if order.len() > 0 {
        lemma_added_filters_shape(fs, rows, order.drop_last());
    }
}

/// Additions keep an entity among the appear events and the matched
/// entities of a filter once it is there.
proof fn lemma_appear_kept(
    fs: Seq<FilterView>,
    rows: Seq<Seq<ComponentType>>,
    order: Seq<(ComponentKey, Seq<Cause>)>,
    p: int,
    j: int,
    x: InternalEntityKey,
)
    requires
        0 <= p <= order.len(),
        0 <= j < fs.len(),
        added_filters(fs, rows, order.take(p))[j].appear matches Some(m) && m.contains_key(x),
        added_filters(fs, rows, order.take(p))[j].matched matches Some(m) ==> m.contains(x),
    ensures
        added_filters(fs, rows, order)[j].appear matches Some(m) && m.contains_key(x),
        added_filters(fs, rows, order)[j].matched matches Some(m) ==> m.contains(x),
    decreases order.len(),
{
    if p == order.len() {
        assert(order.take(p) =~= order);
    } else {
        let prev = order.drop_last();
        assert(prev.take(p) =~= order.take(p));
        lemma_appear_kept(fs, rows, prev, p, j, x);
        lemma_added_filters_shape(fs, rows, prev);
    }
}

/// A component that completes a filter makes the entity appear: after adding
/// to an entity that is alive, with nothing else queued for it, a component
/// type of a filter that records appear events, where the entity already
/// has every other type of the filter, the flushed additions leave the
/// entity among the appear events of the filter and, when the filter tracks
/// them, among its matched entities (unless the component table hit the
/// limits of the machine).
pub proof fn law_completed_filter_sees_entity_appear<V, S, M: FnOnce(V) -> V>(
    w0: World<V, S, M>,
    w1: World<V, S, M>,
    w2: World<V, S, M>,
    entity: EntityKey,
    component_type: ComponentType,
    value: V,
    j: int,
)
    requires
        w0.wf(),
        w1.wf(),
        w0.in_range(entity),
        w0.validation(entity, ValidateUncommitted::AllowUncommitted) is Ok,
        w0.mapping(entity.inner.index, component_type) is None,
        !targets(w0.pending_adds(), entity.inner.index, component_type),
        0 <= j < w0.filters().len(),
        w0.filters()[j].criteria.contains(component_type),
        all_present(
            w0.filters()[j].criteria,
            w0.component_rows()[entity.inner.index.index as int].push(component_type),
        ),
        w0.filters()[j].appear is Some,
        World::add_effect(&w0, &w1, entity, component_type, value),
        World::flush_component_addition_done(&w1, &w2),
    ensures
        (w2.filters()[j].appear matches Some(m) && m.contains_key(entity.inner) && (
        w2.filters()[j].matched matches Some(s) ==> s.contains(entity.inner))) || limit_reached(
            w2.component_rows(),
            w2.component_table_len(),
            entity.inner.index.index as int,
        ),
{
    let ck = component_key_of(entity, component_type);
    let e = entity.inner.index;
    let ei = e.index as int;
    w1.lemma_has_slots();
    assert(w1.pending_adds().contains_key(ck));
    assert(is_live(w1.entities(), ck.entity));
    let order = choose|order: Seq<(ComponentKey, Seq<crate::cause::Cause>)>|
        #[trigger] World::additions_applied(&w1, &w2, order);
    assert(World::additions_applied(&w1, &w2, order));
    if order_pairs(order).contains((e, component_type)) {
        let i = choose|i: int| 0 <= i < order_pairs(order).len() && order_pairs(order)[i] == (e, component_type);
        let k = order[i].0;
        assert(w1.pending_adds().contains_key(k));
        if k != ck {
            assert(w0.pending_adds().contains_key(k));
            assert(targets(w0.pending_adds(), e, component_type));
        }
        assert(k == ck);
        let fs = w1.filters();
        let rows = w1.component_rows();
        assert forall|q: int| 0 <= q < order.len() implies (#[trigger] order[q]).0.entity.index.index
            < rows.len() by {
            assert(is_live(w1.entities(), order[q].0.entity));
        }
        let pre = order.take(i);
        let upto = order.take(i + 1);
        assert(upto.drop_last() =~= pre);
        assert(upto.last() == order[i]);
        lemma_rows_grow(rows, pre, 0);
        assert(pre.take(0) =~= Seq::<(ComponentKey, Seq<Cause>)>::empty());
        assert(forall|q: int| 0 <= q < pre.len() ==> #[trigger] pre[q] == order[q]);
        let row_i = added_rows(rows, upto)[ei];
        assert(row_i == added_rows(rows, pre)[ei].push(component_type));
        assert(all_present(fs[j].criteria, row_i)) by {
            assert forall|t: int| 0 <= t < fs[j].criteria.len() implies row_i.contains(
                #[trigger] fs[j].criteria[t],
            ) by {
                let ty = fs[j].criteria[t];
                let start = rows[ei].push(component_type);
                assert(start.contains(ty));
                if ty == component_type {
                    assert(row_i[row_i.len() - 1] == ty);
                } else {
                    let w = choose|w: int| 0 <= w < start.len() && start[w] == ty;
                    assert(rows[ei][w] == ty);
                    assert(rows[ei].contains(ty));
                    assert(added_rows(rows, pre.take(0)) == rows);
                    let before = added_rows(rows, pre)[ei];
                    assert(before.contains(ty));
                    let w2i = choose|w: int| 0 <= w < before.len() && before[w] == ty;
                    assert(row_i[w2i] == ty);
                }
            }
        }
        lemma_added_filters_shape(fs, rows, pre);
        let prev = added_filters(fs, rows, pre);
        assert(added_filters(fs, rows, upto)[j] == after_component_added(prev[j], k, order[i].1, row_i));
        lemma_rows_grow(rows, order, i + 1);
        lemma_appear_kept(fs, rows, order, i + 1, j, entity.inner);
    } else {
        assert(w2.mapping(e, component_type) == w1.mapping(e, component_type));
    }
}

/// Disappear events keep the number of filters, their criteria, and which of
/// them record disappear events.
proof fn lemma_disappeared_filters_shape(
    fs: Seq<FilterView>,
    rows: Seq<Seq<ComponentType>>,
    order: Seq<(ComponentKey, Seq<Cause>)>,
)
    ensures
        disappeared_filters(fs, rows, order).len() == fs.len(),
        forall|j: int|
            0 <= j < fs.len() ==> {
                let f = #[trigger] disappeared_filters(fs, rows, order)[j];
                &&& f.criteria == fs[j].criteria
                &&& f.disappear is Some <==> fs[j].disappear is Some
            },
    decreases order.len(),
{
    if order.len() > 0 {
        lemma_disappeared_filters_shape(fs, rows, order.drop_last());
    }
}

/// Disappear events keep an entity among those of a filter once it is there.
proof fn lemma_disappear_kept(
    fs: Seq<FilterView>,
    rows: Seq<Seq<ComponentType>>,
    order: Seq<(ComponentKey, Seq<Cause>)>,
    p: int,
    j: int,
    x: InternalEntityKey,
)
    requires
        0 <= p <= order.len(),
        0 <= j < fs.len(),
        disappeared_filters(fs, rows, order.take(p))[j].disappear matches Some(m) && m.contains_key(x),
    ensures
        disappeared_filters(fs, rows, order)[j].disappear matches Some(m) && m.contains_key(x),
    decreases order.len(),
{
    if p == order.len() {
        assert(order.take(p) =~= order);
    } else {
        let prev = order.drop_last();
        assert(prev.take(p) =~= order.take(p));
        lemma_disappear_kept(fs, rows, prev, p, j, x);
        lemma_disappeared_filters_shape(fs, rows, prev);
    }
}

/// Removing a component that a filter needs from a committed entity that
/// has every type of the filter makes the entity disappear for the filter:
/// once the disappear events are generated, it is among the disappear
/// events of every filter that records them.
pub proof fn law_removed_component_makes_entity_disappear<V, S, M: FnOnce(V) -> V>(
    w0: World<V, S, M>,
    w1: World<V, S, M>,
    w2: World<V, S, M>,
    entity: EntityKey,
    component_type: ComponentType,
    j: int,
)
    requires
        w0.wf(),
        w0.in_range(entity),
        w0.validation(entity, ValidateUncommitted::DenyUncommitted) is Ok,
        w0.mapping(entity.inner.index, component_type) is Some,
        !w0.pending_adds().contains_key(component_key_of(entity, component_type)),
        0 <= j < w0.filters().len(),
        w0.filters()[j].criteria.contains(component_type),
        all_present(w0.filters()[j].criteria, w0.component_rows()[entity.inner.index.index as int]),
        w0.filters()[j].disappear is Some,
        World::remove_effect(&w0, &w1, entity, component_type),
        World::generate_disappear_events_done(&w1, &w2),
    ensures
        w2.filters()[j].disappear matches Some(m) && m.contains_key(entity.inner),
{
    let ck = component_key_of(entity, component_type);
    assert(w1.to_delete().contains_key(ck));
    let order = choose|order: Seq<(ComponentKey, Seq<Cause>)>|
        #[trigger] crate::world::is_order_of(order, w1.to_delete()) && w2.to_delete_after()
            == crate::world::causes_folded(w1.to_delete_after(), order) && w2.filters()
            == disappeared_filters(w1.filters(), w1.component_rows(), order)
            && w2.new_disappear() == crate::world::disappeared_marks(
            w1.new_disappear(),
            w1.filters(),
            w1.component_rows(),
            order,
        );
    lemma_order_keys(order, w1.to_delete());
    assert(entry_keys(order).contains(ck));
    let i = choose|i: int| 0 <= i < entry_keys(order).len() && entry_keys(order)[i] == ck;
    assert(order[i].0 == ck);
    let fs = w1.filters();
    let rows = w1.component_rows();
    let pre = order.take(i);
    let upto = order.take(i + 1);
    assert(upto.drop_last() =~= pre);
    assert(upto.last() == order[i]);
    lemma_disappeared_filters_shape(fs, rows, pre);
    let prev = disappeared_filters(fs, rows, pre);
    assert(disappeared_filters(fs, rows, upto)[j] == after_disappear(
        prev[j],
        ck,
        order[i].1,
        rows[ck.entity.index.index as int],
    ));
    lemma_disappear_kept(fs, rows, order, i + 1, j, entity.inner);
}

/// Commits keep the number of filters and which of them record appear
/// events, and keep an entity among the appear events and the matched
/// entities of a filter once it is there.
proof fn lemma_created_kept(
    fs: Seq<FilterView>,
    all: Option<InternalFilterKey>,
    order: Seq<(InternalEntityKey, Seq<Cause>)>,
    p: int,
    j: int,
    x: InternalEntityKey,
)
    requires
        all matches Some(a) ==> a.0 < fs.len(),
        0 <= p <= order.len(),
        0 <= j < fs.len(),
        created_filters(fs, all, order.take(p))[j].appear matches Some(m) && m.contains_key(x),
        created_filters(fs, all, order.take(p))[j].matched matches Some(m) ==> m.contains(x),
    ensures
        created_filters(fs, all, order).len() == fs.len(),
        created_filters(fs, all, order)[j].appear matches Some(m) && m.contains_key(x),
        created_filters(fs, all, order)[j].matched matches Some(m) ==> m.contains(x),
    decreases order.len(),
{
    if p == order.len() {
        assert(order.take(p) =~= order);
        lemma_created_shape(fs, all, order);
    } else {
        let prev = order.drop_last();
        assert(prev.take(p) =~= order.take(p));
        lemma_created_kept(fs, all, prev, p, j, x);
    }
}

/// Commits keep the number of filters and which of them record appear
/// events or track matched entities.
proof fn lemma_created_shape(
    fs: Seq<FilterView>,
    all: Option<InternalFilterKey>,
    order: Seq<(InternalEntityKey, Seq<Cause>)>,
)
    requires
        all matches Some(a) ==> a.0 < fs.len(),
    ensures
        created_filters(fs, all, order).len() == fs.len(),
        forall|j: int|
            0 <= j < fs.len() ==> {
                let f = #[trigger] created_filters(fs, all, order)[j];
                &&& f.appear is Some <==> fs[j].appear is Some
                &&& f.matched is Some <==> fs[j].matched is Some
            },
    decreases order.len(),
{
    if order.len() > 0 {
        lemma_created_shape(fs, all, order.drop_last());
    }
}

/// A created entity appears for the filter of all entities: once the
/// creations are flushed, it is among the appear events of that filter
/// (when the filter records them) and among its matched entities (when the
/// filter tracks them).
pub proof fn law_created_entity_appears<V, S, M: FnOnce(V) -> V>(
    w0: World<V, S, M>,
    w1: World<V, S, M>,
    w2: World<V, S, M>,
    key: InternalEntityKey,
    cause: Cause,
)
    requires
        w0.wf(),
        w1.wf(),
        World::entity_created(&w0, &w1, key, cause),
        World::flush_entity_create_actions_done(&w1, &w2),
        w1.all_entities_filter() matches Some(a) && w1.filters()[a.0 as int].appear is Some,
    ensures
        w2.filters()[w1.all_entities_filter()->Some_0.0 as int].appear matches Some(m) && m.contains_key(key),
        w2.filters()[w1.all_entities_filter()->Some_0.0 as int].matched matches Some(m) ==> m.contains(key),
{
    w1.lemma_has_slots();
    let a = w1.all_entities_filter()->Some_0;
    let j = a.0 as int;
    let all = w1.all_entities_filter();
    let fs = w1.filters();
    assert(w1.to_commit().contains_key(key));
    let order = choose|order: Seq<(InternalEntityKey, Seq<Cause>)>|
        #[trigger] crate::world::is_order_of(order, w1.to_commit()) && w2.filters() == created_filters(
            fs,
            all,
            order,
        ) && w2.new_appear() == crate::world::created_appear(w1.new_appear(), all, order.len());
    lemma_order_keys(order, w1.to_commit());
    assert(entry_keys(order).contains(key));
    let i = choose|i: int| 0 <= i < entry_keys(order).len() && entry_keys(order)[i] == key;
    assert(order[i].0 == key);
    let pre = order.take(i);
    let upto = order.take(i + 1);
    assert(upto.drop_last() =~= pre);
    assert(upto.last() == order[i]);
    lemma_created_shape(fs, all, pre);
    lemma_created_kept(fs, all, order, i + 1, j, key);
}

/// Entity disappear events keep the number of filters and which of them
/// record disappear events, and keep an entity among the disappear events of
/// a filter once it is there.
proof fn lemma_entity_disappeared_kept(
    fs: Seq<FilterView>,
    all: Option<InternalFilterKey>,
    order: Seq<(InternalEntityKey, Seq<Cause>)>,
    p: int,
    j: int,
    x: InternalEntityKey,
)
    requires
        all matches Some(a) ==> a.0 < fs.len(),
        0 <= p <= order.len(),
        0 <= j < fs.len(),
        entity_disappeared_filters(fs, all, order.take(p))[j].disappear matches Some(m) && m.contains_key(x),
    ensures
        entity_disappeared_filters(fs, all, order).len() == fs.len(),
        entity_disappeared_filters(fs, all, order)[j].disappear matches Some(m) && m.contains_key(x),
    decreases order.len(),
{
    if p == order.len() {
        assert(order.take(p) =~= order);
        lemma_entity_disappeared_shape(fs, all, order);
    } else {
        let prev = order.drop_last();
        assert(prev.take(p) =~= order.take(p));
        lemma_entity_disappeared_kept(fs, all, prev, p, j, x);
    }
}

/// Entity disappear events keep the number of filters and which of them
/// record disappear events.
proof fn lemma_entity_disappeared_shape(
    fs: Seq<FilterView>,
    all: Option<InternalFilterKey>,
    order: Seq<(InternalEntityKey, Seq<Cause>)>,
)
    requires
        all matches Some(a) ==> a.0 < fs.len(),
    ensures
        entity_disappeared_filters(fs, all, order).len() == fs.len(),
        forall|j: int|
            0 <= j < fs.len() ==> ((#[trigger] entity_disappeared_filters(fs, all, order)[j]).disappear is Some
                <==> fs[j].disappear is Some),
    decreases order.len(),
{
    if order.len() > 0 {
        lemma_entity_disappeared_shape(fs, all, order.drop_last());
    }
}

/// Destroying a committed entity makes it disappear for the filter of all
/// entities: once the destructions are scheduled, it is among the disappear
/// events of that filter (when the filter records them).
pub proof fn law_destroyed_entity_disappears<V, S, M: FnOnce(V) -> V>(
    w0: World<V, S, M>,
    w1: World<V, S, M>,
    w2: World<V, S, M>,
    entity: EntityKey,
)
    requires
        w0.wf(),
        w0.in_range(entity),
        w0.validation(entity, ValidateUncommitted::DenyUncommitted) is Ok,
        World::destroy_effect(&w0, &w1, entity),
        World::schedule_destroyed_entities_component_removal_done(&w1, &w2),
        w0.all_entities_filter() matches Some(a) && w0.filters()[a.0 as int].disappear is Some,
    ensures
        w2.filters()[w0.all_entities_filter()->Some_0.0 as int].disappear matches Some(m) && m.contains_key(
            entity.inner,
        ),
{
    w0.lemma_has_slots();
    let a = w0.all_entities_filter()->Some_0;
    let j = a.0 as int;
    let all = w1.all_entities_filter();
    let fs = w1.filters();
    assert(w0.validation(entity, ValidateUncommitted::AllowUncommitted) is Ok);
    assert(w1.to_destroy().contains_key(entity.inner));
    let order = choose|order: Seq<(InternalEntityKey, Seq<Cause>)>|
        #[trigger] crate::world::is_order_of(order, w1.to_destroy()) && w2.to_destroy_after()
            == crate::world::causes_folded(w1.to_destroy_after(), order) && w2.to_delete()
            == crate::world::scheduled_removals(w1.to_delete(), w1.component_rows(), order)
            && w2.filters() == entity_disappeared_filters(fs, all, order) && w2.new_disappear()
            == crate::world::entity_disappeared_marks(w1.new_disappear(), fs, all, order);
    lemma_order_keys(order, w1.to_destroy());
    assert(entry_keys(order).contains(entity.inner));
    let i = choose|i: int| 0 <= i < entry_keys(order).len() && entry_keys(order)[i] == entity.inner;
    assert(order[i].0 == entity.inner);
    let pre = order.take(i);
    let upto = order.take(i + 1);
    assert(upto.drop_last() =~= pre);
    assert(upto.last() == order[i]);
    lemma_entity_disappeared_shape(fs, all, pre);
    lemma_entity_disappeared_kept(fs, all, order, i + 1, j, entity.inner);
}

/// Signals are delivered in the order they were sent: of two signals sent
/// to a world with none queued, the first taken carries the first payload
/// and the second taken the second.
pub proof fn law_signals_are_taken_in_order<V, S, M: FnOnce(V) -> V>(
    w0: World<V, S, M>,
    w1: World<V, S, M>,
    w2: World<V, S, M>,
    w3: World<V, S, M>,
    w4: World<V, S, M>,
    first: S,
    second: S,
    r3: Option<SignalDelivery<S>>,
    r4: Option<SignalDelivery<S>>,
)
    requires
        w0.signals().len() == 0,
        World::signal_effect(&w0, &w1, first),
        World::signal_effect(&w1, &w2, second),
        World::signal_taken(&w2, &w3, r3),
        World::signal_taken(&w3, &w4, r4),
    ensures
        r3 matches Some(d) && d.payload == first,
        r4 matches Some(d) && d.payload == second,
        w4.signals().len() == 0,
{
    assert(w2.signals()[0].payload == first);
    assert(w3.signals() =~= w2.signals().drop_first());
    assert(w3.signals()[0].payload == second);
}

/// The handlers bound to a filter are those of the bindings for it, in
/// registration order.
proof fn lemma_handlers_for_is_filter(bindings: Seq<HandlerBinding>, key: InternalFilterKey)
    ensures
        handlers_for(bindings, key) == bindings.filter(|b: HandlerBinding| b.filter == key).map_values(
            |b: HandlerBinding| b.handler,
        ),
    decreases bindings.len(),
{
    reveal(Seq::filter);
    if bindings.len() > 0 {
        lemma_handlers_for_is_filter(bindings.drop_last(), key);
        let pred = |b: HandlerBinding| b.filter == key;
        let f = |b: HandlerBinding| b.handler;
        let sub = bindings.drop_last().filter(pred);
        if pred(bindings.last()) {
            assert(sub.push(bindings.last()).map_values(f) =~= sub.map_values(f).push(bindings.last().handler));
        }
    }
}

/// The appear and disappear events of a filter are handed out with every
/// handler registered for that filter, each once, in registration order,
/// and with no other handler.
pub proof fn law_events_go_to_every_handler_of_their_filter<V, S, M: FnOnce(V) -> V>(
    old: World<V, S, M>,
    new: World<V, S, M>,
    appear: Seq<crate::world::FilterEvents>,
    disappear: Seq<crate::world::FilterEvents>,
    new2: World<V, S, M>,
)
    requires
        World::appear_taken(&old, &new, appear),
        World::disappear_taken(&old, &new2, disappear),
    ensures
        forall|a: int|
            0 <= a < appear.len() ==> (#[trigger] appear[a]).handlers@ == old.appear_handlers().filter(
                |b: HandlerBinding| b.filter == appear[a].filter,
            ).map_values(|b: HandlerBinding| b.handler),
        forall|a: int|
            0 <= a < disappear.len() ==> (#[trigger] disappear[a]).handlers@ == old.disappear_handlers().filter(
                |b: HandlerBinding| b.filter == disappear[a].filter,
            ).map_values(|b: HandlerBinding| b.handler),
{
    assert forall|a: int| 0 <= a < appear.len() implies (#[trigger] appear[a]).handlers@
        == old.appear_handlers().filter(|b: HandlerBinding| b.filter == appear[a].filter).map_values(
        |b: HandlerBinding| b.handler,
    ) by {
        lemma_handlers_for_is_filter(old.appear_handlers(), appear[a].filter);
    }
    assert forall|a: int| 0 <= a < disappear.len() implies (#[trigger] disappear[a]).handlers@
        == old.disappear_handlers().filter(|b: HandlerBinding| b.filter == disappear[a].filter).map_values(
        |b: HandlerBinding| b.handler,
    ) by {
        lemma_handlers_for_is_filter(old.disappear_handlers(), disappear[a].filter);
    }
}

/// A buffered destruction of an entity that exists takes effect when the
/// buffer is applied: a committed entity is queued for destruction, an
/// uncommitted one no longer exists.
pub proof fn law_buffered_destroy_destroys<V, S, M: FnOnce(V) -> V>(
    states: Seq<World<V, S, M>>,
    changes: Seq<Change<V, S, M>>,
    i: int,
    k: InternalEntityKey,
)
    requires
        changes_applied(states, changes),
        0 <= i < changes.len(),
        changes[i] == Change::<V, S, M>::EntityDestroy(k),
        states[i].in_range(key_of(k)),
        states[i].validation(key_of(k), ValidateUncommitted::AllowUncommitted) is Ok,
    ensures
        states[i].entities()[k.index.index as int].committed ==> states[i + 1].to_destroy().contains_key(k),
        !states[i].entities()[k.index.index as int].committed ==> states[i + 1].validation(
            key_of(k),
            ValidateUncommitted::AllowUncommitted,
        ) is Err,
{
    assert(crate::change_buffer::change_applied(&states[i], &states[i + 1], changes[i]));
}

/// The filter of all entities stops matching every entity whose
/// destruction is flushed.
pub proof fn law_destroyed_entities_leave_the_all_entities_filter<V, S, M: FnOnce(V) -> V>(
    old: World<V, S, M>,
    new: World<V, S, M>,
)
    requires
        old.wf(),
        World::flush_entity_destroy_actions_done(&old, &new),
        old.all_entities_filter() is Some,
    ensures
        forall|k: InternalEntityKey|
            #[trigger] old.to_destroy_after().contains_key(k) ==> match new.filters()[old.all_entities_filter()->Some_0.0 as int].matched {
                Some(m) => !m.contains(k),
                None => true,
            },
{
    old.lemma_has_slots();
    let all = old.all_entities_filter();
    let a = all->Some_0.0 as int;
    let order = choose|order: Seq<(InternalEntityKey, Seq<Cause>)>|
        #[trigger] crate::world::is_order_of(order, old.to_destroy_after()) && new.filters()
            == destroyed_filters(old.filters(), all, order);
    lemma_order_keys(order, old.to_destroy_after());
    lemma_destroyed_drop(old.filters(), all, order);
    assert forall|k: InternalEntityKey|
        #[trigger] old.to_destroy_after().contains_key(k) implies match new.filters()[a].matched {
            Some(m) => !m.contains(k),
            None => true,
        } by {
        assert(entry_keys(order).contains(k));
        let j = choose|j: int| 0 <= j < entry_keys(order).len() && entry_keys(order)[j] == k;
        assert(order[j].0 == k);
    }
}

/// Each entity of `order` is out of the matched set of the filter of all
/// entities after the destructions of `order`.
proof fn lemma_destroyed_drop(
    fs: Seq<FilterView>,
    all: Option<InternalFilterKey>,
    order: Seq<(InternalEntityKey, Seq<Cause>)>,
)
    requires
        all matches Some(a) ==> a.0 < fs.len(),
        all is Some,
    ensures
        destroyed_filters(fs, all, order).len() == fs.len(),
        forall|j: int|
            0 <= j < order.len() ==> match destroyed_filters(fs, all, order)[all->Some_0.0 as int].matched {
                Some(m) => !m.contains(#[trigger] order[j].0),
                None => true,
            },
    decreases order.len(),
{
    if order.len() > 0 {
        let prev = order.drop_last();
        lemma_destroyed_drop(fs, all, prev);
        let a = all->Some_0.0 as int;
        assert forall|j: int|
            0 <= j < order.len() implies match destroyed_filters(fs, all, order)[a].matched {
                Some(m) => !m.contains(#[trigger] order[j].0),
                None => true,
            } by {
            if j < prev.len() {
                assert(prev[j] == order[j]);
            }
        }
    }
}

/// The pipeline's last step sends a run back to its start exactly when
/// signals are queued, so a run that ends there ends with no signal queued
/// (a signal sent while handling signals is handled in the same run).
pub proof fn law_run_ends_with_no_signal_queued<V, S, M: FnOnce(V) -> V>(
    old: World<V, S, M>,
    new: World<V, S, M>,
    next: usize,
    r: crate::world::StepOutcome<S>,
)
    requires
        World::step_done(&old, &new, 15, next, r),
    ensures
        next == 0 <==> old.signals().len() > 0,
        next != 0 ==> next == crate::world::standard_pipeline().len() && new.signals().len() == 0,
{
    assert(crate::world::standard_pipeline()[15] == crate::world::PipelineStepImpl::Goto {
        condition: crate::world::GotoCondition::Signals,
        destination_index: 0,
    });
}

/// Disappear events of components of types that a filter does not name
/// leave the filter as it is and do not mark it.
proof fn lemma_disappeared_unrelated(
    nd: Set<InternalFilterKey>,
    fs: Seq<FilterView>,
    rows: Seq<Seq<ComponentType>>,
    order: Seq<(ComponentKey, Seq<Cause>)>,
    j: int,
)
    requires
        0 <= j < fs.len(),
        forall|i: int| 0 <= i < order.len() ==> !fs[j].criteria.contains(#[trigger] order[i].0.component_type),
    ensures
        disappeared_filters(fs, rows, order)[j] == fs[j],
        forall|key: InternalFilterKey|
            key.0 as int == j ==> (#[trigger] disappeared_marks(nd, fs, rows, order).contains(key)
                <==> nd.contains(key)),
    decreases order.len(),
{
    if order.len() > 0 {
        let prev = order.drop_last();
        assert forall|i: int| 0 <= i < prev.len() implies !fs[j].criteria.contains(
            #[trigger] prev[i].0.component_type,
        ) by {
            assert(prev[i] == order[i]);
        }
        lemma_disappeared_unrelated(nd, fs, rows, prev, j);
        lemma_disappeared_filters_shape(fs, rows, prev);
        assert(order[order.len() - 1] == order.last());
        assert(!fs[j].criteria.contains(order[order.len() - 1].0.component_type));
        let pf = disappeared_filters(fs, rows, prev);
        let k = order.last().0;
        assert(pf[j] == fs[j]);
        assert(!crate::filter::concerns(pf[j], k.component_type, rows[k.entity.index.index as int]));
        assert forall|key: InternalFilterKey|
            key.0 as int == j implies (#[trigger] disappeared_marks(nd, fs, rows, order).contains(key)
                <==> nd.contains(key)) by {
            assert(disappeared_marks(nd, fs, rows, prev).contains(key) <==> nd.contains(key));
            assert(pf[key.0 as int] == fs[j]);
        }
        assert(disappeared_filters(fs, rows, order)[j] == after_disappear(
            pf[j],
            k,
            order.last().1,
            rows[k.entity.index.index as int],
        ));
    }
}

/// Additions of components of types that a filter does not name leave the
/// filter as it is and do not mark it.
proof fn lemma_added_unrelated(
    na: Set<InternalFilterKey>,
    fs: Seq<FilterView>,
    rows: Seq<Seq<ComponentType>>,
    order: Seq<(ComponentKey, Seq<Cause>)>,
    j: int,
)
    requires
        0 <= j < fs.len(),
        forall|i: int| 0 <= i < order.len() ==> !fs[j].criteria.contains(#[trigger] order[i].0.component_type),
    ensures
        added_filters(fs, rows, order)[j] == fs[j],
        forall|key: InternalFilterKey|
            key.0 as int == j ==> (#[trigger] added_appear(na, fs, rows, order).contains(key) <==> na.contains(
                key,
            )),
    decreases order.len(),
{
    if order.len() > 0 {
        let prev = order.drop_last();
        assert forall|i: int| 0 <= i < prev.len() implies !fs[j].criteria.contains(
            #[trigger] prev[i].0.component_type,
        ) by {
            assert(prev[i] == order[i]);
        }
        lemma_added_unrelated(na, fs, rows, prev, j);
        lemma_added_filters_shape(fs, rows, prev);
        assert(order[order.len() - 1] == order.last());
        assert(!fs[j].criteria.contains(order[order.len() - 1].0.component_type));
        let pf = added_filters(fs, rows, prev);
        let k = order.last().0;
        assert(pf[j] == fs[j]);
        assert forall|key: InternalFilterKey|
            key.0 as int == j implies (#[trigger] added_appear(na, fs, rows, order).contains(key) <==> na.contains(
                key,
            )) by {
            assert(added_appear(na, fs, rows, prev).contains(key) <==> na.contains(key));
            assert(pf[key.0 as int] == fs[j]);
            assert(!crate::filter::concerns(
                pf[key.0 as int],
                k.component_type,
                added_rows(rows, order)[k.entity.index.index as int],
            ));
        }
        assert(added_filters(fs, rows, order)[j] == after_component_added(
            pf[j],
            k,
            order.last().1,
            added_rows(rows, order)[k.entity.index.index as int],
        ));
    }
}

/// Removing components of types that a filter does not name produces no
/// disappear event for it: once the disappear events are generated, the
/// filter is as it was and is not marked as having new disappear events.
pub proof fn law_unrelated_removal_leaves_filter<V, S, M: FnOnce(V) -> V>(
    old: World<V, S, M>,
    new: World<V, S, M>,
    j: int,
)
    requires
        World::generate_disappear_events_done(&old, &new),
        0 <= j < old.filters().len(),
        forall|k: ComponentKey|
            #[trigger] old.to_delete().contains_key(k) ==> !old.filters()[j].criteria.contains(k.component_type),
    ensures
        new.filters()[j] == old.filters()[j],
        forall|key: InternalFilterKey|
            key.0 as int == j ==> (#[trigger] new.new_disappear().contains(key) <==> old.new_disappear().contains(
                key,
            )),
{
    let order = choose|order: Seq<(ComponentKey, Seq<Cause>)>|
        #[trigger] crate::world::is_order_of(order, old.to_delete()) && new.to_delete_after()
            == crate::world::causes_folded(old.to_delete_after(), order) && new.filters()
            == disappeared_filters(old.filters(), old.component_rows(), order) && new.new_disappear()
            == disappeared_marks(old.new_disappear(), old.filters(), old.component_rows(), order);
    lemma_order_keys(order, old.to_delete());
    assert forall|i: int| 0 <= i < order.len() implies !old.filters()[j].criteria.contains(
        #[trigger] order[i].0.component_type,
    ) by {
        assert(entry_keys(order)[i] == order[i].0);
        assert(old.to_delete().contains_key(order[i].0));
    }
    lemma_disappeared_unrelated(old.new_disappear(), old.filters(), old.component_rows(), order, j);
}

/// Adding components of types that a filter does not name produces no
/// appear event for it: once the additions are flushed, the filter is as it
/// was and is not marked as having new appear events.
pub proof fn law_unrelated_addition_leaves_filter<V, S, M: FnOnce(V) -> V>(
    old: World<V, S, M>,
    new: World<V, S, M>,
    j: int,
)
    requires
        World::flush_component_addition_done(&old, &new),
        0 <= j < old.filters().len(),
        forall|k: ComponentKey|
            #[trigger] old.pending_adds().contains_key(k) ==> !old.filters()[j].criteria.contains(k.component_type),
    ensures
        new.filters()[j] == old.filters()[j],
        forall|key: InternalFilterKey|
            key.0 as int == j ==> (#[trigger] new.new_appear().contains(key) <==> old.new_appear().contains(key)),
{
    let order = choose|order: Seq<(ComponentKey, Seq<Cause>)>|
        #[trigger] World::additions_applied(&old, &new, order);
    assert(World::additions_applied(&old, &new, order));
    assert forall|i: int| 0 <= i < order.len() implies !old.filters()[j].criteria.contains(
        #[trigger] order[i].0.component_type,
    ) by {
        assert(old.pending_adds().contains_key(order[i].0));
    }
    lemma_added_unrelated(old.new_appear(), old.filters(), old.component_rows(), order, j);
}

/// Every change of a buffer takes effect when the buffer is applied: a
/// buffered creation makes the entity exist; an addition to an entity that
/// exists is queued last among the values of its component, the others
/// staying queued; a granted removal drops the queued values of the
/// component or queues the committed one for removal; a modification of a
/// committed entity is queued last for its component; a signal is queued
/// last, with the cause of the world.
pub proof fn law_buffered_changes_take_effect<V, S, M: FnOnce(V) -> V>(
    states: Seq<World<V, S, M>>,
    changes: Seq<Change<V, S, M>>,
    i: int,
)
    requires
        changes_applied(states, changes),
        0 <= i < changes.len(),
    ensures
        changes[i] matches Change::EntityCreate(t) ==> states[i + 1].validation(
            key_of(t.inner),
            ValidateUncommitted::AllowUncommitted,
        ) is Ok,
        changes[i] matches Change::ComponentAdd(ck, v) ==> (states[i].in_range(key_of(ck.entity))
            && states[i].validation(key_of(ck.entity), ValidateUncommitted::AllowUncommitted) is Ok ==> {
            let q = states[i + 1].pending_adds();
            &&& q.contains_key(ck)
            &&& q[ck].last().data == v
            &&& q[ck].drop_last() == (if states[i].pending_adds().contains_key(ck) {
                states[i].pending_adds()[ck]
            } else {
                Seq::empty()
            })
        }),
        changes[i] matches Change::ComponentRemove(ck) ==> (states[i].in_range(key_of(ck.entity)) ==> {
            &&& !states[i + 1].pending_adds().contains_key(ck)
            &&& !states[i].pending_adds().contains_key(ck) ==> states[i + 1].to_delete().contains_key(ck)
        }),
        changes[i] matches Change::ComponentModify(ck, m) ==> (states[i].in_range(key_of(ck.entity))
            && states[i].validation(key_of(ck.entity), ValidateUncommitted::DenyUncommitted) is Ok ==> {
            let k = crate::world::exported_component_key(key_of(ck.entity), ck.component_type);
            &&& states[i + 1].pending_mods().contains_key(k)
            &&& states[i + 1].pending_mods()[k].last().callback == m
        }),
        changes[i] matches Change::SignalSend(p) ==> {
            &&& states[i + 1].signals().len() == states[i].signals().len() + 1
            &&& states[i + 1].signals().last().payload == p
            &&& states[i + 1].signals().drop_last() == states[i].signals()
        },
{
    assert(crate::change_buffer::change_applied(&states[i], &states[i + 1], changes[i]));
    match changes[i] {
        Change::EntityCreate(t) => {
            let w0 = states[i];
            let w1 = states[i + 1];
            assert(w0.entities().len() > 0) by {
                w0.lemma_has_slots();
            }
        },
        Change::SignalSend(p) => {
            assert(states[i + 1].signals().drop_last() =~= states[i].signals());
        },
        Change::ComponentAdd(ck, v) => {
            if states[i].in_range(key_of(ck.entity)) && states[i].validation(
                key_of(ck.entity),
                ValidateUncommitted::AllowUncommitted,
            ) is Ok {
                let q0 = states[i].pending_adds();
                if q0.contains_key(ck) {
                    assert(q0[ck].push(states[i + 1].pending_adds()[ck].last()).drop_last() =~= q0[ck]);
                } else {
                    assert(seq![states[i + 1].pending_adds()[ck].last()].drop_last() =~= Seq::<crate::world::ComponentAdd<V>>::empty());
                }
            }
        },
        _ => {},
    }
}

/// Each jump of the pipeline is taken exactly when its queue holds
/// something: back to scheduling destructions while entities wait to be
/// destroyed, back to generating disappear events while components wait to
/// be removed, back to committing additions while additions are queued, and
/// back to the start while signals wait.
pub proof fn law_jumps_follow_their_queues<V, S, M: FnOnce(V) -> V>(
    old: World<V, S, M>,
    new: World<V, S, M>,
    cursor: usize,
    next: usize,
    r: crate::world::StepOutcome<S>,
)
    requires
        World::step_done(&old, &new, cursor, next, r),
    ensures
        cursor == 5 || cursor == 12 ==> (next == 1 <==> exists|k: InternalEntityKey| #[trigger] old.to_destroy().contains_key(k)),
        cursor == 6 || cursor == 13 ==> (next == 2 <==> exists|k: ComponentKey| #[trigger] old.to_delete().contains_key(k)),
        cursor == 14 ==> (next == 9 <==> exists|k: ComponentKey| #[trigger] old.pending_adds().contains_key(k)),
        cursor == 15 ==> (next == 0 <==> old.signals().len() > 0),
{
    let p = crate::world::standard_pipeline();
    if cursor == 5 || cursor == 12 {
        assert(p[cursor as int] == crate::world::PipelineStepImpl::Goto {
            condition: crate::world::GotoCondition::EntitiesToDestroy,
            destination_index: 1,
        });
        if exists|k: InternalEntityKey| #[trigger] old.to_destroy().contains_key(k) {
            let k = choose|k: InternalEntityKey| #[trigger] old.to_destroy().contains_key(k);
            assert(old.to_destroy().dom().contains(k));
        } else {
            assert(old.to_destroy().dom() =~= Set::<InternalEntityKey>::empty());
        }
    }
    if cursor == 6 || cursor == 13 {
        assert(p[cursor as int] == crate::world::PipelineStepImpl::Goto {
            condition: crate::world::GotoCondition::ComponentsToDelete,
            destination_index: 2,
        });
        if exists|k: ComponentKey| #[trigger] old.to_delete().contains_key(k) {
            let k = choose|k: ComponentKey| #[trigger] old.to_delete().contains_key(k);
            assert(old.to_delete().dom().contains(k));
        } else {
            assert(old.to_delete().dom() =~= Set::<ComponentKey>::empty());
        }
    }
    if cursor == 14 {
        assert(p[cursor as int] == crate::world::PipelineStepImpl::Goto {
            condition: crate::world::GotoCondition::ComponentsToAdd,
            destination_index: 9,
        });
        if exists|k: ComponentKey| #[trigger] old.pending_adds().contains_key(k) {
            let k = choose|k: ComponentKey| #[trigger] old.pending_adds().contains_key(k);
            assert(old.pending_adds().dom().contains(k));
        } else {
            assert(old.pending_adds().dom() =~= Set::<ComponentKey>::empty());
        }
    }
    if cursor == 15 {
        assert(p[cursor as int] == crate::world::PipelineStepImpl::Goto {
            condition: crate::world::GotoCondition::Signals,
            destination_index: 0,
        });
    }
}

/// Removals keep the number of filters and their criteria, take each
/// removed entity out of the matched sets of the filters that name the
/// removed type, and leave the filters that name none of the removed types.
proof fn lemma_removed_filters_effect(fs: Seq<FilterView>, order: Seq<(ComponentKey, Seq<Cause>)>)
    ensures
        removed_filters(fs, order).len() == fs.len(),
        forall|j: int| 0 <= j < fs.len() ==> (#[trigger] removed_filters(fs, order)[j]).criteria == fs[j].criteria,
        forall|i: int, j: int|
            0 <= i < order.len() && 0 <= j < fs.len() && fs[j].criteria.contains(order[i].0.component_type)
                ==> match (#[trigger] removed_filters(fs, order)[j]).matched {
                Some(m) => !m.contains(#[trigger] order[i].0.entity),
                None => true,
            },
        forall|j: int|
            0 <= j < fs.len() && (forall|i: int|
                0 <= i < order.len() ==> !fs[j].criteria.contains(#[trigger] order[i].0.component_type))
                ==> #[trigger] removed_filters(fs, order)[j] == fs[j],
    decreases order.len(),
{
    if order.len() > 0 {
        let prev = order.drop_last();
        lemma_removed_filters_effect(fs, prev);
        let pf = removed_filters(fs, prev);
        let last = order.last().0;
        assert(order[order.len() - 1] == order.last());
        assert forall|i: int, j: int|
            0 <= i < order.len() && 0 <= j < fs.len() && fs[j].criteria.contains(order[i].0.component_type)
                implies match (#[trigger] removed_filters(fs, order)[j]).matched {
                Some(m) => !m.contains(#[trigger] order[i].0.entity),
                None => true,
            } by {
            assert(removed_filters(fs, order)[j] == crate::filter::after_component_removed(pf[j], last));
            if i < prev.len() {
                assert(prev[i] == order[i]);
                assert(match pf[j].matched {
                    Some(m) => !m.contains(prev[i].0.entity),
                    None => true,
                });
            }
        }
        assert forall|j: int|
            0 <= j < fs.len() && (forall|i: int|
                0 <= i < order.len() ==> !fs[j].criteria.contains(#[trigger] order[i].0.component_type))
                implies #[trigger] removed_filters(fs, order)[j] == fs[j] by {
            assert forall|i: int| 0 <= i < prev.len() implies !fs[j].criteria.contains(
                #[trigger] prev[i].0.component_type,
            ) by {
                assert(prev[i] == order[i]);
                assert(!fs[j].criteria.contains(order[i].0.component_type));
            }
            assert(!fs[j].criteria.contains(order[order.len() - 1].0.component_type));
            assert(removed_filters(fs, order)[j] == crate::filter::after_component_removed(pf[j], last));
        }
    }
}

/// Flushing the removals takes each removed entity out of the matched set
/// of every filter that names the removed type, and leaves every filter
/// that names none of the removed types as it was.
pub proof fn law_removals_update_matched_entities<V, S, M: FnOnce(V) -> V>(
    old: World<V, S, M>,
    new: World<V, S, M>,
)
    requires
        World::flush_component_removals_done(&old, &new),
    ensures
        forall|k: ComponentKey, j: int|
            #[trigger] old.to_delete_after().contains_key(k) && 0 <= j < old.filters().len()
                && old.filters()[j].criteria.contains(k.component_type) ==> match (#[trigger] new.filters()[j]).matched {
                Some(m) => !m.contains(k.entity),
                None => true,
            },
        forall|j: int|
            0 <= j < old.filters().len() && (forall|k: ComponentKey|
                #[trigger] old.to_delete_after().contains_key(k) ==> !old.filters()[j].criteria.contains(
                    k.component_type,
                )) ==> #[trigger] new.filters()[j] == old.filters()[j],
{
    let order = choose|order: Seq<(ComponentKey, Seq<Cause>)>|
        #[trigger] crate::world::is_order_of(order, old.to_delete_after()) && new.component_rows()
            == crate::world::removed_rows(old.component_rows(), order) && new.filters() == removed_filters(
            old.filters(),
            order,
        );
    lemma_order_keys(order, old.to_delete_after());
    lemma_removed_filters_effect(old.filters(), order);
    assert forall|k: ComponentKey, j: int|
        #[trigger] old.to_delete_after().contains_key(k) && 0 <= j < old.filters().len()
            && old.filters()[j].criteria.contains(k.component_type) implies match (#[trigger] new.filters()[j]).matched {
            Some(m) => !m.contains(k.entity),
            None => true,
        } by {
        assert(entry_keys(order).contains(k));
        let i = choose|i: int| 0 <= i < entry_keys(order).len() && entry_keys(order)[i] == k;
        assert(order[i].0 == k);
    }
    assert forall|j: int|
        0 <= j < old.filters().len() && (forall|k: ComponentKey|
            #[trigger] old.to_delete_after().contains_key(k) ==> !old.filters()[j].criteria.contains(
                k.component_type,
            )) implies #[trigger] new.filters()[j] == old.filters()[j] by {
        assert forall|i: int| 0 <= i < order.len() implies !old.filters()[j].criteria.contains(
            #[trigger] order[i].0.component_type,
        ) by {
            assert(entry_keys(order)[i] == order[i].0);
            assert(old.to_delete_after().contains_key(order[i].0));
        }
    }
}

} // verus!
