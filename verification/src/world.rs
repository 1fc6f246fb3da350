use vstd::prelude::*;

use std::collections::VecDeque;

use crate::cause::Cause;
use crate::cause::OptTinyVec;
use crate::collections::AssocMap;
use crate::collections::KeyEq;
use crate::collections::entries_to_map;
use crate::collections::entry_keys;
use crate::component::ComponentType;
use crate::component_mappings::ComponentMappingStorage;
use crate::entity_component_index::EntityComponentIndex;
use crate::entity_storage::validation_result;
use crate::entity_storage::EntityBox;
use crate::entity_storage::EntityStorage;
use crate::entity_storage::TempEntityKey;
use crate::entity_storage::TemporaryEntityKeyStorage;
use crate::entity_storage::ValidateUncommitted;
use crate::errors::WorldError;
use crate::errors::WorldResult;
use crate::filter::FilterDesc;
use crate::filter::FilterManager;
use crate::filter::FilterView;
use crate::keys::ComponentDataKey;
use crate::keys::ComponentKey;
use crate::keys::EntityIndex;
use crate::keys::EntityKey;
use crate::keys::InternalEntityKey;
use crate::keys::InternalFilterKey;
use crate::pools::SpecificPool;

verus! {

/// Causes recorded per key, as sequences.
pub open spec fn causes_view<K>(m: Map<K, OptTinyVec>) -> Map<K, Seq<Cause>> {
    Map::new(|k: K| m.contains_key(k), |k: K| m[k]@)
}

/// `m` with `causes` recorded for `key` after the causes already there.
pub open spec fn causes_added<K>(m: Map<K, Seq<Cause>>, key: K, causes: Seq<Cause>) -> Map<
    K,
    Seq<Cause>,
> {
    m.insert(
        key,
        if m.contains_key(key) {
            m[key] + causes
        } else {
            causes
        },
    )
}

/// Records `causes` for `key` after the causes already there.
pub fn queue_causes<K: KeyEq>(
    queue: &mut AssocMap<K, OptTinyVec>,
    key: K,
    causes: OptTinyVec,
)
    requires
        old(queue).wf(),
    ensures
        final(queue).wf(),
        causes_view(final(queue)@) == causes_added(causes_view(old(queue)@), key, causes@),
{
    match queue.remove(&key) {
        Some(mut existing) => {
            existing.extend(causes);
            queue.insert_new(key, existing);
        },
        None => {
            queue.insert_new(key, causes);
        },
    }
    assert(causes_view(queue@) =~= causes_added(causes_view(old(queue)@), key, causes@));
}

/// Keys waiting for removal: the disappear events of a key are generated
/// first, then the key moves on to be removed.
pub struct DeleteQueue<K> {
    pub before_disappear: AssocMap<K, OptTinyVec>,
    pub after_disappear: AssocMap<K, OptTinyVec>,
}

impl<K: KeyEq> DeleteQueue<K> {
    pub open spec fn wf(&self) -> bool {
        &&& self.before_disappear.wf()
        &&& self.after_disappear.wf()
    }

    pub fn new() -> (r: DeleteQueue<K>)
        ensures
            r.wf(),
            r.before_disappear@ == Map::<K, OptTinyVec>::empty(),
            r.after_disappear@ == Map::<K, OptTinyVec>::empty(),
    {
        DeleteQueue { before_disappear: AssocMap::new(), after_disappear: AssocMap::new() }
    }
}

/// A component value waiting to be added, with the cause of the addition.
pub struct ComponentAdd<V> {
    pub data: V,
    pub cause: Cause,
}

/// A change of a component value waiting to be applied, with the cause of
/// asking for it.
pub struct ComponentModify<M> {
    pub callback: M,
    pub cause: Cause,
}

/// A signal waiting for its handlers, with the cause of sending it.
pub struct Signal<S> {
    pub payload: S,
    pub cause: Cause,
}

/// A handler, numbered by whoever runs it, registered for a filter.
#[derive(Copy, Clone, PartialEq, Eq, Structural, Debug)]
pub struct HandlerBinding {
    pub filter: InternalFilterKey,
    pub handler: usize,
}

/// The queue that a jump of the pipeline looks at.
#[derive(Copy, Clone, PartialEq, Eq, Structural, Debug)]
pub enum GotoCondition {
    /// Entities wait to be destroyed.
    EntitiesToDestroy,
    /// Components wait for their disappear events.
    ComponentsToDelete,
    /// Components wait to be added.
    ComponentsToAdd,
    /// Signals wait for their handlers.
    Signals,
}

/// What a step of the pipeline does.
#[derive(Copy, Clone, PartialEq, Eq, Structural, Debug)]
pub enum StepAction {
    InvokeSignalHandler,
    ScheduleDestroyedEntitiesComponentRemoval,
    GenerateDisappearEvents,
    InvokeDisappearHandlers,
    FlushComponentRemovals,
    FlushEntityDestroyActions,
    FlushEntityCreateActions,
    FlushComponentAddition,
    FlushComponentModification,
    InvokeAppearHandlers,
}

/// A step of the pipeline: an action, or a jump taken when a queue is not empty.
#[derive(Copy, Clone, PartialEq, Eq, Structural, Debug)]
pub enum PipelineStepImpl {
    Run(StepAction),
    Goto { condition: GotoCondition, destination_index: usize },
}

/// A named step of the pipeline.
#[derive(Copy, Clone)]
pub struct PipelineStep {
    pub name: &'static str,
    pub callback: PipelineStepImpl,
}

/// Where the pipeline run stands.
#[derive(Copy, Clone, PartialEq, Eq, Structural, Debug)]
pub struct ExecutionContext {
    pub cursor: usize,
}

/// The steps that every world runs, in order.
pub open spec fn standard_pipeline() -> Seq<PipelineStepImpl> {
    seq![
        PipelineStepImpl::Run(StepAction::InvokeSignalHandler),
        PipelineStepImpl::Run(StepAction::ScheduleDestroyedEntitiesComponentRemoval),
        PipelineStepImpl::Run(StepAction::GenerateDisappearEvents),
        PipelineStepImpl::Run(StepAction::InvokeDisappearHandlers),
        PipelineStepImpl::Run(StepAction::FlushComponentRemovals),
        PipelineStepImpl::Goto { condition: GotoCondition::EntitiesToDestroy, destination_index: 1 },
        PipelineStepImpl::Goto { condition: GotoCondition::ComponentsToDelete, destination_index: 2 },
        PipelineStepImpl::Run(StepAction::FlushEntityDestroyActions),
        PipelineStepImpl::Run(StepAction::FlushEntityCreateActions),
        PipelineStepImpl::Run(StepAction::FlushComponentAddition),
        PipelineStepImpl::Run(StepAction::FlushComponentModification),
        PipelineStepImpl::Run(StepAction::InvokeAppearHandlers),
        PipelineStepImpl::Goto { condition: GotoCondition::EntitiesToDestroy, destination_index: 1 },
        PipelineStepImpl::Goto { condition: GotoCondition::ComponentsToDelete, destination_index: 2 },
        PipelineStepImpl::Goto { condition: GotoCondition::ComponentsToAdd, destination_index: 9 },
        PipelineStepImpl::Goto { condition: GotoCondition::Signals, destination_index: 0 },
    ]
}

/// The actions of a sequence of steps.
pub open spec fn step_impls(s: Seq<PipelineStep>) -> Seq<PipelineStepImpl> {
    s.map_values(|p: PipelineStep| p.callback)
}

/// Appends a step that runs `action`; returns its position.
fn add_step_simple(sequence: &mut Vec<PipelineStep>, name: &'static str, action: StepAction) -> (r:
    usize)
    requires
        old(sequence)@.len() < usize::MAX,
    ensures
        r == old(sequence)@.len(),
        final(sequence)@ == old(sequence)@.push(
            PipelineStep { name: name, callback: PipelineStepImpl::Run(action) },
        ),
{
    let index = sequence.len();
    sequence.push(PipelineStep { name, callback: PipelineStepImpl::Run(action) });
    index
}

/// Appends a jump to `destination_index`, taken when `condition` holds.
fn add_goto(
    sequence: &mut Vec<PipelineStep>,
    name: &'static str,
    condition: GotoCondition,
    destination_index: usize,
)
    ensures
        final(sequence)@ == old(sequence)@.push(
            PipelineStep {
                name: name,
                callback: PipelineStepImpl::Goto { condition, destination_index },
            },
        ),
{
    sequence.push(
        PipelineStep { name, callback: PipelineStepImpl::Goto { condition, destination_index } },
    );
}

/// Builds the standard pipeline.
fn configure_pipeline() -> (r: Vec<PipelineStep>)
    ensures
        step_impls(r@) == standard_pipeline(),
{
    let mut s: Vec<PipelineStep> = Vec::new();
    let invoke_signal_handler = add_step_simple(
        &mut s,
        "invoke_signal_handler",
        StepAction::InvokeSignalHandler,
    );
    let schedule_destroyed_entities_component_removal = add_step_simple(
        &mut s,
        "schedule_destroyed_entities_component_removal",
        StepAction::ScheduleDestroyedEntitiesComponentRemoval,
    );
    let generate_disappear_events = add_step_simple(
        &mut s,
        "generate_disappear_events",
        StepAction::GenerateDisappearEvents,
    );
    add_step_simple(&mut s, "invoke_disappear_handlers", StepAction::InvokeDisappearHandlers);
    add_step_simple(&mut s, "flush_component_removals", StepAction::FlushComponentRemovals);
    add_goto(
        &mut s,
        "check_destroyed_entities_early",
        GotoCondition::EntitiesToDestroy,
        schedule_destroyed_entities_component_removal,
    );
    add_goto(
        &mut s,
        "check_removed_components_early",
        GotoCondition::ComponentsToDelete,
        generate_disappear_events,
    );
    add_step_simple(&mut s, "flush_entity_destroy_actions", StepAction::FlushEntityDestroyActions);
    add_step_simple(&mut s, "flush_entity_create_actions", StepAction::FlushEntityCreateActions);
    let flush_component_addition = add_step_simple(
        &mut s,
        "flush_component_addition",
        StepAction::FlushComponentAddition,
    );
    add_step_simple(&mut s, "flush_component_modification", StepAction::FlushComponentModification);
    add_step_simple(&mut s, "invoke_appear_handlers", StepAction::InvokeAppearHandlers);
    add_goto(
        &mut s,
        "check_destroyed_entities_late",
        GotoCondition::EntitiesToDestroy,
        schedule_destroyed_entities_component_removal,
    );
    add_goto(
        &mut s,
        "check_removed_components_late",
        GotoCondition::ComponentsToDelete,
        generate_disappear_events,
    );
    add_goto(
        &mut s,
        "check_added_components",
        GotoCondition::ComponentsToAdd,
        flush_component_addition,
    );
    add_goto(&mut s, "check_signals", GotoCondition::Signals, invoke_signal_handler);
    assert(step_impls(s@) =~= standard_pipeline());
    s
}

/// Entities with components, the changes of the running transaction that
/// are not applied yet, filters, handlers and the pipeline that applies the
/// changes. Component values are of type `V`, signal payloads of type `S`.
pub struct World<V, S, M> {
    entity_storage: EntityStorage,
    entity_component_index: EntityComponentIndex,
    entities_to_destroy: DeleteQueue<InternalEntityKey>,
    entities_to_commit: AssocMap<InternalEntityKey, OptTinyVec>,
    components_to_delete: DeleteQueue<ComponentKey>,
    components_to_add: AssocMap<ComponentKey, Vec<ComponentAdd<V>>>,
    components_to_modify: AssocMap<ComponentKey, Vec<ComponentModify<M>>>,
    component_data: SpecificPool<ComponentDataKey, V>,
    component_mappings: ComponentMappingStorage,
    current_cause: Cause,
    filter_manager: FilterManager,
    sequence: Vec<PipelineStep>,
    on_appear: Vec<HandlerBinding>,
    on_disappear: Vec<HandlerBinding>,
    global_signal_handlers: Vec<usize>,
    entity_signal_handlers: Vec<HandlerBinding>,
    signals: VecDeque<Signal<S>>,
    tx: u64,
}

impl<V, S, M: FnOnce(V) -> V> World<V, S, M> {
    /// The entity slots.
    pub closed spec fn entities(&self) -> Seq<EntityBox> {
        self.entity_storage@
    }

    /// The component types of the entity in each slot.
    pub closed spec fn component_rows(&self) -> Seq<Seq<ComponentType>> {
        self.entity_component_index@
    }

    /// Number of cells of the component table.
    pub closed spec fn component_table_len(&self) -> nat {
        self.entity_component_index.table_len()
    }

    /// The data slot of the committed `component_type` component of `entity`.
    pub closed spec fn mapping(&self, entity: EntityIndex, component_type: ComponentType) -> Option<
        ComponentDataKey,
    > {
        self.component_mappings.mapping(entity, component_type)
    }

    /// The data slots of committed component values.
    pub closed spec fn data(&self) -> Seq<Option<V>> {
        self.component_data@
    }

    /// The committed `component_type` value of `entity`, if there is one.
    pub open spec fn component_value(&self, entity: EntityIndex, component_type: ComponentType) -> Option<
        V,
    > {
        match self.mapping(entity, component_type) {
            Some(d) => if d.index < self.data().len() {
                self.data()[d.index as int]
            } else {
                None
            },
            None => None,
        }
    }

    /// Entities created in this transaction, with the causes of their creation.
    pub closed spec fn to_commit(&self) -> Map<InternalEntityKey, Seq<Cause>> {
        causes_view(self.entities_to_commit@)
    }

    /// Entities waiting for their disappear events before they are destroyed.
    pub closed spec fn to_destroy(&self) -> Map<InternalEntityKey, Seq<Cause>> {
        causes_view(self.entities_to_destroy.before_disappear@)
    }

    /// Entities whose disappear events were generated, waiting to be destroyed.
    pub closed spec fn to_destroy_after(&self) -> Map<InternalEntityKey, Seq<Cause>> {
        causes_view(self.entities_to_destroy.after_disappear@)
    }

    /// Components waiting for their disappear events before they are removed.
    pub closed spec fn to_delete(&self) -> Map<ComponentKey, Seq<Cause>> {
        causes_view(self.components_to_delete.before_disappear@)
    }

    /// Components whose disappear events were generated, waiting to be removed.
    pub closed spec fn to_delete_after(&self) -> Map<ComponentKey, Seq<Cause>> {
        causes_view(self.components_to_delete.after_disappear@)
    }

    /// Changes of component values waiting to be applied, in the order they came.
    pub closed spec fn pending_mods(&self) -> Map<ComponentKey, Seq<ComponentModify<M>>> {
        Map::new(
            |k: ComponentKey| self.components_to_modify@.contains_key(k),
            |k: ComponentKey| self.components_to_modify@[k]@,
        )
    }

    /// Component values waiting to be added, in the order they came.
    pub closed spec fn pending_adds(&self) -> Map<ComponentKey, Seq<ComponentAdd<V>>> {
        Map::new(
            |k: ComponentKey| self.components_to_add@.contains_key(k),
            |k: ComponentKey| self.components_to_add@[k]@,
        )
    }

    /// The filters.
    pub closed spec fn filters(&self) -> Seq<FilterView> {
        self.filter_manager.filters()
    }

    /// The filters with appear events not handled yet.
    pub closed spec fn new_appear(&self) -> Set<InternalFilterKey> {
        self.filter_manager.new_appear()
    }

    /// The filters with disappear events not handled yet.
    pub closed spec fn new_disappear(&self) -> Set<InternalFilterKey> {
        self.filter_manager.new_disappear()
    }

    /// The cause that changes made now are recorded with.
    pub closed spec fn current_cause(&self) -> Cause {
        self.current_cause
    }

    /// The steps of the pipeline.
    pub closed spec fn sequence(&self) -> Seq<PipelineStepImpl> {
        step_impls(self.sequence@)
    }

    /// Handlers of appear events.
    pub closed spec fn appear_handlers(&self) -> Seq<HandlerBinding> {
        self.on_appear@
    }

    /// Handlers of disappear events.
    pub closed spec fn disappear_handlers(&self) -> Seq<HandlerBinding> {
        self.on_disappear@
    }

    /// Handlers of every signal.
    pub closed spec fn global_signal_handlers(&self) -> Seq<usize> {
        self.global_signal_handlers@
    }

    /// Handlers of signals, called for each entity that a filter matches.
    pub closed spec fn entity_signal_handlers(&self) -> Seq<HandlerBinding> {
        self.entity_signal_handlers@
    }

    /// Signals waiting for their handlers, oldest first.
    pub closed spec fn signals(&self) -> Seq<Signal<S>> {
        self.signals@
    }

    /// Number of pipeline runs completed.
    pub closed spec fn tx(&self) -> u64 {
        self.tx
    }

    /// Whether an entity can be created without running past the limits of
    /// the machine (slot numbers are `u32`).
    pub open spec fn has_room_for_entity(&self) -> bool {
        &&& self.entities().len() * 2 <= u32::MAX
        &&& self.component_table_len() * 2 <= usize::MAX
    }

    /// What validating `entity` answers.
    pub open spec fn validation(&self, entity: EntityKey, strategy: ValidateUncommitted) -> Result<
        (),
        crate::errors::EntityError,
    > {
        validation_result(self.entities()[entity.inner.index.index as int], entity.inner, strategy)
    }

    /// Whether `entity` points at a slot of the storage.
    pub open spec fn in_range(&self, entity: EntityKey) -> bool {
        (entity.inner.index.index as int) < self.entities().len()
    }

    closed spec fn queues_in_range(&self) -> bool {
        let n = self.entity_storage@.len();
        &&& forall|k: ComponentKey| #[trigger]
            self.components_to_modify@.contains_key(k) ==> k.entity.index.index < n && !k.entity.temp
                && self.components_to_modify@[k]@.len() > 0
        &&& forall|k: InternalEntityKey| #[trigger]
            self.entities_to_commit@.contains_key(k) ==> k.index.index < n
        &&& forall|k: InternalEntityKey| #[trigger]
            self.entities_to_destroy.before_disappear@.contains_key(k) ==> k.index.index < n
        &&& forall|k: InternalEntityKey| #[trigger]
            self.entities_to_destroy.after_disappear@.contains_key(k) ==> k.index.index < n
        &&& forall|k: ComponentKey| #[trigger]
            self.components_to_delete.before_disappear@.contains_key(k) ==> k.entity.index.index < n
        &&& forall|k: ComponentKey| #[trigger]
            self.components_to_delete.after_disappear@.contains_key(k) ==> k.entity.index.index < n
        &&& forall|k: ComponentKey| #[trigger]
            self.components_to_add@.contains_key(k) ==> k.entity.index.index < n
                && self.components_to_add@[k]@.len() > 0
    }

    closed spec fn mods_callable(&self) -> bool {
        forall|k: ComponentKey, i: int, v: V|
            self.components_to_modify@.contains_key(k) && 0 <= i < self.components_to_modify@[k]@.len()
                ==> #[trigger] self.components_to_modify@[k]@[i].callback.requires((v,))
    }

    closed spec fn data_consistent(&self) -> bool {
        mappings_consistent(&self.component_mappings, self.component_data@)
    }

    closed spec fn rows_consistent(&self) -> bool {
        rows_match(&self.component_mappings, self.entity_component_index@, self.entity_storage@)
    }

    closed spec fn handlers_in_range(&self) -> bool {
        let n = self.filter_manager.filters().len();
        &&& forall|i: int| 0 <= i < self.on_appear@.len() ==> #[trigger] self.on_appear@[i].filter.0 < n
        &&& forall|i: int|
            0 <= i < self.on_disappear@.len() ==> #[trigger] self.on_disappear@[i].filter.0 < n
        &&& forall|i: int|
            0 <= i < self.entity_signal_handlers@.len()
                ==> #[trigger] self.entity_signal_handlers@[i].filter.0 < n
    }

    pub closed spec fn wf(&self) -> bool {
        &&& self.entity_storage.wf()
        &&& self.entity_storage@.len() > 0
        &&& self.entity_storage@.len() <= u32::MAX
        &&& self.entity_component_index.wf()
        &&& self.entity_component_index@.len() == self.entity_storage@.len()
        &&& self.entity_component_index.width() > 0
        &&& self.entities_to_destroy.wf()
        &&& self.entities_to_commit.wf()
        &&& self.components_to_delete.wf()
        &&& self.components_to_add.wf()
        &&& self.components_to_modify.wf()
        &&& self.mods_callable()
        &&& self.component_data.wf()
        &&& self.filter_manager.wf()
        &&& self.queues_in_range()
        &&& self.data_consistent()
        &&& self.handlers_in_range()
        &&& step_impls(self.sequence@) == standard_pipeline()
        &&& self.rows_consistent()
    }
}


impl<V, S, M: FnOnce(V) -> V> World<V, S, M> {
    /// The slot that the next created entity takes.
    pub closed spec fn next_entity_slot(&self) -> nat {
        self.entity_storage.next_slot()
    }

    /// The slot at `i`, or an unused slot beyond the end.
    pub open spec fn slot_at(&self, i: int) -> EntityBox {
        if 0 <= i < self.entities().len() {
            self.entities()[i]
        } else {
            crate::entity_storage::empty_box()
        }
    }

    /// The component types of slot `i`, or none beyond the end.
    pub open spec fn row_at(&self, i: int) -> Seq<ComponentType> {
        if 0 <= i < self.component_rows().len() {
            self.component_rows()[i]
        } else {
            Seq::empty()
        }
    }

    /// Same entity slots and component table.
    pub open spec fn same_entities(a: &Self, b: &Self) -> bool {
        &&& a.entities() == b.entities()
        &&& a.component_rows() == b.component_rows()
        &&& a.component_table_len() == b.component_table_len()
        &&& a.next_entity_slot() == b.next_entity_slot()
    }

    /// Same committed components.
    pub open spec fn same_components(a: &Self, b: &Self) -> bool {
        &&& forall|e: EntityIndex, c: ComponentType| #[trigger] a.mapping(e, c) == b.mapping(e, c)
        &&& a.data() == b.data()
    }

    /// Same queued changes.
    pub open spec fn same_queues(a: &Self, b: &Self) -> bool {
        &&& a.to_commit() == b.to_commit()
        &&& a.to_destroy() == b.to_destroy()
        &&& a.to_destroy_after() == b.to_destroy_after()
        &&& a.to_delete() == b.to_delete()
        &&& a.to_delete_after() == b.to_delete_after()
        &&& a.pending_adds() == b.pending_adds()
        &&& a.pending_mods() == b.pending_mods()
    }

    /// Same filters and pending events.
    pub open spec fn same_filters(a: &Self, b: &Self) -> bool {
        &&& a.filters() == b.filters()
        &&& a.new_appear() == b.new_appear()
        &&& a.new_disappear() == b.new_disappear()
        &&& a.all_entities_filter() == b.all_entities_filter()
    }

    /// Same pipeline and handlers.
    pub open spec fn same_config(a: &Self, b: &Self) -> bool {
        &&& a.sequence() == b.sequence()
        &&& a.appear_handlers() == b.appear_handlers()
        &&& a.disappear_handlers() == b.disappear_handlers()
        &&& a.global_signal_handlers() == b.global_signal_handlers()
        &&& a.entity_signal_handlers() == b.entity_signal_handlers()
    }

    /// Same signals, cause and transaction count.
    pub open spec fn same_signals(a: &Self, b: &Self) -> bool {
        &&& a.signals() == b.signals()
        &&& a.current_cause() == b.current_cause()
        &&& a.tx() == b.tx()
    }

    /// Nothing observable differs.
    pub open spec fn same_state(a: &Self, b: &Self) -> bool {
        &&& Self::same_entities(a, b)
        &&& Self::same_components(a, b)
        &&& Self::same_queues(a, b)
        &&& Self::same_filters(a, b)
        &&& Self::same_config(a, b)
        &&& Self::same_signals(a, b)
    }

    /// `new` is `old` with the entity `key` created by `cause`.
    pub open spec fn entity_created(old: &Self, new: &Self, key: InternalEntityKey, cause: Cause) -> bool {
        let idx = key.index.index as int;
        &&& key.generation.0 == crate::keys::next_generation(old.slot_at(idx).generation.0)
        &&& !key.temp
        &&& !old.slot_at(idx).exists
        &&& idx <= old.entities().len()
        &&& new.entities().len() == (if idx < old.entities().len() {
            old.entities().len()
        } else {
            old.entities().len() * 2
        })
        &&& new.entities()[idx] == EntityBox {
            exists: true,
            generation: key.generation,
            committed: false,
        }
        &&& forall|i: int|
            0 <= i < new.entities().len() && i != idx ==> #[trigger] new.entities()[i]
                == old.slot_at(i)
        &&& new.component_rows().len() == new.entities().len()
        &&& new.component_rows()[idx] == Seq::<ComponentType>::empty()
        &&& forall|i: int|
            0 <= i < new.component_rows().len() && i != idx ==> #[trigger] new.component_rows()[i]
                == old.row_at(i)
        &&& new.to_commit() == causes_added(old.to_commit(), key, seq![cause])
        &&& new.to_destroy() == old.to_destroy()
        &&& new.to_destroy_after() == old.to_destroy_after()
        &&& new.to_delete() == old.to_delete()
        &&& new.to_delete_after() == old.to_delete_after()
        &&& new.pending_adds() == old.pending_adds()
        &&& new.pending_mods() == old.pending_mods()
        &&& Self::same_components(old, new)
        &&& Self::same_filters(old, new)
        &&& Self::same_config(old, new)
        &&& Self::same_signals(old, new)
    }

    /// A world with no entities, no components and the standard pipeline.
    pub fn new() -> (r: Self)
        ensures
            r.wf(),
            r.entities() == Seq::new(512, |i: int| crate::entity_storage::empty_box()),
            r.component_rows() == Seq::new(512, |i: int| Seq::<ComponentType>::empty()),
            forall|e: EntityIndex, c: ComponentType| #[trigger] r.mapping(e, c) is None,
            r.to_commit() == Map::<InternalEntityKey, Seq<Cause>>::empty(),
            r.to_destroy() == Map::<InternalEntityKey, Seq<Cause>>::empty(),
            r.to_destroy_after() == Map::<InternalEntityKey, Seq<Cause>>::empty(),
            r.to_delete() == Map::<ComponentKey, Seq<Cause>>::empty(),
            r.to_delete_after() == Map::<ComponentKey, Seq<Cause>>::empty(),
            r.pending_adds() == Map::<ComponentKey, Seq<ComponentAdd<V>>>::empty(),
            r.pending_mods() == Map::<ComponentKey, Seq<ComponentModify<M>>>::empty(),
            r.filters() == Seq::<FilterView>::empty(),
            r.new_appear() == Set::<InternalFilterKey>::empty(),
            r.new_disappear() == Set::<InternalFilterKey>::empty(),
            r.sequence() == standard_pipeline(),
            r.appear_handlers() == Seq::<HandlerBinding>::empty(),
            r.disappear_handlers() == Seq::<HandlerBinding>::empty(),
            r.global_signal_handlers() == Seq::<usize>::empty(),
            r.entity_signal_handlers() == Seq::<HandlerBinding>::empty(),
            r.signals() == Seq::<Signal<S>>::empty(),
            r.tx() == 0,
            r.current_cause().title() == "initial",
            r.current_cause().reasons() == Seq::<Cause>::empty(),
    {
        let r = World {
            entity_storage: EntityStorage::with_capacity(512),
            entity_component_index: EntityComponentIndex::new(512, 8),
            entities_to_destroy: DeleteQueue::new(),
            entities_to_commit: AssocMap::new(),
            components_to_delete: DeleteQueue::new(),
            components_to_add: AssocMap::new(),
            components_to_modify: AssocMap::new(),
            component_data: SpecificPool::new(),
            component_mappings: ComponentMappingStorage::new(),
            current_cause: Cause::initial(),
            filter_manager: FilterManager::new(),
            sequence: configure_pipeline(),
            on_appear: Vec::new(),
            on_disappear: Vec::new(),
            global_signal_handlers: Vec::new(),
            entity_signal_handlers: Vec::new(),
            signals: VecDeque::new(),
            tx: 0,
        };
        assert(r.to_commit() =~= Map::<InternalEntityKey, Seq<Cause>>::empty());
        assert(r.to_destroy() =~= Map::<InternalEntityKey, Seq<Cause>>::empty());
        assert(r.to_destroy_after() =~= Map::<InternalEntityKey, Seq<Cause>>::empty());
        assert(r.to_delete() =~= Map::<ComponentKey, Seq<Cause>>::empty());
        assert(r.to_delete_after() =~= Map::<ComponentKey, Seq<Cause>>::empty());
        assert(r.pending_adds() =~= Map::<ComponentKey, Seq<ComponentAdd<V>>>::empty());
        assert(r.pending_mods() =~= Map::<ComponentKey, Seq<ComponentModify<M>>>::empty());
        r
    }

    /// Creates an entity; it is committed by the next pipeline run.
    pub fn create_entity(&mut self) -> (r: EntityKey)
        requires
            old(self).wf(),
            old(self).has_room_for_entity(),
        ensures
            final(self).wf(),
            r.inner.index.index == old(self).next_entity_slot(),
            Self::entity_created(old(self), final(self), r.inner, old(self).current_cause()),
    {
        let key = self.create_entity_internal();
        key.export()
    }

    fn create_entity_internal(&mut self) -> (r: InternalEntityKey)
        requires
            old(self).wf(),
            old(self).has_room_for_entity(),
        ensures
            final(self).wf(),
            r.index.index == old(self).next_entity_slot(),
            Self::entity_created(old(self), final(self), r, old(self).current_cause()),
    {
        proof {
            self.entity_storage.lemma_boundary_bounded();
        }
        let entity = self.entity_storage.new_entity();
        self.entity_component_index.add_entity(entity.index);
        let cause = self.current_cause.share();
        queue_causes(&mut self.entities_to_commit, entity, OptTinyVec::single(cause));
        proof {
            self.lemma_entity_created_wf(old(self), entity);
        }
        entity
    }

    proof fn lemma_entity_created_wf(&self, old: &Self, key: InternalEntityKey)
        requires
            old.wf(),
            self.entity_storage.wf(),
            self.entity_component_index.wf(),
            self.entity_component_index.width() == old.entity_component_index.width(),
            self.entity_storage@.len() >= old.entity_storage@.len(),
            self.entity_storage@.len() <= u32::MAX,
            self.entity_component_index@.len() == self.entity_storage@.len(),
            (key.index.index as int) < self.entity_storage@.len(),
            self.entities_to_commit.wf(),
            causes_view(self.entities_to_commit@).dom() == causes_view(
                old.entities_to_commit@,
            ).dom().insert(key),
            self.entities_to_destroy == old.entities_to_destroy,
            self.components_to_delete == old.components_to_delete,
            self.components_to_add == old.components_to_add,
            self.components_to_modify == old.components_to_modify,
            self.component_data == old.component_data,
            self.component_mappings == old.component_mappings,
            self.filter_manager == old.filter_manager,
            self.on_appear == old.on_appear,
            self.on_disappear == old.on_disappear,
            self.entity_signal_handlers == old.entity_signal_handlers,
            self.sequence == old.sequence,
            (key.index.index as int) <= old.entity_storage@.len(),
            !old.entity_storage.slot_at(key.index.index as int).exists,
            self.entity_storage@[key.index.index as int].exists,
            self.entity_component_index@[key.index.index as int] == Seq::<ComponentType>::empty(),
            forall|i: int|
                0 <= i < self.entity_component_index@.len() && i != key.index.index ==> #[trigger] self.entity_component_index@[i]
                    == old.row_at(i),
            forall|i: int|
                0 <= i < self.entity_storage@.len() && i != key.index.index ==> #[trigger] self.entity_storage@[i]
                    == old.entity_storage.slot_at(i),
        ensures
            self.wf(),
    {
        let idx = key.index.index as int;
        let rows = self.entity_component_index@;
        let orows = old.entity_component_index@;
        assert forall|e: EntityIndex, c: ComponentType| #[trigger]
            self.component_mappings.mapping(e, c) is Some <==> ((e.index as int) < rows.len()
                && rows[e.index as int].contains(c)) by {
            if (e.index as int) < orows.len() {
                if e.index as int == idx {
                    assert(!old.entity_storage@[idx].exists);
                    assert(orows[idx] == Seq::<ComponentType>::empty());
                } else {
                    assert(rows[e.index as int] == orows[e.index as int]);
                }
            } else if (e.index as int) < rows.len() {
                assert(rows[e.index as int] == Seq::<ComponentType>::empty());
            }
        }
        assert forall|i: int| 0 <= i < rows.len() implies (#[trigger] rows[i]).no_duplicates() by {
            if i != idx && i < orows.len() {
                assert(rows[i] == orows[i]);
            }
        }
        assert forall|i: int|
            0 <= i < rows.len() && i < self.entity_storage@.len() && !self.entity_storage@[i].exists implies #[trigger] rows[i]
            == Seq::<ComponentType>::empty() by {
            if i < orows.len() {
                assert(self.entity_storage@[i] == old.entity_storage@[i]);
            }
        }
        assert(self.rows_consistent());
        assert forall|k: InternalEntityKey| #[trigger]
            self.entities_to_commit@.contains_key(k) implies k.index.index < self.entity_storage@.len() by {
            assert(causes_view(self.entities_to_commit@).contains_key(k));
            if k != key {
                assert(causes_view(old.entities_to_commit@).contains_key(k));
            }
        }
        assert(self.queues_in_range());
    }
}


/// Every mapping points at an occupied data slot of `data`, and no two
/// mappings share a slot.
pub open spec fn mappings_consistent<V>(m: &ComponentMappingStorage, data: Seq<Option<V>>) -> bool {
    &&& forall|e: EntityIndex, c: ComponentType| #[trigger]
        m.mapping(e, c) matches Some(d) ==> d.index < data.len() && data[d.index as int] is Some
    &&& forall|e1: EntityIndex, c1: ComponentType, e2: EntityIndex, c2: ComponentType|
        (e1 != e2 || c1 != c2) && (#[trigger] m.mapping(e1, c1)) is Some && (#[trigger] m.mapping(
            e2,
            c2,
        )) is Some ==> m.mapping(e1, c1)->Some_0 != m.mapping(e2, c2)->Some_0
}

/// The rows list exactly the mapped component types of each slot, without
/// repetitions; free slots have empty rows.
pub open spec fn rows_match(
    m: &ComponentMappingStorage,
    rows: Seq<Seq<ComponentType>>,
    slots: Seq<EntityBox>,
) -> bool {
    &&& forall|e: EntityIndex, c: ComponentType| #[trigger]
        m.mapping(e, c) is Some <==> ((e.index as int) < rows.len() && rows[e.index as int].contains(c))
    &&& forall|i: int| 0 <= i < rows.len() ==> (#[trigger] rows[i]).no_duplicates()
    &&& forall|i: int|
        0 <= i < rows.len() && i < slots.len() && !slots[i].exists ==> #[trigger] rows[i]
            == Seq::<ComponentType>::empty()
}

/// Removes every component of slot `e`: its mappings and their data; the row
/// of `e` becomes empty.
fn clear_components_of<V>(
    index: &mut EntityComponentIndex,
    mappings: &mut ComponentMappingStorage,
    data: &mut SpecificPool<ComponentDataKey, V>,
    e: EntityIndex,
    Ghost(slots): Ghost<Seq<EntityBox>>,
)
    requires
        old(index).wf(),
        (e.index as int) < old(index)@.len(),
        old(data).wf(),
        mappings_consistent(old(mappings), old(data)@),
        rows_match(old(mappings), old(index)@, slots),
    ensures
        final(index).wf(),
        final(index).width() == old(index).width(),
        final(index).table_len() == old(index).table_len(),
        final(index)@ == old(index)@.update(e.index as int, Seq::<ComponentType>::empty()),
        final(data).wf(),
        mappings_consistent(final(mappings), final(data)@),
        rows_match(final(mappings), final(index)@, slots),
        forall|e2: EntityIndex, c: ComponentType| #[trigger]
            final(mappings).mapping(e2, c) == if e2 == e {
                None
            } else {
                old(mappings).mapping(e2, c)
            },
        forall|e2: EntityIndex, c: ComponentType|
            e2 != e && (#[trigger] old(mappings).mapping(e2, c)) is Some ==> {
                let d = old(mappings).mapping(e2, c)->Some_0.index as int;
                d < final(data)@.len() && final(data)@[d] == old(data)@[d]
            },
{
    let ghost m0 = *mappings;
    let ghost d0 = data@;
    proof {
        index.lemma_table_len();
    }
    let types = index.get_component_types(e);
    let mut t: usize = 0;
    while t < types.len()
        invariant
            t <= types@.len(),
            types@ == old(index)@[e.index as int],
            *index == *old(index),
            data.wf(),
            mappings_consistent(mappings, data@),
            mappings_consistent(&m0, d0),
            rows_match(&m0, old(index)@, slots),
            (e.index as int) < old(index)@.len(),
            forall|e2: EntityIndex, c: ComponentType| #[trigger]
                mappings.mapping(e2, c) == if e2 == e && types@.take(t as int).contains(c) {
                    None
                } else {
                    m0.mapping(e2, c)
                },
            forall|e2: EntityIndex, c: ComponentType|
                !(e2 == e && types@.take(t as int).contains(c)) && (#[trigger] m0.mapping(e2, c)) is Some ==> {
                    let d = m0.mapping(e2, c)->Some_0.index as int;
                    d < data@.len() && data@[d] == d0[d]
                },
        decreases types@.len() - t,
    {
        let c = types[t];
        let ghost mb = *mappings;
        let ghost db = data@;
        let ghost before = types@.take(t as int);
        let ghost after = types@.take(t + 1);
        proof {
            assert(after =~= before.push(c));
        }
        match mappings.remove(e, c) {
            Some(d) => {
                let _ = data.del_and_get(&d);
                proof {
                    assert forall|x: int| 0 <= x < db.len() && db[x] is Some && x != d.index implies x
                        < data@.len() && data@[x] == db[x] by {}
                    assert forall|e2: EntityIndex, c2: ComponentType| #[trigger]
                        mappings.mapping(e2, c2) is Some implies mappings.mapping(e2, c2)->Some_0.index
                        < data@.len() && data@[mappings.mapping(e2, c2)->Some_0.index as int] is Some by {
                        assert(mb.mapping(e2, c2) == mappings.mapping(e2, c2));
                        assert(mb.mapping(e2, c2)->Some_0 != d);
                    }
                    assert forall|e1: EntityIndex, c1: ComponentType, e2: EntityIndex, c2: ComponentType|
                        (e1 != e2 || c1 != c2) && (#[trigger] mappings.mapping(e1, c1)) is Some && (
                        #[trigger] mappings.mapping(e2, c2)) is Some implies mappings.mapping(
                        e1,
                        c1,
                    )->Some_0 != mappings.mapping(e2, c2)->Some_0 by {
                        assert(mb.mapping(e1, c1) == mappings.mapping(e1, c1));
                        assert(mb.mapping(e2, c2) == mappings.mapping(e2, c2));
                    }
                }
            },
            None => {},
        }
        proof {
            assert forall|e2: EntityIndex, c2: ComponentType| #[trigger]
                mappings.mapping(e2, c2) == if e2 == e && after.contains(c2) {
                    None
                } else {
                    m0.mapping(e2, c2)
                } by {
                if e2 == e && c2 == c {
                    assert(after[before.len() as int] == c);
                } else {
                    assert(mb.mapping(e2, c2) == mappings.mapping(e2, c2));
                    if e2 == e && after.contains(c2) {
                        let w = choose|w: int| 0 <= w < after.len() && after[w] == c2;
                        assert(before[w] == c2);
                    }
                    if e2 == e && before.contains(c2) {
                        let w = choose|w: int| 0 <= w < before.len() && before[w] == c2;
                        assert(after[w] == c2);
                    }
                }
            }
            assert forall|e2: EntityIndex, c2: ComponentType|
                !(e2 == e && after.contains(c2)) && (#[trigger] m0.mapping(e2, c2)) is Some implies {
                let d = m0.mapping(e2, c2)->Some_0.index as int;
                d < data@.len() && data@[d] == d0[d]
            } by {
                assert(after[before.len() as int] == c);
                if e2 == e && before.contains(c2) {
                    let w = choose|w: int| 0 <= w < before.len() && before[w] == c2;
                    assert(after[w] == c2);
                }
                assert(mb.mapping(e2, c2) == m0.mapping(e2, c2));
                if mb.mapping(e, c) is Some {
                    assert(mb.mapping(e, c)->Some_0 != mb.mapping(e2, c2)->Some_0);
                }
            }
        }
        t = t + 1;
    }
    proof {
        assert(types@.take(t as int) =~= types@);
    }
    index.add_entity(e);
    proof {
        assert(index@ =~= old(index)@.update(e.index as int, Seq::<ComponentType>::empty()));
        let rows = index@;
        let orows = old(index)@;
        assert forall|e2: EntityIndex, c: ComponentType| #[trigger]
            mappings.mapping(e2, c) is Some <==> ((e2.index as int) < rows.len()
                && rows[e2.index as int].contains(c)) by {
            if e2 == e {
                if m0.mapping(e2, c) is Some {
                    assert(orows[e.index as int].contains(c));
                }
            } else {
                assert(m0.mapping(e2, c) is Some <==> ((e2.index as int) < orows.len()
                    && orows[e2.index as int].contains(c)));
                if (e2.index as int) < rows.len() {
                    assert(e2.index != e.index);
                    assert(rows[e2.index as int] == orows[e2.index as int]);
                }
            }
        }
        assert forall|i: int| 0 <= i < rows.len() implies (#[trigger] rows[i]).no_duplicates() by {
            if i != e.index as int {
                assert(rows[i] == orows[i]);
            }
        }
        assert forall|i: int|
            0 <= i < rows.len() && i < slots.len() && !slots[i].exists implies #[trigger] rows[i]
            == Seq::<ComponentType>::empty() by {
            if i != e.index as int {
                assert(rows[i] == orows[i]);
            }
        }
    }
}

/// The key of the `component_type` component of `entity`.
pub open spec fn component_key_of(entity: EntityKey, component_type: ComponentType) -> ComponentKey {
    ComponentKey { entity: entity.inner, component_type }
}

/// Whether `o` names data slot `x`.
pub open spec fn slot_hit(o: Option<ComponentDataKey>, x: int) -> bool {
    o matches Some(t) && t.index == x
}

/// `v1` is `v0` changed by the callbacks of `ms`, in order.
pub open spec fn modified_by<V, M: FnOnce(V) -> V>(v0: V, ms: Seq<ComponentModify<M>>, v1: V) -> bool
    decreases ms.len(),
{
    if ms.len() == 0 {
        v1 == v0
    } else {
        exists|mid: V| modified_by(v0, ms.drop_last(), mid) && #[trigger] ms.last().callback.ensures((mid,), v1)
    }
}

/// Applies the callbacks of `mods`, in order, to the value in slot `d`.
fn apply_mods<V, M: FnOnce(V) -> V>(
    data: &mut SpecificPool<ComponentDataKey, V>,
    d: ComponentDataKey,
    mods: Vec<ComponentModify<M>>,
)
    requires
        old(data).wf(),
        (d.index as int) < old(data)@.len(),
        old(data)@[d.index as int] is Some,
        forall|i: int, v: V| 0 <= i < mods@.len() ==> #[trigger] mods@[i].callback.requires((v,)),
    ensures
        final(data).wf(),
        final(data).holes() == old(data).holes(),
        final(data)@ == old(data)@.update(d.index as int, final(data)@[d.index as int]),
        final(data)@[d.index as int] is Some,
        modified_by(old(data)@[d.index as int]->Some_0, mods@, final(data)@[d.index as int]->Some_0),
{
    let ghost all = mods@;
    let ghost d_init = data@;
    let ghost h_init = data.holes();
    let ghost v0 = data@[d.index as int]->Some_0;
    let mut rest = mods;
    let ghost mut i: int = 0;
    proof {
        assert(all.take(0) =~= Seq::<ComponentModify<M>>::empty());
    }
    while rest.len() > 0
        invariant
            0 <= i <= all.len(),
            rest@ == all.skip(i),
            forall|j: int, v: V| 0 <= j < all.len() ==> #[trigger] all[j].callback.requires((v,)),
            data.wf(),
            data.holes() == h_init,
            (d.index as int) < data@.len(),
            data@.len() == d_init.len(),
            data@ == d_init.update(d.index as int, data@[d.index as int]),
            data@[d.index as int] is Some,
            modified_by(v0, all.take(i), data@[d.index as int]->Some_0),
        decreases rest@.len(),
    {
        let m = rest.remove(0);
        let ghost before = data@[d.index as int]->Some_0;
        proof {
            assert(m == all[i]);
            assert(rest@ =~= all.skip(i + 1));
            assert forall|v: V| m.callback.requires((v,)) by {
                assert(all[i].callback.requires((v,)));
            }
        }
        let ComponentModify { callback, cause: _ } = m;
        let ghost prev = data@;
        let ok = data.update(&d, callback);
        proof {
            assert(ok);
            assert(prev == d_init.update(d.index as int, prev[d.index as int]));
            assert(data@ == prev.update(d.index as int, data@[d.index as int]));
            assert(prev.len() == d_init.len());
            assert(data@.len() == prev.len());
            assert forall|x: int| 0 <= x < data@.len() && x != d.index as int implies data@[x] == d_init[x] by {
                assert(data@[x] == prev.update(d.index as int, data@[d.index as int])[x]);
                assert(prev[x] == d_init.update(d.index as int, prev[d.index as int])[x]);
            }
            assert(data@ =~= d_init.update(d.index as int, data@[d.index as int]));
            let t = all.take(i + 1);
            assert(t.drop_last() =~= all.take(i));
            assert(t.last() == all[i]);
            assert(modified_by(v0, t.drop_last(), before) && t.last().callback.ensures(
                (before,),
                data@[d.index as int]->Some_0,
            ));
            i = i + 1;
        }
    }
    proof {
        assert(all.take(i) =~= all);
    }
}

/// The key of the `component_type` value of `entity`, as modifications are
/// queued under it.
pub open spec fn exported_component_key(entity: EntityKey, component_type: ComponentType) -> ComponentKey {
    ComponentKey {
        entity: InternalEntityKey {
            index: entity.inner.index,
            generation: entity.inner.generation,
            temp: false,
        },
        component_type,
    }
}

/// `m` with `change` queued for `key` after the changes already there.
pub open spec fn mods_queued<M>(
    m: Map<ComponentKey, Seq<ComponentModify<M>>>,
    key: ComponentKey,
    change: ComponentModify<M>,
) -> Map<ComponentKey, Seq<ComponentModify<M>>> {
    m.insert(
        key,
        if m.contains_key(key) {
            m[key].push(change)
        } else {
            seq![change]
        },
    )
}

/// `m` with `add` queued for `key` after the additions already there.
pub open spec fn add_queued<V>(
    m: Map<ComponentKey, Seq<ComponentAdd<V>>>,
    key: ComponentKey,
    add: ComponentAdd<V>,
) -> Map<ComponentKey, Seq<ComponentAdd<V>>> {
    m.insert(
        key,
        if m.contains_key(key) {
            m[key].push(add)
        } else {
            seq![add]
        },
    )
}

impl<V, S, M: FnOnce(V) -> V> World<V, S, M> {
    /// `new` is `old` with only the queue of entities to destroy changed.
    pub open spec fn only_to_destroy_changed(old: &Self, new: &Self) -> bool {
        &&& Self::same_entities(old, new)
        &&& Self::same_components(old, new)
        &&& new.to_commit() == old.to_commit()
        &&& new.to_destroy_after() == old.to_destroy_after()
        &&& new.to_delete() == old.to_delete()
        &&& new.to_delete_after() == old.to_delete_after()
        &&& new.pending_adds() == old.pending_adds()
        &&& new.pending_mods() == old.pending_mods()
        &&& Self::same_filters(old, new)
        &&& Self::same_config(old, new)
        &&& Self::same_signals(old, new)
    }

    /// `new` is `old` with only the queue of components to delete changed.
    pub open spec fn only_to_delete_changed(old: &Self, new: &Self) -> bool {
        &&& Self::same_entities(old, new)
        &&& Self::same_components(old, new)
        &&& new.to_commit() == old.to_commit()
        &&& new.to_destroy() == old.to_destroy()
        &&& new.to_destroy_after() == old.to_destroy_after()
        &&& new.to_delete_after() == old.to_delete_after()
        &&& new.pending_adds() == old.pending_adds()
        &&& new.pending_mods() == old.pending_mods()
        &&& Self::same_filters(old, new)
        &&& Self::same_config(old, new)
        &&& Self::same_signals(old, new)
    }

    /// `new` is `old` with only the pending additions changed.
    pub open spec fn only_pending_adds_changed(old: &Self, new: &Self) -> bool {
        &&& new.pending_mods() == old.pending_mods()
        &&& Self::same_entities(old, new)
        &&& Self::same_components(old, new)
        &&& new.to_commit() == old.to_commit()
        &&& new.to_destroy() == old.to_destroy()
        &&& new.to_destroy_after() == old.to_destroy_after()
        &&& new.to_delete() == old.to_delete()
        &&& new.to_delete_after() == old.to_delete_after()
        &&& Self::same_filters(old, new)
        &&& Self::same_config(old, new)
        &&& Self::same_signals(old, new)
    }

    /// `new` is `old` after an entity created in this transaction was dropped
    /// at once: its slot is freed and it is no longer waiting to be committed.
    pub open spec fn uncommitted_entity_dropped(old: &Self, new: &Self, key: InternalEntityKey) -> bool {
        let idx = key.index.index as int;
        &&& new.entities() == old.entities().update(idx, EntityBox { exists: false, ..old.entities()[idx] })
        &&& new.component_rows() == old.component_rows().update(idx, Seq::<ComponentType>::empty())
        &&& new.component_table_len() == old.component_table_len()
        &&& forall|e: EntityIndex, c: ComponentType| #[trigger]
            new.mapping(e, c) == if e == key.index {
                None
            } else {
                old.mapping(e, c)
            }
        &&& forall|e: EntityIndex, c: ComponentType|
            e != key.index ==> #[trigger] new.component_value(e, c) == old.component_value(e, c)
        &&& new.to_commit() == old.to_commit().remove(key)
        &&& new.to_destroy() == old.to_destroy()
        &&& new.to_destroy_after() == old.to_destroy_after()
        &&& new.to_delete() == old.to_delete()
        &&& new.to_delete_after() == old.to_delete_after()
        &&& new.pending_adds() == old.pending_adds()
        &&& new.pending_mods() == old.pending_mods()
        &&& Self::same_filters(old, new)
        &&& Self::same_config(old, new)
        &&& Self::same_signals(old, new)
    }

    /// `Ok` when validating `entity` succeeds, else the validation error.
    pub open spec fn entity_result(w: &Self, entity: EntityKey, strategy: ValidateUncommitted) -> WorldResult {
        match w.validation(entity, strategy) {
            Err(e) => Err(WorldError::Entity(e)),
            Ok(_) => Ok(()),
        }
    }

    /// What `destroy_entity(entity)` does to the world.
    pub open spec fn destroy_effect(old: &Self, new: &Self, entity: EntityKey) -> bool {
        match old.validation(entity, ValidateUncommitted::AllowUncommitted) {
            Err(_) => Self::same_state(old, new),
            Ok(_) => if !old.entities()[entity.inner.index.index as int].committed {
                Self::uncommitted_entity_dropped(old, new, entity.inner)
            } else {
                &&& Self::only_to_destroy_changed(old, new)
                &&& new.to_destroy() == causes_added(
                    old.to_destroy(),
                    entity.inner,
                    seq![new.to_destroy()[entity.inner].last()],
                )
                &&& new.to_destroy()[entity.inner].last().title() == "destroy_entity"
                &&& new.to_destroy()[entity.inner].last().reasons() == seq![old.current_cause()]
            },
        }
    }

    /// What `add_component(entity, component_type, component)` does to the world.
    pub open spec fn add_effect(
        old: &Self,
        new: &Self,
        entity: EntityKey,
        component_type: ComponentType,
        component: V,
    ) -> bool {
        match old.validation(entity, ValidateUncommitted::AllowUncommitted) {
            Err(_) => Self::same_state(old, new),
            Ok(_) => {
                &&& Self::only_pending_adds_changed(old, new)
                &&& new.pending_adds() == add_queued(
                    old.pending_adds(),
                    component_key_of(entity, component_type),
                    ComponentAdd { data: component, cause: old.current_cause() },
                )
            },
        }
    }

    /// What `remove_component(entity, component_type)` answers.
    pub open spec fn remove_result(w: &Self, entity: EntityKey, component_type: ComponentType) -> WorldResult {
        match w.validation(entity, ValidateUncommitted::DenyUncommitted) {
            Err(e) => Err(WorldError::Entity(e)),
            Ok(_) => if w.pending_adds().contains_key(component_key_of(entity, component_type)) {
                Ok(())
            } else if w.mapping(entity.inner.index, component_type) is None {
                Err(
                    WorldError::Component(
                        crate::errors::ComponentError::NotFound(
                            crate::errors::ComponentNotFoundError::Mapping,
                        ),
                    ),
                )
            } else {
                Ok(())
            },
        }
    }

    /// What `remove_component(entity, component_type)` does to the world.
    pub open spec fn remove_effect(old: &Self, new: &Self, entity: EntityKey, component_type: ComponentType) -> bool {
        match old.validation(entity, ValidateUncommitted::DenyUncommitted) {
            Err(_) => Self::same_state(old, new),
            Ok(_) => if old.pending_adds().contains_key(component_key_of(entity, component_type)) {
                &&& Self::only_pending_adds_changed(old, new)
                &&& new.pending_adds() == old.pending_adds().remove(component_key_of(entity, component_type))
            } else if old.mapping(entity.inner.index, component_type) is None {
                Self::same_state(old, new)
            } else {
                &&& Self::only_to_delete_changed(old, new)
                &&& new.to_delete() == causes_added(
                    old.to_delete(),
                    component_key_of(entity, component_type),
                    seq![old.current_cause()],
                )
            },
        }
    }

    /// Whether `entity` names the entity in its slot, committed or not.
    pub fn entity_exists(&self, entity: EntityKey) -> (r: bool)
        requires
            self.in_range(entity),
        ensures
            r == self.validation(entity, ValidateUncommitted::AllowUncommitted) is Ok,
    {
        entity.validate(&self.entity_storage, ValidateUncommitted::AllowUncommitted).is_ok()
    }

    /// Whether the committed `entity` has a committed `component_type` component.
    pub fn has_component(&self, entity: EntityKey, component_type: ComponentType) -> (r: WorldResult<
        bool,
    >)
        requires
            self.in_range(entity),
        ensures
            r == (match self.validation(entity, ValidateUncommitted::DenyUncommitted) {
                Err(e) => Err(WorldError::Entity(e)),
                Ok(_) => Ok(self.mapping(entity.inner.index, component_type) is Some),
            }),
    {
        match entity.validate(&self.entity_storage, ValidateUncommitted::DenyUncommitted) {
            Err(e) => Err(WorldError::Entity(e)),
            Ok(key) => Ok(
                self.component_mappings.has_component_no_validation(key.index, component_type),
            ),
        }
    }

    /// The committed `component_type` value of the committed `entity`.
    pub fn get_component(&self, entity: EntityKey, component_type: ComponentType) -> (r: WorldResult<
        Option<&V>,
    >)
        requires
            self.in_range(entity),
        ensures
            r == (match self.validation(entity, ValidateUncommitted::DenyUncommitted) {
                Err(e) => Err(WorldError::Entity(e)),
                Ok(_) => Ok(
                    match self.component_value(entity.inner.index, component_type) {
                        Some(v) => Some(&v),
                        None => None,
                    },
                ),
            }),
    {
        match entity.validate(&self.entity_storage, ValidateUncommitted::DenyUncommitted) {
            Err(e) => Err(WorldError::Entity(e)),
            Ok(key) => Ok(self.get_component_no_validation(key.index, component_type)),
        }
    }

    fn get_component_no_validation(&self, entity: EntityIndex, component_type: ComponentType) -> (r:
        Option<&V>)
        ensures
            r == (match self.component_value(entity, component_type) {
                Some(v) => Some(&v),
                None => None,
            }),
    {
        match self.component_mappings.get(entity, component_type) {
            Some(data) => self.component_data.get(&data),
            None => None,
        }
    }

    /// Destroys `entity`. One created in this transaction is dropped at once;
    /// a committed one waits for the pipeline, with a cause that follows from
    /// the current cause.
    pub fn destroy_entity(&mut self, entity: EntityKey) -> (r: WorldResult)
        requires
            old(self).wf(),
            old(self).in_range(entity),
        ensures
            final(self).wf(),
            r == Self::entity_result(old(self), entity, ValidateUncommitted::AllowUncommitted),
            Self::destroy_effect(old(self), final(self), entity),
    {
        let key = match entity.validate(&self.entity_storage, ValidateUncommitted::AllowUncommitted) {
            Err(e) => {
                return Err(WorldError::Entity(e));
            },
            Ok(key) => key,
        };
        if self.entity_storage.is_not_committed(key.index) {
            self.entities_to_commit.remove(&key);
            clear_components_of(
                &mut self.entity_component_index,
                &mut self.component_mappings,
                &mut self.component_data,
                key.index,
                Ghost(self.entity_storage@),
            );
            self.entity_storage.delete_entity_data(key.index);
            proof {
                let rows = self.entity_component_index@;
                assert forall|i: int|
                    0 <= i < rows.len() && i < self.entity_storage@.len() && !self.entity_storage@[i].exists implies #[trigger] rows[i]
                    == Seq::<ComponentType>::empty() by {
                    if i != key.index.index as int {
                        assert(self.entity_storage@[i] == old(self).entity_storage@[i]);
                    }
                }
                assert(self.rows_consistent());
                assert forall|e: EntityIndex, c: ComponentType|
                    e != key.index implies #[trigger] self.component_value(e, c) == old(self).component_value(e, c) by {
                    assert(self.component_mappings.mapping(e, c) == old(self).component_mappings.mapping(e, c));
                }
                assert(self.to_commit() =~= old(self).to_commit().remove(key));
                assert forall|k: InternalEntityKey| #[trigger]
                    self.entities_to_commit@.contains_key(k) implies k.index.index
                    < self.entity_storage@.len() by {
                    assert(old(self).entities_to_commit@.contains_key(k));
                }
                assert(self.queues_in_range());
            }
        } else {
            let mut reasons: Vec<Cause> = Vec::new();
            reasons.push(self.current_cause.share());
            let cause = Cause::consequence("destroy_entity", reasons);
            queue_causes(
                &mut self.entities_to_destroy.before_disappear,
                key,
                OptTinyVec::single(cause),
            );
            proof {
                assert forall|k: InternalEntityKey| #[trigger]
                    self.entities_to_destroy.before_disappear@.contains_key(k) implies k.index.index
                    < self.entity_storage@.len() by {
                    assert(causes_view(self.entities_to_destroy.before_disappear@).contains_key(k));
                    if k != key {
                        assert(causes_view(old(self).entities_to_destroy.before_disappear@).contains_key(k));
                    }
                }
                assert(self.queues_in_range());
            }
        }
        Ok(())
    }

    /// Queues `component` as the `component_type` value of `entity`; it is
    /// added by the next pipeline run (of several values queued for one
    /// component, the first is kept).
    pub fn add_component(&mut self, entity: EntityKey, component_type: ComponentType, component: V) -> (r:
        WorldResult)
        requires
            old(self).wf(),
            old(self).in_range(entity),
        ensures
            final(self).wf(),
            r == Self::entity_result(old(self), entity, ValidateUncommitted::AllowUncommitted),
            Self::add_effect(old(self), final(self), entity, component_type, component),
    {
        let key = match entity.validate(&self.entity_storage, ValidateUncommitted::AllowUncommitted) {
            Err(e) => {
                return Err(WorldError::Entity(e));
            },
            Ok(key) => key,
        };
        let ck = ComponentKey::new(key, component_type);
        let add = ComponentAdd { data: component, cause: self.current_cause.share() };
        match self.components_to_add.remove(&ck) {
            Some(mut versions) => {
                versions.push(add);
                self.components_to_add.insert_new(ck, versions);
            },
            None => {
                let mut versions: Vec<ComponentAdd<V>> = Vec::new();
                versions.push(add);
                self.components_to_add.insert_new(ck, versions);
            },
        }
        proof {
            assert(self.pending_adds() =~= add_queued(
                old(self).pending_adds(),
                ck,
                ComponentAdd { data: component, cause: old(self).current_cause() },
            ));
            assert forall|k: ComponentKey| #[trigger]
                self.components_to_add@.contains_key(k) implies k.entity.index.index
                < self.entity_storage@.len() by {
                if k != ck {
                    assert(old(self).components_to_add@.contains_key(k));
                }
            }
            assert(self.queues_in_range());
        }
        Ok(())
    }

    /// Removes the `component_type` component of the committed `entity`: a
    /// value queued in this transaction is dropped; otherwise the committed
    /// component waits for the pipeline to be removed.
    pub fn remove_component(&mut self, entity: EntityKey, component_type: ComponentType) -> (r:
        WorldResult)
        requires
            old(self).wf(),
            old(self).in_range(entity),
        ensures
            final(self).wf(),
            r == Self::remove_result(old(self), entity, component_type),
            Self::remove_effect(old(self), final(self), entity, component_type),
    {
        let key = match entity.validate(&self.entity_storage, ValidateUncommitted::DenyUncommitted) {
            Err(e) => {
                return Err(WorldError::Entity(e));
            },
            Ok(key) => key,
        };
        let ck = ComponentKey::new(key, component_type);
        let removed = self.components_to_add.remove(&ck);
        match removed {
            Some(_) => {
                proof {
                    assert(self.pending_adds() =~= old(self).pending_adds().remove(ck));
                    assert forall|k: ComponentKey| #[trigger]
                        self.components_to_add@.contains_key(k) implies k.entity.index.index
                        < self.entity_storage@.len() by {
                        assert(old(self).components_to_add@.contains_key(k));
                    }
                    assert(self.queues_in_range());
                }
                Ok(())
            },
            None => {
                proof {
                    assert(self.components_to_add@ =~= old(self).components_to_add@);
                }
                if !self.component_mappings.has_component_no_validation(key.index, component_type) {
                    return Err(
                        WorldError::Component(
                            crate::errors::ComponentError::NotFound(
                                crate::errors::ComponentNotFoundError::Mapping,
                            ),
                        ),
                    );
                }
                let cause = self.current_cause.share();
                queue_causes(
                    &mut self.components_to_delete.before_disappear,
                    ck,
                    OptTinyVec::single(cause),
                );
                proof {
                    assert forall|k: ComponentKey| #[trigger]
                        self.components_to_delete.before_disappear@.contains_key(k) implies k.entity.index.index
                        < self.entity_storage@.len() by {
                        assert(causes_view(self.components_to_delete.before_disappear@).contains_key(k));
                        if k != ck {
                            assert(causes_view(old(self).components_to_delete.before_disappear@).contains_key(k));
                        }
                    }
                    assert(self.queues_in_range());
                }
                Ok(())
            },
        }
    }

    /// What `modify_component(entity, component_type, change)` does to the
    /// world.
    pub open spec fn modify_effect(
        old: &Self,
        new: &Self,
        entity: EntityKey,
        component_type: ComponentType,
        change: M,
    ) -> bool {
        match old.validation(entity, ValidateUncommitted::DenyUncommitted) {
            Err(_) => Self::same_state(old, new),
            Ok(_) => {
                &&& new.pending_mods() == mods_queued(
                    old.pending_mods(),
                    exported_component_key(entity, component_type),
                    ComponentModify { callback: change, cause: old.current_cause() },
                )
                &&& Self::same_entities(old, new)
                &&& Self::same_components(old, new)
                &&& new.to_commit() == old.to_commit()
                &&& new.to_destroy() == old.to_destroy()
                &&& new.to_destroy_after() == old.to_destroy_after()
                &&& new.to_delete() == old.to_delete()
                &&& new.to_delete_after() == old.to_delete_after()
                &&& new.pending_adds() == old.pending_adds()
                &&& Self::same_filters(old, new)
                &&& Self::same_config(old, new)
                &&& Self::same_signals(old, new)
            },
        }
    }

    /// Queues `change` for the `component_type` value of the committed
    /// `entity`, with the current cause; queued changes are applied, in
    /// order, when the pipeline commits modifications.
    pub fn modify_component(&mut self, entity: EntityKey, component_type: ComponentType, change: M) -> (r:
        WorldResult)
        requires
            old(self).wf(),
            old(self).in_range(entity),
            forall|v: V| change.requires((v,)),
        ensures
            final(self).wf(),
            r == Self::entity_result(old(self), entity, ValidateUncommitted::DenyUncommitted),
            Self::modify_effect(old(self), final(self), entity, component_type, change),
    {
        let key = match entity.validate(&self.entity_storage, ValidateUncommitted::DenyUncommitted) {
            Err(e) => {
                return Err(WorldError::Entity(e));
            },
            Ok(key) => key,
        };
        let ck = ComponentKey::new(key.export().inner, component_type);
        let m = ComponentModify { callback: change, cause: self.current_cause.share() };
        let ghost old_mods = self.components_to_modify@;
        match self.components_to_modify.remove(&ck) {
            Some(mut versions) => {
                versions.push(m);
                self.components_to_modify.insert_new(ck, versions);
            },
            None => {
                let mut versions: Vec<ComponentModify<M>> = Vec::new();
                versions.push(m);
                self.components_to_modify.insert_new(ck, versions);
            },
        }
        proof {
            assert(ck == exported_component_key(entity, component_type));
            assert(self.pending_mods() =~= mods_queued(
                old(self).pending_mods(),
                ck,
                ComponentModify { callback: change, cause: old(self).current_cause() },
            ));
            assert forall|k: ComponentKey, i: int, v: V|
                self.components_to_modify@.contains_key(k) && 0 <= i < self.components_to_modify@[k]@.len()
                    implies #[trigger] self.components_to_modify@[k]@[i].callback.requires((v,)) by {
                if k != ck {
                    assert(old_mods.contains_key(k));
                    assert(old_mods[k] == self.components_to_modify@[k]);
                } else if old_mods.contains_key(k) && i < old_mods[k]@.len() {
                    assert(self.components_to_modify@[k]@[i] == old_mods[k]@[i]);
                }
            }
            assert(self.mods_callable());
            assert forall|k: ComponentKey| #[trigger] self.components_to_modify@.contains_key(k) implies k.entity.index.index
                < self.entity_storage@.len() && !k.entity.temp && self.components_to_modify@[k]@.len() > 0 by {
                if k != ck {
                    assert(old_mods.contains_key(k));
                }
            }
            assert(self.queues_in_range());
        }
        Ok(())
    }

    /// What `signal(payload)` does to the world.
    pub open spec fn signal_effect(old: &Self, new: &Self, payload: S) -> bool {
        &&& new.signals() == old.signals().push(Signal { payload: payload, cause: old.current_cause() })
        &&& new.current_cause() == old.current_cause()
        &&& new.tx() == old.tx()
        &&& Self::same_entities(old, new)
        &&& Self::same_components(old, new)
        &&& Self::same_queues(old, new)
        &&& Self::same_filters(old, new)
        &&& Self::same_config(old, new)
    }

    /// Queues a signal; its handlers run in the next pipeline run.
    pub fn signal(&mut self, payload: S)
        requires
            old(self).wf(),
        ensures
            final(self).wf(),
            Self::signal_effect(old(self), final(self), payload),
    {
        let cause = self.current_cause.share();
        self.signals.push_back(Signal { payload, cause });
    }
}


/// The filters `fs` with a filter of `criteria` at `key`: unchanged when
/// `key` is inside `fs`, else with a new filter that tracks nothing.
pub open spec fn with_filter(fs: Seq<FilterView>, key: InternalFilterKey, criteria: Seq<ComponentType>) -> Seq<
    FilterView,
> {
    if (key.0 as int) < fs.len() {
        fs
    } else {
        fs.push(FilterView { criteria, key, matched: None, appear: None, disappear: None })
    }
}

/// Whether `key` is where the filter of `criteria` is in `fs`, or, when
/// there is none, where a new one goes.
pub open spec fn filter_slot(fs: Seq<FilterView>, key: InternalFilterKey, criteria: Seq<ComponentType>) -> bool {
    if (key.0 as int) < fs.len() {
        fs[key.0 as int].criteria == criteria
    } else {
        &&& key.0 == fs.len()
        &&& forall|k: int| 0 <= k < fs.len() ==> #[trigger] fs[k].criteria != criteria
    }
}

/// Filter `f` tracking the entities it matches (`s`, when it did not track them).
pub open spec fn with_matched(f: FilterView, s: Set<InternalEntityKey>) -> FilterView {
    if f.matched is Some {
        f
    } else {
        FilterView { matched: Some(s), ..f }
    }
}

/// Filter `f` recording appear events.
pub open spec fn with_appear(f: FilterView) -> FilterView {
    if f.appear is Some {
        f
    } else {
        FilterView { appear: Some(Map::empty()), ..f }
    }
}

/// Filter `f` recording disappear events.
pub open spec fn with_disappear(f: FilterView) -> FilterView {
    if f.disappear is Some {
        f
    } else {
        FilterView { disappear: Some(Map::empty()), ..f }
    }
}

/// `new` has the filters of `old` with the filter of `criteria`, at `key`,
/// tracking the entities it matches (`s`, when it did not track them).
pub open spec fn matched_tracked(
    old: Seq<FilterView>,
    new: Seq<FilterView>,
    key: InternalFilterKey,
    criteria: Seq<ComponentType>,
    s: Set<InternalEntityKey>,
) -> bool {
    &&& filter_slot(old, key, criteria)
    &&& new == with_filter(old, key, criteria).update(
        key.0 as int,
        with_matched(with_filter(old, key, criteria)[key.0 as int], s),
    )
}

/// `new` has the filters of `old` with the filter of `criteria`, at `key`,
/// recording appear events.
pub open spec fn appear_tracked(
    old: Seq<FilterView>,
    new: Seq<FilterView>,
    key: InternalFilterKey,
    criteria: Seq<ComponentType>,
) -> bool {
    &&& filter_slot(old, key, criteria)
    &&& new == with_filter(old, key, criteria).update(
        key.0 as int,
        with_appear(with_filter(old, key, criteria)[key.0 as int]),
    )
}

/// `new` has the filters of `old` with the filter of `criteria`, at `key`,
/// recording disappear events.
pub open spec fn disappear_tracked(
    old: Seq<FilterView>,
    new: Seq<FilterView>,
    key: InternalFilterKey,
    criteria: Seq<ComponentType>,
) -> bool {
    &&& filter_slot(old, key, criteria)
    &&& new == with_filter(old, key, criteria).update(
        key.0 as int,
        with_disappear(with_filter(old, key, criteria)[key.0 as int]),
    )
}

impl<V, S, M: FnOnce(V) -> V> World<V, S, M> {
    /// The committed entities that have a committed component of every type of `criteria`.
    pub open spec fn matching_entities(&self, criteria: Seq<ComponentType>) -> Set<InternalEntityKey> {
        Set::new(
            |e: InternalEntityKey|
                crate::entity_storage::committed_keys(self.entities()).contains(e) && forall|i: int|
                    0 <= i < criteria.len() ==> (#[trigger] self.mapping(e.index, criteria[i])) is Some,
        )
    }

    /// The component types of the entity in the slot of `entity`, in the
    /// order they were added.
    pub fn get_component_types(&self, entity: InternalEntityKey) -> (r: Vec<ComponentType>)
        requires
            self.wf(),
            (entity.index.index as int) < self.entities().len(),
        ensures
            r@ == self.component_rows()[entity.index.index as int],
    {
        self.entity_component_index.get_component_types(entity.index)
    }

    /// The keys of all committed entities, in slot order.
    pub fn get_all_entities(&self) -> (r: Vec<InternalEntityKey>)
        requires
            self.wf(),
        ensures
            r@ == crate::entity_storage::committed_keys(self.entities()),
    {
        self.entity_storage.get_all()
    }

    /// Whether the filter of `filter` tracks the entities it matches.
    pub open spec fn query_registered(&self, filter: FilterDesc) -> bool {
        exists|k: int|
            0 <= k < self.filters().len() && #[trigger] self.filters()[k].criteria
                == filter.component_types@ && self.filters()[k].matched is Some
    }

    /// `new` is `old` with only the filters and the handlers changed.
    pub open spec fn only_filters_changed(old: &Self, new: &Self) -> bool {
        &&& Self::same_entities(old, new)
        &&& Self::same_components(old, new)
        &&& Self::same_queues(old, new)
        &&& new.new_appear() == old.new_appear()
        &&& new.new_disappear() == old.new_disappear()
        &&& new.sequence() == old.sequence()
        &&& Self::same_signals(old, new)
    }

    fn obtain_filter(&mut self, filter: FilterDesc) -> (r: InternalFilterKey)
        requires
            old(self).wf(),
        ensures
            final(self).wf(),
            filter_slot(old(self).filters(), r, filter.component_types@),
            final(self).filters() == with_filter(old(self).filters(), r, filter.component_types@),
            Self::only_filters_changed(old(self), final(self)),
            Self::same_config(old(self), final(self)),
            final(self).component_mappings == old(self).component_mappings,
            final(self).entity_storage == old(self).entity_storage,
    {
        let r = self.filter_manager.get_filter_mut(filter);
        proof {
            if (r.0 as int) < old(self).filters().len() {
                assert(old(self).filters()[r.0 as int].criteria == filter.component_types@) by {
                    if !(exists|k: int|
                        0 <= k < old(self).filters().len() && #[trigger] old(self).filters()[k].criteria
                            == filter.component_types@) {
                    }
                }
            }
        }
        r
    }

    /// Makes the filter of `filter` track the entities it matches.
    pub fn register_filter(&mut self, filter: FilterDesc)
        requires
            old(self).wf(),
        ensures
            final(self).wf(),
            exists|k: InternalFilterKey|
                #[trigger] matched_tracked(
                    old(self).filters(),
                    final(self).filters(),
                    k,
                    filter.component_types@,
                    old(self).matching_entities(filter.component_types@),
                ),
            Self::only_filters_changed(old(self), final(self)),
            Self::same_config(old(self), final(self)),
    {
        let key = self.obtain_filter(filter);
        proof {
            old(self).lemma_prefilled(filter.component_types@);
        }
        self.filter_manager.track_matched_entities(key, &self.entity_storage, &self.component_mappings);
        proof {
            assert(matched_tracked(
                old(self).filters(),
                self.filters(),
                key,
                filter.component_types@,
                old(self).matching_entities(filter.component_types@),
            ));
        }
    }

    /// The user keys of the entities that the filter of `filter` matches.
    pub fn query(&self, filter: FilterDesc) -> (r: Vec<EntityKey>)
        requires
            self.wf(),
            self.query_registered(filter),
        ensures
            forall|k: int|
                0 <= k < self.filters().len() && #[trigger] self.filters()[k].criteria
                    == filter.component_types@ ==> r@.to_set() == crate::filter::exported_set(
                    self.filters()[k].matched->Some_0,
                ),
            r@.no_duplicates(),
    {
        match self.filter_manager.find_filter(filter) {
            Some(key) => {
                proof {
                    let k = choose|k: int|
                        0 <= k < self.filters().len() && #[trigger] self.filters()[k].criteria
                            == filter.component_types@ && self.filters()[k].matched is Some;
                    self.filter_manager.lemma_criteria_unique(k, key.0 as int);
                }
                let r = self.filter_manager.matched_entities(key);
                proof {
                    assert forall|k: int|
                        0 <= k < self.filters().len() && #[trigger] self.filters()[k].criteria
                            == filter.component_types@ implies r@.to_set()
                        == crate::filter::exported_set(self.filters()[k].matched->Some_0) by {
                        self.filter_manager.lemma_criteria_unique(k, key.0 as int);
                    }
                }
                r
            },
            None => {
                proof {
                    let k = choose|k: int|
                        0 <= k < self.filters().len() && #[trigger] self.filters()[k].criteria
                            == filter.component_types@ && self.filters()[k].matched is Some;
                    assert(self.filters()[k].criteria != filter.component_types@);
                }
                Vec::new()
            },
        }
    }

    /// Whether the filter of `filter` tracks the entities it matches.
    pub fn has_query(&self, filter: FilterDesc) -> (r: bool)
        requires
            self.wf(),
        ensures
            r == self.query_registered(filter),
    {
        match self.filter_manager.find_filter(filter) {
            Some(key) => {
                let f = self.filter_manager.get_filter_by_key(key);
                let r = f.matched_entities.is_some();
                proof {
                    if self.query_registered(filter) {
                        let k = choose|k: int|
                            0 <= k < self.filters().len() && #[trigger] self.filters()[k].criteria
                                == filter.component_types@ && self.filters()[k].matched is Some;
                        self.filter_manager.lemma_criteria_unique(k, key.0 as int);
                    }
                }
                r
            },
            None => false,
        }
    }

    /// The cause that changes made now are recorded with.
    pub fn get_current_cause(&self) -> (r: Cause)
        ensures
            r == self.current_cause(),
    {
        self.current_cause.share()
    }

    /// Registers handler `handler` for the appear events of the filter of `filter`.
    pub fn add_appear_handler(&mut self, handler: usize, filter: FilterDesc)
        requires
            old(self).wf(),
        ensures
            final(self).wf(),
            exists|k: InternalFilterKey|
                #[trigger] appear_tracked(
                    old(self).filters(),
                    final(self).filters(),
                    k,
                    filter.component_types@,
                ) && final(self).appear_handlers() == old(self).appear_handlers().push(
                    (HandlerBinding { filter: k, handler: handler }),
                ),
            Self::only_filters_changed(old(self), final(self)),
            final(self).disappear_handlers() == old(self).disappear_handlers(),
            final(self).global_signal_handlers() == old(self).global_signal_handlers(),
            final(self).entity_signal_handlers() == old(self).entity_signal_handlers(),
    {
        let key = self.obtain_filter(filter);
        self.filter_manager.track_appear_events(key);
        self.on_appear.push(HandlerBinding { filter: key, handler });
        proof {
            assert(appear_tracked(
                old(self).filters(),
                self.filters(),
                key,
                filter.component_types@,
            ));
            assert(old(self).handlers_in_range());
            assert(self.filter_manager.filters().len() >= old(self).filter_manager.filters().len());
            assert(key.0 < self.filter_manager.filters().len());
            assert forall|i: int| 0 <= i < self.on_appear@.len() implies #[trigger] self.on_appear@[i].filter.0
                < self.filter_manager.filters().len() by {
                if i < old(self).on_appear@.len() {
                    assert(self.on_appear@[i] == old(self).on_appear@[i]);
                    assert(old(self).on_appear@[i].filter.0 < old(self).filter_manager.filters().len());
                } else {
                    assert(self.on_appear@[i].filter == key);
                }
            }
            self.lemma_handlers_in_range(old(self));
        }
    }

    /// Registers handler `handler` for the disappear events of the filter of `filter`.
    pub fn add_disappear_handler(&mut self, handler: usize, filter: FilterDesc)
        requires
            old(self).wf(),
        ensures
            final(self).wf(),
            exists|k: InternalFilterKey|
                #[trigger] disappear_tracked(
                    old(self).filters(),
                    final(self).filters(),
                    k,
                    filter.component_types@,
                ) && final(self).disappear_handlers() == old(self).disappear_handlers().push(
                    (HandlerBinding { filter: k, handler: handler }),
                ),
            Self::only_filters_changed(old(self), final(self)),
            final(self).appear_handlers() == old(self).appear_handlers(),
            final(self).global_signal_handlers() == old(self).global_signal_handlers(),
            final(self).entity_signal_handlers() == old(self).entity_signal_handlers(),
    {
        let key = self.obtain_filter(filter);
        self.filter_manager.track_disappear_events(key);
        self.on_disappear.push(HandlerBinding { filter: key, handler });
        proof {
            assert(disappear_tracked(
                old(self).filters(),
                self.filters(),
                key,
                filter.component_types@,
            ));
            assert(old(self).handlers_in_range());
            assert(self.filter_manager.filters().len() >= old(self).filter_manager.filters().len());
            assert(key.0 < self.filter_manager.filters().len());
            assert forall|i: int| 0 <= i < self.on_disappear@.len() implies #[trigger] self.on_disappear@[i].filter.0
                < self.filter_manager.filters().len() by {
                if i < old(self).on_disappear@.len() {
                    assert(self.on_disappear@[i] == old(self).on_disappear@[i]);
                    assert(old(self).on_disappear@[i].filter.0 < old(self).filter_manager.filters().len());
                } else {
                    assert(self.on_disappear@[i].filter == key);
                }
            }
            self.lemma_handlers_in_range(old(self));
        }
    }

    /// Registers handler `handler` for every signal, called once per signal.
    pub fn add_global_signal_handler(&mut self, handler: usize)
        requires
            old(self).wf(),
        ensures
            final(self).wf(),
            final(self).global_signal_handlers() == old(self).global_signal_handlers().push(handler),
            Self::only_filters_changed(old(self), final(self)),
            final(self).filters() == old(self).filters(),
            final(self).appear_handlers() == old(self).appear_handlers(),
            final(self).disappear_handlers() == old(self).disappear_handlers(),
            final(self).entity_signal_handlers() == old(self).entity_signal_handlers(),
    {
        self.global_signal_handlers.push(handler);
    }

    /// Registers handler `handler` for every signal, called once for each
    /// entity that the filter of `filter` matches.
    pub fn add_entity_signal_handler(&mut self, handler: usize, filter: FilterDesc)
        requires
            old(self).wf(),
        ensures
            final(self).wf(),
            exists|k: InternalFilterKey|
                #[trigger] matched_tracked(
                    old(self).filters(),
                    final(self).filters(),
                    k,
                    filter.component_types@,
                    old(self).matching_entities(filter.component_types@),
                ) && final(self).entity_signal_handlers() == old(self).entity_signal_handlers().push(
                    (HandlerBinding { filter: k, handler: handler }),
                ),
            Self::only_filters_changed(old(self), final(self)),
            final(self).appear_handlers() == old(self).appear_handlers(),
            final(self).disappear_handlers() == old(self).disappear_handlers(),
            final(self).global_signal_handlers() == old(self).global_signal_handlers(),
    {
        let key = self.obtain_filter(filter);
        proof {
            old(self).lemma_prefilled(filter.component_types@);
        }
        self.filter_manager.track_matched_entities(key, &self.entity_storage, &self.component_mappings);
        self.entity_signal_handlers.push(HandlerBinding { filter: key, handler });
        proof {
            assert(matched_tracked(
                old(self).filters(),
                self.filters(),
                key,
                filter.component_types@,
                old(self).matching_entities(filter.component_types@),
            ));
            assert(old(self).handlers_in_range());
            assert(self.filter_manager.filters().len() >= old(self).filter_manager.filters().len());
            assert(key.0 < self.filter_manager.filters().len());
            assert forall|i: int| 0 <= i < self.entity_signal_handlers@.len() implies #[trigger] self.entity_signal_handlers@[i].filter.0
                < self.filter_manager.filters().len() by {
                if i < old(self).entity_signal_handlers@.len() {
                    assert(self.entity_signal_handlers@[i] == old(self).entity_signal_handlers@[i]);
                    assert(old(self).entity_signal_handlers@[i].filter.0 < old(self).filter_manager.filters().len());
                } else {
                    assert(self.entity_signal_handlers@[i].filter == key);
                }
            }
            self.lemma_handlers_in_range(old(self));
        }
    }

    proof fn lemma_prefilled(&self, criteria: Seq<ComponentType>)
        ensures
            crate::filter::prefilled(criteria, self.entity_storage@, &self.component_mappings)
                == self.matching_entities(criteria),
    {
        let a = crate::filter::prefilled(criteria, self.entity_storage@, &self.component_mappings);
        let b = self.matching_entities(criteria);
        assert forall|e: InternalEntityKey| a.contains(e) <==> b.contains(e) by {
            if crate::filter::all_mapped(criteria, &self.component_mappings, e.index) {
                assert forall|i: int| 0 <= i < criteria.len() implies (#[trigger] self.mapping(
                    e.index,
                    criteria[i],
                )) is Some by {
                    assert(self.component_mappings.mapping(e.index, criteria[i]) is Some);
                }
            }
            if forall|i: int|
                0 <= i < criteria.len() ==> (#[trigger] self.mapping(e.index, criteria[i])) is Some {
                assert forall|i: int| 0 <= i < criteria.len() implies (
                #[trigger] self.component_mappings.mapping(e.index, criteria[i])) is Some by {
                    assert(self.mapping(e.index, criteria[i]) is Some);
                }
            }
        }
        assert(a =~= b);
    }

    proof fn lemma_handlers_in_range(&self, old: &Self)
        requires
            old.wf(),
            self.filter_manager.wf(),
            self.filter_manager.filters().len() >= old.filter_manager.filters().len(),
            forall|i: int| 0 <= i < self.on_appear@.len() ==> #[trigger] self.on_appear@[i].filter.0 < self.filter_manager.filters().len(),
            forall|i: int| 0 <= i < self.on_disappear@.len() ==> #[trigger] self.on_disappear@[i].filter.0 < self.filter_manager.filters().len(),
            forall|i: int| 0 <= i < self.entity_signal_handlers@.len() ==> #[trigger] self.entity_signal_handlers@[i].filter.0 < self.filter_manager.filters().len(),
        ensures
            self.handlers_in_range(),
    {
    }

    /// The committed entity that `entity` names, if it names one. Asking for
    /// an entity created in this transaction is refused by the precondition.
    pub fn get_entity(&self, entity: EntityKey) -> (r: Option<InternalEntityKey>)
        requires
            self.in_range(entity),
            self.validation(entity, ValidateUncommitted::DenyUncommitted) != Err::<
                (),
                crate::errors::EntityError,
            >(crate::errors::EntityError::NotCommitted),
        ensures
            r == (if self.validation(entity, ValidateUncommitted::DenyUncommitted) is Ok {
                Some(entity.inner)
            } else {
                None
            }),
    {
        match entity.validate(&self.entity_storage, ValidateUncommitted::DenyUncommitted) {
            Ok(key) => Some(key),
            Err(_) => None,
        }
    }

    /// Makes the changes made from now on follow from a handler named
    /// `handler_name` that `causes` led to; returns the cause it replaces.
    pub fn enter_handler(&mut self, handler_name: &'static str, causes: Vec<Cause>) -> (prev: Cause)
        requires
            old(self).wf(),
        ensures
            final(self).wf(),
            prev == old(self).current_cause(),
            final(self).current_cause().title() == handler_name,
            final(self).current_cause().reasons() == causes@,
            final(self).signals() == old(self).signals(),
            final(self).tx() == old(self).tx(),
            Self::same_entities(old(self), final(self)),
            Self::same_components(old(self), final(self)),
            Self::same_queues(old(self), final(self)),
            Self::same_filters(old(self), final(self)),
            Self::same_config(old(self), final(self)),
    {
        let mut cause = Cause::consequence(handler_name, causes);
        std::mem::swap(&mut cause, &mut self.current_cause);
        cause
    }

    /// Makes `cause` the current cause again.
    pub fn leave_handler(&mut self, cause: Cause)
        requires
            old(self).wf(),
        ensures
            final(self).wf(),
            final(self).current_cause() == cause,
            final(self).signals() == old(self).signals(),
            final(self).tx() == old(self).tx(),
            Self::same_entities(old(self), final(self)),
            Self::same_components(old(self), final(self)),
            Self::same_queues(old(self), final(self)),
            Self::same_filters(old(self), final(self)),
            Self::same_config(old(self), final(self)),
    {
        self.current_cause = cause;
    }
}


/// The entries with their causes as sequences.
pub open spec fn causes_entries<K>(s: Seq<(K, OptTinyVec)>) -> Seq<(K, Seq<Cause>)> {
    s.map_values(|p: (K, OptTinyVec)| (p.0, p.1@))
}

proof fn lemma_causes_entries<K>(s: Seq<(K, OptTinyVec)>)
    ensures
        entries_to_map(causes_entries(s)) == causes_view(entries_to_map(s)),
        entry_keys(causes_entries(s)) == entry_keys(s),
    decreases s.len(),
{
    if s.len() > 0 {
        lemma_causes_entries(s.drop_last());
        assert(causes_entries(s).drop_last() =~= causes_entries(s.drop_last()));
    }
    assert(entries_to_map(causes_entries(s)) =~= causes_view(entries_to_map(s)));
    assert(entry_keys(causes_entries(s)) =~= entry_keys(s));
}

/// `order` lists the entries of `m`, each key once.
pub open spec fn is_order_of<K>(order: Seq<(K, Seq<Cause>)>, m: Map<K, Seq<Cause>>) -> bool {
    &&& entry_keys(order).no_duplicates()
    &&& entries_to_map(order) == m
}

/// Takes the entry at `i` out of `v`, leaving `filler` with the same key.
fn take_at<K: Copy, T>(v: &mut Vec<(K, T)>, i: usize, filler: T) -> (r: (K, T))
    requires
        i < old(v)@.len(),
    ensures
        r == old(v)@[i as int],
        final(v)@ == old(v)@.update(i as int, (old(v)@[i as int].0, filler)),
{
    let k = v[i].0;
    let mut e = (k, filler);
    std::mem::swap(&mut v[i], &mut e);
    e
}

/// Slot `i` of `s`, marked committed when an entity of `keys` is there.
pub open spec fn committed_slot(s: Seq<EntityBox>, keys: Set<InternalEntityKey>, i: int) -> EntityBox {
    if exists|k: InternalEntityKey| #[trigger] keys.contains(k) && k.index.index == i {
        EntityBox { committed: true, ..s[i] }
    } else {
        s[i]
    }
}

/// The filters `fs` after the entities of `order` were committed, in that
/// order, with `all` the filter that matches every entity.
pub open spec fn created_filters(
    fs: Seq<FilterView>,
    all: Option<InternalFilterKey>,
    order: Seq<(InternalEntityKey, Seq<Cause>)>,
) -> Seq<FilterView>
    decreases order.len(),
{
    if order.len() == 0 {
        fs
    } else {
        let prev = created_filters(fs, all, order.drop_last());
        let k = order.last().0;
        let c = order.last().1;
        match all {
            Some(a) => prev.update(
                a.0 as int,
                FilterView {
                    matched: crate::filter::matched_with(prev[a.0 as int].matched, k),
                    appear: crate::filter::events_added(prev[a.0 as int].appear, k, c),
                    ..prev[a.0 as int]
                },
            ),
            None => prev,
        }
    }
}

proof fn lemma_created_filters_len(
    fs: Seq<FilterView>,
    all: Option<InternalFilterKey>,
    order: Seq<(InternalEntityKey, Seq<Cause>)>,
)
    requires
        all matches Some(a) ==> a.0 < fs.len(),
    ensures
        created_filters(fs, all, order).len() == fs.len(),
    decreases order.len(),
{
    if order.len() > 0 {
        lemma_created_filters_len(fs, all, order.drop_last());
    }
}

/// The filters with new appear events after `n` entities were committed.
pub open spec fn created_appear(na: Set<InternalFilterKey>, all: Option<InternalFilterKey>, n: nat) -> Set<
    InternalFilterKey,
> {
    match all {
        Some(a) => if n > 0 {
            na.insert(a)
        } else {
            na
        },
        None => na,
    }
}

/// Marks the entities of `entries` committed and tells the filters.
fn commit_entities(
    storage: &mut EntityStorage,
    filters: &mut FilterManager,
    entries: Vec<(InternalEntityKey, OptTinyVec)>,
)
    requires
        old(storage).wf(),
        old(filters).wf(),
        forall|j: int| 0 <= j < entries@.len() ==> #[trigger] entries@[j].0.index.index < old(storage)@.len(),
    ensures
        final(storage).wf(),
        final(storage)@.len() == old(storage)@.len(),
        final(storage).boundary() == old(storage).boundary(),
        final(storage).holes() == old(storage).holes(),
        forall|x: int|
            0 <= x < old(storage)@.len() ==> #[trigger] final(storage)@[x] == committed_slot(
                old(storage)@,
                entry_keys(entries@).to_set(),
                x,
            ),
        final(filters).wf(),
        final(filters).all_entities_key() == old(filters).all_entities_key(),
        final(filters).new_disappear() == old(filters).new_disappear(),
        final(filters).filters() == created_filters(
            old(filters).filters(),
            old(filters).all_entities_key(),
            causes_entries(entries@),
        ),
        final(filters).new_appear() == created_appear(
            old(filters).new_appear(),
            old(filters).all_entities_key(),
            entries@.len(),
        ),
{
    let ghost orig = entries@;
    let ghost s0 = storage@;
    let ghost f0 = filters.filters();
    let ghost a0 = filters.all_entities_key();
    let ghost na0 = filters.new_appear();
    let mut entries = entries;
    let n = entries.len();
    let mut i: usize = 0;
    assert(entry_keys(orig.take(0)).to_set() =~= Set::<InternalEntityKey>::empty());
    assert(causes_entries(orig.take(0)) =~= Seq::<(InternalEntityKey, Seq<Cause>)>::empty());
    while i < n
        invariant
            n == orig.len(),
            entries@.len() == n,
            i <= n,
            forall|j: int| i <= j < n ==> #[trigger] entries@[j] == orig[j],
            forall|j: int| 0 <= j < n ==> #[trigger] orig[j].0.index.index < s0.len(),
            storage.wf(),
            storage@.len() == s0.len(),
            storage.boundary() == old(storage).boundary(),
            storage.holes() == old(storage).holes(),
            forall|x: int|
                0 <= x < s0.len() ==> #[trigger] storage@[x] == committed_slot(
                    s0,
                    entry_keys(orig.take(i as int)).to_set(),
                    x,
                ),
            filters.wf(),
            filters.all_entities_key() == a0,
            filters.new_disappear() == old(filters).new_disappear(),
            filters.filters() == created_filters(f0, a0, causes_entries(orig.take(i as int))),
            filters.new_appear() == created_appear(na0, a0, i as nat),
        decreases n - i,
    {
        let (key, causes) = take_at(&mut entries, i, OptTinyVec::default());
        proof {
            assert(key == orig[i as int].0);
        }
        let ghost before = storage@;
        storage.mark_committed(key.index);
        filters.on_entity_created(key, causes);
        proof {
            let p = entry_keys(orig.take(i as int)).to_set();
            let p2 = entry_keys(orig.take(i + 1)).to_set();
            assert(entry_keys(orig.take(i + 1)) =~= entry_keys(orig.take(i as int)).push(key));
            entry_keys(orig.take(i as int)).lemma_push_to_set_commute(key);
            assert(p2 =~= p.insert(key));
            assert forall|x: int| 0 <= x < s0.len() implies #[trigger] storage@[x] == committed_slot(
                s0,
                p2,
                x,
            ) by {
                assert(before[x] == committed_slot(s0, p, x));
                if x == key.index.index as int {
                    assert(p2.contains(key) && key.index.index == x);
                    assert(storage@[x] == EntityBox { committed: true, ..s0[x] });
                } else {
                    assert(storage@[x] == before[x]);
                    if exists|k: InternalEntityKey| #[trigger] p2.contains(k) && k.index.index == x {
                        let k = choose|k: InternalEntityKey| #[trigger] p2.contains(k) && k.index.index == x;
                        assert(p.contains(k));
                    }
                    if exists|k: InternalEntityKey| #[trigger] p.contains(k) && k.index.index == x {
                        let k = choose|k: InternalEntityKey| #[trigger] p.contains(k) && k.index.index == x;
                        assert(p2.contains(k));
                    }
                }
            }
            assert(causes_entries(orig.take(i + 1)).drop_last() =~= causes_entries(orig.take(i as int)));
            assert(causes_entries(orig.take(i + 1)).last() == (key, causes@));
        }
        i = i + 1;
    }
    assert(orig.take(n as int) =~= orig);
}

impl<V, S, M: FnOnce(V) -> V> World<V, S, M> {
    /// The filter that matches every entity, if there is one.
    pub closed spec fn all_entities_filter(&self) -> Option<InternalFilterKey> {
        self.filter_manager.all_entities_key()
    }

    /// Commits the entities created in this transaction; the filter that
    /// matches every entity matches them and records their appear events
    /// (the entities are taken in some order).
    pub fn flush_entity_create_actions(&mut self)
        requires
            old(self).wf(),
        ensures
            final(self).wf(),
            Self::flush_entity_create_actions_done(old(self), final(self)),
    {
        let entries = self.entities_to_commit.take_all();
        let ghost orig = entries@;
        proof {
            lemma_causes_entries(orig);
            crate::collections::lemma_entries_to_map(orig);
            assert forall|j: int| 0 <= j < orig.len() implies #[trigger] orig[j].0.index.index
                < self.entity_storage@.len() by {
                assert(entry_keys(orig)[j] == orig[j].0);
                assert(old(self).entities_to_commit@.contains_key(orig[j].0));
            }
        }
        commit_entities(&mut self.entity_storage, &mut self.filter_manager, entries);
        proof {
            assert(self.to_commit() =~= Map::<InternalEntityKey, Seq<Cause>>::empty());
            assert forall|k: InternalEntityKey| #[trigger] entry_keys(orig).to_set().contains(k)
                == old(self).to_commit().dom().contains(k) by {
                assert(causes_view(old(self).entities_to_commit@).contains_key(k)
                    == old(self).entities_to_commit@.contains_key(k));
            }
            assert(entry_keys(orig).to_set() =~= old(self).to_commit().dom());
            assert(is_order_of(causes_entries(orig), old(self).to_commit()));
            old(self).filter_manager.lemma_all_entities_in_range();
            lemma_created_filters_len(
                old(self).filters(),
                old(self).all_entities_filter(),
                causes_entries(orig),
            );
            assert(self.queues_in_range());
            assert(self.handlers_in_range());
        }
    }
}


/// Whether `key` names the entity in its slot of `slots`.
pub open spec fn is_live(slots: Seq<EntityBox>, key: InternalEntityKey) -> bool {
    &&& (key.index.index as int) < slots.len()
    &&& validation_result(
        slots[key.index.index as int],
        key,
        ValidateUncommitted::AllowUncommitted,
    ) is Ok
}

/// The causes of queued additions, in order.
pub open spec fn add_causes<V>(adds: Seq<ComponentAdd<V>>) -> Seq<Cause> {
    adds.map_values(|a: ComponentAdd<V>| a.cause)
}

/// The queued additions as sequences.
pub open spec fn pending_entries<V>(s: Seq<(ComponentKey, Vec<ComponentAdd<V>>)>) -> Seq<
    (ComponentKey, Seq<ComponentAdd<V>>),
> {
    s.map_values(|p: (ComponentKey, Vec<ComponentAdd<V>>)| (p.0, p.1@))
}

proof fn lemma_pending_entries<V>(s: Seq<(ComponentKey, Vec<ComponentAdd<V>>)>)
    ensures
        entries_to_map(pending_entries(s)) == Map::new(
            |k: ComponentKey| entries_to_map(s).contains_key(k),
            |k: ComponentKey| entries_to_map(s)[k]@,
        ),
        entry_keys(pending_entries(s)) == entry_keys(s),
    decreases s.len(),
{
    if s.len() > 0 {
        lemma_pending_entries(s.drop_last());
        assert(pending_entries(s).drop_last() =~= pending_entries(s.drop_last()));
    }
    assert(entries_to_map(pending_entries(s)) =~= Map::new(
        |k: ComponentKey| entries_to_map(s).contains_key(k),
        |k: ComponentKey| entries_to_map(s)[k]@,
    ));
    assert(entry_keys(pending_entries(s)) =~= entry_keys(s));
}

/// The entity slot and component type of each addition.
pub open spec fn order_pairs(o: Seq<(ComponentKey, Seq<Cause>)>) -> Seq<(EntityIndex, ComponentType)> {
    o.map_values(|p: (ComponentKey, Seq<Cause>)| (p.0.entity.index, p.0.component_type))
}

/// The rows `rows` after the additions of `order`, in that order.
pub open spec fn added_rows(rows: Seq<Seq<ComponentType>>, order: Seq<(ComponentKey, Seq<Cause>)>) -> Seq<
    Seq<ComponentType>,
>
    decreases order.len(),
{
    if order.len() == 0 {
        rows
    } else {
        let prev = added_rows(rows, order.drop_last());
        let k = order.last().0;
        let e = k.entity.index.index as int;
        prev.update(e, prev[e].push(k.component_type))
    }
}

/// The filters `fs` after the additions of `order`, in that order, with
/// `rows` the rows before them.
pub open spec fn added_filters(
    fs: Seq<FilterView>,
    rows: Seq<Seq<ComponentType>>,
    order: Seq<(ComponentKey, Seq<Cause>)>,
) -> Seq<FilterView>
    decreases order.len(),
{
    if order.len() == 0 {
        fs
    } else {
        let prev = added_filters(fs, rows, order.drop_last());
        let k = order.last().0;
        let row = added_rows(rows, order)[k.entity.index.index as int];
        Seq::new(
            prev.len(),
            |j: int| crate::filter::after_component_added(prev[j], k, order.last().1, row),
        )
    }
}

/// The filters with new appear events after the additions of `order`.
pub open spec fn added_appear(
    na: Set<InternalFilterKey>,
    fs: Seq<FilterView>,
    rows: Seq<Seq<ComponentType>>,
    order: Seq<(ComponentKey, Seq<Cause>)>,
) -> Set<InternalFilterKey>
    decreases order.len(),
{
    if order.len() == 0 {
        na
    } else {
        let prev_na = added_appear(na, fs, rows, order.drop_last());
        let prev = added_filters(fs, rows, order.drop_last());
        let k = order.last().0;
        let row = added_rows(rows, order)[k.entity.index.index as int];
        prev_na.union(
            Set::new(
                |key: InternalFilterKey|
                    key.0 < prev.len() && crate::filter::concerns(
                        prev[key.0 as int],
                        k.component_type,
                        row,
                    ) && (prev[key.0 as int].matched is Some || prev[key.0 as int].appear is Some),
            ),
        )
    }
}

/// Whether the row of slot `e` or the table reached the limits of the machine.
pub open spec fn limit_reached(rows: Seq<Seq<ComponentType>>, table_len: nat, e: int) -> bool {
    ||| rows[e].len() >= u16::MAX
    ||| table_len * 2 > usize::MAX
}

/// The first queued value and the causes of all queued values, in order.
fn split_versions<V>(versions: Vec<ComponentAdd<V>>) -> (r: (V, OptTinyVec))
    requires
        versions@.len() > 0,
    ensures
        r.0 == versions@[0].data,
        r.1@ == add_causes(versions@),
{
    let ghost all = versions@;
    let mut rest = versions;
    let first = rest.remove(0);
    let ComponentAdd { data, cause } = first;
    let mut causes = OptTinyVec::single(cause);
    while rest.len() > 0
        invariant
            causes@ + add_causes(rest@) == add_causes(all),
        decreases rest@.len(),
    {
        let ghost before = rest@;
        let next = rest.remove(0);
        causes.push(next.cause);
        proof {
            assert(add_causes(before) =~= seq![next.cause] + add_causes(rest@));
            assert(causes@ + add_causes(rest@) =~= (causes@.drop_last() + seq![next.cause]) + add_causes(rest@));
        }
    }
    proof {
        assert(add_causes(all) =~= seq![all[0].cause] + add_causes(all.drop_first()));
        assert(causes@ + add_causes(rest@) =~= causes@);
    }
    (data, causes)
}

/// Maps each queued component whose entity is alive and does not have it
/// yet to its first queued value, appends its type to the row of the entity
/// and tells the filters; returns the additions made, in order.
fn apply_additions<V>(
    storage: &EntityStorage,
    index: &mut EntityComponentIndex,
    mappings: &mut ComponentMappingStorage,
    data: &mut SpecificPool<ComponentDataKey, V>,
    filters: &mut FilterManager,
    entries: Vec<(ComponentKey, Vec<ComponentAdd<V>>)>,
) -> (order: Ghost<Seq<(ComponentKey, Seq<Cause>)>>)
    requires
        storage.wf(),
        old(index).wf(),
        old(index)@.len() == storage@.len(),
        old(index).width() > 0,
        old(data).wf(),
        old(filters).wf(),
        mappings_consistent(old(mappings), old(data)@),
        rows_match(old(mappings), old(index)@, storage@),
        entry_keys(entries@).no_duplicates(),
        forall|j: int|
            0 <= j < entries@.len() ==> (#[trigger] entries@[j]).0.entity.index.index
                < storage@.len() && entries@[j].1@.len() > 0,
    ensures
        final(index).wf(),
        final(index)@.len() == old(index)@.len(),
        final(index).width() > 0,
        final(index).table_len() >= old(index).table_len(),
        final(data).wf(),
        final(filters).wf(),
        final(filters).all_entities_key() == old(filters).all_entities_key(),
        final(filters).new_disappear() == old(filters).new_disappear(),
        mappings_consistent(final(mappings), final(data)@),
        rows_match(final(mappings), final(index)@, storage@),
        final(index)@ == added_rows(old(index)@, order@),
        final(filters).filters() == added_filters(old(filters).filters(), old(index)@, order@),
        final(filters).new_appear() == added_appear(
            old(filters).new_appear(),
            old(filters).filters(),
            old(index)@,
            order@,
        ),
        entry_keys(order@).no_duplicates(),
        order_pairs(order@).no_duplicates(),
        forall|i: int|
            0 <= i < order@.len() ==> {
                let k = (#[trigger] order@[i]).0;
                &&& entries_to_map(pending_entries(entries@)).contains_key(k)
                &&& order@[i].1 == add_causes(entries_to_map(pending_entries(entries@))[k])
                &&& is_live(storage@, k.entity)
                &&& old(mappings).mapping(k.entity.index, k.component_type) is None
                &&& final(mappings).mapping(k.entity.index, k.component_type) matches Some(d) && d.index
                    < final(data)@.len() && final(data)@[d.index as int] == Some(
                    entries_to_map(pending_entries(entries@))[k][0].data,
                )
            },
        forall|e: EntityIndex, c: ComponentType|
            !order_pairs(order@).contains((e, c)) ==> #[trigger] final(mappings).mapping(e, c)
                == old(mappings).mapping(e, c),
        forall|k: ComponentKey|
            #[trigger] entries_to_map(pending_entries(entries@)).contains_key(k) && is_live(
                storage@,
                k.entity,
            ) && old(mappings).mapping(k.entity.index, k.component_type) is None
                ==> final(mappings).mapping(k.entity.index, k.component_type) is Some
                || limit_reached(final(index)@, final(index).table_len(), k.entity.index.index as int),
        forall|d: int|
            0 <= d < old(data)@.len() && (#[trigger] old(data)@[d]) is Some ==> d < final(data)@.len()
                && final(data)@[d] == old(data)@[d],
{
    let ghost orig = entries@;
    let ghost pm = entries_to_map(pending_entries(orig));
    let ghost r0 = index@;
    let ghost f0 = filters.filters();
    let ghost na0 = filters.new_appear();
    let ghost m0 = *mappings;
    let ghost d0 = data@;
    let ghost mut o: Seq<(ComponentKey, Seq<Cause>)> = Seq::empty();
    proof {
        lemma_pending_entries(orig);
        crate::collections::lemma_entries_to_map(pending_entries(orig));
        index.lemma_table_len();
        assert forall|j: int| 0 <= j < orig.len() implies #[trigger] pm[orig[j].0] == orig[j].1@ by {
            assert(pending_entries(orig)[j] == (orig[j].0, orig[j].1@));
            assert(pm[pending_entries(orig)[j].0] == pending_entries(orig)[j].1);
        }
        assert forall|k: ComponentKey| #[trigger] pm.contains_key(k) <==> entry_keys(orig).contains(k) by {
        }
    }
    let mut entries = entries;
    let n = entries.len();
    let mut i: usize = 0;
    while i < n
        invariant
            n == orig.len(),
            entries@.len() == n,
            i <= n,
            forall|j: int| i <= j < n ==> #[trigger] entries@[j] == orig[j],
            forall|j: int|
                0 <= j < n ==> (#[trigger] orig[j]).0.entity.index.index < storage@.len()
                    && orig[j].1@.len() > 0,
            entry_keys(orig).no_duplicates(),
            pm == entries_to_map(pending_entries(orig)),
            entry_keys(pending_entries(orig)) == entry_keys(orig),
            forall|j: int| 0 <= j < n ==> #[trigger] pm[orig[j].0] == orig[j].1@,
            forall|k: ComponentKey| #[trigger] pm.contains_key(k) <==> entry_keys(orig).contains(k),
            storage.wf(),
            index.wf(),
            index@.len() == storage@.len(),
            index.width() > 0,
            index.table_len() >= r0.len() * old(index).width(),
            index.table_len() == index@.len() * index.width(),
            old(index).table_len() == r0.len() * old(index).width(),
            r0 == old(index)@,
            index@ == added_rows(r0, o),
            data.wf(),
            mappings_consistent(mappings, data@),
            rows_match(mappings, index@, storage@),
            filters.wf(),
            filters.all_entities_key() == old(filters).all_entities_key(),
            filters.new_disappear() == old(filters).new_disappear(),
            filters.filters() == added_filters(f0, r0, o),
            filters.new_appear() == added_appear(na0, f0, r0, o),
            entry_keys(o).no_duplicates(),
            order_pairs(o).no_duplicates(),
            forall|q: int| 0 <= q < o.len() ==> entry_keys(orig.take(i as int)).contains(#[trigger] o[q].0),
            forall|q: int|
                0 <= q < o.len() ==> {
                    let k = (#[trigger] o[q]).0;
                    &&& pm.contains_key(k)
                    &&& o[q].1 == add_causes(pm[k])
                    &&& is_live(storage@, k.entity)
                    &&& m0.mapping(k.entity.index, k.component_type) is None
                    &&& mappings.mapping(k.entity.index, k.component_type) matches Some(d) && d.index
                        < data@.len() && data@[d.index as int] == Some(pm[k][0].data)
                },
            forall|e: EntityIndex, c: ComponentType|
                !order_pairs(o).contains((e, c)) ==> #[trigger] mappings.mapping(e, c) == m0.mapping(e, c),
            forall|j: int|
                0 <= j < i ==> {
                    let k = (#[trigger] orig[j]).0;
                    is_live(storage@, k.entity) && m0.mapping(k.entity.index, k.component_type) is None
                        ==> mappings.mapping(k.entity.index, k.component_type) is Some || limit_reached(
                        index@,
                        index.table_len(),
                        k.entity.index.index as int,
                    )
                },
            forall|d: int|
                0 <= d < d0.len() && (#[trigger] d0[d]) is Some ==> d < data@.len() && data@[d] == d0[d],
        decreases n - i,
    {
        let (ck, versions) = take_at(&mut entries, i, Vec::new());
        let ghost ii = i as int;
        proof {
            assert(ck == orig[ii].0);
            assert(versions@ == orig[ii].1@);
            assert(entry_keys(orig.take(ii + 1)) =~= entry_keys(orig.take(ii)).push(ck));
            assert forall|q: int| 0 <= q < o.len() implies entry_keys(orig.take(ii + 1)).contains(
                #[trigger] o[q].0,
            ) by {
                let t = entry_keys(orig.take(ii));
                let w = choose|w: int| 0 <= w < t.len() && t[w] == o[q].0;
                assert(entry_keys(orig.take(ii + 1))[w] == o[q].0);
            }
            assert(!entry_keys(orig.take(ii)).contains(ck)) by {
                if entry_keys(orig.take(ii)).contains(ck) {
                    let t = entry_keys(orig.take(ii));
                    let w = choose|w: int| 0 <= w < t.len() && t[w] == ck;
                    assert(entry_keys(orig)[w] == ck);
                    assert(entry_keys(orig)[ii] == ck);
                }
            }
        }
        let e = ck.entity.index;
        let ct = ck.component_type;
        let ghost idx0 = index@;
        let ghost t0 = index.table_len();
        let ghost w0 = index.width();
        let ghost mp0 = *mappings;
        let live = storage.validate(ck.entity, ValidateUncommitted::AllowUncommitted).is_ok();
        if live && !mappings.has_component_no_validation(e, ct) && index.can_add_component_type(e) {
            let (value, causes) = split_versions(versions);
            let ghost data_before = data@;
            let ghost next = data.next_slot();
            let d = data.add(value);
            let ghost mappings_before = *mappings;
            mappings.insert(e, ct, d);
            let ghost index_before = index@;
            proof {
                assert(mappings_before.mapping(e, ct) is None);
                assert(!index_before[e.index as int].contains(ct));
            }
            index.add_component_type(e, ct);
            proof {
                let rows = index@;
                assert forall|e2: EntityIndex, c2: ComponentType| #[trigger]
                    mappings.mapping(e2, c2) is Some <==> ((e2.index as int) < rows.len()
                        && rows[e2.index as int].contains(c2)) by {
                    if e2 == e {
                        if c2 != ct {
                            assert(mappings_before.mapping(e2, c2) == mappings.mapping(e2, c2));
                            if rows[e.index as int].contains(c2) {
                                let w = choose|w: int| 0 <= w < rows[e.index as int].len() && rows[e.index as int][w] == c2;
                                assert(index_before[e.index as int][w] == c2);
                            }
                            if index_before[e.index as int].contains(c2) {
                                let w = choose|w: int| 0 <= w < index_before[e.index as int].len() && index_before[e.index as int][w] == c2;
                                assert(rows[e.index as int][w] == c2);
                            }
                        } else {
                            assert(rows[e.index as int][index_before[e.index as int].len() as int] == ct);
                        }
                    } else {
                        assert(mappings_before.mapping(e2, c2) == mappings.mapping(e2, c2));
                        if (e2.index as int) < rows.len() {
                            assert(e2.index != e.index);
                            assert(rows[e2.index as int] == index_before[e2.index as int]);
                        }
                    }
                }
                assert forall|x: int| 0 <= x < rows.len() implies (#[trigger] rows[x]).no_duplicates() by {
                    if x != e.index as int {
                        assert(rows[x] == index_before[x]);
                    } else {
                        assert forall|a: int, b: int| 0 <= a < b < rows[x].len() implies rows[x][a] != rows[x][b] by {
                            if b == rows[x].len() - 1 {
                                assert(index_before[x].contains(rows[x][a]));
                            }
                        }
                    }
                }
                assert forall|x: int|
                    0 <= x < rows.len() && x < storage@.len() && !storage@[x].exists implies #[trigger] rows[x]
                    == Seq::<ComponentType>::empty() by {
                    if x == e.index as int {
                        assert(is_live(storage@, ck.entity));
                    } else {
                        assert(rows[x] == index_before[x]);
                    }
                }
            }
            let ghost filters_before = filters.filters();
            filters.on_component_added(
                index,
                crate::filter::FilterComponentChange { component_key: ck, causes },
            );
            proof {
                let o2 = o.push((ck, causes@));
                assert(o2.drop_last() =~= o);
                assert(index@ == added_rows(r0, o2));
                assert(filters.filters() =~= added_filters(f0, r0, o2));
                assert(filters.new_appear() =~= added_appear(na0, f0, r0, o2));
                assert(entry_keys(o2) =~= entry_keys(o).push(ck));
                assert(order_pairs(o2) =~= order_pairs(o).push((e, ct)));
                assert(!entry_keys(o).contains(ck)) by {
                    if entry_keys(o).contains(ck) {
                        let w = choose|w: int| 0 <= w < entry_keys(o).len() && entry_keys(o)[w] == ck;
                        assert(o[w].0 == ck);
                    }
                }
                assert(!order_pairs(o).contains((e, ct))) by {
                    if order_pairs(o).contains((e, ct)) {
                        let w = choose|w: int| 0 <= w < order_pairs(o).len() && order_pairs(o)[w] == (e, ct);
                        assert(mappings_before.mapping(o[w].0.entity.index, o[w].0.component_type) is Some);
                    }
                }
                // the new slot was free
                assert(d.index == next);
                assert forall|e2: EntityIndex, c2: ComponentType| #[trigger]
                    mappings_before.mapping(e2, c2) is Some implies mappings_before.mapping(e2, c2)->Some_0.index
                    != next by {
                    let d2 = mappings_before.mapping(e2, c2)->Some_0;
                    assert(d2.index < data_before.len() && data_before[d2.index as int] is Some);
                }
                assert forall|x: int| 0 <= x < data_before.len() && data_before[x] is Some implies x != next
                    && data@[x] == data_before[x] by {
                    if next < data_before.len() {
                        assert(data_before[next as int] is None);
                    }
                }
                assert(d.index < data@.len() && data@[d.index as int] == Some(value));
                assert forall|e2: EntityIndex, c2: ComponentType| #[trigger]
                    mappings.mapping(e2, c2) is Some implies mappings.mapping(e2, c2)->Some_0.index
                    < data@.len() && data@[mappings.mapping(e2, c2)->Some_0.index as int] is Some by {
                    if e2 != e || c2 != ct {
                        assert(mappings_before.mapping(e2, c2) == mappings.mapping(e2, c2));
                    }
                }
                assert forall|e1: EntityIndex, c1: ComponentType, e2: EntityIndex, c2: ComponentType|
                    (e1 != e2 || c1 != c2) && (#[trigger] mappings.mapping(e1, c1)) is Some && (
                    #[trigger] mappings.mapping(e2, c2)) is Some implies mappings.mapping(e1, c1)->Some_0
                    != mappings.mapping(e2, c2)->Some_0 by {
                    if (e1 != e || c1 != ct) && (e2 != e || c2 != ct) {
                        assert(mappings_before.mapping(e1, c1) == mappings.mapping(e1, c1));
                        assert(mappings_before.mapping(e2, c2) == mappings.mapping(e2, c2));
                    } else if e1 == e && c1 == ct {
                        assert(mappings_before.mapping(e2, c2) == mappings.mapping(e2, c2));
                    } else {
                        assert(mappings_before.mapping(e1, c1) == mappings.mapping(e1, c1));
                    }
                }
                assert forall|q: int| 0 <= q < o2.len() implies {
                    let k = (#[trigger] o2[q]).0;
                    &&& pm.contains_key(k)
                    &&& o2[q].1 == add_causes(pm[k])
                    &&& is_live(storage@, k.entity)
                    &&& m0.mapping(k.entity.index, k.component_type) is None
                    &&& mappings.mapping(k.entity.index, k.component_type) matches Some(d) && d.index
                        < data@.len() && data@[d.index as int] == Some(pm[k][0].data)
                } by {
                    if q < o.len() {
                        assert(o2[q] == o[q]);
                        assert(order_pairs(o)[q] == (o[q].0.entity.index, o[q].0.component_type));
                    } else {
                        assert(entry_keys(orig)[ii] == ck);
                        assert(pm.contains_key(ck));
                        assert(!order_pairs(o).contains((e, ct)));
                    }
                }
                assert forall|e2: EntityIndex, c2: ComponentType|
                    !order_pairs(o2).contains((e2, c2)) implies #[trigger] mappings.mapping(e2, c2)
                    == m0.mapping(e2, c2) by {
                    assert(order_pairs(o2)[o.len() as int] == (e, ct));
                    if order_pairs(o).contains((e2, c2)) {
                        let w = choose|w: int| 0 <= w < order_pairs(o).len() && order_pairs(o)[w] == (e2, c2);
                        assert(order_pairs(o2)[w] == (e2, c2));
                    }
                }
                assert forall|q: int| 0 <= q < o2.len() implies entry_keys(orig.take(ii + 1)).contains(
                    #[trigger] o2[q].0,
                ) by {
                    if q < o.len() {
                        assert(o2[q] == o[q]);
                    } else {
                        assert(entry_keys(orig.take(ii + 1))[ii] == ck);
                    }
                }
                assert(index.table_len() >= t0) by (nonlinear_arith)
                    requires
                        index.table_len() == index@.len() * index.width(),
                        t0 == idx0.len() * w0,
                        index@.len() == idx0.len(),
                        index.width() >= w0,
                ;
                o = o2;
                assert forall|x: int| 0 <= x < index@.len() implies #[trigger] index@[x].len() >= idx0[x].len() by {}
                assert forall|e2: EntityIndex, c2: ComponentType| #[trigger] mp0.mapping(e2, c2) is Some implies mappings.mapping(e2, c2) is Some by {
                    if e2 != e || c2 != ct {
                        assert(mp0.mapping(e2, c2) == mappings.mapping(e2, c2));
                    }
                }
                assert(mappings.mapping(e, ct) is Some);
            }
        } else {
            proof {
                assert forall|x: int| 0 <= x < index@.len() implies #[trigger] index@[x].len() >= idx0[x].len() by {}
                assert forall|e2: EntityIndex, c2: ComponentType| #[trigger] mp0.mapping(e2, c2) is Some implies mappings.mapping(e2, c2) is Some by {}
                if live && mappings.mapping(e, ct) is None {
                    assert(limit_reached(index@, index.table_len(), e.index as int));
                }
            }
        }
        proof {
            assert(index.table_len() >= t0);
            assert forall|j: int| 0 <= j < ii + 1 implies {
                let k = (#[trigger] orig[j]).0;
                is_live(storage@, k.entity) && m0.mapping(k.entity.index, k.component_type) is None
                    ==> mappings.mapping(k.entity.index, k.component_type) is Some || limit_reached(
                    index@,
                    index.table_len(),
                    k.entity.index.index as int,
                )
            } by {
                let k = orig[j].0;
                if j < ii {
                    if mp0.mapping(k.entity.index, k.component_type) is Some {
                        assert(mappings.mapping(k.entity.index, k.component_type) is Some);
                    }
                    if limit_reached(idx0, t0, k.entity.index.index as int) {
                        assert(index@[k.entity.index.index as int].len() >= idx0[k.entity.index.index as int].len());
                    }
                } else {
                    assert(k == ck);
                }
            }
        }
        i = i + 1;
    }
    proof {
        assert(orig.take(n as int) =~= orig);
        assert forall|k: ComponentKey|
            #[trigger] pm.contains_key(k) && is_live(storage@, k.entity) && m0.mapping(
                k.entity.index,
                k.component_type,
            ) is None implies mappings.mapping(k.entity.index, k.component_type) is Some
            || limit_reached(index@, index.table_len(), k.entity.index.index as int) by {
            let j = choose|j: int| 0 <= j < entry_keys(orig).len() && entry_keys(orig)[j] == k;
            assert(orig[j].0 == k);
        }
    }
    Ghost(o)
}


proof fn lemma_added_filters_len(
    fs: Seq<FilterView>,
    rows: Seq<Seq<ComponentType>>,
    order: Seq<(ComponentKey, Seq<Cause>)>,
)
    ensures
        added_filters(fs, rows, order).len() == fs.len(),
    decreases order.len(),
{
    if order.len() > 0 {
        lemma_added_filters_len(fs, rows, order.drop_last());
    }
}

impl<V, S, M: FnOnce(V) -> V> World<V, S, M> {
    /// `new` is `old` after the queued additions of `order` were applied, in
    /// that order: each maps its component to the first queued value, appends
    /// the type to the row of the entity and tells the filters. Every queued
    /// component of an entity that is alive and does not have it is added,
    /// unless the limits of the machine were reached.
    pub open spec fn additions_applied(old: &Self, new: &Self, order: Seq<(ComponentKey, Seq<Cause>)>) -> bool {
        &&& entry_keys(order).no_duplicates()
        &&& order_pairs(order).no_duplicates()
        &&& forall|i: int|
            0 <= i < order.len() ==> {
                let k = (#[trigger] order[i]).0;
                &&& old.pending_adds().contains_key(k)
                &&& order[i].1 == add_causes(old.pending_adds()[k])
                &&& is_live(old.entities(), k.entity)
                &&& old.mapping(k.entity.index, k.component_type) is None
                &&& new.component_value(k.entity.index, k.component_type) == Some(
                    old.pending_adds()[k][0].data,
                )
            }
        &&& forall|e: EntityIndex, c: ComponentType|
            !order_pairs(order).contains((e, c)) ==> #[trigger] new.mapping(e, c) == old.mapping(e, c)
        &&& forall|k: ComponentKey|
            #[trigger] old.pending_adds().contains_key(k) && is_live(old.entities(), k.entity)
                && old.mapping(k.entity.index, k.component_type) is None ==> new.mapping(
                k.entity.index,
                k.component_type,
            ) is Some || limit_reached(
                new.component_rows(),
                new.component_table_len(),
                k.entity.index.index as int,
            )
        &&& forall|d: int|
            0 <= d < old.data().len() && (#[trigger] old.data()[d]) is Some ==> d < new.data().len()
                && new.data()[d] == old.data()[d]
        &&& new.component_rows() == added_rows(old.component_rows(), order)
        &&& new.filters() == added_filters(old.filters(), old.component_rows(), order)
        &&& new.new_appear() == added_appear(
            old.new_appear(),
            old.filters(),
            old.component_rows(),
            order,
        )
    }

    /// Adds the queued components (see `additions_applied`); the queued
    /// values that are not added are dropped. The values queued for an
    /// entity that is no longer alive (one created and destroyed in the same
    /// transaction) are dropped here: an uncommitted entity is dropped at
    /// once and its queued component data is deleted at this step.
    pub fn flush_component_addition(&mut self)
        requires
            old(self).wf(),
            old(self).additions_unconflicted(),
        ensures
            final(self).wf(),
            Self::flush_component_addition_done(old(self), final(self)),
    {
        let entries = self.components_to_add.take_all();
        let ghost orig = entries@;
        proof {
            lemma_pending_entries(orig);
            crate::collections::lemma_entries_to_map(orig);
            assert(entries_to_map(pending_entries(orig)) =~= old(self).pending_adds());
            assert forall|j: int| 0 <= j < orig.len() implies (#[trigger] orig[j]).0.entity.index.index
                < self.entity_storage@.len() && orig[j].1@.len() > 0 by {
                assert(entry_keys(orig)[j] == orig[j].0);
                assert(old(self).components_to_add@.contains_key(orig[j].0));
            }
        }
        let order = apply_additions(
            &self.entity_storage,
            &mut self.entity_component_index,
            &mut self.component_mappings,
            &mut self.component_data,
            &mut self.filter_manager,
            entries,
        );
        proof {
            assert(self.pending_adds() =~= Map::<ComponentKey, Seq<ComponentAdd<V>>>::empty());
            lemma_added_filters_len(old(self).filters(), old(self).component_rows(), order@);
            assert(self.queues_in_range());
            assert(self.handlers_in_range());
            assert forall|i: int| 0 <= i < order@.len() implies {
                let k = (#[trigger] order@[i]).0;
                self.component_value(k.entity.index, k.component_type) == Some(
                    old(self).pending_adds()[k][0].data,
                )
            } by {
                let k = order@[i].0;
                assert(self.component_mappings.mapping(k.entity.index, k.component_type) is Some);
            }
            assert(Self::additions_applied(old(self), self, order@));
        }
    }
}


/// `m` with the causes of `order` recorded, in that order.
pub open spec fn causes_folded<K>(m: Map<K, Seq<Cause>>, order: Seq<(K, Seq<Cause>)>) -> Map<
    K,
    Seq<Cause>,
>
    decreases order.len(),
{
    if order.len() == 0 {
        m
    } else {
        causes_added(causes_folded(m, order.drop_last()), order.last().0, order.last().1)
    }
}

/// The keys of `causes_folded(m, order)` are those of `m` and of `order`.
pub proof fn lemma_causes_folded_dom<K>(m: Map<K, Seq<Cause>>, order: Seq<(K, Seq<Cause>)>)
    ensures
        causes_folded(m, order).dom() == m.dom() + entry_keys(order).to_set(),
    decreases order.len(),
{
    if order.len() > 0 {
        lemma_causes_folded_dom(m, order.drop_last());
        assert(entry_keys(order) =~= entry_keys(order.drop_last()).push(order.last().0));
        entry_keys(order.drop_last()).lemma_push_to_set_commute(order.last().0);
    } else {
        assert(entry_keys(order).to_set() =~= Set::<K>::empty());
    }
    assert(causes_folded(m, order).dom() =~= m.dom() + entry_keys(order).to_set());
}

/// The filters `fs` after the disappear events of `order`, in that order,
/// with `rows` the component types of each slot.
pub open spec fn disappeared_filters(
    fs: Seq<FilterView>,
    rows: Seq<Seq<ComponentType>>,
    order: Seq<(ComponentKey, Seq<Cause>)>,
) -> Seq<FilterView>
    decreases order.len(),
{
    if order.len() == 0 {
        fs
    } else {
        let prev = disappeared_filters(fs, rows, order.drop_last());
        let k = order.last().0;
        Seq::new(
            prev.len(),
            |j: int|
                crate::filter::after_disappear(
                    prev[j],
                    k,
                    order.last().1,
                    rows[k.entity.index.index as int],
                ),
        )
    }
}

/// The filters with new disappear events after the disappear events of `order`.
pub open spec fn disappeared_marks(
    nd: Set<InternalFilterKey>,
    fs: Seq<FilterView>,
    rows: Seq<Seq<ComponentType>>,
    order: Seq<(ComponentKey, Seq<Cause>)>,
) -> Set<InternalFilterKey>
    decreases order.len(),
{
    if order.len() == 0 {
        nd
    } else {
        let prev_nd = disappeared_marks(nd, fs, rows, order.drop_last());
        let prev = disappeared_filters(fs, rows, order.drop_last());
        let k = order.last().0;
        let row = rows[k.entity.index.index as int];
        prev_nd.union(
            Set::new(
                |key: InternalFilterKey|
                    key.0 < prev.len() && crate::filter::concerns(
                        prev[key.0 as int],
                        k.component_type,
                        row,
                    ) && prev[key.0 as int].disappear is Some,
            ),
        )
    }
}

proof fn lemma_disappeared_filters_len(
    fs: Seq<FilterView>,
    rows: Seq<Seq<ComponentType>>,
    order: Seq<(ComponentKey, Seq<Cause>)>,
)
    ensures
        disappeared_filters(fs, rows, order).len() == fs.len(),
    decreases order.len(),
{
    if order.len() > 0 {
        lemma_disappeared_filters_len(fs, rows, order.drop_last());
    }
}

/// Generates the disappear events of the components of `entries` and moves
/// them on to `after`.
fn disappear_components(
    filters: &mut FilterManager,
    index: &EntityComponentIndex,
    after: &mut AssocMap<ComponentKey, OptTinyVec>,
    entries: Vec<(ComponentKey, OptTinyVec)>,
)
    requires
        old(filters).wf(),
        index.wf(),
        old(after).wf(),
        forall|j: int|
            0 <= j < entries@.len() ==> (#[trigger] entries@[j]).0.entity.index.index < index@.len(),
    ensures
        final(filters).wf(),
        final(filters).all_entities_key() == old(filters).all_entities_key(),
        final(filters).new_appear() == old(filters).new_appear(),
        final(filters).filters() == disappeared_filters(
            old(filters).filters(),
            index@,
            causes_entries(entries@),
        ),
        final(filters).new_disappear() == disappeared_marks(
            old(filters).new_disappear(),
            old(filters).filters(),
            index@,
            causes_entries(entries@),
        ),
        final(after).wf(),
        causes_view(final(after)@) == causes_folded(causes_view(old(after)@), causes_entries(entries@)),
{
    let ghost orig = entries@;
    let ghost f0 = filters.filters();
    let ghost nd0 = filters.new_disappear();
    let ghost a0 = causes_view(after@);
    let mut entries = entries;
    let n = entries.len();
    let mut i: usize = 0;
    assert(causes_entries(orig.take(0)) =~= Seq::<(ComponentKey, Seq<Cause>)>::empty());
    while i < n
        invariant
            n == orig.len(),
            entries@.len() == n,
            i <= n,
            forall|j: int| i <= j < n ==> #[trigger] entries@[j] == orig[j],
            forall|j: int|
                0 <= j < n ==> (#[trigger] orig[j]).0.entity.index.index < index@.len(),
            index.wf(),
            filters.wf(),
            filters.all_entities_key() == old(filters).all_entities_key(),
            filters.new_appear() == old(filters).new_appear(),
            filters.filters() == disappeared_filters(f0, index@, causes_entries(orig.take(i as int))),
            filters.new_disappear() == disappeared_marks(
                nd0,
                f0,
                index@,
                causes_entries(orig.take(i as int)),
            ),
            after.wf(),
            causes_view(after@) == causes_folded(a0, causes_entries(orig.take(i as int))),
        decreases n - i,
    {
        let (key, causes) = take_at(&mut entries, i, OptTinyVec::default());
        let ghost ii = i as int;
        proof {
            assert(key == orig[ii].0);
        }
        filters.generate_disappear_events(
            crate::filter::FilterComponentChange { component_key: key, causes: causes.share() },
            index,
        );
        let ghost cs = causes@;
        queue_causes(after, key, causes);
        proof {
            let o2 = causes_entries(orig.take(ii + 1));
            assert(o2.drop_last() =~= causes_entries(orig.take(ii)));
            assert(o2.last() == (key, cs));
            assert(filters.filters() =~= disappeared_filters(f0, index@, o2));
            assert(filters.new_disappear() =~= disappeared_marks(nd0, f0, index@, o2));
        }
        i = i + 1;
    }
    assert(orig.take(n as int) =~= orig);
}

impl<V, S, M: FnOnce(V) -> V> World<V, S, M> {
    /// Generates the disappear events of the components waiting for removal
    /// (taken in some order) and moves them on to be removed.
    pub fn generate_disappear_events(&mut self)
        requires
            old(self).wf(),
        ensures
            final(self).wf(),
            Self::generate_disappear_events_done(old(self), final(self)),
    {
        let entries = self.components_to_delete.before_disappear.take_all();
        let ghost orig = entries@;
        proof {
            lemma_causes_entries(orig);
            crate::collections::lemma_entries_to_map(orig);
            assert forall|j: int| 0 <= j < orig.len() implies (#[trigger] orig[j]).0.entity.index.index
                < self.entity_component_index@.len() by {
                assert(entry_keys(orig)[j] == orig[j].0);
                assert(old(self).components_to_delete.before_disappear@.contains_key(orig[j].0));
            }
        }
        disappear_components(
            &mut self.filter_manager,
            &self.entity_component_index,
            &mut self.components_to_delete.after_disappear,
            entries,
        );
        proof {
            assert(self.to_delete() =~= Map::<ComponentKey, Seq<Cause>>::empty());
            assert(is_order_of(causes_entries(orig), old(self).to_delete()));
            lemma_disappeared_filters_len(
                old(self).filters(),
                old(self).component_rows(),
                causes_entries(orig),
            );
            lemma_causes_folded_dom(old(self).to_delete_after(), causes_entries(orig));
            assert forall|k: ComponentKey| #[trigger]
                self.components_to_delete.after_disappear@.contains_key(k) implies k.entity.index.index
                < self.entity_storage@.len() by {
                assert(causes_view(self.components_to_delete.after_disappear@).contains_key(k));
                if !old(self).components_to_delete.after_disappear@.contains_key(k) {
                    assert(causes_view(old(self).components_to_delete.after_disappear@).contains_key(k)
                        == old(self).components_to_delete.after_disappear@.contains_key(k));
                    assert(entry_keys(causes_entries(orig)).to_set().contains(k));
                    let j = choose|j: int| 0 <= j < entry_keys(orig).len() && entry_keys(orig)[j] == k;
                    assert(orig[j].0 == k);
                }
            }
            assert(self.queues_in_range());
            assert(self.handlers_in_range());
        }
    }
}


/// The rows `rows` after the removals of `order`, in that order.
pub open spec fn removed_rows(rows: Seq<Seq<ComponentType>>, order: Seq<(ComponentKey, Seq<Cause>)>) -> Seq<
    Seq<ComponentType>,
>
    decreases order.len(),
{
    if order.len() == 0 {
        rows
    } else {
        let prev = removed_rows(rows, order.drop_last());
        let k = order.last().0;
        let e = k.entity.index.index as int;
        prev.update(e, crate::entity_component_index::row_without(prev[e], k.component_type))
    }
}

/// The filters `fs` after the removals of `order`, in that order.
pub open spec fn removed_filters(fs: Seq<FilterView>, order: Seq<(ComponentKey, Seq<Cause>)>) -> Seq<
    FilterView,
>
    decreases order.len(),
{
    if order.len() == 0 {
        fs
    } else {
        let prev = removed_filters(fs, order.drop_last());
        Seq::new(
            prev.len(),
            |j: int| crate::filter::after_component_removed(prev[j], order.last().0),
        )
    }
}

proof fn lemma_removed_filters_len(fs: Seq<FilterView>, order: Seq<(ComponentKey, Seq<Cause>)>)
    ensures
        removed_filters(fs, order).len() == fs.len(),
    decreases order.len(),
{
    if order.len() > 0 {
        lemma_removed_filters_len(fs, order.drop_last());
    }
}

/// Whether a key of `m` names the component `component_type` of slot `e`.
pub open spec fn targets<T>(m: Map<ComponentKey, T>, e: EntityIndex, component_type: ComponentType) -> bool {
    exists|k: ComponentKey|
        #[trigger] m.contains_key(k) && k.entity.index == e && k.component_type == component_type
}

/// Removes the components of `entries`: their mappings, their data, their
/// types from the rows; tells the filters.
fn remove_components<V>(
    index: &mut EntityComponentIndex,
    mappings: &mut ComponentMappingStorage,
    data: &mut SpecificPool<ComponentDataKey, V>,
    filters: &mut FilterManager,
    entries: Vec<(ComponentKey, OptTinyVec)>,
    Ghost(slots): Ghost<Seq<EntityBox>>,
)
    requires
        old(index).wf(),
        old(data).wf(),
        old(filters).wf(),
        mappings_consistent(old(mappings), old(data)@),
        rows_match(old(mappings), old(index)@, slots),
        forall|j: int|
            0 <= j < entries@.len() ==> (#[trigger] entries@[j]).0.entity.index.index < old(index)@.len(),
    ensures
        final(index).wf(),
        final(index).width() == old(index).width(),
        final(index).table_len() == old(index).table_len(),
        final(index)@.len() == old(index)@.len(),
        final(index)@ == removed_rows(old(index)@, causes_entries(entries@)),
        final(data).wf(),
        mappings_consistent(final(mappings), final(data)@),
        rows_match(final(mappings), final(index)@, slots),
        forall|e: EntityIndex, c: ComponentType| #[trigger]
            final(mappings).mapping(e, c) == if order_pairs(causes_entries(entries@)).contains((e, c)) {
                None
            } else {
                old(mappings).mapping(e, c)
            },
        forall|e: EntityIndex, c: ComponentType|
            !order_pairs(causes_entries(entries@)).contains((e, c)) && (#[trigger] old(mappings).mapping(
                e,
                c,
            )) is Some ==> {
                let d = old(mappings).mapping(e, c)->Some_0.index as int;
                d < final(data)@.len() && final(data)@[d] == old(data)@[d]
            },
        final(filters).wf(),
        final(filters).all_entities_key() == old(filters).all_entities_key(),
        final(filters).new_appear() == old(filters).new_appear(),
        final(filters).new_disappear() == old(filters).new_disappear(),
        final(filters).filters() == removed_filters(old(filters).filters(), causes_entries(entries@)),
{
    let ghost orig = entries@;
    let ghost r0 = index@;
    let ghost f0 = filters.filters();
    let ghost m0 = *mappings;
    let ghost d0 = data@;
    let mut entries = entries;
    let n = entries.len();
    let mut i: usize = 0;
    assert(causes_entries(orig.take(0)) =~= Seq::<(ComponentKey, Seq<Cause>)>::empty());
    while i < n
        invariant
            n == orig.len(),
            entries@.len() == n,
            i <= n,
            forall|j: int| i <= j < n ==> #[trigger] entries@[j] == orig[j],
            forall|j: int|
                0 <= j < n ==> (#[trigger] orig[j]).0.entity.index.index < r0.len(),
            index.wf(),
            index@.len() == r0.len(),
            index.width() == old(index).width(),
            index.table_len() == old(index).table_len(),
            index@ == removed_rows(r0, causes_entries(orig.take(i as int))),
            data.wf(),
            mappings_consistent(mappings, data@),
            mappings_consistent(&m0, d0),
            rows_match(mappings, index@, slots),
            forall|e: EntityIndex, c: ComponentType| #[trigger]
                mappings.mapping(e, c) == if order_pairs(causes_entries(orig.take(i as int))).contains(
                    (e, c),
                ) {
                    None
                } else {
                    m0.mapping(e, c)
                },
            forall|e: EntityIndex, c: ComponentType|
                !order_pairs(causes_entries(orig.take(i as int))).contains((e, c))
                    && (#[trigger] m0.mapping(e, c)) is Some ==> {
                    let d = m0.mapping(e, c)->Some_0.index as int;
                    d < data@.len() && data@[d] == d0[d]
                },
            filters.wf(),
            filters.all_entities_key() == old(filters).all_entities_key(),
            filters.new_appear() == old(filters).new_appear(),
            filters.new_disappear() == old(filters).new_disappear(),
            filters.filters() == removed_filters(f0, causes_entries(orig.take(i as int))),
        decreases n - i,
    {
        let (key, causes) = take_at(&mut entries, i, OptTinyVec::default());
        let ghost ii = i as int;
        let ghost cs = causes@;
        let e = key.entity.index;
        let ct = key.component_type;
        let ghost mb = *mappings;
        let ghost db = data@;
        proof {
            assert(key == orig[ii].0);
        }
        match mappings.remove(e, ct) {
            Some(d) => {
                let _ = data.del_and_get(&d);
                proof {
                    assert forall|x: int| 0 <= x < db.len() && db[x] is Some && x != d.index implies x
                        < data@.len() && data@[x] == db[x] by {}
                    assert forall|e2: EntityIndex, c2: ComponentType| #[trigger]
                        mappings.mapping(e2, c2) is Some implies mappings.mapping(e2, c2)->Some_0.index
                        < data@.len() && data@[mappings.mapping(e2, c2)->Some_0.index as int] is Some by {
                        assert(mb.mapping(e2, c2) == mappings.mapping(e2, c2));
                        assert(mb.mapping(e2, c2)->Some_0 != d);
                    }
                    assert forall|e1: EntityIndex, c1: ComponentType, e2: EntityIndex, c2: ComponentType|
                        (e1 != e2 || c1 != c2) && (#[trigger] mappings.mapping(e1, c1)) is Some && (
                        #[trigger] mappings.mapping(e2, c2)) is Some implies mappings.mapping(
                        e1,
                        c1,
                    )->Some_0 != mappings.mapping(e2, c2)->Some_0 by {
                        assert(mb.mapping(e1, c1) == mappings.mapping(e1, c1));
                        assert(mb.mapping(e2, c2) == mappings.mapping(e2, c2));
                    }
                }
            },
            None => {},
        }
        let ghost rows_before = index@;
        index.delete_component_type(e, ct);
        proof {
            let rows = index@;
            let row0 = rows_before[e.index as int];
            crate::entity_component_index::lemma_row_without_keeps_others(row0, ct);
            crate::entity_component_index::lemma_row_without(row0, ct);
            assert forall|e2: EntityIndex, c2: ComponentType| #[trigger]
                mappings.mapping(e2, c2) is Some <==> ((e2.index as int) < rows.len()
                    && rows[e2.index as int].contains(c2)) by {
                assert(mb.mapping(e2, c2) is Some <==> ((e2.index as int) < rows_before.len()
                    && rows_before[e2.index as int].contains(c2)));
                if e2 == e {
                    if c2 != ct {
                        assert(mb.mapping(e2, c2) == mappings.mapping(e2, c2));
                    }
                } else {
                    assert(mb.mapping(e2, c2) == mappings.mapping(e2, c2));
                    if (e2.index as int) < rows.len() {
                        assert(e2.index != e.index);
                        assert(rows[e2.index as int] == rows_before[e2.index as int]);
                    }
                }
            }
            assert forall|x: int| 0 <= x < rows.len() implies (#[trigger] rows[x]).no_duplicates() by {
                if x != e.index as int {
                    assert(rows[x] == rows_before[x]);
                }
            }
            assert forall|x: int|
                0 <= x < rows.len() && x < slots.len() && !slots[x].exists implies #[trigger] rows[x]
                == Seq::<ComponentType>::empty() by {
                if x != e.index as int {
                    assert(rows[x] == rows_before[x]);
                } else {
                    assert(row0 == Seq::<ComponentType>::empty());
                    assert(!row0.contains(ct));
                }
            }
        }
        filters.on_component_removed(crate::filter::FilterComponentChange { component_key: key, causes });
        proof {
            let o = causes_entries(orig.take(ii));
            let o2 = causes_entries(orig.take(ii + 1));
            assert(o2.drop_last() =~= o);
            assert(o2.last() == (key, cs));
            assert(order_pairs(o2) =~= order_pairs(o).push((e, ct)));
            assert(index@ == removed_rows(r0, o2));
            assert(filters.filters() =~= removed_filters(f0, o2));
            assert forall|e2: EntityIndex, c2: ComponentType| #[trigger]
                mappings.mapping(e2, c2) == if order_pairs(o2).contains((e2, c2)) {
                    None
                } else {
                    m0.mapping(e2, c2)
                } by {
                if e2 == e && c2 == ct {
                    assert(order_pairs(o2)[o.len() as int] == (e, ct));
                } else {
                    assert(mb.mapping(e2, c2) == mappings.mapping(e2, c2));
                    if order_pairs(o2).contains((e2, c2)) {
                        let w = choose|w: int| 0 <= w < order_pairs(o2).len() && order_pairs(o2)[w] == (e2, c2);
                        assert(order_pairs(o).contains((e2, c2))) by {
                            assert(order_pairs(o)[w] == (e2, c2));
                        }
                    }
                    if order_pairs(o).contains((e2, c2)) {
                        let w = choose|w: int| 0 <= w < order_pairs(o).len() && order_pairs(o)[w] == (e2, c2);
                        assert(order_pairs(o2)[w] == (e2, c2));
                    }
                }
            }
            assert forall|e2: EntityIndex, c2: ComponentType|
                !order_pairs(o2).contains((e2, c2)) && (#[trigger] m0.mapping(e2, c2)) is Some implies {
                let d = m0.mapping(e2, c2)->Some_0.index as int;
                d < data@.len() && data@[d] == d0[d]
            } by {
                assert(order_pairs(o2)[o.len() as int] == (e, ct));
                if order_pairs(o).contains((e2, c2)) {
                    let w = choose|w: int| 0 <= w < order_pairs(o).len() && order_pairs(o)[w] == (e2, c2);
                    assert(order_pairs(o2)[w] == (e2, c2));
                }
                assert(mb.mapping(e2, c2) == m0.mapping(e2, c2));
                if mb.mapping(e, ct) is Some {
                    assert(mb.mapping(e, ct)->Some_0 != mb.mapping(e2, c2)->Some_0);
                }
            }
        }
        i = i + 1;
    }
    assert(orig.take(n as int) =~= orig);
}

impl<V, S, M: FnOnce(V) -> V> World<V, S, M> {
    /// Removes the components whose disappear events were generated (taken in
    /// some order): their mappings and data, their types from the rows; the
    /// filters stop matching their entities.
    pub fn flush_component_removals(&mut self)
        requires
            old(self).wf(),
        ensures
            final(self).wf(),
            Self::flush_component_removals_done(old(self), final(self)),
    {
        let entries = self.components_to_delete.after_disappear.take_all();
        let ghost orig = entries@;
        proof {
            lemma_causes_entries(orig);
            crate::collections::lemma_entries_to_map(orig);
            assert forall|j: int| 0 <= j < orig.len() implies (#[trigger] orig[j]).0.entity.index.index
                < self.entity_component_index@.len() by {
                assert(entry_keys(orig)[j] == orig[j].0);
                assert(old(self).components_to_delete.after_disappear@.contains_key(orig[j].0));
            }
        }
        remove_components(
            &mut self.entity_component_index,
            &mut self.component_mappings,
            &mut self.component_data,
            &mut self.filter_manager,
            entries,
            Ghost(self.entity_storage@),
        );
        proof {
            let o = causes_entries(orig);
            assert(self.to_delete_after() =~= Map::<ComponentKey, Seq<Cause>>::empty());
            assert(is_order_of(o, old(self).to_delete_after()));
            lemma_removed_filters_len(old(self).filters(), o);
            assert forall|e: EntityIndex, c: ComponentType|
                order_pairs(o).contains((e, c)) == targets(old(self).to_delete_after(), e, c) by {
                if order_pairs(o).contains((e, c)) {
                    let w = choose|w: int| 0 <= w < order_pairs(o).len() && order_pairs(o)[w] == (e, c);
                    assert(entry_keys(orig)[w] == orig[w].0);
                    assert(old(self).to_delete_after().contains_key(orig[w].0));
                }
                if targets(old(self).to_delete_after(), e, c) {
                    let k = choose|k: ComponentKey|
                        #[trigger] old(self).to_delete_after().contains_key(k) && k.entity.index == e
                            && k.component_type == c;
                    assert(old(self).components_to_delete.after_disappear@.contains_key(k));
                    let w = choose|w: int| 0 <= w < entry_keys(orig).len() && entry_keys(orig)[w] == k;
                    assert(order_pairs(o)[w] == (e, c));
                }
            }
            assert(self.queues_in_range());
            assert(self.handlers_in_range());
        }
    }
}


/// `m` with `causes` recorded for each component of `entity` whose type is in `row`.
pub open spec fn row_removals_folded(
    m: Map<ComponentKey, Seq<Cause>>,
    entity: InternalEntityKey,
    row: Seq<ComponentType>,
    causes: Seq<Cause>,
) -> Map<ComponentKey, Seq<Cause>>
    decreases row.len(),
{
    if row.len() == 0 {
        m
    } else {
        causes_added(
            row_removals_folded(m, entity, row.drop_last(), causes),
            ComponentKey { entity, component_type: row.last() },
            causes,
        )
    }
}

/// `m` with the components of the entities of `order` scheduled for removal,
/// with `rows` the component types of each slot.
pub open spec fn scheduled_removals(
    m: Map<ComponentKey, Seq<Cause>>,
    rows: Seq<Seq<ComponentType>>,
    order: Seq<(InternalEntityKey, Seq<Cause>)>,
) -> Map<ComponentKey, Seq<Cause>>
    decreases order.len(),
{
    if order.len() == 0 {
        m
    } else {
        let prev = scheduled_removals(m, rows, order.drop_last());
        let k = order.last().0;
        row_removals_folded(prev, k, rows[k.index.index as int], order.last().1)
    }
}

/// The filters `fs` after the disappear events of the entities of `order`,
/// with `all` the filter that matches every entity.
pub open spec fn entity_disappeared_filters(
    fs: Seq<FilterView>,
    all: Option<InternalFilterKey>,
    order: Seq<(InternalEntityKey, Seq<Cause>)>,
) -> Seq<FilterView>
    decreases order.len(),
{
    if order.len() == 0 {
        fs
    } else {
        let prev = entity_disappeared_filters(fs, all, order.drop_last());
        match all {
            Some(a) => prev.update(
                a.0 as int,
                FilterView {
                    disappear: crate::filter::events_added(
                        prev[a.0 as int].disappear,
                        order.last().0,
                        order.last().1,
                    ),
                    ..prev[a.0 as int]
                },
            ),
            None => prev,
        }
    }
}

/// The filters with new disappear events after the disappear events of the
/// entities of `order`.
pub open spec fn entity_disappeared_marks(
    nd: Set<InternalFilterKey>,
    fs: Seq<FilterView>,
    all: Option<InternalFilterKey>,
    order: Seq<(InternalEntityKey, Seq<Cause>)>,
) -> Set<InternalFilterKey>
    decreases order.len(),
{
    if order.len() == 0 {
        nd
    } else {
        let prev_nd = entity_disappeared_marks(nd, fs, all, order.drop_last());
        let prev = entity_disappeared_filters(fs, all, order.drop_last());
        match all {
            Some(a) => if prev[a.0 as int].disappear is Some {
                prev_nd.insert(a)
            } else {
                prev_nd
            },
            None => prev_nd,
        }
    }
}

proof fn lemma_entity_disappeared_filters_len(
    fs: Seq<FilterView>,
    all: Option<InternalFilterKey>,
    order: Seq<(InternalEntityKey, Seq<Cause>)>,
)
    requires
        all matches Some(a) ==> a.0 < fs.len(),
    ensures
        entity_disappeared_filters(fs, all, order).len() == fs.len(),
    decreases order.len(),
{
    if order.len() > 0 {
        lemma_entity_disappeared_filters_len(fs, all, order.drop_last());
    }
}

/// Schedules the removal of the components of the entities of `entries`,
/// generates their disappear events and moves them on to `after`.
fn schedule_removals(
    index: &EntityComponentIndex,
    filters: &mut FilterManager,
    components_before: &mut AssocMap<ComponentKey, OptTinyVec>,
    after: &mut AssocMap<InternalEntityKey, OptTinyVec>,
    entries: Vec<(InternalEntityKey, OptTinyVec)>,
)
    requires
        index.wf(),
        old(filters).wf(),
        old(components_before).wf(),
        old(after).wf(),
        forall|j: int| 0 <= j < entries@.len() ==> (#[trigger] entries@[j]).0.index.index < index@.len(),
        forall|k: ComponentKey| #[trigger]
            old(components_before)@.contains_key(k) ==> k.entity.index.index < index@.len(),
    ensures
        final(filters).wf(),
        final(filters).all_entities_key() == old(filters).all_entities_key(),
        final(filters).new_appear() == old(filters).new_appear(),
        final(filters).filters() == entity_disappeared_filters(
            old(filters).filters(),
            old(filters).all_entities_key(),
            causes_entries(entries@),
        ),
        final(filters).new_disappear() == entity_disappeared_marks(
            old(filters).new_disappear(),
            old(filters).filters(),
            old(filters).all_entities_key(),
            causes_entries(entries@),
        ),
        final(components_before).wf(),
        causes_view(final(components_before)@) == scheduled_removals(
            causes_view(old(components_before)@),
            index@,
            causes_entries(entries@),
        ),
        forall|k: ComponentKey| #[trigger]
            final(components_before)@.contains_key(k) ==> k.entity.index.index < index@.len(),
        final(after).wf(),
        causes_view(final(after)@) == causes_folded(causes_view(old(after)@), causes_entries(entries@)),
{
    let ghost orig = entries@;
    let ghost f0 = filters.filters();
    let ghost nd0 = filters.new_disappear();
    let ghost all = filters.all_entities_key();
    let ghost c0 = causes_view(components_before@);
    let ghost a0 = causes_view(after@);
    let mut entries = entries;
    let n = entries.len();
    let mut i: usize = 0;
    assert(causes_entries(orig.take(0)) =~= Seq::<(InternalEntityKey, Seq<Cause>)>::empty());
    while i < n
        invariant
            n == orig.len(),
            entries@.len() == n,
            i <= n,
            forall|j: int| i <= j < n ==> #[trigger] entries@[j] == orig[j],
            forall|j: int| 0 <= j < n ==> (#[trigger] orig[j]).0.index.index < index@.len(),
            index.wf(),
            filters.wf(),
            filters.all_entities_key() == all,
            filters.new_appear() == old(filters).new_appear(),
            filters.filters() == entity_disappeared_filters(f0, all, causes_entries(orig.take(i as int))),
            filters.new_disappear() == entity_disappeared_marks(
                nd0,
                f0,
                all,
                causes_entries(orig.take(i as int)),
            ),
            components_before.wf(),
            causes_view(components_before@) == scheduled_removals(
                c0,
                index@,
                causes_entries(orig.take(i as int)),
            ),
            forall|k: ComponentKey| #[trigger]
                components_before@.contains_key(k) ==> k.entity.index.index < index@.len(),
            after.wf(),
            causes_view(after@) == causes_folded(a0, causes_entries(orig.take(i as int))),
        decreases n - i,
    {
        let (entity, causes) = take_at(&mut entries, i, OptTinyVec::default());
        let ghost ii = i as int;
        let ghost cs = causes@;
        let ghost prev_map = causes_view(components_before@);
        proof {
            assert(entity == orig[ii].0);
        }
        let types = index.get_component_types(entity.index);
        let mut t: usize = 0;
        assert(types@.take(0) =~= Seq::<ComponentType>::empty());
        while t < types.len()
            invariant
                t <= types@.len(),
                types@ == index@[entity.index.index as int],
                (entity.index.index as int) < index@.len(),
                components_before.wf(),
                causes_view(components_before@) == row_removals_folded(
                    prev_map,
                    entity,
                    types@.take(t as int),
                    cs,
                ),
                forall|k: ComponentKey| #[trigger]
                    components_before@.contains_key(k) ==> k.entity.index.index < index@.len(),
                causes@ == cs,
            decreases types@.len() - t,
        {
            let ck = ComponentKey::new(entity, types[t]);
            queue_causes(components_before, ck, causes.share());
            proof {
                assert(types@.take(t + 1).drop_last() =~= types@.take(t as int));
                assert forall|k: ComponentKey| #[trigger]
                    components_before@.contains_key(k) implies k.entity.index.index < index@.len() by {
                    assert(causes_view(components_before@).contains_key(k));
                }
            }
            t = t + 1;
        }
        proof {
            assert(types@.take(types@.len() as int) =~= types@);
        }
        filters.generate_entity_disappear_events(entity, causes.share());
        queue_causes(after, entity, causes);
        proof {
            let o2 = causes_entries(orig.take(ii + 1));
            assert(o2.drop_last() =~= causes_entries(orig.take(ii)));
            assert(o2.last() == (entity, cs));
        }
        i = i + 1;
    }
    assert(orig.take(n as int) =~= orig);
}

impl<V, S, M: FnOnce(V) -> V> World<V, S, M> {
    /// Schedules the removal of every component of the entities waiting to be
    /// destroyed (taken in some order), generates their disappear events and
    /// moves them on to be destroyed.
    pub fn schedule_destroyed_entities_component_removal(&mut self)
        requires
            old(self).wf(),
        ensures
            final(self).wf(),
            Self::schedule_destroyed_entities_component_removal_done(old(self), final(self)),
    {
        let entries = self.entities_to_destroy.before_disappear.take_all();
        let ghost orig = entries@;
        proof {
            lemma_causes_entries(orig);
            crate::collections::lemma_entries_to_map(orig);
            assert forall|j: int| 0 <= j < orig.len() implies (#[trigger] orig[j]).0.index.index
                < self.entity_component_index@.len() by {
                assert(entry_keys(orig)[j] == orig[j].0);
                assert(old(self).entities_to_destroy.before_disappear@.contains_key(orig[j].0));
            }
        }
        schedule_removals(
            &self.entity_component_index,
            &mut self.filter_manager,
            &mut self.components_to_delete.before_disappear,
            &mut self.entities_to_destroy.after_disappear,
            entries,
        );
        proof {
            let o = causes_entries(orig);
            assert(self.to_destroy() =~= Map::<InternalEntityKey, Seq<Cause>>::empty());
            assert(is_order_of(o, old(self).to_destroy()));
            old(self).filter_manager.lemma_all_entities_in_range();
            lemma_entity_disappeared_filters_len(old(self).filters(), old(self).all_entities_filter(), o);
            lemma_causes_folded_dom(old(self).to_destroy_after(), o);
            assert forall|k: InternalEntityKey| #[trigger]
                self.entities_to_destroy.after_disappear@.contains_key(k) implies k.index.index
                < self.entity_storage@.len() by {
                assert(causes_view(self.entities_to_destroy.after_disappear@).contains_key(k));
                if !old(self).entities_to_destroy.after_disappear@.contains_key(k) {
                    assert(causes_view(old(self).entities_to_destroy.after_disappear@).contains_key(k)
                        == old(self).entities_to_destroy.after_disappear@.contains_key(k));
                    assert(entry_keys(o).to_set().contains(k));
                    let j = choose|j: int| 0 <= j < entry_keys(orig).len() && entry_keys(orig)[j] == k;
                    assert(orig[j].0 == k);
                }
            }
            assert(self.queues_in_range());
            assert(self.handlers_in_range());
        }
    }
}


/// Whether an entity of `keys` that is alive in `s` sits in slot `x`.
pub open spec fn destroyed_at(s: Seq<EntityBox>, keys: Set<InternalEntityKey>, x: int) -> bool {
    exists|k: InternalEntityKey| #[trigger] keys.contains(k) && is_live(s, k) && k.index.index == x
}

/// Slot `x` of `s`, freed when an entity of `keys` that is alive in `s` is there.
pub open spec fn destroyed_slot(s: Seq<EntityBox>, keys: Set<InternalEntityKey>, x: int) -> EntityBox {
    if destroyed_at(s, keys, x) {
        EntityBox { exists: false, ..s[x] }
    } else {
        s[x]
    }
}

/// The filters `fs` after the entities of `order` were destroyed, with
/// `all` the filter that matches every entity.
pub open spec fn destroyed_filters(
    fs: Seq<FilterView>,
    all: Option<InternalFilterKey>,
    order: Seq<(InternalEntityKey, Seq<Cause>)>,
) -> Seq<FilterView>
    decreases order.len(),
{
    if order.len() == 0 {
        fs
    } else {
        let prev = destroyed_filters(fs, all, order.drop_last());
        match all {
            Some(a) => prev.update(
                a.0 as int,
                FilterView {
                    matched: crate::filter::matched_without(prev[a.0 as int].matched, order.last().0),
                    ..prev[a.0 as int]
                },
            ),
            None => prev,
        }
    }
}

proof fn lemma_destroyed_filters_len(
    fs: Seq<FilterView>,
    all: Option<InternalFilterKey>,
    order: Seq<(InternalEntityKey, Seq<Cause>)>,
)
    requires
        all matches Some(a) ==> a.0 < fs.len(),
    ensures
        destroyed_filters(fs, all, order).len() == fs.len(),
    decreases order.len(),
{
    if order.len() > 0 {
        lemma_destroyed_filters_len(fs, all, order.drop_last());
    }
}

/// Frees the slots of the entities of `entries` that are alive, drops their
/// components and tells the filters.
fn destroy_entities<V>(
    storage: &mut EntityStorage,
    filters: &mut FilterManager,
    index: &mut EntityComponentIndex,
    mappings: &mut ComponentMappingStorage,
    data: &mut SpecificPool<ComponentDataKey, V>,
    entries: Vec<(InternalEntityKey, OptTinyVec)>,
)
    requires
        old(storage).wf(),
        old(filters).wf(),
        old(index).wf(),
        old(index)@.len() == old(storage)@.len(),
        old(data).wf(),
        mappings_consistent(old(mappings), old(data)@),
        rows_match(old(mappings), old(index)@, old(storage)@),
        forall|j: int|
            0 <= j < entries@.len() ==> (#[trigger] entries@[j]).0.index.index < old(storage)@.len(),
    ensures
        final(storage).wf(),
        final(storage)@.len() == old(storage)@.len(),
        forall|x: int|
            0 <= x < old(storage)@.len() ==> #[trigger] final(storage)@[x] == destroyed_slot(
                old(storage)@,
                entry_keys(entries@).to_set(),
                x,
            ),
        final(filters).wf(),
        final(filters).all_entities_key() == old(filters).all_entities_key(),
        final(filters).new_appear() == old(filters).new_appear(),
        final(filters).new_disappear() == old(filters).new_disappear(),
        final(filters).filters() == destroyed_filters(
            old(filters).filters(),
            old(filters).all_entities_key(),
            causes_entries(entries@),
        ),
        final(index).wf(),
        final(index).width() == old(index).width(),
        final(index).table_len() == old(index).table_len(),
        final(index)@.len() == old(index)@.len(),
        forall|x: int|
            0 <= x < old(index)@.len() ==> #[trigger] final(index)@[x] == if destroyed_at(
                old(storage)@,
                entry_keys(entries@).to_set(),
                x,
            ) {
                Seq::<ComponentType>::empty()
            } else {
                old(index)@[x]
            },
        final(data).wf(),
        mappings_consistent(final(mappings), final(data)@),
        rows_match(final(mappings), final(index)@, final(storage)@),
        forall|e: EntityIndex, c: ComponentType| #[trigger]
            final(mappings).mapping(e, c) == if destroyed_at(
                old(storage)@,
                entry_keys(entries@).to_set(),
                e.index as int,
            ) {
                None
            } else {
                old(mappings).mapping(e, c)
            },
        forall|e: EntityIndex, c: ComponentType|
            !destroyed_at(old(storage)@, entry_keys(entries@).to_set(), e.index as int) && (
            #[trigger] old(mappings).mapping(e, c)) is Some ==> {
                let d = old(mappings).mapping(e, c)->Some_0.index as int;
                d < final(data)@.len() && final(data)@[d] == old(data)@[d]
            },
{
    let ghost orig = entries@;
    let ghost s0 = storage@;
    let ghost f0 = filters.filters();
    let ghost a0 = filters.all_entities_key();
    let ghost r0 = index@;
    let ghost m0 = *mappings;
    let ghost d0 = data@;
    let mut entries = entries;
    let n = entries.len();
    let mut i: usize = 0;
    assert(entry_keys(orig.take(0)).to_set() =~= Set::<InternalEntityKey>::empty());
    assert(causes_entries(orig.take(0)) =~= Seq::<(InternalEntityKey, Seq<Cause>)>::empty());
    while i < n
        invariant
            n == orig.len(),
            entries@.len() == n,
            i <= n,
            forall|j: int| i <= j < n ==> #[trigger] entries@[j] == orig[j],
            forall|j: int| 0 <= j < n ==> (#[trigger] orig[j]).0.index.index < s0.len(),
            storage.wf(),
            storage@.len() == s0.len(),
            forall|x: int|
                0 <= x < s0.len() ==> #[trigger] storage@[x] == destroyed_slot(
                    s0,
                    entry_keys(orig.take(i as int)).to_set(),
                    x,
                ),
            filters.wf(),
            filters.all_entities_key() == a0,
            filters.new_appear() == old(filters).new_appear(),
            filters.new_disappear() == old(filters).new_disappear(),
            filters.filters() == destroyed_filters(f0, a0, causes_entries(orig.take(i as int))),
            index.wf(),
            index.width() == old(index).width(),
            index.table_len() == old(index).table_len(),
            index@.len() == s0.len(),
            r0.len() == s0.len(),
            forall|x: int|
                0 <= x < s0.len() ==> #[trigger] index@[x] == if destroyed_at(
                    s0,
                    entry_keys(orig.take(i as int)).to_set(),
                    x,
                ) {
                    Seq::<ComponentType>::empty()
                } else {
                    r0[x]
                },
            data.wf(),
            mappings_consistent(mappings, data@),
            rows_match(mappings, index@, storage@),
            forall|e: EntityIndex, c: ComponentType| #[trigger]
                mappings.mapping(e, c) == if destroyed_at(
                    s0,
                    entry_keys(orig.take(i as int)).to_set(),
                    e.index as int,
                ) {
                    None
                } else {
                    m0.mapping(e, c)
                },
            forall|e: EntityIndex, c: ComponentType|
                !destroyed_at(s0, entry_keys(orig.take(i as int)).to_set(), e.index as int) && (
                #[trigger] m0.mapping(e, c)) is Some ==> {
                    let d = m0.mapping(e, c)->Some_0.index as int;
                    d < data@.len() && data@[d] == d0[d]
                },
        decreases n - i,
    {
        let (entity, causes) = take_at(&mut entries, i, OptTinyVec::default());
        let ghost ii = i as int;
        let ghost cs = causes@;
        let ghost before = storage@;
        let ghost ib = index@;
        let ghost mb = *mappings;
        let ghost db = data@;
        proof {
            assert(entity == orig[ii].0);
        }
        let ghost idx = entity.index.index as int;
        let live = storage.validate(entity, ValidateUncommitted::AllowUncommitted).is_ok();
        if live {
            clear_components_of(index, mappings, data, entity.index, Ghost(storage@));
            storage.delete_entity_data(entity.index);
        }
        filters.on_entity_destroyed(entity);
        proof {
            let p = entry_keys(orig.take(ii)).to_set();
            let p2 = entry_keys(orig.take(ii + 1)).to_set();
            assert(entry_keys(orig.take(ii + 1)) =~= entry_keys(orig.take(ii)).push(entity));
            entry_keys(orig.take(ii)).lemma_push_to_set_commute(entity);
            assert(p2 =~= p.insert(entity));
            assert forall|x: int| #[trigger] destroyed_at(s0, p2, x) == (destroyed_at(s0, p, x) || (
            live && x == idx)) by {
                if destroyed_at(s0, p, x) {
                    let k = choose|k: InternalEntityKey| #[trigger] p.contains(k) && is_live(s0, k) && k.index.index == x;
                    assert(p2.contains(k));
                }
                if destroyed_at(s0, p2, x) {
                    let k = choose|k: InternalEntityKey| #[trigger] p2.contains(k) && is_live(s0, k) && k.index.index == x;
                    if k != entity {
                        assert(p.contains(k));
                    } else if !destroyed_at(s0, p, x) {
                        assert(before[x] == s0[x]);
                    }
                }
                if live && x == idx {
                    assert(!destroyed_at(s0, p, x)) by {
                        if destroyed_at(s0, p, x) {
                            assert(!before[x].exists);
                        }
                    }
                    assert(before[x] == s0[x]);
                    assert(is_live(s0, entity));
                    assert(p2.contains(entity));
                }
            }
            assert forall|x: int| 0 <= x < s0.len() implies #[trigger] storage@[x] == destroyed_slot(
                s0,
                p2,
                x,
            ) by {
                assert(destroyed_at(s0, p2, x) == (destroyed_at(s0, p, x) || (live && x == idx)));
                if x != idx || !live {
                    assert(storage@[x] == before[x]);
                }
            }
            assert forall|x: int| 0 <= x < s0.len() implies #[trigger] index@[x] == if destroyed_at(
                s0,
                p2,
                x,
            ) {
                Seq::<ComponentType>::empty()
            } else {
                r0[x]
            } by {
                assert(destroyed_at(s0, p2, x) == (destroyed_at(s0, p, x) || (live && x == idx)));
                if x != idx || !live {
                    assert(index@[x] == ib[x]);
                }
            }
            assert forall|e: EntityIndex, c: ComponentType| #[trigger]
                mappings.mapping(e, c) == if destroyed_at(s0, p2, e.index as int) {
                    None
                } else {
                    m0.mapping(e, c)
                } by {
                assert(destroyed_at(s0, p2, e.index as int) == (destroyed_at(s0, p, e.index as int)
                    || (live && e.index as int == idx)));
                assert(mb.mapping(e, c) == if destroyed_at(s0, p, e.index as int) {
                    None
                } else {
                    m0.mapping(e, c)
                });
                if live && e.index as int == idx {
                    assert(e == entity.index);
                }
            }
            assert forall|e: EntityIndex, c: ComponentType|
                !destroyed_at(s0, p2, e.index as int) && (#[trigger] m0.mapping(e, c)) is Some implies {
                    let d = m0.mapping(e, c)->Some_0.index as int;
                    d < data@.len() && data@[d] == d0[d]
                } by {
                assert(destroyed_at(s0, p2, e.index as int) == (destroyed_at(s0, p, e.index as int)
                    || (live && e.index as int == idx)));
                assert(mb.mapping(e, c) == m0.mapping(e, c));
                if live {
                    assert(e != entity.index);
                }
            }
            if live {
                assert forall|x: int|
                    0 <= x < index@.len() && x < storage@.len() && !storage@[x].exists implies #[trigger] index@[x]
                        == Seq::<ComponentType>::empty() by {
                    if x != idx {
                        assert(storage@[x] == before[x]);
                    }
                }
            }
            let o2 = causes_entries(orig.take(ii + 1));
            assert(o2.drop_last() =~= causes_entries(orig.take(ii)));
            assert(o2.last() == (entity, cs));
        }
        i = i + 1;
    }
    assert(orig.take(n as int) =~= orig);
}

impl<V, S, M: FnOnce(V) -> V> World<V, S, M> {
    /// Destroys the entities whose disappear events were generated (taken in
    /// some order): the slots of those alive are freed; the filter that
    /// matches every entity stops matching them.
    pub fn flush_entity_destroy_actions(&mut self)
        requires
            old(self).wf(),
        ensures
            final(self).wf(),
            Self::flush_entity_destroy_actions_done(old(self), final(self)),
    {
        let entries = self.entities_to_destroy.after_disappear.take_all();
        let ghost orig = entries@;
        proof {
            lemma_causes_entries(orig);
            crate::collections::lemma_entries_to_map(orig);
            assert forall|j: int| 0 <= j < orig.len() implies (#[trigger] orig[j]).0.index.index
                < self.entity_storage@.len() by {
                assert(entry_keys(orig)[j] == orig[j].0);
                assert(old(self).entities_to_destroy.after_disappear@.contains_key(orig[j].0));
            }
        }
        destroy_entities(
            &mut self.entity_storage,
            &mut self.filter_manager,
            &mut self.entity_component_index,
            &mut self.component_mappings,
            &mut self.component_data,
            entries,
        );
        proof {
            let o = causes_entries(orig);
            assert(self.to_destroy_after() =~= Map::<InternalEntityKey, Seq<Cause>>::empty());
            assert(is_order_of(o, old(self).to_destroy_after()));
            assert forall|k: InternalEntityKey| #[trigger] entry_keys(orig).to_set().contains(k)
                == old(self).to_destroy_after().dom().contains(k) by {
                assert(causes_view(old(self).entities_to_destroy.after_disappear@).contains_key(k)
                    == old(self).entities_to_destroy.after_disappear@.contains_key(k));
            }
            assert(entry_keys(orig).to_set() =~= old(self).to_destroy_after().dom());
            old(self).filter_manager.lemma_all_entities_in_range();
            lemma_destroyed_filters_len(old(self).filters(), old(self).all_entities_filter(), o);
            assert forall|e: EntityIndex, c: ComponentType|
                !destroyed_at(old(self).entities(), old(self).to_destroy_after().dom(), e.index as int)
                    implies #[trigger] self.component_value(e, c) == old(self).component_value(e, c) by {
                if old(self).mapping(e, c) is Some {
                    assert(self.mapping(e, c) == old(self).mapping(e, c));
                }
            }
            assert(self.queues_in_range());
            assert(self.handlers_in_range());
            assert(self.data_consistent());
            assert(self.rows_consistent());
        }
    }
}


impl<V, S, M: FnOnce(V) -> V> World<V, S, M> {
    /// What `flush_entity_create_actions` does: `new` is `old` after it.
    pub open spec fn flush_entity_create_actions_done(old: &Self, new: &Self) -> bool {
        &&& new.to_commit() == Map::<InternalEntityKey, Seq<Cause>>::empty()
        &&& new.entities().len() == old.entities().len()
        &&& forall|x: int|
            0 <= x < old.entities().len() ==> #[trigger] new.entities()[x]
                == committed_slot(old.entities(), old.to_commit().dom(), x)
        &&& exists|order: Seq<(InternalEntityKey, Seq<Cause>)>|
            #[trigger] is_order_of(order, old.to_commit()) && new.filters()
                == created_filters(old.filters(), old.all_entities_filter(), order)
                && new.new_appear() == created_appear(
                old.new_appear(),
                old.all_entities_filter(),
                order.len(),
            )
        &&& new.new_disappear() == old.new_disappear()
        &&& new.all_entities_filter() == old.all_entities_filter()
        &&& new.component_rows() == old.component_rows()
        &&& new.component_table_len() == old.component_table_len()
        &&& new.next_entity_slot() == old.next_entity_slot()
        &&& Self::same_components(old, new)
        &&& new.to_destroy() == old.to_destroy()
        &&& new.to_destroy_after() == old.to_destroy_after()
        &&& new.to_delete() == old.to_delete()
        &&& new.to_delete_after() == old.to_delete_after()
        &&& new.pending_adds() == old.pending_adds()
        &&& new.pending_mods() == old.pending_mods()
        &&& Self::same_config(old, new)
        &&& Self::same_signals(old, new)
    }

    /// What `flush_component_addition` does: `new` is `old` after it.
    pub open spec fn flush_component_addition_done(old: &Self, new: &Self) -> bool {
        &&& new.pending_adds() == Map::<ComponentKey, Seq<ComponentAdd<V>>>::empty()
        &&& new.pending_mods() == old.pending_mods()
        &&& exists|order: Seq<(ComponentKey, Seq<Cause>)>|
            #[trigger] Self::additions_applied(old, new, order)
        &&& new.entities() == old.entities()
        &&& new.next_entity_slot() == old.next_entity_slot()
        &&& new.component_table_len() >= old.component_table_len()
        &&& new.new_disappear() == old.new_disappear()
        &&& new.all_entities_filter() == old.all_entities_filter()
        &&& new.to_commit() == old.to_commit()
        &&& new.to_destroy() == old.to_destroy()
        &&& new.to_destroy_after() == old.to_destroy_after()
        &&& new.to_delete() == old.to_delete()
        &&& new.to_delete_after() == old.to_delete_after()
        &&& Self::same_config(old, new)
        &&& Self::same_signals(old, new)
    }

    /// What `generate_disappear_events` does: `new` is `old` after it.
    pub open spec fn generate_disappear_events_done(old: &Self, new: &Self) -> bool {
        &&& new.to_delete() == Map::<ComponentKey, Seq<Cause>>::empty()
        &&& exists|order: Seq<(ComponentKey, Seq<Cause>)>|
            #[trigger] is_order_of(order, old.to_delete()) && new.to_delete_after()
                == causes_folded(old.to_delete_after(), order) && new.filters()
                == disappeared_filters(old.filters(), old.component_rows(), order)
                && new.new_disappear() == disappeared_marks(
                old.new_disappear(),
                old.filters(),
                old.component_rows(),
                order,
            )
        &&& new.new_appear() == old.new_appear()
        &&& new.all_entities_filter() == old.all_entities_filter()
        &&& Self::same_entities(old, new)
        &&& Self::same_components(old, new)
        &&& new.to_commit() == old.to_commit()
        &&& new.to_destroy() == old.to_destroy()
        &&& new.to_destroy_after() == old.to_destroy_after()
        &&& new.pending_adds() == old.pending_adds()
        &&& new.pending_mods() == old.pending_mods()
        &&& Self::same_config(old, new)
        &&& Self::same_signals(old, new)
    }

    /// What `flush_component_removals` does: `new` is `old` after it.
    pub open spec fn flush_component_removals_done(old: &Self, new: &Self) -> bool {
        &&& new.to_delete_after() == Map::<ComponentKey, Seq<Cause>>::empty()
        &&& exists|order: Seq<(ComponentKey, Seq<Cause>)>|
            #[trigger] is_order_of(order, old.to_delete_after()) && new.component_rows()
                == removed_rows(old.component_rows(), order) && new.filters()
                == removed_filters(old.filters(), order)
        &&& forall|e: EntityIndex, c: ComponentType| #[trigger]
            new.mapping(e, c) == if targets(old.to_delete_after(), e, c) {
                None
            } else {
                old.mapping(e, c)
            }
        &&& forall|e: EntityIndex, c: ComponentType|
            !targets(old.to_delete_after(), e, c) ==> #[trigger] new.component_value(
                e,
                c,
            ) == old.component_value(e, c)
        &&& new.entities() == old.entities()
        &&& new.next_entity_slot() == old.next_entity_slot()
        &&& new.component_table_len() == old.component_table_len()
        &&& new.new_appear() == old.new_appear()
        &&& new.new_disappear() == old.new_disappear()
        &&& new.all_entities_filter() == old.all_entities_filter()
        &&& new.to_commit() == old.to_commit()
        &&& new.to_destroy() == old.to_destroy()
        &&& new.to_destroy_after() == old.to_destroy_after()
        &&& new.to_delete() == old.to_delete()
        &&& new.pending_adds() == old.pending_adds()
        &&& new.pending_mods() == old.pending_mods()
        &&& Self::same_config(old, new)
        &&& Self::same_signals(old, new)
    }

    /// What `schedule_destroyed_entities_component_removal` does: `new` is `old` after it.
    pub open spec fn schedule_destroyed_entities_component_removal_done(old: &Self, new: &Self) -> bool {
        &&& new.to_destroy() == Map::<InternalEntityKey, Seq<Cause>>::empty()
        &&& exists|order: Seq<(InternalEntityKey, Seq<Cause>)>|
            #[trigger] is_order_of(order, old.to_destroy()) && new.to_destroy_after()
                == causes_folded(old.to_destroy_after(), order) && new.to_delete()
                == scheduled_removals(old.to_delete(), old.component_rows(), order)
                && new.filters() == entity_disappeared_filters(
                old.filters(),
                old.all_entities_filter(),
                order,
            ) && new.new_disappear() == entity_disappeared_marks(
                old.new_disappear(),
                old.filters(),
                old.all_entities_filter(),
                order,
            )
        &&& new.new_appear() == old.new_appear()
        &&& new.all_entities_filter() == old.all_entities_filter()
        &&& Self::same_entities(old, new)
        &&& Self::same_components(old, new)
        &&& new.to_commit() == old.to_commit()
        &&& new.to_delete_after() == old.to_delete_after()
        &&& new.pending_adds() == old.pending_adds()
        &&& new.pending_mods() == old.pending_mods()
        &&& Self::same_config(old, new)
        &&& Self::same_signals(old, new)
    }

    /// What `flush_entity_destroy_actions` does: `new` is `old` after it.
    pub open spec fn flush_entity_destroy_actions_done(old: &Self, new: &Self) -> bool {
        &&& new.to_destroy_after() == Map::<InternalEntityKey, Seq<Cause>>::empty()
        &&& new.entities().len() == old.entities().len()
        &&& forall|x: int|
            0 <= x < old.entities().len() ==> #[trigger] new.entities()[x]
                == destroyed_slot(old.entities(), old.to_destroy_after().dom(), x)
        &&& exists|order: Seq<(InternalEntityKey, Seq<Cause>)>|
            #[trigger] is_order_of(order, old.to_destroy_after()) && new.filters()
                == destroyed_filters(old.filters(), old.all_entities_filter(), order)
        &&& new.new_appear() == old.new_appear()
        &&& new.new_disappear() == old.new_disappear()
        &&& new.all_entities_filter() == old.all_entities_filter()
        &&& new.component_rows().len() == old.component_rows().len()
        &&& forall|x: int|
            0 <= x < old.component_rows().len() ==> #[trigger] new.component_rows()[x] == if destroyed_at(
                old.entities(),
                old.to_destroy_after().dom(),
                x,
            ) {
                Seq::<ComponentType>::empty()
            } else {
                old.component_rows()[x]
            }
        &&& new.component_table_len() == old.component_table_len()
        &&& forall|e: EntityIndex, c: ComponentType| #[trigger]
            new.mapping(e, c) == if destroyed_at(old.entities(), old.to_destroy_after().dom(), e.index as int) {
                None
            } else {
                old.mapping(e, c)
            }
        &&& forall|e: EntityIndex, c: ComponentType|
            !destroyed_at(old.entities(), old.to_destroy_after().dom(), e.index as int)
                ==> #[trigger] new.component_value(e, c) == old.component_value(e, c)
        &&& new.to_commit() == old.to_commit()
        &&& new.to_destroy() == old.to_destroy()
        &&& new.to_delete() == old.to_delete()
        &&& new.to_delete_after() == old.to_delete_after()
        &&& new.pending_adds() == old.pending_adds()
        &&& new.pending_mods() == old.pending_mods()
        &&& Self::same_config(old, new)
        &&& Self::same_signals(old, new)
    }
}


/// The events of a filter, taken for its handlers.
pub struct FilterEvents {
    pub filter: InternalFilterKey,
    /// The handlers registered for the filter, in the order they were registered.
    pub handlers: Vec<usize>,
    /// The entities and the causes of their events.
    pub events: Vec<(InternalEntityKey, OptTinyVec)>,
}

/// The handlers bound to filter `key`, in order.
pub open spec fn handlers_for(bindings: Seq<HandlerBinding>, key: InternalFilterKey) -> Seq<usize>
    decreases bindings.len(),
{
    if bindings.len() == 0 {
        Seq::empty()
    } else {
        let prev = handlers_for(bindings.drop_last(), key);
        if bindings.last().filter == key {
            prev.push(bindings.last().handler)
        } else {
            prev
        }
    }
}

/// The handlers of `bindings` bound to filter `key`, in order.
fn collect_handlers(bindings: &Vec<HandlerBinding>, key: InternalFilterKey) -> (r: Vec<usize>)
    ensures
        r@ == handlers_for(bindings@, key),
{
    let mut r: Vec<usize> = Vec::new();
    let mut i: usize = 0;
    assert(bindings@.take(0) =~= Seq::<HandlerBinding>::empty());
    while i < bindings.len()
        invariant
            i <= bindings@.len(),
            r@ == handlers_for(bindings@.take(i as int), key),
        decreases bindings@.len() - i,
    {
        assert(bindings@.take(i + 1).drop_last() =~= bindings@.take(i as int));
        if bindings[i].filter == key {
            r.push(bindings[i].handler);
        }
        i = i + 1;
    }
    assert(bindings@.take(i as int) =~= bindings@);
    r
}

/// `events` holds the events `m` (none when the filter records none).
pub open spec fn holds_events(
    events: Seq<(InternalEntityKey, OptTinyVec)>,
    m: Option<Map<InternalEntityKey, Seq<Cause>>>,
) -> bool {
    match m {
        Some(m) => entry_keys(events).no_duplicates() && crate::filter::events_view(
            entries_to_map(events),
        ) == m,
        None => events == Seq::<(InternalEntityKey, OptTinyVec)>::empty(),
    }
}

/// The filters of deliveries, in order.
pub open spec fn delivery_filters(d: Seq<FilterEvents>) -> Seq<InternalFilterKey> {
    d.map_values(|x: FilterEvents| x.filter)
}

/// `d` delivers the events (chosen by `disappear`) of the filters `marked`
/// of `fs` to the handlers of `bindings`.
pub open spec fn delivers(
    d: Seq<FilterEvents>,
    fs: Seq<FilterView>,
    marked: Set<InternalFilterKey>,
    bindings: Seq<HandlerBinding>,
    disappear: bool,
) -> bool {
    &&& delivery_filters(d).no_duplicates()
    &&& delivery_filters(d).to_set() == marked
    &&& forall|a: int|
        0 <= a < d.len() ==> {
            let key = (#[trigger] d[a]).filter;
            &&& d[a].handlers@ == handlers_for(bindings, key)
            &&& holds_events(
                d[a].events@,
                if disappear {
                    fs[key.0 as int].disappear
                } else {
                    fs[key.0 as int].appear
                },
            )
        }
}

/// The filters `fs` with the events (chosen by `disappear`) of the filters
/// `marked` taken.
pub open spec fn events_taken(fs: Seq<FilterView>, marked: Set<InternalFilterKey>, disappear: bool) -> Seq<
    FilterView,
> {
    Seq::new(
        fs.len(),
        |j: int|
            if exists|k: InternalFilterKey| #[trigger] marked.contains(k) && k.0 == j {
                if disappear {
                    if fs[j].disappear is Some {
                        FilterView { disappear: Some(Map::empty()), ..fs[j] }
                    } else {
                        fs[j]
                    }
                } else {
                    if fs[j].appear is Some {
                        FilterView { appear: Some(Map::empty()), ..fs[j] }
                    } else {
                        fs[j]
                    }
                }
            } else {
                fs[j]
            },
    )
}

/// Takes the events (appear or disappear, as `disappear` says) of the
/// filters `keys` for the handlers of `bindings`.
fn take_events(
    filters: &mut FilterManager,
    bindings: &Vec<HandlerBinding>,
    keys: Vec<InternalFilterKey>,
    disappear: bool,
) -> (r: Vec<FilterEvents>)
    requires
        old(filters).wf(),
        keys@.no_duplicates(),
        forall|a: int| 0 <= a < keys@.len() ==> (#[trigger] keys@[a]).0 < old(filters).filters().len(),
    ensures
        final(filters).wf(),
        final(filters).all_entities_key() == old(filters).all_entities_key(),
        final(filters).new_appear() == old(filters).new_appear(),
        final(filters).new_disappear() == old(filters).new_disappear(),
        delivers(r@, old(filters).filters(), keys@.to_set(), bindings@, disappear),
        delivery_filters(r@) == keys@,
        final(filters).filters() == events_taken(old(filters).filters(), keys@.to_set(), disappear),
{
    let ghost f0 = filters.filters();
    let mut r: Vec<FilterEvents> = Vec::new();
    let mut a: usize = 0;
    assert(keys@.take(0).to_set() =~= Set::<InternalFilterKey>::empty());
    assert(events_taken(f0, keys@.take(0).to_set(), disappear) =~= f0);
    while a < keys.len()
        invariant
            a <= keys@.len(),
            keys@.no_duplicates(),
            forall|q: int| 0 <= q < keys@.len() ==> (#[trigger] keys@[q]).0 < f0.len(),
            f0 == old(filters).filters(),
            filters.wf(),
            filters.all_entities_key() == old(filters).all_entities_key(),
            filters.new_appear() == old(filters).new_appear(),
            filters.new_disappear() == old(filters).new_disappear(),
            filters.filters() == events_taken(f0, keys@.take(a as int).to_set(), disappear),
            delivery_filters(r@) == keys@.take(a as int),
            forall|q: int|
                0 <= q < r@.len() ==> {
                    let key = (#[trigger] r@[q]).filter;
                    &&& r@[q].handlers@ == handlers_for(bindings@, key)
                    &&& holds_events(
                        r@[q].events@,
                        if disappear {
                            f0[key.0 as int].disappear
                        } else {
                            f0[key.0 as int].appear
                        },
                    )
                },
        decreases keys@.len() - a,
    {
        let key = keys[a];
        let ghost before = filters.filters();
        let ghost done = keys@.take(a as int).to_set();
        proof {
            assert(!done.contains(key)) by {
                if done.contains(key) {
                    let w = choose|w: int| 0 <= w < a && keys@[w] == key;
                    assert(keys@[w] == keys@[a as int]);
                }
            }
            assert(before[key.0 as int] == f0[key.0 as int]);
        }
        let events = if disappear {
            filters.take_disappear_events(key)
        } else {
            filters.take_appear_events(key)
        };
        let handlers = collect_handlers(bindings, key);
        r.push(FilterEvents { filter: key, handlers, events });
        proof {
            assert(keys@.take(a + 1) =~= keys@.take(a as int).push(key));
            keys@.take(a as int).lemma_push_to_set_commute(key);
            let done2 = keys@.take(a + 1).to_set();
            assert(done2 =~= done.insert(key));
            assert forall|j: int| 0 <= j < f0.len() implies #[trigger] filters.filters()[j] == events_taken(
                f0,
                done2,
                disappear,
            )[j] by {
                if j != key.0 as int {
                    assert(filters.filters()[j] == before[j]);
                    if exists|k: InternalFilterKey| #[trigger] done2.contains(k) && k.0 == j {
                        let k = choose|k: InternalFilterKey| #[trigger] done2.contains(k) && k.0 == j;
                        assert(done.contains(k));
                    }
                    if exists|k: InternalFilterKey| #[trigger] done.contains(k) && k.0 == j {
                        let k = choose|k: InternalFilterKey| #[trigger] done.contains(k) && k.0 == j;
                        assert(done2.contains(k));
                    }
                } else {
                    assert(done2.contains(key));
                    if exists|k: InternalFilterKey| #[trigger] done.contains(k) && k.0 == j {
                        let k = choose|k: InternalFilterKey| #[trigger] done.contains(k) && k.0 == j;
                        assert(k == key);
                    }
                }
            }
            assert(filters.filters() =~= events_taken(f0, keys@.take(a + 1).to_set(), disappear));
            assert(delivery_filters(r@) =~= keys@.take(a + 1));
            if !disappear {
                assert(holds_events(events@, f0[key.0 as int].appear));
            } else {
                assert(holds_events(events@, f0[key.0 as int].disappear));
            }
        }
        a = a + 1;
    }
    assert(keys@.take(a as int) =~= keys@);
    r
}

impl<V, S, M: FnOnce(V) -> V> World<V, S, M> {
    /// What `take_disappear_deliveries` does: `new` is `old` after it, `r` what it returned.
    pub open spec fn disappear_taken(old: &Self, new: &Self, r: Seq<FilterEvents>) -> bool {
        &&& delivers(r, old.filters(), old.new_disappear(), old.disappear_handlers(), true)
        &&& new.filters() == events_taken(old.filters(), old.new_disappear(), true)
        &&& new.new_disappear() == Set::<InternalFilterKey>::empty()
        &&& new.new_appear() == old.new_appear()
        &&& new.all_entities_filter() == old.all_entities_filter()
        &&& Self::same_entities(old, new)
        &&& Self::same_components(old, new)
        &&& Self::same_queues(old, new)
        &&& Self::same_config(old, new)
        &&& Self::same_signals(old, new)
    }

    /// What `take_appear_deliveries` does: `new` is `old` after it, `r` what it returned.
    pub open spec fn appear_taken(old: &Self, new: &Self, r: Seq<FilterEvents>) -> bool {
        &&& delivers(r, old.filters(), old.new_appear(), old.appear_handlers(), false)
        &&& new.filters() == events_taken(old.filters(), old.new_appear(), false)
        &&& new.new_appear() == Set::<InternalFilterKey>::empty()
        &&& new.new_disappear() == old.new_disappear()
        &&& new.all_entities_filter() == old.all_entities_filter()
        &&& Self::same_entities(old, new)
        &&& Self::same_components(old, new)
        &&& Self::same_queues(old, new)
        &&& Self::same_config(old, new)
        &&& Self::same_signals(old, new)
    }

    /// Takes the disappear events of the filters marked as having new ones,
    /// each with the handlers registered for its filter.
    pub fn take_disappear_deliveries(&mut self) -> (r: Vec<FilterEvents>)
        requires
            old(self).wf(),
        ensures
            final(self).wf(),
            Self::disappear_taken(old(self), final(self), r@),
    {
        proof {
            self.filter_manager.lemma_marked_in_range();
        }
        let keys = self.filter_manager.take_with_new_disappear_events();
        proof {
            assert forall|a: int| 0 <= a < keys@.len() implies (#[trigger] keys@[a]).0
                < self.filter_manager.filters().len() by {
                assert(keys@.to_set().contains(keys@[a]));
            }
        }
        let r = take_events(&mut self.filter_manager, &self.on_disappear, keys, true);
        proof {
            assert(self.handlers_in_range());
        }
        r
    }

    /// Takes the appear events of the filters marked as having new ones,
    /// each with the handlers registered for its filter.
    pub fn take_appear_deliveries(&mut self) -> (r: Vec<FilterEvents>)
        requires
            old(self).wf(),
        ensures
            final(self).wf(),
            Self::appear_taken(old(self), final(self), r@),
    {
        proof {
            self.filter_manager.lemma_marked_in_range();
        }
        let keys = self.filter_manager.take_with_new_appear_events();
        proof {
            assert forall|a: int| 0 <= a < keys@.len() implies (#[trigger] keys@[a]).0
                < self.filter_manager.filters().len() by {
                assert(keys@.to_set().contains(keys@[a]));
            }
        }
        let r = take_events(&mut self.filter_manager, &self.on_appear, keys, false);
        proof {
            assert(self.handlers_in_range());
        }
        r
    }
}


/// A signal taken for its handlers.
pub struct SignalDelivery<S> {
    pub payload: S,
    pub cause: Cause,
    /// The handlers of every signal, in the order they were registered.
    pub global_handlers: Vec<usize>,
    /// For each handler registered with a filter, in order: the handler and
    /// the entities that the filter matches.
    pub entity_handlers: Vec<(usize, Vec<EntityKey>)>,
}

impl<V, S, M: FnOnce(V) -> V> World<V, S, M> {
    /// Whether `d` delivers `signal` to the handlers of `w`.
    pub open spec fn delivers_signal(w: &Self, signal: Signal<S>, d: SignalDelivery<S>) -> bool {
        &&& d.payload == signal.payload
        &&& d.cause == signal.cause
        &&& d.global_handlers@ == w.global_signal_handlers()
        &&& d.entity_handlers@.len() == w.entity_signal_handlers().len()
        &&& forall|i: int|
            0 <= i < d.entity_handlers@.len() ==> {
                let b = w.entity_signal_handlers()[i];
                &&& (#[trigger] d.entity_handlers@[i]).0 == b.handler
                &&& match w.filters()[b.filter.0 as int].matched {
                    Some(m) => d.entity_handlers@[i].1@.to_set() == crate::filter::exported_set(m),
                    None => d.entity_handlers@[i].1@ == Seq::<EntityKey>::empty(),
                }
                &&& d.entity_handlers@[i].1@.no_duplicates()
            }
    }

    /// What `take_signal` does: `new` is `old` after it, `r` what it returned.
    pub open spec fn signal_taken(old: &Self, new: &Self, r: Option<SignalDelivery<S>>) -> bool {
        &&& old.signals().len() == 0 ==> r is None && Self::same_state(old, new)
        &&& old.signals().len() > 0 ==> {
            &&& r matches Some(d) && Self::delivers_signal(old, old.signals()[0], d)
            &&& new.signals() == old.signals().drop_first()
            &&& new.current_cause() == old.current_cause()
            &&& new.tx() == old.tx()
            &&& Self::same_entities(old, new)
            &&& Self::same_components(old, new)
            &&& Self::same_queues(old, new)
            &&& Self::same_filters(old, new)
            &&& Self::same_config(old, new)
        }
    }

    /// Takes the oldest signal, with its handlers and, for the handlers
    /// registered with a filter, the entities the filter matches.
    pub fn take_signal(&mut self) -> (r: Option<SignalDelivery<S>>)
        requires
            old(self).wf(),
        ensures
            final(self).wf(),
            Self::signal_taken(old(self), final(self), r),
    {
        match self.signals.pop_front() {
            None => None,
            Some(signal) => {
                proof {
                    assert(self.signals@ =~= old(self).signals@.drop_first());
                }
                let mut global: Vec<usize> = Vec::new();
                let mut i: usize = 0;
                while i < self.global_signal_handlers.len()
                    invariant
                        i <= self.global_signal_handlers@.len(),
                        global@ == self.global_signal_handlers@.take(i as int),
                    decreases self.global_signal_handlers@.len() - i,
                {
                    global.push(self.global_signal_handlers[i]);
                    assert(self.global_signal_handlers@.take(i + 1) =~= self.global_signal_handlers@.take(
                        i as int,
                    ).push(self.global_signal_handlers@[i as int]));
                    i = i + 1;
                }
                assert(self.global_signal_handlers@.take(i as int) =~= self.global_signal_handlers@);
                let mut entity_handlers: Vec<(usize, Vec<EntityKey>)> = Vec::new();
                let mut j: usize = 0;
                while j < self.entity_signal_handlers.len()
                    invariant
                        j <= self.entity_signal_handlers@.len(),
                        self.wf(),
                        entity_handlers@.len() == j,
                        forall|q: int|
                            0 <= q < j ==> {
                                let b = self.entity_signal_handlers@[q];
                                &&& (#[trigger] entity_handlers@[q]).0 == b.handler
                                &&& match self.filter_manager.filters()[b.filter.0 as int].matched {
                                    Some(m) => entity_handlers@[q].1@.to_set() == crate::filter::exported_set(m),
                                    None => entity_handlers@[q].1@ == Seq::<EntityKey>::empty(),
                                }
                                &&& entity_handlers@[q].1@.no_duplicates()
                            },
                    decreases self.entity_signal_handlers@.len() - j,
                {
                    let b = self.entity_signal_handlers[j];
                    proof {
                        assert(b.filter.0 < self.filter_manager.filters().len());
                    }
                    let f = self.filter_manager.get_filter_by_key(b.filter);
                    let entities = if f.matched_entities.is_some() {
                        self.filter_manager.matched_entities(b.filter)
                    } else {
                        Vec::new()
                    };
                    entity_handlers.push((b.handler, entities));
                    j = j + 1;
                }
                let Signal { payload, cause } = signal;
                Some(SignalDelivery { payload, cause, global_handlers: global, entity_handlers })
            },
        }
    }
}


impl<V, S, M: FnOnce(V) -> V> World<V, S, M> {
    /// The data slot that the changes queued under `k` apply to: that of the
    /// committed component of `k`, when its entity is alive.
    pub open spec fn mod_target(&self, k: ComponentKey) -> Option<ComponentDataKey> {
        if is_live(self.entities(), k.entity) {
            self.mapping(k.entity.index, k.component_type)
        } else {
            None
        }
    }

    /// Whether queued changes apply to data slot `d`.
    pub open spec fn targeted(&self, d: int) -> bool {
        exists|k: ComponentKey|
            #[trigger] self.pending_mods().contains_key(k) && slot_hit(self.mod_target(k), d as int)
    }

    /// What `flush_component_modification` does: `new` is `old` after it.
    pub open spec fn flush_component_modification_done(old: &Self, new: &Self) -> bool {
        &&& new.pending_mods() == Map::<ComponentKey, Seq<ComponentModify<M>>>::empty()
        &&& new.data().len() == old.data().len()
        &&& forall|k: ComponentKey|
            #[trigger] old.pending_mods().contains_key(k) && old.mod_target(k) is Some ==> {
                let d = old.mod_target(k)->Some_0.index as int;
                &&& new.data()[d] is Some
                &&& modified_by(old.data()[d]->Some_0, old.pending_mods()[k], new.data()[d]->Some_0)
            }
        &&& forall|d: int| 0 <= d < old.data().len() && !old.targeted(d) ==> #[trigger] new.data()[d] == old.data()[d]
        &&& forall|e: EntityIndex, c: ComponentType| #[trigger] new.mapping(e, c) == old.mapping(e, c)
        &&& Self::same_entities(old, new)
        &&& new.to_commit() == old.to_commit()
        &&& new.to_destroy() == old.to_destroy()
        &&& new.to_destroy_after() == old.to_destroy_after()
        &&& new.to_delete() == old.to_delete()
        &&& new.to_delete_after() == old.to_delete_after()
        &&& new.pending_adds() == old.pending_adds()
        &&& Self::same_filters(old, new)
        &&& Self::same_config(old, new)
        &&& Self::same_signals(old, new)
    }

    /// Applies the queued changes of component values: the changes of each
    /// component (taken in some order) are applied in the order they were
    /// queued, when its entity is alive and the component committed; the
    /// others are dropped.
    pub fn flush_component_modification(&mut self)
        requires
            old(self).wf(),
        ensures
            final(self).wf(),
            Self::flush_component_modification_done(old(self), final(self)),
    {
        let entries = self.components_to_modify.take_all();
        let ghost orig = entries@;
        let ghost m0 = old(self).components_to_modify@;
        let ghost d0 = self.component_data@;
        proof {
            crate::collections::lemma_entries_to_map(orig);
        }
        let mut entries = entries;
        let n = entries.len();
        let mut i: usize = 0;
        while i < n
            invariant
                n == orig.len(),
                entries@.len() == n,
                i <= n,
                forall|j: int| i <= j < n ==> #[trigger] entries@[j] == orig[j],
                entry_keys(orig).no_duplicates(),
                entries_to_map(orig) == m0,
                forall|j: int| 0 <= j < n ==> #[trigger] entries_to_map(orig)[orig[j].0] == orig[j].1,
                forall|k: ComponentKey| #[trigger] m0.contains_key(k) <==> entry_keys(orig).contains(k),
                old(self).wf(),
                m0 == old(self).components_to_modify@,
                self.component_data.wf(),
                self.component_data@.len() == d0.len(),
                d0 == old(self).component_data@,
                self.entity_storage == old(self).entity_storage,
                self.component_mappings == old(self).component_mappings,
                self.entity_component_index == old(self).entity_component_index,
                self.entities_to_destroy == old(self).entities_to_destroy,
                self.entities_to_commit == old(self).entities_to_commit,
                self.components_to_delete == old(self).components_to_delete,
                self.components_to_add == old(self).components_to_add,
                self.components_to_modify.wf(),
                self.components_to_modify@ == Map::<ComponentKey, Vec<ComponentModify<M>>>::empty(),
                self.current_cause == old(self).current_cause,
                self.filter_manager == old(self).filter_manager,
                self.sequence == old(self).sequence,
                self.on_appear == old(self).on_appear,
                self.on_disappear == old(self).on_disappear,
                self.global_signal_handlers == old(self).global_signal_handlers,
                self.entity_signal_handlers == old(self).entity_signal_handlers,
                self.signals == old(self).signals,
                self.tx == old(self).tx,
                forall|j: int|
                    0 <= j < i && (#[trigger] old(self).mod_target(orig[j].0)) is Some ==> {
                        let d = old(self).mod_target(orig[j].0)->Some_0.index as int;
                        &&& self.component_data@[d] is Some
                        &&& modified_by(d0[d]->Some_0, orig[j].1@, self.component_data@[d]->Some_0)
                    },
                forall|x: int|
                    0 <= x < d0.len() && !(exists|j: int|
                        0 <= j < i && #[trigger] slot_hit(old(self).mod_target(orig[j].0), x as int))
                        ==> #[trigger] self.component_data@[x] == d0[x],
            decreases n - i,
        {
            let (k, mods) = take_at(&mut entries, i, Vec::new());
            let ghost ii = i as int;
            proof {
                assert(k == orig[ii].0);
                assert(entry_keys(orig)[ii] == k);
                assert(m0.contains_key(k));
            }
            let ghost before = self.component_data@;
            let mut target: Option<ComponentDataKey> = None;
            if (k.entity.index.index as usize) < self.entity_storage.slot_count() && self.entity_storage.validate(
                k.entity,
                ValidateUncommitted::AllowUncommitted,
            ).is_ok() {
                target = self.component_mappings.get(k.entity.index, k.component_type);
            }
            proof {
                assert(target == old(self).mod_target(k));
            }
            match target {
                Some(d) => {
                    proof {
                        assert(old(self).data_consistent());
                        assert((d.index as int) < d0.len() && d0[d.index as int] is Some);
                        assert(!(exists|j: int| 0 <= j < ii && #[trigger] slot_hit(old(self).mod_target(orig[j].0), d.index as int))) by {
                            if exists|j: int| 0 <= j < ii && #[trigger] slot_hit(old(self).mod_target(orig[j].0), d.index as int) {
                                let j = choose|j: int| 0 <= j < ii && #[trigger] slot_hit(old(self).mod_target(orig[j].0), d.index as int);
                                let kj = orig[j].0;
                                assert(old(self).mod_target(kj) == Some(d));
                                assert(entry_keys(orig)[j] == kj);
                                assert(m0.contains_key(kj));
                                if kj.entity.index != k.entity.index || kj.component_type != k.component_type {
                                    assert(old(self).component_mappings.mapping(kj.entity.index, kj.component_type)->Some_0
                                        != old(self).component_mappings.mapping(k.entity.index, k.component_type)->Some_0);
                                }
                                assert(kj == k);
                                assert(entry_keys(orig)[j] == entry_keys(orig)[ii]);
                            }
                        }
                        assert(before[d.index as int] == d0[d.index as int]);
                        assert(mods@ == m0[k]@);
                        assert forall|q: int, v: V| 0 <= q < mods@.len() implies #[trigger] mods@[q].callback.requires(
                            (v,),
                        ) by {
                            assert(old(self).mods_callable());
                            assert(m0[k]@[q] == mods@[q]);
                        }
                    }
                    apply_mods(&mut self.component_data, d, mods);
                    proof {
                        let after = self.component_data@;
                        assert forall|j: int|
                            0 <= j < ii + 1 && (#[trigger] old(self).mod_target(orig[j].0)) is Some implies {
                                let dd = old(self).mod_target(orig[j].0)->Some_0.index as int;
                                &&& after[dd] is Some
                                &&& modified_by(d0[dd]->Some_0, orig[j].1@, after[dd]->Some_0)
                            } by {
                            let dd = old(self).mod_target(orig[j].0)->Some_0.index as int;
                            if j < ii {
                                if dd == d.index {
                                    assert(slot_hit(old(self).mod_target(orig[j].0), d.index as int));
                                }
                                assert(after[dd] == before[dd]);
                            } else {
                                assert(orig[j].1 == mods);
                            }
                        }
                        assert forall|x: int|
                            0 <= x < d0.len() && !(exists|j: int|
                                0 <= j < ii + 1 && #[trigger] slot_hit(old(self).mod_target(orig[j].0), x as int)) implies #[trigger] after[x] == d0[x] by {
                            if x == d.index {
                                assert(slot_hit(old(self).mod_target(orig[ii].0), x as int));
                            } else {
                                assert(after[x] == before[x]);
                                assert(!(exists|j: int|
                                    0 <= j < ii && #[trigger] slot_hit(old(self).mod_target(orig[j].0), x as int))) by {
                                    if exists|j: int|
                                        0 <= j < ii && #[trigger] slot_hit(old(self).mod_target(orig[j].0), x as int) {
                                        let j = choose|j: int|
                                            0 <= j < ii && #[trigger] slot_hit(old(self).mod_target(orig[j].0), x as int);
                                        assert(0 <= j < ii + 1);
                                    }
                                }
                            }
                        }
                    }
                },
                None => {
                    proof {
                        assert forall|x: int|
                            0 <= x < d0.len() && !(exists|j: int|
                                0 <= j < ii + 1 && #[trigger] slot_hit(old(self).mod_target(orig[j].0), x as int)) implies #[trigger] self.component_data@[x] == d0[x] by {
                            assert(!(exists|j: int|
                                0 <= j < ii && #[trigger] slot_hit(old(self).mod_target(orig[j].0), x as int))) by {
                                if exists|j: int|
                                    0 <= j < ii && #[trigger] slot_hit(old(self).mod_target(orig[j].0), x as int) {
                                    let j = choose|j: int|
                                        0 <= j < ii && #[trigger] slot_hit(old(self).mod_target(orig[j].0), x as int);
                                    assert(0 <= j < ii + 1);
                                }
                            }
                        }
                    }
                },
            }
            i = i + 1;
        }
        proof {
            let new_data = self.component_data@;
            assert forall|k: ComponentKey|
                #[trigger] old(self).pending_mods().contains_key(k) && old(self).mod_target(k) is Some implies {
                    let d = old(self).mod_target(k)->Some_0.index as int;
                    &&& new_data[d] is Some
                    &&& modified_by(d0[d]->Some_0, old(self).pending_mods()[k], new_data[d]->Some_0)
                } by {
                assert(m0.contains_key(k));
                assert(entry_keys(orig).contains(k));
                let j = choose|j: int| 0 <= j < entry_keys(orig).len() && entry_keys(orig)[j] == k;
                assert(orig[j].0 == k);
                assert(orig[j].1 == m0[k]);
            }
            assert forall|x: int| 0 <= x < d0.len() && !old(self).targeted(x) implies #[trigger] new_data[x]
                == d0[x] by {
                if exists|j: int| 0 <= j < n && #[trigger] slot_hit(old(self).mod_target(orig[j].0), x as int) {
                    let j = choose|j: int| 0 <= j < n && #[trigger] slot_hit(old(self).mod_target(orig[j].0), x as int);
                    let kj = orig[j].0;
                    assert(entry_keys(orig)[j] == kj);
                    assert(old(self).pending_mods().contains_key(kj));
                    assert(old(self).targeted(x));
                }
            }
            assert(self.pending_mods() =~= Map::<ComponentKey, Seq<ComponentModify<M>>>::empty());
            assert forall|e: EntityIndex, c: ComponentType| #[trigger]
                self.component_mappings.mapping(e, c) is Some implies self.component_mappings.mapping(e, c)->Some_0.index
                < self.component_data@.len() && self.component_data@[self.component_mappings.mapping(
                e,
                c,
            )->Some_0.index as int] is Some by {
                let dd = self.component_mappings.mapping(e, c)->Some_0.index as int;
                assert(old(self).data_consistent());
                if old(self).targeted(dd) {
                    let k = choose|k: ComponentKey|
                        #[trigger] old(self).pending_mods().contains_key(k) && slot_hit(old(self).mod_target(k), dd as int);
                } else {
                    assert(new_data[dd] == d0[dd]);
                }
            }
            assert(self.data_consistent());
            assert(self.queues_in_range());
            assert(self.mods_callable());
        }
    }
}


/// What a step of the pipeline hands out.
pub enum StepOutcome<S> {
    /// The step ran inside the world, or a jump was decided.
    Done,
    /// The oldest signal for its handlers; none when no signal waited.
    Signal(Option<SignalDelivery<S>>),
    /// Disappear events for their handlers.
    Disappear(Vec<FilterEvents>),
    /// Appear events for their handlers.
    Appear(Vec<FilterEvents>),
}

impl<V, S, M: FnOnce(V) -> V> World<V, S, M> {
    /// What running the step at `cursor` does: `new` is `old` after it,
    /// `next` the cursor after it and `r` what it handed out.
    pub open spec fn step_done(old: &Self, new: &Self, cursor: usize, next: usize, r: StepOutcome<S>) -> bool {
        match standard_pipeline()[cursor as int] {
            PipelineStepImpl::Run(action) => {
                &&& next == cursor + 1
                &&& Self::action_done(action, old, new, r)
            },
            PipelineStepImpl::Goto { condition, destination_index } => {
                &&& r is Done
                &&& Self::same_state(old, new)
                &&& next == if Self::condition_holds(old, condition) {
                    destination_index
                } else {
                    (cursor + 1) as usize
                }
            },
        }
    }

    /// Whether the queue that `condition` looks at is not empty.
    pub open spec fn condition_holds(w: &Self, condition: GotoCondition) -> bool {
        match condition {
            GotoCondition::EntitiesToDestroy => w.to_destroy().dom() != Set::<InternalEntityKey>::empty(),
            GotoCondition::ComponentsToDelete => w.to_delete().dom() != Set::<ComponentKey>::empty(),
            GotoCondition::ComponentsToAdd => w.pending_adds().dom() != Set::<ComponentKey>::empty(),
            GotoCondition::Signals => w.signals().len() > 0,
        }
    }

    /// What running `action` does: `new` is `old` after it, `r` what it handed out.
    pub open spec fn action_done(action: StepAction, old: &Self, new: &Self, r: StepOutcome<S>) -> bool {
        match action {
            StepAction::InvokeSignalHandler => r matches StepOutcome::Signal(d) && Self::signal_taken(
                old,
                new,
                d,
            ),
            StepAction::ScheduleDestroyedEntitiesComponentRemoval => r is Done
                && Self::schedule_destroyed_entities_component_removal_done(old, new),
            StepAction::GenerateDisappearEvents => r is Done && Self::generate_disappear_events_done(
                old,
                new,
            ),
            StepAction::InvokeDisappearHandlers => r matches StepOutcome::Disappear(d)
                && Self::disappear_taken(old, new, d@),
            StepAction::FlushComponentRemovals => r is Done && Self::flush_component_removals_done(
                old,
                new,
            ),
            StepAction::FlushEntityDestroyActions => r is Done && Self::flush_entity_destroy_actions_done(
                old,
                new,
            ),
            StepAction::FlushEntityCreateActions => r is Done && Self::flush_entity_create_actions_done(
                old,
                new,
            ),
            StepAction::FlushComponentAddition => r is Done && Self::flush_component_addition_done(
                old,
                new,
            ),
            StepAction::FlushComponentModification => r is Done && Self::flush_component_modification_done(
                old,
                new,
            ),
            StepAction::InvokeAppearHandlers => r matches StepOutcome::Appear(d) && Self::appear_taken(
                old,
                new,
                d@,
            ),
        }
    }

    /// Whether the queue that `condition` looks at is not empty.
    fn check_condition(&self, condition: GotoCondition) -> (r: bool)
        requires
            self.wf(),
        ensures
            r == Self::condition_holds(self, condition),
    {
        match condition {
            GotoCondition::EntitiesToDestroy => {
                let r = !self.entities_to_destroy.before_disappear.is_empty();
                proof {
                    assert(self.to_destroy().dom() =~= self.entities_to_destroy.before_disappear@.dom());
                }
                r
            },
            GotoCondition::ComponentsToDelete => {
                let r = !self.components_to_delete.before_disappear.is_empty();
                proof {
                    assert(self.to_delete().dom() =~= self.components_to_delete.before_disappear@.dom());
                }
                r
            },
            GotoCondition::ComponentsToAdd => {
                let r = !self.components_to_add.is_empty();
                proof {
                    assert(self.pending_adds().dom() =~= self.components_to_add@.dom());
                }
                r
            },
            GotoCondition::Signals => self.signals.len() > 0,
        }
    }

    /// No queued addition targets a component that is already committed:
    /// committing such an addition is refused as marking a committed
    /// component committed again.
    pub open spec fn additions_unconflicted(&self) -> bool {
        forall|k: ComponentKey| #[trigger]
            self.pending_adds().contains_key(k) ==> self.mapping(k.entity.index, k.component_type) is None
    }

    /// Whether the step at `cursor` can run: the step that commits the
    /// queued additions needs them free of conflicts.
    pub open spec fn step_ready(w: &Self, cursor: int) -> bool {
        standard_pipeline()[cursor] == PipelineStepImpl::Run(StepAction::FlushComponentAddition)
            ==> w.additions_unconflicted()
    }

    /// Whether no queued addition targets an already committed component.
    pub fn additions_are_unconflicted(&self) -> (r: bool)
        requires
            self.wf(),
        ensures
            r == self.additions_unconflicted(),
    {
        let keys = self.components_to_add.keys();
        let mut i: usize = 0;
        while i < keys.len()
            invariant
                i <= keys@.len(),
                forall|k: ComponentKey| #[trigger] keys@.contains(k) <==> self.pending_adds().contains_key(k),
                self.wf(),
                forall|j: int|
                    0 <= j < i ==> self.mapping(keys@[j].entity.index, (#[trigger] keys@[j]).component_type) is None,
            decreases keys@.len() - i,
        {
            let k = keys[i];
            proof {
                assert(keys@.contains(k));
                assert(self.components_to_add@.contains_key(k));
            }
            if self.component_mappings.has_component_no_validation(k.entity.index, k.component_type) {
                proof {
                    assert(keys@.contains(k));
                }
                return false;
            }
            i = i + 1;
        }
        proof {
            assert forall|k: ComponentKey| #[trigger] self.pending_adds().contains_key(k) implies self.mapping(
                k.entity.index,
                k.component_type,
            ) is None by {
                assert(keys@.contains(k));
                let j = choose|j: int| 0 <= j < keys@.len() && keys@[j] == k;
            }
        }
        true
    }

    /// Whether the step at the cursor of `ctx` can run (see `step_ready`).
    pub fn is_step_ready(&self, ctx: &ExecutionContext) -> (r: bool)
        requires
            self.wf(),
            (ctx.cursor as int) < standard_pipeline().len(),
        ensures
            r == Self::step_ready(self, ctx.cursor as int),
    {
        assert(self.sequence@[ctx.cursor as int].callback == standard_pipeline()[ctx.cursor as int]);
        match self.sequence[ctx.cursor].callback {
            PipelineStepImpl::Run(StepAction::FlushComponentAddition) => self.additions_are_unconflicted(),
            _ => true,
        }
    }

    /// Runs the step at the cursor of `ctx` and moves the cursor on: an
    /// action runs (what handlers must run is handed out), a jump goes to its
    /// destination when its queue is not empty.
    pub fn execute_step(&mut self, ctx: &mut ExecutionContext) -> (r: StepOutcome<S>)
        requires
            old(self).wf(),
            (old(ctx).cursor as int) < standard_pipeline().len(),
            Self::step_ready(old(self), old(ctx).cursor as int),
        ensures
            final(self).wf(),
            Self::step_done(old(self), final(self), old(ctx).cursor, final(ctx).cursor, r),
    {
        assert(self.sequence@[ctx.cursor as int].callback == standard_pipeline()[ctx.cursor as int]);
        let step = self.sequence[ctx.cursor].callback;
        ctx.cursor = ctx.cursor + 1;
        match step {
            PipelineStepImpl::Run(action) => match action {
                StepAction::InvokeSignalHandler => StepOutcome::Signal(self.take_signal()),
                StepAction::ScheduleDestroyedEntitiesComponentRemoval => {
                    self.schedule_destroyed_entities_component_removal();
                    StepOutcome::Done
                },
                StepAction::GenerateDisappearEvents => {
                    self.generate_disappear_events();
                    StepOutcome::Done
                },
                StepAction::InvokeDisappearHandlers => StepOutcome::Disappear(
                    self.take_disappear_deliveries(),
                ),
                StepAction::FlushComponentRemovals => {
                    self.flush_component_removals();
                    StepOutcome::Done
                },
                StepAction::FlushEntityDestroyActions => {
                    self.flush_entity_destroy_actions();
                    StepOutcome::Done
                },
                StepAction::FlushEntityCreateActions => {
                    self.flush_entity_create_actions();
                    StepOutcome::Done
                },
                StepAction::FlushComponentAddition => {
                    self.flush_component_addition();
                    StepOutcome::Done
                },
                StepAction::FlushComponentModification => {
                    self.flush_component_modification();
                    StepOutcome::Done
                },
                StepAction::InvokeAppearHandlers => StepOutcome::Appear(self.take_appear_deliveries()),
            },
            PipelineStepImpl::Goto { condition, destination_index } => {
                if self.check_condition(condition) {
                    ctx.cursor = destination_index;
                }
                StepOutcome::Done
            },
        }
    }

    /// Number of steps of the pipeline.
    pub fn pipeline_len(&self) -> (r: usize)
        requires
            self.wf(),
        ensures
            r == standard_pipeline().len(),
    {
        self.sequence.len()
    }

    /// Ends a pipeline run: the transaction count moves on.
    pub fn finish_transaction(&mut self)
        requires
            old(self).wf(),
            old(self).tx() < u64::MAX,
        ensures
            final(self).wf(),
            final(self).tx() == old(self).tx() + 1,
            final(self).signals() == old(self).signals(),
            final(self).current_cause() == old(self).current_cause(),
            Self::same_entities(old(self), final(self)),
            Self::same_components(old(self), final(self)),
            Self::same_queues(old(self), final(self)),
            Self::same_filters(old(self), final(self)),
            Self::same_config(old(self), final(self)),
    {
        self.tx = self.tx + 1;
    }
}


impl<V, S, M: FnOnce(V) -> V> World<V, S, M> {
    /// A well-formed world has entity slots, and no more than `u32` numbers.
    pub proof fn lemma_has_slots(&self)
        requires
            self.wf(),
        ensures
            0 < self.entities().len() <= u32::MAX,
            self.component_rows().len() == self.entities().len(),
            self.all_entities_filter() matches Some(a) ==> a.0 < self.filters().len()
                && self.filters()[a.0 as int].criteria.len() == 0,
    {
        self.filter_manager.lemma_all_entities_in_range();
    }

    /// No two filters of a world have the same component types.
    pub proof fn law_filter_criteria_unique(&self, a: int, b: int)
        requires
            self.wf(),
            0 <= a < self.filters().len(),
            0 <= b < self.filters().len(),
            self.filters()[a].criteria == self.filters()[b].criteria,
        ensures
            a == b,
    {
        self.filter_manager.lemma_criteria_unique(a, b);
    }

    /// The component table lists exactly the committed components: the row
    /// of a slot holds each component type that its entity has a value for,
    /// once, and nothing else; a free slot has an empty row.
    pub proof fn law_rows_list_committed_components(&self)
        requires
            self.wf(),
        ensures
            forall|e: EntityIndex, c: ComponentType| #[trigger]
                self.component_value(e, c) is Some <==> ((e.index as int) < self.component_rows().len()
                    && self.component_rows()[e.index as int].contains(c)),
            forall|i: int|
                0 <= i < self.component_rows().len() ==> (#[trigger] self.component_rows()[i]).no_duplicates(),
            forall|i: int|
                0 <= i < self.entities().len() && !self.entities()[i].exists ==> #[trigger] self.component_rows()[i]
                    == Seq::<ComponentType>::empty(),
    {
        assert forall|e: EntityIndex, c: ComponentType| #[trigger]
            self.component_value(e, c) is Some <==> ((e.index as int) < self.component_rows().len()
                && self.component_rows()[e.index as int].contains(c)) by {
            assert(self.mapping(e, c) is Some <==> ((e.index as int) < self.component_rows().len()
                && self.component_rows()[e.index as int].contains(c)));
        }
    }

    /// Number of pipeline runs completed.
    pub fn tx_count(&self) -> (r: u64)
        ensures
            r == self.tx(),
    {
        self.tx
    }

    /// What validating `entity` answers.
    pub fn validate_entity(&self, entity: EntityKey, strategy: ValidateUncommitted) -> (r: Result<
        (),
        crate::errors::EntityError,
    >)
        requires
            self.in_range(entity),
        ensures
            r == self.validation(entity, strategy),
    {
        self.entity_storage.validate(entity.inner, strategy)
    }

    /// Number of entity slots.
    pub fn slot_count(&self) -> (r: usize)
        ensures
            r == self.entities().len(),
    {
        self.entity_storage.slot_count()
    }

    /// The slot of the entity key handed out next with `state`.
    pub closed spec fn temp_entity_slot(&self, state: TemporaryEntityKeyStorage) -> nat {
        self.entity_storage.temp_slot(state)
    }

    /// The freed slots that created entities take first, the next one last.
    pub closed spec fn free_slots(&self) -> Seq<usize> {
        self.entity_storage.holes()
    }

    /// Hands out the key that an entity created later (in the order the keys
    /// are handed out with `state`) will get; nothing is created yet.
    pub fn generate_entity_key(&self, state: &mut TemporaryEntityKeyStorage) -> (r: TempEntityKey)
        requires
            self.wf(),
            old(state).tail_allocations < u32::MAX - self.entities().len(),
        ensures
            r.inner.index.index == self.temp_entity_slot(*old(state)),
            r.inner.generation.0 == crate::keys::next_generation(
                self.slot_at(self.temp_entity_slot(*old(state)) as int).generation.0,
            ),
            !r.inner.temp,
            old(state).used_holes < self.free_slots().len() ==> {
                &&& final(state).used_holes == old(state).used_holes + 1
                &&& final(state).tail_allocations == old(state).tail_allocations
            },
            old(state).used_holes >= self.free_slots().len() ==> {
                &&& final(state).used_holes == old(state).used_holes
                &&& final(state).tail_allocations == old(state).tail_allocations + 1
            },
    {
        proof {
            self.entity_storage.lemma_boundary_bounded();
        }
        self.entity_storage.generate_temporary(state)
    }

    /// Whether `key`, handed out for an entity not created yet, is the key
    /// that the next created entity gets, and there is room for it.
    pub open spec fn fits(w: &Self, key: TempEntityKey) -> bool {
        &&& key.inner.index.index == w.next_entity_slot()
        &&& key.inner.generation.0 == crate::keys::next_generation(
            w.slot_at(key.inner.index.index as int).generation.0,
        )
        &&& !key.inner.temp
        &&& w.has_room_for_entity()
    }

    /// Creates the entity of `key` when `key` fits (see `fits`); answers
    /// whether it did.
    pub fn persist_entity(&mut self, key: TempEntityKey) -> (r: bool)
        requires
            old(self).wf(),
        ensures
            final(self).wf(),
            r == Self::fits(old(self), key),
            r ==> Self::entity_created(old(self), final(self), key.inner, old(self).current_cause()),
            !r ==> Self::same_state(old(self), final(self)),
    {
        let idx = key.inner.index.index as usize;
        let fits = idx == self.entity_storage.next_slot_index()
            && key.inner.generation.0 == self.entity_storage.generation_at(idx).to_next_generation().0
            && !key.inner.temp && self.has_room();
        if !fits {
            return false;
        }
        proof {
            self.entity_storage.lemma_boundary_bounded();
            self.entity_storage.lemma_next_slot_free();
        }
        let entity = self.entity_storage.persist_generated(key);
        self.entity_component_index.add_entity(entity.index);
        let cause = self.current_cause.share();
        queue_causes(&mut self.entities_to_commit, entity, OptTinyVec::single(cause));
        proof {
            self.lemma_entity_created_wf(old(self), entity);
        }
        true
    }

    /// Whether an entity can be created (see `has_room_for_entity`).
    pub fn has_room(&self) -> (r: bool)
        requires
            self.wf(),
        ensures
            r == self.has_room_for_entity(),
    {
        proof {
            self.entity_component_index.lemma_table_len();
        }
        let n = self.entity_storage.slot_count();
        n <= 0x7fff_ffff && self.entity_component_index.table_len_exec() <= usize::MAX / 2
    }
}

} // verus!
