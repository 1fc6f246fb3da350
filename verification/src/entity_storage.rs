use vstd::prelude::*;

use crate::errors::EntityError;
use crate::keys::next_generation;
use crate::keys::EntityGeneration;
use crate::keys::EntityIndex;
use crate::keys::EntityKey;
use crate::keys::InternalEntityKey;

verus! {

/// State of one entity slot.
#[derive(Copy, Clone, PartialEq, Eq, Structural, Debug)]
pub struct EntityBox {
    pub exists: bool,
    pub generation: EntityGeneration,
    pub committed: bool,
}

/// The value of a slot that was never used.
pub open spec fn empty_box() -> EntityBox {
    EntityBox { exists: false, generation: EntityGeneration(0), committed: false }
}

impl EntityBox {
    pub fn new() -> (r: Self)
        ensures
            r == empty_box(),
    {
        EntityBox { exists: false, generation: EntityGeneration::new(), committed: false }
    }
}

/// Whether validation accepts entities created in the running transaction.
#[derive(Copy, Clone, PartialEq, Eq, Structural, Debug)]
pub enum ValidateUncommitted {
    AllowUncommitted,
    DenyUncommitted,
}

/// What validating `key` against `slot` answers.
pub open spec fn validation_result(
    slot: EntityBox,
    key: InternalEntityKey,
    strategy: ValidateUncommitted,
) -> Result<(), EntityError> {
    if !slot.exists {
        Err(EntityError::NotExists)
    } else if strategy == ValidateUncommitted::DenyUncommitted && !slot.committed {
        Err(EntityError::NotCommitted)
    } else if slot.generation != key.generation {
        Err(EntityError::IsStale)
    } else {
        Ok(())
    }
}

/// Bookkeeping of keys handed out before they are persisted.
pub struct TemporaryEntityKeyStorage {
    pub used_holes: usize,
    pub tail_allocations: usize,
}

impl TemporaryEntityKeyStorage {
    pub fn new() -> (r: TemporaryEntityKeyStorage)
        ensures
            r.used_holes == 0,
            r.tail_allocations == 0,
    {
        TemporaryEntityKeyStorage { used_holes: 0, tail_allocations: 0 }
    }
}

/// A key handed out for an entity that is not persisted yet.
pub struct TempEntityKey {
    pub inner: InternalEntityKey,
}

/// Slots of entities with generations. A deleted slot becomes a hole and is
/// reused (most recent hole first) before the allocation boundary moves on.
pub struct EntityStorage {
    entities: Vec<EntityBox>,
    allocation_boundary: usize,
    holes: Vec<usize>,
}

impl View for EntityStorage {
    type V = Seq<EntityBox>;

    closed spec fn view(&self) -> Seq<EntityBox> {
        self.entities@
    }
}

/// Keys of the slots of `s` that hold a committed entity, in slot order.
pub open spec fn committed_keys(s: Seq<EntityBox>) -> Seq<InternalEntityKey>
    decreases s.len(),
{
    if s.len() == 0 {
        Seq::empty()
    } else {
        let last = s.last();
        let rest = committed_keys(s.drop_last());
        if last.exists && last.committed {
            rest.push(
                InternalEntityKey {
                    index: EntityIndex { index: (s.len() - 1) as u32 },
                    generation: last.generation,
                    temp: false,
                },
            )
        } else {
            rest
        }
    }
}

impl EntityStorage {
    /// Slots below the boundary that are not holes hold entities.
    pub closed spec fn boundary(&self) -> nat {
        self.allocation_boundary as nat
    }

    /// Freed slots below the boundary, the most recent last.
    pub closed spec fn holes(&self) -> Seq<usize> {
        self.holes@
    }

    pub closed spec fn wf(&self) -> bool {
        &&& self.allocation_boundary <= self.entities@.len()
        &&& self.holes@.no_duplicates()
        &&& forall|k: int|
            0 <= k < self.holes@.len() ==> #[trigger] self.holes@[k] < self.allocation_boundary
        &&& forall|i: int|
            0 <= i < self.entities@.len() ==> (#[trigger] self.entities@[i].exists <==> (i
                < self.allocation_boundary && !self.holes@.contains(i as usize)))
    }

    /// The allocation boundary never passes the end of the slots.
    pub proof fn lemma_boundary_bounded(&self)
        requires
            self.wf(),
        ensures
            self.boundary() <= self@.len(),
    {
    }

    /// The slot at `i`, or an unused slot beyond the end.
    pub open spec fn slot_at(&self, i: int) -> EntityBox {
        if 0 <= i < self@.len() {
            self@[i]
        } else {
            empty_box()
        }
    }

    /// The slot the next created entity takes.
    pub open spec fn next_slot(&self) -> nat {
        if self.holes().len() > 0 {
            self.holes().last() as nat
        } else {
            self.boundary()
        }
    }

    /// The slot that a key generated with `state` takes.
    pub open spec fn temp_slot(&self, state: TemporaryEntityKeyStorage) -> nat {
        if self.holes().len() > state.used_holes {
            self.holes()[self.holes().len() - state.used_holes - 1] as nat
        } else {
            (self.boundary() + state.tail_allocations) as nat
        }
    }

    /// `new` is `old` with slot `idx` set to `b`; other slots keep their value
    /// (slots past the old end are unused).
    pub open spec fn slot_updated(old: &EntityStorage, new: &EntityStorage, idx: int, b: EntityBox) -> bool {
        &&& new@.len() >= old@.len()
        &&& 0 <= idx < new@.len()
        &&& new@[idx] == b
        &&& forall|i: int| 0 <= i < new@.len() && i != idx ==> #[trigger] new@[i] == old.slot_at(i)
    }

    /// `new` is `old` after persisting the entity `key`.
    pub open spec fn persisted(old: &EntityStorage, new: &EntityStorage, key: InternalEntityKey) -> bool {
        &&& Self::slot_updated(
            old,
            new,
            key.index.index as int,
            EntityBox { exists: true, generation: key.generation, committed: false },
        )
        &&& (if old.holes().len() > 0 && old.holes().last() == key.index.index as usize {
            new.holes() == old.holes().drop_last() && new.boundary() == old.boundary()
        } else {
            new.holes() == old.holes() && new.boundary() == old.boundary() + 1
        })
    }

    pub fn with_capacity(initial_capacity: usize) -> (r: EntityStorage)
        ensures
            r.wf(),
            r@ == Seq::new(initial_capacity as nat, |i: int| empty_box()),
            r.boundary() == 0,
            r.holes() == Seq::<usize>::empty(),
    {
        let mut entities: Vec<EntityBox> = Vec::new();
        let mut i: usize = 0;
        while i < initial_capacity
            invariant
                i <= initial_capacity,
                entities@ == Seq::new(i as nat, |j: int| empty_box()),
            decreases initial_capacity - i,
        {
            entities.push(EntityBox::new());
            i = i + 1;
        }
        let r = EntityStorage { entities, allocation_boundary: 0, holes: Vec::new() };
        assert(r.holes@ == Seq::<usize>::empty());
        r
    }

    fn holes_pop(&self, state: &mut TemporaryEntityKeyStorage) -> (r: Option<usize>)
        ensures
            old(state).used_holes < self.holes@.len() ==> {
                &&& r == Some(self.holes@[self.holes@.len() - old(state).used_holes - 1])
                &&& final(state).used_holes == old(state).used_holes + 1
            },
            old(state).used_holes >= self.holes@.len() ==> {
                &&& r == None::<usize>
                &&& final(state).used_holes == old(state).used_holes
            },
            final(state).tail_allocations == old(state).tail_allocations,
    {
        if self.holes.len() <= state.used_holes {
            return None;
        }
        let result = self.holes[self.holes.len() - state.used_holes - 1];
        state.used_holes = state.used_holes + 1;
        Some(result)
    }

    /// Hands out the key that the next persisted entity (in the order the keys
    /// are generated with `state`) will get.
    pub fn generate_temporary(&self, state: &mut TemporaryEntityKeyStorage) -> (r: TempEntityKey)
        requires
            self.wf(),
            self.boundary() + old(state).tail_allocations < u32::MAX,
        ensures
            r.inner.index.index == self.temp_slot(*old(state)),
            r.inner.generation.0 == next_generation(
                self.slot_at(self.temp_slot(*old(state)) as int).generation.0,
            ),
            !r.inner.temp,
            old(state).used_holes < self.holes().len() ==> {
                &&& final(state).used_holes == old(state).used_holes + 1
                &&& final(state).tail_allocations == old(state).tail_allocations
            },
            old(state).used_holes >= self.holes().len() ==> {
                &&& final(state).used_holes == old(state).used_holes
                &&& final(state).tail_allocations == old(state).tail_allocations + 1
            },
    {
        let index = match self.holes_pop(state) {
            None => {
                let index = self.allocation_boundary + state.tail_allocations;
                state.tail_allocations = state.tail_allocations + 1;
                index
            },
            Some(index) => index,
        };
        let generation: EntityGeneration = if index < self.entities.len() {
            self.entities[index].generation
        } else {
            EntityGeneration::new()
        };
        let key = InternalEntityKey {
            index: EntityIndex { index: index as u32 },
            generation: generation.to_next_generation(),
            temp: false,
        };
        TempEntityKey { inner: key }
    }

    /// Doubles the number of slots; the new slots are unused.
    fn extend(&mut self)
        requires
            old(self).wf(),
            old(self)@.len() * 2 <= usize::MAX,
        ensures
            final(self).wf(),
            final(self)@.len() == old(self)@.len() * 2,
            forall|i: int| 0 <= i < final(self)@.len() ==> #[trigger] final(self)@[i] == old(self).slot_at(i),
            final(self).boundary() == old(self).boundary(),
            final(self).holes() == old(self).holes(),
    {
        let old_len = self.entities.len();
        let new_size = old_len * 2;
        let mut i: usize = old_len;
        while i < new_size
            invariant
                old_len <= i <= new_size,
                new_size == old_len * 2,
                old_len == old(self).entities@.len(),
                self.entities@.len() == i,
                self.allocation_boundary == old(self).allocation_boundary,
                self.holes@ == old(self).holes@,
                forall|j: int| 0 <= j < i ==> #[trigger] self.entities@[j] == old(self).slot_at(j),
            decreases new_size - i,
        {
            self.entities.push(EntityBox::new());
            i = i + 1;
        }
        assert forall|j: int| 0 <= j < self.entities@.len() implies (#[trigger] self.entities@[j].exists
            <==> (j < self.allocation_boundary && !self.holes@.contains(j as usize))) by {
            if j >= old(self).entities@.len() {
                if self.holes@.contains(j as usize) {
                    let k = self.holes@.index_of(j as usize);
                    assert(self.holes@[k] < self.allocation_boundary);
                }
            }
        }
    }

    /// Takes the slot of a key generated with `generate_temporary`.
    pub fn persist_generated(&mut self, input: TempEntityKey) -> (r: InternalEntityKey)
        requires
            old(self).wf(),
            (old(self).holes().len() > 0 && input.inner.index.index as usize
                == old(self).holes().last()) || input.inner.index.index == old(self).boundary(),
            input.inner.generation.0 == next_generation(
                old(self).slot_at(input.inner.index.index as int).generation.0,
            ),
            old(self)@.len() > 0,
            old(self)@.len() * 2 <= usize::MAX,
        ensures
            r == input.inner,
            final(self).wf(),
            Self::persisted(old(self), final(self), r),
            final(self)@.len() == (if (r.index.index as int) < old(self)@.len() {
                old(self)@.len()
            } else {
                old(self)@.len() * 2
            }),
    {
        let index = input.inner.index.index as usize;
        let ghost h = self.holes@;
        let ghost b = self.allocation_boundary;
        if self.holes.len() > 0 && self.holes[self.holes.len() - 1] == index {
            self.holes.pop();
            assert(self.holes@ == h.drop_last());
            assert forall|i: int| 0 <= i < self.holes@.len() implies (self.holes@[i] != index) by {
                assert(h[i] == self.holes@[i]);
                assert(h[h.len() - 1] == index);
            }
            assert(!self.holes@.contains(index));
            assert(index < b) by {
                assert(h[h.len() - 1] < b);
            }
        } else {
            assert(index == b);
            assert(!h.contains(index)) by {
                if h.contains(index) {
                    let k = h.index_of(index);
                    assert(h[k] < b);
                }
            }
            if self.entities.len() == index {
                self.extend();
            }
            assert(self.entities.len() > index);
            self.allocation_boundary = self.allocation_boundary + 1;
        }
        let ghost before = self.entities@;
        assert(forall|i: int| 0 <= i < before.len() ==> #[trigger] before[i] == old(self).slot_at(i));
        self.entities.set(
            index,
            EntityBox { exists: true, committed: false, generation: input.inner.generation },
        );
        assert forall|i: int| 0 <= i < self.entities@.len() implies (#[trigger] self.entities@[i].exists
            <==> (i < self.allocation_boundary && !self.holes@.contains(i as usize))) by {
            if i != index {
                assert(self.entities@[i] == old(self).slot_at(i));
                assert(self.holes@.contains(i as usize) <==> h.contains(i as usize)) by {
                    if h.contains(i as usize) {
                        let k = h.index_of(i as usize);
                        if self.holes@.len() < h.len() {
                            assert(k < h.len() - 1);
                            assert(self.holes@[k] == h[k]);
                        } else {
                            assert(self.holes@[k] == h[k]);
                        }
                    }
                    if self.holes@.contains(i as usize) {
                        let k = self.holes@.index_of(i as usize);
                        assert(h[k] == self.holes@[k]);
                    }
                }
                if i < old(self).entities@.len() {
                    assert(old(self).entities@[i].exists <==> (i < b && !h.contains(i as usize)));
                }
            }
        }
        assert forall|k: int| 0 <= k < self.holes@.len() implies #[trigger] self.holes@[k]
            < self.allocation_boundary by {
            assert(h[k] == self.holes@[k]);
        }
        input.inner
    }

    /// Answers whether `entity` names the entity in its slot.
    pub fn validate(
        &self,
        entity: InternalEntityKey,
        uncommitted_strategy: ValidateUncommitted,
    ) -> (r: Result<(), EntityError>)
        requires
            (entity.index.index as int) < self@.len(),
        ensures
            r == validation_result(self@[entity.index.index as int], entity, uncommitted_strategy),
    {
        let found = self.entities[entity.index.index as usize];
        if !found.exists {
            return Err(EntityError::NotExists);
        }
        if uncommitted_strategy == ValidateUncommitted::DenyUncommitted && !found.committed {
            return Err(EntityError::NotCommitted);
        }
        if found.generation != entity.generation {
            return Err(EntityError::IsStale);
        }
        Ok(())
    }

    /// Creates an entity at once.
    pub fn new_entity(&mut self) -> (r: InternalEntityKey)
        requires
            old(self).wf(),
            old(self)@.len() > 0,
            old(self)@.len() * 2 <= usize::MAX,
            old(self).boundary() < u32::MAX,
        ensures
            final(self).wf(),
            r.index.index == old(self).next_slot(),
            r.generation.0 == next_generation(old(self).slot_at(r.index.index as int).generation.0),
            !r.temp,
            !old(self).slot_at(r.index.index as int).exists,
            Self::persisted(old(self), final(self), r),
            final(self)@.len() == (if (r.index.index as int) < old(self)@.len() {
                old(self)@.len()
            } else {
                old(self)@.len() * 2
            }),
            (r.index.index as int) <= old(self)@.len(),
    {
        let mut state = TemporaryEntityKeyStorage::new();
        let key = self.generate_temporary(&mut state);
        proof {
            if self.holes@.len() > 0 {
                let k = self.holes@.len() - 1;
                assert(self.holes@[k] < self.allocation_boundary);
                assert(self.holes@.contains(self.holes@[k]));
            }
        }
        let key = self.persist_generated(key);
        key
    }

    /// The slot of the next created entity is free and inside the slots or
    /// right after them.
    pub proof fn lemma_next_slot_free(&self)
        requires
            self.wf(),
        ensures
            !self.slot_at(self.next_slot() as int).exists,
            self.next_slot() <= self@.len(),
    {
        if self.holes@.len() > 0 {
            let k = self.holes@.len() - 1;
            assert(self.holes@[k] < self.allocation_boundary);
            assert(self.holes@.contains(self.holes@[k]));
        }
    }

    /// Number of slots.
    pub fn slot_count(&self) -> (r: usize)
        ensures
            r == self@.len(),
    {
        self.entities.len()
    }

    /// The slot that the next created entity takes.
    pub fn next_slot_index(&self) -> (r: usize)
        requires
            self.wf(),
        ensures
            r == self.next_slot(),
    {
        if self.holes.len() > 0 {
            self.holes[self.holes.len() - 1]
        } else {
            self.allocation_boundary
        }
    }

    /// The generation of slot `i` (that of an unused slot beyond the end).
    pub fn generation_at(&self, i: usize) -> (r: EntityGeneration)
        ensures
            r == self.slot_at(i as int).generation,
    {
        if i < self.entities.len() {
            self.entities[i].generation
        } else {
            EntityGeneration::new()
        }
    }

    pub fn is_not_committed(&self, key: EntityIndex) -> (r: bool)
        requires
            (key.index as int) < self@.len(),
        ensures
            r == !self@[key.index as int].committed,
    {
        !self.entities[key.index as usize].committed
    }

    /// Frees the slot of an existing entity.
    pub fn delete_entity_data(&mut self, key: EntityIndex)
        requires
            old(self).wf(),
            (key.index as int) < old(self)@.len(),
            old(self)@[key.index as int].exists,
        ensures
            final(self).wf(),
            final(self)@ == old(self)@.update(
                key.index as int,
                EntityBox { exists: false, ..old(self)@[key.index as int] },
            ),
            if key.index as int == old(self).boundary() - 1 {
                &&& final(self).boundary() == old(self).boundary() - 1
                &&& final(self).holes() == old(self).holes()
            } else {
                &&& final(self).boundary() == old(self).boundary()
                &&& final(self).holes() == old(self).holes().push(key.index as usize)
            },
    {
        let key = key.index as usize;
        let b = self.entities[key];
        self.entities.set(key, EntityBox { exists: false, ..b });
        let ghost h = self.holes@;
        if key == self.allocation_boundary - 1 {
            self.allocation_boundary = self.allocation_boundary - 1;
            assert forall|k: int| 0 <= k < self.holes@.len() implies #[trigger] self.holes@[k]
                < self.allocation_boundary by {
                assert(self.holes@[k] != key);
            }
        } else {
            self.holes.push(key);
            assert(self.holes@ == h.push(key));
            assert forall|a: int, b: int|
                0 <= a < b < self.holes@.len() implies self.holes@[a] != self.holes@[b] by {
                if b == h.len() {
                    assert(h.contains(h[a]));
                }
            }
        }
        assert forall|i: int| 0 <= i < self.entities@.len() implies (#[trigger] self.entities@[i].exists
            <==> (i < self.allocation_boundary && !self.holes@.contains(i as usize))) by {
            if i != key {
                assert(self.entities@[i] == old(self).entities@[i]);
                if h.contains(i as usize) != self.holes@.contains(i as usize) {
                    if h.contains(i as usize) {
                        let k = h.index_of(i as usize);
                        assert(self.holes@[k] == i);
                    } else {
                        let k = self.holes@.index_of(i as usize);
                        assert(k == h.len());
                    }
                }
            } else {
                if i < self.allocation_boundary {
                    assert(self.holes@[self.holes@.len() - 1] == key);
                }
            }
        }
    }

    pub fn mark_committed(&mut self, entity_key: EntityIndex)
        requires
            old(self).wf(),
            (entity_key.index as int) < old(self)@.len(),
        ensures
            final(self).wf(),
            final(self).boundary() == old(self).boundary(),
            final(self).holes() == old(self).holes(),
            final(self)@ == old(self)@.update(
                entity_key.index as int,
                EntityBox { committed: true, ..old(self)@[entity_key.index as int] },
            ),
    {
        let i = entity_key.index as usize;
        let b = self.entities[i];
        self.entities.set(i, EntityBox { committed: true, ..b });
        assert forall|j: int| 0 <= j < self.entities@.len() implies (#[trigger] self.entities@[j].exists
            <==> (j < self.allocation_boundary && !self.holes@.contains(j as usize))) by {
            assert(self.entities@[j].exists == old(self).entities@[j].exists);
        }
    }

    /// Keys of all committed entities, in slot order.
    pub fn get_all(&self) -> (r: Vec<InternalEntityKey>)
        requires
            self@.len() <= u32::MAX + 1,
        ensures
            r@ == committed_keys(self@),
    {
        let mut r: Vec<InternalEntityKey> = Vec::new();
        let mut i: usize = 0;
        while i < self.entities.len()
            invariant
                i <= self.entities@.len(),
                self.entities@.len() <= u32::MAX + 1,
                r@ == committed_keys(self.entities@.take(i as int)),
            decreases self.entities@.len() - i,
        {
            let ent = self.entities[i];
            assert(self.entities@.take(i + 1).drop_last() == self.entities@.take(i as int));
            if ent.exists && ent.committed {
                r.push(
                    InternalEntityKey {
                        index: EntityIndex { index: i as u32 },
                        generation: ent.generation,
                        temp: false,
                    },
                );
            }
            i = i + 1;
        }
        assert(self.entities@.take(i as int) == self.entities@);
        r
    }
}

impl EntityKey {
    /// Checks the key against the storage and returns the internal key.
    pub fn validate(&self, entity_storage: &EntityStorage, uncommitted: ValidateUncommitted) -> (r:
        Result<InternalEntityKey, EntityError>)
        requires
            (self.inner.index.index as int) < entity_storage@.len(),
        ensures
            r == (match validation_result(
                entity_storage@[self.inner.index.index as int],
                self.inner,
                uncommitted,
            ) {
                Ok(_) => Ok(self.inner),
                Err(e) => Err(e),
            }),
    {
        match entity_storage.validate(self.inner, uncommitted) {
            Ok(_) => Ok(self.inner),
            Err(e) => Err(e),
        }
    }
}

/// An entity that was just persisted exists for validation that accepts
/// uncommitted entities, and is refused as not committed otherwise.
pub proof fn lemma_persisted_entity_is_uncommitted(
    old: EntityStorage,
    new: EntityStorage,
    key: InternalEntityKey,
)
    requires
        EntityStorage::persisted(&old, &new, key),
    ensures
        validation_result(new@[key.index.index as int], key, ValidateUncommitted::AllowUncommitted)
            == Ok::<(), EntityError>(()),
        validation_result(new@[key.index.index as int], key, ValidateUncommitted::DenyUncommitted)
            == Err::<(), EntityError>(EntityError::NotCommitted),
{
}

/// Once its slot is marked committed, a persisted entity passes every validation.
pub proof fn lemma_committed_entity_validates(
    old: EntityStorage,
    persisted: EntityStorage,
    committed: Seq<EntityBox>,
    key: InternalEntityKey,
    strategy: ValidateUncommitted,
)
    requires
        EntityStorage::persisted(&old, &persisted, key),
        committed == persisted@.update(
            key.index.index as int,
            EntityBox { committed: true, ..persisted@[key.index.index as int] },
        ),
    ensures
        validation_result(committed[key.index.index as int], key, strategy) == Ok::<
            (),
            EntityError,
        >(()),
{
}

/// After its slot is freed, a key is refused as not existing.
pub proof fn lemma_deleted_entity_not_exists(
    slots: Seq<EntityBox>,
    key: InternalEntityKey,
    strategy: ValidateUncommitted,
)
    requires
        0 <= key.index.index < slots.len(),
    ensures
        validation_result(
            slots.update(
                key.index.index as int,
                EntityBox { exists: false, ..slots[key.index.index as int] },
            )[key.index.index as int],
            key,
            strategy,
        ) == Err::<(), EntityError>(EntityError::NotExists),
{
}

/// When a freed slot is taken by a new entity, the key of the entity that
/// held the slot before is refused as stale.
pub proof fn lemma_reused_slot_makes_key_stale(
    old: EntityStorage,
    new: EntityStorage,
    previous: InternalEntityKey,
    created: InternalEntityKey,
    strategy: ValidateUncommitted,
)
    requires
        EntityStorage::persisted(&old, &new, created),
        created.index == previous.index,
        old.slot_at(previous.index.index as int).generation == previous.generation,
        created.generation.0 == next_generation(old.slot_at(created.index.index as int).generation.0),
        strategy == ValidateUncommitted::AllowUncommitted || new@[created.index.index as int].committed,
    ensures
        validation_result(new@[previous.index.index as int], previous, strategy) == Err::<
            (),
            EntityError,
        >(EntityError::IsStale),
{
}

/// A created entity never takes the slot of a key that validated before.
pub proof fn lemma_created_entity_is_fresh(
    old: EntityStorage,
    live: InternalEntityKey,
    created: InternalEntityKey,
    strategy: ValidateUncommitted,
)
    requires
        !old.slot_at(created.index.index as int).exists,
        0 <= live.index.index < old@.len(),
        validation_result(old@[live.index.index as int], live, strategy) == Ok::<(), EntityError>(()),
    ensures
        live.index != created.index,
{
}

/// Whether a slot holds a committed entity.
pub open spec fn committed_box(b: EntityBox) -> bool {
    b.exists && b.committed
}

/// The listing of committed entities holds exactly the keys of the committed
/// slots, each with the generation of its slot.
pub proof fn lemma_committed_keys_contains(s: Seq<EntityBox>)
    requires
        s.len() <= u32::MAX + 1,
    ensures
        forall|k: InternalEntityKey| #[trigger]
            committed_keys(s).contains(k) <==> {
                &&& (k.index.index as int) < s.len()
                &&& committed_box(s[k.index.index as int])
                &&& k.generation == s[k.index.index as int].generation
                &&& !k.temp
            },
    decreases s.len(),
{
    if s.len() > 0 {
        let rest = s.drop_last();
        lemma_committed_keys_contains(rest);
        let n = s.len() - 1;
        let last_key = InternalEntityKey {
            index: EntityIndex { index: n as u32 },
            generation: s.last().generation,
            temp: false,
        };
        assert forall|k: InternalEntityKey| #[trigger]
            committed_keys(s).contains(k) <==> {
                &&& (k.index.index as int) < s.len()
                &&& committed_box(s[k.index.index as int])
                &&& k.generation == s[k.index.index as int].generation
                &&& !k.temp
            } by {
            if committed_box(s.last()) {
                assert(committed_keys(s) == committed_keys(rest).push(last_key));
                if committed_keys(s).contains(k) {
                    let w = choose|w: int| 0 <= w < committed_keys(s).len() && committed_keys(s)[w] == k;
                    if w < committed_keys(rest).len() {
                        assert(committed_keys(rest)[w] == k);
                        assert(committed_keys(rest).contains(k));
                        assert(rest[k.index.index as int] == s[k.index.index as int]);
                    }
                }
                if (k.index.index as int) < s.len() && committed_box(s[k.index.index as int]) && k.generation
                    == s[k.index.index as int].generation && !k.temp {
                    if k.index.index as int == n {
                        assert(k == last_key);
                        assert(committed_keys(s)[committed_keys(rest).len() as int] == k);
                    } else {
                        assert(rest[k.index.index as int] == s[k.index.index as int]);
                        assert(committed_keys(rest).contains(k));
                        let w = choose|w: int| 0 <= w < committed_keys(rest).len() && committed_keys(rest)[w] == k;
                        assert(committed_keys(s)[w] == k);
                    }
                }
            } else {
                assert(committed_keys(s) == committed_keys(rest));
                if (k.index.index as int) < rest.len() {
                    assert(rest[k.index.index as int] == s[k.index.index as int]);
                }
            }
        }
    }
}

/// Two slot sequences that agree on which slots hold committed entities,
/// and on their generations, list the same committed entities; unused
/// slots past the end of the shorter change nothing.
pub proof fn lemma_committed_keys_same(s1: Seq<EntityBox>, s2: Seq<EntityBox>)
    requires
        s1.len() <= s2.len(),
        forall|i: int|
            0 <= i < s1.len() ==> committed_box(#[trigger] s1[i]) == committed_box(s2[i]) && (committed_box(s1[i])
                ==> s1[i].generation == s2[i].generation),
        forall|i: int| s1.len() <= i < s2.len() ==> !committed_box(#[trigger] s2[i]),
    ensures
        committed_keys(s2) == committed_keys(s1),
    decreases s2.len(),
{
    if s2.len() > s1.len() {
        assert(!committed_box(s2[s2.len() - 1]));
        lemma_committed_keys_same(s1, s2.drop_last());
    } else if s2.len() > 0 {
        assert(committed_box(s1[s1.len() - 1]) == committed_box(s2[s2.len() - 1]));
        lemma_committed_keys_same(s1.drop_last(), s2.drop_last());
    }
}

/// Persisting an entity leaves the listing of committed entities as it
/// was: the new entity is not committed yet.
pub proof fn law_persist_keeps_committed_listing(old: EntityStorage, new: EntityStorage, key: InternalEntityKey)
    requires
        old.wf(),
        (old.holes().len() > 0 && key.index.index as usize == old.holes().last()) || key.index.index
            == old.boundary(),
        EntityStorage::persisted(&old, &new, key),
    ensures
        committed_keys(new@) == committed_keys(old@),
{
    let idx = key.index.index as int;
    if idx < old@.len() {
        if old.holes().len() > 0 && key.index.index as usize == old.holes().last() {
            assert(old.holes@.contains(old.holes@[old.holes@.len() - 1]));
        }
        assert(!old@[idx].exists);
    }
    assert forall|i: int|
        0 <= i < old@.len() implies committed_box(#[trigger] old@[i]) == committed_box(new@[i]) && (committed_box(
        old@[i]) ==> old@[i].generation == new@[i].generation) by {
        if i != idx {
            assert(new@[i] == old.slot_at(i));
        }
    }
    assert forall|i: int| old@.len() <= i < new@.len() implies !committed_box(#[trigger] new@[i]) by {
        if i != idx {
            assert(new@[i] == old.slot_at(i));
        }
    }
    lemma_committed_keys_same(old@, new@);
}

/// Deleting the entity of a slot removes it from the listing of committed
/// entities and leaves every other entry.
pub proof fn law_delete_removes_from_listing(old: Seq<EntityBox>, new: Seq<EntityBox>, idx: EntityIndex)
    requires
        old.len() <= u32::MAX + 1,
        (idx.index as int) < old.len(),
        new == old.update(idx.index as int, EntityBox { exists: false, ..old[idx.index as int] }),
    ensures
        forall|k: InternalEntityKey| #[trigger]
            committed_keys(new).contains(k) <==> committed_keys(old).contains(k) && k.index != idx,
{
    lemma_committed_keys_contains(old);
    lemma_committed_keys_contains(new);
}

/// A state for generating keys against `s` that generation can reach:
/// free slots are used up before slots past the boundary.
pub open spec fn temp_state_ok(s: EntityStorage, st: TemporaryEntityKeyStorage) -> bool {
    &&& st.used_holes <= s.holes().len()
    &&& st.tail_allocations > 0 ==> st.used_holes == s.holes().len()
}

/// Generating a key keeps the state reachable and counts one more key.
pub proof fn lemma_generation_keeps_state_ok(
    s: EntityStorage,
    st0: TemporaryEntityKeyStorage,
    st1: TemporaryEntityKeyStorage,
)
    requires
        temp_state_ok(s, st0),
        st0.used_holes < s.holes().len() ==> st1.used_holes == st0.used_holes + 1 && st1.tail_allocations
            == st0.tail_allocations,
        st0.used_holes >= s.holes().len() ==> st1.used_holes == st0.used_holes && st1.tail_allocations
            == st0.tail_allocations + 1,
    ensures
        temp_state_ok(s, st1),
        st1.used_holes + st1.tail_allocations == st0.used_holes + st0.tail_allocations + 1,
{
}

/// Keys generated against the same storage, from any two reachable states
/// that counted a different number of keys, take different slots, and none
/// of them takes the slot of an existing entity: successive temporary keys
/// are distinct and come in order (free slots newest first, then the slots
/// past the boundary).
pub proof fn law_temporary_keys_are_distinct(
    s: EntityStorage,
    a: TemporaryEntityKeyStorage,
    b: TemporaryEntityKeyStorage,
)
    requires
        s.wf(),
        temp_state_ok(s, a),
        temp_state_ok(s, b),
        a.used_holes + a.tail_allocations != b.used_holes + b.tail_allocations,
    ensures
        s.temp_slot(a) != s.temp_slot(b),
        !s.slot_at(s.temp_slot(a) as int).exists,
{
    let h = s.holes@;
    if a.used_holes < h.len() {
        let ia = h.len() - a.used_holes - 1;
        assert(h.contains(h[ia]));
        if b.used_holes < h.len() {
            let ib = h.len() - b.used_holes - 1;
            assert(h[ia] != h[ib]);
        } else {
            assert(h[ia] < s.allocation_boundary);
        }
    } else {
        if b.used_holes < h.len() {
            let ib = h.len() - b.used_holes - 1;
            assert(h[ib] < s.allocation_boundary);
        }
    }
}

} // verus!
