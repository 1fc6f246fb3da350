use vstd::prelude::*;

use crate::cause::Cause;
use crate::cause::OptTinyVec;
use crate::collections::AssocMap;
use crate::collections::KeySet;
use crate::component::ComponentType;
use crate::component_mappings::ComponentMappingStorage;
use crate::entity_component_index::EntityComponentIndex;
use crate::entity_storage::committed_keys;
use crate::entity_storage::EntityStorage;
use crate::keys::ComponentKey;
use crate::keys::EntityIndex;
use crate::keys::EntityKey;
use crate::keys::InternalEntityKey;
use crate::keys::InternalFilterKey;
use crate::typed_index_vec::TiVec;

verus! {

/// The component types an entity must hold to match a filter.
#[derive(Copy, Clone)]
pub struct FilterDesc {
    pub component_types: &'static [ComponentType],
}

impl FilterDesc {
    pub fn new(component_types: &'static [ComponentType]) -> (r: FilterDesc)
        ensures
            r.component_types@ == component_types@,
    {
        FilterDesc { component_types }
    }

    /// Whether both descriptions list the same component types in the same order.
    pub fn same_as(&self, other: &FilterDesc) -> (r: bool)
        ensures
            r == (self.component_types@ == other.component_types@),
    {
        let a = self.component_types;
        let b = other.component_types;
        if a.len() != b.len() {
            assert(a@.len() != b@.len());
            return false;
        }
        let mut i: usize = 0;
        while i < a.len()
            invariant
                i <= a@.len(),
                a@.len() == b@.len(),
                a@ == self.component_types@,
                b@ == other.component_types@,
                forall|j: int| 0 <= j < i ==> a@[j] == b@[j],
            decreases a@.len() - i,
        {
            if a[i].index != b[i].index {
                assert(a@[i as int] != b@[i as int]);
                return false;
            }
            i = i + 1;
        }
        assert(a@ =~= b@);
        true
    }
}

/// The user key for an entity key.
pub open spec fn exported(k: InternalEntityKey) -> EntityKey {
    EntityKey { inner: InternalEntityKey { index: k.index, generation: k.generation, temp: false } }
}

/// The user keys for a set of entity keys.
pub open spec fn exported_set(s: Set<InternalEntityKey>) -> Set<EntityKey> {
    s.map(|k: InternalEntityKey| exported(k))
}

/// Whether `k` is in `v`.
fn contains_entity(v: &Vec<EntityKey>, k: EntityKey) -> (r: bool)
    ensures
        r == v@.contains(k),
{
    let mut i: usize = 0;
    while i < v.len()
        invariant
            i <= v@.len(),
            forall|j: int| 0 <= j < i ==> v@[j] != k,
        decreases v@.len() - i,
    {
        if v[i] == k {
            assert(v@[i as int] == k);
            return true;
        }
        i = i + 1;
    }
    false
}

/// Whether every type of `criteria` is in `present`.
pub open spec fn all_present(criteria: Seq<ComponentType>, present: Seq<ComponentType>) -> bool {
    forall|i: int| 0 <= i < criteria.len() ==> present.contains(#[trigger] criteria[i])
}

/// Whether `entity` has a mapping for every type of `criteria`.
pub open spec fn all_mapped(
    criteria: Seq<ComponentType>,
    mappings: &ComponentMappingStorage,
    entity: EntityIndex,
) -> bool {
    forall|i: int| 0 <= i < criteria.len() ==> (#[trigger] mappings.mapping(entity, criteria[i])) is Some
}

/// Causes per entity, as sequences.
pub open spec fn events_view(m: Map<InternalEntityKey, OptTinyVec>) -> Map<
    InternalEntityKey,
    Seq<Cause>,
> {
    Map::new(|k: InternalEntityKey| m.contains_key(k), |k: InternalEntityKey| m[k]@)
}

/// `m` with `causes` added after the causes already recorded for `entity`.
pub open spec fn with_causes(
    m: Map<InternalEntityKey, Seq<Cause>>,
    entity: InternalEntityKey,
    causes: Seq<Cause>,
) -> Map<InternalEntityKey, Seq<Cause>> {
    m.insert(
        entity,
        if m.contains_key(entity) {
            m[entity] + causes
        } else {
            causes
        },
    )
}

/// Records `causes` for `entity` after those already there.
pub fn add_causes(
    events: &mut AssocMap<InternalEntityKey, OptTinyVec>,
    entity: InternalEntityKey,
    causes: OptTinyVec,
)
    requires
        old(events).wf(),
    ensures
        final(events).wf(),
        events_view(final(events)@) == with_causes(events_view(old(events)@), entity, causes@),
{
    match events.remove(&entity) {
        Some(mut existing) => {
            existing.extend(causes);
            events.insert_new(entity, existing);
        },
        None => {
            events.insert_new(entity, causes);
        },
    }
    assert(events_view(events@) =~= with_causes(events_view(old(events)@), entity, causes@));
}

/// A filter: its criteria and what is tracked for it.
pub struct Filter {
    pub criteria: FilterDesc,
    pub unique_key: InternalFilterKey,
    pub matched_entities: Option<KeySet<InternalEntityKey>>,
    pub appear_events: Option<AssocMap<InternalEntityKey, OptTinyVec>>,
    pub disappear_events: Option<AssocMap<InternalEntityKey, OptTinyVec>>,
}

/// What a filter holds, as mathematical values.
pub ghost struct FilterView {
    pub criteria: Seq<ComponentType>,
    pub key: InternalFilterKey,
    pub matched: Option<Set<InternalEntityKey>>,
    pub appear: Option<Map<InternalEntityKey, Seq<Cause>>>,
    pub disappear: Option<Map<InternalEntityKey, Seq<Cause>>>,
}

impl View for Filter {
    type V = FilterView;

    open spec fn view(&self) -> FilterView {
        FilterView {
            criteria: self.criteria.component_types@,
            key: self.unique_key,
            matched: match self.matched_entities {
                Some(s) => Some(s@),
                None => None,
            },
            appear: match self.appear_events {
                Some(m) => Some(events_view(m@)),
                None => None,
            },
            disappear: match self.disappear_events {
                Some(m) => Some(events_view(m@)),
                None => None,
            },
        }
    }
}

/// The tracked events `m` with `causes` recorded for `entity`.
pub open spec fn events_added(
    m: Option<Map<InternalEntityKey, Seq<Cause>>>,
    entity: InternalEntityKey,
    causes: Seq<Cause>,
) -> Option<Map<InternalEntityKey, Seq<Cause>>> {
    match m {
        Some(m) => Some(with_causes(m, entity, causes)),
        None => None,
    }
}

/// The tracked set `s` with `entity` in it.
pub open spec fn matched_with(s: Option<Set<InternalEntityKey>>, entity: InternalEntityKey) -> Option<
    Set<InternalEntityKey>,
> {
    match s {
        Some(s) => Some(s.insert(entity)),
        None => None,
    }
}

/// The tracked set `s` without `entity`.
pub open spec fn matched_without(s: Option<Set<InternalEntityKey>>, entity: InternalEntityKey) -> Option<
    Set<InternalEntityKey>,
> {
    match s {
        Some(s) => Some(s.remove(entity)),
        None => None,
    }
}

/// Whether a change of a `component_type` component of an entity whose
/// component types are `row` concerns filter `f`.
pub open spec fn concerns(f: FilterView, component_type: ComponentType, row: Seq<ComponentType>) -> bool {
    f.criteria.contains(component_type) && all_present(f.criteria, row)
}

/// Filter `f` after a disappear event of a component.
pub open spec fn after_disappear(
    f: FilterView,
    change: ComponentKey,
    causes: Seq<Cause>,
    row: Seq<ComponentType>,
) -> FilterView {
    if concerns(f, change.component_type, row) {
        FilterView { disappear: events_added(f.disappear, change.entity, causes), ..f }
    } else {
        f
    }
}

/// Filter `f` after a component was added.
pub open spec fn after_component_added(
    f: FilterView,
    change: ComponentKey,
    causes: Seq<Cause>,
    row: Seq<ComponentType>,
) -> FilterView {
    if concerns(f, change.component_type, row) {
        FilterView {
            matched: matched_with(f.matched, change.entity),
            appear: events_added(f.appear, change.entity, causes),
            ..f
        }
    } else {
        f
    }
}

/// Filter `f` after a component was removed.
pub open spec fn after_component_removed(f: FilterView, change: ComponentKey) -> FilterView {
    if f.criteria.contains(change.component_type) {
        FilterView { matched: matched_without(f.matched, change.entity), ..f }
    } else {
        f
    }
}

/// The committed entities of `slots` that have every type of `criteria`.
pub open spec fn prefilled(
    criteria: Seq<ComponentType>,
    slots: Seq<crate::entity_storage::EntityBox>,
    mappings: &ComponentMappingStorage,
) -> Set<InternalEntityKey> {
    Set::new(
        |e: InternalEntityKey|
            committed_keys(slots).contains(e) && all_mapped(criteria, mappings, e.index),
    )
}

impl Filter {
    pub open spec fn wf(&self) -> bool {
        &&& (self.matched_entities matches Some(s) ==> s.wf())
        &&& (self.appear_events matches Some(m) ==> m.wf())
        &&& (self.disappear_events matches Some(m) ==> m.wf())
    }

    fn contains_type(&self, component_type: ComponentType) -> (r: bool)
        ensures
            r == self@.criteria.contains(component_type),
    {
        let types = self.criteria.component_types;
        let mut i: usize = 0;
        while i < types.len()
            invariant
                i <= types@.len(),
                types@ == self@.criteria,
                forall|j: int| 0 <= j < i ==> types@[j] != component_type,
            decreases types@.len() - i,
        {
            if types[i] == component_type {
                assert(types@.contains(component_type));
                return true;
            }
            i = i + 1;
        }
        false
    }

    fn criteria_present(&self, present: &Vec<ComponentType>) -> (r: bool)
        ensures
            r == all_present(self@.criteria, present@),
    {
        let types = self.criteria.component_types;
        let mut i: usize = 0;
        while i < types.len()
            invariant
                i <= types@.len(),
                types@ == self@.criteria,
                forall|j: int| 0 <= j < i ==> present@.contains(#[trigger] types@[j]),
            decreases types@.len() - i,
        {
            if !contains_component_type(present, types[i]) {
                return false;
            }
            i = i + 1;
        }
        true
    }

    fn criteria_mapped(&self, mappings: &ComponentMappingStorage, entity: EntityIndex) -> (r: bool)
        ensures
            r == all_mapped(self@.criteria, mappings, entity),
    {
        let types = self.criteria.component_types;
        let mut i: usize = 0;
        while i < types.len()
            invariant
                i <= types@.len(),
                types@ == self@.criteria,
                forall|j: int| 0 <= j < i ==> (#[trigger] mappings.mapping(entity, types@[j])) is Some,
            decreases types@.len() - i,
        {
            if !mappings.has_component_no_validation(entity, types[i]) {
                return false;
            }
            i = i + 1;
        }
        true
    }

    /// Starts tracking the entities that match, filled with the committed
    /// entities that match now; no change when tracking already.
    pub fn track_matched_entities(
        &mut self,
        entity_storage: &EntityStorage,
        component_mappings: &ComponentMappingStorage,
    )
        requires
            old(self).wf(),
            entity_storage@.len() <= u32::MAX + 1,
        ensures
            final(self).wf(),
            old(self).matched_entities is Some ==> final(self)@ == old(self)@,
            old(self).matched_entities is None ==> final(self)@ == (FilterView {
                matched: Some(prefilled(old(self)@.criteria, entity_storage@, component_mappings)),
                ..old(self)@
            }),
    {
        if self.matched_entities.is_none() {
            let all = entity_storage.get_all();
            let mut matched: KeySet<InternalEntityKey> = KeySet::new();
            let mut i: usize = 0;
            while i < all.len()
                invariant
                    i <= all@.len(),
                    all@ == committed_keys(entity_storage@),
                    matched.wf(),
                    matched@ == (Set::new(
                        |e: InternalEntityKey|
                            all@.take(i as int).contains(e) && all_mapped(
                                self@.criteria,
                                component_mappings,
                                e.index,
                            ),
                    )),
                decreases all@.len() - i,
            {
                let entity = all[i];
                let ghost before = matched@;
                if self.criteria_mapped(component_mappings, entity.index) {
                    matched.insert(entity);
                }
                proof {
                    assert forall|e: InternalEntityKey| #[trigger] matched@.contains(e) == (all@.take(
                        i + 1,
                    ).contains(e) && all_mapped(self@.criteria, component_mappings, e.index)) by {
                        if all@.take(i + 1).contains(e) && e != entity {
                            let j = choose|j: int| 0 <= j < i + 1 && #[trigger] all@.take(i + 1)[j] == e;
                            assert(all@.take(i as int)[j] == e);
                        }
                        if all@.take(i as int).contains(e) {
                            let j = choose|j: int| 0 <= j < i && #[trigger] all@.take(i as int)[j] == e;
                            assert(all@.take(i + 1)[j] == e);
                        }
                        assert(all@.take(i + 1)[i as int] == entity);
                    }
                    assert(matched@ =~= Set::new(
                        |e: InternalEntityKey|
                            all@.take(i + 1).contains(e) && all_mapped(
                                self@.criteria,
                                component_mappings,
                                e.index,
                            ),
                    ));
                }
                i = i + 1;
            }
            proof {
                assert(all@.take(i as int) =~= all@);
                assert(matched@ =~= prefilled(self@.criteria, entity_storage@, component_mappings));
            }
            self.matched_entities = Some(matched);
        }
    }

    /// Starts recording appear events; no change when recording already.
    pub fn track_appear_events(&mut self)
        requires
            old(self).wf(),
        ensures
            final(self).wf(),
            old(self).appear_events is Some ==> final(self)@ == old(self)@,
            old(self).appear_events is None ==> final(self)@ == (FilterView {
                appear: Some(Map::empty()),
                ..old(self)@
            }),
    {
        if self.appear_events.is_none() {
            let m: AssocMap<InternalEntityKey, OptTinyVec> = AssocMap::new();
            assert(events_view(m@) =~= Map::empty());
            self.appear_events = Some(m);
        }
    }

    /// Starts recording disappear events; no change when recording already.
    pub fn track_disappear_events(&mut self)
        requires
            old(self).wf(),
        ensures
            final(self).wf(),
            old(self).disappear_events is Some ==> final(self)@ == old(self)@,
            old(self).disappear_events is None ==> final(self)@ == (FilterView {
                disappear: Some(Map::empty()),
                ..old(self)@
            }),
    {
        if self.disappear_events.is_none() {
            let m: AssocMap<InternalEntityKey, OptTinyVec> = AssocMap::new();
            assert(events_view(m@) =~= Map::empty());
            self.disappear_events = Some(m);
        }
    }

    fn record_disappear(&mut self, entity: InternalEntityKey, causes: &OptTinyVec) -> (r:
        bool)
        requires
            old(self).wf(),
        ensures
            final(self).wf(),
            r == (old(self).disappear_events is Some),
            final(self)@ == (FilterView {
                disappear: events_added(old(self)@.disappear, entity, causes@),
                ..old(self)@
            }),
    {
        match &mut self.disappear_events {
            Some(events) => {
                add_causes(events, entity, causes.share());
                true
            },
            None => false,
        }
    }

    fn record_appear(&mut self, entity: InternalEntityKey, causes: &OptTinyVec) -> (r: bool)
        requires
            old(self).wf(),
        ensures
            final(self).wf(),
            r == (old(self).appear_events is Some),
            final(self)@ == (FilterView {
                appear: events_added(old(self)@.appear, entity, causes@),
                ..old(self)@
            }),
    {
        match &mut self.appear_events {
            Some(events) => {
                add_causes(events, entity, causes.share());
                true
            },
            None => false,
        }
    }

    fn match_entity(&mut self, entity: InternalEntityKey) -> (r: bool)
        requires
            old(self).wf(),
        ensures
            final(self).wf(),
            r == (old(self).matched_entities is Some),
            final(self)@ == (FilterView { matched: matched_with(old(self)@.matched, entity), ..old(self)@ }),
    {
        match &mut self.matched_entities {
            Some(matched) => {
                matched.insert(entity);
                true
            },
            None => false,
        }
    }

    fn unmatch_entity(&mut self, entity: InternalEntityKey)
        requires
            old(self).wf(),
        ensures
            final(self).wf(),
            final(self)@ == (FilterView {
                matched: matched_without(old(self)@.matched, entity),
                ..old(self)@
            }),
    {
        match &mut self.matched_entities {
            Some(matched) => {
                matched.remove(&entity);
            },
            None => {},
        }
    }
}

/// Whether `present` holds `component_type`.
pub fn contains_component_type(present: &Vec<ComponentType>, component_type: ComponentType) -> (r:
    bool)
    ensures
        r == present@.contains(component_type),
{
    let mut i: usize = 0;
    while i < present.len()
        invariant
            i <= present@.len(),
            forall|j: int| 0 <= j < i ==> present@[j] != component_type,
        decreases present@.len() - i,
    {
        if present[i] == component_type {
            assert(present@.contains(component_type));
            return true;
        }
        i = i + 1;
    }
    false
}

/// A change of one component, with its causes.
pub struct FilterComponentChange {
    pub component_key: ComponentKey,
    pub causes: OptTinyVec,
}

/// The filters of a world and the filters with events not handled yet.
pub struct FilterManager {
    owned: TiVec<InternalFilterKey, Filter>,
    all_entities: Option<InternalFilterKey>,
    with_new_appear_events: KeySet<InternalFilterKey>,
    with_new_disappear_events: KeySet<InternalFilterKey>,
}

impl FilterManager {
    /// The filters, by key.
    pub closed spec fn filters(&self) -> Seq<FilterView> {
        self.owned@.map_values(|f: Filter| f@)
    }

    /// The filters with appear events not handled yet.
    pub closed spec fn new_appear(&self) -> Set<InternalFilterKey> {
        self.with_new_appear_events@
    }

    /// The filters with disappear events not handled yet.
    pub closed spec fn new_disappear(&self) -> Set<InternalFilterKey> {
        self.with_new_disappear_events@
    }

    /// The filter that matches every entity, if there is one.
    pub closed spec fn all_entities_key(&self) -> Option<InternalFilterKey> {
        self.all_entities
    }

    pub closed spec fn wf(&self) -> bool {
        &&& forall|k: int|
            0 <= k < self.owned@.len() ==> (#[trigger] self.owned@[k]).wf() && self.owned@[k].unique_key
                == InternalFilterKey(k as usize)
        &&& forall|a: int, b: int|
            0 <= a < b < self.owned@.len() ==> self.owned@[a]@.criteria != self.owned@[b]@.criteria
        &&& match self.all_entities {
            Some(k) => k.0 < self.owned@.len() && self.owned@[k.0 as int]@.criteria.len() == 0,
            None => forall|k: int|
                0 <= k < self.owned@.len() ==> (#[trigger] self.owned@[k])@.criteria.len() != 0,
        }
        &&& self.with_new_appear_events.wf()
        &&& self.with_new_disappear_events.wf()
        &&& forall|k: InternalFilterKey| #[trigger]
            self.with_new_appear_events@.contains(k) ==> k.0 < self.owned@.len()
        &&& forall|k: InternalFilterKey| #[trigger]
            self.with_new_disappear_events@.contains(k) ==> k.0 < self.owned@.len()
    }

    /// The filter that matches every entity is one of the filters.
    pub proof fn lemma_all_entities_in_range(&self)
        requires
            self.wf(),
        ensures
            self.all_entities_key() matches Some(k) ==> k.0 < self.filters().len() && self.filters()[k.0 as int].criteria.len() == 0,
    {
        if self.all_entities is Some {
            assert(self.filters()[self.all_entities->Some_0.0 as int] == self.owned@[self.all_entities->Some_0.0 as int]@);
        }
    }

    /// The filters marked as having new events are filters of the manager.
    pub proof fn lemma_marked_in_range(&self)
        requires
            self.wf(),
        ensures
            forall|k: InternalFilterKey| #[trigger] self.new_appear().contains(k) ==> k.0 < self.filters().len(),
            forall|k: InternalFilterKey| #[trigger] self.new_disappear().contains(k) ==> k.0 < self.filters().len(),
    {
    }

    /// No two filters have the same criteria.
    pub proof fn lemma_criteria_unique(&self, a: int, b: int)
        requires
            self.wf(),
            0 <= a < self.filters().len(),
            0 <= b < self.filters().len(),
            self.filters()[a].criteria == self.filters()[b].criteria,
        ensures
            a == b,
    {
        assert(self.filters()[a] == self.owned@[a]@);
        assert(self.filters()[b] == self.owned@[b]@);
        if a < b {
            assert(self.owned@[a]@.criteria != self.owned@[b]@.criteria);
        } else if b < a {
            assert(self.owned@[b]@.criteria != self.owned@[a]@.criteria);
        }
    }

    pub fn new() -> (r: FilterManager)
        ensures
            r.wf(),
            r.filters() == Seq::<FilterView>::empty(),
            r.new_appear() == Set::<InternalFilterKey>::empty(),
            r.new_disappear() == Set::<InternalFilterKey>::empty(),
    {
        let r = FilterManager {
            owned: TiVec::new(),
            all_entities: None,
            with_new_appear_events: KeySet::new(),
            with_new_disappear_events: KeySet::new(),
        };
        assert(r.filters() =~= Seq::<FilterView>::empty());
        r
    }

    /// The filter with the given criteria, if there is one.
    pub fn find_filter(&self, key: FilterDesc) -> (r: Option<InternalFilterKey>)
        requires
            self.wf(),
        ensures
            match r {
                Some(k) => k.0 < self.filters().len() && self.filters()[k.0 as int].criteria
                    == key.component_types@,
                None => forall|k: int|
                    0 <= k < self.filters().len() ==> #[trigger] self.filters()[k].criteria
                        != key.component_types@,
            },
    {
        let filters = self.owned.iter();
        let mut i: usize = 0;
        while i < filters.len()
            invariant
                i <= filters@.len(),
                filters@ == self.owned@,
                forall|k: int| 0 <= k < i ==> filters@[k]@.criteria != key.component_types@,
            decreases filters@.len() - i,
        {
            if filters[i].criteria.same_as(&key) {
                return Some(InternalFilterKey(i));
            }
            i = i + 1;
        }
        None
    }

    /// The filter with the given key.
    pub fn get_filter_by_key(&self, key: InternalFilterKey) -> (r: &Filter)
        requires
            key.0 < self.filters().len(),
        ensures
            r@ == self.filters()[key.0 as int],
    {
        self.owned.get(&key).unwrap()
    }

    /// The key of the filter with the given criteria; the filter is created
    /// (tracking nothing) when there is none.
    pub fn get_filter_mut(&mut self, key: FilterDesc) -> (r: InternalFilterKey)
        requires
            old(self).wf(),
        ensures
            final(self).wf(),
            r.0 < final(self).filters().len(),
            final(self).filters()[r.0 as int].criteria == key.component_types@,
            final(self).filters()[r.0 as int].key == r,
            final(self).all_entities_key() == if key.component_types@.len() == 0 {
                Some(r)
            } else {
                old(self).all_entities_key()
            },
            final(self).new_appear() == old(self).new_appear(),
            final(self).new_disappear() == old(self).new_disappear(),
            (exists|k: int|
                0 <= k < old(self).filters().len() && #[trigger] old(self).filters()[k].criteria
                    == key.component_types@) ==> final(self).filters() == old(self).filters(),
            (forall|k: int|
                0 <= k < old(self).filters().len() ==> #[trigger] old(self).filters()[k].criteria
                    != key.component_types@) ==> {
                &&& r.0 == old(self).filters().len()
                &&& final(self).filters() == old(self).filters().push(
                    FilterView {
                        criteria: key.component_types@,
                        key: r,
                        matched: None,
                        appear: None,
                        disappear: None,
                    },
                )
            },
    {
        match self.find_filter(key) {
            Some(k) => {
                proof {
                    assert(self.filters()[k.0 as int] == self.owned@[k.0 as int]@);
                    if key.component_types@.len() == 0 {
                        match self.all_entities {
                            Some(a) => {
                                assert(self.filters()[a.0 as int] == self.owned@[a.0 as int]@);
                                assert(self.owned@[a.0 as int]@.criteria =~= key.component_types@);
                                self.lemma_criteria_unique(a.0 as int, k.0 as int);
                            },
                            None => {
                                assert(self.owned@[k.0 as int]@.criteria.len() != 0);
                            },
                        }
                    }
                }
                k
            },
            None => {
                let ghost old_owned = self.owned@;
                let make = |index: &InternalFilterKey| -> (f: Filter)
                    ensures
                        f.matched_entities is None,
                        f.appear_events is None,
                        f.disappear_events is None,
                        f.criteria == key,
                        f.unique_key == *index,
                    {
                        Filter {
                            criteria: key,
                            unique_key: *index,
                            matched_entities: None,
                            appear_events: None,
                            disappear_events: None,
                        }
                    };
                let index = self.owned.push_with_key(make);
                proof {
                    assert(self.owned@ == old_owned.push(self.owned@.last()));
                }
                if key.component_types.len() == 0 {
                    self.all_entities = Some(index);
                }
                proof {
                    assert(self.filters() =~= old(self).filters().push(
                        FilterView {
                            criteria: key.component_types@,
                            key: index,
                            matched: None,
                            appear: None,
                            disappear: None,
                        },
                    ));
                    assert forall|k: int| 0 <= k < self.owned@.len() implies (#[trigger] self.owned@[k]).wf()
                        && self.owned@[k].unique_key == InternalFilterKey(k as usize) by {
                        if k < old_owned.len() {
                            assert(self.owned@[k] == old_owned[k]);
                        }
                    }
                    assert forall|a: int, b: int|
                        0 <= a < b < self.owned@.len() implies self.owned@[a]@.criteria
                        != self.owned@[b]@.criteria by {
                        if b < old_owned.len() {
                            assert(self.owned@[a] == old_owned[a]);
                            assert(self.owned@[b] == old_owned[b]);
                        } else {
                            assert(self.owned@[a] == old_owned[a]);
                            assert(old(self).filters()[a].criteria != key.component_types@);
                        }
                    }
                    match self.all_entities {
                        Some(k) => {
                            if k != index {
                                assert(self.owned@[k.0 as int] == old_owned[k.0 as int]);
                            }
                        },
                        None => {
                            assert forall|k: int| 0 <= k < self.owned@.len() implies (#[trigger] self.owned@[k])@.criteria.len()
                                != 0 by {
                                if k < old_owned.len() {
                                    assert(self.owned@[k] == old_owned[k]);
                                }
                            }
                        },
                    }
                }
                index
            },
        }
    }


    /// Same number of filters, with the same criteria and keys.
    closed spec fn same_shape(a: Seq<FilterView>, b: Seq<FilterView>) -> bool {
        &&& a.len() == b.len()
        &&& forall|k: int|
            0 <= k < a.len() ==> (#[trigger] a[k]).criteria == b[k].criteria && a[k].key == b[k].key
    }

    proof fn lemma_wf_kept(old: &FilterManager, new: &FilterManager)
        requires
            old.wf(),
            Self::same_shape(old.filters(), new.filters()),
            new.all_entities == old.all_entities,
            forall|k: int| 0 <= k < new.owned@.len() ==> (#[trigger] new.owned@[k]).wf(),
            new.with_new_appear_events.wf(),
            new.with_new_disappear_events.wf(),
            forall|k: InternalFilterKey| #[trigger]
                new.with_new_appear_events@.contains(k) ==> k.0 < new.owned@.len(),
            forall|k: InternalFilterKey| #[trigger]
                new.with_new_disappear_events@.contains(k) ==> k.0 < new.owned@.len(),
        ensures
            new.wf(),
    {
        assert forall|k: int| 0 <= k < new.owned@.len() implies (#[trigger] new.owned@[k]).wf()
            && new.owned@[k].unique_key == InternalFilterKey(k as usize) by {
            assert(new.filters()[k] == new.owned@[k]@);
            assert(old.filters()[k] == old.owned@[k]@);
        }
        assert forall|a: int, b: int|
            0 <= a < b < new.owned@.len() implies new.owned@[a]@.criteria
            != new.owned@[b]@.criteria by {
            assert(new.filters()[a] == new.owned@[a]@);
            assert(old.filters()[a] == old.owned@[a]@);
            assert(new.filters()[b] == new.owned@[b]@);
            assert(old.filters()[b] == old.owned@[b]@);
        }
        match new.all_entities {
            Some(k) => {
                assert(new.filters()[k.0 as int] == new.owned@[k.0 as int]@);
                assert(old.filters()[k.0 as int] == old.owned@[k.0 as int]@);
            },
            None => {
                assert forall|k: int| 0 <= k < new.owned@.len() implies (#[trigger] new.owned@[k])@.criteria.len()
                    != 0 by {
                    assert(new.filters()[k] == new.owned@[k]@);
                    assert(old.filters()[k] == old.owned@[k]@);
                }
            },
        }
    }

    /// Filters that matched the entity record the disappear of a component
    /// of a type in their criteria.
    pub fn generate_disappear_events(
        &mut self,
        component: FilterComponentChange,
        entity_component_index: &EntityComponentIndex,
    )
        requires
            old(self).wf(),
            entity_component_index.wf(),
            (component.component_key.entity.index.index as int) < entity_component_index@.len(),
        ensures
            final(self).wf(),
            final(self).all_entities_key() == old(self).all_entities_key(),
            final(self).filters().len() == old(self).filters().len(),
            forall|k: int|
                0 <= k < old(self).filters().len() ==> #[trigger] final(self).filters()[k]
                    == after_disappear(
                    old(self).filters()[k],
                    component.component_key,
                    component.causes@,
                    entity_component_index@[component.component_key.entity.index.index as int],
                ),
            final(self).new_appear() == old(self).new_appear(),
            final(self).new_disappear() == old(self).new_disappear().union(
                Set::new(
                    |key: InternalFilterKey|
                        key.0 < old(self).filters().len() && concerns(
                            old(self).filters()[key.0 as int],
                            component.component_key.component_type,
                            entity_component_index@[component.component_key.entity.index.index as int],
                        ) && old(self).filters()[key.0 as int].disappear is Some,
                ),
            ),
    {
        let entity = component.component_key.entity;
        let ct = component.component_key.component_type;
        let present = entity_component_index.get_component_types(entity.index);
        let ghost row = entity_component_index@[entity.index.index as int];
        let ghost marks = Set::new(
            |key: InternalFilterKey|
                key.0 < old(self).filters().len() && concerns(old(self).filters()[key.0 as int], ct, row)
                    && old(self).filters()[key.0 as int].disappear is Some,
        );
        let n = self.owned.len();
        let mut i: usize = 0;
        while i < n
            invariant
                i <= n,
                n == old(self).owned@.len(),
                present@ == row,
                entity == component.component_key.entity,
                ct == component.component_key.component_type,
                row == entity_component_index@[entity.index.index as int],
                marks == Set::new(
                    |key: InternalFilterKey|
                        key.0 < old(self).filters().len() && concerns(old(self).filters()[key.0 as int], ct, row)
                            && old(self).filters()[key.0 as int].disappear is Some,
                ),
                self.owned@.len() == n,
                self.all_entities == old(self).all_entities,
                forall|k: int| 0 <= k < n ==> (#[trigger] self.owned@[k]).wf(),
                forall|k: int|
                    0 <= k < i ==> #[trigger] self.filters()[k] == after_disappear(
                        old(self).filters()[k],
                        component.component_key,
                        component.causes@,
                        row,
                    ),
                forall|k: int| i <= k < n ==> #[trigger] self.filters()[k] == old(self).filters()[k],
                self.with_new_appear_events == old(self).with_new_appear_events,
                self.with_new_disappear_events.wf(),
                self.with_new_disappear_events@ == old(self).with_new_disappear_events@.union(
                    Set::new(|key: InternalFilterKey| key.0 < i && marks.contains(key)),
                ),
                old(self).wf(),
            decreases n - i,
        {
            let key = InternalFilterKey(i);
            let ghost before = self.owned@;
            let ghost before_marks = self.with_new_disappear_events@;
            let ghost before_filters = self.filters();
            assert(self.filters()[i as int] == self.owned@[i as int]@);
            match self.owned.get_mut(&key) {
                Some(f) => {
                    assert(f@ == old(self).filters()[i as int]);
                    let ghost f0 = f@;
                    if f.contains_type(ct) && f.criteria_present(&present) {
                        assert(concerns(f0, ct, row));
                        let recorded = f.record_disappear(entity, &component.causes);
                        assert(f@ == FilterView { disappear: events_added(f0.disappear, entity, component.causes@), ..f0 });
                        if recorded {
                            self.with_new_disappear_events.insert(key);
                            assert(marks.contains(key));
                        } else {
                            assert(!marks.contains(key));
                        }
                    } else {
                        assert(!concerns(f0, ct, row));
                        assert(f@ == f0);
                        assert(!marks.contains(key));
                    }
                    assert(f@ == after_disappear(
                        old(self).filters()[i as int],
                        component.component_key,
                        component.causes@,
                        row,
                    ));
                },
                None => {},
            }
            proof {
                assert(self.filters()[i as int] == self.owned@[i as int]@);
                assert(self.filters()[i as int] == after_disappear(
                    old(self).filters()[i as int],
                    component.component_key,
                    component.causes@,
                    row,
                ));
                assert forall|k: int| 0 <= k < n && k != i implies #[trigger] self.filters()[k] == before_filters[k] by {
                    assert(self.owned@[k] == before[k]);
                    assert(self.filters()[k] == self.owned@[k]@);
                    assert(before_filters[k] == before[k]@);
                }
                assert(self.with_new_disappear_events@ == (if marks.contains(key) { before_marks.insert(key) } else { before_marks }));
                assert(self.with_new_disappear_events@ =~= old(self).with_new_disappear_events@.union(
                    Set::new(|key: InternalFilterKey| key.0 < i + 1 && marks.contains(key)),
                ));
            }
            i = i + 1;
        }
        proof {
            assert(self.with_new_disappear_events@ =~= old(self).with_new_disappear_events@.union(marks));
            assert(Self::same_shape(old(self).filters(), self.filters()));
            Self::lemma_wf_kept(old(self), self);
        }
    }


    /// Filters whose criteria the entity now meets match it and record an
    /// appear event, when they track these.
    pub fn on_component_added(
        &mut self,
        entity_component_index: &EntityComponentIndex,
        change: FilterComponentChange,
    )
        requires
            old(self).wf(),
            entity_component_index.wf(),
            (change.component_key.entity.index.index as int) < entity_component_index@.len(),
        ensures
            final(self).wf(),
            final(self).all_entities_key() == old(self).all_entities_key(),
            final(self).filters().len() == old(self).filters().len(),
            forall|k: int|
                0 <= k < old(self).filters().len() ==> #[trigger] final(self).filters()[k]
                    == after_component_added(
                    old(self).filters()[k],
                    change.component_key,
                    change.causes@,
                    entity_component_index@[change.component_key.entity.index.index as int],
                ),
            final(self).new_disappear() == old(self).new_disappear(),
            final(self).new_appear() == old(self).new_appear().union(
                Set::new(
                    |key: InternalFilterKey|
                        key.0 < old(self).filters().len() && concerns(
                            old(self).filters()[key.0 as int],
                            change.component_key.component_type,
                            entity_component_index@[change.component_key.entity.index.index as int],
                        ) && (old(self).filters()[key.0 as int].matched is Some || old(
                            self,
                        ).filters()[key.0 as int].appear is Some),
                ),
            ),
    {
        let entity = change.component_key.entity;
        let ct = change.component_key.component_type;
        let present = entity_component_index.get_component_types(entity.index);
        let ghost row = entity_component_index@[entity.index.index as int];
        let ghost marks = Set::new(
            |key: InternalFilterKey|
                key.0 < old(self).filters().len() && concerns(old(self).filters()[key.0 as int], ct, row)
                    && (old(self).filters()[key.0 as int].matched is Some || old(self).filters()[key.0 as int].appear is Some),
        );
        let n = self.owned.len();
        let mut i: usize = 0;
        while i < n
            invariant
                i <= n,
                n == old(self).owned@.len(),
                present@ == row,
                entity == change.component_key.entity,
                ct == change.component_key.component_type,
                row == entity_component_index@[entity.index.index as int],
                marks == Set::new(
                    |key: InternalFilterKey|
                        key.0 < old(self).filters().len() && concerns(old(self).filters()[key.0 as int], ct, row)
                            && (old(self).filters()[key.0 as int].matched is Some || old(self).filters()[key.0 as int].appear is Some),
                ),
                self.owned@.len() == n,
                self.all_entities == old(self).all_entities,
                forall|k: int| 0 <= k < n ==> (#[trigger] self.owned@[k]).wf(),
                forall|k: int|
                    0 <= k < i ==> #[trigger] self.filters()[k] == after_component_added(
                        old(self).filters()[k],
                        change.component_key,
                        change.causes@,
                        row,
                    ),
                forall|k: int| i <= k < n ==> #[trigger] self.filters()[k] == old(self).filters()[k],
                self.with_new_disappear_events == old(self).with_new_disappear_events,
                self.with_new_appear_events.wf(),
                self.with_new_appear_events@ == old(self).with_new_appear_events@.union(
                    Set::new(|key: InternalFilterKey| key.0 < i && marks.contains(key)),
                ),
                old(self).wf(),
            decreases n - i,
        {
            let key = InternalFilterKey(i);
            let ghost before = self.owned@;
            let ghost before_marks = self.with_new_appear_events@;
            let ghost before_filters = self.filters();
            assert(self.filters()[i as int] == self.owned@[i as int]@);
            match self.owned.get_mut(&key) {
                Some(f) => {
                    assert(f@ == old(self).filters()[i as int]);
                    let ghost f0 = f@;
                    if f.contains_type(ct) && f.criteria_present(&present) {
                        let matched = f.match_entity(entity);
                        let recorded = f.record_appear(entity, &change.causes);
                        if matched || recorded {
                            self.with_new_appear_events.insert(key);
                            assert(marks.contains(key));
                        } else {
                            assert(!marks.contains(key));
                        }
                    } else {
                        assert(!marks.contains(key));
                    }
                    assert(f@ == after_component_added(
                        old(self).filters()[i as int],
                        change.component_key,
                        change.causes@,
                        row,
                    ));
                },
                None => {},
            }
            proof {
                assert(self.filters()[i as int] == self.owned@[i as int]@);
                assert forall|k: int| 0 <= k < n && k != i implies #[trigger] self.filters()[k] == before_filters[k] by {
                    assert(self.owned@[k] == before[k]);
                    assert(self.filters()[k] == self.owned@[k]@);
                    assert(before_filters[k] == before[k]@);
                }
                assert(self.with_new_appear_events@ == (if marks.contains(key) { before_marks.insert(key) } else { before_marks }));
                assert(self.with_new_appear_events@ =~= old(self).with_new_appear_events@.union(
                    Set::new(|key: InternalFilterKey| key.0 < i + 1 && marks.contains(key)),
                ));
            }
            i = i + 1;
        }
        proof {
            assert(self.with_new_appear_events@ =~= old(self).with_new_appear_events@.union(marks));
            assert(Self::same_shape(old(self).filters(), self.filters()));
            Self::lemma_wf_kept(old(self), self);
        }
    }

    /// Filters with the removed type in their criteria stop matching the entity.
    pub fn on_component_removed(&mut self, change: FilterComponentChange)
        requires
            old(self).wf(),
        ensures
            final(self).wf(),
            final(self).all_entities_key() == old(self).all_entities_key(),
            final(self).filters().len() == old(self).filters().len(),
            forall|k: int|
                0 <= k < old(self).filters().len() ==> #[trigger] final(self).filters()[k]
                    == after_component_removed(old(self).filters()[k], change.component_key),
            final(self).new_appear() == old(self).new_appear(),
            final(self).new_disappear() == old(self).new_disappear(),
    {
        let entity = change.component_key.entity;
        let ct = change.component_key.component_type;
        let n = self.owned.len();
        let mut i: usize = 0;
        while i < n
            invariant
                i <= n,
                n == old(self).owned@.len(),
                entity == change.component_key.entity,
                ct == change.component_key.component_type,
                self.owned@.len() == n,
                self.all_entities == old(self).all_entities,
                forall|k: int| 0 <= k < n ==> (#[trigger] self.owned@[k]).wf(),
                forall|k: int|
                    0 <= k < i ==> #[trigger] self.filters()[k] == after_component_removed(
                        old(self).filters()[k],
                        change.component_key,
                    ),
                forall|k: int| i <= k < n ==> #[trigger] self.filters()[k] == old(self).filters()[k],
                self.with_new_disappear_events == old(self).with_new_disappear_events,
                self.with_new_appear_events == old(self).with_new_appear_events,
                old(self).wf(),
            decreases n - i,
        {
            let key = InternalFilterKey(i);
            let ghost before = self.owned@;
            let ghost before_filters = self.filters();
            assert(self.filters()[i as int] == self.owned@[i as int]@);
            match self.owned.get_mut(&key) {
                Some(f) => {
                    assert(f@ == old(self).filters()[i as int]);
                    if f.contains_type(ct) {
                        f.unmatch_entity(entity);
                    }
                    assert(f@ == after_component_removed(old(self).filters()[i as int], change.component_key));
                },
                None => {},
            }
            proof {
                assert(self.filters()[i as int] == self.owned@[i as int]@);
                assert forall|k: int| 0 <= k < n && k != i implies #[trigger] self.filters()[k] == before_filters[k] by {
                    assert(self.owned@[k] == before[k]);
                    assert(self.filters()[k] == self.owned@[k]@);
                    assert(before_filters[k] == before[k]@);
                }
            }
            i = i + 1;
        }
        proof {
            assert(Self::same_shape(old(self).filters(), self.filters()));
            Self::lemma_wf_kept(old(self), self);
        }
    }

    /// The filter that matches every entity records the disappear of `entity`.
    pub fn generate_entity_disappear_events(&mut self, entity: InternalEntityKey, causes: OptTinyVec)
        requires
            old(self).wf(),
        ensures
            final(self).wf(),
            final(self).all_entities_key() == old(self).all_entities_key(),
            final(self).new_appear() == old(self).new_appear(),
            match old(self).all_entities_key() {
                Some(k) => {
                    &&& final(self).filters() == old(self).filters().update(
                        k.0 as int,
                        FilterView {
                            disappear: events_added(old(self).filters()[k.0 as int].disappear, entity, causes@),
                            ..old(self).filters()[k.0 as int]
                        },
                    )
                    &&& final(self).new_disappear() == (if old(self).filters()[k.0 as int].disappear is Some {
                        old(self).new_disappear().insert(k)
                    } else {
                        old(self).new_disappear()
                    })
                },
                None => {
                    &&& final(self).filters() == old(self).filters()
                    &&& final(self).new_disappear() == old(self).new_disappear()
                },
            },
    {
        match self.all_entities {
            Some(key) => {
                let ghost before = self.owned@;
                assert(self.filters()[key.0 as int] == self.owned@[key.0 as int]@);
                match self.owned.get_mut(&key) {
                    Some(f) => {
                        let recorded = f.record_disappear(entity, &causes);
                        if recorded {
                            self.with_new_disappear_events.insert(key);
                        }
                    },
                    None => {},
                }
                proof {
                    assert(self.filters() =~= old(self).filters().update(
                        key.0 as int,
                        FilterView {
                            disappear: events_added(old(self).filters()[key.0 as int].disappear, entity, causes@),
                            ..old(self).filters()[key.0 as int]
                        },
                    ));
                    assert(Self::same_shape(old(self).filters(), self.filters()));
                    assert forall|k: int| 0 <= k < self.owned@.len() implies (#[trigger] self.owned@[k]).wf() by {
                        if k != key.0 {
                            assert(self.owned@[k] == before[k]);
                        }
                    }
                    Self::lemma_wf_kept(old(self), self);
                }
            },
            None => {},
        }
    }

    /// The filter that matches every entity stops matching `entity`.
    pub fn on_entity_destroyed(&mut self, entity: InternalEntityKey)
        requires
            old(self).wf(),
        ensures
            final(self).wf(),
            final(self).all_entities_key() == old(self).all_entities_key(),
            final(self).new_appear() == old(self).new_appear(),
            final(self).new_disappear() == old(self).new_disappear(),
            match old(self).all_entities_key() {
                Some(k) => final(self).filters() == old(self).filters().update(
                    k.0 as int,
                    FilterView {
                        matched: matched_without(old(self).filters()[k.0 as int].matched, entity),
                        ..old(self).filters()[k.0 as int]
                    },
                ),
                None => final(self).filters() == old(self).filters(),
            },
    {
        match self.all_entities {
            Some(key) => {
                let ghost before = self.owned@;
                assert(self.filters()[key.0 as int] == self.owned@[key.0 as int]@);
                match self.owned.get_mut(&key) {
                    Some(f) => {
                        f.unmatch_entity(entity);
                    },
                    None => {},
                }
                proof {
                    assert(self.filters() =~= old(self).filters().update(
                        key.0 as int,
                        FilterView {
                            matched: matched_without(old(self).filters()[key.0 as int].matched, entity),
                            ..old(self).filters()[key.0 as int]
                        },
                    ));
                    assert(Self::same_shape(old(self).filters(), self.filters()));
                    assert forall|k: int| 0 <= k < self.owned@.len() implies (#[trigger] self.owned@[k]).wf() by {
                        if k != key.0 {
                            assert(self.owned@[k] == before[k]);
                        }
                    }
                    Self::lemma_wf_kept(old(self), self);
                }
            },
            None => {},
        }
    }

    /// The filter that matches every entity matches `entity` and records its
    /// appear event; it is marked as having new appear events.
    pub fn on_entity_created(&mut self, entity: InternalEntityKey, causes: OptTinyVec)
        requires
            old(self).wf(),
        ensures
            final(self).wf(),
            final(self).all_entities_key() == old(self).all_entities_key(),
            final(self).new_disappear() == old(self).new_disappear(),
            match old(self).all_entities_key() {
                Some(k) => {
                    &&& final(self).filters() == old(self).filters().update(
                        k.0 as int,
                        FilterView {
                            matched: matched_with(old(self).filters()[k.0 as int].matched, entity),
                            appear: events_added(old(self).filters()[k.0 as int].appear, entity, causes@),
                            ..old(self).filters()[k.0 as int]
                        },
                    )
                    &&& final(self).new_appear() == old(self).new_appear().insert(k)
                },
                None => {
                    &&& final(self).filters() == old(self).filters()
                    &&& final(self).new_appear() == old(self).new_appear()
                },
            },
    {
        match self.all_entities {
            Some(key) => {
                let ghost before = self.owned@;
                assert(self.filters()[key.0 as int] == self.owned@[key.0 as int]@);
                match self.owned.get_mut(&key) {
                    Some(f) => {
                        f.match_entity(entity);
                        f.record_appear(entity, &causes);
                    },
                    None => {},
                }
                self.with_new_appear_events.insert(key);
                proof {
                    assert(self.filters() =~= old(self).filters().update(
                        key.0 as int,
                        FilterView {
                            matched: matched_with(old(self).filters()[key.0 as int].matched, entity),
                            appear: events_added(old(self).filters()[key.0 as int].appear, entity, causes@),
                            ..old(self).filters()[key.0 as int]
                        },
                    ));
                    assert(Self::same_shape(old(self).filters(), self.filters()));
                    assert forall|k: int| 0 <= k < self.owned@.len() implies (#[trigger] self.owned@[k]).wf() by {
                        if k != key.0 {
                            assert(self.owned@[k] == before[k]);
                        }
                    }
                    Self::lemma_wf_kept(old(self), self);
                }
            },
            None => {},
        }
    }


    /// Takes the keys of the filters with new appear events.
    pub fn take_with_new_appear_events(&mut self) -> (r: Vec<InternalFilterKey>)
        requires
            old(self).wf(),
        ensures
            final(self).wf(),
            final(self).all_entities_key() == old(self).all_entities_key(),
            final(self).filters() == old(self).filters(),
            final(self).new_appear() == Set::<InternalFilterKey>::empty(),
            final(self).new_disappear() == old(self).new_disappear(),
            r@.no_duplicates(),
            r@.to_set() == old(self).new_appear(),
    {
        self.with_new_appear_events.take_all()
    }

    /// Takes the keys of the filters with new disappear events.
    pub fn take_with_new_disappear_events(&mut self) -> (r: Vec<InternalFilterKey>)
        requires
            old(self).wf(),
        ensures
            final(self).wf(),
            final(self).all_entities_key() == old(self).all_entities_key(),
            final(self).filters() == old(self).filters(),
            final(self).new_disappear() == Set::<InternalFilterKey>::empty(),
            final(self).new_appear() == old(self).new_appear(),
            r@.no_duplicates(),
            r@.to_set() == old(self).new_disappear(),
    {
        self.with_new_disappear_events.take_all()
    }

    proof fn lemma_one_filter_changed(old: &FilterManager, new: &FilterManager, key: InternalFilterKey)
        requires
            old.wf(),
            key.0 < old.owned@.len(),
            new.owned@ == old.owned@.update(key.0 as int, new.owned@[key.0 as int]),
            new.owned@[key.0 as int].wf(),
            new.owned@[key.0 as int]@.criteria == old.owned@[key.0 as int]@.criteria,
            new.owned@[key.0 as int]@.key == old.owned@[key.0 as int]@.key,
            new.all_entities == old.all_entities,
            new.with_new_appear_events == old.with_new_appear_events,
            new.with_new_disappear_events == old.with_new_disappear_events,
        ensures
            new.wf(),
            new.filters() == old.filters().update(key.0 as int, new.owned@[key.0 as int]@),
    {
        assert(new.filters() =~= old.filters().update(key.0 as int, new.owned@[key.0 as int]@));
        assert(Self::same_shape(old.filters(), new.filters()));
        assert forall|k: int| 0 <= k < new.owned@.len() implies (#[trigger] new.owned@[k]).wf() by {}
        Self::lemma_wf_kept(old, new);
    }

    /// Makes the filter `key` track the entities that match it (filled with
    /// the committed entities that match now).
    pub fn track_matched_entities(
        &mut self,
        key: InternalFilterKey,
        entity_storage: &EntityStorage,
        component_mappings: &ComponentMappingStorage,
    )
        requires
            old(self).wf(),
            key.0 < old(self).filters().len(),
            entity_storage@.len() <= u32::MAX + 1,
        ensures
            final(self).wf(),
            final(self).all_entities_key() == old(self).all_entities_key(),
            final(self).new_appear() == old(self).new_appear(),
            final(self).new_disappear() == old(self).new_disappear(),
            final(self).filters() == old(self).filters().update(
                key.0 as int,
                if old(self).filters()[key.0 as int].matched is Some {
                    old(self).filters()[key.0 as int]
                } else {
                    FilterView {
                        matched: Some(
                            prefilled(
                                old(self).filters()[key.0 as int].criteria,
                                entity_storage@,
                                component_mappings,
                            ),
                        ),
                        ..old(self).filters()[key.0 as int]
                    }
                },
            ),
    {
        assert(self.filters()[key.0 as int] == self.owned@[key.0 as int]@);
        match self.owned.get_mut(&key) {
            Some(f) => {
                f.track_matched_entities(entity_storage, component_mappings);
            },
            None => {},
        }
        proof {
            Self::lemma_one_filter_changed(old(self), self, key);
        }
    }

    /// Makes the filter `key` record appear events.
    pub fn track_appear_events(&mut self, key: InternalFilterKey)
        requires
            old(self).wf(),
            key.0 < old(self).filters().len(),
        ensures
            final(self).wf(),
            final(self).all_entities_key() == old(self).all_entities_key(),
            final(self).new_appear() == old(self).new_appear(),
            final(self).new_disappear() == old(self).new_disappear(),
            final(self).filters() == old(self).filters().update(
                key.0 as int,
                if old(self).filters()[key.0 as int].appear is Some {
                    old(self).filters()[key.0 as int]
                } else {
                    FilterView { appear: Some(Map::empty()), ..old(self).filters()[key.0 as int] }
                },
            ),
    {
        assert(self.filters()[key.0 as int] == self.owned@[key.0 as int]@);
        match self.owned.get_mut(&key) {
            Some(f) => {
                f.track_appear_events();
            },
            None => {},
        }
        proof {
            Self::lemma_one_filter_changed(old(self), self, key);
        }
    }

    /// Makes the filter `key` record disappear events.
    pub fn track_disappear_events(&mut self, key: InternalFilterKey)
        requires
            old(self).wf(),
            key.0 < old(self).filters().len(),
        ensures
            final(self).wf(),
            final(self).all_entities_key() == old(self).all_entities_key(),
            final(self).new_appear() == old(self).new_appear(),
            final(self).new_disappear() == old(self).new_disappear(),
            final(self).filters() == old(self).filters().update(
                key.0 as int,
                if old(self).filters()[key.0 as int].disappear is Some {
                    old(self).filters()[key.0 as int]
                } else {
                    FilterView { disappear: Some(Map::empty()), ..old(self).filters()[key.0 as int] }
                },
            ),
    {
        assert(self.filters()[key.0 as int] == self.owned@[key.0 as int]@);
        match self.owned.get_mut(&key) {
            Some(f) => {
                f.track_disappear_events();
            },
            None => {},
        }
        proof {
            Self::lemma_one_filter_changed(old(self), self, key);
        }
    }

    /// Takes the appear events recorded by filter `key`; the filter keeps
    /// recording (with no events).
    pub fn take_appear_events(&mut self, key: InternalFilterKey) -> (r: Vec<(InternalEntityKey, OptTinyVec)>)
        requires
            old(self).wf(),
            key.0 < old(self).filters().len(),
        ensures
            final(self).wf(),
            final(self).all_entities_key() == old(self).all_entities_key(),
            final(self).new_appear() == old(self).new_appear(),
            final(self).new_disappear() == old(self).new_disappear(),
            crate::collections::entry_keys(r@).no_duplicates(),
            match old(self).filters()[key.0 as int].appear {
                Some(m) => {
                    &&& events_view(crate::collections::entries_to_map(r@)) == m
                    &&& final(self).filters() == old(self).filters().update(
                        key.0 as int,
                        FilterView { appear: Some(Map::empty()), ..old(self).filters()[key.0 as int] },
                    )
                },
                None => {
                    &&& r@ == Seq::<(InternalEntityKey, OptTinyVec)>::empty()
                    &&& final(self).filters() == old(self).filters()
                },
            },
    {
        assert(self.filters()[key.0 as int] == self.owned@[key.0 as int]@);
        let mut r: Vec<(InternalEntityKey, OptTinyVec)> = Vec::new();
        match self.owned.get_mut(&key) {
            Some(f) => {
                match &mut f.appear_events {
                    Some(events) => {
                        r = events.take_all();
                        assert(events_view(events@) =~= Map::empty());
                    },
                    None => {},
                }
            },
            None => {},
        }
        proof {
            assert(crate::collections::entry_keys(Seq::<(InternalEntityKey, OptTinyVec)>::empty()) =~= Seq::<InternalEntityKey>::empty());
            Self::lemma_one_filter_changed(old(self), self, key);
        }
        r
    }

    /// Takes the disappear events recorded by filter `key`; the filter keeps
    /// recording (with no events).
    pub fn take_disappear_events(&mut self, key: InternalFilterKey) -> (r: Vec<(InternalEntityKey, OptTinyVec)>)
        requires
            old(self).wf(),
            key.0 < old(self).filters().len(),
        ensures
            final(self).wf(),
            final(self).all_entities_key() == old(self).all_entities_key(),
            final(self).new_appear() == old(self).new_appear(),
            final(self).new_disappear() == old(self).new_disappear(),
            crate::collections::entry_keys(r@).no_duplicates(),
            match old(self).filters()[key.0 as int].disappear {
                Some(m) => {
                    &&& events_view(crate::collections::entries_to_map(r@)) == m
                    &&& final(self).filters() == old(self).filters().update(
                        key.0 as int,
                        FilterView { disappear: Some(Map::empty()), ..old(self).filters()[key.0 as int] },
                    )
                },
                None => {
                    &&& r@ == Seq::<(InternalEntityKey, OptTinyVec)>::empty()
                    &&& final(self).filters() == old(self).filters()
                },
            },
    {
        assert(self.filters()[key.0 as int] == self.owned@[key.0 as int]@);
        let mut r: Vec<(InternalEntityKey, OptTinyVec)> = Vec::new();
        match self.owned.get_mut(&key) {
            Some(f) => {
                match &mut f.disappear_events {
                    Some(events) => {
                        r = events.take_all();
                        assert(events_view(events@) =~= Map::empty());
                    },
                    None => {},
                }
            },
            None => {},
        }
        proof {
            assert(crate::collections::entry_keys(Seq::<(InternalEntityKey, OptTinyVec)>::empty()) =~= Seq::<InternalEntityKey>::empty());
            Self::lemma_one_filter_changed(old(self), self, key);
        }
        r
    }

    /// The user keys of the entities that the filter `key` matches, each
    /// once.
    pub fn matched_entities(&self, key: InternalFilterKey) -> (r: Vec<EntityKey>)
        requires
            self.wf(),
            key.0 < self.filters().len(),
            self.filters()[key.0 as int].matched is Some,
        ensures
            r@.to_set() == exported_set(self.filters()[key.0 as int].matched->Some_0),
            r@.no_duplicates(),
    {
        assert(self.filters()[key.0 as int] == self.owned@[key.0 as int]@);
        let f = self.owned.get(&key).unwrap();
        let items = f.matched_entities.as_ref().unwrap().as_slice();
        let mut r: Vec<EntityKey> = Vec::new();
        let mut i: usize = 0;
        while i < items.len()
            invariant
                i <= items@.len(),
                r@.no_duplicates(),
                forall|x: EntityKey|
                    #[trigger] r@.contains(x) <==> exists|j: int|
                        0 <= j < i && #[trigger] exported(items@[j]) == x,
            decreases items@.len() - i,
        {
            let k = items[i].export();
            let ghost before = r@;
            if !contains_entity(&r, k) {
                r.push(k);
                proof {
                    assert forall|a: int, b: int| 0 <= a < b < r@.len() implies r@[a] != r@[b] by {
                        if b == r@.len() - 1 {
                            assert(before.contains(r@[a]));
                        } else {
                            assert(before[a] == r@[a] && before[b] == r@[b]);
                        }
                    }
                }
            }
            proof {
                assert(k == exported(items@[i as int]));
                assert forall|x: EntityKey| #[trigger] r@.contains(x) <==> exists|j: int|
                    0 <= j < i + 1 && #[trigger] exported(items@[j]) == x by {
                    if r@.contains(x) {
                        if x == k {
                            assert(exported(items@[i as int]) == x);
                        } else {
                            let w = choose|w: int| 0 <= w < r@.len() && r@[w] == x;
                            if w < before.len() {
                                assert(before[w] == x);
                                assert(before.contains(x));
                            } else {
                                assert(r@[w] == k);
                            }
                            let j = choose|j: int| 0 <= j < i && #[trigger] exported(items@[j]) == x;
                            assert(0 <= j < i + 1 && exported(items@[j]) == x);
                        }
                    }
                    if exists|j: int| 0 <= j < i + 1 && #[trigger] exported(items@[j]) == x {
                        let j = choose|j: int| 0 <= j < i + 1 && #[trigger] exported(items@[j]) == x;
                        if j < i {
                            assert(before.contains(x));
                            let w = choose|w: int| 0 <= w < before.len() && before[w] == x;
                            assert(r@[w] == x);
                        } else {
                            assert(x == k);
                            if before.contains(k) {
                                let w = choose|w: int| 0 <= w < before.len() && before[w] == x;
                                assert(r@[w] == x);
                            } else {
                                assert(r@[r@.len() - 1] == x);
                            }
                        }
                    }
                }
            }
            i = i + 1;
        }
        proof {
            f.matched_entities->Some_0.lemma_view_is_items();
            let target = exported_set(items@.to_set());
            assert forall|x: EntityKey| #[trigger] r@.to_set().contains(x) == target.contains(x) by {
                if r@.contains(x) {
                    let j = choose|j: int| 0 <= j < items@.len() && #[trigger] exported(items@[j]) == x;
                    assert(items@.to_set().contains(items@[j]));
                }
                if target.contains(x) {
                    let y = choose|y: InternalEntityKey| items@.to_set().contains(y) && exported(y) == x;
                    let j = choose|j: int| 0 <= j < items@.len() && items@[j] == y;
                    assert(exported(items@[j]) == x);
                }
            }
            assert(r@.to_set() =~= target);
        }
        r
    }

    /// The key of the filter that matches every entity, if there is one.
    pub fn get_all_entities_filter(&self) -> (r: Option<InternalFilterKey>)
        requires
            self.wf(),
        ensures
            r == self.all_entities_key(),
            r matches Some(k) ==> k.0 < self.filters().len() && self.filters()[k.0 as int].criteria.len() == 0,
            r is None ==> forall|k: int|
                0 <= k < self.filters().len() ==> #[trigger] self.filters()[k].criteria.len() != 0,
    {
        self.all_entities
    }
}

} // verus!
