use vstd::prelude::*;

use crate::entity_storage::TempEntityKey;
use crate::entity_storage::TemporaryEntityKeyStorage;
use crate::errors::WorldError;
use crate::keys::ComponentKey;
use crate::keys::EntityKey;
use crate::keys::InternalEntityKey;
use crate::world::World;

verus! {

/// A change that a handler asked for, applied to the world after the handler.
pub enum Change<V, S, M> {
    EntityCreate(TempEntityKey),
    EntityDestroy(InternalEntityKey),
    ComponentAdd(ComponentKey, V),
    ComponentRemove(ComponentKey),
    ComponentModify(ComponentKey, M),
    SignalSend(S),
}

/// Why applying a change buffer stopped.
#[derive(Copy, Clone, PartialEq, Eq, Structural, Debug)]
pub enum ChangeError {
    /// The world refused a removal.
    RemovalRefused(WorldError),
    /// A created entity's key is not the one the world hands out next.
    CreationOutOfOrder,
}

/// The changes a handler asked for, in order, and the bookkeeping of the
/// entity keys it was handed.
pub struct ChangeBuffer<V, S, M> {
    pub changes: Vec<Change<V, S, M>>,
    pub entity_key_generator: TemporaryEntityKeyStorage,
}

/// The user key that names exactly `key`.
pub open spec fn key_of(key: InternalEntityKey) -> EntityKey {
    EntityKey { inner: key }
}

/// `b` is the world `a` after `change` was applied. A change whose entity
/// key is outside the slots leaves the world as it is.
pub open spec fn change_applied<V, S, M: FnOnce(V) -> V>(
    a: &World<V, S, M>,
    b: &World<V, S, M>,
    change: Change<V, S, M>,
) -> bool {
    match change {
        Change::EntityCreate(t) => World::fits(a, t) && World::entity_created(
            a,
            b,
            t.inner,
            a.current_cause(),
        ),
        Change::EntityDestroy(k) => if a.in_range(key_of(k)) {
            World::destroy_effect(a, b, key_of(k))
        } else {
            World::same_state(a, b)
        },
        Change::ComponentAdd(ck, v) => if a.in_range(key_of(ck.entity)) {
            World::add_effect(a, b, key_of(ck.entity), ck.component_type, v)
        } else {
            World::same_state(a, b)
        },
        Change::ComponentRemove(ck) => if a.in_range(key_of(ck.entity)) {
            &&& World::remove_result(a, key_of(ck.entity), ck.component_type) is Ok
            &&& World::remove_effect(a, b, key_of(ck.entity), ck.component_type)
        } else {
            World::same_state(a, b)
        },
        Change::ComponentModify(ck, m) => if a.in_range(key_of(ck.entity)) {
            World::modify_effect(a, b, key_of(ck.entity), ck.component_type, m)
        } else {
            World::same_state(a, b)
        },
        Change::SignalSend(p) => World::signal_effect(a, b, p),
    }
}

/// `change` is one that `w` refuses with `e`: a removal it does not grant,
/// or a creation whose key is not the next one.
pub open spec fn change_refused<V, S, M: FnOnce(V) -> V>(
    w: &World<V, S, M>,
    change: Change<V, S, M>,
    e: ChangeError,
) -> bool {
    match e {
        ChangeError::RemovalRefused(we) => {
            &&& change matches Change::ComponentRemove(ck)
            &&& w.in_range(key_of(ck.entity))
            &&& World::remove_result(w, key_of(ck.entity), ck.component_type) == Err::<(), WorldError>(we)
        },
        ChangeError::CreationOutOfOrder => change matches Change::EntityCreate(t) && !World::fits(w, t),
    }
}

/// Every modification among `changes` accepts any value.
pub open spec fn modifications_callable<V, S, M: FnOnce(V) -> V>(changes: Seq<Change<V, S, M>>) -> bool {
    forall|i: int, v: V|
        0 <= i < changes.len() && changes[i] is ComponentModify ==> #[trigger] changes[i]->ComponentModify_1.requires(
            (v,),
        )
}

/// `states` runs from `a` to `b`, each step applying one of `changes`, in order.
pub open spec fn changes_applied<V, S, M: FnOnce(V) -> V>(
    states: Seq<World<V, S, M>>,
    changes: Seq<Change<V, S, M>>,
) -> bool {
    &&& states.len() == changes.len() + 1
    &&& forall|i: int| 0 <= i < states.len() ==> (#[trigger] states[i]).wf()
    &&& forall|i: int|
        0 <= i < changes.len() ==> change_applied(&states[i], &states[i + 1], #[trigger] changes[i])
}

impl<V, S, M: FnOnce(V) -> V> ChangeBuffer<V, S, M> {
    pub fn new(entity_key_generator: TemporaryEntityKeyStorage) -> (r: ChangeBuffer<V, S, M>)
        ensures
            r.changes@ == Seq::<Change<V, S, M>>::empty(),
            r.entity_key_generator == entity_key_generator,
    {
        ChangeBuffer { changes: Vec::new(), entity_key_generator }
    }

    /// Applies the changes to `world`, in order. A removal that the world
    /// refuses, or a creation whose key is not the next one, stops the
    /// application: the reason is returned and the changes after it are not
    /// applied.
    pub fn apply_to(self, world: &mut World<V, S, M>) -> (r: Result<(), ChangeError>)
        requires
            old(world).wf(),
            modifications_callable(self.changes@),
        ensures
            final(world).wf(),
            r is Ok ==> exists|states: Seq<World<V, S, M>>|
                #[trigger] changes_applied(states, self.changes@) && states[0] == *old(world)
                    && states.last() == *final(world),
            r matches Err(e) ==> exists|states: Seq<World<V, S, M>>, n: int|
                0 <= n < self.changes@.len() && #[trigger] changes_applied(states, self.changes@.take(n))
                    && states[0] == *old(world) && World::same_state(&states.last(), final(world))
                    && change_refused(&states.last(), self.changes@[n], e),
    {
        let ghost all = self.changes@;
        let mut rest = self.changes;
        let ghost mut states: Seq<World<V, S, M>> = seq![*world];
        let ghost mut done: int = 0;
        while rest.len() > 0
            invariant
                world.wf(),
                all == self.changes@,
                modifications_callable(all),
                0 <= done <= all.len(),
                rest@ == all.skip(done),
                states.len() == done + 1,
                states[0] == *old(world),
                states.last() == *world,
                forall|i: int| 0 <= i < states.len() ==> (#[trigger] states[i]).wf(),
                forall|i: int| 0 <= i < done ==> change_applied(&states[i], &states[i + 1], #[trigger] all[i]),
            decreases rest@.len(),
        {
            let ghost before = *world;
            let change = rest.remove(0);
            proof {
                assert(change == all[done]);
                assert(rest@ =~= all.skip(done + 1));
                assert(changes_applied(states, all.take(done))) by {
                    assert forall|i: int| 0 <= i < all.take(done).len() implies change_applied(
                        &states[i],
                        &states[i + 1],
                        #[trigger] all.take(done)[i],
                    ) by {
                        assert(all.take(done)[i] == all[i]);
                    }
                }
            }
            match change {
                Change::EntityCreate(t) => {
                    if !world.persist_entity(t) {
                        proof {
                            assert(World::same_state(&states.last(), world));
                            assert(changes_applied(states, all.take(done)));
                            assert(change_refused(&states.last(), all[done], ChangeError::CreationOutOfOrder));
                        }
                        return Err(ChangeError::CreationOutOfOrder);
                    }
                },
                Change::EntityDestroy(k) => {
                    let e = EntityKey { inner: k };
                    if (k.index.index as usize) < world.slot_count() {
                        let _ = world.destroy_entity(e);
                    }
                },
                Change::ComponentAdd(ck, v) => {
                    let e = EntityKey { inner: ck.entity };
                    if (ck.entity.index.index as usize) < world.slot_count() {
                        let _ = world.add_component(e, ck.component_type, v);
                    }
                },
                Change::ComponentRemove(ck) => {
                    let e = EntityKey { inner: ck.entity };
                    if (ck.entity.index.index as usize) < world.slot_count() {
                        match world.remove_component(e, ck.component_type) {
                            Ok(_) => {},
                            Err(err) => {
                                proof {
                                    assert(change_refused(&states.last(), all[done], ChangeError::RemovalRefused(err)));
                                    assert(World::same_state(&states.last(), world));
                                    assert(changes_applied(states, all.take(done)));
                                    assert(0 <= done < all.len());
                                }
                                return Err(ChangeError::RemovalRefused(err));
                            },
                        }
                    }
                },
                Change::ComponentModify(ck, m) => {
                    let e = EntityKey { inner: ck.entity };
                    if (ck.entity.index.index as usize) < world.slot_count() {
                        proof {
                            assert(all[done] is ComponentModify);
                        }
                        let _ = world.modify_component(e, ck.component_type, m);
                    }
                },
                Change::SignalSend(p) => {
                    world.signal(p);
                },
            }
            proof {
                assert(change_applied(&before, world, all[done]));
                let s2 = states.push(*world);
                assert forall|i: int| 0 <= i < s2.len() implies (#[trigger] s2[i]).wf() by {
                    if i < states.len() {
                        assert(s2[i] == states[i]);
                    }
                }
                assert forall|i: int| 0 <= i < done + 1 implies change_applied(
                    &s2[i],
                    &s2[i + 1],
                    #[trigger] all[i],
                ) by {
                    if i < done {
                        assert(s2[i] == states[i]);
                        assert(s2[i + 1] == states[i + 1]);
                    } else {
                        assert(s2[i] == before);
                    }
                }
                states = s2;
                done = done + 1;
            }
        }
        proof {
            assert(done == all.len());
            assert(changes_applied(states, all));
            assert(all == self.changes@);
            assert(states[0] == *old(world));
            assert(states.last() == *world);
        }
        Ok(())
    }
}

} // verus!
