use vstd::prelude::*;

use std::collections::VecDeque;
use std::marker::PhantomData;

verus! {

/// A key into a pool: a slot number in a typed wrapper.
pub trait PoolKey: Sized {
    spec fn pool_index(&self) -> usize;

    fn as_usize(&self) -> (r: usize)
        ensures
            r == self.pool_index(),
    ;

    fn from_usize(value: usize) -> (r: Self)
        ensures
            r.pool_index() == value,
    ;
}

impl PoolKey for usize {
    open spec fn pool_index(&self) -> usize {
        *self
    }

    fn as_usize(&self) -> (r: usize) {
        *self
    }

    fn from_usize(value: usize) -> (r: Self) {
        value
    }
}

/// Values in numbered slots. A freed slot becomes a hole; holes are reused
/// first, oldest first.
pub struct SpecificPool<K, V> {
    pd: PhantomData<K>,
    buffer: Vec<Option<V>>,
    holes: VecDeque<usize>,
}

impl<K: PoolKey, V> View for SpecificPool<K, V> {
    type V = Seq<Option<V>>;

    closed spec fn view(&self) -> Seq<Option<V>> {
        self.buffer@
    }
}

impl<K: PoolKey, V> SpecificPool<K, V> {
    /// Free slots, the one reused next first.
    pub closed spec fn holes(&self) -> Seq<usize> {
        self.holes@
    }

    pub closed spec fn wf(&self) -> bool {
        &&& self.holes@.no_duplicates()
        &&& forall|k: int|
            0 <= k < self.holes@.len() ==> #[trigger] self.holes@[k] < self.buffer@.len()
        &&& forall|i: int|
            0 <= i < self.buffer@.len() ==> (#[trigger] self.buffer@[i] is None
                <==> self.holes@.contains(i as usize))
    }

    /// The slot that the next added value takes.
    pub open spec fn next_slot(&self) -> nat {
        if self.holes().len() > 0 {
            self.holes()[0] as nat
        } else {
            self@.len()
        }
    }

    /// What `add(value)` does: `new` is `old` after it, `r` the key it returned.
    pub open spec fn add_done(old: &Self, new: &Self, r: K, value: V) -> bool {
        &&& r.pool_index() == old.next_slot()
        &&& old.next_slot() <= old@.len()
        &&& old.next_slot() < old@.len() ==> {
            &&& old@[old.next_slot() as int] is None
            &&& new@ == old@.update(old.next_slot() as int, Some(value))
            &&& new.holes() == old.holes().drop_first()
        }
        &&& old.next_slot() == old@.len() ==> {
            &&& new@ == old@.push(Some(value))
            &&& new.holes() == old.holes()
        }
    }

    /// What `del(key)` does: `new` is `old` after it.
    pub open spec fn del_done(old: &Self, new: &Self, key: K) -> bool {
        &&& old@[key.pool_index() as int] is None ==> {
            &&& new@ == old@
            &&& new.holes() == old.holes()
        }
        &&& old@[key.pool_index() as int] is Some && key.pool_index() == old@.len() - 1 ==> {
            &&& new@ == old@.drop_last()
            &&& new.holes() == old.holes()
        }
        &&& old@[key.pool_index() as int] is Some && key.pool_index() < old@.len() - 1 ==> {
            &&& new@ == old@.update(key.pool_index() as int, None)
            &&& new.holes() == old.holes().push(key.pool_index())
        }
    }

    pub fn new() -> (r: Self)
        ensures
            r.wf(),
            r@ == Seq::<Option<V>>::empty(),
            r.holes() == Seq::<usize>::empty(),
    {
        SpecificPool { pd: PhantomData, buffer: Vec::new(), holes: VecDeque::new() }
    }

    /// Stores `value` in a free slot and returns its key.
    pub fn add(&mut self, value: V) -> (r: K)
        requires
            old(self).wf(),
        ensures
            final(self).wf(),
            Self::add_done(old(self), final(self), r, value),
    {
        let ghost h = self.holes@;
        let index = match self.holes.pop_front() {
            None => {
                self.buffer.push(Some(value));
                let idx = self.buffer.len() - 1;
                proof {
                    assert forall|i: int| 0 <= i < self.buffer@.len() implies (
                    #[trigger] self.buffer@[i] is None <==> self.holes@.contains(i as usize)) by {
                        if i < old(self).buffer@.len() {
                            assert(self.buffer@[i] == old(self).buffer@[i]);
                        }
                    }
                    assert forall|k: int| 0 <= k < self.holes@.len() implies #[trigger] self.holes@[k]
                        < self.buffer@.len() by {}
                }
                idx
            },
            Some(index) => {
                proof {
                    assert(h[0] == index);
                    assert(self.holes@ == h.drop_first());
                    assert(h.contains(index));
                }
                self.buffer.set(index, Some(value));
                let _len = self.buffer.len();
                proof {
                    assert forall|k: int| 0 <= k < self.holes@.len() implies self.holes@[k] != index by {
                        assert(self.holes@[k] == h[k + 1]);
                    }
                    assert forall|i: int| 0 <= i < self.buffer@.len() implies (
                    #[trigger] self.buffer@[i] is None <==> self.holes@.contains(i as usize)) by {
                        if i != index {
                            assert(self.buffer@[i] == old(self).buffer@[i]);
                            if h.contains(i as usize) {
                                let k = choose|k: int| 0 <= k < h.len() && h[k] == i as usize;
                                assert(k != 0);
                                assert(self.holes@[k - 1] == i);
                            }
                            if self.holes@.contains(i as usize) {
                                let k = self.holes@.index_of(i as usize);
                                assert(h[k + 1] == i);
                            }
                        } else {
                            if self.holes@.contains(i as usize) {
                                let k = self.holes@.index_of(i as usize);
                                assert(self.holes@[k] != index);
                            }
                        }
                    }
                    assert forall|k: int| 0 <= k < self.holes@.len() implies #[trigger] self.holes@[k]
                        < self.buffer@.len() by {
                        assert(self.holes@[k] == h[k + 1]);
                    }
                }
                index
            },
        };
        K::from_usize(index)
    }

    /// The value in the slot of `key`, if any.
    pub fn get(&self, key: &K) -> (r: Option<&V>)
        ensures
            r == (if (key.pool_index() as int) < self@.len() {
                match self@[key.pool_index() as int] {
                    Some(v) => Some(&v),
                    None => None,
                }
            } else {
                None
            }),
    {
        let index = key.as_usize();
        if index < self.buffer.len() {
            match &self.buffer[index] {
                Some(v) => Some(v),
                None => None,
            }
        } else {
            None
        }
    }

    /// Takes the value out of the slot of `key`: an occupied slot is freed
    /// (the last slot is dropped instead of becoming a hole); a free slot
    /// gives nothing and the pool stays as it is.
    pub fn del_and_get(&mut self, key: &K) -> (r: Option<V>)
        requires
            old(self).wf(),
            (key.pool_index() as int) < old(self)@.len(),
        ensures
            final(self).wf(),
            r == old(self)@[key.pool_index() as int],
            Self::del_done(old(self), final(self), *key),
    {
        let index = key.as_usize();
        if self.buffer[index].is_none() {
            return None;
        }
        let ghost h = self.holes@;
        proof {
            if h.contains(index) {
                let k = h.index_of(index);
                assert(self.buffer@[index as int] is None);
            }
        }
        if index == self.buffer.len() - 1 {
            let v = self.buffer.pop().unwrap();
            proof {
                assert forall|k: int| 0 <= k < self.holes@.len() implies #[trigger] self.holes@[k]
                    < self.buffer@.len() by {
                    assert(self.holes@[k] != index);
                }
                assert forall|i: int| 0 <= i < self.buffer@.len() implies (
                #[trigger] self.buffer@[i] is None <==> self.holes@.contains(i as usize)) by {
                    assert(self.buffer@[i] == old(self).buffer@[i]);
                }
            }
            v
        } else {
            let taken = self.take_slot(index);
            self.holes.push_back(index);
            proof {
                assert(self.holes@ == h.push(index));
                assert forall|a: int, b: int|
                    0 <= a < b < self.holes@.len() implies self.holes@[a] != self.holes@[b] by {
                    if b == h.len() {
                        assert(h.contains(h[a]));
                    }
                }
                assert forall|i: int| 0 <= i < self.buffer@.len() implies (
                #[trigger] self.buffer@[i] is None <==> self.holes@.contains(i as usize)) by {
                    if i != index {
                        assert(self.buffer@[i] == old(self).buffer@[i]);
                        if h.contains(i as usize) {
                            let k = h.index_of(i as usize);
                            assert(self.holes@[k] == i);
                        }
                        if self.holes@.contains(i as usize) {
                            let k = self.holes@.index_of(i as usize);
                            assert(k < h.len());
                            assert(h[k] == i);
                        }
                    } else {
                        assert(self.holes@[self.holes@.len() - 1] == index);
                    }
                }
                assert forall|k: int| 0 <= k < self.holes@.len() implies #[trigger] self.holes@[k]
                    < self.buffer@.len() by {
                    if k < h.len() {
                        assert(self.holes@[k] == h[k]);
                    }
                }
            }
            taken
        }
    }

    /// The value in the slot of `key`, if any, for changing it in place.
    pub fn get_mut(&mut self, key: &K) -> (r: Option<&mut V>)
        requires
            old(self).wf(),
        ensures
            final(self).wf(),
            final(self).holes() == old(self).holes(),
            match r {
                Some(m) => {
                    &&& (key.pool_index() as int) < old(self)@.len()
                    &&& old(self)@[key.pool_index() as int] == Some(*m)
                    &&& final(self)@ == old(self)@.update(key.pool_index() as int, Some(*final(m)))
                },
                None => {
                    &&& !((key.pool_index() as int) < old(self)@.len() && old(self)@[key.pool_index() as int] is Some)
                    &&& final(self)@ == old(self)@
                },
            },
    {
        let index = key.as_usize();
        if index < self.buffer.len() {
            match &mut self.buffer[index] {
                Some(v) => Some(v),
                None => None,
            }
        } else {
            None
        }
    }

    /// Frees the slot of `key`, dropping its value; a free slot stays free.
    pub fn del(&mut self, key: &K)
        requires
            old(self).wf(),
            (key.pool_index() as int) < old(self)@.len(),
        ensures
            final(self).wf(),
            Self::del_done(old(self), final(self), *key),
    {
        let _ = self.del_and_get(key);
    }

    /// Replaces the value in the occupied slot of `key` with `f` applied to
    /// it; answers whether the slot was occupied.
    pub fn update<F: FnOnce(V) -> V>(&mut self, key: &K, f: F) -> (r: bool)
        requires
            old(self).wf(),
            forall|v: V| f.requires((v,)),
        ensures
            final(self).wf(),
            final(self).holes() == old(self).holes(),
            r == ((key.pool_index() as int) < old(self)@.len() && old(self)@[key.pool_index() as int] is Some),
            r ==> {
                &&& final(self)@ == old(self)@.update(key.pool_index() as int, final(self)@[key.pool_index() as int])
                &&& final(self)@[key.pool_index() as int] is Some
                &&& f.ensures(
                    (old(self)@[key.pool_index() as int]->Some_0,),
                    final(self)@[key.pool_index() as int]->Some_0,
                )
            },
            !r ==> final(self)@ == old(self)@,
    {
        let index = key.as_usize();
        if index < self.buffer.len() {
            let mut slot: Option<V> = None;
            std::mem::swap(&mut self.buffer[index], &mut slot);
            match slot {
                Some(v) => {
                    let w = f(v);
                    self.buffer.set(index, Some(w));
                    proof {
                        assert forall|i: int| 0 <= i < self.buffer@.len() implies (
                        #[trigger] self.buffer@[i] is None <==> self.holes@.contains(i as usize)) by {
                            if i != index {
                                assert(self.buffer@[i] == old(self).buffer@[i]);
                            }
                        }
                    }
                    true
                },
                None => {
                    assert(self.buffer@ =~= old(self).buffer@);
                    false
                },
            }
        } else {
            false
        }
    }

    /// Empties the slot at `index` and returns what it held.
    fn take_slot(&mut self, index: usize) -> (r: Option<V>)
        requires
            index < old(self)@.len(),
        ensures
            r == old(self)@[index as int],
            final(self)@ == old(self)@.update(index as int, None),
            final(self).holes@ == old(self).holes@,
    {
        let mut out: Option<V> = None;
        std::mem::swap(&mut self.buffer[index], &mut out);
        out
    }

    /// Drops every value and every hole.
    pub fn clear(&mut self)
        ensures
            final(self).wf(),
            final(self)@ == Seq::<Option<V>>::empty(),
            final(self).holes() == Seq::<usize>::empty(),
    {
        self.holes.clear();
        self.buffer.clear();
    }
}


/// Moves values from a pool with keys `KS` to a pool with keys `KD`.
pub struct SpecificPoolPump<KS, KD, V> {
    pd: PhantomData<(KS, KD, V)>,
}

impl<KS: PoolKey, KD: PoolKey, V> SpecificPoolPump<KS, KD, V> {
    pub fn new() -> (r: Self) {
        SpecificPoolPump { pd: PhantomData }
    }

    /// Takes the value of `key` out of `src` and stores it in `dst`; returns
    /// its key in `dst`.
    pub fn do_move(
        &self,
        src: &mut SpecificPool<KS, V>,
        dst: &mut SpecificPool<KD, V>,
        key: &KS,
    ) -> (r: KD)
        requires
            old(src).wf(),
            old(dst).wf(),
            (key.pool_index() as int) < old(src)@.len(),
            old(src)@[key.pool_index() as int] is Some,
        ensures
            final(src).wf(),
            final(dst).wf(),
            key.pool_index() == old(src)@.len() - 1 ==> final(src)@ == old(src)@.drop_last(),
            key.pool_index() < old(src)@.len() - 1 ==> final(src)@ == old(src)@.update(
                key.pool_index() as int,
                None,
            ),
            r.pool_index() == old(dst).next_slot(),
            (r.pool_index() as int) < final(dst)@.len(),
            final(dst)@[r.pool_index() as int] == old(src)@[key.pool_index() as int],
            forall|i: int|
                0 <= i < old(dst)@.len() && (#[trigger] old(dst)@[i]) is Some ==> final(dst)@[i] == old(dst)@[i],
    {
        let value = src.del_and_get(key).unwrap();
        dst.add(value)
    }
}

} // verus!
