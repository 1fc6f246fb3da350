use vstd::prelude::*;

use std::marker::PhantomData;

verus! {

/// A key that stands for a position in a `TiVec`.
pub trait TiVecKey: Sized {
    spec fn vec_index(&self) -> usize;

    fn from_index(index: usize) -> (r: Self)
        ensures
            r.vec_index() == index,
    ;

    fn as_index(&self) -> (r: usize)
        ensures
            r == self.vec_index(),
    ;
}

/// A vector indexed by typed keys.
pub struct TiVec<K, T> {
    pd: PhantomData<K>,
    inner: Vec<T>,
}

impl<K, T> View for TiVec<K, T> {
    type V = Seq<T>;

    closed spec fn view(&self) -> Seq<T> {
        self.inner@
    }
}

impl<K, T> TiVec<K, T> {
    pub fn new() -> (r: TiVec<K, T>)
        ensures
            r@ == Seq::<T>::empty(),
    {
        TiVec { pd: PhantomData, inner: Vec::new() }
    }

    pub fn len(&self) -> (r: usize)
        ensures
            r == self@.len(),
    {
        self.inner.len()
    }
}

impl<K: TiVecKey, V> TiVec<K, V> {
    /// The element at `key`, if there is one.
    pub fn get(&self, key: &K) -> (r: Option<&V>)
        ensures
            r == (if (key.vec_index() as int) < self@.len() {
                Some(&self@[key.vec_index() as int])
            } else {
                None
            }),
    {
        let i = key.as_index();
        if i < self.inner.len() {
            Some(&self.inner[i])
        } else {
            None
        }
    }

    /// The element at `key`, for changing it in place.
    pub fn get_mut(&mut self, key: &K) -> (r: Option<&mut V>)
        ensures
            match r {
                Some(m) => {
                    &&& (key.vec_index() as int) < old(self)@.len()
                    &&& *m == old(self)@[key.vec_index() as int]
                    &&& final(self)@ == old(self)@.update(key.vec_index() as int, *final(m))
                },
                None => {
                    &&& (key.vec_index() as int) >= old(self)@.len()
                    &&& final(self)@ == old(self)@
                },
            },
    {
        let i = key.as_index();
        if i < self.inner.len() {
            Some(&mut self.inner[i])
        } else {
            None
        }
    }

    /// Replaces the element at `key`, which must exist.
    pub fn set(&mut self, key: &K, value: V)
        requires
            (key.vec_index() as int) < old(self)@.len(),
        ensures
            final(self)@ == old(self)@.update(key.vec_index() as int, value),
    {
        let i = key.as_index();
        self.inner.set(i, value);
    }

    /// Appends the value that `f` builds from the key of the new position.
    pub fn push_with_key<F: FnOnce(&K) -> V>(&mut self, f: F) -> (r: K)
        requires
            forall|k: &K| #[trigger] f.requires((k,)),
        ensures
            r.vec_index() == old(self)@.len(),
            final(self)@.len() == old(self)@.len() + 1,
            final(self)@.drop_last() == old(self)@,
            f.ensures((&r,), final(self)@.last()),
    {
        let key = K::from_index(self.inner.len());
        let value = f(&key);
        self.inner.push(value);
        proof {
            assert(self.inner@.drop_last() =~= old(self).inner@);
        }
        key
    }

    /// The elements in key order.
    pub fn iter(&self) -> (r: &[V])
        ensures
            r@ == self@,
    {
        self.inner.as_slice()
    }

    /// The elements in key order, for changing them in place.
    pub fn iter_mut(&mut self) -> (r: &mut [V])
        ensures
            r@ == old(self)@,
            final(r)@ == final(self)@,
    {
        self.inner.as_mut_slice()
    }
}

} // verus!
