use vstd::prelude::*;

verus! {

/// A list that keeps up to two items inline before it moves to the heap.
#[derive(Clone, Debug)]
pub enum OptimisticList<T> {
    Empty,
    One(T),
    Two(T, T),
    Multiple(Vec<T>),
}

impl<T> View for OptimisticList<T> {
    type V = Seq<T>;

    open spec fn view(&self) -> Seq<T> {
        match self {
            OptimisticList::Empty => Seq::empty(),
            OptimisticList::One(a) => seq![*a],
            OptimisticList::Two(a, b) => seq![*a, *b],
            OptimisticList::Multiple(list) => list@,
        }
    }
}

impl<T> OptimisticList<T> {
    /// The variant fits the number of items: none, one, two, or three and
    /// more kept in a vector.
    pub open spec fn shaped(&self) -> bool {
        match self {
            OptimisticList::Multiple(list) => list@.len() >= 3,
            _ => true,
        }
    }
}

impl<T> Default for OptimisticList<T> {
    fn default() -> (r: Self)
        ensures
            r@ == Seq::<T>::empty(),
            r is Empty,
            r.shaped(),
    {
        OptimisticList::Empty
    }
}

impl<T> OptimisticList<T> {
    /// Appends an item.
    pub fn push(&mut self, cause: T)
        ensures
            final(self)@ == old(self)@.push(cause),
            match *old(self) {
                OptimisticList::Empty => (*final(self)) is One,
                OptimisticList::One(_) => (*final(self)) is Two,
                _ => (*final(self)) is Multiple,
            },
            old(self).shaped() ==> final(self).shaped(),
    {
        let mut temp = OptimisticList::Empty;
        std::mem::swap(self, &mut temp);
        *self = match temp {
            OptimisticList::Empty => OptimisticList::One(cause),
            OptimisticList::One(a) => OptimisticList::Two(a, cause),
            OptimisticList::Two(a, b) => OptimisticList::Multiple(vec![a, b, cause]),
            OptimisticList::Multiple(mut list) => {
                list.push(cause);
                OptimisticList::Multiple(list)
            },
        };
        proof {
            assert(self@ =~= old(self)@.push(cause));
        }
    }

    /// A cursor over the items, from the first.
    pub fn iter(&self) -> (r: OptimisticListIter<'_, T>)
        ensures
            r.items() == self@,
            r.position() == 0,
    {
        OptimisticListIter { list: self, progress: 0 }
    }
}

/// A cursor over an `OptimisticList`.
pub struct OptimisticListIter<'a, T> {
    list: &'a OptimisticList<T>,
    progress: usize,
}

impl<'a, T> OptimisticListIter<'a, T> {
    pub closed spec fn items(&self) -> Seq<T> {
        self.list@
    }

    pub closed spec fn position(&self) -> usize {
        self.progress
    }

    /// The item at the cursor, if any; the cursor moves on either way.
    pub fn next(&mut self) -> (r: Option<&'a T>)
        requires
            old(self).position() < usize::MAX,
        ensures
            final(self).items() == old(self).items(),
            final(self).position() == old(self).position() + 1,
            r == (if (old(self).position() as int) < old(self).items().len() {
                Some(&old(self).items()[old(self).position() as int])
            } else {
                None
            }),
    {
        let value = match self.list {
            OptimisticList::Empty => None,
            OptimisticList::One(a) => if self.progress == 0 {
                Some(a)
            } else {
                None
            },
            OptimisticList::Two(a, b) => if self.progress == 0 {
                Some(a)
            } else if self.progress == 1 {
                Some(b)
            } else {
                None
            },
            OptimisticList::Multiple(list) => if self.progress < list.len() {
                Some(&list[self.progress])
            } else {
                None
            },
        };
        self.progress = self.progress + 1;
        value
    }
}

} // verus!
