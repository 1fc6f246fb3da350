use vstd::prelude::*;

use std::rc::Rc;

use tinyvec::TinyVec;

verus! {

/// A `TinyVec` of optional causes that keeps two of them inline.
#[verifier::external_body]
pub struct CauseSlots {
    inner: TinyVec<[Option<Cause>; 2]>,
}

/// The items of a small vector of optional causes, in order.
pub uninterp spec fn cause_slots(v: CauseSlots) -> Seq<Option<Cause>>;

/// `TinyVec::new`: an empty vector.
#[verifier::external_body]
fn slots_new() -> (r: CauseSlots)
    ensures
        cause_slots(r) == Seq::<Option<Cause>>::empty(),
{
    CauseSlots { inner: TinyVec::new() }
}

/// `TinyVec::push`: `item` is appended after the items already there.
#[verifier::external_body]
fn slots_push(v: &mut CauseSlots, item: Option<Cause>)
    ensures
        cause_slots(*final(v)) == cause_slots(*old(v)).push(item),
{
    v.inner.push(item)
}

/// `TinyVec::len`: the number of items.
#[verifier::external_body]
fn slots_len(v: &CauseSlots) -> (r: usize)
    ensures
        r == cause_slots(*v).len(),
{
    v.inner.len()
}

/// Indexing through `TinyVec`'s slice: the item at `i`.
#[verifier::external_body]
fn slots_get(v: &CauseSlots, i: usize) -> (r: &Option<Cause>)
    requires
        i < cause_slots(*v).len(),
    ensures
        *r == cause_slots(*v)[i as int],
{
    &v.inner[i]
}

/// `TinyVec::append`: the items of `other` move, in order, behind those of
/// `v`; `other` is left empty.
#[verifier::external_body]
fn slots_append(v: &mut CauseSlots, other: &mut CauseSlots)
    ensures
        cause_slots(*final(v)) == cause_slots(*old(v)) + cause_slots(*old(other)),
        cause_slots(*final(other)) == Seq::<Option<Cause>>::empty(),
{
    v.inner.append(&mut other.inner)
}

/// A short list of causes: the first two are kept inline, more go to the heap.
pub struct OptTinyVec {
    inner: CauseSlots,
}

impl OptTinyVec {
    /// Every slot of the list holds a cause.
    #[verifier::type_invariant]
    spec fn slots_filled(self) -> bool {
        forall|i: int|
            0 <= i < cause_slots(self.inner).len() ==> (#[trigger] cause_slots(self.inner)[i]) is Some
    }
}

impl View for OptTinyVec {
    type V = Seq<Cause>;

    closed spec fn view(&self) -> Seq<Cause> {
        cause_slots(self.inner).map_values(|o: Option<Cause>| o->Some_0)
    }
}

impl Default for OptTinyVec {
    fn default() -> (r: Self)
        ensures
            r@ == Seq::<Cause>::empty(),
    {
        let r = OptTinyVec { inner: slots_new() };
        assert(r@ =~= Seq::<Cause>::empty());
        r
    }
}

impl OptTinyVec {
    /// The list holding `value` alone.
    pub fn single(value: Cause) -> (r: OptTinyVec)
        ensures
            r@ == seq![value],
    {
        let mut inner = slots_new();
        slots_push(&mut inner, Some(value));
        assert(cause_slots(inner) =~= seq![Some(value)]);
        let r = OptTinyVec { inner };
        assert(r@ =~= seq![value]);
        r
    }

    /// The list holding the causes of `items`, in order.
    pub fn from_iterable(items: Vec<Cause>) -> (r: OptTinyVec)
        ensures
            r@ == items@,
    {
        let mut inner = slots_new();
        let mut i: usize = 0;
        while i < items.len()
            invariant
                i <= items@.len(),
                cause_slots(inner).len() == i,
                forall|j: int| 0 <= j < i ==> #[trigger] cause_slots(inner)[j] == Some(items@[j]),
            decreases items@.len() - i,
        {
            slots_push(&mut inner, Some(items[i].share()));
            i = i + 1;
        }
        let r = OptTinyVec { inner };
        assert(r@ =~= items@);
        r
    }

    /// Appends `value`.
    pub fn push(&mut self, value: Cause)
        ensures
            final(self)@ == old(self)@.push(value),
    {
        proof {
            use_type_invariant(&*self);
        }
        let mut inner = slots_new();
        std::mem::swap(&mut inner, &mut self.inner);
        slots_push(&mut inner, Some(value));
        self.inner = inner;
        assert(self@ =~= old(self)@.push(value));
    }

    /// Appends the causes of `other`, in order.
    pub fn extend(&mut self, other: OptTinyVec)
        ensures
            final(self)@ == old(self)@ + other@,
    {
        proof {
            use_type_invariant(&*self);
            use_type_invariant(&other);
        }
        let mut inner = slots_new();
        std::mem::swap(&mut inner, &mut self.inner);
        let mut taken = other.inner;
        slots_append(&mut inner, &mut taken);
        self.inner = inner;
        assert(self@ =~= old(self)@ + other@);
    }

    /// Number of causes.
    pub fn len(&self) -> (r: usize)
        ensures
            r == self@.len(),
    {
        slots_len(&self.inner)
    }

    /// The cause at `i`.
    pub fn get(&self, i: usize) -> (r: &Cause)
        requires
            i < self@.len(),
        ensures
            *r == self@[i as int],
    {
        proof {
            use_type_invariant(self);
        }
        slots_get(&self.inner, i).as_ref().unwrap()
    }

    /// Handles on the causes, in order.
    pub fn iter(&self) -> (r: Vec<Cause>)
        ensures
            r@ == self@,
    {
        let n = self.len();
        let mut r: Vec<Cause> = Vec::new();
        let mut i: usize = 0;
        while i < n
            invariant
                n == self@.len(),
                i <= n,
                r@ == self@.take(i as int),
            decreases n - i,
        {
            r.push(self.get(i).share());
            assert(self@.take(i + 1) =~= self@.take(i as int).push(self@[i as int]));
            i = i + 1;
        }
        assert(self@.take(n as int) =~= self@);
        r
    }

    /// The causes, in order.
    pub fn into_vec(self) -> (r: Vec<Cause>)
        ensures
            r@ == self@,
    {
        self.iter()
    }

    /// A copy of the list; the causes are shared, not copied.
    pub fn share(&self) -> (r: OptTinyVec)
        ensures
            r@ == self@,
    {
        OptTinyVec::from_iterable(self.iter())
    }
}

/// What led to a change: a title and the causes before it.
pub struct Cause {
    inner: Rc<CauseInner>,
}

/// A cause with no reasons before it, or one with reasons.
pub enum CauseInner {
    Root { title: &'static str },
    Derived { title: &'static str, reasons: OptTinyVec },
}

/// A second pointer to the same cause (`Rc::clone`).
#[verifier::external_body]
fn share_inner(inner: &Rc<CauseInner>) -> (r: Rc<CauseInner>)
    ensures
        r == *inner,
{
    Rc::clone(inner)
}

impl Cause {
    pub closed spec fn title(&self) -> &'static str {
        match *self.inner {
            CauseInner::Root { title } => title,
            CauseInner::Derived { title, .. } => title,
        }
    }

    pub closed spec fn reasons(&self) -> Seq<Cause> {
        match *self.inner {
            CauseInner::Root { .. } => Seq::empty(),
            CauseInner::Derived { reasons, .. } => reasons@,
        }
    }

    /// The cause of everything that happens outside any handler.
    pub fn initial() -> (r: Cause)
        ensures
            r.title() == "initial",
            r.reasons() == Seq::<Cause>::empty(),
    {
        Cause { inner: Rc::new(CauseInner::Root { title: "initial" }) }
    }

    /// A cause titled `title` that follows from `causes`.
    pub fn consequence(title: &'static str, causes: Vec<Cause>) -> (r: Cause)
        ensures
            r.title() == title,
            r.reasons() == causes@,
    {
        Cause {
            inner: Rc::new(CauseInner::Derived { title, reasons: OptTinyVec::from_iterable(causes) }),
        }
    }

    /// The title of the cause.
    pub fn get_title(&self) -> (r: &'static str)
        ensures
            r == self.title(),
    {
        match &*self.inner {
            CauseInner::Root { title } => *title,
            CauseInner::Derived { title, .. } => *title,
        }
    }

    /// The causes that led to this one, in order.
    pub fn get_reasons(&self) -> (r: Vec<Cause>)
        ensures
            r@ == self.reasons(),
    {
        match &*self.inner {
            CauseInner::Root { .. } => Vec::new(),
            CauseInner::Derived { reasons, .. } => reasons.iter(),
        }
    }

    /// Another handle on the same cause.
    pub fn share(&self) -> (r: Cause)
        ensures
            r == *self,
    {
        Cause { inner: share_inner(&self.inner) }
    }
}

} // verus!
