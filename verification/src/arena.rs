//! Append-only storage that hands out a small stable index for every
//! inserted item. The atlas builder keeps decoded images here.

use vstd::prelude::*;

verus! {

/// Handle to an item in an [`Arena`]. Stored internally shifted up by one
/// so that the all-zeroes bit pattern is never a valid handle.
#[derive(Clone, Copy, Debug, PartialEq, Eq, Hash, Structural)]
pub struct Index {
    raw: u16,
}

impl Index {
    #[verifier::type_invariant]
    spec fn inv(self) -> bool {
        self.raw >= 1
    }

    /// The position in the arena this handle refers to.
    pub closed spec fn spec_index(self) -> int {
        self.raw - 1
    }

    fn new(index: usize) -> (r: Index)
        requires
            index < 0xffff,
        ensures
            r.spec_index() == index,
    {
        Index { raw: (index as u16) + 1 }
    }

    fn index(self) -> (r: usize)
        ensures
            r == self.spec_index(),
    {
        proof {
            use_type_invariant(&self);
        }
        (self.raw - 1) as usize
    }
}

/// Append-only data structure to store objects efficiently and reference
/// them by index. Items are never removed; an [`Index`] stays valid for
/// the arena's whole lifetime.
#[derive(Debug)]
pub struct Arena<T> {
    items: Vec<T>,
}

impl<T> View for Arena<T> {
    type V = Seq<T>;

    closed spec fn view(&self) -> Seq<T> {
        self.items@
    }
}

impl<T> Default for Arena<T> {
    /// An empty arena.
    fn default() -> (r: Self)
        ensures
            r@ == Seq::<T>::empty(),
    {
        Arena { items: Vec::new() }
    }
}

impl<T> Arena<T> {
    /// Append an item and return its index.
    ///
    /// The arena addresses items with 16-bit indices, so it holds at most
    /// `0xffff` items.
    pub fn insert(&mut self, item: T) -> (index: Index)
        requires
            old(self)@.len() < 0xffff,
        ensures
            final(self)@ == old(self)@.push(item),
            index.spec_index() == old(self)@.len(),
    {
        let index = self.items.len();
        self.items.push(item);
        Index::new(index)
    }

    /// The item at `index`, or `None` if the index lies beyond the arena.
    pub fn get(&self, index: Index) -> (r: Option<&T>)
        ensures
            index.spec_index() < self@.len() ==> r == Some(&self@[index.spec_index()]),
            index.spec_index() >= self@.len() ==> r is None,
    {
        let i = index.index();
        if i < self.items.len() {
            Some(&self.items[i])
        } else {
            None
        }
    }

    /// Mutable access to the item at `index`, or `None` if the index lies
    /// beyond the arena.
    pub fn get_mut(&mut self, index: Index) -> (r: Option<&mut T>)
        ensures
            index.spec_index() >= old(self)@.len() ==> r is None && final(self)@ == old(self)@,
            index.spec_index() < old(self)@.len() ==> (match r {
                Some(p) => *p == old(self)@[index.spec_index()] && final(self)@ == old(self)@.update(
                    index.spec_index(),
                    *final(p),
                ),
                None => false,
            }),
    {
        let i = index.index();
        if i < self.items.len() {
            Some(&mut self.items[i])
        } else {
            None
        }
    }

    /// The number of items stored so far.
    pub fn len(&self) -> (n: usize)
        ensures
            n == self@.len(),
    {
        self.items.len()
    }

    /// Whether nothing has been inserted yet.
    pub fn is_empty(&self) -> (r: bool)
        ensures
            r == (self@.len() == 0),
    {
        self.items.is_empty()
    }

    /// All items, in insertion order.
    pub fn as_slice(&self) -> (r: &[T])
        ensures
            r@ == self@,
    {
        self.items.as_slice()
    }

    /// Consume the arena and keep the items, in insertion order.
    pub fn into_inner(self) -> (r: Vec<T>)
        ensures
            r@ == self@,
    {
        self.items
    }

    /// Consume the arena and map every item through `f`, keeping order
    /// and indices.
    pub fn map<U, F: Fn(T) -> U>(self, f: F) -> (r: Arena<U>)
        requires
            forall|i: int| 0 <= i < self@.len() ==> f.requires((self@[i],)),
        ensures
            r@.len() == self@.len(),
            forall|i: int| 0 <= i < self@.len() ==> f.ensures((self@[i],), #[trigger] r@[i]),
    {
        let ghost orig = self@;
        let mut items = self.items;
        let mut out: Vec<U> = Vec::new();
        while items.len() > 0
            invariant
                out@.len() + items@.len() == orig.len(),
                forall|i: int| 0 <= i < items@.len() ==> items@[i] == orig[out@.len() + i],
                forall|i: int| out@.len() <= i < orig.len() ==> f.requires((orig[i],)),
                forall|i: int| 0 <= i < out@.len() ==> f.ensures((orig[i],), #[trigger] out@[i]),
            decreases items@.len(),
        {
            let x = items.remove(0);
            let y = f(x);
            out.push(y);
        }
        Arena { items: out }
    }

    /// Consume the arena and map every item through `f`, stopping at the
    /// first error; on success order and indices are kept.
    pub fn try_map<U, E, F: Fn(T) -> Result<U, E>>(self, f: F) -> (r: Result<Arena<U>, E>)
        requires
            forall|i: int| 0 <= i < self@.len() ==> f.requires((self@[i],)),
        ensures
            r matches Ok(a) ==> a@.len() == self@.len() && (forall|i: int|
                0 <= i < self@.len() ==> f.ensures((self@[i],), Result::Ok(#[trigger] a@[i]))),
            r matches Err(e) ==> exists|i: int|
                0 <= i < self@.len() && f.ensures((#[trigger] self@[i],), Result::Err(e)),
    {
        let ghost orig = self@;
        let mut items = self.items;
        let mut out: Vec<U> = Vec::new();
        while items.len() > 0
            invariant
                orig == self@,
                out@.len() + items@.len() == orig.len(),
                forall|i: int| 0 <= i < items@.len() ==> items@[i] == orig[out@.len() + i],
                forall|i: int| out@.len() <= i < orig.len() ==> f.requires((orig[i],)),
                forall|i: int|
                    0 <= i < out@.len() ==> f.ensures((orig[i],), Result::Ok(#[trigger] out@[i])),
            decreases items@.len(),
        {
            let ghost done = out@.len() as int;
            let x = items.remove(0);
            match f(x) {
                Ok(y) => {
                    out.push(y);
                },
                Err(e) => {
                    proof {
                        assert(orig == self@);
                        assert(0 <= done < self@.len());
                        assert(f.ensures((self@[done],), Result::<U, E>::Err(e)));
                    }
                    return Err(e);
                },
            }
        }
        Ok(Arena { items: out })
    }

    /// Map every item through `f` by reference into a fresh arena with the
    /// same order and indices.
    pub fn map_ref<U, F: Fn(&T) -> U>(&self, f: F) -> (r: Arena<U>)
        requires
            forall|i: int| 0 <= i < self@.len() ==> f.requires((&self@[i],)),
        ensures
            r@.len() == self@.len(),
            forall|i: int| 0 <= i < self@.len() ==> f.ensures((&self@[i],), #[trigger] r@[i]),
    {
        let n = self.items.len();
        let mut out: Vec<U> = Vec::new();
        let mut i: usize = 0;
        while i < n
            invariant
                i <= n,
                n == self@.len(),
                out@.len() == i,
                forall|j: int| 0 <= j < self@.len() ==> f.requires((&self@[j],)),
                forall|j: int| 0 <= j < i ==> f.ensures((&self@[j],), #[trigger] out@[j]),
            decreases n - i,
        {
            let y = f(&self.items[i]);
            out.push(y);
            i = i + 1;
        }
        Arena { items: out }
    }

    /// Drop spare capacity; the items are untouched.
    pub fn shrink_to_fit(&mut self)
        ensures
            final(self)@ == old(self)@,
    {
        vec_shrink_to_fit(&mut self.items);
    }

    /// Walk the items in insertion order.
    ///
    /// The bound on the length comes with any arena grown only through
    /// [`Arena::insert`].
    pub fn iter(&self) -> (r: Iter<'_, T>)
        requires
            self@.len() <= 0xffff,
        ensures
            r.spec_items() == self@,
            r.spec_pos() == 0,
    {
        Iter { arena: self, pos: 0 }
    }
}

/// Relies on `Vec::shrink_to_fit` of std: it only changes capacity and
/// keeps the elements exactly as they are.
#[verifier::external_body]
fn vec_shrink_to_fit<T>(items: &mut Vec<T>)
    ensures
        final(items)@ == old(items)@,
{
    items.shrink_to_fit();
}

/// Cursor over an [`Arena`], yielding `(Index, &T)` pairs in insertion
/// order through [`Iter::next`].
pub struct Iter<'a, T> {
    arena: &'a Arena<T>,
    pos: usize,
}

impl<'a, T> Iter<'a, T> {
    #[verifier::type_invariant]
    spec fn inv(self) -> bool {
        self.pos <= self.arena@.len() && self.arena@.len() <= 0xffff
    }

    /// The items being walked.
    pub closed spec fn spec_items(self) -> Seq<T> {
        self.arena@
    }

    /// How many items were already yielded.
    pub closed spec fn spec_pos(self) -> int {
        self.pos as int
    }

    /// The next item and its index, or `None` once every item was yielded.
    pub fn next(&mut self) -> (r: Option<(Index, &'a T)>)
        ensures
            final(self).spec_items() == old(self).spec_items(),
            old(self).spec_pos() < old(self).spec_items().len() ==> (match r {
                Some(pair) => {
                    &&& pair.0.spec_index() == old(self).spec_pos()
                    &&& *pair.1 == old(self).spec_items()[old(self).spec_pos()]
                    &&& final(self).spec_pos() == old(self).spec_pos() + 1
                },
                None => false,
            }),
            old(self).spec_pos() >= old(self).spec_items().len() ==> r is None
                && final(self).spec_pos() == old(self).spec_pos(),
    {
        proof {
            use_type_invariant(&*self);
        }
        if self.pos < self.arena.items.len() {
            let index = Index::new(self.pos);
            let item = &self.arena.items[self.pos];
            self.pos = self.pos + 1;
            Some((index, item))
        } else {
            None
        }
    }
}

} // verus!
