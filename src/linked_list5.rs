use vstd::prelude::*;

verus! {

/// A list grown and shrunk at its front, with a count of its elements and a double-ended
/// iterator.
pub struct LinkedList<T> {
    items: Vec<T>,
}

impl<T> View for LinkedList<T> {
    type V = Seq<T>;

    /// The elements from front to back.
    closed spec fn view(&self) -> Seq<T> {
        self.items@
    }
}

impl<T> LinkedList<T> {
    pub fn new() -> (r: Self)
        ensures
            r@ == Seq::<T>::empty(),
    {
        LinkedList { items: Vec::new() }
    }

    pub fn len(&self) -> (r: usize)
        ensures
            r == self@.len(),
    {
        self.items.len()
    }

    pub fn push_front(&mut self, elem: T)
        ensures
            final(self)@ == seq![elem] + old(self)@,
    {
        self.items.insert(0, elem);
        assert(self@ =~= seq![elem] + old(self)@);
    }

    /// Takes the front element off, or returns `None` when empty.
    pub fn pop_front(&mut self) -> (r: Option<T>)
        ensures
            old(self)@.len() == 0 ==> r is None && final(self)@ == old(self)@,
            old(self)@.len() > 0 ==> r == Some(old(self)@[0]) && final(self)@ == old(self)@.drop_first(),
    {
        if self.items.len() == 0 {
            None
        } else {
            let elem = self.items.remove(0);
            assert(self@ =~= old(self)@.drop_first());
            Some(elem)
        }
    }

    /// The front element, or `None` when empty.
    pub fn front(&self) -> (r: Option<&T>)
        ensures
            self@.len() == 0 ==> r is None,
            self@.len() > 0 ==> r == Some(&self@[0]),
    {
        if self.items.len() == 0 {
            None
        } else {
            Some(&self.items[0])
        }
    }

    /// The front element for writing, or `None` when empty.
    pub fn front_mut(&mut self) -> (r: Option<&mut T>)
        ensures
            old(self)@.len() == 0 ==> r is None && final(self)@ == old(self)@,
            old(self)@.len() > 0 ==> r is Some && *r->Some_0 == old(self)@[0] && final(self)@ == old(
                self,
            )@.update(0, *final(r->Some_0)),
    {
        if self.items.len() == 0 {
            None
        } else {
            Some(&mut self.items[0])
        }
    }

    /// An iterator over the elements, from either end.
    pub fn iter(&self) -> (r: Iter<'_, T>)
        ensures
            r.wf(),
            r@ == self@,
    {
        Iter { items: &self.items, front: 0, back: self.items.len() }
    }
}

/// Borrowing iterator over a `LinkedList`, from the front or from the back.
pub struct Iter<'a, T> {
    items: &'a Vec<T>,
    front: usize,
    back: usize,
}

impl<'a, T> View for Iter<'a, T> {
    type V = Seq<T>;

    /// The elements not yet yielded from either end.
    closed spec fn view(&self) -> Seq<T> {
        self.items@.subrange(self.front as int, self.back as int)
    }
}

impl<'a, T> Iter<'a, T> {
    /// The front and back marks lie within the list, in order.
    pub closed spec fn wf(&self) -> bool {
        self.front <= self.back <= self.items@.len()
    }

    /// Yields the next element from the front.
    pub fn next(&mut self) -> (r: Option<&'a T>)
        requires
            old(self).wf(),
        ensures
            final(self).wf(),
            old(self)@.len() == 0 ==> r is None && final(self)@ == old(self)@,
            old(self)@.len() > 0 ==> r == Some(&old(self)@[0]) && final(self)@ == old(self)@.drop_first(),
    {
        if self.front < self.back {
            let r = &self.items[self.front];
            self.front = self.front + 1;
            assert(self@ =~= old(self)@.drop_first());
            Some(r)
        } else {
            None
        }
    }

    /// Yields the next element from the back.
    pub fn next_back(&mut self) -> (r: Option<&'a T>)
        requires
            old(self).wf(),
        ensures
            final(self).wf(),
            old(self)@.len() == 0 ==> r is None && final(self)@ == old(self)@,
            old(self)@.len() > 0 ==> r == Some(&old(self)@.last()) && final(self)@ == old(
                self,
            )@.drop_last(),
    {
        if self.front < self.back {
            self.back = self.back - 1;
            let r = &self.items[self.back];
            assert(self@ =~= old(self)@.drop_last());
            Some(r)
        } else {
            None
        }
    }

    /// Number of elements not yet yielded.
    pub fn len(&self) -> (r: usize)
        requires
            self.wf(),
        ensures
            r == self@.len(),
    {
        self.back - self.front
    }

    /// Lower and upper bound of the number of elements left; both are exact.
    pub fn size_hint(&self) -> (r: (usize, Option<usize>))
        requires
            self.wf(),
        ensures
            r == (self@.len() as usize, Some(self@.len() as usize)),
    {
        let n = self.back - self.front;
        (n, Some(n))
    }
}

} // verus!
