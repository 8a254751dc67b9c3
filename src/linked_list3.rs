use vstd::prelude::*;

verus! {

/// A double-ended list: elements can be added and taken at either end.
pub struct List<T> {
    items: Vec<T>,
}

impl<T> View for List<T> {
    type V = Seq<T>;

    /// The elements from front to back.
    closed spec fn view(&self) -> Seq<T> {
        self.items@
    }
}

impl<T> List<T> {
    pub fn new() -> (r: Self)
        ensures
            r@ == Seq::<T>::empty(),
    {
        List { items: Vec::new() }
    }

    pub fn push_front(&mut self, elem: T)
        ensures
            final(self)@ == seq![elem] + old(self)@,
    {
        self.items.insert(0, elem);
        assert(self@ =~= seq![elem] + old(self)@);
    }

    pub fn push_back(&mut self, elem: T)
        ensures
            final(self)@ == old(self)@.push(elem),
    {
        self.items.push(elem);
    }

    /// Takes the front element off, or returns `None` when empty.
    pub fn pop_front(&mut self) -> (r: Option<T>)
        ensures
            old(self)@.len() == 0 ==> r is None && final(self)@ == old(self)@,
            old(self)@.len() > 0 ==> r == Some(old(self)@[0]) && final(self)@ == old(self)@.drop_first(),
    {
        if self.items.len() == 0 {
            None
        } else {
            let elem = self.items.remove(0);
            assert(self@ =~= old(self)@.drop_first());
            Some(elem)
        }
    }

    /// Takes the back element off, or returns `None` when empty.
    pub fn pop_back(&mut self) -> (r: Option<T>)
        ensures
            old(self)@.len() == 0 ==> r is None && final(self)@ == old(self)@,
            old(self)@.len() > 0 ==> r == Some(old(self)@.last()) && final(self)@ == old(self)@.drop_last(),
    {
        self.items.pop()
    }

    /// The front element, or `None` when empty.
    pub fn peek_front(&self) -> (r: Option<&T>)
        ensures
            self@.len() == 0 ==> r is None,
            self@.len() > 0 ==> r == Some(&self@[0]),
    {
        if self.items.len() == 0 {
            None
        } else {
            Some(&self.items[0])
        }
    }

    /// The back element, or `None` when empty.
    pub fn peek_back(&self) -> (r: Option<&T>)
        ensures
            self@.len() == 0 ==> r is None,
            self@.len() > 0 ==> r == Some(&self@.last()),
    {
        let n = self.items.len();
        if n == 0 {
            None
        } else {
            Some(&self.items[n - 1])
        }
    }

    /// The front element for writing, or `None` when empty.
    pub fn peek_front_mut(&mut self) -> (r: Option<&mut T>)
        ensures
            old(self)@.len() == 0 ==> r is None && final(self)@ == old(self)@,
            old(self)@.len() > 0 ==> r is Some && *r->Some_0 == old(self)@[0] && final(self)@ == old(
                self,
            )@.update(0, *final(r->Some_0)),
    {
        if self.items.len() == 0 {
            None
        } else {
            Some(&mut self.items[0])
        }
    }

    /// The back element for writing, or `None` when empty.
    pub fn peek_back_mut(&mut self) -> (r: Option<&mut T>)
        ensures
            old(self)@.len() == 0 ==> r is None && final(self)@ == old(self)@,
            old(self)@.len() > 0 ==> r is Some && *r->Some_0 == old(self)@.last() && final(self)@
                == old(self)@.update(old(self)@.len() - 1, *final(r->Some_0)),
    {
        let n = self.items.len();
        if n == 0 {
            None
        } else {
            Some(&mut self.items[n - 1])
        }
    }
}

} // verus!
