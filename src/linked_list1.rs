use vstd::prelude::*;

verus! {

/// A stack kept as a singly linked chain of owned nodes, newest first.
pub struct List<T> {
    head: Link<T>,
}

type Link<T> = Option<Box<Node<T>>>;

struct Node<T> {
    elme: T,
    next: Link<T>,
}

/// The elements of a chain, from its first node on.
spec fn link_seq<T>(link: Link<T>) -> Seq<T>
    decreases link,
{
    match link {
        None => Seq::empty(),
        Some(node) => seq![node.elme].add(link_seq(node.next)),
    }
}

impl<T> View for List<T> {
    type V = Seq<T>;

    /// The elements from the top of the stack down.
    closed spec fn view(&self) -> Seq<T> {
        link_seq(self.head)
    }
}

impl<T> List<T> {
    pub fn new() -> (r: Self)
        ensures
            r@ == Seq::<T>::empty(),
    {
        List { head: None }
    }

    /// Puts `elem` on top.
    pub fn push(&mut self, elem: T)
        ensures
            final(self)@ == seq![elem].add(old(self)@),
    {
        let new_node = Some(Box::new(Node { elme: elem, next: self.head.take() }));
        self.head = new_node;
    }

    /// Takes the top element off, or returns `None` when empty.
    pub fn pop(&mut self) -> (r: Option<T>)
        ensures
            old(self)@.len() == 0 ==> r is None && final(self)@ == old(self)@,
            old(self)@.len() > 0 ==> r == Some(old(self)@[0]) && final(self)@ == old(self)@.drop_first(),
    {
        match self.head.take() {
            None => None,
            Some(node) => {
                let node = *node;
                self.head = node.next;
                proof {
                    assert(old(self)@.drop_first() =~= self@);
                }
                Some(node.elme)
            },
        }
    }

    /// The top element, or `None` when empty.
    pub fn peek(&self) -> (r: Option<&T>)
        ensures
            self@.len() == 0 ==> r is None,
            self@.len() > 0 ==> r == Some(&self@[0]),
    {
        match &self.head {
            None => None,
            Some(node) => Some(&node.elme),
        }
    }

    /// The top element for writing, or `None` when empty.
    pub fn peek_mut(&mut self) -> (r: Option<&mut T>)
        ensures
            old(self)@.len() == 0 ==> r is None && final(self)@ == old(self)@,
            old(self)@.len() > 0 ==> r is Some && *r->Some_0 == old(self)@[0] && final(self)@ == old(
                self,
            )@.update(0, *final(r->Some_0)),
    {
        match &mut self.head {
            None => None,
            Some(node) => Some(&mut node.elme),
        }
    }

    /// Consumes the list into an iterator that pops its elements.
    pub fn into_iter(self) -> (r: IntoIter<T>)
        ensures
            r@ == self@,
    {
        IntoIter(self)
    }

    /// An iterator over the elements from the top down.
    pub fn iter(&self) -> (r: Iter<'_, T>)
        ensures
            r@ == self@,
    {
        Iter { next: self.head.as_ref() }
    }

    /// An iterator over the elements from the top down, for writing.
    pub fn iter_mut(&mut self) -> (r: IterMut<'_, T>)
        ensures
            r@ == old(self)@,
    {
        IterMut { next: self.head.as_mut() }
    }
}

/// Owning iterator: yields the elements from the top down.
pub struct IntoIter<T>(List<T>);

impl<T> View for IntoIter<T> {
    type V = Seq<T>;

    /// The elements not yet yielded.
    closed spec fn view(&self) -> Seq<T> {
        self.0@
    }
}

impl<T> IntoIter<T> {
    pub fn next(&mut self) -> (r: Option<T>)
        ensures
            old(self)@.len() == 0 ==> r is None && final(self)@ == old(self)@,
            old(self)@.len() > 0 ==> r == Some(old(self)@[0]) && final(self)@ == old(self)@.drop_first(),
    {
        self.0.pop()
    }
}

/// Borrowing iterator: yields references to the elements from the top down.
pub struct Iter<'a, T> {
    next: Option<&'a Box<Node<T>>>,
}

impl<'a, T> View for Iter<'a, T> {
    type V = Seq<T>;

    /// The elements not yet yielded.
    closed spec fn view(&self) -> Seq<T> {
        match self.next {
            None => Seq::empty(),
            Some(node) => link_seq(Some(*node)),
        }
    }
}

impl<'a, T> Iter<'a, T> {
    pub fn next(&mut self) -> (r: Option<&'a T>)
        ensures
            old(self)@.len() == 0 ==> r is None && final(self)@ == old(self)@,
            old(self)@.len() > 0 ==> r == Some(&old(self)@[0]) && final(self)@ == old(self)@.drop_first(),
    {
        match self.next {
            None => None,
            Some(node) => {
                self.next = node.next.as_ref();
                proof {
                    assert(old(self)@ == seq![node.elme].add(link_seq(node.next)));
                    assert(old(self)@.drop_first() =~= link_seq(node.next));
                }
                Some(&node.elme)
            },
        }
    }
}

/// Borrowing iterator: yields mutable references to the elements from the top down.
pub struct IterMut<'a, T> {
    next: Option<&'a mut Box<Node<T>>>,
}

impl<'a, T> View for IterMut<'a, T> {
    type V = Seq<T>;

    /// The current values of the elements not yet yielded.
    closed spec fn view(&self) -> Seq<T> {
        match self.next {
            None => Seq::empty(),
            Some(node) => link_seq(Some(*node)),
        }
    }
}

impl<'a, T> IterMut<'a, T> {
    pub fn next(&mut self) -> (r: Option<&'a mut T>)
        ensures
            old(self)@.len() == 0 ==> r is None && final(self)@ == old(self)@,
            old(self)@.len() > 0 ==> r is Some && *r->Some_0 == old(self)@[0] && final(self)@ == old(
                self,
            )@.drop_first(),
    {
        match self.next.take() {
            None => None,
            Some(node) => {
                let ghost rest = link_seq(node.next);
                let ghost first = node.elme;
                proof {
                    assert(old(self)@ == seq![first].add(rest));
                    assert(old(self)@.drop_first() =~= rest);
                }
                let node: &mut Node<T> = &mut **node;
                self.next = node.next.as_mut();
                Some(&mut node.elme)
            },
        }
    }
}

} // verus!
