//! A persistent singly linked list with structural sharing: prepending
//! builds a new list whose tail is shared, and nothing is ever mutated.

use std::rc::Rc;

use vstd::prelude::*;

verus! {

/// A persistent list: empty, or an element followed by a shared tail.
#[derive(Debug)]
pub enum List<T> {
    Empty,
    Cons(T, Rc<List<T>>),
}

impl<T> List<T> {
    /// The elements of the list, front first.
    pub open spec fn elems(self) -> Seq<T>
        decreases self,
    {
        match self {
            List::Empty => Seq::<T>::empty(),
            List::Cons(head, tail) => seq![head] + tail.elems(),
        }
    }

    /// The empty list.
    pub fn new() -> (r: Self)
        ensures
            r.elems() == Seq::<T>::empty(),
    {
        List::Empty
    }

    /// A new list with `elem` in front of this one; the tail is shared, not
    /// copied.
    pub fn prepend(self, elem: T) -> (r: Self)
        ensures
            r.elems() == seq![elem] + self.elems(),
    {
        List::Cons(elem, Rc::new(self))
    }

    /// The first element, if any.
    pub fn head(&self) -> (r: Option<&T>)
        ensures
            match r {
                Some(h) => self.elems().len() > 0 && *h == self.elems()[0],
                None => self.elems().len() == 0,
            },
    {
        match self {
            List::Cons(head, _) => Some(head),
            List::Empty => None,
        }
    }
}

} // verus!
