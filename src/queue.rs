use vstd::prelude::*;

use std::collections::VecDeque;

verus! {

/// A first-in first-out work list.
pub struct Queue<T> {
    pub items: VecDeque<T>,
}

impl<T> View for Queue<T> {
    type V = Seq<T>;

    /// The items, the next one to leave first.
    open spec fn view(&self) -> Seq<T> {
        self.items@
    }
}

impl<T> Queue<T> {
    pub fn new() -> (r: Self)
        ensures
            r@ == Seq::<T>::empty(),
    {
        Queue { items: VecDeque::new() }
    }

    /// A queue holding the items of `v`, the first one to leave first.
    pub fn from_vec(v: Vec<T>) -> (r: Self)
        ensures
            r@ == v@,
    {
        let ghost all = v@;
        let mut rest = v;
        let mut items: VecDeque<T> = VecDeque::new();
        while rest.len() > 0
            invariant
                rest@.len() <= all.len(),
                rest@ == all.subrange(0, rest@.len() as int),
                items@ == all.subrange(rest@.len() as int, all.len() as int),
            decreases rest@.len(),
        {
            match rest.pop() {
                Some(item) => items.push_front(item),
                None => {},
            }
            proof {
                assert(items@ =~= all.subrange(rest@.len() as int, all.len() as int));
                assert(rest@ =~= all.subrange(0, rest@.len() as int));
            }
        }
        proof {
            assert(items@ =~= all);
        }
        Queue { items }
    }

    /// Takes the item that has waited longest, if any.
    pub fn dequeue(&mut self) -> (r: Option<T>)
        ensures
            old(self)@.len() == 0 ==> r is None && final(self)@ == old(self)@,
            old(self)@.len() > 0 ==> r == Some(old(self)@[0]) && final(self)@ == old(self)@.drop_first(),
    {
        self.items.pop_front()
    }

    /// Adds an item behind all the others.
    pub fn enqueue(&mut self, item: T)
        ensures
            final(self)@ == old(self)@.push(item),
    {
        self.items.push_back(item);
    }

    pub fn is_empty(&self) -> (r: bool)
        ensures
            r == (self@.len() == 0),
    {
        self.items.len() == 0
    }
}

} // verus!
