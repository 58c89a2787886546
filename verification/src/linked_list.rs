//! A singly linked LIFO stack: push and pop happen at the head.
//!
//! The abstraction is a sequence whose first element is the most recently
//! pushed one; `count` tracks the number of elements.

use vstd::prelude::*;

verus! {

struct Node<T> {
    data: T,
    next: Option<Box<Node<T>>>,
}

impl<T> Node<T> {
    spec fn view(self) -> Seq<T>
        decreases self,
    {
        match self.next {
            None => seq![self.data],
            Some(n) => seq![self.data] + n.view(),
        }
    }
}

pub struct SinglyLinkedList<T> {
    head: Option<Box<Node<T>>>,
    count: u64,
}

impl<T> View for SinglyLinkedList<T> {
    type V = Seq<T>;

    closed spec fn view(&self) -> Seq<T> {
        match self.head {
            None => Seq::empty(),
            Some(n) => n.view(),
        }
    }
}

impl<T> SinglyLinkedList<T> {
    /// The internal count always mirrors the number of nodes.
    pub closed spec fn wf(&self) -> bool {
        self.count == self@.len()
    }

    pub fn new() -> (r: Self)
        ensures
            r.wf(),
            r@ == Seq::<T>::empty(),
    {
        Self { head: None, count: 0 }
    }

    pub fn push(&mut self, data: T)
        requires
            old(self).wf(),
            old(self)@.len() < u64::MAX,
        ensures
            final(self).wf(),
            final(self)@ == seq![data] + old(self)@,
    {
        let node = Box::new(Node { data, next: self.head.take() });
        self.head = Some(node);
        self.count = self.count + 1;
        proof {
            assert(self@ =~= seq![data] + old(self)@);
        }
    }

    pub fn pop(&mut self) -> (r: Option<T>)
        requires
            old(self).wf(),
        ensures
            final(self).wf(),
            match r {
                Some(v) => old(self)@.len() > 0 && v == old(self)@[0] && final(self)@ == old(
                    self,
                )@.drop_first(),
                None => old(self)@.len() == 0 && *final(self) == *old(self),
            },
    {
        match self.head.take() {
            None => None,
            Some(node) => {
                let n = *node;
                self.head = n.next;
                self.count = self.count - 1;
                proof {
                    assert(self@ =~= old(self)@.drop_first());
                }
                Some(n.data)
            },
        }
    }
}

} // verus!
