//! Small collections used by the graph algorithms: a stack, a FIFO queue,
//! and a dense list indexed by signed node identifier.

use std::collections::VecDeque;
use vstd::prelude::*;
use crate::structs::NodeBoundaries;

verus! {

/// A last-in, first-out stack.
pub struct Stack<T> {
    stack: Vec<T>,
}

impl<T> View for Stack<T> {
    type V = Seq<T>;

    /// The items, bottom first.
    closed spec fn view(&self) -> Seq<T> {
        self.stack@
    }
}

impl<T> Stack<T> {
    pub fn new() -> (r: Stack<T>)
        ensures
            r@ == Seq::<T>::empty(),
    {
        Stack { stack: Vec::new() }
    }

    /// Removes and returns the top item; `None` when empty.
    pub fn pop(&mut self) -> (r: Option<T>)
        ensures
            old(self)@.len() == 0 ==> r is None && final(self)@ == old(self)@,
            old(self)@.len() > 0 ==> r == Some(old(self)@.last()) && final(self)@ == old(self)@.drop_last(),
    {
        self.stack.pop()
    }

    /// Removes and returns the top item of a non-empty stack.
    pub fn upop(&mut self) -> (r: T)
        requires
            old(self)@.len() > 0,
        ensures
            r == old(self)@.last(),
            final(self)@ == old(self)@.drop_last(),
    {
        self.stack.pop().unwrap()
    }

    pub fn push(&mut self, item: T)
        ensures
            final(self)@ == old(self)@.push(item),
    {
        self.stack.push(item)
    }

    pub fn is_empty(&self) -> (r: bool)
        ensures
            r == (self@.len() == 0),
    {
        self.stack.is_empty()
    }
}

/// A first-in, first-out queue.
pub struct Queue<T> {
    queue: VecDeque<T>,
}

impl<T> View for Queue<T> {
    type V = Seq<T>;

    /// The items, front first.
    closed spec fn view(&self) -> Seq<T> {
        self.queue@
    }
}

impl<T> Queue<T> {
    pub fn new() -> (r: Queue<T>)
        ensures
            r@ == Seq::<T>::empty(),
    {
        Queue { queue: VecDeque::new() }
    }

    /// Removes and returns the front item; `None` when empty.
    pub fn poll(&mut self) -> (r: Option<T>)
        ensures
            old(self)@.len() == 0 ==> r is None && final(self)@ == old(self)@,
            old(self)@.len() > 0 ==> r == Some(old(self)@[0]) && final(self)@ == old(self)@.drop_first(),
    {
        self.queue.pop_front()
    }

    /// Removes and returns the front item of a non-empty queue.
    pub fn upoll(&mut self) -> (r: T)
        requires
            old(self)@.len() > 0,
        ensures
            r == old(self)@[0],
            final(self)@ == old(self)@.drop_first(),
    {
        self.queue.pop_front().unwrap()
    }

    pub fn push(&mut self, item: T)
        ensures
            final(self)@ == old(self)@.push(item),
    {
        self.queue.push_back(item)
    }

    pub fn is_empty(&self) -> (r: bool)
        ensures
            r == (self@.len() == 0),
    {
        self.queue.len() == 0
    }
}

/// A dense list with one slot for each identifier of a boundary range; the
/// slot of identifier `i` is at position `i - min_node`.
pub struct OffsetList<T> {
    vec: Vec<T>,
    offset: usize,
    total_nodes: usize,
    node_boundaries: NodeBoundaries,
}

impl<T> OffsetList<T> {
    pub closed spec fn spec_len(&self) -> nat {
        self.vec@.len()
    }

    pub closed spec fn spec_boundaries(&self) -> NodeBoundaries {
        self.node_boundaries
    }

    pub closed spec fn wf(&self) -> bool {
        &&& self.vec@.len() == self.total_nodes
        &&& self.total_nodes == self.node_boundaries.spec_len()
        &&& self.offset == -self.node_boundaries.min_node
        &&& self.node_boundaries.wf()
    }

    /// The value in the slot of identifier `index`.
    pub closed spec fn spec_at(&self, index: i64) -> T {
        self.vec@[index + self.offset]
    }

    /// One slot holding a clone of `default` for each identifier of `boundaries`.
    pub fn new(default: T, boundaries: NodeBoundaries) -> (r: OffsetList<T>)
        where
            T: Clone,
        requires
            boundaries.wf(),
            boundaries.spec_len() <= usize::MAX,
        ensures
            r.wf(),
            r.spec_len() == boundaries.spec_len(),
            r.spec_boundaries() == boundaries,
            forall|i: i64| boundaries.min_node <= i <= boundaries.max_node ==> cloned(default, #[trigger] r.spec_at(i)),
    {
        let negative_size = (-(boundaries.min_node as i128)) as usize;
        let size = boundaries.len();
        let ghost d = default;
        let r = OffsetList {
            vec: vec![default; size],
            offset: negative_size,
            total_nodes: size,
            node_boundaries: boundaries,
        };
        proof {
            assert forall|i: i64| boundaries.min_node <= i <= boundaries.max_node implies cloned(d, #[trigger] r.spec_at(i)) by {
                assert(0 <= i + r.offset < size);
            }
        }
        r
    }

    pub fn len(&self) -> (r: usize)
        ensures
            r == self.spec_len(),
    {
        self.vec.len()
    }

    pub fn total_nodes(&self) -> (r: usize)
        requires
            self.wf(),
        ensures
            r == self.spec_len(),
    {
        self.total_nodes
    }

    pub fn node_boundaries(&self) -> (r: &NodeBoundaries)
        ensures
            *r == self.spec_boundaries(),
    {
        &self.node_boundaries
    }

    /// The value in the slot of identifier `index`, which must lie in the range.
    pub fn get(&self, index: i64) -> (r: &T)
        requires
            self.wf(),
            self.spec_boundaries().min_node <= index <= self.spec_boundaries().max_node,
        ensures
            *r == self.spec_at(index),
    {
        &self.vec[(self.offset as i128 + index as i128) as usize]
    }

    /// Replaces the value in the slot of identifier `index`, which must lie in the range.
    pub fn set(&mut self, index: i64, value: T)
        requires
            old(self).wf(),
            old(self).spec_boundaries().min_node <= index <= old(self).spec_boundaries().max_node,
        ensures
            final(self).wf(),
            final(self).spec_boundaries() == old(self).spec_boundaries(),
            final(self).spec_at(index) == value,
            forall|j: i64| j != index && old(self).spec_boundaries().min_node <= j <= old(self).spec_boundaries().max_node
                ==> #[trigger] final(self).spec_at(j) == old(self).spec_at(j),
    {
        let pos = (self.offset as i128 + index as i128) as usize;
        self.vec.set(pos, value);
    }
}

} // verus!
