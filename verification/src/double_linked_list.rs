//! A doubly linked list used as a stack: `push` adds at the tail and `pop`
//! takes from the tail.
//!
//! The nodes live in a vector in list order and link to their neighbours by
//! position.
use vstd::prelude::*;

verus! {

/// A node: a value and the positions of its neighbours.
pub struct Node<T> {
    pub value: T,
    pub next: Option<usize>,
    pub prev: Option<usize>,
}

impl<T> Node<T> {
    /// A node that is not linked to any other.
    pub fn new(value: T) -> (r: Self)
        ensures
            r.value == value,
            r.next is None,
            r.prev is None,
    {
        Node { value, next: None, prev: None }
    }
}

/// A doubly linked list of values.
pub struct List<T> {
    nodes: Vec<Node<T>>,
    head: Option<usize>,
    tail: Option<usize>,
}

impl<T> List<T> {
    /// The values from head to tail.
    pub closed spec fn view(&self) -> Seq<T> {
        self.nodes@.map_values(|n: Node<T>| n.value)
    }

    /// Every node links to its neighbours; head and tail name the ends.
    pub closed spec fn wf(&self) -> bool {
        let n = self.nodes@.len();
        &&& forall|i: int|
            #![trigger self.nodes@[i]]
            0 <= i < n ==> self.nodes@[i].prev == (if i == 0 {
                None
            } else {
                Some((i - 1) as usize)
            }) && self.nodes@[i].next == (if i + 1 == n {
                None
            } else {
                Some((i + 1) as usize)
            })
        &&& self.head == (if n == 0 {
            None
        } else {
            Some(0usize)
        })
        &&& self.tail == (if n == 0 {
            None
        } else {
            Some((n - 1) as usize)
        })
    }

    /// An empty list.
    pub fn new() -> (r: Self)
        ensures
            r.wf(),
            r@ == Seq::<T>::empty(),
    {
        let r = List { nodes: Vec::new(), head: None, tail: None };
        assert(r@ =~= Seq::<T>::empty());
        r
    }

    /// Adds a value at the tail.
    pub fn push(&mut self, value: T)
        requires
            old(self).wf(),
            old(self)@.len() < usize::MAX,
        ensures
            final(self).wf(),
            final(self)@ == old(self)@.push(value),
    {
        let ghost v = value;
        let idx = self.nodes.len();
        let mut node = Node::new(value);
        match self.tail {
            Some(t) => {
                let mut last = self.nodes.pop().unwrap();
                last.next = Some(idx);
                self.nodes.push(last);
                node.prev = Some(t);
            },
            None => {
                self.head = Some(idx);
            },
        }
        self.nodes.push(node);
        self.tail = Some(idx);
        proof {
            assert forall|i: int|
                #![trigger self.nodes@[i]]
                0 <= i < self.nodes@.len() implies self.nodes@[i].prev == (if i == 0 {
                None
            } else {
                Some((i - 1) as usize)
            }) && self.nodes@[i].next == (if i + 1 == self.nodes@.len() {
                None
            } else {
                Some((i + 1) as usize)
            }) by {
                if i + 1 < idx {
                    assert(self.nodes@[i] == old(self).nodes@[i]);
                }
            }
            assert(self@ =~= old(self)@.push(v)) by {
                assert forall|i: int| 0 <= i < idx implies self@[i] == old(self)@[i] by {
                    assert(self.nodes@[i].value == old(self).nodes@[i].value);
                }
            }
        }
    }

    /// Removes the value at the tail and returns it, or None if the list is
    /// empty.
    pub fn pop(&mut self) -> (r: Option<T>)
        requires
            old(self).wf(),
        ensures
            final(self).wf(),
            old(self)@.len() == 0 ==> r is None && final(self)@ == old(self)@,
            old(self)@.len() > 0 ==> r == Some(old(self)@.last()) && final(self)@ == old(
                self,
            )@.drop_last(),
    {
        if self.tail.is_none() {
            return None;
        }
        let node = self.nodes.pop().unwrap();
        match node.prev {
            Some(p) => {
                let mut last = self.nodes.pop().unwrap();
                last.next = None;
                self.nodes.push(last);
                self.tail = Some(p);
            },
            None => {
                self.head = None;
                self.tail = None;
            },
        }
        proof {
            let n = self.nodes@.len();
            assert forall|i: int|
                #![trigger self.nodes@[i]]
                0 <= i < n implies self.nodes@[i].prev == (if i == 0 {
                None
            } else {
                Some((i - 1) as usize)
            }) && self.nodes@[i].next == (if i + 1 == n {
                None
            } else {
                Some((i + 1) as usize)
            }) by {
                assert(old(self).nodes@[i].prev == self.nodes@[i].prev);
                if i + 1 < n {
                    assert(self.nodes@[i] == old(self).nodes@[i]);
                }
            }
            assert(self@ =~= old(self)@.drop_last()) by {
                assert forall|i: int| 0 <= i < n implies self@[i] == old(self)@[i] by {
                    assert(self.nodes@[i].value == old(self).nodes@[i].value);
                }
            }
        }
        Some(node.value)
    }

    /// Always None: this list offers no borrowing access to its values.
    pub fn peek(&self) -> (r: Option<&T>)
        ensures
            r is None,
    {
        None
    }

    /// Always None: this list offers no borrowing access to its values.
    pub fn peek_mut(&mut self) -> (r: Option<&mut T>)
        ensures
            r is None,
            final(self)@ == old(self)@,
    {
        None
    }
}

} // verus!
