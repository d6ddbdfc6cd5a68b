//! A least-recently-used cache: a hash index from keys to the nodes of a
//! doubly linked recency list.
//!
//! The list keeps its nodes in slots of an arena and links them by slot
//! number. A node is named by a handle: its slot and the generation of the
//! slot, which changes each time the slot is freed, so that the handle of a
//! removed node never names a later one.
use crate::hashmap::HashMap;
use std::rc::Rc;
use vstd::prelude::*;

verus! {

/// Names a node of a `List`.
#[derive(Clone, Copy, Debug, PartialEq, Eq, Structural)]
pub struct NodeRef {
    index: usize,
    generation: u64,
}

/// A node of the list: a key and a shared value, with the slots of its
/// neighbours while it is in a list.
pub struct Node<K, V> {
    pub value: Rc<V>,
    pub key: K,
    pub next: Option<usize>,
    pub prev: Option<usize>,
}

struct Slot<K, V> {
    generation: u64,
    node: Option<Node<K, V>>,
}

/// What a list holds at one position.
pub struct ListEntry<K, V> {
    pub handle: NodeRef,
    pub key: K,
    pub value: V,
}

/// A doubly linked list; new nodes enter at the head and old ones leave at
/// the tail.
pub struct List<K, V> {
    slots: Vec<Slot<K, V>>,
    head: Option<usize>,
    tail: Option<usize>,
    free: Vec<usize>,
    order: Ghost<Seq<usize>>,
}

/// `Rc::clone`, which returns a new pointer to the same allocation, hence
/// to the same value.
#[verifier::external_body]
fn clone_rc<V>(r: &Rc<V>) -> (c: Rc<V>)
    ensures
        c == *r,
{
    r.clone()
}

spec fn prev_in(order: Seq<usize>, i: int) -> Option<usize> {
    if i == 0 {
        None
    } else {
        Some(order[i - 1])
    }
}

spec fn next_in(order: Seq<usize>, i: int) -> Option<usize> {
    if i + 1 >= order.len() {
        None
    } else {
        Some(order[i + 1])
    }
}

spec fn node_of<K, V>(slots: Seq<Slot<K, V>>, s: int) -> Node<K, V> {
    slots[s].node->Some_0
}

spec fn entry_of<K, V>(slots: Seq<Slot<K, V>>, s: usize) -> ListEntry<K, V> {
    ListEntry {
        handle: NodeRef { index: s, generation: slots[s as int].generation },
        key: node_of(slots, s as int).key,
        value: *node_of(slots, s as int).value,
    }
}

spec fn entries_of<K, V>(slots: Seq<Slot<K, V>>, order: Seq<usize>) -> Seq<ListEntry<K, V>> {
    Seq::new(order.len(), |i: int| entry_of(slots, order[i]))
}

/// Each slot of `order` holds a node linked to its neighbours in `order`.
spec fn links_ok<K, V>(slots: Seq<Slot<K, V>>, order: Seq<usize>) -> bool {
    &&& order.no_duplicates()
    &&& forall|i: int|
        #![trigger order[i]]
        0 <= i < order.len() ==> {
            &&& order[i] < slots.len()
            &&& slots[order[i] as int].node is Some
            &&& node_of(slots, order[i] as int).prev == prev_in(order, i)
            &&& node_of(slots, order[i] as int).next == next_in(order, i)
        }
}

/// Slot `t` is at some position of `order`.
spec fn in_order(order: Seq<usize>, t: int) -> bool {
    exists|k: int| 0 <= k < order.len() && order[k] as int == t
}

/// Every slot that holds a node is in `order`.
spec fn covers<K, V>(slots: Seq<Slot<K, V>>, order: Seq<usize>) -> bool {
    forall|t: int|
        #![trigger slots[t]]
        0 <= t < slots.len() && slots[t].node is Some ==> in_order(order, t)
}

/// The free list names distinct empty slots.
spec fn free_ok<K, V>(slots: Seq<Slot<K, V>>, free: Seq<usize>) -> bool {
    &&& free.no_duplicates()
    &&& forall|j: int|
        #![trigger free[j]]
        0 <= j < free.len() ==> free[j] < slots.len() && slots[free[j] as int].node is None
}

/// Linking a node in front of the list.
proof fn lemma_push_front<K, V>(
    s1: Seq<Slot<K, V>>,
    s2: Seq<Slot<K, V>>,
    order: Seq<usize>,
    idx: usize,
)
    requires
        links_ok(s1, order),
        idx < s1.len(),
        !order.contains(idx),
        s2.len() == s1.len(),
        s2[idx as int].node is Some,
        node_of(s2, idx as int).prev is None,
        node_of(s2, idx as int).next == (if order.len() == 0 {
            None
        } else {
            Some(order[0])
        }),
        order.len() > 0 ==> s2[order[0] as int].generation == s1[order[0] as int].generation
            && s2[order[0] as int].node == Some(
            Node { prev: Some(idx), ..node_of(s1, order[0] as int) },
        ),
        forall|t: int|
            0 <= t < s1.len() && t != idx && (order.len() == 0 || t != order[0]) ==> s2[t] == s1[t],
    ensures
        links_ok(s2, seq![idx] + order),
        entries_of(s2, seq![idx] + order) == seq![entry_of(s2, idx)] + entries_of(s1, order),
{
    let o2 = seq![idx] + order;
    assert forall|i: int|
        #![trigger o2[i]]
        0 <= i < o2.len() implies {
        &&& o2[i] < s2.len()
        &&& s2[o2[i] as int].node is Some
        &&& node_of(s2, o2[i] as int).prev == prev_in(o2, i)
        &&& node_of(s2, o2[i] as int).next == next_in(o2, i)
    } by {
        if i > 0 {
            assert(o2[i] == order[i - 1]);
            assert(order[i - 1] < s1.len());
        }
    }
    assert(o2.no_duplicates()) by {
        assert forall|a: int, b: int| 0 <= a < b < o2.len() implies o2[a] != o2[b] by {
            if a > 0 {
                assert(o2[a] == order[a - 1]);
            }
            assert(o2[b] == order[b - 1]);
        }
    }
    assert(entries_of(s2, o2) =~= seq![entry_of(s2, idx)] + entries_of(s1, order)) by {
        assert forall|i: int| 1 <= i < o2.len() implies entry_of(s2, o2[i]) == entry_of(
            s1,
            order[i - 1],
        ) by {
            assert(o2[i] == order[i - 1]);
            assert(order[i - 1] != idx);
            assert(order[i - 1] < s1.len());
            if i > 1 {
                assert(order[i - 1] != order[0]);
            }
        }
    }
}

/// The slot at position `j` of `order` differs from the slots at the
/// positions around `p`, unless it is one of them.
proof fn lemma_distinct_positions(order: Seq<usize>, j: int, p: int)
    requires
        order.no_duplicates(),
        0 <= j < order.len(),
        0 <= p < order.len(),
    ensures
        j != p ==> order[j] != order[p],
        p > 0 && j != p - 1 ==> order[j] != order[p - 1],
        p + 1 < order.len() && j != p + 1 ==> order[j] != order[p + 1],
{
}

/// Removing a position keeps the positions distinct.
proof fn lemma_remove_no_duplicates(order: Seq<usize>, p: int)
    requires
        order.no_duplicates(),
        0 <= p < order.len(),
    ensures
        order.remove(p).no_duplicates(),
{
    let o2 = order.remove(p);
    assert forall|a: int, b: int| 0 <= a < b < o2.len() implies o2[a] != o2[b] by {
        let ja = if a < p {
            a
        } else {
            a + 1
        };
        let jb = if b < p {
            b
        } else {
            b + 1
        };
        assert(o2[a] == order[ja]);
        assert(o2[b] == order[jb]);
    }
}

/// Unlinking the node at position `p` of the list.
#[verifier::spinoff_prover]
proof fn lemma_unlink<K, V>(s1: Seq<Slot<K, V>>, s2: Seq<Slot<K, V>>, order: Seq<usize>, p: int)
    requires
        links_ok(s1, order),
        0 <= p < order.len(),
        s2.len() == s1.len(),
        p > 0 ==> s2[order[p - 1] as int].generation == s1[order[p - 1] as int].generation
            && s2[order[p - 1] as int].node == Some(
            Node { next: next_in(order, p), ..node_of(s1, order[p - 1] as int) },
        ),
        p + 1 < order.len() ==> s2[order[p + 1] as int].generation == s1[order[p
            + 1] as int].generation && s2[order[p + 1] as int].node == Some(
            Node { prev: prev_in(order, p), ..node_of(s1, order[p + 1] as int) },
        ),
        forall|t: int|
            0 <= t < s1.len() && t != order[p] && (p == 0 || t != order[p - 1]) && (p + 1
                >= order.len() || t != order[p + 1]) ==> s2[t] == s1[t],
    ensures
        links_ok(s2, order.remove(p)),
        entries_of(s2, order.remove(p)) == entries_of(s1, order).remove(p),
{
    let o2 = order.remove(p);
    lemma_remove_no_duplicates(order, p);
    assert forall|i: int|
        #![trigger o2[i]]
        0 <= i < o2.len() implies {
        &&& o2[i] < s2.len()
        &&& s2[o2[i] as int].node is Some
        &&& node_of(s2, o2[i] as int).prev == prev_in(o2, i)
        &&& node_of(s2, o2[i] as int).next == next_in(o2, i)
    } by {
        let j = if i < p {
            i
        } else {
            i + 1
        };
        assert(o2[i] == order[j]);
        assert(order[j] < s1.len());
        lemma_distinct_positions(order, j, p);
        if i > 0 {
            let jp = if i - 1 < p {
                i - 1
            } else {
                i
            };
            assert(o2[i - 1] == order[jp]);
        }
        if i + 1 < o2.len() {
            let jn = if i + 1 < p {
                i + 1
            } else {
                i + 2
            };
            assert(o2[i + 1] == order[jn]);
        }
    }
    assert(entries_of(s2, o2) =~= entries_of(s1, order).remove(p)) by {
        assert forall|i: int| 0 <= i < o2.len() implies entry_of(s2, o2[i]) == entry_of(
            s1,
            order[if i < p {
                i
            } else {
                i + 1
            }],
        ) by {
            let j = if i < p {
                i
            } else {
                i + 1
            };
            assert(o2[i] == order[j]);
            assert(order[j] < s1.len());
            lemma_distinct_positions(order, j, p);
        }
    }
}

/// After unlinking position `p`, every slot that holds a node is still in
/// the list.
proof fn lemma_detach_covers<K, V>(
    s0: Seq<Slot<K, V>>,
    s1: Seq<Slot<K, V>>,
    order: Seq<usize>,
    p: int,
)
    requires
        order.no_duplicates(),
        covers(s0, order),
        0 <= p < order.len(),
        s1.len() == s0.len(),
        s1[order[p] as int].node is None,
        forall|t: int|
            0 <= t < s0.len() && t != order[p] && (p == 0 || t != order[p - 1]) && (p + 1
                >= order.len() || t != order[p + 1]) ==> s1[t] == s0[t],
    ensures
        covers(s1, order.remove(p)),
{
    let o2 = order.remove(p);
    assert forall|u: int|
        #![trigger s1[u]]
        0 <= u < s1.len() && s1[u].node is Some implies in_order(o2, u) by {
        if p > 0 && u == order[p - 1] {
            assert(o2[p - 1] == order[p - 1]);
        } else if p + 1 < order.len() && u == order[p + 1] {
            assert(o2[p] == order[p + 1]);
        } else {
            assert(u != order[p]);
            assert(s0[u] == s1[u]);
            let k = choose|k: int| 0 <= k < order.len() && order[k] as int == u;
            if k < p {
                assert(o2[k] as int == u);
            } else {
                assert(k != p);
                assert(o2[k - 1] as int == u);
            }
        }
    }
}

/// Unlinking the node at position `p` and emptying its slot keeps the
/// other nodes linked, covered and the free list valid.
proof fn lemma_detach<K, V>(
    s0: Seq<Slot<K, V>>,
    s1: Seq<Slot<K, V>>,
    order: Seq<usize>,
    p: int,
    free: Seq<usize>,
)
    requires
        links_ok(s0, order),
        covers(s0, order),
        free_ok(s0, free),
        0 <= p < order.len(),
        s1.len() == s0.len(),
        s1[order[p] as int].node is None,
        p > 0 ==> s1[order[p - 1] as int].generation == s0[order[p - 1] as int].generation
            && s1[order[p - 1] as int].node == Some(
            Node { next: next_in(order, p), ..node_of(s0, order[p - 1] as int) },
        ),
        p + 1 < order.len() ==> s1[order[p + 1] as int].generation == s0[order[p
            + 1] as int].generation && s1[order[p + 1] as int].node == Some(
            Node { prev: prev_in(order, p), ..node_of(s0, order[p + 1] as int) },
        ),
        forall|t: int|
            0 <= t < s0.len() && t != order[p] && (p == 0 || t != order[p - 1]) && (p + 1
                >= order.len() || t != order[p + 1]) ==> s1[t] == s0[t],
    ensures
        links_ok(s1, order.remove(p)),
        entries_of(s1, order.remove(p)) == entries_of(s0, order).remove(p),
        covers(s1, order.remove(p)),
        free_ok(s1, free),
        !free.contains(order[p]),
        !order.remove(p).contains(order[p]),
        order[p] < s0.len(),
{
    lemma_unlink(s0, s1, order, p);
    lemma_detach_covers(s0, s1, order, p);
    lemma_detach_free(s0, s1, order, p, free);
    let o2 = order.remove(p);
    let i = order[p];
    assert(!o2.contains(i)) by {
        if o2.contains(i) {
            let k = choose|k: int| 0 <= k < o2.len() && o2[k] == i;
            let j = if k < p {
                k
            } else {
                k + 1
            };
            assert(o2[k] == order[j]);
        }
    }
}

/// After unlinking position `p`, the free list still names empty slots and
/// does not name the slot of the unlinked node.
proof fn lemma_detach_free<K, V>(
    s0: Seq<Slot<K, V>>,
    s1: Seq<Slot<K, V>>,
    order: Seq<usize>,
    p: int,
    free: Seq<usize>,
)
    requires
        links_ok(s0, order),
        free_ok(s0, free),
        0 <= p < order.len(),
        s1.len() == s0.len(),
        s1[order[p] as int].node is None,
        forall|t: int|
            0 <= t < s0.len() && t != order[p] && (p == 0 || t != order[p - 1]) && (p + 1
                >= order.len() || t != order[p + 1]) ==> s1[t] == s0[t],
    ensures
        free_ok(s1, free),
        !free.contains(order[p]),
        order[p] < s0.len(),
{
    assert(order[p] < s0.len());
    assert forall|j: int|
        #![trigger free[j]]
        0 <= j < free.len() implies free[j] < s1.len() && s1[free[j] as int].node is None by {
        assert(s0[free[j] as int].node is None);
        assert(s0[order[p] as int].node is Some);
        if p > 0 {
            assert(s0[order[p - 1] as int].node is Some);
        }
        if p + 1 < order.len() {
            assert(s0[order[p + 1] as int].node is Some);
        }
    }
    assert(!free.contains(order[p])) by {
        if free.contains(order[p]) {
            let j = choose|j: int| 0 <= j < free.len() && free[j] == order[p];
            assert(s0[free[j] as int].node is None);
        }
    }
}

/// Changing the generation of an empty slot outside the list changes
/// neither the links nor the entries.
proof fn lemma_regenerate<K, V>(
    s1: Seq<Slot<K, V>>,
    s2: Seq<Slot<K, V>>,
    order: Seq<usize>,
    t: usize,
)
    requires
        links_ok(s1, order),
        covers(s1, order),
        !order.contains(t),
        t < s1.len(),
        s2.len() == s1.len(),
        s2[t as int].node is None,
        forall|u: int| 0 <= u < s1.len() && u != t ==> #[trigger] s2[u] == s1[u],
    ensures
        links_ok(s2, order),
        covers(s2, order),
        entries_of(s2, order) == entries_of(s1, order),
{
    assert forall|i: int|
        #![trigger order[i]]
        0 <= i < order.len() implies {
        &&& order[i] < s2.len()
        &&& s2[order[i] as int].node is Some
        &&& node_of(s2, order[i] as int).prev == prev_in(order, i)
        &&& node_of(s2, order[i] as int).next == next_in(order, i)
    } by {
        assert(order[i] != t);
        assert(s2[order[i] as int] == s1[order[i] as int]);
    }
    assert forall|u: int|
        #![trigger s2[u]]
        0 <= u < s2.len() && s2[u].node is Some implies in_order(order, u) by {
        assert(s1[u] == s2[u]);
    }
    assert(entries_of(s2, order) =~= entries_of(s1, order)) by {
        assert forall|i: int| 0 <= i < order.len() implies entry_of(s2, order[i]) == entry_of(
            s1,
            order[i],
        ) by {
            assert(order[i] != t);
            assert(s2[order[i] as int] == s1[order[i] as int]);
        }
    }
}

/// Linking a detached node in front keeps every node covered and the free
/// list valid.
proof fn lemma_front_bookkeeping<K, V>(
    s1: Seq<Slot<K, V>>,
    s2: Seq<Slot<K, V>>,
    order: Seq<usize>,
    idx: usize,
    free: Seq<usize>,
)
    requires
        links_ok(s1, order),
        covers(s1, order),
        free_ok(s1, free),
        !free.contains(idx),
        idx < s1.len(),
        s2.len() == s1.len(),
        order.len() > 0 ==> s2[order[0] as int].node is Some,
        forall|t: int|
            0 <= t < s1.len() && t != idx && (order.len() == 0 || t != order[0]) ==> s2[t] == s1[t],
    ensures
        covers(s2, seq![idx] + order),
        free_ok(s2, free),
{
    let o2 = seq![idx] + order;
    assert forall|u: int|
        #![trigger s2[u]]
        0 <= u < s2.len() && s2[u].node is Some implies in_order(o2, u) by {
        if u == idx {
            assert(o2[0] == idx);
        } else if order.len() > 0 && u == order[0] {
            assert(o2[1] == order[0]);
        } else {
            assert(s1[u] == s2[u]);
            let k = choose|k: int| 0 <= k < order.len() && order[k] as int == u;
            assert(o2[k + 1] as int == u);
        }
    }
    assert forall|j: int|
        #![trigger free[j]]
        0 <= j < free.len() implies free[j] < s2.len() && s2[free[j] as int].node is None by {
        assert(free[j] != idx);
        assert(s1[free[j] as int].node is None);
        if order.len() > 0 {
            assert(order[0] < s1.len());
            assert(s1[order[0] as int].node is Some);
        }
    }
}

/// Once the node's slot is in no list position, it is not the slot of any
/// entry's handle.
proof fn lemma_fresh_slot<K, V>(slots: Seq<Slot<K, V>>, order: Seq<usize>, idx: usize, h: NodeRef)
    requires
        !order.contains(idx),
        h.index == idx,
    ensures
        forall|j: int| 0 <= j < order.len() ==> #[trigger] entries_of(slots, order)[j].handle != h,
{
    assert forall|j: int| 0 <= j < order.len() implies #[trigger] entries_of(slots, order)[j].handle
        != h by {
        assert(order[j] != idx);
    }
}

impl<K, V> List<K, V> {
    /// The entries from head to tail.
    pub closed spec fn view(&self) -> Seq<ListEntry<K, V>> {
        entries_of(self.slots@, self.order@)
    }

    /// The list's links agree with the order of its entries.
    pub closed spec fn wf(&self) -> bool {
        let order = self.order@;
        &&& links_ok(self.slots@, order)
        &&& covers(self.slots@, order)
        &&& self.head == (if order.len() == 0 {
            None
        } else {
            Some(order[0])
        })
        &&& self.tail == (if order.len() == 0 {
            None
        } else {
            Some(order.last())
        })
        &&& free_ok(self.slots@, self.free@)
    }

    /// The position of the entry named by `h`, if any.
    pub open spec fn position_of(entries: Seq<ListEntry<K, V>>, h: NodeRef) -> Option<int> {
        if exists|i: int| 0 <= i < entries.len() && #[trigger] entries[i].handle == h {
            Some(choose|i: int| 0 <= i < entries.len() && #[trigger] entries[i].handle == h)
        } else {
            None
        }
    }

    /// A new, empty list.
    pub fn new() -> (r: Self)
        ensures
            r.wf(),
            r@ == Seq::<ListEntry<K, V>>::empty(),
    {
        let r = List {
            slots: Vec::new(),
            head: None,
            tail: None,
            free: Vec::new(),
            order: Ghost(Seq::empty()),
        };
        assert(r@ =~= Seq::<ListEntry<K, V>>::empty());
        r
    }

    proof fn lemma_position(&self, i: int)
        requires
            self.wf(),
            0 <= i < self@.len(),
        ensures
            Self::position_of(self@, self@[i].handle) == Some(i),
    {
        let h = self@[i].handle;
        assert(self@[i].handle == h);
        let p = choose|j: int| 0 <= j < self@.len() && #[trigger] self@[j].handle == h;
        assert(self@[p].handle == h);
        assert(self.order@[p] == self.order@[i]);
    }

    proof fn lemma_live(&self, h: NodeRef)
        requires
            self.wf(),
        ensures
            (Self::position_of(self@, h) is Some) == (h.index < self.slots@.len()
                && self.slots@[h.index as int].node is Some && self.slots@[h.index as int].generation
                == h.generation),
            Self::position_of(self@, h) matches Some(p) ==> 0 <= p < self@.len() && self.order@[p]
                == h.index && self@[p].handle == h,
    {
        if h.index < self.slots@.len() && self.slots@[h.index as int].node is Some
            && self.slots@[h.index as int].generation == h.generation {
            assert(self.slots@[h.index as int].node is Some);
            let i = choose|i: int| 0 <= i < self.order@.len() && self.order@[i] == h.index;
            assert(self@[i].handle == h);
            self.lemma_position(i);
        }
        if Self::position_of(self@, h) is Some {
            let p = choose|j: int| 0 <= j < self@.len() && #[trigger] self@[j].handle == h;
            assert(self@[p].handle == h);
            assert(self.order@[p] == h.index);
        }
    }

    fn set_prev(&mut self, s: usize, p: Option<usize>)
        requires
            s < old(self).slots@.len(),
            old(self).slots@[s as int].node is Some,
        ensures
            final(self).slots@ == old(self).slots@.update(
                s as int,
                Slot {
                    generation: old(self).slots@[s as int].generation,
                    node: Some(Node { prev: p, ..node_of(old(self).slots@, s as int) }),
                },
            ),
            final(self).head == old(self).head,
            final(self).tail == old(self).tail,
            final(self).free == old(self).free,
            final(self).order == old(self).order,
    {
        let mut node = self.slots[s].node.take().unwrap();
        node.prev = p;
        self.slots[s].node = Some(node);
    }

    fn set_next(&mut self, s: usize, n: Option<usize>)
        requires
            s < old(self).slots@.len(),
            old(self).slots@[s as int].node is Some,
        ensures
            final(self).slots@ == old(self).slots@.update(
                s as int,
                Slot {
                    generation: old(self).slots@[s as int].generation,
                    node: Some(Node { next: n, ..node_of(old(self).slots@, s as int) }),
                },
            ),
            final(self).head == old(self).head,
            final(self).tail == old(self).tail,
            final(self).free == old(self).free,
            final(self).order == old(self).order,
    {
        let mut node = self.slots[s].node.take().unwrap();
        node.next = n;
        self.slots[s].node = Some(node);
    }

    /// Adds a node at the head of the list and returns its handle.
    pub fn enqueue(&mut self, key: K, value: V) -> (h: NodeRef)
        requires
            old(self).wf(),
        ensures
            final(self).wf(),
            Self::position_of(old(self)@, h) is None,
            final(self)@ == seq![ListEntry { handle: h, key, value }] + old(self)@,
    {
        let ghost order = self.order@;
        let ghost v = value;
        let value = Rc::new(value);
        let idx = match self.free.pop() {
            Some(f) => {
                assert(old(self).free@[old(self).free@.len() - 1] == f);
                f
            },
            None => {
                self.slots.push(Slot { generation: 0, node: None });
                self.slots.len() - 1
            },
        };
        proof {
            assert(self.slots@[idx as int].node is None);
            if order.contains(idx) {
                let i = choose|i: int| 0 <= i < order.len() && order[i] == idx;
                assert(order[i] < old(self).slots@.len());
            }
            assert(free_ok(self.slots@, self.free@)) by {
                assert forall|j: int|
                    #![trigger self.free@[j]]
                    0 <= j < self.free@.len() implies self.free@[j] < self.slots@.len()
                    && self.slots@[self.free@[j] as int].node is None by {
                    assert(old(self).free@[j] == self.free@[j]);
                }
            }
            assert forall|j: int| 0 <= j < self.free@.len() implies #[trigger] self.free@[j]
                != idx by {
                assert(old(self).free@[j] == self.free@[j]);
            }
        }
        let ghost s0 = self.slots@;
        let next = self.head;
        match self.head {
            Some(old_head) => self.set_prev(old_head, Some(idx)),
            None => {
                self.tail = Some(idx);
            },
        }
        self.slots[idx].node = Some(Node { value, key, next, prev: None });
        self.head = Some(idx);
        let h = NodeRef { index: idx, generation: self.slots[idx].generation };
        proof {
            lemma_push_front(s0, self.slots@, order, idx);
            self.order@ = seq![idx] + order;
            lemma_fresh_slot(old(self).slots@, order, idx, h);
            assert(entries_of(old(self).slots@, order) =~= entries_of(s0, order)) by {
                assert forall|i: int| 0 <= i < order.len() implies entry_of(
                    old(self).slots@,
                    order[i],
                ) == entry_of(s0, order[i]) by {
                    assert(order[i] < old(self).slots@.len());
                }
            }
            assert(covers(self.slots@, self.order@)) by {
                assert forall|t: int|
                    #![trigger self.slots@[t]]
                    0 <= t < self.slots@.len() && self.slots@[t].node is Some implies self.order@.contains(
                    t as usize,
                ) by {
                    if t == idx {
                        assert(self.order@[0] == idx);
                    } else {
                        assert(s0[t].node is Some);
                        assert(old(self).slots@[t].node is Some);
                        let i = choose|i: int| 0 <= i < order.len() && order[i] as int == t;
                        assert(self.order@[i + 1] as int == t);
                    }
                }
            }
            assert(free_ok(self.slots@, self.free@)) by {
                assert forall|j: int|
                    #![trigger self.free@[j]]
                    0 <= j < self.free@.len() implies self.free@[j] < self.slots@.len()
                    && self.slots@[self.free@[j] as int].node is None by {
                    assert(self.free@[j] != idx);
                    if order.len() > 0 {
                        assert(s0[self.free@[j] as int].node is None);
                        assert(order[0] < s0.len());
                        assert(s0[order[0] as int].node is Some);
                    }
                }
            }
        }
        h
    }

    /// Marks an emptied slot for reuse under a new generation: the slot's
    /// generation goes up by one, so that handles to its old node name
    /// nothing, and the slot joins the free list. A slot whose generation
    /// cannot go higher is retired instead: it stays as it is and is never
    /// reused.
    fn release(&mut self, s: usize)
        requires
            s < old(self).slots@.len(),
            old(self).slots@[s as int].node is None,
            free_ok(old(self).slots@, old(self).free@),
            !old(self).free@.contains(s),
        ensures
            final(self).slots@.len() == old(self).slots@.len(),
            final(self).slots@[s as int].node is None,
            forall|t: int|
                0 <= t < old(self).slots@.len() && t != s ==> #[trigger] final(self).slots@[t]
                    == old(self).slots@[t],
            free_ok(final(self).slots@, final(self).free@),
            final(self).head == old(self).head,
            final(self).tail == old(self).tail,
            final(self).order == old(self).order,
            old(self).slots@[s as int].generation < u64::MAX ==> final(self).slots@[s as int].generation
                == old(self).slots@[s as int].generation + 1 && final(self).free@ == old(
                self,
            ).free@.push(s),
            old(self).slots@[s as int].generation == u64::MAX ==> final(self).slots@ == old(
                self,
            ).slots@ && final(self).free@ == old(self).free@,
    {
        let generation = self.slots[s].generation;
        if generation < u64::MAX {
            self.slots[s].generation = generation + 1;
            self.free.push(s);
            proof {
                assert(free_ok(self.slots@, self.free@)) by {
                    assert forall|a: int, b: int|
                        0 <= a < b < self.free@.len() implies self.free@[a] != self.free@[b] by {
                        if b == self.free@.len() - 1 {
                            assert(old(self).free@[a] != s);
                        }
                    }
                    assert forall|j: int|
                        #![trigger self.free@[j]]
                        0 <= j < self.free@.len() implies self.free@[j] < self.slots@.len()
                        && self.slots@[self.free@[j] as int].node is None by {
                        if j < old(self).free@.len() {
                            assert(old(self).free@[j] == self.free@[j]);
                        }
                    }
                }
            }
        }
    }

    /// The handle names a node of this list.
    pub fn is_live(&self, h: NodeRef) -> (r: bool)
        requires
            self.wf(),
        ensures
            r == (Self::position_of(self@, h) is Some),
    {
        proof {
            self.lemma_live(h);
        }
        h.index < self.slots.len() && self.slots[h.index].generation == h.generation
            && self.slots[h.index].node.is_some()
    }

    /// The handle of the head node.
    pub fn head(&self) -> (r: Option<NodeRef>)
        requires
            self.wf(),
        ensures
            r == (if self@.len() == 0 {
                None
            } else {
                Some(self@[0].handle)
            }),
    {
        match self.head {
            Some(s) => Some(NodeRef { index: s, generation: self.slots[s].generation }),
            None => None,
        }
    }

    /// The handle of the tail node.
    pub fn tail(&self) -> (r: Option<NodeRef>)
        requires
            self.wf(),
        ensures
            r == (if self@.len() == 0 {
                None
            } else {
                Some(self@.last().handle)
            }),
    {
        match self.tail {
            Some(s) => Some(NodeRef { index: s, generation: self.slots[s].generation }),
            None => None,
        }
    }

    /// The value of the node named by `h`.
    pub fn value(&self, h: NodeRef) -> (r: Option<Rc<V>>)
        requires
            self.wf(),
        ensures
            match Self::position_of(self@, h) {
                Some(p) => r matches Some(v) && *v == self@[p].value,
                None => r is None,
            },
    {
        proof {
            self.lemma_live(h);
        }
        if h.index < self.slots.len() && self.slots[h.index].generation == h.generation {
            match &self.slots[h.index].node {
                Some(node) => Some(clone_rc(&node.value)),
                None => None,
            }
        } else {
            None
        }
    }

    /// The key of the node named by `h`.
    pub fn key(&self, h: NodeRef) -> (r: Option<&K>)
        requires
            self.wf(),
        ensures
            match Self::position_of(self@, h) {
                Some(p) => r matches Some(k) && *k == self@[p].key,
                None => r is None,
            },
    {
        proof {
            self.lemma_live(h);
        }
        if h.index < self.slots.len() && self.slots[h.index].generation == h.generation {
            match &self.slots[h.index].node {
                Some(node) => Some(&node.key),
                None => None,
            }
        } else {
            None
        }
    }

    /// Replaces the value of the node named by `h`.
    pub fn set_value(&mut self, h: NodeRef, value: V)
        requires
            old(self).wf(),
        ensures
            final(self).wf(),
            match Self::position_of(old(self)@, h) {
                Some(p) => final(self)@ == old(self)@.update(
                    p,
                    ListEntry { handle: h, key: old(self)@[p].key, value },
                ),
                None => final(self)@ == old(self)@,
            },
    {
        proof {
            old(self).lemma_live(h);
        }
        if !self.is_live(h) {
            return ;
        }
        let ghost p = Self::position_of(old(self)@, h)->Some_0;
        let ghost v = value;
        let mut node = self.slots[h.index].node.take().unwrap();
        node.value = Rc::new(value);
        self.slots[h.index].node = Some(node);
        proof {
            let order = self.order@;
            assert forall|i: int|
                #![trigger order[i]]
                0 <= i < order.len() implies {
                &&& order[i] < self.slots@.len()
                &&& self.slots@[order[i] as int].node is Some
                &&& node_of(self.slots@, order[i] as int).prev == prev_in(order, i)
                &&& node_of(self.slots@, order[i] as int).next == next_in(order, i)
            } by {
                assert(order[i] < old(self).slots@.len());
            }
            assert(covers(self.slots@, order)) by {
                assert forall|t: int|
                    #![trigger self.slots@[t]]
                    0 <= t < self.slots@.len() && self.slots@[t].node is Some implies order.contains(
                    t as usize,
                ) by {
                    assert(old(self).slots@[t].node is Some);
                }
            }
            assert(free_ok(self.slots@, self.free@)) by {
                assert forall|j: int|
                    #![trigger self.free@[j]]
                    0 <= j < self.free@.len() implies self.free@[j] < self.slots@.len()
                    && self.slots@[self.free@[j] as int].node is None by {
                    assert(old(self).slots@[old(self).free@[j] as int].node is None);
                }
            }
            assert(self@ =~= old(self)@.update(p, ListEntry { handle: h, key: old(self)@[p].key, value: v }))
                by {
                assert forall|i: int| 0 <= i < order.len() && i != p implies self@[i] == old(
                    self,
                )@[i] by {
                    assert(order[i] != order[p]);
                    assert(order[i] < old(self).slots@.len());
                }
            }
        }
    }

    /// Removes the tail node and returns it.
    pub fn dequeue(&mut self) -> (r: Option<Node<K, V>>)
        requires
            old(self).wf(),
        ensures
            final(self).wf(),
            old(self)@.len() == 0 ==> r is None && final(self)@ == old(self)@,
            old(self)@.len() > 0 ==> (r matches Some(n) && n.key == old(self)@.last().key
                && *n.value == old(self)@.last().value && final(self)@ == old(self)@.drop_last()),
    {
        let t = match self.tail {
            Some(t) => t,
            None => {
                return None;
            },
        };
        let ghost order = self.order@;
        let ghost s0 = self.slots@;
        let ghost p = order.len() - 1;
        assert(order[p] == t && t < s0.len());
        let node = self.slots[t].node.take().unwrap();
        let prev = node.prev;
        match prev {
            Some(pv) => {
                assert(order[p - 1] < s0.len());
                self.set_next(pv, None);
            },
            None => {
                self.head = None;
            },
        }
        self.tail = prev;
        let ghost s1 = self.slots@;
        let ghost o2 = order.remove(p);
        proof {
            lemma_detach(s0, s1, order, p, self.free@);
        }
        self.release(t);
        proof {
            lemma_regenerate(s1, self.slots@, o2, t);
            self.order@ = o2;
            assert(o2 =~= order.drop_last());
            if p > 0 {
                assert(o2[p - 1] == order[p - 1]);
                assert(o2[0] == order[0]);
            }
        }
        Some(node)
    }

    /// Moves the node named by `h` to the head of the list.
    #[verifier::spinoff_prover]
    #[verifier::rlimit(50)]
    pub fn touch_node(&mut self, h: NodeRef)
        requires
            old(self).wf(),
        ensures
            final(self).wf(),
            match Self::position_of(old(self)@, h) {
                Some(p) => final(self)@ == seq![old(self)@[p]] + old(self)@.remove(p),
                None => final(self)@ == old(self)@,
            },
    {
        proof {
            old(self).lemma_live(h);
        }
        if !self.is_live(h) {
            return ;
        }
        let i = h.index;
        let ghost order = self.order@;
        let ghost s0 = self.slots@;
        let ghost p = Self::position_of(old(self)@, h)->Some_0;
        let old_head = match self.head {
            Some(hd) => hd,
            None => {
                return ;
            },
        };
        if old_head == i {
            proof {
                assert(order[0] == order[p]);
                assert(p == 0);
                assert(old(self)@ =~= seq![old(self)@[p]] + old(self)@.remove(p));
            }
            return ;
        }
        assert(p > 0);
        let mut node = self.slots[i].node.take().unwrap();
        match self.tail {
            Some(tl) => {
                if tl == i {
                    self.tail = node.prev;
                }
            },
            None => {},
        }
        match node.next {
            Some(nx) => {
                assert(order[p + 1] < s0.len());
                self.set_prev(nx, node.prev);
            },
            None => {},
        }
        match node.prev {
            Some(pv) => {
                assert(order[p - 1] < s0.len());
                self.set_next(pv, node.next);
            },
            None => {},
        }
        let ghost s1 = self.slots@;
        let ghost o1 = order.remove(p);
        proof {
            lemma_detach(s0, s1, order, p, self.free@);
            assert(o1[0] == order[0]);
            assert(order[0] < s0.len());
            if p + 1 == order.len() {
                assert(o1.last() == order[p - 1]);
            } else {
                assert(o1.last() == order.last());
            }
        }
        self.set_prev(old_head, Some(i));
        node.next = Some(old_head);
        node.prev = None;
        self.slots[i].node = Some(node);
        self.head = Some(i);
        proof {
            lemma_push_front(s1, self.slots@, o1, i);
            lemma_front_bookkeeping(s1, self.slots@, o1, i, self.free@);
            self.order@ = seq![i] + o1;
            assert(entry_of(self.slots@, i) == old(self)@[p]);
        }
    }

    /// Removes the node named by `h` and returns it.
    pub fn remove_node(&mut self, h: NodeRef) -> (r: Result<Node<K, V>, &'static str>)
        requires
            old(self).wf(),
        ensures
            final(self).wf(),
            match Self::position_of(old(self)@, h) {
                Some(p) => r matches Ok(n) && n.key == old(self)@[p].key && *n.value == old(
                    self,
                )@[p].value && final(self)@ == old(self)@.remove(p),
                None => r == Err::<Node<K, V>, &'static str>("Node is not in the list")
                    && final(self)@ == old(self)@,
            },
    {
        proof {
            old(self).lemma_live(h);
        }
        if !self.is_live(h) {
            return Err("Node is not in the list");
        }
        let i = h.index;
        let ghost order = self.order@;
        let ghost s0 = self.slots@;
        let ghost p = Self::position_of(old(self)@, h)->Some_0;
        let node = self.slots[i].node.take().unwrap();
        match self.head {
            Some(hd) => {
                if hd == i {
                    self.head = node.next;
                }
            },
            None => {},
        }
        match self.tail {
            Some(tl) => {
                if tl == i {
                    self.tail = node.prev;
                }
            },
            None => {},
        }
        match node.next {
            Some(nx) => {
                assert(order[p + 1] < s0.len());
                self.set_prev(nx, node.prev);
            },
            None => {},
        }
        match node.prev {
            Some(pv) => {
                assert(order[p - 1] < s0.len());
                self.set_next(pv, node.next);
            },
            None => {},
        }
        let ghost s1 = self.slots@;
        let ghost o2 = order.remove(p);
        proof {
            lemma_detach(s0, s1, order, p, self.free@);
        }
        self.release(i);
        proof {
            lemma_regenerate(s1, self.slots@, o2, i);
            self.order@ = o2;
            if o2.len() > 0 {
                if p == 0 {
                    assert(o2[0] == order[1]);
                } else {
                    assert(o2[0] == order[0]);
                }
                if p + 1 == order.len() {
                    assert(o2.last() == order[p - 1]);
                } else {
                    assert(o2.last() == order.last());
                }
            }
        }
        Ok(node)
    }
}


/// The position of key `k` among the entries, if any.
pub open spec fn key_position<V>(entries: Seq<(Seq<char>, V)>, k: Seq<char>) -> Option<int> {
    if exists|i: int| 0 <= i < entries.len() && #[trigger] entries[i].0 == k {
        Some(choose|i: int| 0 <= i < entries.len() && #[trigger] entries[i].0 == k)
    } else {
        None
    }
}

/// The entries after `k` is set to `v` and made most recent.
pub open spec fn with_most_recent<V>(entries: Seq<(Seq<char>, V)>, k: Seq<char>, v: V) -> Seq<
    (Seq<char>, V),
> {
    seq![(k, v)] + match key_position(entries, k) {
        Some(p) => entries.remove(p),
        None => entries,
    }
}

/// The first `n` entries, or all of them when there are fewer.
pub open spec fn keep_first<V>(entries: Seq<(Seq<char>, V)>, n: nat) -> Seq<(Seq<char>, V)> {
    if entries.len() > n {
        entries.take(n as int)
    } else {
        entries
    }
}

/// The keys of `entries` are distinct and `index` maps each key to the
/// handle of its entry, and nothing else.
spec fn index_matches<V>(entries: Seq<ListEntry<String, V>>, index: Map<Seq<char>, NodeRef>) -> bool {
    &&& forall|i: int, j: int|
        #![trigger entries[i], entries[j]]
        0 <= i < j < entries.len() ==> entries[i].key@ != entries[j].key@
    &&& forall|i: int|
        #![trigger entries[i]]
        0 <= i < entries.len() ==> index.contains_key(entries[i].key@) && index[entries[i].key@]
            == entries[i].handle
    &&& forall|k: Seq<char>| #[trigger]
        index.contains_key(k) ==> exists|i: int| 0 <= i < entries.len() && #[trigger] entries[i].key@ == k
}

/// Moving an entry to the front keeps the index matching.
proof fn lemma_index_touch<V>(
    e0: Seq<ListEntry<String, V>>,
    e1: Seq<ListEntry<String, V>>,
    index: Map<Seq<char>, NodeRef>,
    p: int,
)
    requires
        index_matches(e0, index),
        0 <= p < e0.len(),
        e1 == seq![e0[p]] + e0.remove(p),
    ensures
        index_matches(e1, index),
{
    assert forall|i: int, j: int|
        #![trigger e1[i], e1[j]]
        0 <= i < j < e1.len() implies e1[i].key@ != e1[j].key@ by {
        let oi = if i == 0 {
            p
        } else if i - 1 < p {
            i - 1
        } else {
            i
        };
        let oj = if j - 1 < p {
            j - 1
        } else {
            j
        };
        assert(e1[i] == e0[oi]);
        assert(e1[j] == e0[oj]);
        if oi < oj {
            assert(e0[oi].key@ != e0[oj].key@);
        } else {
            assert(e0[oj].key@ != e0[oi].key@);
        }
    }
    assert forall|i: int|
        #![trigger e1[i]]
        0 <= i < e1.len() implies index.contains_key(e1[i].key@) && index[e1[i].key@]
        == e1[i].handle by {
        let oi = if i == 0 {
            p
        } else if i - 1 < p {
            i - 1
        } else {
            i
        };
        assert(e1[i] == e0[oi]);
    }
    assert forall|k: Seq<char>| #[trigger]
        index.contains_key(k) implies exists|i: int| 0 <= i < e1.len() && #[trigger] e1[i].key@ == k by {
        let j = choose|j: int| 0 <= j < e0.len() && #[trigger] e0[j].key@ == k;
        let i = if j == p {
            0
        } else if j < p {
            j + 1
        } else {
            j
        };
        assert(e1[i] == e0[j]);
    }
}

/// Removing the entry at position `p` and its key keeps the index matching.
proof fn lemma_index_remove<V>(
    e0: Seq<ListEntry<String, V>>,
    e1: Seq<ListEntry<String, V>>,
    index: Map<Seq<char>, NodeRef>,
    p: int,
)
    requires
        index_matches(e0, index),
        0 <= p < e0.len(),
        e1 == e0.remove(p),
    ensures
        index_matches(e1, index.remove(e0[p].key@)),
{
    let idx = index.remove(e0[p].key@);
    assert forall|i: int, j: int|
        #![trigger e1[i], e1[j]]
        0 <= i < j < e1.len() implies e1[i].key@ != e1[j].key@ by {
        let oi = if i < p {
            i
        } else {
            i + 1
        };
        let oj = if j < p {
            j
        } else {
            j + 1
        };
        assert(e1[i] == e0[oi]);
        assert(e1[j] == e0[oj]);
    }
    assert forall|i: int|
        #![trigger e1[i]]
        0 <= i < e1.len() implies idx.contains_key(e1[i].key@) && idx[e1[i].key@]
        == e1[i].handle by {
        let oi = if i < p {
            i
        } else {
            i + 1
        };
        assert(e1[i] == e0[oi]);
        if oi < p {
            assert(e0[oi].key@ != e0[p].key@);
        } else {
            assert(e0[p].key@ != e0[oi].key@);
        }
    }
    assert forall|k: Seq<char>| #[trigger]
        idx.contains_key(k) implies exists|i: int| 0 <= i < e1.len() && #[trigger] e1[i].key@ == k by {
        let j = choose|j: int| 0 <= j < e0.len() && #[trigger] e0[j].key@ == k;
        assert(j != p);
        let i = if j < p {
            j
        } else {
            j - 1
        };
        assert(e1[i] == e0[j]);
    }
}

/// Adding an entry with a new key in front, and its key to the index, keeps
/// the index matching.
proof fn lemma_index_push_front<V>(
    e0: Seq<ListEntry<String, V>>,
    e1: Seq<ListEntry<String, V>>,
    index: Map<Seq<char>, NodeRef>,
)
    requires
        index_matches(e0, index),
        e1.len() == e0.len() + 1,
        e1.drop_first() == e0,
        !index.contains_key(e1[0].key@),
    ensures
        index_matches(e1, index.insert(e1[0].key@, e1[0].handle)),
{
    let idx = index.insert(e1[0].key@, e1[0].handle);
    assert forall|i: int, j: int|
        #![trigger e1[i], e1[j]]
        0 <= i < j < e1.len() implies e1[i].key@ != e1[j].key@ by {
        assert(e1[j] == e0[j - 1]);
        if i > 0 {
            assert(e1[i] == e0[i - 1]);
        } else {
            assert(index.contains_key(e0[j - 1].key@));
        }
    }
    assert forall|i: int|
        #![trigger e1[i]]
        0 <= i < e1.len() implies idx.contains_key(e1[i].key@) && idx[e1[i].key@]
        == e1[i].handle by {
        if i > 0 {
            assert(e1[i] == e0[i - 1]);
            assert(index.contains_key(e0[i - 1].key@));
        }
    }
    assert forall|k: Seq<char>| #[trigger]
        idx.contains_key(k) implies exists|i: int| 0 <= i < e1.len() && #[trigger] e1[i].key@ == k by {
        if k == e1[0].key@ {
            assert(e1[0].key@ == k);
        } else {
            let j = choose|j: int| 0 <= j < e0.len() && #[trigger] e0[j].key@ == k;
            assert(e1[j + 1] == e0[j]);
        }
    }
}

/// Changing values without changing keys or handles keeps the index
/// matching.
proof fn lemma_index_same_keys<V>(
    e0: Seq<ListEntry<String, V>>,
    e1: Seq<ListEntry<String, V>>,
    index: Map<Seq<char>, NodeRef>,
)
    requires
        index_matches(e0, index),
        e1.len() == e0.len(),
        forall|i: int| 0 <= i < e0.len() ==> #[trigger] e1[i].key == e0[i].key && e1[i].handle == e0[i].handle,
    ensures
        index_matches(e1, index),
{
    assert forall|i: int, j: int|
        #![trigger e1[i], e1[j]]
        0 <= i < j < e1.len() implies e1[i].key@ != e1[j].key@ by {
        assert(e0[i].key@ != e0[j].key@);
    }
    assert forall|k: Seq<char>| #[trigger]
        index.contains_key(k) implies exists|i: int| 0 <= i < e1.len() && #[trigger] e1[i].key@ == k by {
        let j = choose|j: int| 0 <= j < e0.len() && #[trigger] e0[j].key@ == k;
        assert(e1[j].key == e0[j].key);
    }
}

/// A cache that holds at most `max_size` entries and evicts the least
/// recently used one when it would hold more.
pub struct LRUCache<V> {
    index: HashMap<NodeRef>,
    list: List<String, V>,
    item_count: usize,
    max_size: usize,
}

impl<V> LRUCache<V> {
    /// The entries, most recently used first.
    pub closed spec fn view(&self) -> Seq<(Seq<char>, V)> {
        self.list@.map_values(|e: ListEntry<String, V>| (e.key@, e.value))
    }

    /// The most entries the cache holds.
    pub closed spec fn capacity(&self) -> nat {
        self.max_size as nat
    }

    /// The index and the list agree, whatever the number of entries.
    closed spec fn consistent(&self) -> bool {
        &&& self.list.wf()
        &&& self.index.wf()
        &&& self.item_count == self.list@.len()
        &&& self.item_count == self.index@.len()
        &&& index_matches(self.list@, self.index@)
    }

    /// The cache is well formed.
    pub closed spec fn wf(&self) -> bool {
        &&& self.consistent()
        &&& self.item_count <= self.max_size
    }

    /// An empty cache that holds at most `max_size` entries.
    pub fn new(max_size: usize) -> (r: Self)
        ensures
            r.wf(),
            r@ == Seq::<(Seq<char>, V)>::empty(),
            r.capacity() == max_size,
    {
        let r = LRUCache { index: HashMap::new(), list: List::new(), item_count: 0, max_size };
        assert(r@ =~= Seq::<(Seq<char>, V)>::empty());
        r
    }

    /// The number of entries.
    pub fn len(&self) -> (r: usize)
        requires
            self.wf(),
        ensures
            r == self@.len(),
    {
        self.item_count
    }

    proof fn lemma_key_position(&self, k: Seq<char>)
        requires
            self.wf(),
        ensures
            self.index@.contains_key(k) == (key_position(self@, k) is Some),
            key_position(self@, k) matches Some(p) ==> 0 <= p < self@.len() && self.list@[p].key@
                == k && self.index@[k] == self.list@[p].handle && List::<String, V>::position_of(
                self.list@,
                self.index@[k],
            ) == Some(p),
    {
        let entries = self.list@;
        if self.index@.contains_key(k) {
            let i = choose|i: int| 0 <= i < entries.len() && #[trigger] entries[i].key@ == k;
            assert(self@[i].0 == k);
        }
        if key_position(self@, k) is Some {
            let p = key_position(self@, k)->Some_0;
            assert(self@[p].0 == k);
            assert(entries[p].key@ == k);
            self.list.lemma_position(p);
        }
    }

    /// Returns the value for `key` and makes it the most recently used.
    pub fn get(&mut self, key: &String) -> (r: Option<Rc<V>>)
        requires
            old(self).wf(),
        ensures
            final(self).wf(),
            final(self).capacity() == old(self).capacity(),
            match key_position(old(self)@, key@) {
                Some(p) => r matches Some(v) && *v == old(self)@[p].1 && final(self)@ == seq![
                    old(self)@[p],
                ] + old(self)@.remove(p),
                None => r is None && final(self)@ == old(self)@,
            },
    {
        proof {
            self.lemma_key_position(key@);
        }
        let h = match self.index.get(key) {
            Some(h) => *h,
            None => {
                return None;
            },
        };
        let ghost p = key_position(old(self)@, key@)->Some_0;
        self.list.touch_node(h);
        proof {
            lemma_index_touch(old(self).list@, self.list@, self.index@, p);
            self.list.lemma_position(0);
            assert(self@ =~= seq![old(self)@[p]] + old(self)@.remove(p));
        }
        self.list.value(h)
    }

    /// Sets the value for `key` and makes it the most recently used, then
    /// evicts least recently used entries while the cache holds more than
    /// its capacity.
    pub fn set(&mut self, key: String, value: V)
        requires
            old(self).wf(),
            old(self)@.len() < HashMap::<NodeRef>::max_len(),
        ensures
            final(self).wf(),
            final(self).capacity() == old(self).capacity(),
            final(self)@ == keep_first(
                with_most_recent(old(self)@, key@, value),
                old(self).capacity(),
            ),
    {
        proof {
            self.lemma_key_position(key@);
            self.index.lemma_finite();
        }
        let found = match self.index.get(&key) {
            Some(h) => Some(*h),
            None => None,
        };
        match found {
            Some(h) => self.replace_value(h, key, value),
            None => self.insert_new(key, value),
        }
        self.evict();
    }

    /// Sets the value of the entry named by `h`, whose key is `key`, and
    /// makes it the most recently used.
    #[verifier::spinoff_prover]
    #[verifier::rlimit(40)]
    fn replace_value(&mut self, h: NodeRef, key: String, value: V)
        requires
            old(self).wf(),
            old(self).index@.contains_key(key@),
            old(self).index@[key@] == h,
        ensures
            final(self).consistent(),
            final(self).max_size == old(self).max_size,
            final(self)@ == with_most_recent(old(self)@, key@, value),
    {
        proof {
            self.lemma_key_position(key@);
        }
        let ghost p = key_position(old(self)@, key@)->Some_0;
        self.list.set_value(h, value);
        let ghost e1 = self.list@;
        proof {
            lemma_index_same_keys(old(self).list@, e1, self.index@);
            self.list.lemma_position(p);
        }
        self.list.touch_node(h);
        proof {
            lemma_index_touch(e1, self.list@, self.index@, p);
            assert(self@ =~= with_most_recent(old(self)@, key@, value));
        }
    }

    /// Adds an entry for a key that the cache does not hold, as the most
    /// recently used.
    fn insert_new(&mut self, key: String, value: V)
        requires
            old(self).wf(),
            !old(self).index@.contains_key(key@),
            old(self)@.len() < HashMap::<NodeRef>::max_len(),
        ensures
            final(self).consistent(),
            final(self).max_size == old(self).max_size,
            final(self)@ == with_most_recent(old(self)@, key@, value),
    {
        proof {
            self.lemma_key_position(key@);
            self.index.lemma_finite();
        }
        let key_copy = key.clone();
        let h = self.list.enqueue(key, value);
        proof {
            assert(self.list@.drop_first() =~= old(self).list@);
            lemma_index_push_front(old(self).list@, self.list@, self.index@);
        }
        self.index.set(key_copy, h);
        self.item_count = self.item_count + 1;
        proof {
            self.index.lemma_finite();
            assert(self@ =~= with_most_recent(old(self)@, key@, value));
        }
    }

    /// Evicts least recently used entries while the cache holds more than
    /// its capacity.
    fn evict(&mut self)
        requires
            old(self).consistent(),
        ensures
            final(self).wf(),
            final(self).max_size == old(self).max_size,
            final(self)@ == keep_first(old(self)@, old(self).capacity()),
    {
        let ghost target = self@;
        while self.item_count > self.max_size
            invariant
                self.consistent(),
                self.max_size == old(self).max_size,
                self.item_count <= target.len(),
                self.item_count >= self.max_size || self.item_count == target.len(),
                self@ == target.take(self.item_count as int),
            decreases self.item_count,
        {
            let ghost e0 = self.list@;
            match self.list.dequeue() {
                Some(node) => {
                    proof {
                        self.index.lemma_finite();
                        lemma_index_remove(e0, self.list@, self.index@, e0.len() - 1);
                        assert(e0.remove(e0.len() - 1) =~= e0.drop_last());
                    }
                    let _ = self.index.pop(&node.key);
                    self.item_count = self.item_count - 1;
                    proof {
                        assert(self@ =~= target.take(self.item_count as int));
                    }
                },
                None => {},
            }
        }
        proof {
            assert(target.take(target.len() as int) =~= target);
        }
    }

    /// Removes the entry for `key` and returns its value.
    pub fn pop(&mut self, key: &String) -> (r: Option<Rc<V>>)
        requires
            old(self).wf(),
        ensures
            final(self).wf(),
            final(self).capacity() == old(self).capacity(),
            match key_position(old(self)@, key@) {
                Some(p) => r matches Some(v) && *v == old(self)@[p].1 && final(self)@ == old(
                    self,
                )@.remove(p),
                None => r is None && final(self)@ == old(self)@,
            },
    {
        proof {
            self.lemma_key_position(key@);
            self.index.lemma_finite();
        }
        let h = match self.index.pop(key) {
            Some(h) => h,
            None => {
                return None;
            },
        };
        let ghost p = key_position(old(self)@, key@)->Some_0;
        self.item_count = self.item_count - 1;
        let r = match self.list.remove_node(h) {
            Ok(node) => Some(node.value),
            Err(_) => None,
        };
        proof {
            lemma_index_remove(old(self).list@, self.list@, old(self).index@, p);
            assert(self@ =~= old(self)@.remove(p));
        }
        r
    }

    /// The cache never holds more entries than its capacity.
    pub proof fn lemma_len_within_capacity(&self)
        requires
            self.wf(),
        ensures
            self@.len() <= self.capacity(),
    {
    }

    /// No key occurs twice among the entries.
    pub proof fn lemma_keys_distinct(&self)
        requires
            self.wf(),
        ensures
            forall|i: int, j: int| 0 <= i < j < self@.len() ==> self@[i].0 != self@[j].0,
    {
        assert forall|i: int, j: int| 0 <= i < j < self@.len() implies self@[i].0 != self@[j].0 by {
            assert(self.list@[i].key@ != self.list@[j].key@);
        }
    }
}

/// Keys that occur at most once.
pub open spec fn distinct_keys<V>(entries: Seq<(Seq<char>, V)>) -> bool {
    forall|i: int, j: int| 0 <= i < j < entries.len() ==> entries[i].0 != entries[j].0
}

/// A read after a write: in a cache with room for at least one entry, the
/// key just set is the most recently used entry and holds the value set.
pub proof fn lemma_read_after_write<V>(entries: Seq<(Seq<char>, V)>, k: Seq<char>, v: V, capacity: nat)
    requires
        capacity > 0,
        distinct_keys(entries),
    ensures
        ({
            let after = keep_first(with_most_recent(entries, k, v), capacity);
            &&& key_position(after, k) == Some(0int)
            &&& after[0].1 == v
        }),
{
    let w = with_most_recent(entries, k, v);
    let after = keep_first(w, capacity);
    assert(after[0] == (k, v));
    let rest = match key_position(entries, k) {
        Some(p) => entries.remove(p),
        None => entries,
    };
    assert forall|i: int| 0 < i < after.len() implies after[i].0 != k by {
        assert(after[i] == rest[i - 1]);
        match key_position(entries, k) {
            Some(p) => {
                assert(entries[p].0 == k);
                let j = if i - 1 < p {
                    i - 1
                } else {
                    i
                };
                assert(rest[i - 1] == entries[j]);
                if j < p {
                    assert(entries[j].0 != entries[p].0);
                } else {
                    assert(entries[p].0 != entries[j].0);
                }
            },
            None => {
                assert(rest[i - 1] == entries[i - 1]);
            },
        }
    }
    assert(after[0].0 == k);
    let q = choose|i: int| 0 <= i < after.len() && #[trigger] after[i].0 == k;
    assert(q == 0);
}

/// Setting a new key in a full cache evicts the least recently used entry,
/// and only that one.
pub proof fn lemma_evicts_least_recent<V>(
    entries: Seq<(Seq<char>, V)>,
    k: Seq<char>,
    v: V,
    capacity: nat,
)
    requires
        entries.len() == capacity,
        capacity > 0,
        key_position(entries, k) is None,
    ensures
        keep_first(with_most_recent(entries, k, v), capacity) == seq![(k, v)] + entries.drop_last(),
{
    assert(keep_first(with_most_recent(entries, k, v), capacity) =~= seq![(k, v)]
        + entries.drop_last());
}

} // verus!
