//! FIFO queue implemented as a ring buffer of fixed capacity.
use vstd::arithmetic::div_mod::{
    lemma_add_mod_noop,
    lemma_mod_add_multiples_vanish,
    lemma_small_mod,
    lemma_sub_mod_noop,
};
use vstd::prelude::*;

verus! {

/// FIFO queue implemented as a ring buffer with room for `COUNT` items.
pub struct RingBuffer<T, const COUNT: usize> {
    start: usize,
    count: usize,
    buffer: [T; COUNT],
}

/// The items `s[i]` for which `keep[i]` holds, in order.
pub open spec fn filter_by<T>(s: Seq<T>, keep: Seq<bool>) -> Seq<T>
    decreases s.len(),
{
    if s.len() == 0 {
        Seq::empty()
    } else if keep[s.len() - 1] {
        filter_by(s.drop_last(), keep).push(s.last())
    } else {
        filter_by(s.drop_last(), keep)
    }
}

/// Slot `j` of a ring of `c` slots that starts at slot `s`.
pub open spec fn ring_slot(s: int, j: int, c: int) -> int {
    (s + j) % c
}

/// The items of the first `c` slots of `slots` read as a ring that starts
/// at slot `s`.
pub open spec fn ring_items<T>(slots: Seq<T>, s: int, c: int) -> Seq<T> {
    Seq::new(c as nat, |j: int| slots[ring_slot(s, j, c)])
}

proof fn lemma_filter_by_prefix<T>(s: Seq<T>, keep: Seq<bool>, keep2: Seq<bool>)
    requires
        forall|i: int| 0 <= i < s.len() ==> keep[i] == keep2[i],
    ensures
        filter_by(s, keep) == filter_by(s, keep2),
    decreases s.len(),
{
    if s.len() > 0 {
        lemma_filter_by_prefix(s.drop_last(), keep, keep2);
    }
}

proof fn lemma_filter_by_len<T>(s: Seq<T>, keep: Seq<bool>)
    ensures
        filter_by(s, keep).len() <= s.len(),
    decreases s.len(),
{
    if s.len() > 0 {
        lemma_filter_by_len(s.drop_last(), keep);
    }
}

impl<T, const COUNT: usize> RingBuffer<T, COUNT> {
    #[verifier::type_invariant]
    spec fn well_formed(self) -> bool {
        &&& 0 < COUNT <= usize::MAX / 2
        &&& self.start < COUNT
        &&& self.count <= COUNT
    }

    /// The slots of the buffer.
    pub closed spec fn slots(&self) -> Seq<T> {
        self.buffer@
    }

    /// The slot that holds the first item.
    pub closed spec fn start_slot(&self) -> int {
        self.start as int
    }

    /// The number of items.
    pub closed spec fn item_count(&self) -> nat {
        self.count as nat
    }

    /// The slot of the item at position `i` of the queue.
    pub open spec fn slot_of(&self, i: int) -> int {
        (self.start_slot() + i) % (COUNT as int)
    }

    /// The items in the queue, oldest first.
    pub open spec fn view(&self) -> Seq<T> {
        Seq::new(self.item_count(), |i: int| self.slots()[self.slot_of(i)])
    }
}

impl<T: Copy + Default, const COUNT: usize> RingBuffer<T, COUNT> {
    /// Construct a new blank ring buffer.
    pub fn new() -> (r: Self)
        requires
            0 < COUNT <= usize::MAX / 2,
        ensures
            r@ == Seq::<T>::empty(),
    {
        let d = T::default();
        let buffer = [d; COUNT];
        let r = RingBuffer { start: 0, count: 0, buffer };
        assert(r@ =~= Seq::<T>::empty());
        r
    }

    /// Returns the number of items in the queue.
    pub fn get_count(&self) -> (r: usize)
        ensures
            r == self@.len(),
            r <= COUNT,
    {
        proof {
            use_type_invariant(self);
        }
        self.count
    }

    /// Return true if the buffer is empty.
    pub fn is_empty(&self) -> (r: bool)
        ensures
            r == (self@.len() == 0),
    {
        self.count == 0
    }

    /// Return true if the buffer is full.
    pub fn is_full(&self) -> (r: bool)
        ensures
            r == (self@.len() == COUNT),
    {
        proof {
            use_type_invariant(self);
        }
        self.count == COUNT
    }

    /// Adds an item at the end of the queue. Returns an error if the buffer
    /// is already full.
    pub fn put(&mut self, item: T) -> (r: Result<(), &'static str>)
        ensures
            old(self)@.len() == COUNT ==> r == Err::<(), &'static str>("Buffer already full!")
                && final(self)@ == old(self)@,
            old(self)@.len() < COUNT ==> r == Ok::<(), &'static str>(()) && final(self)@ == old(
                self,
            )@.push(item),
    {
        proof {
            use_type_invariant(&*self);
        }
        if self.is_full() {
            return Err("Buffer already full!");
        }
        let index = (self.start + self.count) % COUNT;
        self.count = self.count + 1;
        self.buffer[index] = item;
        assert(final(self)@ =~= old(self)@.push(item)) by {
            assert forall|i: int| 0 <= i < old(self)@.len() implies self.slot_of(i) != index by {
                lemma_slots_distinct(self.start as int, i, old(self)@.len() as int, COUNT as int);
            }
        }
        Ok(())
    }

    /// Removes and returns the first item, or None if the buffer is empty.
    pub fn get(&mut self) -> (r: Option<T>)
        ensures
            old(self)@.len() == 0 ==> r == None::<T> && final(self)@ == old(self)@,
            old(self)@.len() > 0 ==> r == Some(old(self)@[0]) && final(self)@ == old(
                self,
            )@.drop_first(),
    {
        proof {
            use_type_invariant(&*self);
        }
        if self.is_empty() {
            None
        } else {
            let index = self.start;
            self.start = (self.start + 1) % COUNT;
            self.count = self.count - 1;
            assert(final(self)@ =~= old(self)@.drop_first()) by {
                assert forall|i: int| 0 <= i < self@.len() implies self.slot_of(i) == old(
                    self,
                ).slot_of(i + 1) by {
                    lemma_add_mod_noop(index + 1, i, COUNT as int);
                    lemma_small_mod(i as nat, COUNT as nat);
                }
            }
            proof {
                lemma_small_mod(index as nat, COUNT as nat);
            }
            Some(self.buffer[index])
        }
    }

    /// `new` is what `retain` leaves of `old` when the predicate answered
    /// `keep[j]` for the `j`-th examined item.
    pub open spec fn retained<F: Fn(&T) -> bool>(
        old: Self,
        new: Self,
        predicate: F,
        keep: Seq<bool>,
    ) -> bool {
        let c = old.item_count() as int;
        let s = old.start_slot();
        let examined = ring_items(old.slots(), s, c);
        let kept = filter_by(examined, keep);
        &&& new.slots().len() == COUNT
        &&& new.start_slot() == s
        &&& keep.len() == c
        &&& forall|j: int| 0 <= j < c ==> predicate.ensures((&examined[j],), #[trigger] keep[j])
        &&& new.item_count() == kept.len()
        &&& forall|j: int|
            0 <= j < kept.len() ==> new.slots()[#[trigger] ring_slot(s, j, c)] == kept[j]
        &&& forall|j: int|
            kept.len() <= j < c ==> T::default.ensures(
                (),
                new.slots()[#[trigger] ring_slot(s, j, c)],
            )
        &&& forall|i: int| c <= i < COUNT ==> #[trigger] new.slots()[i] == old.slots()[i]
        &&& c == COUNT ==> new@ == filter_by(old@, keep)
    }

    /// Keeps the items for which `predicate` holds and drops the others.
    ///
    /// The first `count` slots are compacted as a ring of `count` slots that
    /// starts at the start slot taken modulo `count`; the slots of the dropped
    /// items get the default value. On a full buffer this keeps exactly the
    /// items for which the predicate holds, in their order.
    pub fn retain<F>(&mut self, predicate: F) where F: Fn(&T) -> bool
        requires
            forall|x: T| predicate.requires((&x,)),
        ensures
            exists|keep: Seq<bool>| #[trigger] Self::retained(*old(self), *final(self), predicate, keep),
    {
        proof {
            use_type_invariant(&*self);
        }
        let c = self.count;
        if c == 0 {
            proof {
                let keep = Seq::<bool>::empty();
                assert(filter_by(ring_items(old(self).slots(), self.start as int, 0), keep).len()
                    == 0);
                assert(Self::retained(*old(self), *self, predicate, keep));
            }
            return;
        }
        let ghost s = self.start as int;
        let ghost old_slots = self.buffer@;
        let ghost examined = ring_items(old_slots, s, c as int);
        let ghost mut keep = Seq::<bool>::empty();
        let mut offset: usize = 0;
        let mut vi: usize = 0;
        while vi < c
            invariant
                0 < c <= COUNT <= usize::MAX / 2,
                s == self.start,
                self.start < COUNT,
                self.count == c,
                vi <= c,
                examined == ring_items(old_slots, s, c as int),
                old_slots.len() == COUNT,
                self.buffer@.len() == COUNT,
                forall|x: T| predicate.requires((&x,)),
                keep.len() == vi,
                forall|j: int| 0 <= j < vi ==> predicate.ensures((&examined[j],), #[trigger] keep[j]),
                filter_by(examined.take(vi as int), keep).len() + offset == vi,
                forall|j: int|
                    0 <= j < filter_by(examined.take(vi as int), keep).len() ==> self.buffer@[#[trigger] ring_slot(
                        s,
                        j,
                        c as int,
                    )] == filter_by(examined.take(vi as int), keep)[j],
                forall|j: int|
                    filter_by(examined.take(vi as int), keep).len() <= j < vi ==> T::default.ensures(
                        (),
                        self.buffer@[#[trigger] ring_slot(s, j, c as int)],
                    ),
                forall|j: int|
                    vi <= j < c ==> self.buffer@[#[trigger] ring_slot(s, j, c as int)]
                        == old_slots[ring_slot(s, j, c as int)],
                forall|i: int| c <= i < COUNT ==> #[trigger] self.buffer@[i] == old_slots[i],
            decreases c - vi,
        {
            let ghost kept = filter_by(examined.take(vi as int), keep);
            let index = (self.start + vi) % c;
            assert(index == ring_slot(s, vi as int, c as int));
            let item = self.buffer[index];
            assert(item == examined[vi as int]);
            let b = predicate(&self.buffer[index]);
            proof {
                assert(examined.take(vi + 1).drop_last() =~= examined.take(vi as int));
                lemma_filter_by_prefix(examined.take(vi as int), keep, keep.push(b));
                keep = keep.push(b);
                lemma_filter_by_len(examined.take(vi as int), keep);
            }
            if b {
                if offset > 0 {
                    let new_index = (index + c - (offset % c)) % c;
                    proof {
                        let j = kept.len() as int;
                        let x = s + vi;
                        lemma_small_mod(offset as nat, c as nat);
                        lemma_mod_add_multiples_vanish(x % (c as int) - offset, c as int);
                        lemma_sub_mod_noop(x, offset as int, c as int);
                        lemma_small_mod(offset as nat, c as nat);
                        assert(new_index == ring_slot(s, j, c as int));
                    }
                    self.buffer[new_index] = self.buffer[index];
                    self.buffer[index] = T::default();
                }
            } else {
                self.buffer[index] = T::default();
                offset = offset + 1;
            }
            proof {
                let kept2 = filter_by(examined.take(vi + 1), keep);
                assert(kept2 == if b {
                    kept.push(item)
                } else {
                    kept
                });
                assert forall|j: int| 0 <= j < kept2.len() implies self.buffer@[#[trigger] ring_slot(
                    s,
                    j,
                    c as int,
                )] == kept2[j] by {
                    if j < kept.len() {
                        lemma_slots_distinct(s, j, vi as int, c as int);
                        if offset > 0 && b {
                            lemma_slots_distinct(s, j, kept.len() as int, c as int);
                        }
                    } else if kept.len() < vi {
                        lemma_slots_distinct(s, j, vi as int, c as int);
                    }
                }
                assert forall|j: int|
                    kept2.len() <= j < vi + 1 implies T::default.ensures(
                    (),
                    self.buffer@[#[trigger] ring_slot(s, j, c as int)],
                ) by {
                    if j < vi {
                        lemma_slots_distinct(s, j, vi as int, c as int);
                        if b && offset > 0 {
                            lemma_slots_distinct(s, kept.len() as int, j, c as int);
                        }
                    }
                }
                assert forall|j: int| vi + 1 <= j < c implies self.buffer@[#[trigger] ring_slot(
                    s,
                    j,
                    c as int,
                )] == old_slots[ring_slot(s, j, c as int)] by {
                    lemma_slots_distinct(s, vi as int, j, c as int);
                    if b && offset > 0 {
                        lemma_slots_distinct(s, kept.len() as int, j, c as int);
                    }
                }
            }
            vi = vi + 1;
        }
        self.count = self.count - offset;
        proof {
            assert(examined.take(c as int) =~= examined);
            if c == COUNT {
                assert forall|j: int| 0 <= j < c implies #[trigger] ring_slot(s, j, c as int)
                    == self.slot_of(j) by {}
                assert(examined =~= old(self)@);
                let kept = filter_by(examined, keep);
                assert forall|i: int| 0 <= i < self@.len() implies self@[i] == kept[i] by {
                    assert(ring_slot(s, i, c as int) == self.slot_of(i));
                }
                assert(self@ =~= filter_by(old(self)@, keep));
            }
            assert(Self::retained(*old(self), *self, predicate, keep));
        }
    }
}

/// Distinct positions of a ring are distinct slots.
proof fn lemma_slots_distinct(s: int, i: int, j: int, m: int)
    requires
        0 <= i < j < m,
        0 <= s,
    ensures
        (s + i) % m != (s + j) % m,
{
    lemma_sub_mod_noop(s + j, s + i, m);
    lemma_small_mod((j - i) as nat, m as nat);
    lemma_small_mod(0, m as nat);
}

} // verus!
