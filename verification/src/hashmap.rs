//! Basic hash map that supports get, set and pop. Items live in buckets
//! chosen by the hash of their key.
//!
//! The map tracks its load factor (items per bucket) and resizes when it
//! rises above 0.75 (doubling the buckets) or falls below 0.375 (halving
//! them, down to two buckets). With integer counts these thresholds read
//! `4 * items > 3 * buckets` and `8 * items < 3 * buckets`.
use std::hash::DefaultHasher;
use std::hash::Hasher;
use vstd::prelude::*;
use vstd::std_specs::hash::DefaultHasherAdditionalSpecFns;
use vstd::string::StringSliceAdditionalSpecFns;

verus! {

/// The hash of a key: a fresh `DefaultHasher` fed the key's UTF-8 bytes and
/// then the byte `0xFF`, which never occurs in UTF-8 and so ends the key.
pub open spec fn key_hash(k: Seq<char>) -> int {
    ((DefaultHasher::spec_finish(seq![vstd::utf8::encode_utf8(k), seq![0xFFu8]])) as usize) as int
}

/// The bucket count after a resize check of a map with `items` items in
/// `buckets` buckets.
pub open spec fn resized_bucket_count(items: nat, buckets: nat) -> nat {
    if 4 * items > 3 * buckets {
        2 * buckets
    } else if 8 * items < 3 * buckets {
        if buckets / 2 > 2 {
            buckets / 2
        } else {
            2
        }
    } else {
        buckets
    }
}

/// `n` is a power of two.
pub open spec fn is_pow2(n: nat) -> bool
    decreases n,
{
    if n <= 1 {
        n == 1
    } else {
        n % 2 == 0 && is_pow2(n / 2)
    }
}

/// Computes the hash of a key.
pub fn calculate_hash(key: &String) -> (h: usize)
    ensures
        h == key_hash(key@),
{
    let mut s = DefaultHasher::new();
    s.write(key.as_str().as_bytes());
    let end: [u8; 1] = [0xFF];
    assert(end@ =~= seq![0xFFu8]);
    s.write(&end);
    assert(s@ =~= seq![vstd::utf8::encode_utf8(key@), seq![0xFFu8]]);
    s.finish() as usize
}

struct Item<V> {
    key: String,
    value: V,
    hash: usize,
}

/// `b` holds an item with key `k`.
spec fn bucket_has<V>(b: Seq<Item<V>>, k: Seq<char>) -> bool {
    exists|j: int| #![trigger b[j]] 0 <= j < b.len() && b[j].key@ == k
}

/// No two items of `b` share a key.
spec fn bucket_distinct<V>(b: Seq<Item<V>>) -> bool {
    forall|i: int, j: int| #![trigger b[i], b[j]] 0 <= i < j < b.len() ==> b[i].key@ != b[j].key@
}

/// `item` is an entry of `m`, with the hash of its key.
spec fn item_ok<V>(item: Item<V>, m: Map<Seq<char>, V>) -> bool {
    &&& m.contains_key(item.key@)
    &&& m[item.key@] == item.value
    &&& item.hash == key_hash(item.key@)
}

/// Every item of `bs` is an entry of `m` and sits in the bucket of its
/// hash modulo `n`, without repeated keys in a bucket.
spec fn buckets_ok<V>(bs: Seq<Vec<Item<V>>>, m: Map<Seq<char>, V>, n: int) -> bool {
    &&& forall|b: int, j: int|
        #![trigger bs[b]@[j]]
        0 <= b < bs.len() && 0 <= j < bs[b]@.len() ==> item_ok(bs[b]@[j], m) && bs[b]@[j].hash as int % n
            == b
    &&& forall|b: int| 0 <= b < bs.len() ==> bucket_distinct(#[trigger] bs[b]@)
}

/// A hash map from strings to values, with separate chaining.
pub struct HashMap<V> {
    buckets: Vec<Vec<Item<V>>>,
    item_count: usize,
    contents: Ghost<Map<Seq<char>, V>>,
}

impl<V> HashMap<V> {
    /// The entries of the map.
    pub closed spec fn view(&self) -> Map<Seq<char>, V> {
        self.contents@
    }

    /// The number of buckets.
    pub closed spec fn num_buckets(&self) -> nat {
        self.buckets@.len()
    }

    /// Everything but the bound on the bucket count.
    closed spec fn content_ok(&self) -> bool {
        let n = self.buckets@.len() as int;
        let m = self.contents@;
        &&& 2 <= n
        &&& is_pow2(n as nat)
        &&& self.item_count <= usize::MAX / 16
        &&& m.dom().finite()
        &&& self.item_count == m.len()
        &&& buckets_ok(self.buckets@, m, n)
        &&& forall|k: Seq<char>| #[trigger]
            m.contains_key(k) ==> bucket_has(self.buckets@[key_hash(k) % n]@, k)
    }

    /// The map is well formed.
    pub closed spec fn wf(&self) -> bool {
        &&& self.content_ok()
        &&& 4 * self.item_count <= 3 * self.buckets@.len()
        &&& self.buckets@.len() <= 4 * self.item_count + 4
    }

    /// The load factor never exceeds 0.75, there are at least two buckets,
    /// and the bucket count is a power of two.
    pub proof fn lemma_load_factor(&self)
        requires
            self.wf(),
        ensures
            4 * self@.len() <= 3 * self.num_buckets(),
            self.num_buckets() >= 2,
            is_pow2(self.num_buckets()),
    {
    }

    /// A well-formed map has finitely many entries.
    pub proof fn lemma_finite(&self)
        requires
            self.wf(),
        ensures
            self@.dom().finite(),
    {
    }

    /// Every map with fewer entries than this bound can take one more.
    pub open spec fn max_len() -> nat {
        (usize::MAX / 16) as nat
    }

    /// A new, empty map with two buckets.
    pub fn new() -> (r: Self)
        ensures
            r.wf(),
            r@ == Map::<Seq<char>, V>::empty(),
            r.num_buckets() == 2,
    {
        let mut buckets: Vec<Vec<Item<V>>> = Vec::new();
        buckets.push(Vec::new());
        buckets.push(Vec::new());
        let r = HashMap { buckets, item_count: 0, contents: Ghost(Map::empty()) };
        assert(r.buckets@[0]@ =~= Seq::<Item<V>>::empty());
        assert(r.buckets@[1]@ =~= Seq::<Item<V>>::empty());
        assert(is_pow2(1));
        assert(is_pow2(2));
        r
    }

    /// The number of buckets.
    pub fn bucket_count(&self) -> (r: usize)
        ensures
            r == self.num_buckets(),
    {
        self.buckets.len()
    }

    /// Returns the value stored for `key`, if any.
    pub fn get(&mut self, key: &String) -> (r: Option<&V>)
        requires
            old(self).wf(),
        ensures
            *final(self) == *old(self),
            match r {
                Some(v) => old(self)@.contains_key(key@) && *v == old(self)@[key@],
                None => !old(self)@.contains_key(key@),
            },
    {
        let hash = calculate_hash(key);
        let index = hash % self.buckets.len();
        let bucket = &self.buckets[index];
        let mut j: usize = 0;
        while j < bucket.len()
            invariant
                self.wf(),
                index == key_hash(key@) % (self.buckets@.len() as int),
                bucket@ == self.buckets@[index as int]@,
                j <= bucket@.len(),
                forall|i: int| 0 <= i < j ==> bucket@[i].key@ != key@,
            decreases bucket@.len() - j,
        {
            if bucket[j].key == *key {
                assert(item_ok(self.buckets@[index as int]@[j as int], self@));
                return Some(&bucket[j].value);
            }
            j = j + 1;
        }
        None
    }

    /// Sets the value for `key`, replacing any previous value, then resizes
    /// the buckets if the load factor has left its bounds.
    pub fn set(&mut self, key: String, value: V)
        requires
            old(self).wf(),
            old(self)@.len() < Self::max_len(),
        ensures
            final(self).wf(),
            final(self)@ == old(self)@.insert(key@, value),
            final(self).num_buckets() == resized_bucket_count(
                final(self)@.len(),
                old(self).num_buckets(),
            ),
    {
        let hash = calculate_hash(&key);
        let n = self.buckets.len();
        let index = hash % n;
        let ghost m = self.contents@;
        let mut j: usize = 0;
        let mut found = false;
        while j < self.buckets[index].len()
            invariant_except_break
                !found,
            invariant
                self.wf(),
                self.contents@ == m,
                m == old(self)@,
                n == self.buckets@.len(),
                n == old(self).buckets@.len(),
                index == key_hash(key@) % (n as int),
                j <= self.buckets@[index as int]@.len(),
                forall|i: int| 0 <= i < j ==> self.buckets@[index as int]@[i].key@ != key@,
            ensures
                found ==> j < self.buckets@[index as int]@.len() && self.buckets@[index as int]@[j as int].key@ == key@,
                !found ==> j == self.buckets@[index as int]@.len(),
            decreases self.buckets@[index as int]@.len() - j,
        {
            if self.buckets[index][j].key == key {
                found = true;
                break;
            }
            j = j + 1;
        }
        if found {
            let ghost old_buckets = self.buckets@;
            self.buckets[index][j].value = value;
            proof {
                self.contents@ = m.insert(key@, value);
                assert(m.contains_key(key@)) by {
                    assert(item_ok(old_buckets[index as int]@[j as int], m));
                }
                assert(self.contents@.len() == m.len()) by {
                    assert(self.contents@.dom() =~= m.dom());
                }
                lemma_update_value(old_buckets, self.buckets@, m, key@, value, n as int, index as int, j as int);
            }
        } else {
            let ghost old_buckets = self.buckets@;
            proof {
                if m.contains_key(key@) {
                    let b = self.buckets@[index as int]@;
                    let w = choose|i: int| #![trigger b[i]] 0 <= i < b.len() && b[i].key@ == key@;
                    assert(b[w].key@ == key@);
                }
            }
            self.buckets[index].push(Item { key, value, hash });
            self.item_count = self.item_count + 1;
            proof {
                self.contents@ = m.insert(key@, value);
                assert(self.contents@.dom() =~= m.dom().insert(key@));
                assert(self.buckets@[index as int]@.drop_last() =~= old_buckets[index as int]@);
                lemma_insert_new(old_buckets, self.buckets@, m, key@, value, n as int, index as int);
            }
        }
        self.rebalance();
    }

    /// Removes the entry for `key` and returns its value, then resizes the
    /// buckets if the load factor has left its bounds.
    pub fn pop(&mut self, key: &String) -> (r: Option<V>)
        requires
            old(self).wf(),
        ensures
            final(self).wf(),
            match r {
                Some(v) => old(self)@.contains_key(key@) && v == old(self)@[key@] && final(self)@
                    == old(self)@.remove(key@) && final(self).num_buckets() == resized_bucket_count(
                    final(self)@.len(),
                    old(self).num_buckets(),
                ),
                None => !old(self)@.contains_key(key@) && final(self)@ == old(self)@
                    && final(self).num_buckets() == old(self).num_buckets(),
            },
    {
        let hash = calculate_hash(key);
        let n = self.buckets.len();
        let index = hash % n;
        let ghost m = self.contents@;
        let mut j: usize = 0;
        while j < self.buckets[index].len()
            invariant
                self.wf(),
                self.contents@ == m,
                m == old(self)@,
                n == self.buckets@.len(),
                n == old(self).buckets@.len(),
                index == key_hash(key@) % (n as int),
                j <= self.buckets@[index as int]@.len(),
                forall|i: int| 0 <= i < j ==> self.buckets@[index as int]@[i].key@ != key@,
            decreases self.buckets@[index as int]@.len() - j,
        {
            if self.buckets[index][j].key == *key {
                let ghost old_buckets = self.buckets@;
                assert(item_ok(old_buckets[index as int]@[j as int], m));
                let item = self.buckets[index].remove(j);
                self.item_count = self.item_count - 1;
                proof {
                    self.contents@ = m.remove(key@);
                    assert(self.contents@.dom() =~= m.dom().remove(key@));
                    lemma_remove(old_buckets, self.buckets@, m, key@, n as int, index as int, j as int);
                }
                self.rebalance();
                return Some(item.value);
            }
            j = j + 1;
        }
        proof {
            if m.contains_key(key@) {
                let b = self.buckets@[index as int]@;
                let w = choose|i: int| #![trigger b[i]] 0 <= i < b.len() && b[i].key@ == key@;
                assert(b[w].key@ == key@);
            }
        }
        None
    }

    /// The number of entries.
    pub fn len(&self) -> (r: usize)
        requires
            self.wf(),
        ensures
            r == self@.len(),
    {
        self.item_count
    }

    /// Doubles or halves the buckets when the load factor has left its
    /// bounds, moving every item to the bucket of its stored hash.
    fn rebalance(&mut self)
        requires
            old(self).content_ok(),
            old(self).buckets@.len() <= 4 * old(self).item_count + 8,
            4 * old(self).item_count <= 3 * old(self).buckets@.len() + 4,
        ensures
            final(self).wf(),
            final(self)@ == old(self)@,
            final(self).num_buckets() == resized_bucket_count(
                old(self)@.len(),
                old(self).num_buckets(),
            ),
    {
        let len = self.buckets.len();
        let count = self.item_count;
        let new_size = if 4 * count > 3 * len {
            len * 2
        } else if 8 * count < 3 * len {
            let half = len / 2;
            if half > 2 {
                half
            } else {
                2
            }
        } else {
            return ;
        };
        proof {
            let l = len as nat;
            if new_size == len * 2 {
                assert(is_pow2(2 * l));
            } else if len / 2 > 2 {
                assert(l % 2 == 0);
                assert(is_pow2(l / 2));
            } else {
                assert(is_pow2(1));
                assert(is_pow2(2));
            }
        }
        let ghost m = self.contents@;
        let mut rest: Vec<Vec<Item<V>>> = Vec::new();
        let mut i: usize = 0;
        while i < new_size
            invariant
                i <= new_size,
                rest@.len() == i,
                forall|b: int| 0 <= b < i ==> (#[trigger] rest@[b])@.len() == 0,
            decreases new_size - i,
        {
            rest.push(Vec::new());
            i = i + 1;
        }
        std::mem::swap(&mut self.buckets, &mut rest);
        let ghost mut moved = Set::<Seq<char>>::empty();
        assert(buckets_ok(self.buckets@, m, new_size as int));
        while rest.len() > 0
            invariant
                self.contents@ == m,
                self.item_count == count,
                self.buckets@.len() == new_size,
                2 <= new_size,
                rest@.len() <= len,
                buckets_ok(self.buckets@, m, new_size as int),
                forall|b: int, j: int|
                    #![trigger self.buckets@[b]@[j]]
                    0 <= b < new_size && 0 <= j < self.buckets@[b]@.len() ==> moved.contains(
                        self.buckets@[b]@[j].key@,
                    ),
                buckets_ok(rest@, m, len as int),
                forall|b: int, j: int|
                    #![trigger rest@[b]@[j]]
                    0 <= b < rest@.len() && 0 <= j < rest@[b]@.len() ==> !moved.contains(
                        rest@[b]@[j].key@,
                    ),
                forall|k: Seq<char>| #[trigger]
                    m.contains_key(k) ==> if moved.contains(k) {
                        bucket_has(self.buckets@[key_hash(k) % (new_size as int)]@, k)
                    } else {
                        key_hash(k) % (len as int) < rest@.len() && bucket_has(
                            rest@[key_hash(k) % (len as int)]@,
                            k,
                        )
                    },
            decreases rest@.len(),
        {
            let ghost rest_before = rest@;
            let mut bucket = rest.pop().unwrap();
            assert(bucket@ == rest_before[rest@.len() as int]@);
            while bucket.len() > 0
                invariant
                    self.contents@ == m,
                    self.item_count == count,
                    self.buckets@.len() == new_size,
                    2 <= new_size,
                    rest@.len() < len,
                    buckets_ok(self.buckets@, m, new_size as int),
                    forall|b: int, j: int|
                        #![trigger self.buckets@[b]@[j]]
                        0 <= b < new_size && 0 <= j < self.buckets@[b]@.len() ==> moved.contains(
                            self.buckets@[b]@[j].key@,
                        ),
                    buckets_ok(rest@, m, len as int),
                    forall|b: int, j: int|
                        #![trigger rest@[b]@[j]]
                        0 <= b < rest@.len() && 0 <= j < rest@[b]@.len() ==> !moved.contains(
                            rest@[b]@[j].key@,
                        ),
                    forall|j: int|
                        #![trigger bucket@[j]]
                        0 <= j < bucket@.len() ==> item_ok(bucket@[j], m) && bucket@[j].hash as int % (
                        len as int) == rest@.len() && !moved.contains(bucket@[j].key@),
                    bucket_distinct(bucket@),
                    forall|k: Seq<char>| #[trigger]
                        m.contains_key(k) ==> if moved.contains(k) {
                            bucket_has(self.buckets@[key_hash(k) % (new_size as int)]@, k)
                        } else if key_hash(k) % (len as int) < rest@.len() {
                            bucket_has(rest@[key_hash(k) % (len as int)]@, k)
                        } else {
                            key_hash(k) % (len as int) == rest@.len() && bucket_has(bucket@, k)
                        },
                decreases bucket@.len(),
            {
                let ghost bucket_before = bucket@;
                let ghost new_before = self.buckets@;
                let item = bucket.pop().unwrap();
                let target = item.hash % new_size;
                let ghost key = item.key@;
                assert(item == bucket_before[bucket@.len() as int]);
                self.buckets[target].push(item);
                proof {
                    lemma_move_item(
                        new_before,
                        self.buckets@,
                        rest@,
                        bucket_before,
                        bucket@,
                        m,
                        moved,
                        new_size as int,
                        len as int,
                        target as int,
                    );
                    moved = moved.insert(key);
                }
            }
        }
        proof {
            assert forall|k: Seq<char>| #[trigger] m.contains_key(k) implies bucket_has(
                self.buckets@[key_hash(k) % (new_size as int)]@,
                k,
            ) by {}
        }
    }
}

/// Changing the value of an existing entry keeps the buckets well formed.
proof fn lemma_update_value<V>(
    old_bs: Seq<Vec<Item<V>>>,
    bs: Seq<Vec<Item<V>>>,
    m: Map<Seq<char>, V>,
    key: Seq<char>,
    value: V,
    n: int,
    index: int,
    j: int,
)
    requires
        n == old_bs.len(),
        0 <= index < n,
        0 <= j < old_bs[index]@.len(),
        old_bs[index]@[j].key@ == key,
        buckets_ok(old_bs, m, n),
        forall|k: Seq<char>| #[trigger] m.contains_key(k) ==> bucket_has(old_bs[key_hash(k) % n]@, k),
        bs == old_bs.update(
            index,
            bs[index],
        ),
        bs[index]@ == old_bs[index]@.update(
            j,
            Item { key: old_bs[index]@[j].key, value, hash: old_bs[index]@[j].hash },
        ),
    ensures
        buckets_ok(bs, m.insert(key, value), n),
        forall|k: Seq<char>| #[trigger]
            m.insert(key, value).contains_key(k) ==> bucket_has(bs[key_hash(k) % n]@, k),
{
    let m2 = m.insert(key, value);
    assert forall|b: int, i: int|
        #![trigger bs[b]@[i]]
        0 <= b < bs.len() && 0 <= i < bs[b]@.len() implies item_ok(bs[b]@[i], m2) && bs[b]@[i].hash as int
        % n == b by {
        assert(item_ok(old_bs[b]@[i], m));
        if b == index && i != j {
            assert(old_bs[b]@[i].key@ != key) by {
                if i < j {
                    assert(bucket_distinct(old_bs[b]@));
                } else {
                    assert(bucket_distinct(old_bs[b]@));
                }
            }
        }
    }
    assert forall|b: int| 0 <= b < bs.len() implies bucket_distinct(#[trigger] bs[b]@) by {
        assert(bucket_distinct(old_bs[b]@));
    }
    assert forall|k: Seq<char>| #[trigger] m2.contains_key(k) implies bucket_has(
        bs[key_hash(k) % n]@,
        k,
    ) by {
        let h = key_hash(k) % n;
        assert(m.contains_key(k));
        let w = choose|i: int| #![trigger old_bs[h]@[i]] 0 <= i < old_bs[h]@.len() && old_bs[h]@[i].key@ == k;
        assert(bs[h]@[w].key@ == k);
    }
}

/// Adding an item with a new key to the bucket of its hash keeps the
/// buckets well formed.
proof fn lemma_insert_new<V>(
    old_bs: Seq<Vec<Item<V>>>,
    bs: Seq<Vec<Item<V>>>,
    m: Map<Seq<char>, V>,
    key: Seq<char>,
    value: V,
    n: int,
    index: int,
)
    requires
        n == old_bs.len(),
        0 <= index < n,
        index == key_hash(key) % n,
        !m.contains_key(key),
        buckets_ok(old_bs, m, n),
        forall|k: Seq<char>| #[trigger] m.contains_key(k) ==> bucket_has(old_bs[key_hash(k) % n]@, k),
        bs.len() == n,
        forall|b: int| 0 <= b < n && b != index ==> bs[b] == old_bs[b],
        bs[index]@.len() == old_bs[index]@.len() + 1,
        bs[index]@.drop_last() == old_bs[index]@,
        bs[index]@.last().key@ == key,
        bs[index]@.last().value == value,
        bs[index]@.last().hash == key_hash(key),
    ensures
        buckets_ok(bs, m.insert(key, value), n),
        forall|k: Seq<char>| #[trigger]
            m.insert(key, value).contains_key(k) ==> bucket_has(bs[key_hash(k) % n]@, k),
{
    let m2 = m.insert(key, value);
    let last = old_bs[index]@.len() as int;
    assert forall|b: int, i: int|
        #![trigger bs[b]@[i]]
        0 <= b < bs.len() && 0 <= i < bs[b]@.len() implies item_ok(bs[b]@[i], m2) && bs[b]@[i].hash as int
        % n == b by {
        if b == index && i == last {
        } else {
            if b == index {
                assert(bs[b]@[i] == old_bs[b]@[i]);
            }
            assert(item_ok(old_bs[b]@[i], m));
        }
    }
    assert forall|b: int| 0 <= b < bs.len() implies bucket_distinct(#[trigger] bs[b]@) by {
        assert(bucket_distinct(old_bs[b]@));
        if b == index {
            assert forall|i: int, j: int|
                #![trigger bs[b]@[i], bs[b]@[j]]
                0 <= i < j < bs[b]@.len() implies bs[b]@[i].key@ != bs[b]@[j].key@ by {
                assert(bs[b]@[i] == old_bs[b]@[i]);
                if j < last {
                    assert(bs[b]@[j] == old_bs[b]@[j]);
                } else {
                    assert(item_ok(old_bs[b]@[i], m));
                }
            }
        }
    }
    assert forall|k: Seq<char>| #[trigger] m2.contains_key(k) implies bucket_has(
        bs[key_hash(k) % n]@,
        k,
    ) by {
        let h = key_hash(k) % n;
        if k == key {
            assert(bs[h]@[last].key@ == k);
        } else {
            assert(m.contains_key(k));
            let w = choose|i: int| #![trigger old_bs[h]@[i]] 0 <= i < old_bs[h]@.len() && old_bs[h]@[i].key@ == k;
            assert(bs[h]@[w] == old_bs[h]@[w]);
            assert(bs[h]@[w].key@ == k);
        }
    }
}

/// Removing the item with key `key` from its bucket keeps the buckets well
/// formed.
proof fn lemma_remove<V>(
    old_bs: Seq<Vec<Item<V>>>,
    bs: Seq<Vec<Item<V>>>,
    m: Map<Seq<char>, V>,
    key: Seq<char>,
    n: int,
    index: int,
    j: int,
)
    requires
        n == old_bs.len(),
        0 <= index < n,
        0 <= j < old_bs[index]@.len(),
        old_bs[index]@[j].key@ == key,
        buckets_ok(old_bs, m, n),
        forall|k: Seq<char>| #[trigger] m.contains_key(k) ==> bucket_has(old_bs[key_hash(k) % n]@, k),
        bs.len() == n,
        forall|b: int| 0 <= b < n && b != index ==> bs[b] == old_bs[b],
        bs[index]@ == old_bs[index]@.remove(j),
    ensures
        buckets_ok(bs, m.remove(key), n),
        forall|k: Seq<char>| #[trigger]
            m.remove(key).contains_key(k) ==> bucket_has(bs[key_hash(k) % n]@, k),
{
    let m2 = m.remove(key);
    assert(bucket_distinct(old_bs[index]@));
    assert forall|b: int, i: int|
        #![trigger bs[b]@[i]]
        0 <= b < bs.len() && 0 <= i < bs[b]@.len() implies item_ok(bs[b]@[i], m2) && bs[b]@[i].hash as int
        % n == b by {
        if b == index {
            if i < j {
                assert(bs[b]@[i] == old_bs[b]@[i]);
                assert(item_ok(old_bs[b]@[i], m));
            } else {
                assert(bs[b]@[i] == old_bs[b]@[i + 1]);
                assert(item_ok(old_bs[b]@[i + 1], m));
            }
        } else {
            assert(item_ok(old_bs[b]@[i], m));
            assert(old_bs[b]@[i].key@ != key) by {
                assert(item_ok(old_bs[index]@[j], m));
            }
        }
    }
    assert forall|b: int| 0 <= b < bs.len() implies bucket_distinct(#[trigger] bs[b]@) by {
        assert(bucket_distinct(old_bs[b]@));
        if b == index {
            assert forall|i1: int, i2: int|
                #![trigger bs[b]@[i1], bs[b]@[i2]]
                0 <= i1 < i2 < bs[b]@.len() implies bs[b]@[i1].key@ != bs[b]@[i2].key@ by {
                let o1 = if i1 < j {
                    i1
                } else {
                    i1 + 1
                };
                let o2 = if i2 < j {
                    i2
                } else {
                    i2 + 1
                };
                assert(bs[b]@[i1] == old_bs[b]@[o1]);
                assert(bs[b]@[i2] == old_bs[b]@[o2]);
            }
        }
    }
    assert forall|k: Seq<char>| #[trigger] m2.contains_key(k) implies bucket_has(
        bs[key_hash(k) % n]@,
        k,
    ) by {
        let h = key_hash(k) % n;
        assert(m.contains_key(k));
        let w = choose|i: int| #![trigger old_bs[h]@[i]] 0 <= i < old_bs[h]@.len() && old_bs[h]@[i].key@ == k;
        if h == index {
            if w < j {
                assert(bs[h]@[w] == old_bs[h]@[w]);
                assert(bs[h]@[w].key@ == k);
            } else {
                assert(w != j);
                assert(bs[h]@[w - 1] == old_bs[h]@[w]);
                assert(bs[h]@[w - 1].key@ == k);
            }
        } else {
            assert(bs[h]@[w].key@ == k);
        }
    }
}

/// Moving the last item of the bucket being drained into the new buckets
/// keeps the invariant of `rebalance`.
proof fn lemma_move_item<V>(
    new_before: Seq<Vec<Item<V>>>,
    new_after: Seq<Vec<Item<V>>>,
    rest: Seq<Vec<Item<V>>>,
    bucket_before: Seq<Item<V>>,
    bucket_after: Seq<Item<V>>,
    m: Map<Seq<char>, V>,
    before: Set<Seq<char>>,
    new_size: int,
    len: int,
    target: int,
)
    requires
        new_size >= 2,
        len >= 1,
        new_before.len() == new_size,
        new_after.len() == new_size,
        bucket_before.len() > 0,
        bucket_after == bucket_before.drop_last(),
        ({
            let item = bucket_before.last();
            &&& target == item.hash as int % new_size
            &&& new_after == new_before.update(target, new_after[target])
            &&& new_after[target]@ == new_before[target]@.push(item)
        }),
        buckets_ok(new_before, m, new_size),
        forall|b: int, j: int|
            #![trigger new_before[b]@[j]]
            0 <= b < new_size && 0 <= j < new_before[b]@.len() ==> before.contains(
                new_before[b]@[j].key@,
            ),
        buckets_ok(rest, m, len),
        forall|b: int, j: int|
            #![trigger rest[b]@[j]]
            0 <= b < rest.len() && 0 <= j < rest[b]@.len() ==> !before.contains(rest[b]@[j].key@),
        forall|j: int|
            #![trigger bucket_before[j]]
            0 <= j < bucket_before.len() ==> item_ok(bucket_before[j], m) && bucket_before[j].hash as int % len
                == rest.len() && !before.contains(bucket_before[j].key@),
        bucket_distinct(bucket_before),
        forall|k: Seq<char>| #[trigger]
            m.contains_key(k) ==> if before.contains(k) {
                bucket_has(new_before[key_hash(k) % new_size]@, k)
            } else if key_hash(k) % len < rest.len() {
                bucket_has(rest[key_hash(k) % len]@, k)
            } else {
                key_hash(k) % len == rest.len() && bucket_has(bucket_before, k)
            },
    ensures
        buckets_ok(new_after, m, new_size),
        forall|b: int, j: int|
            #![trigger new_after[b]@[j]]
            0 <= b < new_size && 0 <= j < new_after[b]@.len() ==> before.insert(bucket_before.last().key@).contains(new_after[b]@[j].key@),
        forall|b: int, j: int|
            #![trigger rest[b]@[j]]
            0 <= b < rest.len() && 0 <= j < rest[b]@.len() ==> !before.insert(bucket_before.last().key@).contains(rest[b]@[j].key@),
        forall|j: int|
            #![trigger bucket_after[j]]
            0 <= j < bucket_after.len() ==> item_ok(bucket_after[j], m) && bucket_after[j].hash as int % len
                == rest.len() && !before.insert(bucket_before.last().key@).contains(bucket_after[j].key@),
        bucket_distinct(bucket_after),
        forall|k: Seq<char>| #[trigger]
            m.contains_key(k) ==> if before.insert(bucket_before.last().key@).contains(k) {
                bucket_has(new_after[key_hash(k) % new_size]@, k)
            } else if key_hash(k) % len < rest.len() {
                bucket_has(rest[key_hash(k) % len]@, k)
            } else {
                key_hash(k) % len == rest.len() && bucket_has(bucket_after, k)
            },
{
    let last = bucket_before.len() - 1;
    let item = bucket_before[last];
    let key = item.key@;
    let moved = before.insert(key);
    assert(item_ok(item, m));
    assert forall|b: int, j: int|
        #![trigger new_after[b]@[j]]
        0 <= b < new_size && 0 <= j < new_after[b]@.len() implies item_ok(new_after[b]@[j], m)
        && new_after[b]@[j].hash as int % new_size == b && moved.contains(new_after[b]@[j].key@) by {
        if b == target && j == new_before[b]@.len() {
        } else {
            assert(new_after[b]@[j] == new_before[b]@[j]);
        }
    }
    assert forall|b: int| 0 <= b < new_size implies bucket_distinct(#[trigger] new_after[b]@) by {
        assert(bucket_distinct(new_before[b]@));
        if b == target {
            assert forall|i: int, j: int|
                #![trigger new_after[b]@[i], new_after[b]@[j]]
                0 <= i < j < new_after[b]@.len() implies new_after[b]@[i].key@
                != new_after[b]@[j].key@ by {
                assert(new_after[b]@[i] == new_before[b]@[i]);
                if j < new_before[b]@.len() {
                    assert(new_after[b]@[j] == new_before[b]@[j]);
                } else {
                    assert(before.contains(new_before[b]@[i].key@));
                }
            }
        }
    }
    assert forall|b: int, j: int|
        #![trigger rest[b]@[j]]
        0 <= b < rest.len() && 0 <= j < rest[b]@.len() implies !moved.contains(rest[b]@[j].key@) by {
        assert(item_ok(rest[b]@[j], m));
        assert(rest[b]@[j].hash as int % len == b);
    }
    assert forall|j: int|
        #![trigger bucket_after[j]]
        0 <= j < bucket_after.len() implies item_ok(bucket_after[j], m) && bucket_after[j].hash as int % len
        == rest.len() && !moved.contains(bucket_after[j].key@) by {
        assert(bucket_after[j] == bucket_before[j]);
        assert(bucket_before[j].key@ != bucket_before[last].key@);
    }
    assert forall|i: int, j: int|
        #![trigger bucket_after[i], bucket_after[j]]
        0 <= i < j < bucket_after.len() implies bucket_after[i].key@ != bucket_after[j].key@ by {
        assert(bucket_after[i] == bucket_before[i]);
        assert(bucket_after[j] == bucket_before[j]);
    }
    assert forall|k: Seq<char>| #[trigger] m.contains_key(k) implies if moved.contains(k) {
        bucket_has(new_after[key_hash(k) % new_size]@, k)
    } else if key_hash(k) % len < rest.len() {
        bucket_has(rest[key_hash(k) % len]@, k)
    } else {
        key_hash(k) % len == rest.len() && bucket_has(bucket_after, k)
    } by {
        let h = key_hash(k) % new_size;
        if k == key {
            assert(new_after[target]@[new_before[target]@.len() as int] == item);
        } else if before.contains(k) {
            let w = choose|i: int| #![trigger new_before[h]@[i]] 0 <= i < new_before[h]@.len() && new_before[h]@[i].key@ == k;
            assert(new_after[h]@[w] == new_before[h]@[w]);
        } else if key_hash(k) % len < rest.len() {
        } else {
            let w = choose|i: int| #![trigger bucket_before[i]] 0 <= i < bucket_before.len() && bucket_before[i].key@ == k;
            assert(w != last);
            assert(bucket_after[w] == bucket_before[w]);
        }
    }
}

/// A read after a write: once `set(k, v)` has run, the map holds `v` for `k`
/// and what it held before for every other key.
pub proof fn lemma_read_after_write<V>(m: Map<Seq<char>, V>, k: Seq<char>, v: V, other: Seq<char>)
    ensures
        m.insert(k, v).contains_key(k),
        m.insert(k, v)[k] == v,
        other != k ==> m.insert(k, v).contains_key(other) == m.contains_key(other),
        other != k && m.contains_key(other) ==> m.insert(k, v)[other] == m[other],
{
}

/// A pop after a write: popping `k` after `set(k, v)` returns `v` and leaves
/// the map as popping `k` would have left the map before the write.
pub proof fn lemma_pop_after_write<V>(m: Map<Seq<char>, V>, k: Seq<char>, v: V)
    ensures
        m.insert(k, v).contains_key(k),
        m.insert(k, v)[k] == v,
        m.insert(k, v).remove(k) == m.remove(k),
{
    assert(m.insert(k, v).remove(k) =~= m.remove(k));
}

/// A popped key is gone: popping it again returns nothing.
pub proof fn lemma_pop_removes<V>(m: Map<Seq<char>, V>, k: Seq<char>)
    ensures
        !m.remove(k).contains_key(k),
{
}

} // verus!
