//! Duplicate suppression by `(stream_id, publisher_id, sequence)`, with
//! bounded memory.

use std::collections::HashMap;
use vstd::prelude::*;

verus! {

broadcast use vstd::std_specs::hash::group_hash_axioms;

/// The consumer duplicate key: one DATA publication.
#[derive(Debug, Clone, Copy, PartialEq, Eq, Hash, Structural)]
pub struct DuplicateKey {
    pub stream_id: u64,
    pub publisher_id: u64,
    pub sequence: u64,
}

impl DuplicateKey {
    /// The key of a publication.
    pub fn new(stream_id: u64, publisher_id: u64, sequence: u64) -> (r: Self)
        ensures
            r == (DuplicateKey { stream_id, publisher_id, sequence }),
    {
        Self { stream_id, publisher_id, sequence }
    }
}

/// The abstract state of a duplicate filter: the remembered keys in
/// insertion slots, the slot the next eviction overwrites, and the bound.
pub ghost struct DedupModel {
    pub history: Seq<DuplicateKey>,
    pub head: nat,
    pub capacity: nat,
}

/// Checking `key` against the filter and remembering it when new. A key
/// among the remembered ones is a duplicate; otherwise it is appended while
/// there is room, and once full it overwrites the oldest slot.
pub open spec fn dedup_step(m: DedupModel, key: DuplicateKey) -> (DedupModel, bool) {
    if m.history.contains(key) {
        (m, true)
    } else if m.history.len() < m.capacity {
        (DedupModel { history: m.history.push(key), ..m }, false)
    } else {
        (
            DedupModel {
                history: m.history.update(m.head as int, key),
                head: (m.head + 1) % m.capacity,
                ..m
            },
            false,
        )
    }
}

/// `key` is present in the index by sequence.
pub open spec fn indexed(m: Map<u64, Vec<DuplicateKey>>, key: DuplicateKey) -> bool {
    m.contains_key(key.sequence) && m[key.sequence]@.contains(key)
}

/// Every bucket of the index holds distinct keys of its own sequence.
pub open spec fn buckets_ok(m: Map<u64, Vec<DuplicateKey>>) -> bool {
    forall|s: u64|
        #![trigger m[s]]
        m.contains_key(s) ==> {
            &&& m[s]@.no_duplicates()
            &&& forall|i: int| 0 <= i < m[s]@.len() ==> (#[trigger] m[s]@[i]).sequence == s
        }
}

/// Adds a key that is not yet in the index.
fn index_insert(index: &mut HashMap<u64, Vec<DuplicateKey>>, key: DuplicateKey)
    requires
        buckets_ok(old(index)@),
        !indexed(old(index)@, key),
    ensures
        buckets_ok(final(index)@),
        forall|k: DuplicateKey|
            #![trigger indexed(final(index)@, k)]
            indexed(final(index)@, k) <==> (indexed(old(index)@, k) || k == key),
{
    let ghost m0 = index@;
    let mut bucket = match index.remove(&key.sequence) {
        Some(b) => b,
        None => Vec::new(),
    };
    let ghost b0 = bucket@;
    assert(m0.contains_key(key.sequence) ==> b0 == m0[key.sequence]@);
    assert(!m0.contains_key(key.sequence) ==> b0 == Seq::<DuplicateKey>::empty());
    bucket.push(key);
    assert(bucket@ == b0.push(key));
    index.insert(key.sequence, bucket);
    assert forall|k: DuplicateKey|
        #![trigger indexed(index@, k)]
        indexed(index@, k) <==> (indexed(m0, k) || k == key) by {
        if k.sequence == key.sequence {
            assert(index@[k.sequence]@ == b0.push(key));
            if b0.push(key).contains(k) && k != key {
                let j = choose|j: int| 0 <= j < b0.push(key).len() && b0.push(key)[j] == k;
                assert(b0[j] == k);
            }
            if indexed(m0, k) {
                let j = choose|j: int| 0 <= j < b0.len() && b0[j] == k;
                assert(b0.push(key)[j] == k);
            }
            assert(b0.push(key)[b0.len() as int] == key);
        }
    }
    assert forall|s: u64|
        #![trigger index@[s]]
        index@.contains_key(s) implies {
            &&& index@[s]@.no_duplicates()
            &&& forall|i: int| 0 <= i < index@[s]@.len() ==> (#[trigger] index@[s]@[i]).sequence == s
        } by {
        if s == key.sequence {
            assert(!b0.contains(key));
            assert forall|i: int, j: int|
                0 <= i < b0.push(key).len() && 0 <= j < b0.push(key).len() && i != j implies
                b0.push(key)[i] != b0.push(key)[j] by {
                if i == b0.len() {
                    assert(b0[j] != key);
                } else if j == b0.len() {
                    assert(b0[i] != key);
                }
            }
        }
    }
}

/// Removes a key that is in the index.
fn index_remove(index: &mut HashMap<u64, Vec<DuplicateKey>>, key: DuplicateKey)
    requires
        buckets_ok(old(index)@),
        indexed(old(index)@, key),
    ensures
        buckets_ok(final(index)@),
        forall|k: DuplicateKey|
            #![trigger indexed(final(index)@, k)]
            indexed(final(index)@, k) <==> (indexed(old(index)@, k) && k != key),
{
    let ghost m0 = index@;
    let mut bucket = match index.remove(&key.sequence) {
        Some(b) => b,
        None => Vec::new(),
    };
    let ghost b0 = bucket@;
    assert(b0 == m0[key.sequence]@);
    let ghost jk = choose|j: int| 0 <= j < b0.len() && b0[j] == key;
    let mut i: usize = 0;
    while bucket[i] != key
        invariant
            bucket@ == b0,
            b0.len() == bucket.len(),
            0 <= jk < b0.len(),
            b0[jk] == key,
            i <= jk,
        decreases jk - i,
    {
        i = i + 1;
    }
    assert(i < b0.len() && b0[i as int] == key);
    bucket.remove(i);
    let ghost b1 = bucket@;
    assert(b1 == b0.remove(i as int));
    assert forall|k: DuplicateKey| b1.contains(k) <==> (b0.contains(k) && k != key) by {
        if b1.contains(k) {
            let j = choose|j: int| 0 <= j < b1.len() && b1[j] == k;
            if j < i {
                assert(b0[j] == k);
                assert(j != i);
            } else {
                assert(b0[j + 1] == k);
                assert(j + 1 != i);
            }
        }
        if b0.contains(k) && k != key {
            let j = choose|j: int| 0 <= j < b0.len() && b0[j] == k;
            assert(j != i);
            if j < i {
                assert(b1[j] == k);
            } else {
                assert(b1[j - 1] == k);
            }
        }
    }
    if bucket.len() > 0 {
        index.insert(key.sequence, bucket);
    }
    assert forall|k: DuplicateKey|
        #![trigger indexed(index@, k)]
        indexed(index@, k) <==> (indexed(m0, k) && k != key) by {
        if k.sequence == key.sequence {
            if b1.len() == 0 {
                assert(!b1.contains(k));
            }
        }
    }
    assert forall|s: u64|
        #![trigger index@[s]]
        index@.contains_key(s) implies {
            &&& index@[s]@.no_duplicates()
            &&& forall|j: int| 0 <= j < index@[s]@.len() ==> (#[trigger] index@[s]@[j]).sequence == s
        } by {
        if s == key.sequence {
            assert forall|j: int| 0 <= j < b1.len() implies (#[trigger] b1[j]).sequence == s by {
                if j < i {
                    assert(b1[j] == b0[j]);
                } else {
                    assert(b1[j] == b0[j + 1]);
                }
            }
            assert forall|x: int, y: int| 0 <= x < b1.len() && 0 <= y < b1.len() && x != y implies b1[x]
                != b1[y] by {
                let xx = if x < i { x } else { x + 1 };
                let yy = if y < i { y } else { y + 1 };
                assert(b1[x] == b0[xx]);
                assert(b1[y] == b0[yy]);
            }
        }
    }
}

/// Deduplication filter with bounded memory.
pub struct DuplicateFilter {
    recent_keys: HashMap<u64, Vec<DuplicateKey>>,
    ring_history: Vec<DuplicateKey>,
    head: usize,
    capacity: usize,
}

impl DuplicateFilter {
    /// The abstract state of the filter.
    pub closed spec fn model(&self) -> DedupModel {
        DedupModel {
            history: self.ring_history@,
            head: self.head as nat,
            capacity: self.capacity as nat,
        }
    }

    /// The filter's internal consistency: the index by sequence holds
    /// exactly the remembered keys, nothing is remembered twice, and the
    /// eviction slot is in range.
    pub closed spec fn wf(&self) -> bool {
        &&& self.ring_history@.len() <= self.capacity
        &&& self.ring_history@.no_duplicates()
        &&& (self.ring_history@.len() < self.capacity ==> self.head == 0)
        &&& (self.capacity > 0 ==> self.head < self.capacity)
        &&& buckets_ok(self.recent_keys@)
        &&& forall|k: DuplicateKey|
            #![trigger indexed(self.recent_keys@, k)]
            #![trigger self.ring_history@.contains(k)]
            self.ring_history@.contains(k) <==> indexed(self.recent_keys@, k)
    }

    /// An empty filter remembering at most `capacity` keys.
    pub fn new(capacity: usize) -> (r: Self)
        ensures
            r.wf(),
            r.model() == (DedupModel { history: Seq::empty(), head: 0, capacity: capacity as nat }),
    {
        let r = Self {
            recent_keys: HashMap::with_capacity(capacity),
            ring_history: Vec::with_capacity(capacity),
            head: 0,
            capacity,
        };
        assert(r.recent_keys@ == Map::<u64, Vec<DuplicateKey>>::empty());
        r
    }

    /// Whether `key` is remembered.
    fn remembered(&self, key: &DuplicateKey) -> (r: bool)
        requires
            self.wf(),
        ensures
            r == self.ring_history@.contains(*key),
    {
        match self.recent_keys.get(&key.sequence) {
            Some(bucket) => {
                assert(self.recent_keys@.contains_key(key.sequence));
                assert(bucket@ == self.recent_keys@[key.sequence]@);
                let mut i: usize = 0;
                while i < bucket.len()
                    invariant
                        self.wf(),
                        self.recent_keys@.contains_key(key.sequence),
                        bucket@ == self.recent_keys@[key.sequence]@,
                        i <= bucket@.len(),
                        forall|j: int| 0 <= j < i ==> bucket@[j] != *key,
                    decreases bucket@.len() - i,
                {
                    if bucket[i] == *key {
                        assert(indexed(self.recent_keys@, *key));
                        assert(self.ring_history@.contains(*key));
                        return true;
                    }
                    i = i + 1;
                }
                assert(!indexed(self.recent_keys@, *key));
                false
            },
            None => {
                assert(!indexed(self.recent_keys@, *key));
                false
            },
        }
    }

    /// Checks whether `key` was seen among the last `capacity` distinct
    /// keys; if not, remembers it (evicting the oldest when full) and
    /// answers `false`.
    pub fn is_duplicate_and_record(&mut self, key: DuplicateKey) -> (r: bool)
        requires
            old(self).wf(),
            old(self).model().capacity > 0,
        ensures
            final(self).wf(),
            (final(self).model(), r) == dedup_step(old(self).model(), key),
    {
        if self.remembered(&key) {
            return true;
        }
        let ghost h0 = self.ring_history@;
        if self.ring_history.len() < self.capacity {
            index_insert(&mut self.recent_keys, key);
            self.ring_history.push(key);
            assert forall|k: DuplicateKey|
                #![trigger indexed(self.recent_keys@, k)]
                #![trigger self.ring_history@.contains(k)]
                self.ring_history@.contains(k) <==> indexed(self.recent_keys@, k) by {
                if self.ring_history@.contains(k) && k != key {
                    let j = choose|j: int| 0 <= j < h0.push(key).len() && h0.push(key)[j] == k;
                    assert(h0[j] == k);
                }
                if h0.contains(k) {
                    let j = choose|j: int| 0 <= j < h0.len() && h0[j] == k;
                    assert(self.ring_history@[j] == k);
                }
                assert(self.ring_history@[h0.len() as int] == key);
            }
            assert forall|x: int, y: int|
                0 <= x < self.ring_history@.len() && 0 <= y < self.ring_history@.len() && x != y
                implies self.ring_history@[x] != self.ring_history@[y] by {
                if x == h0.len() {
                    assert(!h0.contains(key));
                    assert(h0[y] != key);
                } else if y == h0.len() {
                    assert(h0[x] != key);
                }
            }
        } else {
            let old_key = self.ring_history[self.head];
            assert(h0.contains(old_key));
            index_remove(&mut self.recent_keys, old_key);
            index_insert(&mut self.recent_keys, key);
            let head = self.head;
            self.ring_history.set(head, key);
            self.head = (self.head + 1) % self.capacity;
            let ghost h1 = self.ring_history@;
            assert(h1 == h0.update(head as int, key));
            assert forall|k: DuplicateKey|
                #![trigger indexed(self.recent_keys@, k)]
                #![trigger self.ring_history@.contains(k)]
                self.ring_history@.contains(k) <==> indexed(self.recent_keys@, k) by {
                if h1.contains(k) && k != key {
                    let j = choose|j: int| 0 <= j < h1.len() && h1[j] == k;
                    assert(j != head);
                    assert(h0[j] == k);
                    assert(k != old_key);
                }
                if h0.contains(k) && k != old_key {
                    let j = choose|j: int| 0 <= j < h0.len() && h0[j] == k;
                    assert(j != head);
                    assert(h1[j] == k);
                }
                assert(h1[head as int] == key);
            }
            assert forall|x: int, y: int|
                0 <= x < h1.len() && 0 <= y < h1.len() && x != y implies h1[x] != h1[y] by {
                if x == head {
                    assert(h0[y] != key);
                } else if y == head {
                    assert(h0[x] != key);
                }
            }
        }
        false
    }

    /// Forgets every key.
    pub fn clear(&mut self)
        requires
            old(self).wf(),
        ensures
            final(self).wf(),
            final(self).model() == (DedupModel { history: Seq::empty(), head: 0, ..old(self).model() }),
    {
        self.recent_keys.clear();
        self.ring_history.clear();
        self.head = 0;
    }
}

/// A key just recorded is reported a duplicate when it comes again.
pub proof fn lemma_recorded_key_is_duplicate(m: DedupModel, key: DuplicateKey)
    requires
        m.capacity > 0,
        m.history.len() <= m.capacity,
        m.head < m.capacity,
    ensures
        dedup_step(dedup_step(m, key).0, key).1,
{
    let m2 = dedup_step(m, key).0;
    if !m.history.contains(key) {
        if m.history.len() < m.capacity {
            assert(m2.history[m.history.len() as int] == key);
        } else {
            assert(m2.history[m.head as int] == key);
        }
    }
}


/// The filter after checking, in order, each of `keys`.
pub open spec fn record_all(m: DedupModel, keys: Seq<DuplicateKey>) -> DedupModel
    decreases keys.len(),
{
    if keys.len() == 0 {
        m
    } else {
        dedup_step(record_all(m, keys.drop_last()), keys.last()).0
    }
}

/// Where a filter that has recorded the keys `keys` from empty keeps them:
/// slot `j` holds the key whose position `i` among the newest `capacity`
/// leaves remainder `j` by the capacity; slots fill up from the first, and
/// once full the slot to overwrite follows the count.
spec fn window_layout(m: DedupModel, keys: Seq<DuplicateKey>) -> bool {
    let n = keys.len();
    let c = m.capacity;
    &&& m.history.len() == if n < c { n } else { c }
    &&& m.head == if n < c { 0 } else { n % c }
    &&& forall|j: int| 0 <= j < m.history.len() ==> #[trigger] holds_window_key(m, keys, j)
}

/// Slot `j` of the filter holds the key at a position `i` among the newest
/// `capacity` of `keys` that leaves remainder `j` by the capacity.
spec fn holds_window_key(m: DedupModel, keys: Seq<DuplicateKey>, j: int) -> bool {
    let n = keys.len();
    let c = m.capacity;
    exists|i: int|
        #![trigger keys[i]]
        n - c <= i < n && 0 <= i && i % (c as int) == j && m.history[j] == keys[i]
}

/// Two positions less than the capacity apart leave different remainders.
proof fn lemma_window_residues(c: int, a: int, b: int)
    requires
        0 < c,
        0 <= a < b,
        b - a < c,
    ensures
        a % c != b % c,
{
    vstd::arithmetic::div_mod::lemma_mod_equivalence(b, a, c);
    vstd::arithmetic::div_mod::lemma_small_mod((b - a) as nat, c as nat);
}

/// The keys a filter records, in order, while checking `keys` one by one
/// from `m`: those it did not take for duplicates.
pub open spec fn recorded_keys(m: DedupModel, keys: Seq<DuplicateKey>) -> Seq<DuplicateKey>
    decreases keys.len(),
{
    if keys.len() == 0 {
        Seq::empty()
    } else {
        let pre = recorded_keys(m, keys.drop_last());
        if dedup_step(record_all(m, keys.drop_last()), keys.last()).1 {
            pre
        } else {
            pre.push(keys.last())
        }
    }
}

/// Checking keys one by one from an empty filter lays out the keys it
/// records as `window_layout` says.
proof fn lemma_record_all_layout(m: DedupModel, keys: Seq<DuplicateKey>)
    requires
        m.capacity > 0,
        m.history.len() == 0,
        m.head == 0,
    ensures
        window_layout(record_all(m, keys), recorded_keys(m, keys)),
        record_all(m, keys).capacity == m.capacity,
    decreases keys.len(),
{
    if keys.len() > 0 {
        let pre = keys.drop_last();
        let key = keys.last();
        lemma_record_all_layout(m, pre);
        let m1 = record_all(m, pre);
        let m2 = record_all(m, keys);
        let r1 = recorded_keys(m, pre);
        let r = recorded_keys(m, keys);
        assert(m2 == dedup_step(m1, key).0);
        if !dedup_step(m1, key).1 {
            assert(!m1.history.contains(key));
            assert(r == r1.push(key));
            let n = r.len();
            let c = m.capacity;
            let n1 = r1.len();
            if n1 < c {
                assert forall|j: int| 0 <= j < m2.history.len() implies #[trigger] holds_window_key(
                    m2,
                    r,
                    j,
                ) by {
                    vstd::arithmetic::div_mod::lemma_small_mod(j as nat, c);
                    if j < n1 {
                        assert(holds_window_key(m1, r1, j));
                        let i = choose|i: int|
                            #![trigger r1[i]]
                            n1 - c <= i < n1 && 0 <= i && i % (c as int) == j && m1.history[j]
                                == r1[i];
                        assert(r[i] == r1[i]);
                    } else {
                        assert(m2.history[j] == r[n - 1]);
                        assert(j == n - 1);
                    }
                }
                if n == c {
                    vstd::arithmetic::div_mod::lemma_mod_self_0(c as int);
                }
            } else {
                let h = m1.head;
                assert(h == n1 % c);
                vstd::arithmetic::div_mod::lemma_mod_pos_bound(n1 as int, c as int);
                vstd::arithmetic::div_mod::lemma_add_mod_noop_right(1, n1 as int, c as int);
                assert forall|j: int| 0 <= j < m2.history.len() implies #[trigger] holds_window_key(
                    m2,
                    r,
                    j,
                ) by {
                    if j == h {
                        assert(m2.history[j] == r[n - 1]);
                    } else {
                        assert(holds_window_key(m1, r1, j));
                        let i = choose|i: int|
                            #![trigger r1[i]]
                            n1 - c <= i < n1 && 0 <= i && i % (c as int) == j && m1.history[j]
                                == r1[i];
                        assert(r[i] == r1[i]);
                        if i == n1 - c {
                            vstd::arithmetic::div_mod::lemma_mod_equivalence(n1 as int, i, c as int);
                            vstd::arithmetic::div_mod::lemma_mod_self_0(c as int);
                        }
                    }
                }
            }
        }
    }
}

/// The filter's memory slides: checking keys one by one from an empty
/// filter, it remembers exactly the newest `capacity` of the keys it
/// recorded (those it did not take for duplicates), so a key is a
/// duplicate exactly when it is among them; a key recorded earlier and
/// pushed out since is not, and is recorded again.
pub proof fn lemma_filter_remembers_newest(m: DedupModel, keys: Seq<DuplicateKey>)
    requires
        m.capacity > 0,
        m.history.len() == 0,
        m.head == 0,
    ensures
        ({
            let w = recorded_keys(m, keys);
            &&& forall|k: DuplicateKey|
                #[trigger] record_all(m, keys).history.contains(k) <==> exists|i: int|
                    0 <= i < w.len() && i + m.capacity >= w.len() && w[i] == k
            &&& forall|k: DuplicateKey|
                #[trigger] dedup_step(record_all(m, keys), k).1 <==> exists|i: int|
                    0 <= i < w.len() && i + m.capacity >= w.len() && w[i] == k
        }),
{
    lemma_record_all_layout(m, keys);
    let w = recorded_keys(m, keys);
    let n = w.len();
    let c = m.capacity;
    let m2 = record_all(m, keys);
    assert forall|k: DuplicateKey| #[trigger] m2.history.contains(k) <==> exists|i: int|
        0 <= i < n && i + c >= n && w[i] == k by {
        if m2.history.contains(k) {
            let j = choose|j: int| 0 <= j < m2.history.len() && m2.history[j] == k;
            assert(holds_window_key(m2, w, j));
            let i = choose|i: int|
                #![trigger w[i]]
                n - c <= i < n && 0 <= i && i % (c as int) == j && m2.history[j] == w[i];
            assert(w[i] == k);
        }
        if exists|i: int| 0 <= i < n && i + c >= n && w[i] == k {
            let i = choose|i: int| 0 <= i < n && i + c >= n && w[i] == k;
            let j = i % (c as int);
            vstd::arithmetic::div_mod::lemma_mod_pos_bound(i, c as int);
            if n < c {
                vstd::arithmetic::div_mod::lemma_small_mod(i as nat, c);
            }
            assert(holds_window_key(m2, w, j));
            let i2 = choose|i2: int|
                #![trigger w[i2]]
                n - c <= i2 < n && 0 <= i2 && i2 % (c as int) == j && m2.history[j] == w[i2];
            if i2 < i {
                lemma_window_residues(c as int, i2, i);
            } else if i < i2 {
                lemma_window_residues(c as int, i, i2);
            }
            assert(m2.history[j] == k);
        }
    }
    assert forall|k: DuplicateKey| #[trigger] dedup_step(m2, k).1 <==> exists|i: int|
        0 <= i < n && i + c >= n && w[i] == k by {
        assert(dedup_step(m2, k).1 == m2.history.contains(k));
    }
}

} // verus!
