//! The publisher-side retention ring for replay.

use vstd::prelude::*;

use crate::error::ErrorCode;
use crate::protocol::frame::{FrameModel, OwnedFrame};

verus! {

/// The abstract state of a retention ring: its capacity, its slots, and
/// the oldest and newest retained sequence.
pub ghost struct RingModel {
    pub capacity: nat,
    pub slots: Seq<Option<FrameModel>>,
    pub min_sequence: Option<u64>,
    pub max_sequence: Option<u64>,
}

/// The slot a sequence number maps to.
pub open spec fn ring_slot(capacity: nat, sequence: u64) -> int {
    ((sequence as usize) as nat % capacity) as int
}

/// The frame a ring hands out for `sequence`: the one in its slot, when the
/// sequence lies within the retained range and the slot still holds it.
pub open spec fn ring_lookup(m: RingModel, sequence: u64) -> Option<FrameModel> {
    match (m.min_sequence, m.max_sequence) {
        (Some(min_s), Some(max_s)) => if sequence < min_s || sequence > max_s {
            None
        } else {
            match m.slots[ring_slot(m.capacity, sequence)] {
                Some(f) => if f.header.sequence == sequence {
                    Some(f)
                } else {
                    None
                },
                None => None,
            }
        },
        _ => None,
    }
}

/// The ring after storing `f`: the frame takes its sequence's slot, the
/// newest sequence becomes the frame's, and the oldest retained sequence
/// advances once the span reaches the capacity.
pub open spec fn ring_push(m: RingModel, f: FrameModel) -> RingModel {
    let seq = f.header.sequence;
    let slots = m.slots.update(ring_slot(m.capacity, seq), Some(f));
    match m.min_sequence {
        None => RingModel { slots, min_sequence: Some(seq), max_sequence: Some(seq), ..m },
        Some(min_s) => RingModel {
            slots,
            max_sequence: Some(seq),
            min_sequence: if seq > min_s && seq - min_s >= m.capacity {
                Some((seq - m.capacity + 1) as u64)
            } else {
                Some(min_s)
            },
            ..m
        },
    }
}

/// Bounded ring retaining published DATA frames for replay.
pub struct BoundedRingBuffer {
    capacity: usize,
    buffer: Vec<Option<OwnedFrame>>,
    min_sequence: Option<u64>,
    max_sequence: Option<u64>,
}

/// The model of an optional frame.
pub open spec fn slot_model(o: Option<OwnedFrame>) -> Option<FrameModel> {
    match o {
        Some(f) => Some(f.model()),
        None => None,
    }
}

impl BoundedRingBuffer {
    /// The ring's shape: a positive capacity and one slot per unit of it.
    pub closed spec fn wf(&self) -> bool {
        self.capacity > 0 && self.buffer@.len() == self.capacity
    }

    /// The abstract state of the ring.
    pub closed spec fn model(&self) -> RingModel {
        RingModel {
            capacity: self.capacity as nat,
            slots: self.buffer@.map_values(|o: Option<OwnedFrame>| slot_model(o)),
            min_sequence: self.min_sequence,
            max_sequence: self.max_sequence,
        }
    }

    /// An empty ring with `capacity` slots.
    pub fn new(capacity: usize) -> (r: Self)
        requires
            capacity > 0,
        ensures
            r.model().capacity == capacity,
            r.model().slots == Seq::new(capacity as nat, |i: int| None::<FrameModel>),
            r.model().min_sequence is None,
            r.model().max_sequence is None,
            r.model().slots.len() == r.model().capacity > 0,
            r.wf(),
    {
        let mut buffer: Vec<Option<OwnedFrame>> = Vec::with_capacity(capacity);
        let mut i: usize = 0;
        while i < capacity
            invariant
                i <= capacity,
                buffer@.len() == i,
                forall|k: int| 0 <= k < i ==> buffer@[k] is None,
            decreases capacity - i,
        {
            buffer.push(None);
            i = i + 1;
        }
        let r = Self { capacity, buffer, min_sequence: None, max_sequence: None };
        assert(r.model().slots =~= Seq::new(capacity as nat, |i: int| None::<FrameModel>));
        r
    }

    /// The number of slots (positive).
    pub fn capacity(&self) -> (r: usize)
        requires
            self.wf(),
        ensures
            r == self.model().capacity,
            r > 0,
            self.model().slots.len() == r,
    {
        self.capacity
    }

    /// The oldest retained sequence, if any frame was stored.
    pub fn min_sequence(&self) -> (r: Option<u64>)
        ensures
            r == self.model().min_sequence,
    {
        self.min_sequence
    }

    /// The newest stored sequence, if any frame was stored.
    pub fn max_sequence(&self) -> (r: Option<u64>)
        ensures
            r == self.model().max_sequence,
    {
        self.max_sequence
    }

    /// Stores a published frame in its sequence's slot.
    pub fn push(&mut self, frame: OwnedFrame)
        requires
            old(self).wf(),
        ensures
            final(self).wf(),
            final(self).model() == ring_push(old(self).model(), frame.model()),
            final(self).model().slots.len() == final(self).model().capacity > 0,
    {
        let ghost m0 = self.model();
        let ghost fm = frame.model();
        let seq = frame.header.sequence;
        let index = (seq as usize) % self.capacity;
        self.buffer.set(index, Some(frame));
        match self.min_sequence {
            None => {
                self.min_sequence = Some(seq);
                self.max_sequence = Some(seq);
            },
            Some(min_s) => {
                self.max_sequence = Some(seq);
                if seq > min_s && (seq - min_s) >= self.capacity as u64 {
                    self.min_sequence = Some(seq - self.capacity as u64 + 1);
                }
            },
        }
        assert(self.model().slots =~= m0.slots.update(ring_slot(m0.capacity, seq), Some(fm)));
    }

    /// The frame stored for `sequence`, if it is still retained.
    pub fn get(&self, sequence: u64) -> (r: Option<&OwnedFrame>)
        requires
            self.wf(),
        ensures
            match ring_lookup(self.model(), sequence) {
                Some(f) => r is Some && r->Some_0.model() == f,
                None => r is None,
            },
    {
        let min_s = match self.min_sequence {
            Some(v) => v,
            None => return None,
        };
        let max_s = match self.max_sequence {
            Some(v) => v,
            None => return None,
        };
        if sequence < min_s || sequence > max_s {
            return None;
        }
        let index = (sequence as usize) % self.capacity;
        match &self.buffer[index] {
            Some(frame) => {
                if frame.header.sequence == sequence {
                    return Some(frame);
                }
            },
            None => {},
        }
        None
    }

    /// Copies of the frames `from_seq..=to_seq`, or the error code and the
    /// first and last unavailable sequence: the expired part before the
    /// oldest retained sequence, the part after the newest, or the first
    /// sequence inside the range that is no longer held.
    pub fn get_range(&self, from_seq: u64, to_seq: u64) -> (r: Result<
        Vec<OwnedFrame>,
        (ErrorCode, u64, u64),
    >)
        requires
            self.wf(),
            ({
                let min_s = match self.model().min_sequence { Some(v) => v, None => 0u64 };
                let max_s = match self.model().max_sequence { Some(v) => v, None => 0u64 };
                from_seq >= min_s && to_seq <= max_s ==> from_seq <= to_seq && to_seq - from_seq
                    < u64::MAX
            }),
        ensures
            ({
                let m = self.model();
                let min_s = match m.min_sequence { Some(v) => v, None => 0u64 };
                let max_s = match m.max_sequence { Some(v) => v, None => 0u64 };
                if from_seq < min_s {
                    r == Err::<Vec<OwnedFrame>, _>(
                        (ErrorCode::ReplayUnavailable, from_seq, if min_s > 0 { (min_s - 1) as u64 } else { 0u64 }),
                    )
                } else if to_seq > max_s {
                    r == Err::<Vec<OwnedFrame>, _>(
                        (ErrorCode::ReplayUnavailable, (max_s + 1) as u64, to_seq),
                    )
                } else {
                    match r {
                        Ok(frames) => {
                            &&& frames@.len() == to_seq - from_seq + 1
                            &&& forall|i: int|
                                0 <= i < frames@.len() ==> ring_lookup(m, (from_seq + i) as u64)
                                    == Some(#[trigger] frames@[i].model())
                        },
                        Err((c, first, last)) => {
                            &&& c == ErrorCode::ReplayUnavailable
                            &&& first == last
                            &&& from_seq <= first <= to_seq
                            &&& ring_lookup(m, first) is None
                            &&& forall|s: u64| from_seq <= s < first ==> ring_lookup(m, s) is Some
                        },
                    }
                }
            }),
    {
        let min_s = match self.min_sequence {
            Some(v) => v,
            None => 0,
        };
        let max_s = match self.max_sequence {
            Some(v) => v,
            None => 0,
        };
        if from_seq < min_s {
            return Err((ErrorCode::ReplayUnavailable, from_seq, min_s.saturating_sub(1)));
        }
        if to_seq > max_s {
            return Err((ErrorCode::ReplayUnavailable, max_s + 1, to_seq));
        }
        let mut result: Vec<OwnedFrame> = Vec::new();
        let mut seq: u64 = from_seq;
        loop
            invariant_except_break
                result@.len() == seq - from_seq,
            invariant
                self.wf(),
                from_seq <= seq <= to_seq,
                to_seq <= max_s,
                min_s <= from_seq,
                min_s == (match self.model().min_sequence { Some(v) => v, None => 0u64 }),
                max_s == (match self.model().max_sequence { Some(v) => v, None => 0u64 }),
                forall|i: int|
                    0 <= i < result@.len() ==> ring_lookup(self.model(), (from_seq + i) as u64)
                        == Some(#[trigger] result@[i].model()),
            ensures
                seq == to_seq,
                result@.len() == to_seq - from_seq + 1,
                forall|i: int|
                    0 <= i < result@.len() ==> ring_lookup(self.model(), (from_seq + i) as u64)
                        == Some(#[trigger] result@[i].model()),
            decreases to_seq - seq,
        {
            match self.get(seq) {
                Some(f) => {
                    result.push(f.clone());
                },
                None => {
                    proof {
                        assert forall|s: u64| from_seq <= s < seq implies ring_lookup(
                            self.model(),
                            s,
                        ) is Some by {
                            let i = s - from_seq;
                            assert(ring_lookup(self.model(), (from_seq + i) as u64) == Some(
                                result@[i].model(),
                            ));
                        }
                    }
                    return Err((ErrorCode::ReplayUnavailable, seq, seq));
                },
            }
            if seq == to_seq {
                break;
            }
            seq = seq + 1;
        }
        Ok(result)
    }

    /// Empties every slot and forgets the retained range.
    pub fn clear(&mut self)
        requires
            old(self).wf(),
        ensures
            final(self).wf(),
            final(self).model() == (RingModel {
                slots: Seq::new(old(self).model().capacity, |i: int| None::<FrameModel>),
                min_sequence: None,
                max_sequence: None,
                ..old(self).model()
            }),
    {
        let n = self.buffer.len();
        let mut i: usize = 0;
        while i < n
            invariant
                n == self.buffer@.len() == self.capacity,
                self.capacity > 0,
                i <= n,
                forall|k: int| 0 <= k < i ==> self.buffer@[k] is None,
            decreases n - i,
        {
            self.buffer.set(i, None);
            i = i + 1;
        }
        self.min_sequence = None;
        self.max_sequence = None;
        assert(self.model().slots =~= Seq::new(self.capacity as nat, |i: int| None::<FrameModel>));
    }
}

/// A frame stored in a ring can be fetched right after, unless the ring
/// had already moved past its sequence.
pub proof fn lemma_push_then_get(m: RingModel, f: FrameModel)
    requires
        m.capacity > 0,
        m.slots.len() == m.capacity,
        m.capacity <= usize::MAX,
        m.min_sequence is None || m.min_sequence->Some_0 <= f.header.sequence,
    ensures
        ring_lookup(ring_push(m, f), f.header.sequence) == Some(f),
{
    let seq = f.header.sequence;
    assert(0 <= ring_slot(m.capacity, seq) < m.capacity);
    if let Some(min_s) = m.min_sequence {
        if seq > min_s && seq - min_s >= m.capacity {
            assert(seq - m.capacity + 1 <= seq);
        }
    }
}

/// The retained range never spans more sequences than the ring has slots:
/// after storing a frame no older than the oldest retained one, the newest
/// and oldest retained sequences lie less than the capacity apart.
pub proof fn lemma_retained_span_bounded(m: RingModel, f: FrameModel)
    requires
        m.capacity > 0,
        m.min_sequence is Some ==> m.min_sequence->Some_0 <= f.header.sequence,
    ensures
        ({
            let m2 = ring_push(m, f);
            &&& m2.min_sequence is Some && m2.max_sequence is Some
            &&& m2.min_sequence->Some_0 <= m2.max_sequence->Some_0
            &&& m2.max_sequence->Some_0 - m2.min_sequence->Some_0 < m.capacity
        }),
{
}


/// The ring after storing the frames of `fs` in order.
pub open spec fn ring_push_all(m: RingModel, fs: Seq<FrameModel>) -> RingModel
    decreases fs.len(),
{
    if fs.len() == 0 {
        m
    } else {
        ring_push(ring_push_all(m, fs.drop_last()), fs.last())
    }
}

/// Two sequences less than the capacity apart take different slots.
proof fn lemma_distinct_slots(capacity: nat, a: u64, b: u64)
    requires
        0 < capacity,
        a < b,
        b - a < capacity,
        b <= usize::MAX,
    ensures
        ring_slot(capacity, a) != ring_slot(capacity, b),
{
    assert((a as usize) as nat == a && (b as usize) as nat == b);
    vstd::arithmetic::div_mod::lemma_mod_equivalence(b as int, a as int, capacity as int);
    vstd::arithmetic::div_mod::lemma_small_mod((b - a) as nat, capacity);
}

/// After storing frames of consecutive sequences from `start` into an empty
/// ring, the ring spans the newest `capacity` of them and each retained
/// sequence's slot holds its frame.
proof fn lemma_ring_push_all_window(m: RingModel, fs: Seq<FrameModel>, start: u64)
    requires
        m.capacity > 0,
        m.slots.len() == m.capacity,
        m.min_sequence is None,
        m.max_sequence is None,
        fs.len() > 0,
        start + fs.len() - 1 <= usize::MAX,
        forall|i: int| 0 <= i < fs.len() ==> (#[trigger] fs[i]).header.sequence == start + i,
    ensures
        ({
            let m2 = ring_push_all(m, fs);
            let lo = if fs.len() > m.capacity {
                start + fs.len() - m.capacity
            } else {
                start as int
            };
            &&& m2.capacity == m.capacity
            &&& m2.slots.len() == m.capacity
            &&& m2.min_sequence == Some(lo as u64)
            &&& m2.max_sequence == Some((start + fs.len() - 1) as u64)
            &&& forall|s: u64|
                lo <= s < start + fs.len() ==> #[trigger] m2.slots[ring_slot(m.capacity, s)] == Some(
                    fs[s - start],
                )
        }),
    decreases fs.len(),
{
    let n = fs.len();
    let c = m.capacity;
    let f = fs.last();
    let seq = f.header.sequence;
    assert(seq == start + n - 1);
    assert(0 <= ring_slot(c, seq) < c) by {
        assert((seq as usize) as nat == seq);
    }
    if n == 1 {
        assert(fs[0] == f);
    } else {
        let pre = fs.drop_last();
        assert forall|i: int| 0 <= i < pre.len() implies (#[trigger] pre[i]).header.sequence == start
            + i by {
            assert(pre[i] == fs[i]);
        }
        lemma_ring_push_all_window(m, pre, start);
        let m1 = ring_push_all(m, pre);
        let lo1 = if pre.len() > c {
            start + pre.len() - c
        } else {
            start as int
        };
        let m2 = ring_push_all(m, fs);
        let lo = if n > c {
            start + n - c
        } else {
            start as int
        };
        assert(m2 == ring_push(m1, f));
        assert forall|s: u64| lo <= s < start + n implies #[trigger] m2.slots[ring_slot(c, s)] == Some(
            fs[s - start],
        ) by {
            if s == seq {
                assert(fs[s - start] == f);
            } else {
                lemma_distinct_slots(c, s, seq);
                assert(0 <= ring_slot(c, s) < c) by {
                    assert((s as usize) as nat == s);
                }
                assert(m1.slots[ring_slot(c, s)] == Some(pre[s - start]));
                assert(pre[s - start] == fs[s - start]);
            }
        }
    }
}

/// A ring keeps the newest frames: after storing frames of consecutive
/// sequences `start, start + 1, ...` (within the machine's word) in an empty
/// ring, it hands out each of the newest `capacity` of them by its sequence,
/// and nothing for an older, later or earlier sequence.
pub proof fn lemma_ring_keeps_newest(m: RingModel, fs: Seq<FrameModel>, start: u64)
    requires
        m.capacity > 0,
        m.slots.len() == m.capacity,
        m.min_sequence is None,
        m.max_sequence is None,
        start + fs.len() <= usize::MAX + 1,
        forall|i: int| 0 <= i < fs.len() ==> (#[trigger] fs[i]).header.sequence == start + i,
    ensures
        forall|s: u64|
            #[trigger] ring_lookup(ring_push_all(m, fs), s) == if start <= s < start + fs.len() && s
                + m.capacity >= start + fs.len() {
                Some(fs[s - start])
            } else {
                None
            },
{
    if fs.len() > 0 {
        lemma_ring_push_all_window(m, fs, start);
        let m2 = ring_push_all(m, fs);
        assert forall|s: u64|
            #[trigger] ring_lookup(m2, s) == if start <= s < start + fs.len() && s + m.capacity
                >= start + fs.len() {
                Some(fs[s - start])
            } else {
                None
            } by {
            if start <= s < start + fs.len() && s + m.capacity >= start + fs.len() {
                assert(m2.slots[ring_slot(m.capacity, s)] == Some(fs[s - start]));
            }
        }
    }
}


/// After storing frames of strictly increasing sequences into an empty
/// ring, the ring spans from some retained sequence to the newest one, less
/// than the capacity apart; each stored frame at or past the oldest
/// retained sequence is in its sequence's slot, and every occupied slot
/// holds one of the stored frames.
proof fn lemma_ring_push_all_increasing(m: RingModel, fs: Seq<FrameModel>)
    requires
        m.capacity > 0,
        m.slots.len() == m.capacity,
        m.min_sequence is None,
        m.max_sequence is None,
        forall|x: int| 0 <= x < m.slots.len() ==> #[trigger] m.slots[x] is None,
        fs.len() > 0,
        fs.last().header.sequence <= usize::MAX,
        forall|i: int, j: int|
            0 <= i < j < fs.len() ==> (#[trigger] fs[i]).header.sequence
                < (#[trigger] fs[j]).header.sequence,
    ensures
        ({
            let m2 = ring_push_all(m, fs);
            &&& m2.capacity == m.capacity
            &&& m2.slots.len() == m.capacity
            &&& m2.max_sequence == Some(fs.last().header.sequence)
            &&& m2.min_sequence is Some
            &&& fs[0].header.sequence <= m2.min_sequence->Some_0 <= fs.last().header.sequence
            &&& fs.last().header.sequence - m2.min_sequence->Some_0 < m.capacity
            &&& forall|j: int|
                0 <= j < fs.len() && (#[trigger] fs[j]).header.sequence >= m2.min_sequence->Some_0
                    ==> m2.slots[ring_slot(m.capacity, fs[j].header.sequence)] == Some(fs[j])
            &&& forall|x: int|
                0 <= x < m2.slots.len() && (#[trigger] m2.slots[x]) is Some ==> exists|j: int|
                    0 <= j < fs.len() && m2.slots[x] == Some(fs[j])
        }),
    decreases fs.len(),
{
    let n = fs.len();
    let c = m.capacity;
    let f = fs.last();
    let seq = f.header.sequence;
    assert(0 <= ring_slot(c, seq) < c) by {
        assert((seq as usize) as nat == seq);
    }
    let m2 = ring_push_all(m, fs);
    if n == 1 {
        assert(fs[0] == f);
        assert forall|x: int| 0 <= x < m2.slots.len() && (#[trigger] m2.slots[x]) is Some implies exists|j: int|
            0 <= j < fs.len() && m2.slots[x] == Some(fs[j]) by {
            assert(x == ring_slot(c, seq));
            assert(m2.slots[x] == Some(fs[0]));
        }
    } else {
        let pre = fs.drop_last();
        assert forall|i: int, j: int| 0 <= i < j < pre.len() implies (#[trigger] pre[i]).header.sequence
            < (#[trigger] pre[j]).header.sequence by {
            assert(pre[i] == fs[i] && pre[j] == fs[j]);
        }
        assert(pre.last() == fs[n - 2]);
        assert(fs[n - 2].header.sequence < seq);
        lemma_ring_push_all_increasing(m, pre);
        let m1 = ring_push_all(m, pre);
        assert(m2 == ring_push(m1, f));
        let lo = m2.min_sequence->Some_0;
        assert(pre[0] == fs[0]);
        assert forall|j: int|
            0 <= j < fs.len() && (#[trigger] fs[j]).header.sequence >= lo implies m2.slots[ring_slot(
            c,
            fs[j].header.sequence,
        )] == Some(fs[j]) by {
            if j < n - 1 {
                let sj = fs[j].header.sequence;
                assert(pre[j] == fs[j]);
                assert(sj < seq);
                lemma_distinct_slots(c, sj, seq);
                assert(0 <= ring_slot(c, sj) < c) by {
                    assert((sj as usize) as nat == sj);
                }
                assert(m1.slots[ring_slot(c, sj)] == Some(pre[j]));
            }
        }
        assert forall|x: int| 0 <= x < m2.slots.len() && (#[trigger] m2.slots[x]) is Some implies exists|j: int|
            0 <= j < fs.len() && m2.slots[x] == Some(fs[j]) by {
            if x == ring_slot(c, seq) {
                assert(m2.slots[x] == Some(fs[n - 1]));
            } else {
                assert(m1.slots[x] == m2.slots[x]);
                let j = choose|j: int| 0 <= j < pre.len() && m1.slots[x] == Some(pre[j]);
                assert(pre[j] == fs[j]);
            }
        }
    }
}

/// A ring keeps the newest frames of any increasing run: after storing
/// frames of strictly increasing sequences (within the machine's word) in
/// an empty ring, the newest retained sequence is the last one stored, the
/// oldest retained one lies less than the capacity below it, each stored
/// frame is handed out by its sequence exactly when that sequence is still
/// retained, and nothing else is handed out.
pub proof fn lemma_ring_keeps_increasing(m: RingModel, fs: Seq<FrameModel>)
    requires
        m.capacity > 0,
        m.slots.len() == m.capacity,
        m.min_sequence is None,
        m.max_sequence is None,
        forall|x: int| 0 <= x < m.slots.len() ==> #[trigger] m.slots[x] is None,
        fs.len() > 0,
        fs.last().header.sequence <= usize::MAX,
        forall|i: int, j: int|
            0 <= i < j < fs.len() ==> (#[trigger] fs[i]).header.sequence
                < (#[trigger] fs[j]).header.sequence,
    ensures
        ({
            let m2 = ring_push_all(m, fs);
            let lo = m2.min_sequence->Some_0;
            &&& m2.max_sequence == Some(fs.last().header.sequence)
            &&& m2.min_sequence is Some
            &&& fs[0].header.sequence <= lo <= fs.last().header.sequence
            &&& fs.last().header.sequence - lo < m.capacity
            &&& forall|j: int|
                0 <= j < fs.len() ==> #[trigger] ring_lookup(m2, fs[j].header.sequence) == if fs[j].header.sequence
                    >= lo {
                    Some(fs[j])
                } else {
                    None
                }
            &&& forall|s: u64|
                #[trigger] ring_lookup(m2, s) is Some ==> exists|j: int|
                    0 <= j < fs.len() && fs[j].header.sequence == s && ring_lookup(m2, s) == Some(fs[j])
        }),
{
    lemma_ring_push_all_increasing(m, fs);
    let m2 = ring_push_all(m, fs);
    let lo = m2.min_sequence->Some_0;
    let c = m.capacity;
    assert forall|j: int| 0 <= j < fs.len() implies #[trigger] ring_lookup(m2, fs[j].header.sequence)
        == if fs[j].header.sequence >= lo {
        Some(fs[j])
    } else {
        None
    } by {
        if j < fs.len() - 1 {
            assert(fs[j].header.sequence < fs[fs.len() - 1].header.sequence);
        }
    }
    assert forall|s: u64| #[trigger] ring_lookup(m2, s) is Some implies exists|j: int|
        0 <= j < fs.len() && fs[j].header.sequence == s && ring_lookup(m2, s) == Some(fs[j]) by {
        let x = ring_slot(c, s);
        assert(0 <= x < c) by {
            vstd::arithmetic::div_mod::lemma_mod_pos_bound((s as usize) as int, c as int);
        }
        let j = choose|j: int| 0 <= j < fs.len() && m2.slots[x] == Some(fs[j]);
        assert(fs[j].header.sequence == s);
    }
}

} // verus!
