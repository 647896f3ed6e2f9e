//! Per-stream sequence tracking under the protocol's sequencing rules.

use vstd::prelude::*;

verus! {

/// What one observed sequence number means for the stream.
#[derive(Debug, Clone, Copy, PartialEq, Eq, Structural)]
pub enum SequenceStatus {
    /// Packet arrived in exact expected order.
    InOrder { sequence: u64 },
    /// Gap detected: the missing range is inclusive `[from, to]`.
    Gap { expected: u64, received: u64, from: u64, to: u64 },
    /// Duplicate or out-of-order older packet.
    DuplicateOrOld { sequence: u64, expected: u64 },
    /// The publisher namespace changed (the publisher restarted with a new identity).
    PublisherReset { old_publisher: Option<u64>, new_publisher: u64, initial_sequence: u64 },
}

/// Sequence state of one stream.
pub struct StreamSequenceTracker {
    pub stream_id: u64,
    pub active_publisher_id: Option<u64>,
    pub expected_sequence: u64,
    pub total_gaps_detected: u64,
    pub total_duplicates_detected: u64,
    pub total_publisher_resets: u64,
}

/// The observations a tracker can make without an arithmetic overflow: a
/// first sequence from a new publisher identity is at least 1, and the
/// counter and expected sequence the observation advances are below
/// `u64::MAX`.
pub open spec fn observe_allowed(t: StreamSequenceTracker, publisher_id: u64, sequence: u64) -> bool {
    match t.active_publisher_id {
        Some(a) if a == publisher_id => if sequence == t.expected_sequence {
            t.expected_sequence < u64::MAX
        } else if sequence < t.expected_sequence {
            t.total_duplicates_detected < u64::MAX
        } else {
            t.total_gaps_detected < u64::MAX
        },
        _ => {
            &&& sequence >= 1
            &&& sequence != 1 ==> t.total_gaps_detected < u64::MAX
            &&& (t.active_publisher_id is Some ==> t.total_publisher_resets < u64::MAX)
        },
    }
}

/// The tracker state and status after observing `sequence` from
/// `publisher_id`. A first or changed publisher identity starts the stream
/// over at sequence 1 (a restart is reported as such when it starts at 1,
/// as a gap from 1 otherwise); within one publisher identity the expected
/// sequence advances only on in-order arrival, older sequences are
/// duplicates, newer ones report the gap `[expected, sequence - 1]`.
pub open spec fn observe_step(t: StreamSequenceTracker, publisher_id: u64, sequence: u64) -> (
    StreamSequenceTracker,
    SequenceStatus,
) {
    match t.active_publisher_id {
        None => if sequence == 1 {
            (
                StreamSequenceTracker {
                    active_publisher_id: Some(publisher_id),
                    expected_sequence: 2,
                    ..t
                },
                SequenceStatus::InOrder { sequence: 1 },
            )
        } else {
            (
                StreamSequenceTracker {
                    active_publisher_id: Some(publisher_id),
                    expected_sequence: 1,
                    total_gaps_detected: (t.total_gaps_detected + 1) as u64,
                    ..t
                },
                SequenceStatus::Gap {
                    expected: 1,
                    received: sequence,
                    from: 1,
                    to: (sequence - 1) as u64,
                },
            )
        },
        Some(a) => if a != publisher_id {
            if sequence == 1 {
                (
                    StreamSequenceTracker {
                        active_publisher_id: Some(publisher_id),
                        expected_sequence: 2,
                        total_publisher_resets: (t.total_publisher_resets + 1) as u64,
                        ..t
                    },
                    SequenceStatus::PublisherReset {
                        old_publisher: Some(a),
                        new_publisher: publisher_id,
                        initial_sequence: 1,
                    },
                )
            } else {
                (
                    StreamSequenceTracker {
                        active_publisher_id: Some(publisher_id),
                        expected_sequence: 1,
                        total_publisher_resets: (t.total_publisher_resets + 1) as u64,
                        total_gaps_detected: (t.total_gaps_detected + 1) as u64,
                        ..t
                    },
                    SequenceStatus::Gap {
                        expected: 1,
                        received: sequence,
                        from: 1,
                        to: (sequence - 1) as u64,
                    },
                )
            }
        } else if sequence == t.expected_sequence {
            (
                StreamSequenceTracker {
                    expected_sequence: (t.expected_sequence + 1) as u64,
                    ..t
                },
                SequenceStatus::InOrder { sequence },
            )
        } else if sequence < t.expected_sequence {
            (
                StreamSequenceTracker {
                    total_duplicates_detected: (t.total_duplicates_detected + 1) as u64,
                    ..t
                },
                SequenceStatus::DuplicateOrOld { sequence, expected: t.expected_sequence },
            )
        } else {
            (
                StreamSequenceTracker {
                    total_gaps_detected: (t.total_gaps_detected + 1) as u64,
                    ..t
                },
                SequenceStatus::Gap {
                    expected: t.expected_sequence,
                    received: sequence,
                    from: t.expected_sequence,
                    to: (sequence - 1) as u64,
                },
            )
        },
    }
}

impl StreamSequenceTracker {
    /// The state of a fresh tracker for `stream_id`.
    pub open spec fn new_spec(stream_id: u64) -> StreamSequenceTracker {
        StreamSequenceTracker {
            stream_id,
            active_publisher_id: None,
            expected_sequence: 1,
            total_gaps_detected: 0,
            total_duplicates_detected: 0,
            total_publisher_resets: 0,
        }
    }

    /// A tracker for `stream_id` with no publisher yet; sequences start at 1.
    pub fn new(stream_id: u64) -> (r: Self)
        ensures
            r == (StreamSequenceTracker {
                stream_id,
                active_publisher_id: None,
                expected_sequence: 1,
                total_gaps_detected: 0,
                total_duplicates_detected: 0,
                total_publisher_resets: 0,
            }),
    {
        Self {
            stream_id,
            active_publisher_id: None,
            expected_sequence: 1,
            total_gaps_detected: 0,
            total_duplicates_detected: 0,
            total_publisher_resets: 0,
        }
    }

    /// Whether observing `sequence` from `publisher_id` stays clear of an
    /// arithmetic overflow, as `observe_allowed` says.
    pub fn can_observe(&self, publisher_id: u64, sequence: u64) -> (r: bool)
        ensures
            r == observe_allowed(*self, publisher_id, sequence),
    {
        match self.active_publisher_id {
            Some(a) if a == publisher_id => {
                if sequence == self.expected_sequence {
                    self.expected_sequence < u64::MAX
                } else if sequence < self.expected_sequence {
                    self.total_duplicates_detected < u64::MAX
                } else {
                    self.total_gaps_detected < u64::MAX
                }
            },
            _ => {
                sequence >= 1 && (sequence == 1 || self.total_gaps_detected < u64::MAX) && (
                self.active_publisher_id.is_none() || self.total_publisher_resets < u64::MAX)
            },
        }
    }

    /// Classifies an incoming publication and updates the stream state, as
    /// `observe_step` says.
    pub fn observe(&mut self, publisher_id: u64, sequence: u64) -> (r: SequenceStatus)
        requires
            observe_allowed(*old(self), publisher_id, sequence),
        ensures
            (*final(self), r) == observe_step(*old(self), publisher_id, sequence),
    {
        match self.active_publisher_id {
            None => {
                self.active_publisher_id = Some(publisher_id);
                if sequence == 1 {
                    self.expected_sequence = 2;
                    SequenceStatus::InOrder { sequence: 1 }
                } else {
                    let from: u64 = 1;
                    let to = sequence - 1;
                    self.expected_sequence = 1;
                    self.total_gaps_detected = self.total_gaps_detected + 1;
                    SequenceStatus::Gap { expected: 1, received: sequence, from, to }
                }
            },
            Some(active_pub) if active_pub != publisher_id => {
                let old_pub = self.active_publisher_id;
                self.active_publisher_id = Some(publisher_id);
                self.total_publisher_resets = self.total_publisher_resets + 1;
                if sequence == 1 {
                    self.expected_sequence = 2;
                    SequenceStatus::PublisherReset {
                        old_publisher: old_pub,
                        new_publisher: publisher_id,
                        initial_sequence: 1,
                    }
                } else {
                    self.expected_sequence = 1;
                    let from: u64 = 1;
                    let to = sequence - 1;
                    self.total_gaps_detected = self.total_gaps_detected + 1;
                    SequenceStatus::Gap { expected: 1, received: sequence, from, to }
                }
            },
            Some(_) => {
                if sequence == self.expected_sequence {
                    self.expected_sequence = self.expected_sequence + 1;
                    SequenceStatus::InOrder { sequence }
                } else if sequence < self.expected_sequence {
                    self.total_duplicates_detected = self.total_duplicates_detected + 1;
                    SequenceStatus::DuplicateOrOld { sequence, expected: self.expected_sequence }
                } else {
                    let from = self.expected_sequence;
                    let to = sequence - 1;
                    self.total_gaps_detected = self.total_gaps_detected + 1;
                    SequenceStatus::Gap { expected: self.expected_sequence, received: sequence, from, to }
                }
            },
        }
    }

    /// Moves the expected sequence forward (never backward), e.g. after a
    /// gap was filled by replay.
    pub fn advance_expected(&mut self, new_expected: u64)
        ensures
            *final(self) == (StreamSequenceTracker {
                expected_sequence: if new_expected > old(self).expected_sequence {
                    new_expected
                } else {
                    old(self).expected_sequence
                },
                ..*old(self)
            }),
    {
        if new_expected > self.expected_sequence {
            self.expected_sequence = new_expected;
        }
    }
}

/// Every reported gap is the non-empty range that ends right before the
/// received sequence, and starts at the sequence that was expected.
pub proof fn lemma_gap_is_missing_range(t: StreamSequenceTracker, publisher_id: u64, sequence: u64)
    requires
        observe_allowed(t, publisher_id, sequence),
        t.expected_sequence >= 1,
    ensures
        observe_step(t, publisher_id, sequence).1 matches SequenceStatus::Gap {
            expected,
            received,
            from,
            to,
        } ==> from == expected && from <= to && to + 1 == received && received == sequence,
{
}

/// Within one publisher identity the expected sequence never moves back,
/// and it moves forward by exactly one on in-order arrival only.
pub proof fn lemma_expected_monotone(t: StreamSequenceTracker, publisher_id: u64, sequence: u64)
    requires
        observe_allowed(t, publisher_id, sequence),
        t.active_publisher_id == Some(publisher_id),
    ensures
        ({
            let (t2, st) = observe_step(t, publisher_id, sequence);
            &&& t2.expected_sequence >= t.expected_sequence
            &&& (t2.expected_sequence != t.expected_sequence <==> st is InOrder)
            &&& st is InOrder ==> t2.expected_sequence == t.expected_sequence + 1
        }),
{
}

/// A changed publisher identity never continues the old sequence: the
/// stream starts over at 1 and the restart is counted.
pub proof fn lemma_new_publisher_restarts(
    t: StreamSequenceTracker,
    publisher_id: u64,
    sequence: u64,
)
    requires
        observe_allowed(t, publisher_id, sequence),
        t.active_publisher_id is Some,
        t.active_publisher_id != Some(publisher_id),
    ensures
        ({
            let (t2, st) = observe_step(t, publisher_id, sequence);
            &&& t2.active_publisher_id == Some(publisher_id)
            &&& t2.total_publisher_resets == t.total_publisher_resets + 1
            &&& t2.expected_sequence == (if sequence == 1 { 2u64 } else { 1u64 })
            &&& st is PublisherReset || (st matches SequenceStatus::Gap { from, .. } && from == 1)
        }),
{
}

} // verus!
