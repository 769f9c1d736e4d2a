//! The simulation queue: one timestamp-ordered timeline merging market
//! ticks, matured client actions and client-bound deliveries.
//!
//! Items are held sorted by timestamp; an item is inserted after every
//! item with an equal or earlier timestamp, so equally timestamped events
//! are popped in insertion order and a replay is deterministic.

use vstd::prelude::*;

use crate::objects::{BrokerAction, BrokerResult};
use crate::Tick;

verus! {

/// One unit of work on the simulation timeline.
pub enum WorkUnit {
    /// A tick has arrived at the broker.
    NewTick { symbol_id: usize, tick: Tick },
    /// A tick is being delivered to the client.
    ClientTick { symbol_id: usize, tick: Tick },
    /// The broker has finished internal processing; execute now.  A
    /// matured action remembers the reply slot it must answer on.
    ActionComplete { slot: u64, action: BrokerAction },
    /// A result is being delivered to the client: to a reply slot, or as
    /// an unsolicited push notification when no slot is carried.
    Response { slot: Option<u64>, result: BrokerResult },
}

/// A work unit scheduled at a point of the simulation timeline.
pub struct QueueItem {
    pub timestamp: u64,
    pub unit: WorkUnit,
}

/// Where an item with this timestamp is inserted: after every item with
/// an equal or earlier timestamp.
pub open spec fn insert_pos(s: Seq<QueueItem>, ts: u64) -> int
    decreases s.len(),
{
    if s.len() == 0 {
        0
    } else if s[0].timestamp > ts {
        0
    } else {
        1 + insert_pos(s.drop_first(), ts)
    }
}

/// The insertion position splits the sequence into an earlier-or-equal
/// prefix and a strictly later suffix.
pub proof fn lemma_insert_pos(s: Seq<QueueItem>, ts: u64)
    ensures
        0 <= insert_pos(s, ts) <= s.len(),
        forall|j: int| 0 <= j < insert_pos(s, ts) ==> (#[trigger] s[j]).timestamp <= ts,
        insert_pos(s, ts) < s.len() ==> s[insert_pos(s, ts)].timestamp > ts,
    decreases s.len(),
{
    if s.len() > 0 && s[0].timestamp <= ts {
        lemma_insert_pos(s.drop_first(), ts);
        assert forall|j: int| 0 <= j < insert_pos(s, ts) implies (#[trigger] s[j]).timestamp
            <= ts by {
            if j > 0 {
                assert(s.drop_first()[j - 1] == s[j]);
            }
        }
        if insert_pos(s, ts) < s.len() {
            assert(s.drop_first()[insert_pos(s.drop_first(), ts)] == s[insert_pos(s, ts)]);
        }
    }
}

/// The event queue.
pub struct SimulationQueue {
    items: Vec<QueueItem>,
}

impl View for SimulationQueue {
    type V = Seq<QueueItem>;

    closed spec fn view(&self) -> Seq<QueueItem> {
        self.items@
    }
}

impl SimulationQueue {
    /// Items are sorted by timestamp.
    pub open spec fn wf(self) -> bool {
        forall|i: int, j: int|
            0 <= i < j < self@.len() ==> (#[trigger] self@[i]).timestamp <= (
            #[trigger] self@[j]).timestamp
    }

    pub fn new() -> (r: SimulationQueue)
        ensures
            r@ =~= Seq::<QueueItem>::empty(),
            r.wf(),
    {
        SimulationQueue { items: Vec::new() }
    }

    pub fn len(&self) -> (r: usize)
        ensures
            r == self@.len(),
    {
        self.items.len()
    }

    /// The item at a queue position, earliest first.
    pub fn item_at(&self, i: usize) -> (r: &QueueItem)
        requires
            i < self@.len(),
        ensures
            *r == self@[i as int],
    {
        &self.items[i]
    }

    /// Schedules an item, after everything at or before its timestamp.
    pub fn push(&mut self, item: QueueItem)
        requires
            old(self).wf(),
        ensures
            final(self).wf(),
            final(self)@ == old(self)@.take(insert_pos(old(self)@, item.timestamp)) + seq![item]
                + old(self)@.skip(insert_pos(old(self)@, item.timestamp)),
            final(self)@.len() == old(self)@.len() + 1,
    {
        proof {
            lemma_insert_pos(self@, item.timestamp);
        }
        let ghost s0 = self@;
        let ghost p = insert_pos(s0, item.timestamp);
        let n = self.items.len();
        let mut i: usize = 0;
        while i < n && self.items[i].timestamp <= item.timestamp
            invariant
                n == s0.len(),
                self@ == s0,
                i <= n,
                forall|j: int| 0 <= j < i ==> (#[trigger] s0[j]).timestamp <= item.timestamp,
            decreases n - i,
        {
            i = i + 1;
        }
        proof {
            // The scan found the same split the specification names.
            if i < p {
                assert(s0[i as int].timestamp <= item.timestamp);
            }
            if p < i {
                assert(s0[p].timestamp > ts_of(item));
            }
            assert(i as int == p);
        }
        self.items.insert(i, item);
        proof {
            let s = self@;
            assert(s =~= s0.take(p) + seq![item] + s0.skip(p));
            assert forall|a: int, b: int| 0 <= a < b < s.len() implies (#[trigger] s[a]).timestamp
                <= (#[trigger] s[b]).timestamp by {
                let a0 = if a < p { a } else if a == p { a } else { a - 1 };
                let b0 = if b < p { b } else if b == p { b } else { b - 1 };
                if a < p {
                    assert(s[a] == s0[a]);
                }
                if a > p {
                    assert(s[a] == s0[a - 1]);
                }
                if b < p {
                    assert(s[b] == s0[b]);
                }
                if b > p {
                    assert(s[b] == s0[b - 1]);
                }
            }
        }
    }

    /// Removes and returns the earliest item.
    pub fn pop(&mut self) -> (r: Option<QueueItem>)
        requires
            old(self).wf(),
        ensures
            final(self).wf(),
            old(self)@.len() == 0 ==> r is None && final(self)@ == old(self)@,
            old(self)@.len() > 0 ==> r == Some(old(self)@[0]) && final(self)@ == old(self)@.skip(1)
                && forall|j: int|
                0 <= j < old(self)@.len() ==> old(self)@[0].timestamp <= (
                #[trigger] old(self)@[j]).timestamp,
    {
        if self.items.len() == 0 {
            return None;
        }
        let item = self.items.remove(0);
        proof {
            assert(self@ =~= old(self)@.skip(1));
        }
        Some(item)
    }
}

/// The timestamp of an item (helps name it inside proofs).
pub open spec fn ts_of(item: QueueItem) -> u64 {
    item.timestamp
}

} // verus!
