//! The per-account ledger: a balance and the pending / open / closed
//! position collections, with the accounting rules that move money and
//! positions between them.
//!
//! Invariants kept by every operation:
//! - a position id occurs in at most one of the three collections;
//! - pending positions await execution, open ones are executed and not
//!   exited, closed ones are exited;
//! - `balance + posted margin of pending and open positions` equals
//!   `starting_balance + realized`, where `realized` is the running net
//!   of credits and debits booked by closes and resizes.

use vstd::prelude::*;

use crate::objects::{BrokerError, BrokerMessage, BrokerResult, Position, PositionClosureReason};
use crate::posmap::{keys_disjoint, seq_has_key, sum_margins, PosEntry, PosMap};
use vstd::string::StringExecFns;

verus! {

/// The state of one account: balance and position collections.
pub struct Ledger {
    pub balance: u64,
    /// The balance the account was created with; the fixed point of the
    /// accounting equation.
    pub starting_balance: u64,
    pub pending_positions: PosMap,
    pub open_positions: PosMap,
    pub closed_positions: PosMap,
    /// Net realized profit and loss: every credit booked by a close,
    /// minus the posted margin it released, minus every resize debit.
    pub realized: Ghost<int>,
}

/// A position fit to enter the open collection: executed, not exited.
pub open spec fn valid_open_position(pos: Position) -> bool {
    pos.execution_time is Some && pos.execution_price is Some && pos.exit_time is None
}

impl Ledger {
    /// Position collections are disjoint and well-shaped, and the
    /// accounting equation holds.
    pub open spec fn wf(self) -> bool {
        &&& self.pending_positions.wf()
        &&& self.open_positions.wf()
        &&& self.closed_positions.wf()
        &&& keys_disjoint(self.pending_positions@, self.open_positions@)
        &&& keys_disjoint(self.pending_positions@, self.closed_positions@)
        &&& keys_disjoint(self.open_positions@, self.closed_positions@)
        &&& forall|i: int|
            0 <= i < self.pending_positions@.len() ==> (#[trigger] self.pending_positions@[i]).1.pos.is_pending()
        &&& forall|i: int|
            0 <= i < self.open_positions@.len() ==> (#[trigger] self.open_positions@[i]).1.pos.is_open()
        &&& forall|i: int|
            0 <= i < self.closed_positions@.len() ==> (#[trigger] self.closed_positions@[i]).1.pos.is_closed()
        &&& self.balance + sum_margins(self.pending_positions@) + sum_margins(
            self.open_positions@,
        ) == self.starting_balance + self.realized@
    }

    /// Does a position id occur anywhere in this ledger?
    pub open spec fn has_id(self, id: u64) -> bool {
        seq_has_key(self.pending_positions@, id) || seq_has_key(self.open_positions@, id)
            || seq_has_key(self.closed_positions@, id)
    }

    /// Both ledgers hold the same observable state.
    pub open spec fn same_state(self, other: Ledger) -> bool {
        &&& self.balance == other.balance
        &&& self.starting_balance == other.starting_balance
        &&& self.pending_positions@ == other.pending_positions@
        &&& self.open_positions@ == other.open_positions@
        &&& self.closed_positions@ == other.closed_positions@
        &&& self.realized@ == other.realized@
    }

    /// Closed positions are never removed or rewritten: the old closed
    /// collection is a prefix of the new one.
    pub open spec fn closed_preserved(self, other: Ledger) -> bool {
        self.closed_positions@.is_prefix_of(other.closed_positions@)
    }

    /// A fresh ledger credited with the starting balance.
    pub fn new(starting_balance: u64) -> (l: Ledger)
        ensures
            l.wf(),
            l.balance == starting_balance,
            l.starting_balance == starting_balance,
            l.pending_positions@.len() == 0,
            l.open_positions@.len() == 0,
            l.closed_positions@.len() == 0,
            l.realized@ == 0,
    {
        Ledger {
            balance: starting_balance,
            starting_balance,
            pending_positions: PosMap::new(),
            open_positions: PosMap::new(),
            closed_positions: PosMap::new(),
            realized: Ghost(0),
        }
    }

    /// Places a pending (conditional) order: debits the margin
    /// requirement and records the position as pending.  Fails with
    /// `InsufficientBuyingPower`, and changes nothing, when the margin
    /// exceeds the balance.
    pub fn place_order(&mut self, id: u64, pos: Position, margin_requirement: u64) -> (r:
        BrokerResult)
        requires
            old(self).wf(),
            !old(self).has_id(id),
            pos.is_pending(),
        ensures
            final(self).wf(),
            old(self).closed_preserved(*final(self)),
            margin_requirement > old(self).balance ==> r == Err::<BrokerMessage, _>(
                BrokerError::InsufficientBuyingPower,
            ) && final(self).same_state(*old(self)),
            margin_requirement <= old(self).balance ==> {
                &&& r == Ok::<_, BrokerError>(BrokerMessage::Success)
                &&& final(self).balance == old(self).balance - margin_requirement
                &&& final(self).pending_positions@ == old(self).pending_positions@.push(
                    (id, PosEntry { pos, margin: margin_requirement }),
                )
                &&& final(self).open_positions@ == old(self).open_positions@
                &&& final(self).closed_positions@ == old(self).closed_positions@
                &&& final(self).realized@ == old(self).realized@
                &&& final(self).starting_balance == old(self).starting_balance
            },
    {
        if margin_requirement > self.balance {
            return Err(BrokerError::InsufficientBuyingPower);
        }
        self.balance = self.balance - margin_requirement;
        self.pending_positions.insert(id, PosEntry { pos, margin: margin_requirement });
        Ok(BrokerMessage::Success)
    }

    /// Opens an already-executed position: debits its margin and records
    /// it as open, reporting `PositionOpened` at its execution time.
    /// A position without an execution time and price is rejected with a
    /// descriptive error; a margin above the balance is rejected with
    /// `InsufficientBuyingPower`.  Failures change nothing.
    pub fn open_position(&mut self, id: u64, pos: Position, margin: u64) -> (r: BrokerResult)
        requires
            old(self).wf(),
            !old(self).has_id(id),
        ensures
            final(self).wf(),
            old(self).closed_preserved(*final(self)),
            !valid_open_position(pos) ==> (r is Err && r->Err_0 is Message)
                && final(self).same_state(*old(self)),
            valid_open_position(pos) && margin > old(self).balance ==> r == Err::<BrokerMessage, _>(
                BrokerError::InsufficientBuyingPower,
            ) && final(self).same_state(*old(self)),
            valid_open_position(pos) && margin <= old(self).balance ==> {
                &&& r == Ok::<_, BrokerError>(
                    BrokerMessage::PositionOpened {
                        position_id: id,
                        position: pos,
                        timestamp: pos.execution_time->0,
                    },
                )
                &&& final(self).balance == old(self).balance - margin
                &&& final(self).open_positions@ == old(self).open_positions@.push(
                    (id, PosEntry { pos, margin }),
                )
                &&& final(self).pending_positions@ == old(self).pending_positions@
                &&& final(self).closed_positions@ == old(self).closed_positions@
                &&& final(self).realized@ == old(self).realized@
                &&& final(self).starting_balance == old(self).starting_balance
            },
    {
        let execution_time = match pos.execution_time {
            Some(t) => t,
            None => {
                return Err(
                    BrokerError::Message {
                        message: "The supplied position does not have an execution time.".to_owned(),
                    },
                );
            },
        };
        if pos.execution_price.is_none() {
            return Err(
                BrokerError::Message {
                    message: "The supplied position does not have an entry price.".to_owned(),
                },
            );
        }
        if pos.exit_time.is_some() {
            return Err(
                BrokerError::Message {
                    message: "The supplied position has already been exited.".to_owned(),
                },
            );
        }
        if margin > self.balance {
            return Err(BrokerError::InsufficientBuyingPower);
        }
        self.balance = self.balance - margin;
        self.open_positions.insert(id, PosEntry { pos, margin });
        Ok(BrokerMessage::PositionOpened { position_id: id, position: pos, timestamp: execution_time })
    }

    /// Completely closes an open position, crediting the account the
    /// supplied value (saturating at the representable maximum) and
    /// moving the position, stamped with its exit time, to the closed
    /// collection.  A missing id fails with `NoSuchPosition` and changes
    /// nothing.
    pub fn close_position(
        &mut self,
        id: u64,
        position_value: u64,
        timestamp: u64,
        reason: PositionClosureReason,
    ) -> (r: BrokerResult)
        requires
            old(self).wf(),
        ensures
            final(self).wf(),
            old(self).closed_preserved(*final(self)),
            !seq_has_key(old(self).open_positions@, id) ==> r == Err::<BrokerMessage, _>(
                BrokerError::NoSuchPosition,
            ) && final(self).same_state(*old(self)),
            seq_has_key(old(self).open_positions@, id) ==> {
                let entry = old(self).open_positions.as_map()[id];
                let closed_pos = Position { exit_time: Some(timestamp), ..entry.pos };
                let credited: int = if old(self).balance + position_value <= u64::MAX {
                    position_value as int
                } else {
                    u64::MAX - old(self).balance
                };
                &&& r == Ok::<_, BrokerError>(
                    BrokerMessage::PositionClosed {
                        position_id: id,
                        position: closed_pos,
                        reason,
                        timestamp,
                    },
                )
                &&& final(self).balance == old(self).balance + credited
                &&& final(self).open_positions.as_map() == old(self).open_positions.as_map().remove(
                    id,
                )
                &&& !seq_has_key(final(self).open_positions@, id)
                &&& exists|i: int|
                    0 <= i < old(self).open_positions@.len() && old(self).open_positions@[i].0 == id
                        && final(self).open_positions@ == old(self).open_positions@.remove(i)
                &&& final(self).closed_positions@ == old(self).closed_positions@.push(
                    (id, PosEntry { pos: closed_pos, margin: entry.margin }),
                )
                &&& final(self).pending_positions@ == old(self).pending_positions@
                &&& final(self).realized@ == old(self).realized@ + credited - entry.margin
                &&& final(self).starting_balance == old(self).starting_balance
            },
    {
        let ghost s0 = self.open_positions@;
        let entry = match self.open_positions.remove(id) {
            Some(e) => e,
            None => {
                return Err(BrokerError::NoSuchPosition);
            },
        };
        proof {
            crate::posmap::lemma_seq_as_map(s0);
            let i = choose|i: int|
                0 <= i < s0.len() && s0[i].0 == id && self.open_positions@ == s0.remove(i);
            assert(entry == s0[i].1);
            assert(entry.pos.is_open());
            assert forall|j: int| 0 <= j < self.open_positions@.len() implies (#[trigger] self.open_positions@[j]).1.pos.is_open() by {
                if j < i {
                    assert(self.open_positions@[j] == s0[j]);
                } else {
                    assert(self.open_positions@[j] == s0[j + 1]);
                }
            }
        }
        let closed_pos = Position { exit_time: Some(timestamp), ..entry.pos };
        let old_balance = self.balance;
        self.balance = match self.balance.checked_add(position_value) {
            Some(b) => b,
            None => u64::MAX,
        };
        proof {
            self.realized@ = self.realized@ + (self.balance - old_balance) - entry.margin;
        }
        self.closed_positions.insert(id, PosEntry { pos: closed_pos, margin: entry.margin });
        Ok(
            BrokerMessage::PositionClosed {
                position_id: id,
                position: closed_pos,
                reason,
                timestamp,
            },
        )
    }

    /// Increases or decreases the size of an open position by a signed
    /// amount against a debit of `modification_cost`.  A resize to a
    /// negative or unrepresentable size fails with
    /// `InvalidModificationAmount`; a resize to zero closes the position
    /// (crediting the cost as its value); a debit above the balance fails
    /// with `InsufficientBuyingPower`.  Failures change nothing.
    pub fn resize_position(
        &mut self,
        id: u64,
        units: i64,
        modification_cost: u64,
        timestamp: u64,
    ) -> (r: BrokerResult)
        requires
            old(self).wf(),
        ensures
            final(self).wf(),
            old(self).closed_preserved(*final(self)),
            !seq_has_key(old(self).open_positions@, id) ==> r == Err::<BrokerMessage, _>(
                BrokerError::NoSuchPosition,
            ) && final(self).same_state(*old(self)),
            seq_has_key(old(self).open_positions@, id) ==> {
                let entry = old(self).open_positions.as_map()[id];
                let new_size: int = entry.pos.size + units;
                &&& (new_size < 0 || new_size > u64::MAX) ==> r == Err::<BrokerMessage, _>(
                    BrokerError::InvalidModificationAmount,
                ) && final(self).same_state(*old(self))
                &&& new_size == 0 ==> {
                    let closed_pos = Position { exit_time: Some(timestamp), ..entry.pos };
                    let credited: int = if old(self).balance + modification_cost <= u64::MAX {
                        modification_cost as int
                    } else {
                        u64::MAX - old(self).balance
                    };
                    &&& r == Ok::<_, BrokerError>(
                        BrokerMessage::PositionClosed {
                            position_id: id,
                            position: closed_pos,
                            reason: PositionClosureReason::MarketClose,
                            timestamp,
                        },
                    )
                    &&& final(self).balance == old(self).balance + credited
                    &&& !seq_has_key(final(self).open_positions@, id)
                    &&& final(self).open_positions.as_map() == old(
                        self,
                    ).open_positions.as_map().remove(id)
                    &&& exists|i: int|
                        0 <= i < old(self).open_positions@.len() && old(self).open_positions@[i].0
                            == id && final(self).open_positions@ == old(
                            self,
                        ).open_positions@.remove(i)
                    &&& final(self).closed_positions@ == old(self).closed_positions@.push(
                        (id, PosEntry { pos: closed_pos, margin: entry.margin }),
                    )
                    &&& final(self).pending_positions@ == old(self).pending_positions@
                    &&& final(self).realized@ == old(self).realized@ + credited - entry.margin
                }
                &&& 0 < new_size <= u64::MAX ==> {
                    &&& modification_cost > old(self).balance ==> r == Err::<BrokerMessage, _>(
                        BrokerError::InsufficientBuyingPower,
                    ) && final(self).same_state(*old(self))
                    &&& modification_cost <= old(self).balance ==> {
                        let new_pos = Position { size: new_size as u64, ..entry.pos };
                        &&& r == Ok::<_, BrokerError>(
                            BrokerMessage::PositionModified {
                                position_id: id,
                                position: new_pos,
                                timestamp,
                            },
                        )
                        &&& final(self).balance == old(self).balance - modification_cost
                        &&& final(self).open_positions.as_map() == old(
                            self,
                        ).open_positions.as_map().insert(
                            id,
                            PosEntry { pos: new_pos, margin: entry.margin },
                        )
                        &&& exists|i: int|
                            0 <= i < old(self).open_positions@.len() && old(
                                self,
                            ).open_positions@[i].0 == id && final(self).open_positions@ == old(
                                self,
                            ).open_positions@.update(
                                i,
                                (id, PosEntry { pos: new_pos, margin: entry.margin }),
                            )
                        &&& final(self).pending_positions@ == old(self).pending_positions@
                        &&& final(self).closed_positions@ == old(self).closed_positions@
                        &&& final(self).realized@ == old(self).realized@ - modification_cost
                    }
                }
            },
    {
        let entry = match self.open_positions.get(id) {
            Some(e) => e,
            None => {
                return Err(BrokerError::NoSuchPosition);
            },
        };
        if units >= 0 {
            match entry.pos.size.checked_add(units as u64) {
                Some(new_size) => {
                    if new_size == 0 {
                        // Only reachable when both the size and the delta are zero.
                        return self.close_position(
                            id,
                            modification_cost,
                            timestamp,
                            PositionClosureReason::MarketClose,
                        );
                    }
                    self.resize_to(id, entry, new_size, modification_cost, timestamp)
                },
                None => Err(BrokerError::InvalidModificationAmount),
            }
        } else {
            // `units` is strictly negative, so its magnitude fits in a `u64`.
            let magnitude: u64 = if units == i64::MIN {
                9223372036854775808
            } else {
                (-units) as u64
            };
            if magnitude > entry.pos.size {
                Err(BrokerError::InvalidModificationAmount)
            } else if magnitude == entry.pos.size {
                self.close_position(id, modification_cost, timestamp, PositionClosureReason::MarketClose)
            } else {
                let new_size = entry.pos.size - magnitude;
                self.resize_to(id, entry, new_size, modification_cost, timestamp)
            }
        }
    }

    /// Rewrites an open position with a new, positive size against a
    /// debit of `modification_cost`.
    fn resize_to(
        &mut self,
        id: u64,
        entry: PosEntry,
        new_size: u64,
        modification_cost: u64,
        timestamp: u64,
    ) -> (r: BrokerResult)
        requires
            old(self).wf(),
            seq_has_key(old(self).open_positions@, id),
            old(self).open_positions.as_map()[id] == entry,
            new_size > 0,
        ensures
            final(self).wf(),
            old(self).closed_preserved(*final(self)),
            modification_cost > old(self).balance ==> r == Err::<BrokerMessage, _>(
                BrokerError::InsufficientBuyingPower,
            ) && final(self).same_state(*old(self)),
            modification_cost <= old(self).balance ==> {
                let new_pos = Position { size: new_size, ..entry.pos };
                &&& r == Ok::<_, BrokerError>(
                    BrokerMessage::PositionModified { position_id: id, position: new_pos, timestamp },
                )
                &&& final(self).balance == old(self).balance - modification_cost
                &&& final(self).open_positions.as_map() == old(self).open_positions.as_map().insert(
                    id,
                    PosEntry { pos: new_pos, margin: entry.margin },
                )
                &&& forall|k: u64| #[trigger]
                    seq_has_key(final(self).open_positions@, k) <==> seq_has_key(
                        old(self).open_positions@,
                        k,
                    )
                &&& exists|i: int|
                    0 <= i < old(self).open_positions@.len() && old(self).open_positions@[i].0 == id
                        && final(self).open_positions@ == old(self).open_positions@.update(
                        i,
                        (id, PosEntry { pos: new_pos, margin: entry.margin }),
                    )
                &&& final(self).pending_positions@ == old(self).pending_positions@
                &&& final(self).closed_positions@ == old(self).closed_positions@
                &&& final(self).realized@ == old(self).realized@ - modification_cost
                &&& final(self).starting_balance == old(self).starting_balance
            },
    {
        if self.balance < modification_cost {
            return Err(BrokerError::InsufficientBuyingPower);
        }
        let ghost s0 = self.open_positions@;
        proof {
            crate::posmap::lemma_seq_as_map(s0);
            let i = choose|i: int| 0 <= i < s0.len() && s0[i].0 == id;
            assert(entry == s0[i].1);
            assert(entry.pos.is_open());
        }
        let new_pos = Position { size: new_size, ..entry.pos };
        self.balance = self.balance - modification_cost;
        proof {
            self.realized@ = self.realized@ - modification_cost;
        }
        self.open_positions.update(id, PosEntry { pos: new_pos, margin: entry.margin });
        proof {
            let i = choose|i: int|
                0 <= i < s0.len() && s0[i].0 == id && self.open_positions@ == s0.update(
                    i,
                    (id, PosEntry { pos: new_pos, margin: entry.margin }),
                );
            assert forall|j: int| 0 <= j < self.open_positions@.len() implies (#[trigger] self.open_positions@[j]).1.pos.is_open() by {
                if j != i {
                    assert(self.open_positions@[j] == s0[j]);
                }
            }
        }
        Ok(BrokerMessage::PositionModified { position_id: id, position: new_pos, timestamp })
    }

    /// Replaces the stop-loss and take-profit levels of an open position,
    /// reporting `PositionModified`.  A missing id fails with
    /// `NoSuchPosition` and changes nothing.
    pub fn modify_position(
        &mut self,
        id: u64,
        stop: Option<u64>,
        take_profit: Option<u64>,
        timestamp: u64,
    ) -> (r: BrokerResult)
        requires
            old(self).wf(),
        ensures
            final(self).wf(),
            old(self).closed_preserved(*final(self)),
            !seq_has_key(old(self).open_positions@, id) ==> r == Err::<BrokerMessage, _>(
                BrokerError::NoSuchPosition,
            ) && final(self).same_state(*old(self)),
            seq_has_key(old(self).open_positions@, id) ==> {
                let entry = old(self).open_positions.as_map()[id];
                let new_pos = Position { stop, take_profit, ..entry.pos };
                &&& r == Ok::<_, BrokerError>(
                    BrokerMessage::PositionModified { position_id: id, position: new_pos, timestamp },
                )
                &&& final(self).balance == old(self).balance
                &&& final(self).open_positions.as_map() == old(self).open_positions.as_map().insert(
                    id,
                    PosEntry { pos: new_pos, margin: entry.margin },
                )
                &&& exists|i: int|
                    0 <= i < old(self).open_positions@.len() && old(self).open_positions@[i].0 == id
                        && final(self).open_positions@ == old(self).open_positions@.update(
                        i,
                        (id, PosEntry { pos: new_pos, margin: entry.margin }),
                    )
                &&& final(self).pending_positions@ == old(self).pending_positions@
                &&& final(self).closed_positions@ == old(self).closed_positions@
                &&& final(self).realized@ == old(self).realized@
                &&& final(self).starting_balance == old(self).starting_balance
            },
    {
        let entry = match self.open_positions.get(id) {
            Some(e) => e,
            None => {
                return Err(BrokerError::NoSuchPosition);
            },
        };
        let ghost s0 = self.open_positions@;
        proof {
            crate::posmap::lemma_seq_as_map(s0);
            let i = choose|i: int| 0 <= i < s0.len() && s0[i].0 == id;
            assert(entry == s0[i].1);
            assert(entry.pos.is_open());
        }
        let new_pos = Position { stop, take_profit, ..entry.pos };
        self.open_positions.update(id, PosEntry { pos: new_pos, margin: entry.margin });
        proof {
            let i = choose|i: int|
                0 <= i < s0.len() && s0[i].0 == id && self.open_positions@ == s0.update(
                    i,
                    (id, PosEntry { pos: new_pos, margin: entry.margin }),
                );
            assert forall|j: int| 0 <= j < self.open_positions@.len() implies (#[trigger] self.open_positions@[j]).1.pos.is_open() by {
                if j != i {
                    assert(self.open_positions@[j] == s0[j]);
                }
            }
        }
        Ok(BrokerMessage::PositionModified { position_id: id, position: new_pos, timestamp })
    }

    /// A copy of this ledger.
    pub fn duplicate(&self) -> (l: Ledger)
        ensures
            l.same_state(*self),
    {
        Ledger {
            balance: self.balance,
            starting_balance: self.starting_balance,
            pending_positions: self.pending_positions.duplicate(),
            open_positions: self.open_positions.duplicate(),
            closed_positions: self.closed_positions.duplicate(),
            realized: Ghost(self.realized@),
        }
    }
}

} // verus!
