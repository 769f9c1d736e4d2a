//! Trading objects: positions, client actions, broker replies and errors.

use vstd::prelude::*;

verus! {

/// Why an open position was closed.
#[derive(Clone, Copy, PartialEq, Eq, Structural, Debug)]
pub enum PositionClosureReason {
    StopLoss,
    TakeProfit,
    MarginCall,
    Expired,
    FillOrKill,
    MarketClose,
}

/// An opened, closed, or pending position.  The lifecycle state is
/// distinguished by which timestamps are set: pending positions have no
/// `execution_time`, open positions have an `execution_time` but no
/// `exit_time`, and closed positions have an `exit_time`.
#[derive(Clone, Copy, PartialEq, Eq, Structural, Debug)]
pub struct Position {
    pub creation_time: u64,
    pub symbol_id: usize,
    pub size: u64,
    /// The entry price a pending (conditional) order is waiting for.
    pub intended_price: Option<u64>,
    pub long: bool,
    pub stop: Option<u64>,
    pub take_profit: Option<u64>,
    /// The time the position was actually executed.
    pub execution_time: Option<u64>,
    /// The price the position was actually executed at.
    pub execution_price: Option<u64>,
    /// The price the position was actually closed at.
    pub exit_price: Option<u64>,
    /// The time the position was actually closed.
    pub exit_time: Option<u64>,
}

impl Position {
    /// A position that is waiting for a price trigger before opening.
    pub open spec fn is_pending(self) -> bool {
        self.execution_time is None && self.execution_price is None && self.intended_price is Some
            && self.exit_time is None
    }

    /// A position that has been executed and not yet closed.
    pub open spec fn is_open(self) -> bool {
        self.execution_time is Some && self.execution_price is Some && self.exit_time is None
    }

    /// A position whose lifecycle has ended.
    pub open spec fn is_closed(self) -> bool {
        self.execution_time is Some && self.exit_time is Some
    }

    /// The price a pending position would fill at for quote `(bid, ask)`,
    /// if the quote satisfies its entry condition: a long fills at the ask
    /// once the ask has come down to the intended price, a short fills at
    /// the bid once the bid has come up to it.
    pub open spec fn open_fill(self, bid: u64, ask: u64) -> Option<u64> {
        if self.long {
            if ask <= self.intended_price->0 {
                Some(ask)
            } else {
                None
            }
        } else {
            if bid >= self.intended_price->0 {
                Some(bid)
            } else {
                None
            }
        }
    }

    /// The price and reason an open position would close at for quote
    /// `(bid, ask)`, if the quote triggers its stop-loss or take-profit.
    /// For a long the stop triggers on the bid falling to it and the
    /// take-profit on the ask rising to it; a short mirrors both.  When a
    /// single quote triggers both, the stop wins.
    pub open spec fn close_trigger(self, bid: u64, ask: u64) -> Option<(u64, PositionClosureReason)> {
        if self.long {
            if self.stop is Some && bid <= self.stop->0 {
                Some((bid, PositionClosureReason::StopLoss))
            } else if self.take_profit is Some && ask >= self.take_profit->0 {
                Some((ask, PositionClosureReason::TakeProfit))
            } else {
                None
            }
        } else {
            if self.stop is Some && ask >= self.stop->0 {
                Some((ask, PositionClosureReason::StopLoss))
            } else if self.take_profit is Some && bid <= self.take_profit->0 {
                Some((bid, PositionClosureReason::TakeProfit))
            } else {
                None
            }
        }
    }

    /// Returns the price this pending position would execute at if the
    /// quote allows it to open, else `None`.
    pub fn is_open_satisfied(&self, bid: u64, ask: u64) -> (r: Option<u64>)
        requires
            self.is_pending(),
        ensures
            r == self.open_fill(bid, ask),
    {
        let intended = match self.intended_price {
            Some(p) => p,
            None => {
                proof {
                    assert(false);
                }
                0
            },
        };
        if self.long {
            if ask <= intended {
                Some(ask)
            } else {
                None
            }
        } else {
            if bid >= intended {
                Some(bid)
            } else {
                None
            }
        }
    }

    /// Returns the price this open position would close at and the reason
    /// for its closure if the quote triggers one, else `None`.
    pub fn is_close_satisfied(&self, bid: u64, ask: u64) -> (r: Option<(u64, PositionClosureReason)>)
        requires
            self.is_open(),
        ensures
            r == self.close_trigger(bid, ask),
    {
        if self.long {
            match self.stop {
                Some(s) if bid <= s => {
                    return Some((bid, PositionClosureReason::StopLoss));
                },
                _ => {},
            }
            match self.take_profit {
                Some(tp) if ask >= tp => Some((ask, PositionClosureReason::TakeProfit)),
                _ => None,
            }
        } else {
            match self.stop {
                Some(s) if ask >= s => {
                    return Some((ask, PositionClosureReason::StopLoss));
                },
                _ => {},
            }
            match self.take_profit {
                Some(tp) if bid <= tp => Some((bid, PositionClosureReason::TakeProfit)),
                _ => None,
            }
        }
    }
}

/// A trading instruction carried inside a client action.  Prices and
/// ranges are integers in the symbol's decimal precision.
#[derive(Clone, PartialEq, Eq, Debug)]
pub enum TradingAction {
    MarketOrder {
        symbol: String,
        long: bool,
        size: u64,
        stop: Option<u64>,
        take_profit: Option<u64>,
        max_range: Option<u64>,
    },
    MarketClose { position_id: u64, size: u64 },
    LimitOrder {
        symbol: String,
        long: bool,
        size: u64,
        stop: Option<u64>,
        take_profit: Option<u64>,
        entry_price: u64,
    },
    LimitClose { position_id: u64, size: u64, exit_price: u64 },
    ModifyPosition { position_id: u64, stop: Option<u64>, take_profit: Option<u64> },
}

/// Any action a client can submit to the broker.
#[derive(Clone, PartialEq, Eq, Debug)]
pub enum BrokerAction {
    TradingAction { account_id: u64, action: TradingAction },
    /// Answered with a `Pong` carrying the time the broker processed it.
    Ping,
    Disconnect,
}

/// A successful reply from the broker.
#[derive(Clone, Copy, PartialEq, Eq, Structural, Debug)]
pub enum BrokerMessage {
    Success,
    Failure,
    Notice,
    PositionOpened { position_id: u64, position: Position, timestamp: u64 },
    PositionClosed {
        position_id: u64,
        position: Position,
        reason: PositionClosureReason,
        timestamp: u64,
    },
    PositionModified { position_id: u64, position: Position, timestamp: u64 },
    Pong { time_received: u64 },
}

/// A failed reply from the broker.
#[derive(Clone, PartialEq, Eq, Debug)]
pub enum BrokerError {
    Message { message: String },
    Unimplemented { message: String },
    InsufficientBuyingPower,
    NoSuchPosition,
    NoSuchAccount,
    NoSuchSymbol,
    InvalidModificationAmount,
    NoDataAvailable,
}

/// The outcome of one client action.
pub type BrokerResult = Result<BrokerMessage, BrokerError>;

} // verus!
