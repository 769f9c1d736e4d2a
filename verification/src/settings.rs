//! Engine configuration: starting balance, latency model, FX conversion.

use vstd::prelude::*;

use crate::objects::BrokerAction;
use crate::MAX_TIME_NS;

verus! {

/// Configuration the broker is created with.
pub struct SimBrokerSettings {
    pub starting_balance: u64,
    /// One-way network latency, applied to tick delivery, action ingress
    /// and response egress.
    pub ping_ns: u64,
    /// Broker-side processing time for trading actions.
    pub execution_delay_ns: u64,
    /// Whether position values are converted into a base currency.
    pub fx: bool,
    pub fx_base_currency: String,
    /// Units per lot for FX position values.
    pub fx_lot_size: u64,
}

impl SimBrokerSettings {
    /// Delays stay within the headroom that keeps queue timestamps
    /// representable.
    pub open spec fn wf(self) -> bool {
        self.ping_ns <= MAX_TIME_NS && self.execution_delay_ns <= MAX_TIME_NS
    }

    /// The broker-side processing delay for an action: trading actions
    /// take the configured execution delay, pings and disconnects are
    /// answered without processing time.
    pub open spec fn delay_of(self, action: BrokerAction) -> u64 {
        match action {
            BrokerAction::TradingAction { .. } => self.execution_delay_ns,
            BrokerAction::Ping => 0,
            BrokerAction::Disconnect => 0,
        }
    }

    /// How long the broker takes internally to process an action.
    pub fn get_delay(&self, action: &BrokerAction) -> (r: u64)
        ensures
            r == self.delay_of(*action),
    {
        match action {
            BrokerAction::TradingAction { .. } => self.execution_delay_ns,
            BrokerAction::Ping => 0,
            BrokerAction::Disconnect => 0,
        }
    }
}

} // verus!
