//! The simulated broker: the deterministic event-ordered simulation core.
//!
//! The broker owns the account registry, the symbol table and the
//! simulation queue.  Client actions are submitted with a client-side
//! timestamp and mature onto the queue after the ingress latency and the
//! broker's processing delay; `step` pops the earliest event, dispatches
//! it, and returns what the client observes at that instant.  The
//! surrounding process is expected to pump `step` until the queue drains,
//! relaying deliveries onto its transport.

use vstd::prelude::*;

use crate::accounts::{accounts_have_id, Account, Accounts};
use crate::convert_decimals;
use crate::convert_decimals_spec;
use crate::ledger::Ledger;
use crate::objects::{
    BrokerAction, BrokerError, BrokerMessage, BrokerResult, Position, PositionClosureReason,
    TradingAction,
};
use crate::posmap::{keys_unique, seq_has_key, sum_margins, PosEntry, PosMap};
use crate::queue::{insert_pos, QueueItem, SimulationQueue, WorkUnit};
use crate::settings::SimBrokerSettings;
use crate::symbols::{symbols_have_name, Symbol, Symbols};
use crate::{Tick, MAX_TIME_NS};
use vstd::string::StrSliceExecFns;
use vstd::string::StringExecFns;

verus! {

/// Relies on `uuid::Uuid::new_v4`: draws a fresh random identity for the
/// startup account.  Nothing can be promised of a random value.
#[verifier::external_body]
fn fresh_account_id() -> u64 {
    uuid::Uuid::new_v4().as_u64_pair().0
}

/// One client-observable emission of a simulation step, stamped with the
/// simulated instant at which the client sees it.
#[derive(PartialEq, Eq, Debug)]
pub enum Delivery {
    /// A tick surfacing on a symbol's client stream.
    Tick { time: u64, symbol_id: usize, tick: Tick },
    /// A result answering the action submitted on a reply slot.
    Reply { time: u64, slot: u64, result: BrokerResult },
    /// An unsolicited notification on the push stream.
    Push { time: u64, result: BrokerResult },
}

/// The symbol registered under a name, if any.
pub open spec fn lookup_symbol(symbols: Seq<Symbol>, name: Seq<char>) -> Option<Symbol> {
    if symbols_have_name(symbols, name) {
        Some(symbols[choose|i: int| 0 <= i < symbols.len() && symbols[i].name@ == name])
    } else {
        None
    }
}

/// With distinct symbol names, `lookup_symbol` finds exactly the symbol
/// any index with a matching name holds.
pub proof fn lemma_lookup_symbol(symbols: Seq<Symbol>, name: Seq<char>, i: int)
    requires
        forall|a: int, b: int|
            0 <= a < b < symbols.len() ==> (#[trigger] symbols[a]).name@ != (
            #[trigger] symbols[b]).name@,
        0 <= i < symbols.len(),
        symbols[i].name@ == name,
    ensures
        lookup_symbol(symbols, name) == Some(symbols[i]),
{
    assert(symbols_have_name(symbols, name));
    let j = choose|j: int| 0 <= j < symbols.len() && symbols[j].name@ == name;
    if i < j {
        assert(symbols[i].name@ != symbols[j].name@);
    }
    if j < i {
        assert(symbols[j].name@ != symbols[i].name@);
    }
}

/// The ask and decimal precision currently quoted under a name, if the
/// symbol exists and has a price.
pub open spec fn quoted_ask(symbols: Seq<Symbol>, name: Seq<char>) -> Option<(u64, u32)> {
    match lookup_symbol(symbols, name) {
        Some(sym) => match sym.price {
            Some(p) => Some((p.1, sym.decimal_precision)),
            None => None,
        },
        None => None,
    }
}

/// The conversion rate from a currency to the configured base currency,
/// normalized to 10 decimal places: the ask of the direct pair if it is
/// quoted, else the ask of the reversed pair, else nothing.  The result
/// is a mathematical integer; it may exceed the representable range.
pub open spec fn base_rate_spec(
    symbols: Seq<Symbol>,
    settings: SimBrokerSettings,
    currency: Seq<char>,
) -> Option<int> {
    match quoted_ask(symbols, currency + settings.fx_base_currency@) {
        Some((ask, decimals)) => Some(convert_decimals_spec(ask, decimals, 10)),
        None => match quoted_ask(symbols, settings.fx_base_currency@ + currency) {
            Some((ask, decimals)) => Some(convert_decimals_spec(ask, decimals, 10)),
            None => None,
        },
    }
}

/// A cross rate is never negative.
pub proof fn lemma_base_rate_nonneg(
    symbols: Seq<Symbol>,
    settings: SimBrokerSettings,
    currency: Seq<char>,
)
    ensures
        match base_rate_spec(symbols, settings, currency) {
            Some(rate) => rate >= 0,
            None => true,
        },
{
    match quoted_ask(symbols, currency + settings.fx_base_currency@) {
        Some((ask, decimals)) => {
            crate::lemma_convert_decimals_nonneg(ask, decimals, 10);
        },
        None => {
            match quoted_ask(symbols, settings.fx_base_currency@ + currency) {
                Some((ask, decimals)) => {
                    crate::lemma_convert_decimals_nonneg(ask, decimals, 10);
                },
                None => {},
            }
        },
    }
}

/// The worth of a position in units of base currency: its size for an
/// ordinary symbol; size times cross rate times lot size for an FX
/// symbol (whose denomination is the first currency of its pair name).
/// `None` when the symbol index is stale, FX conversion is switched off,
/// or no cross rate is available.
pub open spec fn position_value_spec(
    symbols: Seq<Symbol>,
    settings: SimBrokerSettings,
    pos: Position,
) -> Option<int> {
    if pos.symbol_id >= symbols.len() {
        None
    } else {
        let sym = symbols[pos.symbol_id as int];
        if sym.is_fx {
            if !settings.fx {
                None
            } else {
                match base_rate_spec(symbols, settings, sym.name@.take(3)) {
                    Some(rate) => if 0 <= rate <= u64::MAX && pos.size * rate <= u64::MAX {
                        Some(pos.size * rate * settings.fx_lot_size)
                    } else {
                        None
                    },
                    None => None,
                }
            }
        } else {
            Some(pos.size as int)
        }
    }
}

/// The amount credited back when a position is closed automatically: its
/// current value when that is computable and representable, else the
/// margin that was posted for it.
pub open spec fn credit_of(
    symbols: Seq<Symbol>,
    settings: SimBrokerSettings,
    e: (u64, PosEntry),
) -> u64 {
    match position_value_spec(symbols, settings, e.1.pos) {
        Some(v) => if v <= u64::MAX {
            v as u64
        } else {
            e.1.margin
        },
        None => e.1.margin,
    }
}

/// A queue item fit for the broker's timeline: symbol indices in range,
/// tick events stamped with their tick's time, and every timestamp within
/// the headroom its variant is allowed (at most one processing delay and
/// two network delays past the input horizon).
pub open spec fn item_wf(item: QueueItem, symbols: Seq<Symbol>) -> bool {
    match item.unit {
        WorkUnit::NewTick { symbol_id, tick } => {
            &&& symbol_id < symbols.len()
            &&& item.timestamp == tick.timestamp
            &&& tick.timestamp <= MAX_TIME_NS
            &&& match symbols[symbol_id as int].peek_tick() {
                Some(next) => next.timestamp >= tick.timestamp,
                None => true,
            }
        },
        WorkUnit::ClientTick { symbol_id, tick } => symbol_id < symbols.len() && item.timestamp <= 2
            * (MAX_TIME_NS as int),
        WorkUnit::ActionComplete { .. } => item.timestamp <= 3 * (MAX_TIME_NS as int),
        WorkUnit::Response { .. } => item.timestamp <= 4 * (MAX_TIME_NS as int),
    }
}

/// Timestamps are non-decreasing.
pub open spec fn times_sorted(s: Seq<u64>) -> bool {
    forall|i: int, j: int| 0 <= i < j < s.len() ==> s[i] <= s[j]
}

/// A simulated broker: the endpoint for trading activity in a backtest.
pub struct SimBroker {
    pub accounts: Accounts,
    pub settings: SimBrokerSettings,
    pub symbols: Symbols,
    /// The internal ordered event timeline.
    pub pq: SimulationQueue,
    /// The timestamp of the event being (or last) processed.
    pub timestamp: u64,
    /// The next dense position id to hand out.
    pub next_position_id: u64,
    /// The identity of the startup account.
    pub account_id: u64,
    /// The simulated instants at which deliveries have been handed to
    /// the client, in order of delivery.
    pub delivered: Ghost<Seq<u64>>,
}

impl SimBroker {
    /// Position ids used anywhere are below the id counter, and stored
    /// positions point at registered symbols.
    pub open spec fn ledger_ids_wf(self, l: Ledger) -> bool {
        &&& forall|k: u64| #[trigger]
            seq_has_key(l.pending_positions@, k) ==> k < self.next_position_id
                && l.pending_positions.as_map()[k].pos.symbol_id < self.symbols.symbols@.len()
        &&& forall|k: u64| #[trigger]
            seq_has_key(l.open_positions@, k) ==> k < self.next_position_id
                && l.open_positions.as_map()[k].pos.symbol_id < self.symbols.symbols@.len()
        &&& forall|k: u64| #[trigger] seq_has_key(l.closed_positions@, k) ==> k < self.next_position_id
    }

    /// The broker's global invariant: well-formed components, a sorted
    /// queue of well-formed items that all lie at or after the current
    /// instant, fresh position ids, and a non-decreasing delivery log
    /// that never runs ahead of the clock.
    pub open spec fn wf(self) -> bool {
        &&& self.accounts.wf()
        &&& self.symbols.wf()
        &&& self.settings.wf()
        &&& self.pq.wf()
        &&& forall|i: int|
            0 <= i < self.pq@.len() ==> item_wf(#[trigger] self.pq@[i], self.symbols.symbols@)
        &&& forall|i: int| 0 <= i < self.pq@.len() ==> (#[trigger] self.pq@[i]).timestamp >= self.timestamp
        &&& forall|a: int|
            0 <= a < self.accounts.data@.len() ==> self.ledger_ids_wf(
                (#[trigger] self.accounts.data@[a]).ledger,
            )
        &&& times_sorted(self.delivered@)
        &&& forall|i: int| 0 <= i < self.delivered@.len() ==> (#[trigger] self.delivered@[i]) <= self.timestamp
    }

    /// A broker with one demo account credited with the configured
    /// starting balance, no symbols, and an empty timeline.
    pub fn new(settings: SimBrokerSettings) -> (r: SimBroker)
        requires
            settings.wf(),
        ensures
            r.wf(),
            r.settings == settings,
            r.accounts.data@.len() == 1,
            r.accounts.data@[0].uuid == r.account_id,
            r.accounts.data@[0].live == false,
            r.accounts.data@[0].ledger.balance == settings.starting_balance,
            r.accounts.data@[0].ledger.starting_balance == settings.starting_balance,
            r.accounts.data@[0].ledger.pending_positions@.len() == 0,
            r.accounts.data@[0].ledger.open_positions@.len() == 0,
            r.accounts.data@[0].ledger.closed_positions@.len() == 0,
            r.symbols.symbols@.len() == 0,
            r.pq@.len() == 0,
            r.timestamp == 0,
            r.next_position_id == 0,
            r.delivered@.len() == 0,
    {
        let account_id = fresh_account_id();
        let mut accounts = Accounts::new();
        let account = Account {
            uuid: account_id,
            ledger: Ledger::new(settings.starting_balance),
            live: false,
        };
        accounts.insert(account);
        SimBroker {
            accounts,
            settings,
            symbols: Symbols::new(),
            pq: SimulationQueue::new(),
            timestamp: 0,
            next_position_id: 0,
            account_id,
            delivered: Ghost(Seq::empty()),
        }
    }

    /// The identity of the startup account.
    pub fn account_uuid(&self) -> (r: u64)
        ensures
            r == self.account_id,
    {
        self.account_id
    }

    /// The current simulation instant.
    pub fn current_timestamp(&self) -> (r: u64)
        ensures
            r == self.timestamp,
    {
        self.timestamp
    }

    /// Registers a tick data source under a name.  The ticks must be in
    /// timestamp order and within the simulation horizon.  An FX name
    /// must be a pair of three-letter ASCII currency codes; a name that
    /// is not, or one already registered, is rejected without effect.
    pub fn register_tickstream(
        &mut self,
        name: String,
        ticks: Vec<Tick>,
        is_fx: bool,
        decimal_precision: u32,
    ) -> (r: BrokerResult)
        requires
            old(self).wf(),
            forall|i: int, j: int|
                0 <= i < j < ticks@.len() ==> (#[trigger] ticks@[i]).timestamp <= (
                #[trigger] ticks@[j]).timestamp,
            forall|i: int| 0 <= i < ticks@.len() ==> (#[trigger] ticks@[i]).timestamp <= MAX_TIME_NS,
        ensures
            final(self).wf(),
            final(self).accounts == old(self).accounts,
            final(self).pq@ == old(self).pq@,
            final(self).timestamp == old(self).timestamp,
            final(self).delivered@ == old(self).delivered@,
            final(self).settings == old(self).settings,
            final(self).account_id == old(self).account_id,
            final(self).next_position_id == old(self).next_position_id,
            is_fx && !(name@.len() == 6 && name.is_ascii()) ==> (r is Err && r->Err_0 is Message)
                && final(self).symbols == old(self).symbols,
            (!is_fx || (name@.len() == 6 && name.is_ascii())) && symbols_have_name(
                old(self).symbols.symbols@,
                name@,
            ) ==> (r is Err && r->Err_0 is Message) && final(self).symbols == old(self).symbols,
            (!is_fx || (name@.len() == 6 && name.is_ascii())) && !symbols_have_name(
                old(self).symbols.symbols@,
                name@,
            ) ==> r == Ok::<_, BrokerError>(BrokerMessage::Success) && {
                let s = final(self).symbols.symbols@;
                &&& s.len() == old(self).symbols.symbols@.len() + 1
                &&& s.take(s.len() - 1) == old(self).symbols.symbols@
                &&& s.last().name == name
                &&& s.last().ticks@ == ticks@
                &&& s.last().cursor == 0
                &&& s.last().price is None
                &&& s.last().is_fx == is_fx
                &&& s.last().decimal_precision == decimal_precision
            },
    {
        if is_fx && !(name.as_str().unicode_len() == 6 && name.as_str().is_ascii()) {
            return Err(
                BrokerError::Message {
                    message: "An FX symbol name must be two three-letter currency codes.".to_owned(),
                },
            );
        }
        if self.symbols.contains(&name) {
            return Err(
                BrokerError::Message { message: "A symbol with that name already exists.".to_owned() },
            );
        }
        let sym = Symbol::new_from_ticks(name, ticks, is_fx, decimal_precision);
        self.symbols.add(sym);
        proof {
            let s = self.symbols.symbols@;
            assert forall|i: int| 0 <= i < self.pq@.len() implies item_wf(#[trigger] self.pq@[i], s) by {
                assert(item_wf(self.pq@[i], old(self).symbols.symbols@));
                match self.pq@[i].unit {
                    WorkUnit::NewTick { symbol_id, tick } => {
                        assert(s[symbol_id as int] == old(self).symbols.symbols@[symbol_id as int]);
                    },
                    _ => {},
                }
            }
        }
        Ok(BrokerMessage::Success)
    }

    /// Sets a static price for a name: updates the symbol if it exists,
    /// else registers a new symbol with that price and no tick source.
    /// An FX name that is not a pair of three-letter ASCII currency codes
    /// is rejected without effect.
    pub fn oneshot_price_set(
        &mut self,
        name: String,
        price: (u64, u64),
        is_fx: bool,
        decimal_precision: u32,
    ) -> (r: BrokerResult)
        requires
            old(self).wf(),
        ensures
            final(self).wf(),
            final(self).accounts == old(self).accounts,
            final(self).pq@ == old(self).pq@,
            final(self).timestamp == old(self).timestamp,
            final(self).delivered@ == old(self).delivered@,
            final(self).settings == old(self).settings,
            final(self).account_id == old(self).account_id,
            final(self).next_position_id == old(self).next_position_id,
            is_fx && !(name@.len() == 6 && name.is_ascii()) ==> (r is Err && r->Err_0 is Message)
                && final(self).symbols == old(self).symbols,
            !(is_fx && !(name@.len() == 6 && name.is_ascii())) ==> r == Ok::<_, BrokerError>(
                BrokerMessage::Success,
            ) && if symbols_have_name(old(self).symbols.symbols@, name@) {
                exists|i: int|
                    0 <= i < old(self).symbols.symbols@.len() && (
                    #[trigger] old(self).symbols.symbols@[i]).name@ == name@
                        && final(self).symbols.symbols@ == old(self).symbols.symbols@.update(
                        i,
                        Symbol { price: Some(price), ..old(self).symbols.symbols@[i] },
                    )
            } else {
                let s = final(self).symbols.symbols@;
                &&& s.len() == old(self).symbols.symbols@.len() + 1
                &&& s.take(s.len() - 1) == old(self).symbols.symbols@
                &&& s.last().name == name
                &&& s.last().ticks@.len() == 0
                &&& s.last().cursor == 0
                &&& s.last().price == Some(price)
                &&& s.last().is_fx == is_fx
                &&& s.last().decimal_precision == decimal_precision
            },
    {
        if is_fx && !(name.as_str().unicode_len() == 6 && name.as_str().is_ascii()) {
            return Err(
                BrokerError::Message {
                    message: "An FX symbol name must be two three-letter currency codes.".to_owned(),
                },
            );
        }
        match self.symbols.find_index(&name) {
            Some(i) => {
                self.symbols.set_price(i, price);
                proof {
                    let s = self.symbols.symbols@;
                    let s0 = old(self).symbols.symbols@;
                    assert forall|k: int| 0 <= k < self.pq@.len() implies item_wf(
                        #[trigger] self.pq@[k],
                        s,
                    ) by {
                        assert(item_wf(self.pq@[k], s0));
                        match self.pq@[k].unit {
                            WorkUnit::NewTick { symbol_id, tick } => {
                                assert(s[symbol_id as int].ticks@ == s0[symbol_id as int].ticks@);
                                assert(s[symbol_id as int].cursor == s0[symbol_id as int].cursor);
                            },
                            _ => {},
                        }
                    }
                }
                Ok(BrokerMessage::Success)
            },
            None => {
                let sym = Symbol::new_oneshot(name, price, is_fx, decimal_precision);
                self.symbols.add(sym);
                proof {
                    let s = self.symbols.symbols@;
                    assert forall|k: int| 0 <= k < self.pq@.len() implies item_wf(
                        #[trigger] self.pq@[k],
                        s,
                    ) by {
                        assert(item_wf(self.pq@[k], old(self).symbols.symbols@));
                        match self.pq@[k].unit {
                            WorkUnit::NewTick { symbol_id, tick } => {
                                assert(s[symbol_id as int] == old(self).symbols.symbols@[
                                    symbol_id as int
                                ]);
                            },
                            _ => {},
                        }
                    }
                }
                Ok(BrokerMessage::Success)
            },
        }
    }

    /// The current `(bid, ask)` for a name, or `None` when no symbol with
    /// that name exists or no price has arrived for it yet.
    pub fn get_price(&self, name: &String) -> (r: Option<(u64, u64)>)
        requires
            self.wf(),
        ensures
            r == match lookup_symbol(self.symbols.symbols@, name@) {
                Some(sym) => sym.price,
                None => None,
            },
    {
        match self.symbols.find_index(name) {
            Some(i) => {
                proof {
                    lemma_lookup_symbol(self.symbols.symbols@, name@, i as int);
                }
                self.symbols.price_at(i)
            },
            None => None,
        }
    }

    /// A copy of an account's ledger, or an error when no account exists
    /// under that identity.
    pub fn get_ledger_clone(&self, account_uuid: u64) -> (r: Result<Ledger, BrokerError>)
        ensures
            match r {
                Ok(l) => exists|i: int|
                    0 <= i < self.accounts.data@.len() && (#[trigger] self.accounts.data@[i]).uuid
                        == account_uuid && l.same_state(self.accounts.data@[i].ledger),
                Err(e) => !accounts_have_id(self.accounts.data@, account_uuid) && e is Message,
            },
    {
        match self.accounts.find_index(account_uuid) {
            Some(i) => Ok(self.accounts.data[i].ledger.duplicate()),
            None => Err(
                BrokerError::Message { message: "No account exists with that identity.".to_owned() },
            ),
        }
    }

    /// The conversion rate (in pips at 10 decimal places) between the
    /// broker's base currency and the supplied currency: the ask of the
    /// direct pair when it is quoted, else the ask of the reversed pair.
    /// Outside FX mode the request is rejected; without either pair there
    /// is no data; a rate beyond the representable range is reported as
    /// an error.
    pub fn get_base_rate(&self, currency: &String) -> (r: Result<u64, BrokerError>)
        requires
            self.wf(),
        ensures
            !self.settings.fx ==> r is Err && r->Err_0 is Message,
            self.settings.fx ==> match base_rate_spec(
                self.symbols.symbols@,
                self.settings,
                currency@,
            ) {
                Some(rate) => if rate <= u64::MAX {
                    r == Ok::<u64, BrokerError>(rate as u64)
                } else {
                    r is Err && r->Err_0 is Message
                },
                None => r == Err::<u64, BrokerError>(BrokerError::NoDataAvailable),
            },
    {
        base_rate(&self.symbols, &self.settings, currency)
    }

    /// The worth of a position in units of base currency: its size for an
    /// ordinary symbol, its size times the base rate times the lot size
    /// for an FX symbol.  Stale symbol indices, missing conversion data
    /// and unrepresentable values are reported as errors.
    pub fn get_position_value(&self, pos: &Position) -> (r: Result<u64, BrokerError>)
        requires
            self.wf(),
        ensures
            match position_value_spec(self.symbols.symbols@, self.settings, *pos) {
                Some(v) => if v <= u64::MAX {
                    r == Ok::<u64, BrokerError>(v as u64)
                } else {
                    r is Err && r->Err_0 is Message
                },
                None => r is Err,
            },
            pos.symbol_id >= self.symbols.symbols@.len() ==> r == Err::<u64, _>(
                BrokerError::NoSuchSymbol,
            ),
            pos.symbol_id < self.symbols.symbols@.len()
                && self.symbols.symbols@[pos.symbol_id as int].is_fx ==> {
                let rate = base_rate_spec(
                    self.symbols.symbols@,
                    self.settings,
                    self.symbols.symbols@[pos.symbol_id as int].name@.take(3),
                );
                &&& !self.settings.fx ==> (r is Err && r->Err_0 is Message)
                &&& self.settings.fx && rate is None ==> r == Err::<u64, _>(
                    BrokerError::NoDataAvailable,
                )
                &&& self.settings.fx && rate is Some && rate->0 > u64::MAX ==> (r is Err
                    && r->Err_0 is Message)
            },
    {
        position_value(&self.symbols, &self.settings, pos)
    }

    /// Submits a client action at a client-side instant: it reaches the
    /// broker one network delay later, matures after the broker's
    /// processing delay for that kind of action, and is then placed on
    /// the timeline to be executed.
    pub fn submit(&mut self, action: BrokerAction, slot: u64, time: u64)
        requires
            old(self).wf(),
            time <= MAX_TIME_NS,
            time >= old(self).timestamp,
        ensures
            final(self).wf(),
            final(self).pq@ == old(self).pq@.take(
                insert_pos(
                    old(self).pq@,
                    (time + old(self).settings.ping_ns + old(self).settings.delay_of(action)) as u64,
                ),
            ) + seq![
                QueueItem {
                    timestamp: (time + old(self).settings.ping_ns + old(self).settings.delay_of(
                        action,
                    )) as u64,
                    unit: WorkUnit::ActionComplete { slot, action },
                },
            ] + old(self).pq@.skip(
                insert_pos(
                    old(self).pq@,
                    (time + old(self).settings.ping_ns + old(self).settings.delay_of(action)) as u64,
                ),
            ),
            final(self).accounts == old(self).accounts,
            final(self).symbols == old(self).symbols,
            final(self).timestamp == old(self).timestamp,
            final(self).delivered@ == old(self).delivered@,
            final(self).next_position_id == old(self).next_position_id,
            final(self).settings == old(self).settings,
    {
        let delay = self.settings.get_delay(&action);
        let matures = time + self.settings.ping_ns + delay;
        let item = QueueItem { timestamp: matures, unit: WorkUnit::ActionComplete { slot, action } };
        self.pq.push(item);
        proof {
            let s = self.pq@;
            let s0 = old(self).pq@;
            let p = insert_pos(s0, matures);
            crate::queue::lemma_insert_pos(s0, matures);
            assert forall|i: int| 0 <= i < s.len() implies item_wf(
                #[trigger] s[i],
                self.symbols.symbols@,
            ) && s[i].timestamp >= self.timestamp by {
                if i < p {
                    assert(s[i] == s0[i]);
                } else if i > p {
                    assert(s[i] == s0[i - 1]);
                }
            }
        }
    }
}

/// The index an account identity is registered at (meaningful when the
/// identity occurs, which `accounts_have_id` states).
pub open spec fn account_index_of(accounts: Seq<Account>, id: u64) -> int {
    choose|i: int| 0 <= i < accounts.len() && accounts[i].uuid == id
}

/// With distinct identities, `account_index_of` is exactly the index any
/// matching account sits at.
pub proof fn lemma_account_index(accounts: Seq<Account>, id: u64, i: int)
    requires
        forall|a: int, b: int|
            0 <= a < b < accounts.len() ==> (#[trigger] accounts[a]).uuid != (
            #[trigger] accounts[b]).uuid,
        0 <= i < accounts.len(),
        accounts[i].uuid == id,
    ensures
        accounts_have_id(accounts, id),
        account_index_of(accounts, id) == i,
{
    assert(accounts_have_id(accounts, id));
    let j = account_index_of(accounts, id);
    if i < j {
        assert(accounts[i].uuid != accounts[j].uuid);
    }
    if j < i {
        assert(accounts[j].uuid != accounts[i].uuid);
    }
}

/// The accounts hold the same identities in the same order, every
/// account other than the one at `ai` has an unchanged ledger state, and
/// closed positions are preserved everywhere.
pub open spec fn accounts_frame(a0: Seq<Account>, a1: Seq<Account>, ai: int) -> bool {
    &&& a1.len() == a0.len()
    &&& forall|a: int|
        0 <= a < a0.len() ==> (#[trigger] a1[a]).uuid == a0[a].uuid && a1[a].live == a0[a].live
    &&& forall|a: int|
        0 <= a < a0.len() && a != ai ==> (#[trigger] a1[a]).ledger.same_state(a0[a].ledger)
    &&& forall|a: int|
        0 <= a < a0.len() ==> (#[trigger] a0[a]).ledger.closed_preserved(a1[a].ledger)
}

/// No account's ledger state changed at all.
pub open spec fn accounts_all_same(a0: Seq<Account>, a1: Seq<Account>) -> bool {
    accounts_frame(a0, a1, -1)
}

/// What `market_open` does: against the quoted price of the named
/// symbol, a position executed at the ask (long) or bid (short) of that
/// quote is opened on the named account under the next position id, its
/// value debited as margin — or the exact error for the input, with no
/// account changed.
pub open spec fn market_open_rel(
    symbols: Seq<Symbol>,
    settings: SimBrokerSettings,
    accounts0: Seq<Account>,
    accounts1: Seq<Account>,
    next0: u64,
    next1: u64,
    account_id: u64,
    symbol: Seq<char>,
    long: bool,
    size: u64,
    stop: Option<u64>,
    take_profit: Option<u64>,
    timestamp: u64,
    r: BrokerResult,
) -> bool {
    let quote = match lookup_symbol(symbols, symbol) {
        Some(sym) => sym.price,
        None => None,
    };
    match quote {
        None => r == Err::<BrokerMessage, _>(BrokerError::NoSuchSymbol) && accounts1 == accounts0
            && next1 == next0,
        Some((bid, ask)) => {
            let sym_index = symbol_index_of(symbols, symbol);
            let entry_price = if long {
                ask
            } else {
                bid
            };
            let pos = SimBroker::market_position(
                sym_index as usize,
                entry_price,
                long,
                size,
                stop,
                take_profit,
                timestamp,
            );
            let cost = position_value_spec(symbols, settings, pos);
            &&& (cost is None || cost->0 > u64::MAX) ==> r is Err && accounts1 == accounts0
                && next1 == next0
            &&& (cost is Some && cost->0 <= u64::MAX) ==> {
                let c = cost->0 as u64;
                &&& !accounts_have_id(accounts0, account_id) ==> r == Err::<BrokerMessage, _>(
                    BrokerError::NoSuchAccount,
                ) && accounts1 == accounts0 && next1 == next0
                &&& accounts_have_id(accounts0, account_id) ==> {
                    let ai = account_index_of(accounts0, account_id);
                    let ledger0 = accounts0[ai].ledger;
                    &&& next0 == u64::MAX ==> (r is Err && r->Err_0 is Message)
                        && accounts_all_same(accounts0, accounts1) && next1 == next0
                    &&& next0 < u64::MAX && c > ledger0.balance ==> r == Err::<BrokerMessage, _>(
                        BrokerError::InsufficientBuyingPower,
                    ) && accounts_all_same(accounts0, accounts1) && next1 == next0
                    &&& next0 < u64::MAX && c <= ledger0.balance ==> {
                        let id = next0;
                        let l1 = accounts1[ai].ledger;
                        &&& r == Ok::<_, BrokerError>(
                            BrokerMessage::PositionOpened {
                                position_id: id,
                                position: pos,
                                timestamp: timestamp,
                            },
                        )
                        &&& next1 == id + 1
                        &&& accounts_frame(accounts0, accounts1, ai)
                        &&& l1.balance == ledger0.balance - c
                        &&& l1.open_positions@ == ledger0.open_positions@.push(
                            (id, PosEntry { pos, margin: c }),
                        )
                        &&& l1.pending_positions@ == ledger0.pending_positions@
                        &&& l1.closed_positions@ == ledger0.closed_positions@
                        &&& l1.realized@ == ledger0.realized@
                    }
                }
            }
        },
    }
}

/// What `market_close` does at broker instant `now`: `size` units of the
/// named open position are closed at its per-unit value, shrinking it or
/// — at full size — moving it to the closed collection, or the exact
/// error for the input, with no account changed.
pub open spec fn market_close_rel(
    symbols: Seq<Symbol>,
    settings: SimBrokerSettings,
    accounts0: Seq<Account>,
    accounts1: Seq<Account>,
    account_id: u64,
    position_id: u64,
    size: u64,
    now: u64,
    r: BrokerResult,
) -> bool {
    &&& !accounts_have_id(accounts0, account_id) ==> r == Err::<BrokerMessage, _>(
        BrokerError::NoSuchAccount,
    ) && accounts1 == accounts0
    &&& accounts_have_id(accounts0, account_id) ==> {
        let ai = account_index_of(accounts0, account_id);
        let ledger0 = accounts0[ai].ledger;
        &&& !seq_has_key(ledger0.open_positions@, position_id) ==> r == Err::<BrokerMessage, _>(
            BrokerError::NoSuchPosition,
        ) && accounts1 == accounts0
        &&& seq_has_key(ledger0.open_positions@, position_id) ==> {
            let entry = ledger0.open_positions.as_map()[position_id];
            let value = position_value_spec(symbols, settings, entry.pos);
            &&& (value is None || value->0 > u64::MAX) ==> r is Err && accounts1 == accounts0
            &&& (value is Some && value->0 <= u64::MAX) ==> {
                let per_unit: u64 = if entry.pos.size == 0 {
                    0
                } else {
                    ((value->0 as u64) / entry.pos.size) as u64
                };
                &&& per_unit * size > u64::MAX ==> (r is Err && r->Err_0 is Message) && accounts1
                    == accounts0
                &&& per_unit * size <= u64::MAX && size > i64::MAX as u64 ==> r == Err::<
                    BrokerMessage,
                    _,
                >(BrokerError::InvalidModificationAmount) && accounts1 == accounts0
                &&& per_unit * size <= u64::MAX && size <= i64::MAX as u64 ==> {
                    let cost = (per_unit * size) as u64;
                    let new_size: int = entry.pos.size - size;
                    let l1 = accounts1[ai].ledger;
                    &&& accounts_frame(accounts0, accounts1, ai)
                    &&& new_size < 0 ==> r == Err::<BrokerMessage, _>(
                        BrokerError::InvalidModificationAmount,
                    ) && l1.same_state(ledger0)
                    &&& new_size == 0 ==> {
                        let closed_pos = Position { exit_time: Some(now), ..entry.pos };
                        let credited: int = if ledger0.balance + cost <= u64::MAX {
                            cost as int
                        } else {
                            u64::MAX - ledger0.balance
                        };
                        &&& r == Ok::<_, BrokerError>(
                            BrokerMessage::PositionClosed {
                                position_id: position_id,
                                position: closed_pos,
                                reason: PositionClosureReason::MarketClose,
                                timestamp: now,
                            },
                        )
                        &&& l1.balance == ledger0.balance + credited
                        &&& !seq_has_key(l1.open_positions@, position_id)
                        &&& l1.closed_positions@ == ledger0.closed_positions@.push(
                            (position_id, PosEntry { pos: closed_pos, margin: entry.margin }),
                        )
                        &&& l1.pending_positions@ == ledger0.pending_positions@
                    }
                    &&& new_size > 0 ==> {
                        &&& cost > ledger0.balance ==> r == Err::<BrokerMessage, _>(
                            BrokerError::InsufficientBuyingPower,
                        ) && l1.same_state(ledger0)
                        &&& cost <= ledger0.balance ==> {
                            let new_pos = Position { size: new_size as u64, ..entry.pos };
                            &&& r == Ok::<_, BrokerError>(
                                BrokerMessage::PositionModified {
                                    position_id: position_id,
                                    position: new_pos,
                                    timestamp: now,
                                },
                            )
                            &&& l1.balance == ledger0.balance - cost
                            &&& l1.open_positions.as_map() == ledger0.open_positions.as_map().insert(
                                position_id,
                                PosEntry { pos: new_pos, margin: entry.margin },
                            )
                            &&& l1.pending_positions@ == ledger0.pending_positions@
                            &&& l1.closed_positions@ == ledger0.closed_positions@
                        }
                    }
                }
            }
        }
    }
}

/// What `modify_position` does at broker instant `now`: the stop-loss
/// and take-profit levels of the named open position are replaced, or
/// the exact error for the input, with no account changed.
pub open spec fn modify_position_rel(
    accounts0: Seq<Account>,
    accounts1: Seq<Account>,
    account_id: u64,
    position_id: u64,
    stop: Option<u64>,
    take_profit: Option<u64>,
    now: u64,
    r: BrokerResult,
) -> bool {
    &&& !accounts_have_id(accounts0, account_id) ==> r == Err::<BrokerMessage, _>(
        BrokerError::NoSuchAccount,
    ) && accounts1 == accounts0
    &&& accounts_have_id(accounts0, account_id) ==> {
        let ai = account_index_of(accounts0, account_id);
        let ledger0 = accounts0[ai].ledger;
        let l1 = accounts1[ai].ledger;
        &&& accounts_frame(accounts0, accounts1, ai)
        &&& !seq_has_key(ledger0.open_positions@, position_id) ==> r == Err::<BrokerMessage, _>(
            BrokerError::NoSuchPosition,
        ) && l1.same_state(ledger0)
        &&& seq_has_key(ledger0.open_positions@, position_id) ==> {
            let entry = ledger0.open_positions.as_map()[position_id];
            let new_pos = Position { stop, take_profit, ..entry.pos };
            &&& r == Ok::<_, BrokerError>(
                BrokerMessage::PositionModified {
                    position_id: position_id,
                    position: new_pos,
                    timestamp: now,
                },
            )
            &&& l1.balance == ledger0.balance
            &&& l1.open_positions.as_map() == ledger0.open_positions.as_map().insert(
                position_id,
                PosEntry { pos: new_pos, margin: entry.margin },
            )
            &&& l1.pending_positions@ == ledger0.pending_positions@
            &&& l1.closed_positions@ == ledger0.closed_positions@
            &&& l1.realized@ == ledger0.realized@
        }
    }
}

/// What `exec_action` does, per action kind: a `Ping` is answered with a
/// `Pong` carrying its processing instant; disconnects, limit orders and
/// limit closes are answered `Unimplemented` with no account changed;
/// market orders, market closes and modifications behave exactly as the
/// respective executor (the latter two at the broker clock `clock`).
pub open spec fn exec_outcome(
    symbols: Seq<Symbol>,
    settings: SimBrokerSettings,
    accounts0: Seq<Account>,
    accounts1: Seq<Account>,
    next0: u64,
    next1: u64,
    clock: u64,
    cmd: BrokerAction,
    timestamp: u64,
    r: BrokerResult,
) -> bool {
    match cmd {
        BrokerAction::Ping => r == Ok::<_, BrokerError>(
            BrokerMessage::Pong { time_received: timestamp },
        ) && accounts1 == accounts0 && next1 == next0,
        BrokerAction::Disconnect => (r is Err && r->Err_0 is Unimplemented) && accounts1
            == accounts0 && next1 == next0,
        BrokerAction::TradingAction { account_id, action } => match action {
            TradingAction::MarketOrder { symbol, long, size, stop, take_profit, max_range } => {
                market_open_rel(
                    symbols,
                    settings,
                    accounts0,
                    accounts1,
                    next0,
                    next1,
                    account_id,
                    symbol@,
                    long,
                    size,
                    stop,
                    take_profit,
                    timestamp,
                    r,
                )
            },
            TradingAction::MarketClose { position_id, size } => market_close_rel(
                symbols,
                settings,
                accounts0,
                accounts1,
                account_id,
                position_id,
                size,
                clock,
                r,
            ) && next1 == next0,
            TradingAction::ModifyPosition { position_id, stop, take_profit } => modify_position_rel(
                accounts0,
                accounts1,
                account_id,
                position_id,
                stop,
                take_profit,
                clock,
                r,
            ) && next1 == next0,
            TradingAction::LimitOrder { .. } => (r is Err && r->Err_0 is Unimplemented)
                && accounts1 == accounts0 && next1 == next0,
            TradingAction::LimitClose { .. } => (r is Err && r->Err_0 is Unimplemented)
                && accounts1 == accounts0 && next1 == next0,
        },
    }
}

impl SimBroker {
    /// The position a market order constructs: created and executed at
    /// the broker's processing instant, at the current ask for a long
    /// and the current bid for a short.
    pub open spec fn market_position(
        sym_index: usize,
        entry_price: u64,
        long: bool,
        size: u64,
        stop: Option<u64>,
        take_profit: Option<u64>,
        timestamp: u64,
    ) -> Position {
        Position {
            creation_time: timestamp,
            symbol_id: sym_index,
            size,
            intended_price: Some(entry_price),
            long,
            stop,
            take_profit,
            execution_time: Some(timestamp),
            execution_price: Some(entry_price),
            exit_price: None,
            exit_time: None,
        }
    }

    /// Everything except the accounts and the position id counter is
    /// untouched.
    pub open spec fn only_accounts_touched(self, post: SimBroker) -> bool {
        &&& post.settings == self.settings
        &&& post.symbols == self.symbols
        &&& post.pq@ == self.pq@
        &&& post.timestamp == self.timestamp
        &&& post.account_id == self.account_id
        &&& post.delivered@ == self.delivered@
    }

    /// The accounts hold the same identities in the same order, every
    /// account other than the one at `ai` has an unchanged ledger state,
    /// and closed positions are preserved everywhere.
    pub open spec fn accounts_same_but(self, post: SimBroker, ai: int) -> bool {
        accounts_frame(self.accounts.data@, post.accounts.data@, ai)
    }

    /// No account's ledger state changed at all.
    pub open spec fn accounts_unchanged(self, post: SimBroker) -> bool {
        accounts_frame(self.accounts.data@, post.accounts.data@, -1)
    }

    /// Attempts to open a position at the current market price, with
    /// optional stop-loss and take-profit levels.  The order executes at
    /// the ask for a long and the bid for a short, debits the position's
    /// value as margin, and reports `PositionOpened`.  `max_range` is
    /// accepted but advisory.
    pub fn market_open(
        &mut self,
        account_id: u64,
        symbol: &String,
        long: bool,
        size: u64,
        stop: Option<u64>,
        take_profit: Option<u64>,
        max_range: Option<u64>,
        timestamp: u64,
    ) -> (r: BrokerResult)
        requires
            old(self).wf(),
        ensures
            final(self).wf(),
            old(self).only_accounts_touched(*final(self)),
            market_open_rel(
                old(self).symbols.symbols@,
                old(self).settings,
                old(self).accounts.data@,
                final(self).accounts.data@,
                old(self).next_position_id,
                final(self).next_position_id,
                account_id,
                symbol@,
                long,
                size,
                stop,
                take_profit,
                timestamp,
                r,
            ),
    {
        let (sym_index, bid, ask) = match self.symbols.find_index(symbol) {
            Some(i) => {
                proof {
                    lemma_lookup_symbol(self.symbols.symbols@, symbol@, i as int);
                }
                match self.symbols.price_at(i) {
                    Some(p) => (i, p.0, p.1),
                    None => {
                        return Err(BrokerError::NoSuchSymbol);
                    },
                }
            },
            None => {
                return Err(BrokerError::NoSuchSymbol);
            },
        };
        proof {
            lemma_symbol_index(self.symbols.symbols@, symbol@, sym_index as int);
        }
        let entry_price = if long {
            ask
        } else {
            bid
        };
        let pos = Position {
            creation_time: timestamp,
            symbol_id: sym_index,
            size,
            intended_price: Some(entry_price),
            long,
            stop,
            take_profit,
            execution_time: Some(timestamp),
            execution_price: Some(entry_price),
            exit_price: None,
            exit_time: None,
        };
        let open_cost = match self.get_position_value(&pos) {
            Ok(c) => c,
            Err(e) => {
                return Err(e);
            },
        };
        let ai = match self.accounts.find_index(account_id) {
            Some(a) => a,
            None => {
                return Err(BrokerError::NoSuchAccount);
            },
        };
        proof {
            lemma_account_index(self.accounts.data@, account_id, ai as int);
        }
        if self.next_position_id == u64::MAX {
            return Err(
                BrokerError::Message { message: "The position id space is exhausted.".to_owned() },
            );
        }
        let id = self.next_position_id;
        let ghost accounts0 = self.accounts.data@;
        let mut acct = self.accounts.data.remove(ai);
        proof {
            assert(!acct.ledger.has_id(id)) by {
                if seq_has_key(acct.ledger.pending_positions@, id) {
                    let k = choose|k: int|
                        0 <= k < acct.ledger.pending_positions@.len()
                            && acct.ledger.pending_positions@[k].0 == id;
                }
                if seq_has_key(acct.ledger.open_positions@, id) {
                    let k = choose|k: int|
                        0 <= k < acct.ledger.open_positions@.len()
                            && acct.ledger.open_positions@[k].0 == id;
                }
                if seq_has_key(acct.ledger.closed_positions@, id) {
                    let k = choose|k: int|
                        0 <= k < acct.ledger.closed_positions@.len()
                            && acct.ledger.closed_positions@[k].0 == id;
                }
            }
        }
        let res = acct.ledger.open_position(id, pos, open_cost);
        let is_ok = res.is_ok();
        self.accounts.data.insert(ai, acct);
        if is_ok {
            self.next_position_id = id + 1;
        }
        proof {
            assert(self.accounts.data@ =~= accounts0.update(
                ai as int,
                self.accounts.data@[ai as int],
            ));
            let l0 = accounts0[ai as int].ledger;
            let l1 = self.accounts.data@[ai as int].ledger;
            assert(old(self).ledger_ids_wf(l0));
            if is_ok {
                crate::posmap::lemma_seq_as_map_push(
                    l0.open_positions@,
                    id,
                    PosEntry { pos, margin: open_cost },
                );
                assert forall|k: u64| #[trigger] seq_has_key(l1.open_positions@, k) implies k
                    < self.next_position_id && l1.open_positions.as_map()[k].pos.symbol_id
                    < self.symbols.symbols@.len() by {
                    let j = choose|j: int|
                        0 <= j < l1.open_positions@.len() && l1.open_positions@[j].0 == k;
                    if j < l0.open_positions@.len() {
                        assert(l0.open_positions@[j].0 == k);
                        assert(seq_has_key(l0.open_positions@, k));
                    } else {
                        assert(k == id);
                    }
                }
            }
            assert(self.ledger_ids_wf(l1));
            self.lemma_restore_wf(*old(self), accounts0, ai as int);
        }
        res
    }

    /// Re-establishes the broker invariant after one account's ledger
    /// was rewritten in place by a well-formed ledger operation.
    proof fn lemma_restore_wf(self, pre: SimBroker, accounts0: Seq<Account>, ai: int)
        requires
            pre.wf(),
            accounts0 == pre.accounts.data@,
            0 <= ai < accounts0.len(),
            self.accounts.data@.len() == accounts0.len(),
            forall|a: int| 0 <= a < accounts0.len() && a != ai ==> self.accounts.data@[a] == accounts0[a],
            self.accounts.data@[ai].uuid == accounts0[ai].uuid,
            self.accounts.data@[ai].ledger.wf(),
            self.symbols == pre.symbols,
            self.pq@ == pre.pq@,
            self.timestamp == pre.timestamp,
            self.delivered@ == pre.delivered@,
            self.settings == pre.settings,
            self.next_position_id >= pre.next_position_id,
            self.ledger_ids_wf(self.accounts.data@[ai].ledger),
        ensures
            self.wf(),
    {
        assert forall|a: int, b: int| 0 <= a < b < self.accounts.data@.len() implies (
        #[trigger] self.accounts.data@[a]).uuid != (#[trigger] self.accounts.data@[b]).uuid by {
            assert(self.accounts.data@[a].uuid == accounts0[a].uuid);
            assert(self.accounts.data@[b].uuid == accounts0[b].uuid);
        }
        assert forall|a: int| 0 <= a < self.accounts.data@.len() implies (
        #[trigger] self.accounts.data@[a]).ledger.wf() by {
            if a != ai {
                assert(self.accounts.data@[a] == accounts0[a]);
            }
        }
        assert forall|a: int| 0 <= a < self.accounts.data@.len() implies self.ledger_ids_wf(
            (#[trigger] self.accounts.data@[a]).ledger,
        ) by {
            if a != ai {
                assert(self.accounts.data@[a] == accounts0[a]);
                assert(pre.ledger_ids_wf(accounts0[a].ledger));
            }
        }
    }

    /// Attempts to close `size` units of an open position at the market
    /// price, crediting the account the per-unit value of the position.
    /// Closing every unit closes the position; closing more than the
    /// position holds is an invalid modification.
    pub fn market_close(&mut self, account_id: u64, position_id: u64, size: u64) -> (r:
        BrokerResult)
        requires
            old(self).wf(),
        ensures
            final(self).wf(),
            old(self).only_accounts_touched(*final(self)),
            final(self).next_position_id == old(self).next_position_id,
            market_close_rel(
                old(self).symbols.symbols@,
                old(self).settings,
                old(self).accounts.data@,
                final(self).accounts.data@,
                account_id,
                position_id,
                size,
                old(self).timestamp,
                r,
            ),
    {
        let ai = match self.accounts.find_index(account_id) {
            Some(a) => a,
            None => {
                return Err(BrokerError::NoSuchAccount);
            },
        };
        proof {
            lemma_account_index(self.accounts.data@, account_id, ai as int);
        }
        let entry = {
            let acct_ref = &self.accounts.data[ai];
            match acct_ref.ledger.open_positions.get(position_id) {
                Some(e) => e,
                None => {
                    return Err(BrokerError::NoSuchPosition);
                },
            }
        };
        let pos_value = match self.get_position_value(&entry.pos) {
            Ok(v) => v,
            Err(e) => {
                return Err(e);
            },
        };
        let per_unit: u64 = if entry.pos.size == 0 {
            0
        } else {
            pos_value / entry.pos.size
        };
        let modification_cost = match per_unit.checked_mul(size) {
            Some(c) => c,
            None => {
                return Err(
                    BrokerError::Message {
                        message: "The modification cost is out of the representable range.".to_owned(),
                    },
                );
            },
        };
        if size > 9223372036854775807 {
            return Err(BrokerError::InvalidModificationAmount);
        }
        let units: i64 = -(size as i64);
        let now = self.timestamp;
        let ghost accounts0 = self.accounts.data@;
        let mut acct = self.accounts.data.remove(ai);
        let res = acct.ledger.resize_position(position_id, units, modification_cost, now);
        self.accounts.data.insert(ai, acct);
        proof {
            assert(self.accounts.data@ =~= accounts0.update(
                ai as int,
                self.accounts.data@[ai as int],
            ));
            let l0 = accounts0[ai as int].ledger;
            let l1 = self.accounts.data@[ai as int].ledger;
            assert(old(self).ledger_ids_wf(l0));
            lemma_ids_wf_rewrite(*old(self), *self, l0, l1, position_id);
            self.lemma_restore_wf(*old(self), accounts0, ai as int);
        }
        res
    }

    /// Replaces the stop-loss and take-profit levels of an open position.
    pub fn modify_position(
        &mut self,
        account_id: u64,
        position_id: u64,
        stop: Option<u64>,
        take_profit: Option<u64>,
    ) -> (r: BrokerResult)
        requires
            old(self).wf(),
        ensures
            final(self).wf(),
            old(self).only_accounts_touched(*final(self)),
            final(self).next_position_id == old(self).next_position_id,
            modify_position_rel(
                old(self).accounts.data@,
                final(self).accounts.data@,
                account_id,
                position_id,
                stop,
                take_profit,
                old(self).timestamp,
                r,
            ),
    {
        let ai = match self.accounts.find_index(account_id) {
            Some(a) => a,
            None => {
                return Err(BrokerError::NoSuchAccount);
            },
        };
        proof {
            lemma_account_index(self.accounts.data@, account_id, ai as int);
        }
        let now = self.timestamp;
        let ghost accounts0 = self.accounts.data@;
        let mut acct = self.accounts.data.remove(ai);
        let res = acct.ledger.modify_position(position_id, stop, take_profit, now);
        self.accounts.data.insert(ai, acct);
        proof {
            assert(self.accounts.data@ =~= accounts0.update(
                ai as int,
                self.accounts.data@[ai as int],
            ));
            let l0 = accounts0[ai as int].ledger;
            let l1 = self.accounts.data@[ai as int].ledger;
            assert(old(self).ledger_ids_wf(l0));
            lemma_ids_wf_rewrite(*old(self), *self, l0, l1, position_id);
            self.lemma_restore_wf(*old(self), accounts0, ai as int);
        }
        res
    }

    /// Carries out a client action at the broker's processing instant
    /// and returns the result of the action.  A `Ping` is answered with
    /// a `Pong` carrying that instant; limit orders, limit closes and
    /// disconnects are unimplemented; trading actions are interpreted
    /// against the named account.
    pub fn exec_action(&mut self, cmd: &BrokerAction, timestamp: u64) -> (r: BrokerResult)
        requires
            old(self).wf(),
        ensures
            final(self).wf(),
            old(self).only_accounts_touched(*final(self)),
            cmd is Ping ==> r == Ok::<_, BrokerError>(
                BrokerMessage::Pong { time_received: timestamp },
            ) && final(self).accounts == old(self).accounts && final(self).next_position_id == old(
                self,
            ).next_position_id,
            cmd is Disconnect ==> (r is Err && r->Err_0 is Unimplemented) && final(self).accounts
                == old(self).accounts && final(self).next_position_id == old(self).next_position_id,
            forall|a: int|
                0 <= a < old(self).accounts.data@.len() ==> (
                #[trigger] old(self).accounts.data@[a]).ledger.closed_preserved(
                    final(self).accounts.data@[a].ledger,
                ) && final(self).accounts.data@[a].uuid == old(self).accounts.data@[a].uuid,
            final(self).accounts.data@.len() == old(self).accounts.data@.len(),
            exec_outcome(
                old(self).symbols.symbols@,
                old(self).settings,
                old(self).accounts.data@,
                final(self).accounts.data@,
                old(self).next_position_id,
                final(self).next_position_id,
                old(self).timestamp,
                *cmd,
                timestamp,
                r,
            ),
    {
        match cmd {
            BrokerAction::Ping => Ok(BrokerMessage::Pong { time_received: timestamp }),
            BrokerAction::Disconnect => Err(
                BrokerError::Unimplemented { message: "Disconnects are not simulated.".to_owned() },
            ),
            BrokerAction::TradingAction { account_id, action } => match action {
                TradingAction::MarketOrder { symbol, long, size, stop, take_profit, max_range } => {
                    self.market_open(
                        *account_id,
                        symbol,
                        *long,
                        *size,
                        *stop,
                        *take_profit,
                        *max_range,
                        timestamp,
                    )
                },
                TradingAction::MarketClose { position_id, size } => {
                    self.market_close(*account_id, *position_id, *size)
                },
                TradingAction::ModifyPosition { position_id, stop, take_profit } => {
                    self.modify_position(*account_id, *position_id, *stop, *take_profit)
                },
                TradingAction::LimitOrder { .. } => Err(
                    BrokerError::Unimplemented {
                        message: "Limit orders are not implemented.".to_owned(),
                    },
                ),
                TradingAction::LimitClose { .. } => Err(
                    BrokerError::Unimplemented {
                        message: "Limit closes are not implemented.".to_owned(),
                    },
                ),
            },
        }
    }
}

/// Position-id bounds survive a ledger operation that leaves the open
/// collection unchanged, removes the entry under `id`, rewrites it in
/// place without changing its symbol, and at most appends that entry to
/// the closed collection.
proof fn lemma_ids_wf_rewrite(pre: SimBroker, post: SimBroker, l0: Ledger, l1: Ledger, id: u64)
    requires
        pre.ledger_ids_wf(l0),
        l0.wf(),
        l1.wf(),
        post.next_position_id >= pre.next_position_id,
        post.symbols.symbols@.len() == pre.symbols.symbols@.len(),
        l1.pending_positions@ == l0.pending_positions@,
        l1.open_positions@ == l0.open_positions@ || (exists|i: int|
            0 <= i < l0.open_positions@.len() && l0.open_positions@[i].0 == id
                && l1.open_positions@ == l0.open_positions@.remove(i)) || (exists|i: int, e: PosEntry|
            0 <= i < l0.open_positions@.len() && l0.open_positions@[i].0 == id
                && e.pos.symbol_id == l0.open_positions.as_map()[id].pos.symbol_id
                && l1.open_positions@ == l0.open_positions@.update(i, (id, e))),
        l1.closed_positions@ == l0.closed_positions@ || (seq_has_key(l0.open_positions@, id)
            && exists|e: PosEntry| l1.closed_positions@ == l0.closed_positions@.push((id, e))),
    ensures
        post.ledger_ids_wf(l1),
{
    crate::posmap::lemma_seq_as_map(l0.open_positions@);
    assert forall|k: u64| #[trigger] seq_has_key(l1.pending_positions@, k) implies k
        < post.next_position_id && l1.pending_positions.as_map()[k].pos.symbol_id
        < post.symbols.symbols@.len() by {
        assert(seq_has_key(l0.pending_positions@, k));
    }
    assert forall|k: u64| #[trigger] seq_has_key(l1.open_positions@, k) implies k
        < post.next_position_id && l1.open_positions.as_map()[k].pos.symbol_id
        < post.symbols.symbols@.len() by {
        let j = choose|j: int| 0 <= j < l1.open_positions@.len() && l1.open_positions@[j].0 == k;
        if l1.open_positions@ == l0.open_positions@ {
            assert(l0.open_positions@[j].0 == k);
            assert(seq_has_key(l0.open_positions@, k));
        } else if exists|i: int|
            0 <= i < l0.open_positions@.len() && l0.open_positions@[i].0 == id
                && l1.open_positions@ == l0.open_positions@.remove(i) {
            let i = choose|i: int|
                0 <= i < l0.open_positions@.len() && l0.open_positions@[i].0 == id
                    && l1.open_positions@ == l0.open_positions@.remove(i);
            crate::posmap::lemma_seq_as_map_remove(l0.open_positions@, i);
            if j < i {
                assert(l0.open_positions@[j].0 == k);
            } else {
                assert(l0.open_positions@[j + 1].0 == k);
            }
            assert(seq_has_key(l0.open_positions@, k));
            assert(k != id);
        } else {
            let (i, e): (int, PosEntry) = choose|i: int, e: PosEntry|
                0 <= i < l0.open_positions@.len() && l0.open_positions@[i].0 == id
                    && e.pos.symbol_id == l0.open_positions.as_map()[id].pos.symbol_id
                    && l1.open_positions@ == l0.open_positions@.update(i, (id, e));
            crate::posmap::lemma_seq_as_map_update(l0.open_positions@, i, e);
            if j != i {
                assert(l0.open_positions@[j].0 == k);
                assert(seq_has_key(l0.open_positions@, k));
            } else {
                assert(k == id);
                assert(seq_has_key(l0.open_positions@, id));
            }
        }
    }
    assert forall|k: u64| #[trigger] seq_has_key(l1.closed_positions@, k) implies k
        < post.next_position_id by {
        let j = choose|j: int| 0 <= j < l1.closed_positions@.len() && l1.closed_positions@[j].0 == k;
        if l1.closed_positions@ == l0.closed_positions@ {
            assert(l0.closed_positions@[j].0 == k);
            assert(seq_has_key(l0.closed_positions@, k));
        } else {
            if j < l0.closed_positions@.len() {
                assert(l0.closed_positions@[j].0 == k);
                assert(seq_has_key(l0.closed_positions@, k));
            } else {
                assert(k == id);
            }
        }
    }
}

/// Does this pending entry trade on the ticked symbol and fill at the
/// quote?
pub open spec fn fill_pred(sid: usize, bid: u64, ask: u64) -> spec_fn((u64, PosEntry)) -> bool {
    |e: (u64, PosEntry)| e.1.pos.symbol_id == sid && e.1.pos.open_fill(bid, ask) is Some
}

/// A pending entry executed at the quote's fill price, now.
pub open spec fn fill_entry(e: (u64, PosEntry), bid: u64, ask: u64, now: u64) -> (u64, PosEntry) {
    (
        e.0,
        PosEntry {
            pos: Position {
                execution_time: Some(now),
                execution_price: e.1.pos.open_fill(bid, ask),
                ..e.1.pos
            },
            margin: e.1.margin,
        },
    )
}

/// The transformation a fill applies to an entry.
pub open spec fn fill_map(bid: u64, ask: u64, now: u64) -> spec_fn((u64, PosEntry)) -> (
    u64,
    PosEntry,
) {
    |e: (u64, PosEntry)| fill_entry(e, bid, ask, now)
}

/// The push notification a fill emits.
pub open spec fn fill_msg(bid: u64, ask: u64, now: u64) -> spec_fn((u64, PosEntry)) -> BrokerResult {
    |e: (u64, PosEntry)|
        Ok(
            BrokerMessage::PositionOpened {
                position_id: e.0,
                position: fill_entry(e, bid, ask, now).1.pos,
                timestamp: now,
            },
        )
}

/// Does this open entry trade on the ticked symbol and trigger its
/// stop-loss or take-profit at the quote?
pub open spec fn close_pred(sid: usize, bid: u64, ask: u64) -> spec_fn((u64, PosEntry)) -> bool {
    |e: (u64, PosEntry)| e.1.pos.symbol_id == sid && e.1.pos.close_trigger(bid, ask) is Some
}

/// An open entry exited at the quote's trigger price, now.
pub open spec fn close_entry(e: (u64, PosEntry), bid: u64, ask: u64, now: u64) -> (u64, PosEntry) {
    (
        e.0,
        PosEntry {
            pos: Position {
                exit_time: Some(now),
                exit_price: Some((e.1.pos.close_trigger(bid, ask)->0).0),
                ..e.1.pos
            },
            margin: e.1.margin,
        },
    )
}

/// The transformation an automatic close applies to an entry.
pub open spec fn close_map(bid: u64, ask: u64, now: u64) -> spec_fn((u64, PosEntry)) -> (
    u64,
    PosEntry,
) {
    |e: (u64, PosEntry)| close_entry(e, bid, ask, now)
}

/// The push notification an automatic close emits.
pub open spec fn close_msg(bid: u64, ask: u64, now: u64) -> spec_fn((u64, PosEntry)) -> BrokerResult {
    |e: (u64, PosEntry)|
        Ok(
            BrokerMessage::PositionClosed {
                position_id: e.0,
                position: close_entry(e, bid, ask, now).1.pos,
                reason: (e.1.pos.close_trigger(bid, ask)->0).1,
                timestamp: now,
            },
        )
}

/// A balance after crediting each closed entry in order, saturating at
/// the representable maximum.
pub open spec fn apply_credits(
    symbols: Seq<Symbol>,
    settings: SimBrokerSettings,
    balance: u64,
    closes: Seq<(u64, PosEntry)>,
) -> u64
    decreases closes.len(),
{
    if closes.len() == 0 {
        balance
    } else {
        let before = apply_credits(symbols, settings, balance, closes.drop_last());
        let credit = credit_of(symbols, settings, closes.last());
        if before + credit <= u64::MAX {
            (before + credit) as u64
        } else {
            u64::MAX
        }
    }
}

/// Keeps the pending entries a quote does not fill.
pub open spec fn keep_pred(sid: usize, bid: u64, ask: u64) -> spec_fn((u64, PosEntry)) -> bool {
    |e: (u64, PosEntry)| !(fill_pred(sid, bid, ask)(e))
}

/// Keeps the open entries a quote does not close.
pub open spec fn keep_open_pred(sid: usize, bid: u64, ask: u64) -> spec_fn((u64, PosEntry)) -> bool {
    |e: (u64, PosEntry)| !(close_pred(sid, bid, ask)(e))
}

/// Every element of a filtered sequence is an element of the original.
proof fn lemma_filter_provenance(s: Seq<(u64, PosEntry)>, p: spec_fn((u64, PosEntry)) -> bool)
    ensures
        forall|i: int|
            0 <= i < s.filter(p).len() ==> exists|j: int|
                0 <= j < s.len() && s[j] == #[trigger] s.filter(p)[i],
    decreases s.len(),
{
    reveal(Seq::filter);
    if s.len() > 0 {
        lemma_filter_provenance(s.drop_last(), p);
        let f = s.filter(p);
        let fd = s.drop_last().filter(p);
        assert forall|i: int| 0 <= i < f.len() implies exists|j: int|
            0 <= j < s.len() && s[j] == #[trigger] f[i] by {
            if p(s.last()) {
                if i < f.len() - 1 {
                    assert(f[i] == fd[i]);
                    let j = choose|j: int| 0 <= j < s.drop_last().len() && s.drop_last()[j] == fd[i];
                    assert(s[j] == f[i]);
                } else {
                    assert(f[i] == s[s.len() - 1]);
                }
            } else {
                assert(f[i] == fd[i]);
                let j = choose|j: int| 0 <= j < s.drop_last().len() && s.drop_last()[j] == fd[i];
                assert(s[j] == f[i]);
            }
        }
    }
}

/// Evaluates one account's positions against a fresh quote for a symbol:
/// pending entries on that symbol whose entry condition the quote
/// satisfies are executed and moved to the open collection; then open
/// entries whose stop-loss or take-profit the quote triggers are exited,
/// credited (with their current value, or their posted margin when no
/// value is computable) and moved to the closed collection.  Returns the
/// push notifications: fills first, then closes, each in collection
/// order.
#[verifier::rlimit(100)]
pub fn tick_ledger(
    ledger: &mut Ledger,
    symbols: &Symbols,
    settings: &SimBrokerSettings,
    sid: usize,
    bid: u64,
    ask: u64,
    now: u64,
) -> (msgs: Vec<BrokerResult>)
    requires
        old(ledger).wf(),
        symbols.wf(),
    ensures
        final(ledger).wf(),
        old(ledger).closed_preserved(*final(ledger)),
        final(ledger).starting_balance == old(ledger).starting_balance,
        ({
            let fp = fill_pred(sid, bid, ask);
            let cp = close_pred(sid, bid, ask);
            let pending0 = old(ledger).pending_positions@;
            let open0 = old(ledger).open_positions@;
            let mid = open0 + pending0.filter(fp).map_values(fill_map(bid, ask, now));
            let closes = mid.filter(cp);
            &&& final(ledger).pending_positions@ == pending0.filter(keep_pred(sid, bid, ask))
            &&& final(ledger).open_positions@ == mid.filter(keep_open_pred(sid, bid, ask))
            &&& final(ledger).closed_positions@ == old(ledger).closed_positions@
                + closes.map_values(close_map(bid, ask, now))
            &&& final(ledger).balance == apply_credits(
                symbols.symbols@,
                *settings,
                old(ledger).balance,
                closes,
            )
            &&& msgs@ == pending0.filter(fp).map_values(fill_msg(bid, ask, now))
                + closes.map_values(close_msg(bid, ask, now))
        }),
        forall|k: u64| #[trigger]
            seq_has_key(final(ledger).pending_positions@, k) ==> seq_has_key(
                old(ledger).pending_positions@,
                k,
            ) && final(ledger).pending_positions.as_map()[k] == old(
                ledger,
            ).pending_positions.as_map()[k],
        forall|k: u64| #[trigger]
            seq_has_key(final(ledger).open_positions@, k) ==> (seq_has_key(
                old(ledger).open_positions@,
                k,
            ) && final(ledger).open_positions.as_map()[k].pos.symbol_id == old(
                ledger,
            ).open_positions.as_map()[k].pos.symbol_id) || (seq_has_key(
                old(ledger).pending_positions@,
                k,
            ) && final(ledger).open_positions.as_map()[k].pos.symbol_id == old(
                ledger,
            ).pending_positions.as_map()[k].pos.symbol_id),
        forall|k: u64| #[trigger]
            seq_has_key(final(ledger).closed_positions@, k) ==> seq_has_key(
                old(ledger).closed_positions@,
                k,
            ) || seq_has_key(old(ledger).open_positions@, k) || seq_has_key(
                old(ledger).pending_positions@,
                k,
            ),
{
    let ghost fp = fill_pred(sid, bid, ask);
    let ghost kp = keep_pred(sid, bid, ask);
    let ghost cp = close_pred(sid, bid, ask);
    let ghost kop = keep_open_pred(sid, bid, ask);
    let ghost fm = fill_map(bid, ask, now);
    let ghost fmsg = fill_msg(bid, ask, now);
    let ghost cm = close_map(bid, ask, now);
    let ghost cmsg = close_msg(bid, ask, now);
    let ghost s = old(ledger).pending_positions@;
    let ghost open0 = old(ledger).open_positions@;
    let ghost closed0 = old(ledger).closed_positions@;
    let ghost b0 = old(ledger).balance;

    let mut msgs: Vec<BrokerResult> = Vec::new();
    let mut new_pending: Vec<(u64, PosEntry)> = Vec::new();
    let n = ledger.pending_positions.len();
    let mut i: usize = 0;
    proof {
        assert(s.take(0) =~= Seq::<(u64, PosEntry)>::empty());
        reveal(Seq::filter);
    }
    while i < n
        invariant
            old(ledger).wf(),
            symbols.wf(),
            n == s.len(),
            i <= n,
            fp == fill_pred(sid, bid, ask),
            kp == keep_pred(sid, bid, ask),
            fm == fill_map(bid, ask, now),
            fmsg == fill_msg(bid, ask, now),
            s == old(ledger).pending_positions@,
            open0 == old(ledger).open_positions@,
            closed0 == old(ledger).closed_positions@,
            b0 == old(ledger).balance,
            ledger.pending_positions == old(ledger).pending_positions,
            ledger.closed_positions == old(ledger).closed_positions,
            ledger.balance == old(ledger).balance,
            ledger.starting_balance == old(ledger).starting_balance,
            ledger.realized@ == old(ledger).realized@,
            new_pending@ == s.take(i as int).filter(kp),
            ledger.open_positions@ == open0 + s.take(i as int).filter(fp).map_values(fm),
            msgs@ == s.take(i as int).filter(fp).map_values(fmsg),
            ledger.open_positions.wf(),
            forall|k: u64| #[trigger]
                seq_has_key(ledger.open_positions@, k) ==> seq_has_key(open0, k) || seq_has_key(
                    s.take(i as int),
                    k,
                ),
            forall|j: int|
                0 <= j < ledger.open_positions@.len() ==> (
                #[trigger] ledger.open_positions@[j]).1.pos.is_open(),
            sum_margins(new_pending@) + sum_margins(ledger.open_positions@) == sum_margins(open0)
                + sum_margins(s.take(i as int)),
            keys_unique(new_pending@),
            forall|k: u64| #[trigger]
                seq_has_key(new_pending@, k) ==> seq_has_key(s.take(i as int), k),
            forall|k: u64| !(#[trigger] seq_has_key(new_pending@, k) && seq_has_key(
                ledger.open_positions@,
                k,
            )),
        decreases n - i,
    {
        let (id, e) = ledger.pending_positions.entry_at(i);
        proof {
            assert((id, e) == s[i as int]);
            assert(e.pos.is_pending());
            assert(s.take(i + 1).drop_last() =~= s.take(i as int));
            assert(s.take(i + 1).last() == s[i as int]);
            assert(s.take(i + 1) =~= s.take(i as int).push(s[i as int]));
            reveal(Seq::filter);
            crate::posmap::lemma_seq_as_map_push(s.take(i as int), id, e);
        }
        let mut filled_here = false;
        if e.pos.symbol_id == sid {
            match e.pos.is_open_satisfied(bid, ask) {
                Some(fill_price) => {
                    filled_here = true;
                    let filled = PosEntry {
                        pos: Position {
                            execution_time: Some(now),
                            execution_price: Some(fill_price),
                            ..e.pos
                        },
                        margin: e.margin,
                    };
                    proof {
                        assert(fp(s[i as int]));
                        assert(fm(s[i as int]) == (id, filled));
                        assert(!seq_has_key(open0, id)) by {
                            if seq_has_key(open0, id) {
                                assert(seq_has_key(s, id));
                            }
                        }
                        assert(!seq_has_key(s.take(i as int), id)) by {
                            if seq_has_key(s.take(i as int), id) {
                                let j = choose|j: int|
                                    0 <= j < s.take(i as int).len() && s.take(i as int)[j].0 == id;
                                assert(s[j].0 == s[i as int].0);
                            }
                        }
                        assert(s.take(i + 1).filter(fp) =~= s.take(i as int).filter(fp).push(
                            s[i as int],
                        ));
                        assert(s.take(i + 1).filter(kp) =~= s.take(i as int).filter(kp));
                        assert(s.take(i + 1).filter(fp).map_values(fm) =~= s.take(
                            i as int,
                        ).filter(fp).map_values(fm).push(fm(s[i as int])));
                        assert(s.take(i + 1).filter(fp).map_values(fmsg) =~= s.take(
                            i as int,
                        ).filter(fp).map_values(fmsg).push(fmsg(s[i as int])));
                        assert(!seq_has_key(new_pending@, id));
                    }
                    ledger.open_positions.insert(id, filled);
                    msgs.push(
                        Ok(
                            BrokerMessage::PositionOpened {
                                position_id: id,
                                position: filled.pos,
                                timestamp: now,
                            },
                        ),
                    );
                },
                None => {},
            }
        }
        if !filled_here {
            proof {
                assert(kp(s[i as int]));
                assert(s.take(i + 1).filter(kp) =~= s.take(i as int).filter(kp).push(s[i as int]));
                assert(s.take(i + 1).filter(fp) =~= s.take(i as int).filter(fp));
                assert(!seq_has_key(s.take(i as int), id)) by {
                    if seq_has_key(s.take(i as int), id) {
                        let j = choose|j: int|
                            0 <= j < s.take(i as int).len() && s.take(i as int)[j].0 == id;
                        assert(s[j].0 == s[i as int].0);
                    }
                }
                assert(seq_has_key(s, id));
                assert(!seq_has_key(open0, id));
                assert(!seq_has_key(ledger.open_positions@, id));
                crate::posmap::lemma_seq_as_map_push(new_pending@, id, e);
            }
            let ghost np0 = new_pending@;
            new_pending.push((id, e));
            proof {
                let np = new_pending@;
                assert forall|a: int, b: int| 0 <= a < b < np.len() implies np[a].0 != np[b].0 by {
                    if b < np0.len() {
                        assert(np[a] == np0[a] && np[b] == np0[b]);
                    } else {
                        assert(np[a] == np0[a]);
                        if np0[a].0 == id {
                            assert(seq_has_key(np0, id));
                        }
                    }
                }
                assert forall|k: u64| #[trigger] seq_has_key(np, k) implies seq_has_key(
                    s.take(i + 1),
                    k,
                ) by {
                    let a = choose|a: int| 0 <= a < np.len() && np[a].0 == k;
                    if a < np0.len() {
                        assert(np0[a].0 == k);
                        assert(seq_has_key(np0, k));
                        let c = choose|c: int| 0 <= c < s.take(i as int).len() && s.take(i as int)[c].0 == k;
                        assert(s.take(i + 1)[c].0 == k);
                    } else {
                        assert(s.take(i + 1)[i as int].0 == k);
                    }
                }
                assert forall|k: u64| #[trigger] seq_has_key(np, k) implies seq_has_key(np0, k) || k
                    == id by {
                    let a = choose|a: int| 0 <= a < np.len() && np[a].0 == k;
                    if a < np0.len() {
                        assert(np0[a].0 == k);
                    }
                }
            }
        }
        proof {
            if filled_here {
            } else {
                assert(s.take(i + 1).filter(fp).map_values(fm) =~= s.take(i as int).filter(
                    fp,
                ).map_values(fm));
                assert(s.take(i + 1).filter(fp).map_values(fmsg) =~= s.take(i as int).filter(
                    fp,
                ).map_values(fmsg));
            }
        }
        i = i + 1;
    }
    proof {
        assert(s.take(n as int) =~= s);
    }
    ledger.pending_positions = PosMap::from_entries(new_pending);

    // Close phase: evaluate the open collection, the fresh fills included.
    let ghost mid = ledger.open_positions@;
    let m = ledger.open_positions.len();
    let mut new_open: Vec<(u64, PosEntry)> = Vec::new();
    let mut j: usize = 0;
    proof {
        assert(mid.take(0) =~= Seq::<(u64, PosEntry)>::empty());
    }
    while j < m
        invariant
            symbols.wf(),
            m == mid.len(),
            j <= m,
            cp == close_pred(sid, bid, ask),
            kop == keep_open_pred(sid, bid, ask),
            cm == close_map(bid, ask, now),
            cmsg == close_msg(bid, ask, now),
            ledger.open_positions@ == mid,
            ledger.open_positions.wf(),
            ledger.pending_positions@ == s.filter(kp),
            ledger.pending_positions.wf(),
            ledger.starting_balance == old(ledger).starting_balance,
            forall|a: int| 0 <= a < mid.len() ==> (#[trigger] mid[a]).1.pos.is_open(),
            forall|k: u64| #[trigger]
                seq_has_key(mid, k) ==> seq_has_key(open0, k) || seq_has_key(s, k),
            forall|k: u64| !(#[trigger] seq_has_key(ledger.pending_positions@, k) && seq_has_key(
                mid,
                k,
            )),
            forall|k: u64| #[trigger] seq_has_key(ledger.pending_positions@, k) ==> seq_has_key(s, k),
            forall|k: u64| !(#[trigger] seq_has_key(closed0, k) && (seq_has_key(open0, k)
                || seq_has_key(s, k))),
            forall|k: u64| !(#[trigger] seq_has_key(closed0, k) && seq_has_key(
                ledger.pending_positions@,
                k,
            )),
            new_open@ == mid.take(j as int).filter(kop),
            ledger.closed_positions@ == closed0 + mid.take(j as int).filter(cp).map_values(cm),
            ledger.closed_positions.wf(),
            msgs@ == s.filter(fp).map_values(fmsg) + mid.take(j as int).filter(cp).map_values(cmsg),
            ledger.balance == apply_credits(
                symbols.symbols@,
                *settings,
                b0,
                mid.take(j as int).filter(cp),
            ),
            keys_unique(new_open@),
            forall|k: u64| #[trigger]
                seq_has_key(new_open@, k) ==> seq_has_key(mid.take(j as int), k),
            forall|k: u64| #[trigger]
                seq_has_key(ledger.closed_positions@, k) ==> seq_has_key(closed0, k)
                    || seq_has_key(mid.take(j as int), k),
            forall|a: int|
                0 <= a < ledger.closed_positions@.len() ==> (
                #[trigger] ledger.closed_positions@[a]).1.pos.is_closed(),
        decreases m - j,
    {
        let (id, e) = ledger.open_positions.entry_at(j);
        proof {
            assert((id, e) == mid[j as int]);
            assert(e.pos.is_open());
            assert(mid.take(j + 1).drop_last() =~= mid.take(j as int));
            assert(mid.take(j + 1).last() == mid[j as int]);
            assert(mid.take(j + 1) =~= mid.take(j as int).push(mid[j as int]));
            reveal(Seq::filter);
            assert(!seq_has_key(mid.take(j as int), id)) by {
                if seq_has_key(mid.take(j as int), id) {
                    let a = choose|a: int|
                        0 <= a < mid.take(j as int).len() && mid.take(j as int)[a].0 == id;
                    assert(mid[a].0 == mid[j as int].0);
                }
            }
        }
        let mut closed_here = false;
        if e.pos.symbol_id == sid {
            match e.pos.is_close_satisfied(bid, ask) {
                Some((close_price, reason)) => {
                    closed_here = true;
                    let closed = PosEntry {
                        pos: Position {
                            exit_time: Some(now),
                            exit_price: Some(close_price),
                            ..e.pos
                        },
                        margin: e.margin,
                    };
                    let credit: u64 = match position_value(symbols, settings, &e.pos) {
                        Ok(v) => v,
                        Err(_) => e.margin,
                    };
                    proof {
                        assert(cp(mid[j as int]));
                        assert(cm(mid[j as int]) == (id, closed));
                        assert(credit == credit_of(symbols.symbols@, *settings, mid[j as int]));
                        assert(seq_has_key(mid, id));
                        assert(!seq_has_key(closed0, id));
                        assert(mid.take(j + 1).filter(cp) =~= mid.take(j as int).filter(cp).push(
                            mid[j as int],
                        ));
                        assert(mid.take(j + 1).filter(kop) =~= mid.take(j as int).filter(kop));
                        assert(mid.take(j + 1).filter(cp).map_values(cm) =~= mid.take(
                            j as int,
                        ).filter(cp).map_values(cm).push(cm(mid[j as int])));
                        assert(mid.take(j + 1).filter(cp).map_values(cmsg) =~= mid.take(
                            j as int,
                        ).filter(cp).map_values(cmsg).push(cmsg(mid[j as int])));
                        let q = mid.take(j as int).filter(cp);
                        assert(q.push(mid[j as int]).drop_last() =~= q);
                        assert(q.push(mid[j as int]).last() == mid[j as int]);
                        assert(apply_credits(symbols.symbols@, *settings, b0, q.push(mid[j as int]))
                            == if apply_credits(symbols.symbols@, *settings, b0, q) + credit_of(
                            symbols.symbols@,
                            *settings,
                            mid[j as int],
                        ) <= u64::MAX {
                            (apply_credits(symbols.symbols@, *settings, b0, q) + credit_of(
                                symbols.symbols@,
                                *settings,
                                mid[j as int],
                            )) as u64
                        } else {
                            u64::MAX
                        });
                    }
                    ledger.balance = match ledger.balance.checked_add(credit) {
                        Some(b) => b,
                        None => u64::MAX,
                    };
                    ledger.closed_positions.insert(id, closed);
                    msgs.push(
                        Ok(
                            BrokerMessage::PositionClosed {
                                position_id: id,
                                position: closed.pos,
                                reason,
                                timestamp: now,
                            },
                        ),
                    );
                },
                None => {},
            }
        }
        if !closed_here {
            proof {
                assert(kop(mid[j as int]));
                assert(mid.take(j + 1).filter(kop) =~= mid.take(j as int).filter(kop).push(
                    mid[j as int],
                ));
                assert(mid.take(j + 1).filter(cp) =~= mid.take(j as int).filter(cp));
                crate::posmap::lemma_seq_as_map_push(mid.take(j as int), id, e);
            }
            let ghost no0 = new_open@;
            new_open.push((id, e));
            proof {
                let no = new_open@;
                assert forall|a: int, b: int| 0 <= a < b < no.len() implies no[a].0 != no[b].0 by {
                    if b < no0.len() {
                        assert(no[a] == no0[a] && no[b] == no0[b]);
                    } else {
                        assert(no[a] == no0[a]);
                        if no0[a].0 == id {
                            assert(seq_has_key(no0, id));
                        }
                    }
                }
                assert forall|k: u64| #[trigger] seq_has_key(no, k) implies seq_has_key(
                    mid.take(j + 1),
                    k,
                ) by {
                    let a = choose|a: int| 0 <= a < no.len() && no[a].0 == k;
                    if a < no0.len() {
                        assert(no0[a].0 == k);
                        assert(seq_has_key(no0, k));
                        let c = choose|c: int| 0 <= c < mid.take(j as int).len() && mid.take(j as int)[c].0 == k;
                        assert(mid.take(j + 1)[c].0 == k);
                    } else {
                        assert(mid.take(j + 1)[j as int].0 == k);
                    }
                }
            }
        }
        proof {
            if closed_here {
            } else {
                assert(mid.take(j + 1).filter(cp).map_values(cm) =~= mid.take(j as int).filter(
                    cp,
                ).map_values(cm));
                assert(mid.take(j + 1).filter(cp).map_values(cmsg) =~= mid.take(j as int).filter(
                    cp,
                ).map_values(cmsg));
            }
        }
        j = j + 1;
    }
    proof {
        assert(mid.take(m as int) =~= mid);
    }
    ledger.open_positions = PosMap::from_entries(new_open);
    proof {
        ledger.realized@ = ledger.balance + sum_margins(ledger.pending_positions@) + sum_margins(
            ledger.open_positions@,
        ) - ledger.starting_balance;
    }
    proof {
        assert(mid == open0 + s.filter(fp).map_values(fm));
        lemma_tick_finish(
            s,
            open0,
            closed0,
            ledger.pending_positions@,
            ledger.open_positions@,
            ledger.closed_positions@,
            mid,
            sid,
            bid,
            ask,
            now,
        );
        crate::posmap::lemma_seq_as_map(s);
        crate::posmap::lemma_seq_as_map(open0);
        crate::posmap::lemma_seq_as_map(ledger.pending_positions@);
        crate::posmap::lemma_seq_as_map(ledger.open_positions@);
    }
    msgs
}

/// The push notifications one ledger emits for a quote.
pub open spec fn ledger_tick_msgs(
    l: Ledger,
    sid: usize,
    bid: u64,
    ask: u64,
    now: u64,
) -> Seq<BrokerResult> {
    let mid = l.open_positions@ + l.pending_positions@.filter(fill_pred(sid, bid, ask)).map_values(
        fill_map(bid, ask, now),
    );
    l.pending_positions@.filter(fill_pred(sid, bid, ask)).map_values(fill_msg(bid, ask, now))
        + mid.filter(close_pred(sid, bid, ask)).map_values(close_msg(bid, ask, now))
}

/// The ledger relation `tick_ledger` establishes, stated between a
/// before- and an after-state.
pub open spec fn ledger_ticked(
    l0: Ledger,
    l1: Ledger,
    symbols: Seq<Symbol>,
    settings: SimBrokerSettings,
    sid: usize,
    bid: u64,
    ask: u64,
    now: u64,
) -> bool {
    let fp = fill_pred(sid, bid, ask);
    let cp = close_pred(sid, bid, ask);
    let mid = l0.open_positions@ + l0.pending_positions@.filter(fp).map_values(
        fill_map(bid, ask, now),
    );
    &&& l1.pending_positions@ == l0.pending_positions@.filter(keep_pred(sid, bid, ask))
    &&& l1.open_positions@ == mid.filter(keep_open_pred(sid, bid, ask))
    &&& l1.closed_positions@ == l0.closed_positions@ + mid.filter(cp).map_values(
        close_map(bid, ask, now),
    )
    &&& l1.balance == apply_credits(symbols, settings, l0.balance, mid.filter(cp))
    &&& l1.starting_balance == l0.starting_balance
    &&& l0.closed_preserved(l1)
}

/// The push notifications all accounts emit for a quote, in account
/// order.
pub open spec fn accounts_tick_msgs(
    accounts: Seq<Account>,
    sid: usize,
    bid: u64,
    ask: u64,
    now: u64,
) -> Seq<BrokerResult>
    decreases accounts.len(),
{
    if accounts.len() == 0 {
        Seq::empty()
    } else {
        accounts_tick_msgs(accounts.drop_last(), sid, bid, ask, now) + ledger_tick_msgs(
            accounts.last().ledger,
            sid,
            bid,
            ask,
            now,
        )
    }
}

impl SimBroker {
    /// Evaluates every account's positions against a fresh quote: fills
    /// pending orders the quote satisfies and closes open positions it
    /// triggers, returning all push notifications in account order.
    pub fn tick_positions(&mut self, sid: usize, bid: u64, ask: u64, now: u64) -> (msgs: Vec<
        BrokerResult,
    >)
        requires
            old(self).wf(),
            sid < old(self).symbols.symbols@.len(),
        ensures
            final(self).wf(),
            final(self).symbols == old(self).symbols,
            final(self).pq@ == old(self).pq@,
            final(self).timestamp == old(self).timestamp,
            final(self).delivered@ == old(self).delivered@,
            final(self).next_position_id == old(self).next_position_id,
            final(self).settings == old(self).settings,
            final(self).account_id == old(self).account_id,
            final(self).accounts.data@.len() == old(self).accounts.data@.len(),
            forall|a: int|
                0 <= a < old(self).accounts.data@.len() ==> (
                #[trigger] final(self).accounts.data@[a]).uuid == old(self).accounts.data@[a].uuid
                    && final(self).accounts.data@[a].live == old(self).accounts.data@[a].live
                    && ledger_ticked(
                    old(self).accounts.data@[a].ledger,
                    final(self).accounts.data@[a].ledger,
                    old(self).symbols.symbols@,
                    old(self).settings,
                    sid,
                    bid,
                    ask,
                    now,
                ),
            msgs@ == accounts_tick_msgs(old(self).accounts.data@, sid, bid, ask, now),
    {
        let ghost accounts0 = self.accounts.data@;
        let mut msgs: Vec<BrokerResult> = Vec::new();
        let count = self.accounts.data.len();
        let mut a: usize = 0;
        proof {
            assert(accounts0.take(0) =~= Seq::<Account>::empty());
        }
        while a < count
            invariant
                old(self).wf(),
                sid < old(self).symbols.symbols@.len(),
                count == accounts0.len(),
                a <= count,
                accounts0 == old(self).accounts.data@,
                self.symbols == old(self).symbols,
                self.pq@ == old(self).pq@,
                self.timestamp == old(self).timestamp,
                self.delivered@ == old(self).delivered@,
                self.next_position_id == old(self).next_position_id,
                self.settings == old(self).settings,
                self.account_id == old(self).account_id,
                self.accounts.data@.len() == accounts0.len(),
                forall|b: int|
                    a <= b < accounts0.len() ==> #[trigger] self.accounts.data@[b] == accounts0[b],
                forall|b: int|
                    0 <= b < a ==> (#[trigger] self.accounts.data@[b]).uuid == accounts0[b].uuid
                        && self.accounts.data@[b].live == accounts0[b].live && ledger_ticked(
                        accounts0[b].ledger,
                        self.accounts.data@[b].ledger,
                        old(self).symbols.symbols@,
                        old(self).settings,
                        sid,
                        bid,
                        ask,
                        now,
                    ),
                forall|b: int|
                    0 <= b < accounts0.len() ==> (#[trigger] self.accounts.data@[b]).ledger.wf()
                        && self.ledger_ids_wf(self.accounts.data@[b].ledger),
                msgs@ == accounts_tick_msgs(accounts0.take(a as int), sid, bid, ask, now),
            decreases count - a,
        {
            let ghost pre = *self;
            let mut acct = self.accounts.data.remove(a);
            let ghost l0 = acct.ledger;
            let mut acct_msgs = tick_ledger(
                &mut acct.ledger,
                &self.symbols,
                &self.settings,
                sid,
                bid,
                ask,
                now,
            );
            let ghost l1 = acct.ledger;
            self.accounts.data.insert(a, acct);
            msgs.append(&mut acct_msgs);
            proof {
                assert(self.accounts.data@ =~= pre.accounts.data@.update(
                    a as int,
                    self.accounts.data@[a as int],
                ));
                assert(accounts0.take(a + 1).drop_last() =~= accounts0.take(a as int));
                assert(accounts0.take(a + 1).last() == accounts0[a as int]);
                assert(msgs@ == accounts_tick_msgs(accounts0.take(a + 1), sid, bid, ask, now));
                // id bookkeeping survives the rewrite
                assert(self.ledger_ids_wf(l1)) by {
                    assert(pre.ledger_ids_wf(l0));
                    crate::posmap::lemma_seq_as_map(l0.pending_positions@);
                    crate::posmap::lemma_seq_as_map(l0.open_positions@);
                    crate::posmap::lemma_seq_as_map(l1.pending_positions@);
                    crate::posmap::lemma_seq_as_map(l1.open_positions@);
                    assert forall|k: u64| #[trigger] seq_has_key(l1.pending_positions@, k) implies k
                        < self.next_position_id && l1.pending_positions.as_map()[k].pos.symbol_id
                        < self.symbols.symbols@.len() by {
                        assert(seq_has_key(l0.pending_positions@, k));
                    }
                    assert forall|k: u64| #[trigger] seq_has_key(l1.open_positions@, k) implies k
                        < self.next_position_id && l1.open_positions.as_map()[k].pos.symbol_id
                        < self.symbols.symbols@.len() by {
                        assert(seq_has_key(l0.open_positions@, k) || seq_has_key(
                            l0.pending_positions@,
                            k,
                        ));
                    }
                    assert forall|k: u64| #[trigger] seq_has_key(l1.closed_positions@, k) implies k
                        < self.next_position_id by {
                        assert(seq_has_key(l0.closed_positions@, k) || seq_has_key(
                            l0.open_positions@,
                            k,
                        ) || seq_has_key(l0.pending_positions@, k));
                    }
                }
            }
            a = a + 1;
        }
        proof {
            assert(accounts0.take(count as int) =~= accounts0);
            assert forall|x: int, y: int| 0 <= x < y < self.accounts.data@.len() implies (
            #[trigger] self.accounts.data@[x]).uuid != (#[trigger] self.accounts.data@[y]).uuid by {
                assert(self.accounts.data@[x].uuid == accounts0[x].uuid);
                assert(self.accounts.data@[y].uuid == accounts0[y].uuid);
            }
        }
        msgs
    }
}

/// Does an item occur in a queue view?
pub open spec fn queue_has(s: Seq<QueueItem>, item: QueueItem) -> bool {
    exists|i: int| 0 <= i < s.len() && s[i] == item
}

/// The simulated instant at which a delivery reaches the client.
pub open spec fn delivery_time(d: Delivery) -> u64 {
    match d {
        Delivery::Tick { time, .. } => time,
        Delivery::Reply { time, .. } => time,
        Delivery::Push { time, .. } => time,
    }
}

/// Inserting into a sorted queue keeps every item and adds the new one.
proof fn lemma_push_membership(s0: Seq<QueueItem>, s1: Seq<QueueItem>, item: QueueItem, p: int)
    requires
        0 <= p <= s0.len(),
        s1 == s0.take(p) + seq![item] + s0.skip(p),
    ensures
        forall|x: QueueItem| #[trigger] queue_has(s1, x) <==> queue_has(s0, x) || x == item,
{
    assert forall|x: QueueItem| #[trigger] queue_has(s1, x) <==> queue_has(s0, x) || x == item by {
        if queue_has(s1, x) {
            let i = choose|i: int| 0 <= i < s1.len() && s1[i] == x;
            if i < p {
                assert(s0[i] == x);
            } else if i > p {
                assert(s0[i - 1] == x);
            }
        }
        if queue_has(s0, x) {
            let i = choose|i: int| 0 <= i < s0.len() && s0[i] == x;
            if i < p {
                assert(s1[i] == x);
            } else {
                assert(s1[i + 1] == x);
            }
        }
        if x == item {
            assert(s1[p] == x);
        }
    }
}

impl SimBroker {
    /// Seeds the timeline with the first tick of every registered
    /// symbol's data, consuming it from the symbol.
    pub fn init_queue(&mut self)
        requires
            old(self).wf(),
            old(self).pq@.len() == 0,
            old(self).timestamp == 0,
        ensures
            final(self).wf(),
            final(self).accounts == old(self).accounts,
            final(self).settings == old(self).settings,
            final(self).timestamp == old(self).timestamp,
            final(self).delivered@ == old(self).delivered@,
            final(self).next_position_id == old(self).next_position_id,
            final(self).account_id == old(self).account_id,
            final(self).symbols.symbols@.len() == old(self).symbols.symbols@.len(),
            forall|i: int|
                0 <= i < old(self).symbols.symbols@.len() ==> {
                    let sym0 = old(self).symbols.symbols@[i];
                    let sym1 = #[trigger] final(self).symbols.symbols@[i];
                    &&& sym1.name == sym0.name
                    &&& sym1.price == sym0.price
                    &&& sym1.is_fx == sym0.is_fx
                    &&& sym1.decimal_precision == sym0.decimal_precision
                    &&& sym1.ticks@ == sym0.ticks@
                    &&& sym1.cursor == sym0.cursor + (if sym0.peek_tick() is Some {
                        1int
                    } else {
                        0int
                    })
                },
            forall|i: int|
                0 <= i < old(self).symbols.symbols@.len() && (#[trigger] old(
                    self,
                ).symbols.symbols@[i]).peek_tick() is Some ==> queue_has(
                    final(self).pq@,
                    QueueItem {
                        timestamp: old(self).symbols.symbols@[i].peek_tick()->0.timestamp,
                        unit: WorkUnit::NewTick {
                            symbol_id: i as usize,
                            tick: old(self).symbols.symbols@[i].peek_tick()->0,
                        },
                    },
                ),
            forall|x: QueueItem| #[trigger]
                queue_has(final(self).pq@, x) ==> (exists|i: int|
                    0 <= i < old(self).symbols.symbols@.len() && (#[trigger] old(
                        self,
                    ).symbols.symbols@[i]).peek_tick() is Some && x == (QueueItem {
                        timestamp: old(self).symbols.symbols@[i].peek_tick()->0.timestamp,
                        unit: WorkUnit::NewTick {
                            symbol_id: i as usize,
                            tick: old(self).symbols.symbols@[i].peek_tick()->0,
                        },
                    })),
    {
        let ghost syms0 = self.symbols.symbols@;
        let count = self.symbols.len();
        let mut i: usize = 0;
        while i < count
            invariant
                old(self).wf(),
                old(self).timestamp == 0,
                count == syms0.len(),
                i <= count,
                syms0 == old(self).symbols.symbols@,
                self.accounts == old(self).accounts,
                self.settings == old(self).settings,
                self.timestamp == old(self).timestamp,
                self.delivered@ == old(self).delivered@,
                self.next_position_id == old(self).next_position_id,
                self.account_id == old(self).account_id,
                self.wf(),
                self.symbols.symbols@.len() == syms0.len(),
                forall|b: int|
                    i <= b < syms0.len() ==> #[trigger] self.symbols.symbols@[b] == syms0[b],
                forall|b: int|
                    0 <= b < i ==> {
                        let sym0 = syms0[b];
                        let sym1 = #[trigger] self.symbols.symbols@[b];
                        &&& sym1.name == sym0.name
                        &&& sym1.price == sym0.price
                        &&& sym1.is_fx == sym0.is_fx
                        &&& sym1.decimal_precision == sym0.decimal_precision
                        &&& sym1.ticks@ == sym0.ticks@
                        &&& sym1.cursor == sym0.cursor + (if sym0.peek_tick() is Some {
                            1int
                        } else {
                            0int
                        })
                    },
                forall|b: int|
                    0 <= b < i && (#[trigger] syms0[b]).peek_tick() is Some ==> (queue_has(
                        self.pq@,
                        QueueItem {
                            timestamp: syms0[b].peek_tick()->0.timestamp,
                            unit: WorkUnit::NewTick {
                                symbol_id: b as usize,
                                tick: syms0[b].peek_tick()->0,
                            },
                        },
                    )),
                forall|x: QueueItem| #[trigger]
                    queue_has(self.pq@, x) ==> (exists|b: int|
                        0 <= b < i && (#[trigger] syms0[b]).peek_tick() is Some && x == (QueueItem {
                            timestamp: syms0[b].peek_tick()->0.timestamp,
                            unit: WorkUnit::NewTick {
                                symbol_id: b as usize,
                                tick: syms0[b].peek_tick()->0,
                            },
                        })),
            decreases count - i,
        {
            match self.symbols.peek_of(i) {
                Some(t) => {
                    proof {
                        assert(self.symbols.symbols@[i as int] == syms0[i as int]);
                        assert(syms0[i as int].wf());
                    }
                    let taken = self.symbols.next_of(i);
                    let item = QueueItem {
                        timestamp: t.timestamp,
                        unit: WorkUnit::NewTick { symbol_id: i, tick: t },
                    };
                    proof {
                        assert(taken == Some(t));
                        assert(self.symbols.symbols@[i as int].ticks@ == syms0[i as int].ticks@);
                        assert(self.symbols.symbols@[i as int].cursor == syms0[i as int].cursor
                            + 1);
                        crate::queue::lemma_insert_pos(self.pq@, t.timestamp);
                    }
                    let ghost q0 = self.pq@;
                    self.pq.push(item);
                    proof {
                        lemma_push_membership(
                            q0,
                            self.pq@,
                            item,
                            insert_pos(q0, item.timestamp),
                        );
                        let s = self.pq@;
                        assert forall|a: int| 0 <= a < s.len() implies item_wf(
                            #[trigger] s[a],
                            self.symbols.symbols@,
                        ) && s[a].timestamp >= self.timestamp by {
                            assert(queue_has(s, s[a]));
                            if s[a] == item {
                                assert(self.symbols.symbols@[i as int].ticks@ == syms0[
                                    i as int
                                ].ticks@);
                            } else {
                                assert(queue_has(q0, s[a]));
                                let b = choose|b: int|
                                    0 <= b < i && (#[trigger] syms0[b]).peek_tick() is Some && s[a]
                                        == (QueueItem {
                                        timestamp: syms0[b].peek_tick()->0.timestamp,
                                        unit: WorkUnit::NewTick {
                                            symbol_id: b as usize,
                                            tick: syms0[b].peek_tick()->0,
                                        },
                                    });
                                assert(syms0[b].wf());
                                let tick = syms0[b].peek_tick()->0;
                                assert(tick == syms0[b].ticks@[syms0[b].cursor as int]);
                                let sym1 = self.symbols.symbols@[b];
                                assert(sym1.ticks@ == syms0[b].ticks@ && sym1.cursor == syms0[
                                    b
                                ].cursor + 1);
                                if sym1.cursor < sym1.ticks@.len() {
                                    assert(sym1.peek_tick()->0.timestamp >= tick.timestamp);
                                }
                                assert(item_wf(s[a], self.symbols.symbols@));
                            }
                        }
                    }
                },
                None => {},
            }
            i = i + 1;
        }
    }
}

/// A response to a reply slot, scheduled on the timeline.
pub open spec fn response_item(ts: u64, slot: u64, res: BrokerResult) -> QueueItem {
    QueueItem { timestamp: ts, unit: WorkUnit::Response { slot: Some(slot), result: res } }
}

/// A push notification, scheduled on the timeline.
pub open spec fn push_item(ts: u64, res: BrokerResult) -> QueueItem {
    QueueItem { timestamp: ts, unit: WorkUnit::Response { slot: None, result: res } }
}

/// A queue with one item inserted after every item at or before its
/// timestamp — exactly what `SimulationQueue::push` does.
pub open spec fn queue_insert(s: Seq<QueueItem>, item: QueueItem) -> Seq<QueueItem> {
    s.take(insert_pos(s, item.timestamp)) + seq![item] + s.skip(insert_pos(s, item.timestamp))
}

/// A queue with a push notification inserted for each result in order,
/// all at one instant.
pub open spec fn insert_pushes(s: Seq<QueueItem>, msgs: Seq<BrokerResult>, ts: u64) -> Seq<
    QueueItem,
>
    decreases msgs.len(),
{
    if msgs.len() == 0 {
        s
    } else {
        insert_pushes(queue_insert(s, push_item(ts, msgs[0])), msgs.skip(1), ts)
    }
}

/// Inserting the pushes of an extended batch is inserting the batch and
/// then the extra one.
proof fn lemma_insert_pushes_push(s: Seq<QueueItem>, msgs: Seq<BrokerResult>, x: BrokerResult, ts: u64)
    ensures
        insert_pushes(s, msgs.push(x), ts) == queue_insert(insert_pushes(s, msgs, ts), push_item(ts, x)),
    decreases msgs.len(),
{
    if msgs.len() == 0 {
        let one = msgs.push(x);
        assert(one[0] == x);
        assert(one.skip(1).len() == 0);
        assert(insert_pushes(s, one, ts) == insert_pushes(
            queue_insert(s, push_item(ts, x)),
            one.skip(1),
            ts,
        ));
        assert(insert_pushes(queue_insert(s, push_item(ts, x)), one.skip(1), ts) == queue_insert(
            s,
            push_item(ts, x),
        ));
        assert(insert_pushes(s, msgs, ts) == s);
    } else {
        let ext = msgs.push(x);
        assert(ext[0] == msgs[0]);
        assert(ext.skip(1) =~= msgs.skip(1).push(x));
        assert(insert_pushes(s, ext, ts) == insert_pushes(
            queue_insert(s, push_item(ts, msgs[0])),
            ext.skip(1),
            ts,
        ));
        assert(insert_pushes(s, msgs, ts) == insert_pushes(
            queue_insert(s, push_item(ts, msgs[0])),
            msgs.skip(1),
            ts,
        ));
        lemma_insert_pushes_push(queue_insert(s, push_item(ts, msgs[0])), msgs.skip(1), x, ts);
    }
}

/// The instants at which a batch of deliveries reaches the client.
pub open spec fn delivery_times(s: Seq<Delivery>) -> Seq<u64> {
    s.map_values(|d: Delivery| delivery_time(d))
}

/// An exact copy of a broker result.
pub fn clone_result(r: &BrokerResult) -> (c: BrokerResult)
    ensures
        c == *r,
{
    match r {
        Ok(m) => Ok(*m),
        Err(e) => Err(
            match e {
                BrokerError::Message { message } => BrokerError::Message {
                    message: message.clone(),
                },
                BrokerError::Unimplemented { message } => BrokerError::Unimplemented {
                    message: message.clone(),
                },
                BrokerError::InsufficientBuyingPower => BrokerError::InsufficientBuyingPower,
                BrokerError::NoSuchPosition => BrokerError::NoSuchPosition,
                BrokerError::NoSuchAccount => BrokerError::NoSuchAccount,
                BrokerError::NoSuchSymbol => BrokerError::NoSuchSymbol,
                BrokerError::InvalidModificationAmount => BrokerError::InvalidModificationAmount,
                BrokerError::NoDataAvailable => BrokerError::NoDataAvailable,
            },
        ),
    }
}

impl SimBroker {
    /// Places a pending (conditional) order on an account: the position
    /// waits for its intended price, with its value debited as margin.
    /// The order fails with `NoSuchSymbol` when the symbol is unknown,
    /// `NoSuchAccount` when the account is, `InsufficientBuyingPower`
    /// when the margin exceeds the balance; failures change nothing.
    pub fn place_pending_order(
        &mut self,
        account_id: u64,
        symbol: &String,
        long: bool,
        size: u64,
        intended_price: u64,
        stop: Option<u64>,
        take_profit: Option<u64>,
    ) -> (r: BrokerResult)
        requires
            old(self).wf(),
        ensures
            final(self).wf(),
            old(self).only_accounts_touched(*final(self)),
            ({
                let symbols0 = old(self).symbols.symbols@;
                let accounts0 = old(self).accounts.data@;
                &&& !symbols_have_name(symbols0, symbol@) ==> r == Err::<BrokerMessage, _>(
                    BrokerError::NoSuchSymbol,
                ) && final(self).accounts == old(self).accounts && final(self).next_position_id
                    == old(self).next_position_id
                &&& symbols_have_name(symbols0, symbol@) ==> {
                    let sym_index = symbol_index_of(symbols0, symbol@);
                    let pos = Position {
                        creation_time: old(self).timestamp,
                        symbol_id: sym_index as usize,
                        size,
                        intended_price: Some(intended_price),
                        long,
                        stop,
                        take_profit,
                        execution_time: None,
                        execution_price: None,
                        exit_price: None,
                        exit_time: None,
                    };
                    let cost = position_value_spec(symbols0, old(self).settings, pos);
                    &&& (cost is None || cost->0 > u64::MAX) ==> r is Err && final(self).accounts
                        == old(self).accounts && final(self).next_position_id == old(
                        self,
                    ).next_position_id
                    &&& (cost is Some && cost->0 <= u64::MAX) ==> {
                        let c = cost->0 as u64;
                        &&& !accounts_have_id(accounts0, account_id) ==> r == Err::<
                            BrokerMessage,
                            _,
                        >(BrokerError::NoSuchAccount) && final(self).accounts == old(self).accounts
                            && final(self).next_position_id == old(self).next_position_id
                        &&& accounts_have_id(accounts0, account_id) ==> {
                            let ai = account_index_of(accounts0, account_id);
                            let ledger0 = accounts0[ai].ledger;
                            &&& old(self).next_position_id == u64::MAX ==> (r is Err
                                && r->Err_0 is Message) && old(self).accounts_unchanged(
                                *final(self),
                            ) && final(self).next_position_id == old(self).next_position_id
                            &&& old(self).next_position_id < u64::MAX && c > ledger0.balance ==> r
                                == Err::<BrokerMessage, _>(BrokerError::InsufficientBuyingPower)
                                && old(self).accounts_unchanged(*final(self)) && final(self).next_position_id == old(self).next_position_id
                            &&& old(self).next_position_id < u64::MAX && c <= ledger0.balance
                                ==> {
                                let id = old(self).next_position_id;
                                let l1 = final(self).accounts.data@[ai].ledger;
                                &&& r == Ok::<_, BrokerError>(BrokerMessage::Success)
                                &&& final(self).next_position_id == id + 1
                                &&& old(self).accounts_same_but(*final(self), ai)
                                &&& l1.balance == ledger0.balance - c
                                &&& l1.pending_positions@ == ledger0.pending_positions@.push(
                                    (id, PosEntry { pos, margin: c }),
                                )
                                &&& l1.open_positions@ == ledger0.open_positions@
                                &&& l1.closed_positions@ == ledger0.closed_positions@
                            }
                        }
                    }
                }
            }),
    {
        let sym_index = match self.symbols.find_index(symbol) {
            Some(i) => {
                proof {
                    lemma_symbol_index(self.symbols.symbols@, symbol@, i as int);
                }
                i
            },
            None => {
                return Err(BrokerError::NoSuchSymbol);
            },
        };
        let now = self.timestamp;
        let pos = Position {
            creation_time: now,
            symbol_id: sym_index,
            size,
            intended_price: Some(intended_price),
            long,
            stop,
            take_profit,
            execution_time: None,
            execution_price: None,
            exit_price: None,
            exit_time: None,
        };
        let margin = match self.get_position_value(&pos) {
            Ok(c) => c,
            Err(e) => {
                return Err(e);
            },
        };
        let ai = match self.accounts.find_index(account_id) {
            Some(a) => a,
            None => {
                return Err(BrokerError::NoSuchAccount);
            },
        };
        proof {
            lemma_account_index(self.accounts.data@, account_id, ai as int);
        }
        if self.next_position_id == u64::MAX {
            return Err(
                BrokerError::Message { message: "The position id space is exhausted.".to_owned() },
            );
        }
        let id = self.next_position_id;
        let ghost accounts0 = self.accounts.data@;
        let mut acct = self.accounts.data.remove(ai);
        proof {
            assert(!acct.ledger.has_id(id)) by {
                if seq_has_key(acct.ledger.pending_positions@, id) {
                    let k = choose|k: int|
                        0 <= k < acct.ledger.pending_positions@.len()
                            && acct.ledger.pending_positions@[k].0 == id;
                }
                if seq_has_key(acct.ledger.open_positions@, id) {
                    let k = choose|k: int|
                        0 <= k < acct.ledger.open_positions@.len()
                            && acct.ledger.open_positions@[k].0 == id;
                }
                if seq_has_key(acct.ledger.closed_positions@, id) {
                    let k = choose|k: int|
                        0 <= k < acct.ledger.closed_positions@.len()
                            && acct.ledger.closed_positions@[k].0 == id;
                }
            }
        }
        let res = acct.ledger.place_order(id, pos, margin);
        let is_ok = res.is_ok();
        self.accounts.data.insert(ai, acct);
        if is_ok {
            self.next_position_id = id + 1;
        }
        proof {
            assert(self.accounts.data@ =~= accounts0.update(
                ai as int,
                self.accounts.data@[ai as int],
            ));
            let l0 = accounts0[ai as int].ledger;
            let l1 = self.accounts.data@[ai as int].ledger;
            assert(old(self).ledger_ids_wf(l0));
            if is_ok {
                crate::posmap::lemma_seq_as_map_push(
                    l0.pending_positions@,
                    id,
                    PosEntry { pos, margin },
                );
                assert forall|k: u64| #[trigger] seq_has_key(l1.pending_positions@, k) implies k
                    < self.next_position_id && l1.pending_positions.as_map()[k].pos.symbol_id
                    < self.symbols.symbols@.len() by {
                    let j = choose|j: int|
                        0 <= j < l1.pending_positions@.len() && l1.pending_positions@[j].0 == k;
                    if j < l0.pending_positions@.len() {
                        assert(l0.pending_positions@[j].0 == k);
                        assert(seq_has_key(l0.pending_positions@, k));
                    } else {
                        assert(k == id);
                    }
                }
            }
            assert(self.ledger_ids_wf(l1));
            self.lemma_restore_wf(*old(self), accounts0, ai as int);
        }
        res
    }

    /// Pops and dispatches the earliest event of the timeline, returning
    /// the deliveries the client observes at that instant, or `None`
    /// once the timeline has drained.  A fresh tick reprices its symbol,
    /// fills and closes positions, schedules its client-side delivery
    /// and draws the symbol's next tick onto the timeline; a matured
    /// action is executed and its response scheduled; a response is
    /// delivered to its reply slot and echoed on the push stream.
    pub fn step(&mut self) -> (r: Option<Vec<Delivery>>)
        requires
            old(self).wf(),
        ensures
            final(self).wf(),
            final(self).settings == old(self).settings,
            final(self).account_id == old(self).account_id,
            final(self).timestamp >= old(self).timestamp,
            old(self).pq@.len() == 0 ==> r is None && final(self).pq@ == old(self).pq@ && final(self).accounts == old(self).accounts && final(self).symbols == old(self).symbols && final(self).timestamp == old(self).timestamp && final(self).delivered@ == old(self).delivered@
                && final(self).next_position_id == old(self).next_position_id,
            old(self).pq@.len() > 0 ==> r is Some && ({
                let m = old(self).pq@[0];
                let out = r->0;
                &&& final(self).timestamp == m.timestamp
                &&& (forall|d: int|
                    0 <= d < out@.len() ==> delivery_time(#[trigger] out@[d]) == m.timestamp)
                &&& final(self).delivered@ == old(self).delivered@ + delivery_times(out@)
                &&& (match m.unit {
                    WorkUnit::NewTick { symbol_id, tick } => {
                        &&& out@.len() == 0
                        &&& final(self).next_position_id == old(self).next_position_id
                        &&& final(self).accounts.data@.len() == old(self).accounts.data@.len()
                        &&& (forall|a: int|
                            0 <= a < old(self).accounts.data@.len() ==> (#[trigger] final(self).accounts.data@[a]).uuid == old(self).accounts.data@[a].uuid && final(self).accounts.data@[a].live == old(self).accounts.data@[a].live
                                && ledger_ticked(
                                old(self).accounts.data@[a].ledger,
                                final(self).accounts.data@[a].ledger,
                                old(self).symbols.symbols@.update(
                                    symbol_id as int,
                                    Symbol {
                                        price: Some((tick.bid, tick.ask)),
                                        ..old(self).symbols.symbols@[symbol_id as int]
                                    },
                                ),
                                old(self).settings,
                                symbol_id,
                                tick.bid,
                                tick.ask,
                                m.timestamp,
                            ))
                        &&& final(self).symbols.symbols@.len() == old(self).symbols.symbols@.len()
                        &&& final(self).symbols.symbols@[symbol_id as int].price == Some(
                            (tick.bid, tick.ask),
                        )
                        &&& (queue_has(
                            final(self).pq@,
                            QueueItem {
                                timestamp: (tick.timestamp + old(self).settings.ping_ns) as u64,
                                unit: WorkUnit::ClientTick { symbol_id: symbol_id, tick: tick },
                            },
                        ))
                        &&& (forall|x: BrokerResult|
                            #[trigger] accounts_tick_msgs(
                                old(self).accounts.data@,
                                symbol_id,
                                tick.bid,
                                tick.ask,
                                m.timestamp,
                            ).contains(x) ==> (queue_has(
                                final(self).pq@,
                                QueueItem {
                                    timestamp: (m.timestamp + old(self).settings.ping_ns) as u64,
                                    unit: WorkUnit::Response { slot: None, result: x },
                                },
                            )))
                        &&& (old(self).symbols.symbols@[symbol_id as int].peek_tick() matches Some(
                            next
                        ) ==> (queue_has(
                            final(self).pq@,
                            QueueItem {
                                timestamp: next.timestamp,
                                unit: WorkUnit::NewTick { symbol_id: symbol_id, tick: next },
                            },
                        )))
                        &&& ({
                            let q1 = queue_insert(
                                old(self).pq@.skip(1),
                                QueueItem {
                                    timestamp: (tick.timestamp + old(self).settings.ping_ns) as u64,
                                    unit: WorkUnit::ClientTick { symbol_id: symbol_id, tick: tick },
                                },
                            );
                            let q2 = insert_pushes(
                                q1,
                                accounts_tick_msgs(
                                    old(self).accounts.data@,
                                    symbol_id,
                                    tick.bid,
                                    tick.ask,
                                    m.timestamp,
                                ),
                                (m.timestamp + old(self).settings.ping_ns) as u64,
                            );
                            final(self).pq@ == (match old(self).symbols.symbols@[
                                symbol_id as int
                            ].peek_tick() {
                                Some(next) => queue_insert(
                                    q2,
                                    QueueItem {
                                        timestamp: next.timestamp,
                                        unit: WorkUnit::NewTick {
                                            symbol_id: symbol_id,
                                            tick: next,
                                        },
                                    },
                                ),
                                None => q2,
                            })
                        })
                        &&& (forall|i: int|
                            0 <= i < old(self).symbols.symbols@.len() && i != symbol_id
                                ==> final(self).symbols.symbols@[i] == old(
                                self,
                            ).symbols.symbols@[i])
                        &&& ({
                            let s0 = old(self).symbols.symbols@[symbol_id as int];
                            let s1 = final(self).symbols.symbols@[symbol_id as int];
                            &&& s1.name == s0.name
                            &&& s1.ticks@ == s0.ticks@
                            &&& s1.is_fx == s0.is_fx
                            &&& s1.decimal_precision == s0.decimal_precision
                            &&& s1.cursor == s0.cursor + (if s0.peek_tick() is Some {
                                1int
                            } else {
                                0int
                            })
                        })
                    },
                    WorkUnit::ClientTick { symbol_id, tick } => {
                        &&& out@ == seq![
                            Delivery::Tick { time: m.timestamp, symbol_id: symbol_id, tick: tick },
                        ]
                        &&& final(self).pq@ == old(self).pq@.skip(1)
                        &&& final(self).accounts == old(self).accounts
                        &&& final(self).symbols == old(self).symbols
                        &&& final(self).next_position_id == old(self).next_position_id
                    },
                    WorkUnit::ActionComplete { slot, action } => {
                        &&& out@.len() == 0
                        &&& final(self).symbols == old(self).symbols
                        &&& (exists|res: BrokerResult|
                            #![trigger response_item((m.timestamp + old(self).settings.ping_ns) as u64, slot, res)]
                            {
                                let ts = (m.timestamp + old(self).settings.ping_ns) as u64;
                                let q1 = old(self).pq@.skip(1);
                                &&& final(self).pq@ == q1.take(insert_pos(q1, ts)) + seq![
                                    response_item(ts, slot, res),
                                ] + q1.skip(insert_pos(q1, ts))
                                &&& (action is Ping ==> res == Ok::<BrokerMessage, BrokerError>(
                                    BrokerMessage::Pong { time_received: m.timestamp },
                                ))
                                &&& exec_outcome(
                                    old(self).symbols.symbols@,
                                    old(self).settings,
                                    old(self).accounts.data@,
                                    final(self).accounts.data@,
                                    old(self).next_position_id,
                                    final(self).next_position_id,
                                    m.timestamp,
                                    action,
                                    m.timestamp,
                                    res,
                                )
                            })
                    },
                    WorkUnit::Response { slot, result } => {
                        &&& final(self).pq@ == old(self).pq@.skip(1)
                        &&& final(self).accounts == old(self).accounts
                        &&& final(self).symbols == old(self).symbols
                        &&& final(self).next_position_id == old(self).next_position_id
                        &&& (match slot {
                            Some(sl) => out@ == seq![
                                Delivery::Reply { time: m.timestamp, slot: sl, result: result },
                                Delivery::Push { time: m.timestamp, result: result },
                            ],
                            None => out@ == seq![
                                Delivery::Push { time: m.timestamp, result: result },
                            ],
                        })
                    },
                })
            }),
    {
        let m = match self.pq.pop() {
            Some(m) => m,
            None => {
                return None;
            },
        };
        proof {
            assert(old(self).pq@[0].timestamp >= old(self).timestamp);
        }
        self.timestamp = m.timestamp;
        proof {
            assert(item_wf(m, old(self).symbols.symbols@));
            assert forall|i: int| 0 <= i < self.pq@.len() implies item_wf(
                #[trigger] self.pq@[i],
                self.symbols.symbols@,
            ) && self.pq@[i].timestamp >= self.timestamp by {
                assert(self.pq@[i] == old(self).pq@[i + 1]);
            }
            assert(self.wf());
        }
        match m.unit {
            WorkUnit::NewTick { symbol_id, tick } => {
                let ghost pre_price = *self;
                self.symbols.set_price(symbol_id, (tick.bid, tick.ask));
                proof {
                    self.lemma_queue_wf_after_symbol_touch(pre_price);
                    assert(self.wf());
                    assert(self.symbols.symbols@[symbol_id as int].peek_tick()
                        == old(self).symbols.symbols@[symbol_id as int].peek_tick());
                }
                let client_ts = tick.timestamp + self.settings.ping_ns;
                let ghost client_item = QueueItem {
                    timestamp: (tick.timestamp + old(self).settings.ping_ns) as u64,
                    unit: WorkUnit::ClientTick { symbol_id: symbol_id, tick: tick },
                };
                let ghost q_before_client = self.pq@;
                self.push_checked(
                    QueueItem {
                        timestamp: client_ts,
                        unit: WorkUnit::ClientTick { symbol_id, tick },
                    },
                );
                proof {
                    crate::queue::lemma_insert_pos(q_before_client, client_ts);
                    lemma_push_membership(
                        q_before_client,
                        self.pq@,
                        client_item,
                        insert_pos(q_before_client, client_ts),
                    );
                    assert(queue_has(self.pq@, client_item));
                    assert(self.pq@ == queue_insert(q_before_client, client_item));
                }
                let ghost q1_val = self.pq@;
                let msgs = self.tick_positions(symbol_id, tick.bid, tick.ask, m.timestamp);
                let ghost resp_ts = (m.timestamp + old(self).settings.ping_ns) as u64;
                proof {
                    assert(msgs@.take(0) =~= Seq::<BrokerResult>::empty());
                    assert(insert_pushes(q1_val, msgs@.take(0), resp_ts) == q1_val);
                }
                let count = msgs.len();
                let mut k: usize = 0;
                while k < count
                    invariant
                        self.wf(),
                        count == msgs@.len(),
                        k <= count,
                        m.timestamp <= MAX_TIME_NS,
                        self.settings.ping_ns <= MAX_TIME_NS,
                        self.timestamp == m.timestamp,
                        self.settings == old(self).settings,
                        self.account_id == old(self).account_id,
                        self.next_position_id == old(self).next_position_id,
                        self.delivered@ == old(self).delivered@,
                        self.accounts.data@.len() == old(self).accounts.data@.len(),
                        forall|a: int|
                            0 <= a < old(self).accounts.data@.len() ==> (
                            #[trigger] self.accounts.data@[a]).uuid == old(
                                self,
                            ).accounts.data@[a].uuid && self.accounts.data@[a].live == old(
                                self,
                            ).accounts.data@[a].live && ledger_ticked(
                                old(self).accounts.data@[a].ledger,
                                self.accounts.data@[a].ledger,
                                old(self).symbols.symbols@.update(
                                    symbol_id as int,
                                    Symbol {
                                        price: Some((tick.bid, tick.ask)),
                                        ..old(self).symbols.symbols@[symbol_id as int]
                                    },
                                ),
                                old(self).settings,
                                symbol_id,
                                tick.bid,
                                tick.ask,
                                m.timestamp,
                            ),
                        self.symbols.symbols@.len() == old(self).symbols.symbols@.len(),
                        self.symbols.symbols@[symbol_id as int].price == Some(
                            (tick.bid, tick.ask),
                        ),
                        symbol_id < self.symbols.symbols@.len(),
                        self.symbols.symbols@[symbol_id as int].wf(),
                        self.symbols.symbols@[symbol_id as int].peek_tick() is Some
                            ==> self.symbols.symbols@[symbol_id as int].peek_tick()->0.timestamp
                            >= m.timestamp,
                        self.symbols.symbols@[symbol_id as int].peek_tick() == old(
                            self,
                        ).symbols.symbols@[symbol_id as int].peek_tick(),
                        self.symbols.symbols@[symbol_id as int].name == old(
                            self,
                        ).symbols.symbols@[symbol_id as int].name,
                        self.symbols.symbols@[symbol_id as int].ticks@ == old(
                            self,
                        ).symbols.symbols@[symbol_id as int].ticks@,
                        self.symbols.symbols@[symbol_id as int].is_fx == old(
                            self,
                        ).symbols.symbols@[symbol_id as int].is_fx,
                        self.symbols.symbols@[symbol_id as int].decimal_precision == old(
                            self,
                        ).symbols.symbols@[symbol_id as int].decimal_precision,
                        self.symbols.symbols@[symbol_id as int].cursor == old(
                            self,
                        ).symbols.symbols@[symbol_id as int].cursor,
                        forall|b: int|
                            0 <= b < old(self).symbols.symbols@.len() && b != symbol_id
                                ==> self.symbols.symbols@[b] == old(self).symbols.symbols@[b],
                        resp_ts == (m.timestamp + old(self).settings.ping_ns) as u64,
                        self.pq@ == insert_pushes(q1_val, msgs@.take(k as int), resp_ts),
                        q1_val == queue_insert(
                            old(self).pq@.skip(1),
                            QueueItem {
                                timestamp: (tick.timestamp + old(self).settings.ping_ns) as u64,
                                unit: WorkUnit::ClientTick { symbol_id: symbol_id, tick: tick },
                            },
                        ),
                        queue_has(self.pq@, client_item),
                        forall|x: BrokerResult|
                            #[trigger] msgs@.take(k as int).contains(x) ==> (queue_has(
                                self.pq@,
                                QueueItem {
                                    timestamp: (m.timestamp + old(self).settings.ping_ns) as u64,
                                    unit: WorkUnit::Response { slot: None, result: x },
                                },
                            )),
                    decreases count - k,
                {
                    let result = clone_result(&msgs[k]);
                    let push_ts = m.timestamp + self.settings.ping_ns;
                    let ghost q_before_resp = self.pq@;
                    let ghost resp_item = QueueItem {
                        timestamp: (m.timestamp + old(self).settings.ping_ns) as u64,
                        unit: WorkUnit::Response { slot: None, result: msgs@[k as int] },
                    };
                    self.push_checked(
                        QueueItem {
                            timestamp: push_ts,
                            unit: WorkUnit::Response { slot: None, result },
                        },
                    );
                    proof {
                        crate::queue::lemma_insert_pos(q_before_resp, push_ts);
                        lemma_push_membership(
                            q_before_resp,
                            self.pq@,
                            resp_item,
                            insert_pos(q_before_resp, push_ts),
                        );
                        assert(resp_item == push_item(resp_ts, msgs@[k as int]));
                        assert(self.pq@ == queue_insert(q_before_resp, resp_item));
                        assert(msgs@.take(k + 1) =~= msgs@.take(k as int).push(msgs@[k as int]));
                        lemma_insert_pushes_push(q1_val, msgs@.take(k as int), msgs@[k as int], resp_ts);
                        assert(self.pq@ == insert_pushes(q1_val, msgs@.take(k + 1), resp_ts));
                        assert forall|x: BrokerResult|
                            #[trigger] msgs@.take(k + 1).contains(x) implies (queue_has(
                            self.pq@,
                            QueueItem {
                                timestamp: (m.timestamp + old(self).settings.ping_ns) as u64,
                                unit: WorkUnit::Response { slot: None, result: x },
                            },
                        )) by {
                            let idx = choose|idx: int|
                                0 <= idx < msgs@.take(k + 1).len() && (#[trigger] msgs@.take(
                                    k + 1,
                                )[idx]) == x;
                            if idx < k {
                                assert(msgs@.take(k as int)[idx] == x);
                                assert(msgs@.take(k as int).contains(x));
                            } else {
                                assert(x == msgs@[k as int]);
                            }
                        }
                    }
                    k = k + 1;
                }
                proof {
                    assert(msgs@.take(count as int) =~= msgs@);
                }
                let ghost q2_val = self.pq@;
                proof {
                    assert(q2_val == insert_pushes(
                        q1_val,
                        accounts_tick_msgs(
                            old(self).accounts.data@,
                            symbol_id,
                            tick.bid,
                            tick.ask,
                            m.timestamp,
                        ),
                        resp_ts,
                    ));
                }
                match self.symbols.peek_of(symbol_id) {
                    Some(next_tick) => {
                        let ghost pre_next = *self;
                        let ghost sym_pre = self.symbols.symbols@[symbol_id as int];
                        let _ = self.symbols.next_of(symbol_id);
                        proof {
                            assert(self.symbols.symbols@[symbol_id as int].ticks@
                                == sym_pre.ticks@);
                            assert(self.symbols.symbols@[symbol_id as int].cursor == sym_pre.cursor
                                + 1);
                            assert(sym_pre.wf());
                            self.lemma_queue_wf_after_symbol_touch(pre_next);
                            assert(self.wf());
                            assert(item_wf(
                                QueueItem {
                                    timestamp: next_tick.timestamp,
                                    unit: WorkUnit::NewTick { symbol_id, tick: next_tick },
                                },
                                self.symbols.symbols@,
                            )) by {
                                let s1 = self.symbols.symbols@[symbol_id as int];
                                if s1.cursor < s1.ticks@.len() {
                                    assert(sym_pre.ticks@[sym_pre.cursor as int].timestamp <= s1.ticks@[
                                        s1.cursor as int
                                    ].timestamp);
                                }
                            }
                        }
                        let ghost q_before_next = self.pq@;
                        let ghost next_item = QueueItem {
                            timestamp: next_tick.timestamp,
                            unit: WorkUnit::NewTick { symbol_id: symbol_id, tick: next_tick },
                        };
                        self.push_checked(
                            QueueItem {
                                timestamp: next_tick.timestamp,
                                unit: WorkUnit::NewTick { symbol_id, tick: next_tick },
                            },
                        );
                        proof {
                            crate::queue::lemma_insert_pos(q_before_next, next_tick.timestamp);
                            lemma_push_membership(
                                q_before_next,
                                self.pq@,
                                next_item,
                                insert_pos(q_before_next, next_tick.timestamp),
                            );
                            assert(self.pq@ == queue_insert(q2_val, next_item));
                        }
                    },
                    None => {},
                }
                let out: Vec<Delivery> = Vec::new();
                proof {
                    assert(delivery_times(out@) =~= Seq::<u64>::empty());
                    assert(self.delivered@ =~= old(self).delivered@ + delivery_times(out@));
                }
                Some(out)
            },
            WorkUnit::ClientTick { symbol_id, tick } => {
                let mut out: Vec<Delivery> = Vec::new();
                out.push(Delivery::Tick { time: m.timestamp, symbol_id, tick });
                proof {
                    assert(out@ =~= seq![
                        Delivery::Tick { time: m.timestamp, symbol_id: symbol_id, tick: tick },
                    ]);
                    self.delivered@ = self.delivered@ + delivery_times(out@);
                    assert(delivery_times(out@) =~= seq![m.timestamp]);
                    assert forall|i2: int, j2: int|
                        0 <= i2 < j2 < self.delivered@.len() implies self.delivered@[i2]
                        <= self.delivered@[j2] by {
                        if j2 < old(self).delivered@.len() {
                            assert(old(self).delivered@[i2] <= old(self).delivered@[j2]);
                        } else if i2 < old(self).delivered@.len() {
                            assert(old(self).delivered@[i2] <= old(self).timestamp);
                        }
                    }
                }
                Some(out)
            },
            WorkUnit::ActionComplete { slot, action } => {
                let res = self.exec_action(&action, m.timestamp);
                let ghost res0 = res;
                let response_ts = m.timestamp + self.settings.ping_ns;
                self.push_checked(
                    QueueItem {
                        timestamp: response_ts,
                        unit: WorkUnit::Response { slot: Some(slot), result: res },
                    },
                );
                proof {
                    assert(self.pq@ == old(self).pq@.skip(1).take(
                        insert_pos(old(self).pq@.skip(1), response_ts),
                    ) + seq![response_item(response_ts, slot, res0)] + old(self).pq@.skip(1).skip(
                        insert_pos(old(self).pq@.skip(1), response_ts),
                    ));
                    assert(exec_outcome(
                        old(self).symbols.symbols@,
                        old(self).settings,
                        old(self).accounts.data@,
                        self.accounts.data@,
                        old(self).next_position_id,
                        self.next_position_id,
                        m.timestamp,
                        action,
                        m.timestamp,
                        res0,
                    ));
                }
                let out: Vec<Delivery> = Vec::new();
                proof {
                    assert(delivery_times(out@) =~= Seq::<u64>::empty());
                    assert(self.delivered@ =~= old(self).delivered@ + delivery_times(out@));
                }
                Some(out)
            },
            WorkUnit::Response { slot, result } => {
                let ghost res0 = result;
                let ghost sl0 = slot;
                let mut out: Vec<Delivery> = Vec::new();
                match slot {
                    Some(sl) => {
                        let result2 = clone_result(&result);
                        out.push(Delivery::Reply { time: m.timestamp, slot: sl, result: result2 });
                        out.push(Delivery::Push { time: m.timestamp, result });
                    },
                    None => {
                        out.push(Delivery::Push { time: m.timestamp, result });
                    },
                }
                proof {
                    match sl0 {
                        Some(sl1) => {
                            assert(out@ =~= seq![
                                Delivery::Reply { time: m.timestamp, slot: sl1, result: res0 },
                                Delivery::Push { time: m.timestamp, result: res0 },
                            ]);
                        },
                        None => {
                            assert(out@ =~= seq![
                                Delivery::Push { time: m.timestamp, result: res0 },
                            ]);
                        },
                    }
                    assert(delivery_times(out@) =~= if out@.len() == 2 {
                        seq![m.timestamp, m.timestamp]
                    } else {
                        seq![m.timestamp]
                    });
                    self.delivered@ = self.delivered@ + delivery_times(out@);
                    assert forall|i2: int, j2: int|
                        0 <= i2 < j2 < self.delivered@.len() implies self.delivered@[i2]
                        <= self.delivered@[j2] by {
                        if j2 < old(self).delivered@.len() {
                            assert(old(self).delivered@[i2] <= old(self).delivered@[j2]);
                        } else if i2 < old(self).delivered@.len() {
                            assert(old(self).delivered@[i2] <= old(self).timestamp);
                        }
                    }
                }
                Some(out)
            },
        }
    }

    /// Schedules an item whose timestamp is within its variant's bound,
    /// re-establishing the broker invariant.
    fn push_checked(&mut self, item: QueueItem)
        requires
            old(self).wf(),
            item_wf(item, old(self).symbols.symbols@),
            item.timestamp >= old(self).timestamp,
        ensures
            final(self).wf(),
            final(self).pq@ == old(self).pq@.take(insert_pos(old(self).pq@, item.timestamp))
                + seq![item] + old(self).pq@.skip(insert_pos(old(self).pq@, item.timestamp)),
            final(self).accounts == old(self).accounts,
            final(self).symbols == old(self).symbols,
            final(self).settings == old(self).settings,
            final(self).timestamp == old(self).timestamp,
            final(self).delivered@ == old(self).delivered@,
            final(self).next_position_id == old(self).next_position_id,
            final(self).account_id == old(self).account_id,
    {
        proof {
            crate::queue::lemma_insert_pos(self.pq@, item.timestamp);
        }
        let ghost q0 = self.pq@;
        self.pq.push(item);
        proof {
            let s = self.pq@;
            let p = insert_pos(q0, item.timestamp);
            assert forall|i: int| 0 <= i < s.len() implies item_wf(
                #[trigger] s[i],
                self.symbols.symbols@,
            ) && s[i].timestamp >= self.timestamp by {
                if i < p {
                    assert(s[i] == q0[i]);
                } else if i > p {
                    assert(s[i] == q0[i - 1]);
                }
            }
        }
    }

    /// After a price update or a cursor advance on one symbol, every
    /// queued item is still well formed: prices do not figure in item
    /// well-formedness, and advancing a cursor only raises the next
    /// tick's timestamp.  `kind` selects which of the two happened.
    proof fn lemma_queue_wf_after_symbol_touch(self, pre: SimBroker)
        requires
            forall|i: int|
                0 <= i < pre.pq@.len() ==> item_wf(#[trigger] pre.pq@[i], pre.symbols.symbols@),
            self.pq@ == pre.pq@,
            self.symbols.symbols@.len() == pre.symbols.symbols@.len(),
            forall|i: int|
                0 <= i < pre.symbols.symbols@.len() ==> {
                    let s0 = pre.symbols.symbols@[i];
                    let s1 = #[trigger] self.symbols.symbols@[i];
                    &&& s1.ticks@ == s0.ticks@
                    &&& s1.wf()
                    &&& s1.cursor >= s0.cursor
                },
        ensures
            forall|i: int|
                0 <= i < self.pq@.len() ==> item_wf(#[trigger] self.pq@[i], self.symbols.symbols@),
    {
        assert forall|i: int| 0 <= i < self.pq@.len() implies item_wf(
            #[trigger] self.pq@[i],
            self.symbols.symbols@,
        ) by {
            assert(item_wf(pre.pq@[i], pre.symbols.symbols@));
            match self.pq@[i].unit {
                WorkUnit::NewTick { symbol_id, tick } => {
                    let s0 = pre.symbols.symbols@[symbol_id as int];
                    let s1 = self.symbols.symbols@[symbol_id as int];
                    if s1.cursor < s1.ticks@.len() {
                        if s0.cursor < s0.ticks@.len() {
                            if s0.cursor < s1.cursor {
                                assert(s0.ticks@[s0.cursor as int].timestamp <= s1.ticks@[
                                    s1.cursor as int
                                ].timestamp);
                            }
                        }
                    }
                },
                _ => {},
            }
        }
    }
}

/// From the two phase results, derives the disjointness, shape,
/// provenance and prefix facts of the final collections.
proof fn lemma_tick_finish(
    s: Seq<(u64, PosEntry)>,
    open0: Seq<(u64, PosEntry)>,
    closed0: Seq<(u64, PosEntry)>,
    pending1: Seq<(u64, PosEntry)>,
    open1: Seq<(u64, PosEntry)>,
    closed1: Seq<(u64, PosEntry)>,
    mid: Seq<(u64, PosEntry)>,
    sid: usize,
    bid: u64,
    ask: u64,
    now: u64,
)
    requires
        keys_unique(s),
        keys_unique(open0),
        keys_unique(pending1),
        keys_unique(open1),
        keys_unique(mid),
        forall|a: int| 0 <= a < s.len() ==> (#[trigger] s[a]).1.pos.is_pending(),
        forall|a: int| 0 <= a < mid.len() ==> (#[trigger] mid[a]).1.pos.is_open(),
        forall|a: int| 0 <= a < closed1.len() ==> (#[trigger] closed1[a]).1.pos.is_closed(),
        forall|k: u64| #[trigger] seq_has_key(mid, k) ==> seq_has_key(open0, k) || seq_has_key(s, k),
        forall|k: u64| #[trigger] seq_has_key(pending1, k) ==> seq_has_key(s, k),
        forall|k: u64| !(#[trigger] seq_has_key(pending1, k) && seq_has_key(mid, k)),
        forall|k: u64| !(#[trigger] seq_has_key(closed0, k) && (seq_has_key(open0, k)
            || seq_has_key(s, k))),
        pending1 == s.filter(keep_pred(sid, bid, ask)),
        mid == open0 + s.filter(fill_pred(sid, bid, ask)).map_values(fill_map(bid, ask, now)),
        open1 == mid.filter(keep_open_pred(sid, bid, ask)),
        closed1 == closed0 + mid.filter(close_pred(sid, bid, ask)).map_values(
            close_map(bid, ask, now),
        ),
    ensures
        forall|k: u64| !(#[trigger] seq_has_key(pending1, k) && seq_has_key(open1, k)),
        forall|k: u64| !(#[trigger] seq_has_key(pending1, k) && seq_has_key(closed1, k)),
        forall|k: u64| !(#[trigger] seq_has_key(open1, k) && seq_has_key(closed1, k)),
        forall|idx: int| 0 <= idx < pending1.len() ==> (#[trigger] pending1[idx]).1.pos.is_pending(),
        forall|idx: int| 0 <= idx < open1.len() ==> (#[trigger] open1[idx]).1.pos.is_open(),
        forall|k: u64| #[trigger]
            seq_has_key(pending1, k) ==> seq_has_key(s, k) && crate::posmap::seq_as_map(pending1)[k]
                == crate::posmap::seq_as_map(s)[k],
        forall|k: u64| #[trigger]
            seq_has_key(open1, k) ==> (seq_has_key(open0, k) && crate::posmap::seq_as_map(
                open1,
            )[k].pos.symbol_id == crate::posmap::seq_as_map(open0)[k].pos.symbol_id) || (
            seq_has_key(s, k) && crate::posmap::seq_as_map(open1)[k].pos.symbol_id
                == crate::posmap::seq_as_map(s)[k].pos.symbol_id),
        forall|k: u64| #[trigger]
            seq_has_key(closed1, k) ==> seq_has_key(closed0, k) || seq_has_key(open0, k)
                || seq_has_key(s, k),
        closed0.is_prefix_of(closed1),
{
    let fp = fill_pred(sid, bid, ask);
    let kp = keep_pred(sid, bid, ask);
    let cp = close_pred(sid, bid, ask);
    let kop = keep_open_pred(sid, bid, ask);
    let fm = fill_map(bid, ask, now);
    let cm = close_map(bid, ask, now);
    let fills = s.filter(fp).map_values(fm);
    lemma_filter_provenance(s, kp);
    lemma_filter_provenance(s, fp);
    lemma_filter_provenance(mid, kop);
    lemma_filter_provenance(mid, cp);
    crate::posmap::lemma_seq_as_map(s);
    crate::posmap::lemma_seq_as_map(open0);
    crate::posmap::lemma_seq_as_map(pending1);
    crate::posmap::lemma_seq_as_map(open1);

    // Each kept pending entry is one of the original pending entries.
    assert forall|idx: int| 0 <= idx < pending1.len() implies (
    #[trigger] pending1[idx]).1.pos.is_pending() by {
        let a = choose|a: int| 0 <= a < s.len() && s[a] == pending1[idx];
    }
    // Each surviving open entry is one of the mid-phase entries.
    assert forall|idx: int| 0 <= idx < open1.len() implies (
    #[trigger] open1[idx]).1.pos.is_open() by {
        let a = choose|a: int| 0 <= a < mid.len() && mid[a] == open1[idx];
    }
    // Where a mid-phase entry came from.
    assert forall|a: int| 0 <= a < mid.len() implies (a < open0.len() && #[trigger] mid[a]
        == open0[a]) || (a >= open0.len() && exists|b: int|
        0 <= b < s.len() && s[b].0 == mid[a].0 && s[b].1.pos.symbol_id
            == mid[a].1.pos.symbol_id) by {
        if a >= open0.len() {
            assert(mid[a] == fills[a - open0.len()]);
            assert(fills[a - open0.len()] == fm(s.filter(fp)[a - open0.len()]));
            let b = choose|b: int|
                0 <= b < s.len() && s[b] == #[trigger] s.filter(fp)[a - open0.len()];
            assert(s[b].0 == mid[a].0 && s[b].1.pos.symbol_id == mid[a].1.pos.symbol_id);
        }
    }
    // Disjointness of the final collections.
    assert forall|k: u64| !(#[trigger] seq_has_key(pending1, k) && seq_has_key(open1, k)) by {
        if seq_has_key(open1, k) {
            let idx = choose|idx: int| 0 <= idx < open1.len() && open1[idx].0 == k;
            let a = choose|a: int| 0 <= a < mid.len() && mid[a] == open1[idx];
            assert(mid[a].0 == k);
            assert(seq_has_key(mid, k));
        }
    }
    assert forall|k: u64| #[trigger] seq_has_key(closed1, k) implies seq_has_key(closed0, k)
        || seq_has_key(mid, k) by {
        if !seq_has_key(closed0, k) {
            let idx = choose|idx: int| 0 <= idx < closed1.len() && closed1[idx].0 == k;
            assert(idx >= closed0.len()) by {
                if idx < closed0.len() {
                    assert(closed1[idx] == closed0[idx]);
                    assert(seq_has_key(closed0, k));
                }
            }
            let c = mid.filter(cp)[idx - closed0.len()];
            assert(closed1[idx] == cm(c));
            assert(c.0 == k);
            let a2 = choose|a: int| 0 <= a < mid.len() && mid[a] == c;
            assert(mid[a2].0 == k);
            assert(seq_has_key(mid, k));
        }
    }
    assert forall|k: u64| !(#[trigger] seq_has_key(pending1, k) && seq_has_key(closed1, k)) by {
        if seq_has_key(pending1, k) && seq_has_key(closed1, k) {
            assert(seq_has_key(closed0, k) || seq_has_key(mid, k));
            assert(seq_has_key(s, k));
        }
    }
    assert forall|k: u64| !(#[trigger] seq_has_key(open1, k) && seq_has_key(closed1, k)) by {
        if seq_has_key(open1, k) && seq_has_key(closed1, k) {
            let idx1 = choose|idx: int| 0 <= idx < open1.len() && open1[idx].0 == k;
            let a1 = choose|a: int| 0 <= a < mid.len() && mid[a] == open1[idx1];
            assert(kop(mid[a1]));
            assert(mid[a1].0 == k);
            assert(seq_has_key(mid, k));
            if seq_has_key(closed0, k) {
                assert(seq_has_key(open0, k) || seq_has_key(s, k));
            } else {
                let idx2 = choose|idx: int| 0 <= idx < closed1.len() && closed1[idx].0 == k;
                assert(idx2 >= closed0.len()) by {
                    if idx2 < closed0.len() {
                        assert(closed1[idx2] == closed0[idx2]);
                        assert(seq_has_key(closed0, k));
                    }
                }
                let c = mid.filter(cp)[idx2 - closed0.len()];
                assert(closed1[idx2] == cm(c));
                assert(c.0 == k && cp(c));
                let a2 = choose|a: int| 0 <= a < mid.len() && mid[a] == c;
                assert(mid[a2].0 == k && mid[a1].0 == k);
                assert(a1 == a2);
            }
        }
    }
    // Provenance of the final collections, key by key.
    assert forall|k: u64| #[trigger] seq_has_key(pending1, k) implies seq_has_key(s, k)
        && crate::posmap::seq_as_map(pending1)[k] == crate::posmap::seq_as_map(s)[k] by {
        let idx = choose|idx: int| 0 <= idx < pending1.len() && pending1[idx].0 == k;
        let a = choose|a: int| 0 <= a < s.len() && s[a] == pending1[idx];
        assert(s[a].0 == k);
        assert(crate::posmap::seq_as_map(pending1)[k] == pending1[idx].1);
        assert(crate::posmap::seq_as_map(s)[k] == s[a].1);
    }
    assert forall|k: u64| #[trigger] seq_has_key(open1, k) implies (seq_has_key(open0, k)
        && crate::posmap::seq_as_map(open1)[k].pos.symbol_id == crate::posmap::seq_as_map(
        open0,
    )[k].pos.symbol_id) || (seq_has_key(s, k) && crate::posmap::seq_as_map(open1)[k].pos.symbol_id
        == crate::posmap::seq_as_map(s)[k].pos.symbol_id) by {
        let idx = choose|idx: int| 0 <= idx < open1.len() && open1[idx].0 == k;
        let a = choose|a: int| 0 <= a < mid.len() && mid[a] == open1[idx];
        assert(mid[a].0 == k);
        assert(crate::posmap::seq_as_map(open1)[k] == open1[idx].1);
        if a < open0.len() {
            assert(mid[a] == open0[a]);
            assert(seq_has_key(open0, k));
            assert(crate::posmap::seq_as_map(open0)[k] == open0[a].1);
        } else {
            let b = choose|b: int|
                0 <= b < s.len() && s[b].0 == mid[a].0 && s[b].1.pos.symbol_id
                    == mid[a].1.pos.symbol_id;
            assert(seq_has_key(s, k));
            assert(crate::posmap::seq_as_map(s)[k] == s[b].1);
        }
    }
    assert(closed0.is_prefix_of(closed1)) by {
        assert(closed1.subrange(0, closed0.len() as int) =~= closed0);
    }
}

/// The index a symbol name is registered at (meaningful when the name
/// occurs, which `symbols_have_name` states).
pub open spec fn symbol_index_of(symbols: Seq<Symbol>, name: Seq<char>) -> int {
    choose|i: int| 0 <= i < symbols.len() && symbols[i].name@ == name
}

/// With distinct names, `symbol_index_of` is exactly the index any
/// matching symbol sits at.
pub proof fn lemma_symbol_index(symbols: Seq<Symbol>, name: Seq<char>, i: int)
    requires
        forall|a: int, b: int|
            0 <= a < b < symbols.len() ==> (#[trigger] symbols[a]).name@ != (
            #[trigger] symbols[b]).name@,
        0 <= i < symbols.len(),
        symbols[i].name@ == name,
    ensures
        symbols_have_name(symbols, name),
        symbol_index_of(symbols, name) == i,
        lookup_symbol(symbols, name) == Some(symbols[i]),
{
    assert(symbols_have_name(symbols, name));
    let j = symbol_index_of(symbols, name);
    if i < j {
        assert(symbols[i].name@ != symbols[j].name@);
    }
    if j < i {
        assert(symbols[j].name@ != symbols[i].name@);
    }
    lemma_lookup_symbol(symbols, name, i);
}

/// The conversion rate (in pips at 10 decimal places) between the
/// configured base currency and the supplied currency: the ask of the
/// direct pair when it is quoted, else the ask of the reversed pair.
/// Outside FX mode the request is rejected; without either pair there
/// is no data; a rate beyond the representable range is an error.
pub fn base_rate(symbols: &Symbols, settings: &SimBrokerSettings, currency: &String) -> (r: Result<
    u64,
    BrokerError,
>)
    requires
        symbols.wf(),
    ensures
        !settings.fx ==> r is Err && r->Err_0 is Message,
        settings.fx ==> match base_rate_spec(symbols.symbols@, *settings, currency@) {
            Some(rate) => if rate <= u64::MAX {
                r == Ok::<u64, BrokerError>(rate as u64)
            } else {
                r is Err && r->Err_0 is Message
            },
            None => r == Err::<u64, BrokerError>(BrokerError::NoDataAvailable),
        },
{
    if !settings.fx {
        return Err(
            BrokerError::Message {
                message: "Can only convert to base rate when in FX mode.".to_owned(),
            },
        );
    }
    let direct: String = currency.clone().concat(settings.fx_base_currency.as_str());
    let (ask, decimals) = match quoted_ask_of(symbols, &direct) {
        Some(q) => q,
        None => {
            let reversed: String = settings.fx_base_currency.clone().concat(currency.as_str());
            match quoted_ask_of(symbols, &reversed) {
                Some(q) => q,
                None => {
                    return Err(BrokerError::NoDataAvailable);
                },
            }
        },
    };
    match convert_decimals(ask, decimals, 10) {
        Some(rate) => Ok(rate),
        None => Err(
            BrokerError::Message {
                message: "The conversion rate is out of the representable range.".to_owned(),
            },
        ),
    }
}

/// The quoted ask and decimal precision under a name, if any.
fn quoted_ask_of(symbols: &Symbols, name: &String) -> (r: Option<(u64, u32)>)
    requires
        symbols.wf(),
    ensures
        r == quoted_ask(symbols.symbols@, name@),
{
    match symbols.find_index(name) {
        Some(i) => {
            proof {
                lemma_lookup_symbol(symbols.symbols@, name@, i as int);
            }
            match symbols.price_at(i) {
                Some(p) => {
                    let d = symbols.symbols[i].decimal_precision;
                    Some((p.1, d))
                },
                None => None,
            }
        },
        None => None,
    }
}

/// The worth of a position in units of base currency: its size for an
/// ordinary symbol, its size times the base rate times the lot size for
/// an FX symbol.
pub fn position_value(symbols: &Symbols, settings: &SimBrokerSettings, pos: &Position) -> (r:
    Result<u64, BrokerError>)
    requires
        symbols.wf(),
    ensures
        match position_value_spec(symbols.symbols@, *settings, *pos) {
            Some(v) => if v <= u64::MAX {
                r == Ok::<u64, BrokerError>(v as u64)
            } else {
                r is Err && r->Err_0 is Message
            },
            None => r is Err,
        },
        pos.symbol_id >= symbols.symbols@.len() ==> r == Err::<u64, _>(BrokerError::NoSuchSymbol),
        pos.symbol_id < symbols.symbols@.len() && symbols.symbols@[pos.symbol_id as int].is_fx
            ==> {
            let rate = base_rate_spec(
                symbols.symbols@,
                *settings,
                symbols.symbols@[pos.symbol_id as int].name@.take(3),
            );
            &&& !settings.fx ==> (r is Err && r->Err_0 is Message)
            &&& settings.fx && rate is None ==> r == Err::<u64, _>(BrokerError::NoDataAvailable)
            &&& settings.fx && rate is Some && rate->0 > u64::MAX ==> (r is Err
                && r->Err_0 is Message)
        },
{
    if pos.symbol_id >= symbols.len() {
        return Err(BrokerError::NoSuchSymbol);
    }
    let is_fx = symbols.symbols[pos.symbol_id].is_fx;
    if !is_fx {
        return Ok(pos.size);
    }
    proof {
        assert(symbols.symbols@[pos.symbol_id as int].wf());
    }
    let sym_name: &String = &symbols.symbols[pos.symbol_id].name;
    proof {
        assert(sym_name@ == symbols.symbols@[pos.symbol_id as int].name@);
        assert(sym_name@.len() == 6);
    }
    let sub: &str = sym_name.as_str().substring_ascii(0, 3);
    let name_prefix: String = sub.to_owned();
    let rate = match base_rate(symbols, settings, &name_prefix) {
        Ok(rate) => rate,
        Err(e) => {
            return Err(e);
        },
    };
    proof {
        assert(name_prefix@ =~= symbols.symbols@[pos.symbol_id as int].name@.take(3));
        lemma_base_rate_nonneg(symbols.symbols@, *settings, name_prefix@);
        assert(rate == base_rate_spec(symbols.symbols@, *settings, name_prefix@)->0);
    }
    match pos.size.checked_mul(rate) {
        Some(partial) => match partial.checked_mul(settings.fx_lot_size) {
            Some(v) => Ok(v),
            None => {
                proof {
                    lemma_mul_fits(pos.size, rate, settings.fx_lot_size);
                }
                Err(
                    BrokerError::Message {
                        message: "The position value is out of the representable range.".to_owned(),
                    },
                )
            },
        },
        None => {
            proof {
                lemma_mul_fits(pos.size, rate, settings.fx_lot_size);
            }
            Err(
                BrokerError::Message {
                    message: "The position value is out of the representable range.".to_owned(),
                },
            )
        },
    }
}

/// A product of three factors bounded by the factors' own products: if a
/// pairwise product already overflows, so does the full product.
proof fn lemma_mul_fits(a: u64, b: u64, c: u64)
    ensures
        a * b > u64::MAX ==> (c >= 1 ==> a * b * c > u64::MAX),
        a * b <= u64::MAX && (a * b) * c > u64::MAX ==> a * b * c > u64::MAX,
        c == 0 ==> a * b * c == 0,
{
    assert(a * b > u64::MAX && c >= 1 ==> a * b * c > u64::MAX) by (nonlinear_arith);
    assert(c == 0 ==> a * b * c == 0) by (nonlinear_arith);
}

} // verus!
