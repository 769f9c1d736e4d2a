//! The library's global laws, stated as proof functions over the
//! invariants and contracts of the ledger and the broker.

use vstd::prelude::*;

use crate::broker::{times_sorted, SimBroker};
use crate::ledger::Ledger;
use crate::objects::BrokerAction;
use crate::posmap::{lemma_seq_as_map, seq_has_key, sum_margins};
use crate::settings::SimBrokerSettings;
use crate::MAX_TIME_NS;

verus! {

/// Monotone delivery: at every reachable broker state, the instants at
/// which deliveries were handed to the client form a non-decreasing
/// sequence, and none lies after the broker's clock.  `SimBroker::step`
/// preserves the invariant and appends only deliveries stamped with the
/// instant of the event being processed.
pub proof fn lemma_monotone_delivery(b: SimBroker)
    requires
        b.wf(),
    ensures
        times_sorted(b.delivered@),
        forall|i: int| 0 <= i < b.delivered@.len() ==> (#[trigger] b.delivered@[i]) <= b.timestamp,
{
}

/// Conservation: the balance plus the margin posted for every pending
/// and open position equals the starting balance plus the realized net
/// of credits and debits.  Every ledger operation preserves it; closes
/// and resizes are the only operations that move `realized`.
pub proof fn lemma_conservation(l: Ledger)
    requires
        l.wf(),
    ensures
        l.balance + sum_margins(l.pending_positions@) + sum_margins(l.open_positions@)
            == l.starting_balance + l.realized@,
{
}

/// Map disjointness: a position id occurs in at most one of the pending,
/// open and closed collections.
pub proof fn lemma_position_maps_disjoint(l: Ledger)
    requires
        l.wf(),
    ensures
        forall|k: u64| !(#[trigger] seq_has_key(l.pending_positions@, k) && seq_has_key(
            l.open_positions@,
            k,
        )),
        forall|k: u64| !(#[trigger] seq_has_key(l.pending_positions@, k) && seq_has_key(
            l.closed_positions@,
            k,
        )),
        forall|k: u64| !(#[trigger] seq_has_key(l.open_positions@, k) && seq_has_key(
            l.closed_positions@,
            k,
        )),
        forall|k: u64|
            l.pending_positions.as_map().contains_key(k) == #[trigger] seq_has_key(
                l.pending_positions@,
                k,
            ),
        forall|k: u64|
            l.open_positions.as_map().contains_key(k) == #[trigger] seq_has_key(
                l.open_positions@,
                k,
            ),
        forall|k: u64|
            l.closed_positions.as_map().contains_key(k) == #[trigger] seq_has_key(
                l.closed_positions@,
                k,
            ),
{
    lemma_seq_as_map(l.pending_positions@);
    lemma_seq_as_map(l.open_positions@);
    lemma_seq_as_map(l.closed_positions@);
}

/// State monotonicity, shape half: every open position has its execution
/// time set and no exit time; every closed position has both.  An
/// execution time therefore never clears as a position moves forward.
pub proof fn lemma_lifecycle_shapes(l: Ledger)
    requires
        l.wf(),
    ensures
        forall|i: int|
            0 <= i < l.open_positions@.len() ==> (
            #[trigger] l.open_positions@[i]).1.pos.execution_time is Some && l.open_positions@[
                i
            ].1.pos.exit_time is None,
        forall|i: int|
            0 <= i < l.closed_positions@.len() ==> (
            #[trigger] l.closed_positions@[i]).1.pos.execution_time is Some
                && l.closed_positions@[i].1.pos.exit_time is Some,
{
}

/// State monotonicity, temporal half: once a position is closed it stays
/// closed, unchanged, and never reappears among the open or pending
/// positions.  Every mutating operation of the ledger and the broker
/// ensures `closed_preserved`, which this law lifts to any single id.
pub proof fn lemma_closed_stays_closed(pre: Ledger, post: Ledger, id: u64)
    requires
        pre.wf(),
        post.wf(),
        pre.closed_preserved(post),
        seq_has_key(pre.closed_positions@, id),
    ensures
        seq_has_key(post.closed_positions@, id),
        !seq_has_key(post.open_positions@, id),
        !seq_has_key(post.pending_positions@, id),
{
    let i = choose|i: int|
        0 <= i < pre.closed_positions@.len() && pre.closed_positions@[i].0 == id;
    assert(post.closed_positions@[i] == pre.closed_positions@[i]);
}

/// State monotonicity across tick evaluation: an open position's
/// execution time survives a quote untouched — the position either stays
/// open or moves to the closed collection, in both cases carrying the
/// very same execution time.
pub proof fn lemma_tick_preserves_execution(
    l0: Ledger,
    l1: Ledger,
    symbols: Seq<crate::symbols::Symbol>,
    settings: SimBrokerSettings,
    sid: usize,
    bid: u64,
    ask: u64,
    now: u64,
    id: u64,
)
    requires
        l0.wf(),
        l1.wf(),
        crate::broker::ledger_ticked(l0, l1, symbols, settings, sid, bid, ask, now),
        seq_has_key(l0.open_positions@, id),
    ensures
        (seq_has_key(l1.open_positions@, id) && l1.open_positions.as_map()[id].pos.execution_time
            == l0.open_positions.as_map()[id].pos.execution_time) || (seq_has_key(
            l1.closed_positions@,
            id,
        ) && l1.closed_positions.as_map()[id].pos.execution_time
            == l0.open_positions.as_map()[id].pos.execution_time),
{
    let fp = crate::broker::fill_pred(sid, bid, ask);
    let cp = crate::broker::close_pred(sid, bid, ask);
    let kop = crate::broker::keep_open_pred(sid, bid, ask);
    let cm = crate::broker::close_map(bid, ask, now);
    let open0 = l0.open_positions@;
    let mid = open0 + l0.pending_positions@.filter(fp).map_values(
        crate::broker::fill_map(bid, ask, now),
    );
    let a0 = choose|a: int| 0 <= a < open0.len() && open0[a].0 == id;
    lemma_seq_as_map(open0);
    assert(mid[a0] == open0[a0]);
    if kop(mid[a0]) {
        mid.lemma_filter_contains(kop, a0);
        let j = choose|j: int|
            0 <= j < mid.filter(kop).len() && mid.filter(kop)[j] == mid[a0];
        assert(l1.open_positions@[j] == open0[a0]);
        assert(seq_has_key(l1.open_positions@, id));
        lemma_seq_as_map(l1.open_positions@);
        assert(l1.open_positions.as_map()[id] == open0[a0].1);
    } else {
        assert(cp(mid[a0]));
        mid.lemma_filter_contains(cp, a0);
        let j = choose|j: int| 0 <= j < mid.filter(cp).len() && mid.filter(cp)[j] == mid[a0];
        let closed_entry = cm(mid[a0]);
        assert(l1.closed_positions@[l0.closed_positions@.len() + j] == closed_entry);
        assert(closed_entry.0 == id);
        assert(seq_has_key(l1.closed_positions@, id));
        lemma_seq_as_map(l1.closed_positions@);
        assert(l1.closed_positions.as_map()[id] == closed_entry.1);
        assert(closed_entry.1.pos.execution_time == open0[a0].1.pos.execution_time);
    }
}

/// Delay law: an action submitted at client time `t` reaches the broker
/// at `t + ping_ns` (as `SimBroker::submit` schedules it), matures
/// `delay_of(action)` later, and its response is delivered one more
/// network delay after that (as `SimBroker::step` schedules and
/// delivers it): the client sees the response at
/// `t + delay_of(action) + 2 * ping_ns`, and a broker-side event at
/// broker time `T` is pushed to the client at `T + ping_ns`.
pub proof fn lemma_delay_law(settings: SimBrokerSettings, action: BrokerAction, t: u64)
    requires
        settings.wf(),
        t <= MAX_TIME_NS,
    ensures
        t + settings.ping_ns + settings.delay_of(action) + settings.ping_ns == t
            + settings.delay_of(action) + 2 * settings.ping_ns,
        t + settings.ping_ns + settings.delay_of(action) + settings.ping_ns <= u64::MAX,
{
}

/// Round trip: a `Ping` submitted at client time `t` matures at
/// `t + ping_ns` (pings take no processing time), is answered — by
/// `SimBroker::exec_action`'s contract — with `Pong { time_received }`
/// carrying exactly that instant, and the reply is delivered at
/// `t + 2 * ping_ns`.
pub proof fn lemma_ping_round_trip(settings: SimBrokerSettings, t: u64)
    requires
        settings.wf(),
        t <= MAX_TIME_NS,
    ensures
        t + settings.ping_ns + settings.delay_of(BrokerAction::Ping) == t + settings.ping_ns,
        t + settings.ping_ns + settings.delay_of(BrokerAction::Ping) + settings.ping_ns == t + 2
            * settings.ping_ns,
{
}

/// A single delivery batch keeps the log sorted: appending times that
/// all equal the current instant to a sorted log bounded by that
/// instant leaves it sorted.
pub proof fn lemma_delivery_batch_sorted(log: Seq<u64>, batch: Seq<u64>, now: u64)
    requires
        times_sorted(log),
        forall|i: int| 0 <= i < log.len() ==> (#[trigger] log[i]) <= now,
        forall|i: int| 0 <= i < batch.len() ==> (#[trigger] batch[i]) == now,
    ensures
        times_sorted(log + batch),
{
    assert forall|i: int, j: int| 0 <= i < j < (log + batch).len() implies (log + batch)[i] <= (log
        + batch)[j] by {
        if i < log.len() && j < log.len() {
            assert(log[i] <= log[j]);
        } else if i < log.len() {
            assert(log[i] <= now);
        }
    }
}

} // verus!
