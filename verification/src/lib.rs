//! A deterministic simulated brokerage engine for historical-data backtests.
//!
//! Market ticks, client requests, broker-side executions and client-bound
//! responses are merged into one timestamp-ordered event queue; positions
//! move through a pending / open / closed lifecycle driven by tick prices,
//! and a ledger accounts for balance and posted margin.  All prices are
//! integers in a symbol's fixed decimal precision; there is no floating
//! point anywhere in the money path.

use vstd::prelude::*;

pub mod objects;
pub mod posmap;
pub mod ledger;
pub mod accounts;
pub mod symbols;
pub mod settings;
pub mod queue;
pub mod broker;
pub mod laws;

verus! {

/// Upper bound on simulation timestamps (in nanoseconds) accepted at the
/// engine's inputs.  Delays are bounded by the same constant, so every
/// timestamp ever placed on the event queue fits in a `u64` with room to
/// add two network delays and one processing delay (4 * 2^61 < 2^64).
pub const MAX_TIME_NS: u64 = 0x2000_0000_0000_0000;

/// A single market quote: integer prices in the symbol's fixed decimal
/// precision, timestamp in nanoseconds.
#[derive(Clone, Copy, PartialEq, Eq, Structural, Debug)]
pub struct Tick {
    pub timestamp: u64,
    pub bid: u64,
    pub ask: u64,
}

/// 10^e as a mathematical integer.
pub open spec fn pow10(e: nat) -> nat
    decreases e,
{
    if e == 0 {
        1
    } else {
        10 * pow10((e - 1) as nat)
    }
}

/// `pow10` is monotone in its exponent.
pub proof fn lemma_pow10_mono(a: nat, b: nat)
    requires
        a <= b,
    ensures
        pow10(a) <= pow10(b),
    decreases b,
{
    if a < b {
        lemma_pow10_mono(a, (b - 1) as nat);
    }
}

/// `pow10` is positive.
pub proof fn lemma_pow10_pos(e: nat)
    ensures
        pow10(e) >= 1,
    decreases e,
{
    if e > 0 {
        lemma_pow10_pos((e - 1) as nat);
    }
}

/// A value with `src` decimal places, re-expressed with `dst` decimal
/// places: scaled up by a power of ten, or scaled down with truncation.
pub open spec fn convert_decimals_spec(value: u64, src: u32, dst: u32) -> int {
    if dst >= src {
        value * pow10((dst - src) as nat)
    } else {
        value as int / pow10((src - dst) as nat) as int
    }
}

/// Re-expressing a non-negative value is non-negative.
pub proof fn lemma_convert_decimals_nonneg(value: u64, src: u32, dst: u32)
    ensures
        convert_decimals_spec(value, src, dst) >= 0,
{
    if dst >= src {
        lemma_pow10_pos((dst - src) as nat);
        assert(value * pow10((dst - src) as nat) >= 0) by (nonlinear_arith)
            requires
                value >= 0,
                pow10((dst - src) as nat) >= 1,
        ;
    } else {
        lemma_pow10_pos((src - dst) as nat);
    }
}

/// 10^e as a `u64`, or `None` when it does not fit.
pub fn pow10_checked(e: u32) -> (r: Option<u64>)
    ensures
        match r {
            Some(p) => p == pow10(e as nat) && pow10(e as nat) <= u64::MAX,
            None => pow10(e as nat) > u64::MAX,
        },
{
    let mut acc: u64 = 1;
    let mut i: u32 = 0;
    while i < e
        invariant
            i <= e,
            acc == pow10(i as nat),
            pow10(i as nat) <= u64::MAX,
        decreases e - i,
    {
        match acc.checked_mul(10) {
            Some(next) => {
                acc = next;
            },
            None => {
                proof {
                    lemma_pow10_mono((i + 1) as nat, e as nat);
                }
                return None;
            },
        }
        i = i + 1;
    }
    Some(acc)
}

/// Re-expresses `value`, given with `src` decimal places, with `dst`
/// decimal places.  Scaling down truncates; scaling up returns `None`
/// exactly when the result does not fit in a `u64`.
pub fn convert_decimals(value: u64, src: u32, dst: u32) -> (r: Option<u64>)
    ensures
        match r {
            Some(v) => v == convert_decimals_spec(value, src, dst),
            None => convert_decimals_spec(value, src, dst) > u64::MAX,
        },
{
    if dst >= src {
        let e: u32 = dst - src;
        match pow10_checked(e) {
            Some(p) => {
                match value.checked_mul(p) {
                    Some(v) => Some(v),
                    None => None,
                }
            },
            None => {
                if value == 0 {
                    proof {
                        assert(0 * pow10((dst - src) as nat) == 0) by (nonlinear_arith);
                    }
                    Some(0)
                } else {
                    proof {
                        assert(value * pow10(e as nat) >= 1 * pow10(e as nat))
                            by (nonlinear_arith)
                            requires
                                value >= 1,
                                pow10(e as nat) > 0,
                        ;
                    }
                    None
                }
            },
        }
    } else {
        let e: u32 = src - dst;
        match pow10_checked(e) {
            Some(p) => {
                proof {
                    lemma_pow10_pos(e as nat);
                }
                Some(value / p)
            },
            None => {
                proof {
                    assert(value as int / pow10(e as nat) as int == 0) by (nonlinear_arith)
                        requires
                            0 <= value <= u64::MAX,
                            pow10(e as nat) > u64::MAX,
                    ;
                }
                Some(0)
            },
        }
    }
}

} // verus!
