//! The symbol table: per-symbol tick sources, current prices, FX flag and
//! decimal precision.
//!
//! Symbols are addressed internally by the dense index they were
//! registered at; lookups by name resolve to that index.  Each symbol
//! carries its remaining tick data as a finite sequence replayed in
//! timestamp order.

use vstd::prelude::*;

use crate::{Tick, MAX_TIME_NS};

verus! {

/// One tradable symbol.
pub struct Symbol {
    pub name: String,
    /// The symbol's historical tick data, in timestamp order.
    pub ticks: Vec<Tick>,
    /// Index of the next tick that has not yet been handed to the queue.
    pub cursor: usize,
    /// Current `(bid, ask)`, once the first tick (or a oneshot price) has
    /// arrived.
    pub price: Option<(u64, u64)>,
    pub is_fx: bool,
    pub decimal_precision: u32,
}

impl Symbol {
    /// Ticks are in timestamp order, within the representable horizon,
    /// the cursor is in range, and an FX symbol's name is a pair of
    /// three-letter currency codes.
    pub open spec fn wf(self) -> bool {
        &&& self.cursor <= self.ticks@.len()
        &&& forall|i: int, j: int|
            0 <= i < j < self.ticks@.len() ==> (#[trigger] self.ticks@[i]).timestamp <= (
            #[trigger] self.ticks@[j]).timestamp
        &&& forall|i: int|
            0 <= i < self.ticks@.len() ==> (#[trigger] self.ticks@[i]).timestamp <= MAX_TIME_NS
        &&& self.is_fx ==> self.name@.len() == 6 && self.name.is_ascii()
    }

    /// The tick the symbol would emit next, if any.
    pub open spec fn peek_tick(self) -> Option<Tick> {
        if self.cursor < self.ticks@.len() {
            Some(self.ticks@[self.cursor as int])
        } else {
            None
        }
    }

    /// Creates a symbol backed by a tick sequence.
    pub fn new_from_ticks(name: String, ticks: Vec<Tick>, is_fx: bool, decimal_precision: u32) -> (r:
        Symbol)
        requires
            forall|i: int, j: int|
                0 <= i < j < ticks@.len() ==> (#[trigger] ticks@[i]).timestamp <= (
                #[trigger] ticks@[j]).timestamp,
            forall|i: int| 0 <= i < ticks@.len() ==> (#[trigger] ticks@[i]).timestamp <= MAX_TIME_NS,
            is_fx ==> name@.len() == 6 && name.is_ascii(),
        ensures
            r.wf(),
            r.name == name,
            r.ticks@ == ticks@,
            r.cursor == 0,
            r.price is None,
            r.is_fx == is_fx,
            r.decimal_precision == decimal_precision,
    {
        Symbol { name, ticks, cursor: 0, price: None, is_fx, decimal_precision }
    }

    /// Creates a symbol with a static price and no tick source.
    pub fn new_oneshot(name: String, price: (u64, u64), is_fx: bool, decimal_precision: u32) -> (r:
        Symbol)
        requires
            is_fx ==> name@.len() == 6 && name.is_ascii(),
        ensures
            r.wf(),
            r.name == name,
            r.ticks@.len() == 0,
            r.cursor == 0,
            r.price == Some(price),
            r.is_fx == is_fx,
            r.decimal_precision == decimal_precision,
    {
        Symbol { name, ticks: Vec::new(), cursor: 0, price: Some(price), is_fx, decimal_precision }
    }

    /// Hands out the next tick of the symbol's data, or `None` when the
    /// source is exhausted.
    pub fn next(&mut self) -> (r: Option<Tick>)
        requires
            old(self).wf(),
        ensures
            final(self).wf(),
            r == old(self).peek_tick(),
            final(self).ticks@ == old(self).ticks@,
            final(self).name == old(self).name,
            final(self).price == old(self).price,
            final(self).is_fx == old(self).is_fx,
            final(self).decimal_precision == old(self).decimal_precision,
            r is Some ==> final(self).cursor == old(self).cursor + 1,
            r is None ==> final(self).cursor == old(self).cursor,
    {
        if self.cursor < self.ticks.len() {
            let t = self.ticks[self.cursor];
            self.cursor = self.cursor + 1;
            Some(t)
        } else {
            None
        }
    }
}

/// Does a symbol with this name occur in the sequence?
pub open spec fn symbols_have_name(s: Seq<Symbol>, name: Seq<char>) -> bool {
    exists|i: int| 0 <= i < s.len() && (#[trigger] s[i]).name@ == name
}

/// All registered symbols, in registration order.
pub struct Symbols {
    pub symbols: Vec<Symbol>,
}

impl Symbols {
    /// Every symbol is well formed and names are distinct.
    pub open spec fn wf(self) -> bool {
        &&& forall|i: int| 0 <= i < self.symbols@.len() ==> (#[trigger] self.symbols@[i]).wf()
        &&& forall|i: int, j: int|
            0 <= i < j < self.symbols@.len() ==> (#[trigger] self.symbols@[i]).name@ != (
            #[trigger] self.symbols@[j]).name@
    }

    pub fn new() -> (r: Symbols)
        ensures
            r.symbols@.len() == 0,
            r.wf(),
    {
        Symbols { symbols: Vec::new() }
    }

    pub fn len(&self) -> (r: usize)
        ensures
            r == self.symbols@.len(),
    {
        self.symbols.len()
    }

    /// The index a name is registered at, if any.
    pub fn find_index(&self, name: &String) -> (r: Option<usize>)
        ensures
            match r {
                Some(i) => i < self.symbols@.len() && self.symbols@[i as int].name@ == name@,
                None => !symbols_have_name(self.symbols@, name@),
            },
    {
        let n = self.symbols.len();
        let mut i: usize = 0;
        while i < n
            invariant
                n == self.symbols@.len(),
                i <= n,
                forall|j: int| 0 <= j < i ==> (#[trigger] self.symbols@[j]).name@ != name@,
            decreases n - i,
        {
            if self.symbols[i].name == *name {
                return Some(i);
            }
            i = i + 1;
        }
        None
    }

    pub fn contains(&self, name: &String) -> (r: bool)
        ensures
            r == symbols_have_name(self.symbols@, name@),
    {
        self.find_index(name).is_some()
    }

    /// Registers a symbol under a name not yet present, assigning it the
    /// next dense index.
    pub fn add(&mut self, symbol: Symbol)
        requires
            old(self).wf(),
            symbol.wf(),
            !symbols_have_name(old(self).symbols@, symbol.name@),
        ensures
            final(self).symbols@ == old(self).symbols@.push(symbol),
            final(self).wf(),
    {
        self.symbols.push(symbol);
        proof {
            let s = self.symbols@;
            let s0 = old(self).symbols@;
            assert forall|i: int, j: int| 0 <= i < j < s.len() implies (#[trigger] s[i]).name@ != (
            #[trigger] s[j]).name@ by {
                if j < s0.len() {
                    assert(s[i] == s0[i] && s[j] == s0[j]);
                } else {
                    assert(s[i] == s0[i]);
                    if s0[i].name@ == symbol.name@ {
                        assert(symbols_have_name(s0, symbol.name@));
                    }
                }
            }
        }
    }

    /// The current `(bid, ask)` quoted for a symbol index, if a price has
    /// arrived.
    pub fn price_at(&self, i: usize) -> (r: Option<(u64, u64)>)
        requires
            i < self.symbols@.len(),
        ensures
            r == self.symbols@[i as int].price,
    {
        self.symbols[i].price
    }

    /// Sets the current quote of a symbol index.
    pub fn set_price(&mut self, i: usize, price: (u64, u64))
        requires
            old(self).wf(),
            i < old(self).symbols@.len(),
        ensures
            final(self).wf(),
            final(self).symbols@ == old(self).symbols@.update(
                i as int,
                Symbol { price: Some(price), ..old(self).symbols@[i as int] },
            ),
    {
        let ghost s0 = self.symbols@;
        let mut sym = self.symbols.remove(i);
        sym.price = Some(price);
        self.symbols.insert(i, sym);
        proof {
            assert(self.symbols@ =~= s0.update(i as int, Symbol { price: Some(price), ..s0[i as int] }));
            assert forall|a: int| 0 <= a < self.symbols@.len() implies (
            #[trigger] self.symbols@[a]).wf() by {
                if a != i {
                    assert(self.symbols@[a] == s0[a]);
                }
            }
            assert forall|a: int, b: int| 0 <= a < b < self.symbols@.len() implies (
            #[trigger] self.symbols@[a]).name@ != (#[trigger] self.symbols@[b]).name@ by {
                assert(self.symbols@[a].name@ == s0[a].name@);
                assert(self.symbols@[b].name@ == s0[b].name@);
            }
        }
    }

    /// The tick a symbol index would emit next, without consuming it.
    pub fn peek_of(&self, i: usize) -> (r: Option<Tick>)
        requires
            i < self.symbols@.len(),
        ensures
            r == self.symbols@[i as int].peek_tick(),
    {
        let sym = &self.symbols[i];
        if sym.cursor < sym.ticks.len() {
            Some(sym.ticks[sym.cursor])
        } else {
            None
        }
    }

    /// Hands out the next tick of a symbol index.
    pub fn next_of(&mut self, i: usize) -> (r: Option<Tick>)
        requires
            old(self).wf(),
            i < old(self).symbols@.len(),
        ensures
            final(self).wf(),
            r == old(self).symbols@[i as int].peek_tick(),
            final(self).symbols@.len() == old(self).symbols@.len(),
            forall|a: int|
                0 <= a < final(self).symbols@.len() && a != i ==> final(self).symbols@[a] == old(
                    self,
                ).symbols@[a],
            final(self).symbols@[i as int].name == old(self).symbols@[i as int].name,
            final(self).symbols@[i as int].price == old(self).symbols@[i as int].price,
            final(self).symbols@[i as int].is_fx == old(self).symbols@[i as int].is_fx,
            final(self).symbols@[i as int].decimal_precision == old(self).symbols@[i as int].decimal_precision,
            final(self).symbols@[i as int].ticks@ == old(self).symbols@[i as int].ticks@,
            r is Some ==> final(self).symbols@[i as int].cursor == old(self).symbols@[i as int].cursor
                + 1,
            r is None ==> final(self).symbols@[i as int].cursor == old(self).symbols@[i as int].cursor,
    {
        let ghost s0 = self.symbols@;
        let mut sym = self.symbols.remove(i);
        let r = sym.next();
        self.symbols.insert(i, sym);
        proof {
            assert forall|a: int| 0 <= a < self.symbols@.len() implies (
            #[trigger] self.symbols@[a]).wf() by {
                if a != i {
                    assert(self.symbols@[a] == s0[a]);
                }
            }
            assert forall|a: int, b: int| 0 <= a < b < self.symbols@.len() implies (
            #[trigger] self.symbols@[a]).name@ != (#[trigger] self.symbols@[b]).name@ by {
                assert(self.symbols@[a].name@ == s0[a].name@);
                assert(self.symbols@[b].name@ == s0[b].name@);
            }
        }
        r
    }
}

} // verus!
