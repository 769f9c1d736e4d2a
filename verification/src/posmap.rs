//! An insertion-ordered map from position ids to position records.
//!
//! The ledger keeps its pending, open and closed positions in these.  A
//! plain vector of key/value pairs with unique keys keeps iteration order
//! deterministic (insertion order), which the simulation relies on for
//! reproducible runs; a derived `Map` view supports the ledger's
//! map-level invariants.

use vstd::prelude::*;

use crate::objects::Position;

verus! {

/// A position record together with the margin that was posted for it when
/// it entered the ledger.  The margin is returned to the accounting
/// equation when the position leaves.
#[derive(Clone, Copy, PartialEq, Eq, Structural, Debug)]
pub struct PosEntry {
    pub pos: Position,
    pub margin: u64,
}

/// Does a key occur in a sequence of entries?
pub open spec fn seq_has_key(s: Seq<(u64, PosEntry)>, k: u64) -> bool {
    exists|i: int| 0 <= i < s.len() && s[i].0 == k
}

/// Are all keys in a sequence of entries distinct?
pub open spec fn keys_unique(s: Seq<(u64, PosEntry)>) -> bool {
    forall|i: int, j: int| 0 <= i < j < s.len() ==> s[i].0 != s[j].0
}

/// No key occurs in both sequences.
pub open spec fn keys_disjoint(a: Seq<(u64, PosEntry)>, b: Seq<(u64, PosEntry)>) -> bool {
    forall|k: u64| !(seq_has_key(a, k) && seq_has_key(b, k))
}

/// The map described by a sequence of entries (later entries win, though
/// with unique keys there is nothing to win).
pub open spec fn seq_as_map(s: Seq<(u64, PosEntry)>) -> Map<u64, PosEntry>
    decreases s.len(),
{
    if s.len() == 0 {
        Map::empty()
    } else {
        seq_as_map(s.drop_last()).insert(s.last().0, s.last().1)
    }
}

/// The sum of the posted margins of all entries.
pub open spec fn sum_margins(s: Seq<(u64, PosEntry)>) -> int
    decreases s.len(),
{
    if s.len() == 0 {
        0
    } else {
        sum_margins(s.drop_last()) + s.last().1.margin
    }
}

/// A key is in the derived map exactly when it occurs in the sequence,
/// and with unique keys each entry is the map's value for its key.
pub proof fn lemma_seq_as_map(s: Seq<(u64, PosEntry)>)
    ensures
        forall|k: u64| #[trigger] seq_as_map(s).contains_key(k) <==> seq_has_key(s, k),
        keys_unique(s) ==> forall|i: int|
            0 <= i < s.len() ==> seq_as_map(s)[(#[trigger] s[i]).0] == s[i].1,
    decreases s.len(),
{
    if s.len() > 0 {
        lemma_seq_as_map(s.drop_last());
        assert forall|k: u64| #[trigger] seq_as_map(s).contains_key(k) implies seq_has_key(s, k) by {
            if k == s.last().0 {
                assert(s[s.len() - 1].0 == k);
            } else {
                assert(seq_as_map(s.drop_last()).contains_key(k));
                let i = choose|i: int| 0 <= i < s.drop_last().len() && s.drop_last()[i].0 == k;
                assert(s.drop_last()[i] == s[i]);
                assert(s[i].0 == k);
            }
        }
        assert forall|k: u64| seq_has_key(s, k) implies #[trigger] seq_as_map(s).contains_key(k) by {
            let i = choose|i: int| 0 <= i < s.len() && s[i].0 == k;
            if i < s.len() - 1 {
                assert(s.drop_last()[i] == s[i]);
                assert(seq_has_key(s.drop_last(), k));
                assert(seq_as_map(s.drop_last()).contains_key(k));
            }
        }
        if keys_unique(s) {
            assert(keys_unique(s.drop_last()));
            assert forall|i: int| 0 <= i < s.len() implies seq_as_map(s)[(#[trigger] s[i]).0]
                == s[i].1 by {
                if i < s.len() - 1 {
                    assert(s.drop_last()[i] == s[i]);
                    assert(s[i].0 != s.last().0);
                }
            }
        }
    }
}

/// Appending an entry inserts it into the derived map.
pub proof fn lemma_seq_as_map_push(s: Seq<(u64, PosEntry)>, k: u64, e: PosEntry)
    ensures
        seq_as_map(s.push((k, e))) == seq_as_map(s).insert(k, e),
        sum_margins(s.push((k, e))) == sum_margins(s) + e.margin,
{
    assert(s.push((k, e)).drop_last() =~= s);
    assert(s.push((k, e)).last() == (k, e));
}

/// Sums distribute over concatenation.
pub proof fn lemma_sum_margins_concat(a: Seq<(u64, PosEntry)>, b: Seq<(u64, PosEntry)>)
    ensures
        sum_margins(a + b) == sum_margins(a) + sum_margins(b),
    decreases b.len(),
{
    if b.len() == 0 {
        assert(a + b =~= a);
    } else {
        lemma_sum_margins_concat(a, b.drop_last());
        assert((a + b).drop_last() =~= a + b.drop_last());
        assert((a + b).last() == b.last());
    }
}

/// Removing the entry at an index removes its key from the derived map
/// and its margin from the sum.
pub proof fn lemma_seq_as_map_remove(s: Seq<(u64, PosEntry)>, i: int)
    requires
        keys_unique(s),
        0 <= i < s.len(),
    ensures
        seq_as_map(s.remove(i)) == seq_as_map(s).remove(s[i].0),
        sum_margins(s.remove(i)) == sum_margins(s) - s[i].1.margin,
        keys_unique(s.remove(i)),
        forall|k: u64| #[trigger] seq_has_key(s.remove(i), k) <==> seq_has_key(s, k) && k != s[i].0,
    decreases s.len(),
{
    lemma_seq_as_map(s);
    lemma_seq_as_map(s.remove(i));
    let r = s.remove(i);
    assert forall|k: u64| #[trigger] seq_has_key(r, k) implies seq_has_key(s, k) && k != s[i].0 by {
        let j = choose|j: int| 0 <= j < r.len() && r[j].0 == k;
        if j < i {
            assert(s[j].0 == k);
        } else {
            assert(s[j + 1].0 == k);
        }
    }
    assert forall|k: u64| seq_has_key(s, k) && k != s[i].0 implies #[trigger] seq_has_key(r, k) by {
        let j = choose|j: int| 0 <= j < s.len() && s[j].0 == k;
        if j < i {
            assert(r[j].0 == k);
        } else {
            assert(r[j - 1].0 == k);
        }
    }
    assert forall|i2: int, j2: int| 0 <= i2 < j2 < r.len() implies r[i2].0 != r[j2].0 by {
        let si = if i2 < i { i2 } else { i2 + 1 };
        let sj = if j2 < i { j2 } else { j2 + 1 };
        assert(r[i2] == s[si] && r[j2] == s[sj]);
    }
    // The two maps agree on every key.
    lemma_seq_as_map_values(s, i);
    assert(seq_as_map(r) =~= seq_as_map(s).remove(s[i].0));
    lemma_sum_margins_remove(s, i);
}

/// With unique keys, every entry of `s.remove(i)` keeps its value in the
/// derived map.
proof fn lemma_seq_as_map_values(s: Seq<(u64, PosEntry)>, i: int)
    requires
        keys_unique(s),
        0 <= i < s.len(),
    ensures
        forall|j: int|
            0 <= j < s.remove(i).len() ==> seq_as_map(s.remove(i))[(#[trigger] s.remove(i)[j]).0]
                == s.remove(i)[j].1,
{
    assert forall|i2: int, j2: int| 0 <= i2 < j2 < s.remove(i).len() implies s.remove(i)[i2].0
        != s.remove(i)[j2].0 by {
        let si = if i2 < i { i2 } else { i2 + 1 };
        let sj = if j2 < i { j2 } else { j2 + 1 };
        assert(s.remove(i)[i2] == s[si] && s.remove(i)[j2] == s[sj]);
    }
    lemma_seq_as_map(s.remove(i));
}

/// Removing an index subtracts that entry's margin from the sum.
proof fn lemma_sum_margins_remove(s: Seq<(u64, PosEntry)>, i: int)
    requires
        0 <= i < s.len(),
    ensures
        sum_margins(s.remove(i)) == sum_margins(s) - s[i].1.margin,
    decreases s.len(),
{
    if i == s.len() - 1 {
        assert(s.remove(i) =~= s.drop_last());
    } else {
        assert(s.remove(i).drop_last() =~= s.drop_last().remove(i));
        assert(s.remove(i).last() == s.last());
        lemma_sum_margins_remove(s.drop_last(), i);
        assert(s.drop_last()[i] == s[i]);
    }
}

/// Replacing the entry at an index with one carrying the same key updates
/// the derived map in place.
pub proof fn lemma_seq_as_map_update(s: Seq<(u64, PosEntry)>, i: int, e: PosEntry)
    requires
        keys_unique(s),
        0 <= i < s.len(),
    ensures
        seq_as_map(s.update(i, (s[i].0, e))) == seq_as_map(s).insert(s[i].0, e),
        sum_margins(s.update(i, (s[i].0, e))) == sum_margins(s) - s[i].1.margin + e.margin,
        keys_unique(s.update(i, (s[i].0, e))),
        forall|k: u64| #[trigger] seq_has_key(s.update(i, (s[i].0, e)), k) <==> seq_has_key(s, k),
    decreases s.len(),
{
    let u = s.update(i, (s[i].0, e));
    assert forall|k: u64| #[trigger] seq_has_key(u, k) <==> seq_has_key(s, k) by {
        if seq_has_key(u, k) {
            let j = choose|j: int| 0 <= j < u.len() && u[j].0 == k;
            assert(s[j].0 == k);
        }
        if seq_has_key(s, k) {
            let j = choose|j: int| 0 <= j < s.len() && s[j].0 == k;
            assert(u[j].0 == k);
        }
    }
    if i == s.len() - 1 {
        assert(u.drop_last() =~= s.drop_last());
        lemma_seq_as_map(s.drop_last());
        assert(seq_as_map(u) =~= seq_as_map(s).insert(s[i].0, e));
    } else {
        assert(u.drop_last() =~= s.drop_last().update(i, (s[i].0, e)));
        assert(u.last() == s.last());
        assert(s.drop_last()[i] == s[i]);
        lemma_seq_as_map_update(s.drop_last(), i, e);
        assert(seq_as_map(u) =~= seq_as_map(s).insert(s[i].0, e));
    }
}

/// An insertion-ordered association of position ids to entries.
pub struct PosMap {
    entries: Vec<(u64, PosEntry)>,
}

impl View for PosMap {
    type V = Seq<(u64, PosEntry)>;

    closed spec fn view(&self) -> Seq<(u64, PosEntry)> {
        self.entries@
    }
}

impl PosMap {
    /// All keys are distinct.
    pub open spec fn wf(self) -> bool {
        keys_unique(self@)
    }

    /// The map this association describes.
    pub open spec fn as_map(self) -> Map<u64, PosEntry> {
        seq_as_map(self@)
    }

    pub fn new() -> (r: PosMap)
        ensures
            r@ =~= Seq::<(u64, PosEntry)>::empty(),
            r.wf(),
    {
        PosMap { entries: Vec::new() }
    }

    /// Rebuilds a map from a vector of entries with distinct keys.
    pub fn from_entries(entries: Vec<(u64, PosEntry)>) -> (r: PosMap)
        requires
            keys_unique(entries@),
        ensures
            r@ == entries@,
            r.wf(),
    {
        PosMap { entries }
    }

    pub fn len(&self) -> (r: usize)
        ensures
            r == self@.len(),
    {
        self.entries.len()
    }

    /// The entry at a position of the iteration order.
    pub fn entry_at(&self, i: usize) -> (r: (u64, PosEntry))
        requires
            i < self@.len(),
        ensures
            r == self@[i as int],
    {
        self.entries[i]
    }

    /// The index holding a key, if any.
    pub fn find_index(&self, id: u64) -> (r: Option<usize>)
        ensures
            match r {
                Some(i) => i < self@.len() && self@[i as int].0 == id,
                None => !seq_has_key(self@, id),
            },
    {
        let n = self.entries.len();
        let mut i: usize = 0;
        while i < n
            invariant
                n == self@.len(),
                i <= n,
                forall|j: int| 0 <= j < i ==> self@[j].0 != id,
            decreases n - i,
        {
            if self.entries[i].0 == id {
                return Some(i);
            }
            i = i + 1;
        }
        None
    }

    pub fn contains_key(&self, id: u64) -> (r: bool)
        ensures
            r == seq_has_key(self@, id),
    {
        self.find_index(id).is_some()
    }

    /// The entry stored under a key.
    pub fn get(&self, id: u64) -> (r: Option<PosEntry>)
        requires
            self.wf(),
        ensures
            match r {
                Some(e) => seq_has_key(self@, id) && self.as_map().contains_key(id)
                    && self.as_map()[id] == e,
                None => !seq_has_key(self@, id) && !self.as_map().contains_key(id),
            },
    {
        proof {
            lemma_seq_as_map(self@);
        }
        match self.find_index(id) {
            Some(i) => Some(self.entries[i].1),
            None => None,
        }
    }

    /// Appends an entry under a key not yet present.
    pub fn insert(&mut self, id: u64, e: PosEntry)
        requires
            old(self).wf(),
            !seq_has_key(old(self)@, id),
        ensures
            final(self)@ == old(self)@.push((id, e)),
            final(self).wf(),
            final(self).as_map() == old(self).as_map().insert(id, e),
            sum_margins(final(self)@) == sum_margins(old(self)@) + e.margin,
            forall|k: u64| #[trigger] seq_has_key(final(self)@, k) <==> seq_has_key(old(self)@, k)
                || k == id,
    {
        proof {
            lemma_seq_as_map_push(old(self)@, id, e);
        }
        self.entries.push((id, e));
        proof {
            let s = self@;
            let s0 = old(self)@;
            assert forall|k: u64| #[trigger] seq_has_key(s, k) <==> seq_has_key(s0, k) || k
                == id by {
                if seq_has_key(s, k) {
                    let j = choose|j: int| 0 <= j < s.len() && s[j].0 == k;
                    if j < s0.len() {
                        assert(s0[j].0 == k);
                    }
                }
                if seq_has_key(s0, k) {
                    let j = choose|j: int| 0 <= j < s0.len() && s0[j].0 == k;
                    assert(s[j].0 == k);
                }
                if k == id {
                    assert(s[s.len() - 1].0 == k);
                }
            }
        }
    }

    /// Replaces the entry under a key already present.
    pub fn update(&mut self, id: u64, e: PosEntry)
        requires
            old(self).wf(),
            seq_has_key(old(self)@, id),
        ensures
            final(self).wf(),
            exists|i: int|
                0 <= i < old(self)@.len() && old(self)@[i].0 == id && final(self)@ == old(
                    self,
                )@.update(i, (id, e)),
            final(self).as_map() == old(self).as_map().insert(id, e),
            sum_margins(final(self)@) == sum_margins(old(self)@) - old(self).as_map()[id].margin
                + e.margin,
            forall|k: u64| #[trigger] seq_has_key(final(self)@, k) <==> seq_has_key(old(self)@, k),
    {
        proof {
            lemma_seq_as_map(old(self)@);
        }
        match self.find_index(id) {
            Some(i) => {
                proof {
                    lemma_seq_as_map_update(self@, i as int, e);
                }
                self.entries.set(i, (id, e));
            },
            None => {
                proof {
                    assert(false);
                }
            },
        }
    }

    /// Removes and returns the entry under a key.
    pub fn remove(&mut self, id: u64) -> (r: Option<PosEntry>)
        requires
            old(self).wf(),
        ensures
            final(self).wf(),
            match r {
                Some(e) => seq_has_key(old(self)@, id) && old(self).as_map()[id] == e && exists|
                    i: int,
                |
                    0 <= i < old(self)@.len() && old(self)@[i].0 == id && final(self)@ == old(
                        self,
                    )@.remove(i),
                None => !seq_has_key(old(self)@, id) && final(self)@ == old(self)@,
            },
            final(self).as_map() == old(self).as_map().remove(id),
            sum_margins(final(self)@) == sum_margins(old(self)@) - if seq_has_key(old(self)@, id) {
                old(self).as_map()[id].margin as int
            } else {
                0
            },
            forall|k: u64| #[trigger] seq_has_key(final(self)@, k) <==> seq_has_key(old(self)@, k)
                && k != id,
    {
        proof {
            lemma_seq_as_map(old(self)@);
        }
        match self.find_index(id) {
            Some(i) => {
                proof {
                    lemma_seq_as_map_remove(self@, i as int);
                }
                let (_, e) = self.entries.remove(i);
                Some(e)
            },
            None => {
                proof {
                    assert(final(self).as_map() =~= old(self).as_map().remove(id));
                }
                None
            },
        }
    }

    /// A copy of this map.
    pub fn duplicate(&self) -> (r: PosMap)
        ensures
            r@ == self@,
    {
        let n = self.entries.len();
        let mut out: Vec<(u64, PosEntry)> = Vec::new();
        let mut i: usize = 0;
        while i < n
            invariant
                n == self@.len(),
                i <= n,
                out@ == self@.take(i as int),
            decreases n - i,
        {
            out.push(self.entries[i]);
            proof {
                assert(out@ =~= self@.take(i + 1));
            }
            i = i + 1;
        }
        proof {
            assert(self@.take(n as int) =~= self@);
        }
        PosMap { entries: out }
    }
}

} // verus!
