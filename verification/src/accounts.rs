//! The account registry: accounts addressed by their identity.

use vstd::prelude::*;

use crate::ledger::Ledger;

verus! {

/// One simulated account.
pub struct Account {
    pub uuid: u64,
    pub ledger: Ledger,
    /// `false` for a demo account.
    pub live: bool,
}

/// All accounts known to the broker.
pub struct Accounts {
    pub data: Vec<Account>,
}

/// Does an account with this identity occur in the sequence?
pub open spec fn accounts_have_id(s: Seq<Account>, id: u64) -> bool {
    exists|i: int| 0 <= i < s.len() && s[i].uuid == id
}

impl Accounts {
    /// Account identities are distinct and every ledger is well formed.
    pub open spec fn wf(self) -> bool {
        &&& forall|i: int, j: int|
            0 <= i < j < self.data@.len() ==> (#[trigger] self.data@[i]).uuid != (
            #[trigger] self.data@[j]).uuid
        &&& forall|i: int| 0 <= i < self.data@.len() ==> (#[trigger] self.data@[i]).ledger.wf()
    }

    pub fn new() -> (r: Accounts)
        ensures
            r.data@.len() == 0,
            r.wf(),
    {
        Accounts { data: Vec::new() }
    }

    /// Registers an account under an identity not yet present.
    pub fn insert(&mut self, account: Account)
        requires
            old(self).wf(),
            account.ledger.wf(),
            !accounts_have_id(old(self).data@, account.uuid),
        ensures
            final(self).data@ == old(self).data@.push(account),
            final(self).wf(),
    {
        self.data.push(account);
        proof {
            let s = self.data@;
            let s0 = old(self).data@;
            assert forall|i: int, j: int| 0 <= i < j < s.len() implies (#[trigger] s[i]).uuid != (
            #[trigger] s[j]).uuid by {
                if j < s0.len() {
                    assert(s[i] == s0[i] && s[j] == s0[j]);
                } else {
                    assert(s[i] == s0[i]);
                    assert(!(s0[i].uuid == account.uuid)) by {
                        if s0[i].uuid == account.uuid {
                            assert(accounts_have_id(s0, account.uuid));
                        }
                    }
                }
            }
        }
    }

    /// The index holding an account identity, if any.
    pub fn find_index(&self, id: u64) -> (r: Option<usize>)
        ensures
            match r {
                Some(i) => i < self.data@.len() && self.data@[i as int].uuid == id,
                None => !accounts_have_id(self.data@, id),
            },
    {
        let n = self.data.len();
        let mut i: usize = 0;
        while i < n
            invariant
                n == self.data@.len(),
                i <= n,
                forall|j: int| 0 <= j < i ==> (#[trigger] self.data@[j]).uuid != id,
            decreases n - i,
        {
            if self.data[i].uuid == id {
                return Some(i);
            }
            i = i + 1;
        }
        None
    }
}

} // verus!
