//! A minimal ledger: account balances with an atomic transfer primitive.
//!
//! The ledger records every account's balance together with the total
//! supply ever minted.  Because the sum of all balances always equals that
//! `u64` total, a transfer can never overflow the receiving balance, and
//! every settlement the lifecycle performs conserves funds exactly.

use vstd::prelude::*;
use vstd::pervasive::VecAdditionalExecFns;
use crate::account::Account;
use crate::assoc;
use crate::errors::Error;

verus! {

/// The sum of all balances recorded in the entry sequence.
pub open spec fn sum_balances(s: Seq<(Account, u64)>) -> int
    decreases s.len(),
{
    if s.len() == 0 {
        0
    } else {
        s[0].1 + sum_balances(s.drop_first())
    }
}

/// Every balance is non-negative, so the sum is too.
pub proof fn lemma_sum_nonneg(s: Seq<(Account, u64)>)
    ensures
        sum_balances(s) >= 0,
    decreases s.len(),
{
    if s.len() > 0 {
        lemma_sum_nonneg(s.drop_first());
    }
}

/// Appending an entry adds its balance to the sum.
pub proof fn lemma_sum_push(s: Seq<(Account, u64)>, e: (Account, u64))
    ensures
        sum_balances(s.push(e)) == sum_balances(s) + e.1,
    decreases s.len(),
{
    if s.len() == 0 {
        assert(s.push(e)[0] == e);
        assert(s.push(e).drop_first() =~= Seq::<(Account, u64)>::empty());
        assert(sum_balances(Seq::<(Account, u64)>::empty()) == 0);
    } else {
        assert(s.push(e)[0] == s[0]);
        assert(s.push(e).drop_first() =~= s.drop_first().push(e));
        lemma_sum_push(s.drop_first(), e);
    }
}

/// Replacing the entry at `i` shifts the sum by the balance difference.
pub proof fn lemma_sum_update(s: Seq<(Account, u64)>, i: int, e: (Account, u64))
    requires
        0 <= i < s.len(),
    ensures
        sum_balances(s.update(i, e)) == sum_balances(s) - s[i].1 + e.1,
    decreases i,
{
    if i == 0 {
        assert(s.update(0, e)[0] == e);
        assert(s.update(0, e).drop_first() =~= s.drop_first());
    } else {
        assert(s.update(i, e)[0] == s[0]);
        assert(s.update(i, e).drop_first() =~= s.drop_first().update(i - 1, e));
        assert(s.drop_first()[i - 1] == s[i]);
        lemma_sum_update(s.drop_first(), i - 1, e);
    }
}

/// A single balance never exceeds the sum.
pub proof fn lemma_sum_single_bound(s: Seq<(Account, u64)>, i: int)
    requires
        0 <= i < s.len(),
    ensures
        s[i].1 <= sum_balances(s),
    decreases i,
{
    lemma_sum_nonneg(s.drop_first());
    if i > 0 {
        assert(s.drop_first()[i - 1] == s[i]);
        lemma_sum_single_bound(s.drop_first(), i - 1);
    }
}

/// Two distinct balances together never exceed the sum.
pub proof fn lemma_sum_pair_bound(s: Seq<(Account, u64)>, i: int, j: int)
    requires
        0 <= i < s.len(),
        0 <= j < s.len(),
        i != j,
    ensures
        s[i].1 + s[j].1 <= sum_balances(s),
    decreases i + j,
{
    if i == 0 {
        assert(s.drop_first()[j - 1] == s[j]);
        lemma_sum_single_bound(s.drop_first(), j - 1);
    } else if j == 0 {
        assert(s.drop_first()[i - 1] == s[i]);
        lemma_sum_single_bound(s.drop_first(), i - 1);
    } else {
        assert(s.drop_first()[i - 1] == s[i]);
        assert(s.drop_first()[j - 1] == s[j]);
        lemma_sum_nonneg(s);
        lemma_sum_pair_bound(s.drop_first(), i - 1, j - 1);
    }
}

/// Account balances, with the total supply they sum to.
pub struct Ledger {
    entries: Vec<(Account, u64)>,
    total: u64,
}

impl Ledger {
    /// The recorded entries, one per account that was ever touched.
    pub closed spec fn entries_seq(self) -> Seq<(Account, u64)> {
        self.entries@
    }

    /// Balances are per-account records with distinct keys, and they sum to
    /// the recorded total supply, so no balance can exceed `u64::MAX`.
    pub closed spec fn wf(self) -> bool {
        &&& assoc::unique_keys(self.entries@)
        &&& sum_balances(self.entries@) == self.total
    }

    /// The total supply ever minted.
    pub closed spec fn spec_total(self) -> u64 {
        self.total
    }

    /// The balance of `a`; an account never touched holds zero.
    pub closed spec fn spec_balance(self, a: Account) -> u64 {
        match assoc::find(self.entries@, a) {
            Some(v) => v,
            None => 0,
        }
    }

    /// An empty ledger: no supply, every balance zero.
    pub fn new() -> (l: Ledger)
        ensures
            l.wf(),
            l.spec_total() == 0,
            forall|a: Account| l.spec_balance(a) == 0,
    {
        let l = Ledger { entries: Vec::new(), total: 0 };
        proof {
            assert forall|a: Account| l.spec_balance(a) == 0 by {
                assert(assoc::find(l.entries@, a) is None);
            }
        }
        l
    }

    /// The index of `a`'s entry, adding a zero entry if none exists yet.
    fn ensure_entry(&mut self, a: Account) -> (i: usize)
        requires
            old(self).wf(),
        ensures
            final(self).wf(),
            i < final(self).entries_seq().len(),
            final(self).entries_seq()[i as int].0 == a,
            final(self).entries_seq()[i as int].1 == old(self).spec_balance(a),
            final(self).spec_total() == old(self).spec_total(),
            forall|b: Account| final(self).spec_balance(b) == old(self).spec_balance(b),
            final(self).entries_seq() == old(self).entries_seq()
                || final(self).entries_seq() == old(self).entries_seq().push((a, 0u64)),
    {
        let mut i: usize = 0;
        while i < self.entries.len()
            invariant
                *self == *old(self),
                old(self).wf(),
                i <= self.entries@.len(),
                forall|j: int| 0 <= j < i ==> (#[trigger] self.entries@[j]).0 != a,
            decreases self.entries@.len() - i,
        {
            if self.entries[i].0 == a {
                proof {
                    assoc::lemma_find_present(self.entries@, i as int);
                }
                return i;
            }
            i = i + 1;
        }
        proof {
            assoc::lemma_find_absent(self.entries@, a);
            assoc::lemma_unique_push(self.entries@, (a, 0u64));
            lemma_sum_push(self.entries@, (a, 0u64));
        }
        let ghost pre = self.entries@;
        self.entries.push((a, 0));
        proof {
            assert forall|b: Account| self.spec_balance(b) == old(self).spec_balance(b) by {
                assoc::lemma_find_push(pre, (a, 0u64), b);
            }
        }
        self.entries.len() - 1
    }

    /// Record newly issued funds on `a`.  The host endows accounts this
    /// way; the lifecycle itself only ever moves existing funds.
    pub fn mint(&mut self, a: Account, amount: u64)
        requires
            old(self).wf(),
            old(self).spec_total() + amount <= u64::MAX,
        ensures
            final(self).wf(),
            final(self).spec_total() == old(self).spec_total() + amount,
            final(self).spec_balance(a) == old(self).spec_balance(a) + amount,
            forall|b: Account| b != a ==> final(self).spec_balance(b) == old(self).spec_balance(b),
    {
        let i = self.ensure_entry(a);
        let v = self.entries[i].1;
        proof {
            lemma_sum_single_bound(self.entries@, i as int);
            lemma_sum_update(self.entries@, i as int, (a, (v + amount) as u64));
            assoc::lemma_unique_update(self.entries@, i as int, (a, (v + amount) as u64));
        }
        let ghost pre = self.entries@;
        self.entries.set(i, (a, v + amount));
        proof {
            assert forall|b: Account| b != a implies self.spec_balance(b) == old(self).spec_balance(b) by {
                assoc::lemma_find_update(pre, i as int, (a, (v + amount) as u64), b);
            }
            assoc::lemma_find_update(pre, i as int, (a, (v + amount) as u64), a);
        }
        self.total = self.total + amount;
    }

    /// Move `amount` from `from` to `to` atomically: either the full amount
    /// moves, or — exactly when `from`'s balance is short — nothing does.
    pub fn transfer(&mut self, from: Account, to: Account, amount: u64) -> (r: Result<(), Error>)
        requires
            old(self).wf(),
            from != to,
        ensures
            final(self).wf(),
            final(self).spec_total() == old(self).spec_total(),
            old(self).spec_balance(from) < amount ==> {
                &&& r == Result::<(), Error>::Err(Error::InsufficientFunds)
                &&& forall|b: Account| final(self).spec_balance(b) == old(self).spec_balance(b)
            },
            old(self).spec_balance(from) >= amount ==> {
                &&& r is Ok
                &&& final(self).spec_balance(from) == old(self).spec_balance(from) - amount
                &&& final(self).spec_balance(to) == old(self).spec_balance(to) + amount
                &&& forall|b: Account|
                    b != from && b != to ==> final(self).spec_balance(b) == old(self).spec_balance(b)
            },
    {
        let i = self.ensure_entry(from);
        let bi = self.entries[i].1;
        if bi < amount {
            return Err(Error::InsufficientFunds);
        }
        let j = self.ensure_entry(to);
        let bj = self.entries[j].1;
        proof {
            assert(self.entries@[i as int].0 == from);
            assert(self.entries@[j as int].0 == to);
            assert(i != j);
            lemma_sum_pair_bound(self.entries@, i as int, j as int);
        }
        let ghost pre1 = self.entries@;
        self.entries.set(i, (from, bi - amount));
        proof {
            lemma_sum_update(pre1, i as int, (from, (bi - amount) as u64));
            assoc::lemma_unique_update(pre1, i as int, (from, (bi - amount) as u64));
        }
        let ghost pre2 = self.entries@;
        self.entries.set(j, (to, bj + amount));
        proof {
            lemma_sum_update(pre2, j as int, (to, (bj + amount) as u64));
            assoc::lemma_unique_update(pre2, j as int, (to, (bj + amount) as u64));
            assoc::lemma_find_update(pre1, i as int, (from, (bi - amount) as u64), from);
            assoc::lemma_find_update(pre2, j as int, (to, (bj + amount) as u64), from);
            assoc::lemma_find_update(pre1, i as int, (from, (bi - amount) as u64), to);
            assoc::lemma_find_update(pre2, j as int, (to, (bj + amount) as u64), to);
            assert forall|b: Account|
                b != from && b != to implies self.spec_balance(b) == old(self).spec_balance(b) by {
                assoc::lemma_find_update(pre1, i as int, (from, (bi - amount) as u64), b);
                assoc::lemma_find_update(pre2, j as int, (to, (bj + amount) as u64), b);
            }
        }
        Ok(())
    }

    /// Read `a`'s balance.
    pub fn balance_of(&self, a: Account) -> (r: u64)
        requires
            self.wf(),
        ensures
            r == self.spec_balance(a),
    {
        let mut i: usize = 0;
        while i < self.entries.len()
            invariant
                i <= self.entries@.len(),
                forall|j: int| 0 <= j < i ==> (#[trigger] self.entries@[j]).0 != a,
            decreases self.entries@.len() - i,
        {
            if self.entries[i].0 == a {
                proof {
                    assoc::lemma_find_present(self.entries@, i as int);
                }
                return self.entries[i].1;
            }
            i = i + 1;
        }
        proof {
            assoc::lemma_find_absent(self.entries@, a);
        }
        0
    }
}

} // verus!
