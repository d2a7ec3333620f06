//! The reverse ownership index: for each account, the ordered collection of
//! task identifiers it currently holds.
//!
//! The index is bounded per account; the capacity check itself is made by
//! the lifecycle, which knows the configured limit.

use vstd::prelude::*;
use crate::assoc;

verus! {

/// Task identifiers held per account, in the order they were gained.
pub struct OwnershipIndex {
    entries: Vec<(u64, Vec<u64>)>,
}

impl OwnershipIndex {
    /// The recorded entries as account/identifier-sequence pairs.
    pub closed spec fn view_seq(self) -> Seq<(u64, Seq<u64>)> {
        Seq::new(self.entries@.len(), |i: int| (self.entries@[i].0, self.entries@[i].1@))
    }

    /// Accounts are pairwise distinct.
    pub open spec fn wf(self) -> bool {
        assoc::unique_keys(self.view_seq())
    }

    /// The identifiers held by `a`, oldest first.
    pub open spec fn spec_owned(self, a: u64) -> Seq<u64> {
        match assoc::find(self.view_seq(), a) {
            Some(s) => s,
            None => Seq::empty(),
        }
    }

    /// An empty index.
    pub fn new() -> (x: OwnershipIndex)
        ensures
            x.wf(),
            forall|a: u64| x.spec_owned(a) == Seq::<u64>::empty(),
    {
        let x = OwnershipIndex { entries: Vec::new() };
        proof {
            assert(x.view_seq() =~= Seq::<(u64, Seq<u64>)>::empty());
            assert forall|a: u64| x.spec_owned(a) == Seq::<u64>::empty() by {
                assert(assoc::find(x.view_seq(), a) is None);
            }
        }
        x
    }

    /// The position of `a`'s entry, if it has one; the scan's negative
    /// prefix knowledge is returned through the contract.
    fn position_of(&self, a: u64) -> (r: Option<usize>)
        ensures
            match r {
                Some(i) => i < self.view_seq().len() && self.view_seq()[i as int].0 == a
                    && assoc::find(self.view_seq(), a) == Some(self.view_seq()[i as int].1),
                None => assoc::find(self.view_seq(), a) is None,
            },
    {
        let mut i: usize = 0;
        while i < self.entries.len()
            invariant
                i <= self.entries@.len(),
                forall|j: int| 0 <= j < i ==> (#[trigger] self.view_seq()[j]).0 != a,
            decreases self.entries@.len() - i,
        {
            if self.entries[i].0 == a {
                proof {
                    assoc::lemma_find_present(self.view_seq(), i as int);
                }
                return Some(i);
            }
            i = i + 1;
        }
        proof {
            assoc::lemma_find_absent(self.view_seq(), a);
        }
        None
    }

    /// The number of identifiers `a` holds.
    pub fn owned_len(&self, a: u64) -> (n: usize)
        ensures
            n == self.spec_owned(a).len(),
    {
        match self.position_of(a) {
            Some(i) => self.entries[i].1.len(),
            None => 0,
        }
    }

    /// A copy of the identifiers `a` holds, oldest first.
    pub fn owned_of(&self, a: u64) -> (r: Vec<u64>)
        ensures
            r@ == self.spec_owned(a),
    {
        let mut r: Vec<u64> = Vec::new();
        match self.position_of(a) {
            Some(i) => {
                let mut j: usize = 0;
                while j < self.entries[i].1.len()
                    invariant
                        i < self.entries@.len(),
                        j <= self.entries@[i as int].1@.len(),
                        r@ == self.entries@[i as int].1@.subrange(0, j as int),
                    decreases self.entries@[i as int].1@.len() - j,
                {
                    r.push(self.entries[i].1[j]);
                    proof {
                        assert(r@ =~= self.entries@[i as int].1@.subrange(0, j as int + 1));
                    }
                    j = j + 1;
                }
                proof {
                    assert(self.entries@[i as int].1@.subrange(
                        0,
                        self.entries@[i as int].1@.len() as int,
                    ) =~= self.entries@[i as int].1@);
                }
            },
            None => {
                proof {
                    assert(r@ =~= Seq::<u64>::empty());
                }
            },
        }
        r
    }

    /// Append `id` to `a`'s holdings.
    pub fn push_id(&mut self, a: u64, id: u64)
        requires
            old(self).wf(),
            !old(self).spec_owned(a).contains(id),
        ensures
            final(self).wf(),
            final(self).spec_owned(a) == old(self).spec_owned(a).push(id),
            forall|b: u64| b != a ==> final(self).spec_owned(b) == old(self).spec_owned(b),
    {
        let ghost pre = self.view_seq();
        match self.position_of(a) {
            Some(i) => {
                let mut pair = self.entries.remove(i);
                proof {
                    assoc::lemma_unique_remove(pre, i as int);
                    assoc::lemma_find_remove(pre, i as int);
                    assert(self.view_seq() =~= pre.remove(i as int));
                }
                let ghost mid = self.view_seq();
                pair.1.push(id);
                self.entries.push(pair);
                proof {
                    let e = (a, old(self).spec_owned(a).push(id));
                    assert(self.view_seq() =~= mid.push(e));
                    assoc::lemma_unique_push(mid, e);
                    assoc::lemma_find_push(mid, e, a);
                    assert forall|b: u64|
                        b != a implies self.spec_owned(b) == old(self).spec_owned(b) by {
                        assoc::lemma_find_push(mid, e, b);
                    }
                }
            },
            None => {
                let mut ids: Vec<u64> = Vec::new();
                ids.push(id);
                self.entries.push((a, ids));
                proof {
                    let e = (a, seq![id]);
                    assert(self.view_seq() =~= pre.push(e));
                    assoc::lemma_unique_push(pre, e);
                    assoc::lemma_find_push(pre, e, a);
                    assert(old(self).spec_owned(a) =~= Seq::<u64>::empty());
                    assert(seq![id] =~= old(self).spec_owned(a).push(id));
                    assert forall|b: u64|
                        b != a implies self.spec_owned(b) == old(self).spec_owned(b) by {
                        assoc::lemma_find_push(pre, e, b);
                    }
                }
            },
        }
    }

    /// Remove the first occurrence of `id` from `a`'s holdings, keeping the
    /// order of the rest.
    pub fn remove_id(&mut self, a: u64, id: u64)
        requires
            old(self).wf(),
            old(self).spec_owned(a).contains(id),
        ensures
            final(self).wf(),
            forall|b: u64| b != a ==> final(self).spec_owned(b) == old(self).spec_owned(b),
            exists|k: int|
                {
                    &&& 0 <= k < old(self).spec_owned(a).len()
                    &&& old(self).spec_owned(a)[k] == id
                    &&& forall|j: int| 0 <= j < k ==> old(self).spec_owned(a)[j] != id
                    &&& final(self).spec_owned(a) == old(self).spec_owned(a).remove(k)
                },
    {
        let ghost pre = self.view_seq();
        let ghost owned_pre = self.spec_owned(a);
        match self.position_of(a) {
            Some(i) => {
                let mut pair = self.entries.remove(i);
                proof {
                    assoc::lemma_unique_remove(pre, i as int);
                    assoc::lemma_find_remove(pre, i as int);
                    assert(self.view_seq() =~= pre.remove(i as int));
                }
                let ghost mid = self.view_seq();
                let mut j: usize = 0;
                let n = pair.1.len();
                while j < n
                    invariant
                        n == pair.1@.len(),
                        pair.0 == a,
                        pair.1@ == owned_pre,
                        j <= n,
                        owned_pre.contains(id),
                        forall|k: int| 0 <= k < j ==> owned_pre[k] != id,
                        self.view_seq() == mid,
                        assoc::unique_keys(mid),
                        assoc::find(mid, a) is None,
                        pre == old(self).view_seq(),
                        owned_pre == old(self).spec_owned(a),
                        forall|b: u64| b != a ==> assoc::find(mid, b) == assoc::find(pre, b),
                    decreases n - j,
                {
                    if pair.1[j] == id {
                        pair.1.remove(j);
                        self.entries.push(pair);
                        proof {
                            let e = (a, owned_pre.remove(j as int));
                            assert(self.view_seq() =~= mid.push(e));
                            assoc::lemma_unique_push(mid, e);
                            assoc::lemma_find_push(mid, e, a);
                            assert forall|b: u64|
                                b != a implies self.spec_owned(b) == old(self).spec_owned(b) by {
                                assoc::lemma_find_push(mid, e, b);
                            }
                            assert(0 <= j < owned_pre.len() && owned_pre[j as int] == id
                                && self.spec_owned(a) == owned_pre.remove(j as int));
                        }
                        return;
                    }
                    j = j + 1;
                }
                proof {
                    let w = choose|k: int| 0 <= k < owned_pre.len() && owned_pre[k] == id;
                    assert(owned_pre[w] != id);
                }
                unreached()
            },
            None => {
                proof {
                    assert(!Seq::<u64>::empty().contains(id));
                }
                unreached()
            },
        }
    }
}

} // verus!
