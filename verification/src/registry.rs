//! The identity registry: which user accounts have a registered identity,
//! and each identity's reputation counter.
//!
//! The lifecycle consumes two capabilities: "does this account have an
//! identity" and "credit one reputation point to this identity".  A credit
//! is exact — it increments the counter by one — so it is refused, like a
//! missing identity, when the counter cannot record one more point.

use vstd::prelude::*;
use vstd::pervasive::VecAdditionalExecFns;
use crate::assoc;
use crate::errors::Error;

verus! {

/// Registered identities, each with its reputation counter.
pub struct IdentityRegistry {
    entries: Vec<(u64, u64)>,
}

impl IdentityRegistry {
    /// One record per registered account.
    pub closed spec fn wf(self) -> bool {
        assoc::unique_keys(self.entries@)
    }

    /// Whether `a` has a registered identity.
    pub closed spec fn spec_has_identity(self, a: u64) -> bool {
        assoc::find(self.entries@, a) is Some
    }

    /// The reputation recorded for `a`; zero without an identity.
    pub closed spec fn spec_reputation(self, a: u64) -> u64 {
        match assoc::find(self.entries@, a) {
            Some(v) => v,
            None => 0,
        }
    }

    /// Whether a reputation credit to `a` would succeed.
    pub open spec fn can_credit(self, a: u64) -> bool {
        self.spec_has_identity(a) && self.spec_reputation(a) < u64::MAX
    }

    /// An empty registry.
    pub fn new() -> (r: IdentityRegistry)
        ensures
            r.wf(),
            forall|a: u64| !r.spec_has_identity(a),
            forall|a: u64| r.spec_reputation(a) == 0,
    {
        let r = IdentityRegistry { entries: Vec::new() };
        proof {
            assert forall|a: u64| !r.spec_has_identity(a) && r.spec_reputation(a) == 0 by {
                assert(assoc::find(r.entries@, a) is None);
            }
        }
        r
    }

    /// Register an identity for `a`, with reputation zero.  Registering an
    /// account that already has an identity changes nothing.
    pub fn register_identity(&mut self, a: u64)
        requires
            old(self).wf(),
        ensures
            final(self).wf(),
            final(self).spec_has_identity(a),
            forall|b: u64|
                b != a ==> final(self).spec_has_identity(b) == old(self).spec_has_identity(b),
            forall|b: u64| final(self).spec_reputation(b) == old(self).spec_reputation(b),
    {
        let mut i: usize = 0;
        while i < self.entries.len()
            invariant
                *self == *old(self),
                old(self).wf(),
                i <= self.entries@.len(),
                forall|j: int| 0 <= j < i ==> (#[trigger] self.entries@[j]).0 != a,
            decreases self.entries@.len() - i,
        {
            if self.entries[i].0 == a {
                proof {
                    assoc::lemma_find_present(self.entries@, i as int);
                }
                return;
            }
            i = i + 1;
        }
        proof {
            assoc::lemma_find_absent(self.entries@, a);
            assoc::lemma_unique_push(self.entries@, (a, 0u64));
        }
        let ghost pre = self.entries@;
        self.entries.push((a, 0));
        proof {
            assert forall|b: u64|
                (b != a ==> self.spec_has_identity(b) == old(self).spec_has_identity(b))
                    && self.spec_reputation(b) == old(self).spec_reputation(b) by {
                assoc::lemma_find_push(pre, (a, 0u64), b);
            }
            assoc::lemma_find_push(pre, (a, 0u64), a);
        }
    }

    /// Credit one reputation point to `a`'s identity.  Fails, with nothing
    /// changed, exactly when `a` cannot take a credit.
    pub fn credit_reputation(&mut self, a: u64) -> (r: Result<(), Error>)
        requires
            old(self).wf(),
        ensures
            final(self).wf(),
            !old(self).can_credit(a) ==> {
                &&& r == Result::<(), Error>::Err(Error::NoIdentity)
                &&& *final(self) == *old(self)
            },
            old(self).can_credit(a) ==> {
                &&& r is Ok
                &&& final(self).spec_reputation(a) == old(self).spec_reputation(a) + 1
                &&& forall|b: u64|
                    b != a ==> final(self).spec_reputation(b) == old(self).spec_reputation(b)
                &&& forall|b: u64|
                    final(self).spec_has_identity(b) == old(self).spec_has_identity(b)
            },
    {
        let mut i: usize = 0;
        while i < self.entries.len()
            invariant
                *self == *old(self),
                old(self).wf(),
                i <= self.entries@.len(),
                forall|j: int| 0 <= j < i ==> (#[trigger] self.entries@[j]).0 != a,
            decreases self.entries@.len() - i,
        {
            if self.entries[i].0 == a {
                proof {
                    assoc::lemma_find_present(self.entries@, i as int);
                }
                let v = self.entries[i].1;
                if v == u64::MAX {
                    return Err(Error::NoIdentity);
                }
                proof {
                    assoc::lemma_unique_update(self.entries@, i as int, (a, (v + 1) as u64));
                }
                let ghost pre = self.entries@;
                self.entries.set(i, (a, v + 1));
                proof {
                    assoc::lemma_find_update(pre, i as int, (a, (v + 1) as u64), a);
                    assert forall|b: u64|
                        (b != a ==> self.spec_reputation(b) == old(self).spec_reputation(b))
                            && self.spec_has_identity(b) == old(self).spec_has_identity(b) by {
                        assoc::lemma_find_update(pre, i as int, (a, (v + 1) as u64), b);
                    }
                }
                return Ok(());
            }
            i = i + 1;
        }
        proof {
            assoc::lemma_find_absent(self.entries@, a);
        }
        Err(Error::NoIdentity)
    }

    /// Whether `a` has a registered identity.
    pub fn has_identity(&self, a: u64) -> (r: bool)
        requires
            self.wf(),
        ensures
            r == self.spec_has_identity(a),
    {
        let mut i: usize = 0;
        while i < self.entries.len()
            invariant
                i <= self.entries@.len(),
                forall|j: int| 0 <= j < i ==> (#[trigger] self.entries@[j]).0 != a,
            decreases self.entries@.len() - i,
        {
            if self.entries[i].0 == a {
                proof {
                    assoc::lemma_find_present(self.entries@, i as int);
                }
                return true;
            }
            i = i + 1;
        }
        proof {
            assoc::lemma_find_absent(self.entries@, a);
        }
        false
    }

    /// Read `a`'s reputation counter.
    pub fn reputation_of(&self, a: u64) -> (r: u64)
        requires
            self.wf(),
        ensures
            r == self.spec_reputation(a),
    {
        let mut i: usize = 0;
        while i < self.entries.len()
            invariant
                i <= self.entries@.len(),
                forall|j: int| 0 <= j < i ==> (#[trigger] self.entries@[j]).0 != a,
            decreases self.entries@.len() - i,
        {
            if self.entries[i].0 == a {
                proof {
                    assoc::lemma_find_present(self.entries@, i as int);
                }
                return self.entries[i].1;
            }
            i = i + 1;
        }
        proof {
            assoc::lemma_find_absent(self.entries@, a);
        }
        0
    }
}

} // verus!
