//! The authoritative map from task identifier to task record.

use vstd::prelude::*;
use crate::assoc;
use crate::task::Task;
use crate::task::TaskView;

verus! {

/// Task records keyed by identifier, with pairwise-distinct identifiers.
pub struct TaskStore {
    entries: Vec<(u64, Task)>,
}

impl TaskStore {
    /// The stored entries as identifier/view pairs, in storage order.
    pub closed spec fn view_seq(self) -> Seq<(u64, TaskView)> {
        Seq::new(self.entries@.len(), |i: int| (self.entries@[i].0, self.entries@[i].1@))
    }

    /// Identifiers are pairwise distinct.
    pub open spec fn wf(self) -> bool {
        assoc::unique_keys(self.view_seq())
    }

    /// The record stored under `id`, if any.
    pub open spec fn spec_get(self, id: u64) -> Option<TaskView> {
        assoc::find(self.view_seq(), id)
    }

    /// The number of stored tasks.
    pub open spec fn spec_len(self) -> nat {
        self.view_seq().len()
    }

    /// An empty store.
    pub fn new() -> (s: TaskStore)
        ensures
            s.wf(),
            s.spec_len() == 0,
            forall|id: u64| s.spec_get(id) is None,
    {
        let s = TaskStore { entries: Vec::new() };
        proof {
            assert(s.view_seq() =~= Seq::<(u64, TaskView)>::empty());
            assert forall|id: u64| s.spec_get(id) is None by {
                assert(assoc::find(s.view_seq(), id) is None);
            }
        }
        s
    }

    /// The number of stored tasks.
    pub fn len(&self) -> (n: usize)
        ensures
            n == self.spec_len(),
    {
        self.entries.len()
    }

    /// The identifier stored at position `i`.
    pub fn nth_id(&self, i: usize) -> (id: u64)
        requires
            i < self.spec_len(),
        ensures
            id == self.view_seq()[i as int].0,
    {
        self.entries[i].0
    }

    /// Read the record stored under `id`.
    pub fn get(&self, id: u64) -> (r: Option<&Task>)
        ensures
            match r {
                Some(t) => self.spec_get(id) == Some(t@),
                None => self.spec_get(id) is None,
            },
    {
        let mut i: usize = 0;
        while i < self.entries.len()
            invariant
                i <= self.entries@.len(),
                forall|j: int| 0 <= j < i ==> (#[trigger] self.view_seq()[j]).0 != id,
            decreases self.entries@.len() - i,
        {
            if self.entries[i].0 == id {
                proof {
                    assoc::lemma_find_present(self.view_seq(), i as int);
                }
                return Some(&self.entries[i].1);
            }
            i = i + 1;
        }
        proof {
            assoc::lemma_find_absent(self.view_seq(), id);
        }
        None
    }

    /// Insert a record under a fresh identifier.
    pub fn insert_new(&mut self, id: u64, t: Task)
        requires
            old(self).wf(),
            old(self).spec_get(id) is None,
        ensures
            final(self).wf(),
            final(self).view_seq() == old(self).view_seq().push((id, t@)),
            final(self).spec_get(id) == Some(t@),
            forall|k: u64| k != id ==> final(self).spec_get(k) == old(self).spec_get(k),
            final(self).spec_len() == old(self).spec_len() + 1,
    {
        let ghost pre = self.view_seq();
        let ghost tv = t@;
        self.entries.push((id, t));
        proof {
            assert(self.view_seq() =~= pre.push((id, tv)));
            assoc::lemma_unique_push(pre, (id, tv));
            assert forall|k: u64|
                k != id implies self.spec_get(k) == assoc::find(pre, k) by {
                assoc::lemma_find_push(pre, (id, tv), k);
            }
            assoc::lemma_find_push(pre, (id, tv), id);
        }
    }

    /// Replace the record stored under `id`.
    pub fn replace(&mut self, id: u64, t: Task)
        requires
            old(self).wf(),
            old(self).spec_get(id) is Some,
        ensures
            final(self).wf(),
            final(self).spec_get(id) == Some(t@),
            forall|k: u64| k != id ==> final(self).spec_get(k) == old(self).spec_get(k),
            final(self).spec_len() == old(self).spec_len(),
            exists|i: int|
                0 <= i < old(self).view_seq().len() && (#[trigger] old(self).view_seq()[i]).0 == id
                    && final(self).view_seq() == old(self).view_seq().update(i, (id, t@)),
    {
        let mut i: usize = 0;
        while i < self.entries.len()
            invariant
                *self == *old(self),
                old(self).wf(),
                old(self).spec_get(id) is Some,
                i <= self.entries@.len(),
                forall|j: int| 0 <= j < i ==> (#[trigger] self.view_seq()[j]).0 != id,
            decreases self.entries@.len() - i,
        {
            if self.entries[i].0 == id {
                let ghost pre = self.view_seq();
                let ghost tv = t@;
                self.entries.set(i, (id, t));
                proof {
                    assert(self.view_seq() =~= pre.update(i as int, (id, tv)));
                    assoc::lemma_unique_update(pre, i as int, (id, tv));
                    assoc::lemma_find_update(pre, i as int, (id, tv), id);
                    assert forall|k: u64|
                        k != id implies self.spec_get(k) == assoc::find(pre, k) by {
                        assoc::lemma_find_update(pre, i as int, (id, tv), k);
                    }
                    assert(old(self).view_seq()[i as int].0 == id
                        && self.view_seq() == old(self).view_seq().update(i as int, (id, tv)));
                }
                return;
            }
            i = i + 1;
        }
        proof {
            assoc::lemma_find_absent(self.view_seq(), id);
        }
        unreached()
    }

    /// Remove and return the record stored under `id`.
    pub fn remove(&mut self, id: u64) -> (t: Task)
        requires
            old(self).wf(),
            old(self).spec_get(id) is Some,
        ensures
            final(self).wf(),
            Some(t@) == old(self).spec_get(id),
            final(self).spec_get(id) is None,
            forall|k: u64| k != id ==> final(self).spec_get(k) == old(self).spec_get(k),
            final(self).spec_len() == old(self).spec_len() - 1,
            exists|i: int|
                0 <= i < old(self).view_seq().len() && old(self).view_seq()[i] == (id, t@)
                    && final(self).view_seq() == old(self).view_seq().remove(i),
    {
        let mut i: usize = 0;
        while i < self.entries.len()
            invariant
                *self == *old(self),
                old(self).wf(),
                old(self).spec_get(id) is Some,
                i <= self.entries@.len(),
                forall|j: int| 0 <= j < i ==> (#[trigger] self.view_seq()[j]).0 != id,
            decreases self.entries@.len() - i,
        {
            if self.entries[i].0 == id {
                proof {
                    assoc::lemma_find_present(self.view_seq(), i as int);
                    assoc::lemma_unique_remove(self.view_seq(), i as int);
                    assoc::lemma_find_remove(self.view_seq(), i as int);
                }
                let ghost pre = self.view_seq();
                let pair = self.entries.remove(i);
                proof {
                    assert(self.view_seq() =~= pre.remove(i as int));
                    assert(pre[i as int] == (id, pair.1@));
                    assert(old(self).view_seq()[i as int] == (id, pair.1@)
                        && self.view_seq() == old(self).view_seq().remove(i as int));
                }
                return pair.1;
            }
            i = i + 1;
        }
        proof {
            assoc::lemma_find_absent(self.view_seq(), id);
        }
        unreached()
    }
}

} // verus!
