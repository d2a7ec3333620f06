//! The task lifecycle engine: creation, reassignment, completion, review,
//! cancellation and time-based expiry, with escrow and reputation settled
//! atomically.
//!
//! All shared state — the task store, the ownership index, the ledger and
//! the identity registry — is owned by [`TaskLifecycle`] and mutated only
//! through its operations.  Every operation is all-or-nothing: it either
//! commits all of its structural and fund changes or, returning the first
//! failing check as a typed error, commits none.

use vstd::prelude::*;
use crate::account::Account;
use crate::errors::Error;
use crate::index::OwnershipIndex;
use crate::ledger::Ledger;
use crate::registry::IdentityRegistry;
use crate::store::TaskStore;
use crate::task::Task;
use crate::task::TaskStatus;
use crate::task::TaskView;
use crate::task::task_id_of;
use crate::task::derive_task_id;

verus! {

/// How a task's parties relate in each lifecycle state: the initiator
/// holds a task it created or reviews; the volunteer, distinct from the
/// initiator once work starts, holds a task in progress.
pub open spec fn task_shape_ok(t: TaskView) -> bool {
    match t.status {
        TaskStatus::Created => t.volunteer == t.initiator && t.current_owner == t.initiator,
        TaskStatus::InProgress => t.current_owner == t.volunteer && t.volunteer != t.initiator,
        TaskStatus::PendingReview => t.current_owner == t.initiator && t.volunteer != t.initiator,
    }
}

/// The lifecycle engine and every piece of state it governs.
pub struct TaskLifecycle {
    ledger: Ledger,
    registry: IdentityRegistry,
    tasks: TaskStore,
    owned: OwnershipIndex,
    task_count: u64,
    now: u64,
    max_tasks: usize,
}

impl TaskLifecycle {
    /// The current time.
    pub closed spec fn spec_now(self) -> u64 {
        self.now
    }

    /// The number of open tasks.
    pub closed spec fn spec_task_count(self) -> u64 {
        self.task_count
    }

    /// The per-account capacity of the ownership index.
    pub closed spec fn spec_capacity(self) -> usize {
        self.max_tasks
    }

    /// The task stored under `id`, if any.
    pub closed spec fn spec_task(self, id: u64) -> Option<TaskView> {
        self.tasks.spec_get(id)
    }

    /// The task identifiers account `a` currently holds, oldest first.
    pub closed spec fn spec_owned(self, a: u64) -> Seq<u64> {
        self.owned.spec_owned(a)
    }

    /// The balance of an account.
    pub closed spec fn spec_balance(self, acct: Account) -> u64 {
        self.ledger.spec_balance(acct)
    }

    /// The total supply the ledger was endowed with.
    pub closed spec fn spec_total(self) -> u64 {
        self.ledger.spec_total()
    }

    /// Whether `a` has a registered identity.
    pub closed spec fn spec_has_identity(self, a: u64) -> bool {
        self.registry.spec_has_identity(a)
    }

    /// The reputation recorded for `a`.
    pub closed spec fn spec_reputation(self, a: u64) -> u64 {
        self.registry.spec_reputation(a)
    }

    /// Whether a reputation credit to `a` would succeed.
    pub closed spec fn spec_can_credit(self, a: u64) -> bool {
        self.registry.can_credit(a)
    }

    /// The system invariant, re-established by every operation:
    /// - the counter counts exactly the stored tasks;
    /// - every stored task has the party shape of its state;
    /// - every task's escrow sub-account holds exactly its budget, and the
    ///   escrow sub-account of any absent task holds exactly zero;
    /// - every task is held by its current owner and by nobody else, with
    ///   no duplicates and within each account's capacity.
    pub closed spec fn wf(self) -> bool {
        &&& self.ledger.wf()
        &&& self.registry.wf()
        &&& self.tasks.wf()
        &&& self.owned.wf()
        &&& self.task_count == self.tasks.spec_len()
        &&& forall|id: u64|
            #[trigger] self.spec_task(id) is Some ==> task_shape_ok(self.spec_task(id).unwrap())
        &&& forall|id: u64|
            #[trigger] self.spec_balance(Account::Escrow(id)) == match self.spec_task(id) {
                Some(t) => t.budget,
                None => 0u64,
            }
        &&& forall|id: u64|
            #[trigger] self.spec_task(id) is Some ==> self.spec_owned(
                self.spec_task(id).unwrap().current_owner,
            ).contains(id)
        &&& forall|a: u64, j: int|
            0 <= j < self.spec_owned(a).len() ==> self.spec_task(
                #[trigger] self.spec_owned(a)[j],
            ) is Some && self.spec_task(self.spec_owned(a)[j]).unwrap().current_owner == a
        &&& forall|a: u64, i: int, j: int|
            0 <= i < j < self.spec_owned(a).len()
                ==> (#[trigger] self.spec_owned(a)[i]) != (#[trigger] self.spec_owned(a)[j])
        &&& forall|a: u64| #[trigger] self.spec_owned(a).len() <= self.spec_capacity()
    }

    /// An engine with no tasks, no balances and no identities, with the
    /// given per-account ownership capacity, at time zero.
    pub fn new(max_tasks_owned: usize) -> (s: TaskLifecycle)
        ensures
            s.wf(),
            s.spec_now() == 0,
            s.spec_task_count() == 0,
            s.spec_capacity() == max_tasks_owned,
            s.spec_total() == 0,
            forall|id: u64| #[trigger] s.spec_task(id) is None,
            forall|a: u64| #[trigger] s.spec_owned(a) == Seq::<u64>::empty(),
            forall|acct: Account| #[trigger] s.spec_balance(acct) == 0,
            forall|a: u64| !(#[trigger] s.spec_has_identity(a)),
            forall|a: u64| #[trigger] s.spec_reputation(a) == 0,
    {
        TaskLifecycle {
            ledger: Ledger::new(),
            registry: IdentityRegistry::new(),
            tasks: TaskStore::new(),
            owned: OwnershipIndex::new(),
            task_count: 0,
            now: 0,
            max_tasks: max_tasks_owned,
        }
    }

    /// Read the number of open tasks.
    pub fn task_count(&self) -> (n: u64)
        ensures
            n == self.spec_task_count(),
    {
        self.task_count
    }

    /// Read the current time.
    pub fn now(&self) -> (t: u64)
        ensures
            t == self.spec_now(),
    {
        self.now
    }

    /// Read the per-account ownership capacity.
    pub fn max_tasks_owned(&self) -> (n: usize)
        ensures
            n == self.spec_capacity(),
    {
        self.max_tasks
    }

    /// Read the task stored under `id`.
    pub fn tasks(&self, id: u64) -> (r: Option<&Task>)
        ensures
            match r {
                Some(t) => self.spec_task(id) == Some(t@),
                None => self.spec_task(id) is None,
            },
    {
        self.tasks.get(id)
    }

    /// Read the task identifiers `a` currently holds, oldest first.
    pub fn tasks_owned(&self, a: u64) -> (r: Vec<u64>)
        ensures
            r@ == self.spec_owned(a),
    {
        self.owned.owned_of(a)
    }

    /// Read the balance of an account.
    pub fn balance_of(&self, acct: Account) -> (r: u64)
        requires
            self.wf(),
        ensures
            r == self.spec_balance(acct),
    {
        self.ledger.balance_of(acct)
    }

    /// Whether `a` has a registered identity.
    pub fn has_identity(&self, a: u64) -> (r: bool)
        requires
            self.wf(),
        ensures
            r == self.spec_has_identity(a),
    {
        self.registry.has_identity(a)
    }

    /// Read `a`'s reputation counter.
    pub fn reputation_of(&self, a: u64) -> (r: u64)
        requires
            self.wf(),
        ensures
            r == self.spec_reputation(a),
    {
        self.registry.reputation_of(a)
    }

    /// Whether `caller` is the initiator of the task stored under `id`.
    pub fn is_task_initiator(&self, id: u64, caller: u64) -> (r: Result<bool, Error>)
        ensures
            match r {
                Ok(b) => self.spec_task(id) matches Some(t) && b == (t.initiator == caller),
                Err(e) => e == Error::TaskNotFound && self.spec_task(id) is None,
            },
    {
        match self.tasks.get(id) {
            Some(t) => Ok(t.initiator == caller),
            None => Err(Error::TaskNotFound),
        }
    }

    /// Register an identity for `a` with reputation zero; registering an
    /// account again changes nothing.
    pub fn register_identity(&mut self, a: u64)
        requires
            old(self).wf(),
        ensures
            final(self).wf(),
            final(self).spec_has_identity(a),
            forall|b: u64|
                b != a ==> final(self).spec_has_identity(b) == old(self).spec_has_identity(b),
            forall|b: u64| #[trigger] final(self).spec_reputation(b) == old(self).spec_reputation(b),
            same_tasks(*old(self), *final(self)),
            same_owned(*old(self), *final(self)),
            same_balances(*old(self), *final(self)),
            final(self).spec_now() == old(self).spec_now(),
            final(self).spec_task_count() == old(self).spec_task_count(),
            final(self).spec_capacity() == old(self).spec_capacity(),
            final(self).spec_total() == old(self).spec_total(),
    {
        self.registry.register_identity(a);
        proof {
            lemma_wf_frame(*old(self), *self);
        }
    }

    /// Endow the user account `a` with newly issued funds.
    pub fn mint(&mut self, a: u64, amount: u64)
        requires
            old(self).wf(),
            old(self).spec_total() + amount <= u64::MAX,
        ensures
            final(self).wf(),
            final(self).spec_total() == old(self).spec_total() + amount,
            final(self).spec_balance(Account::User(a))
                == old(self).spec_balance(Account::User(a)) + amount,
            forall|acct: Account|
                acct != Account::User(a)
                    ==> #[trigger] final(self).spec_balance(acct) == old(self).spec_balance(acct),
            same_tasks(*old(self), *final(self)),
            same_owned(*old(self), *final(self)),
            same_registry(*old(self), *final(self)),
            final(self).spec_now() == old(self).spec_now(),
            final(self).spec_task_count() == old(self).spec_task_count(),
            final(self).spec_capacity() == old(self).spec_capacity(),
    {
        self.ledger.mint(Account::User(a), amount);
        proof {
            lemma_wf_frame(*old(self), *self);
        }
    }

    /// Advance the clock to `t`.  Time never runs backwards.
    pub fn set_now(&mut self, t: u64)
        requires
            old(self).wf(),
            old(self).spec_now() <= t,
        ensures
            final(self).wf(),
            final(self).spec_now() == t,
            same_tasks(*old(self), *final(self)),
            same_owned(*old(self), *final(self)),
            same_balances(*old(self), *final(self)),
            same_registry(*old(self), *final(self)),
            final(self).spec_task_count() == old(self).spec_task_count(),
            final(self).spec_capacity() == old(self).spec_capacity(),
            final(self).spec_total() == old(self).spec_total(),
    {
        self.now = t;
        proof {
            lemma_wf_frame(*old(self), *self);
        }
    }
}

/// The tasks of `b` are those of `a`.
pub open spec fn same_tasks(a: TaskLifecycle, b: TaskLifecycle) -> bool {
    forall|id: u64| #[trigger] b.spec_task(id) == a.spec_task(id)
}

/// The ownership index of `b` is that of `a`.
pub open spec fn same_owned(a: TaskLifecycle, b: TaskLifecycle) -> bool {
    forall|x: u64| #[trigger] b.spec_owned(x) == a.spec_owned(x)
}

/// The balances of `b` are those of `a`.
pub open spec fn same_balances(a: TaskLifecycle, b: TaskLifecycle) -> bool {
    forall|acct: Account| #[trigger] b.spec_balance(acct) == a.spec_balance(acct)
}

/// The identities and reputations of `b` are those of `a`.
pub open spec fn same_registry(a: TaskLifecycle, b: TaskLifecycle) -> bool {
    &&& forall|x: u64| #[trigger] b.spec_has_identity(x) == a.spec_has_identity(x)
    &&& forall|x: u64| #[trigger] b.spec_reputation(x) == a.spec_reputation(x)
}

/// Nothing observable distinguishes `b` from `a`: a failed operation
/// leaves the engine in this relation to its pre-state.
pub open spec fn unchanged(a: TaskLifecycle, b: TaskLifecycle) -> bool {
    &&& same_tasks(a, b)
    &&& same_owned(a, b)
    &&& same_balances(a, b)
    &&& same_registry(a, b)
    &&& b.spec_now() == a.spec_now()
    &&& b.spec_task_count() == a.spec_task_count()
    &&& b.spec_capacity() == a.spec_capacity()
    &&& b.spec_total() == a.spec_total()
}

/// The task record a successful creation stores.
pub open spec fn created_task_view(
    initiator: u64,
    title: Seq<u8>,
    specification: Seq<u8>,
    budget: u64,
    deadline: u64,
    attachments: Seq<u8>,
    keywords: Seq<u8>,
    at: u64,
) -> TaskView {
    TaskView {
        title: title,
        specification: specification,
        attachments: attachments,
        keywords: keywords,
        initiator: initiator,
        volunteer: initiator,
        current_owner: initiator,
        status: TaskStatus::Created,
        budget: budget,
        deadline: deadline,
        created_at: at,
        updated_at: at,
        completed_at: 0,
        feedback: None,
    }
}

/// The first check a creation fails, if any: the initiator needs an
/// identity, the deadline must lie strictly in the future, the derived
/// identifier must be fresh, the initiator's index must have room, the
/// counter must have room, and the initiator must be able to fund the
/// escrow.
pub open spec fn create_check(
    s: TaskLifecycle,
    initiator: u64,
    title: Seq<u8>,
    specification: Seq<u8>,
    budget: u64,
    deadline: u64,
) -> Option<Error> {
    let id = task_id_of(title, specification, initiator, budget, deadline, s.spec_now());
    if !s.spec_has_identity(initiator) {
        Some(Error::NoIdentity)
    } else if deadline <= s.spec_now() {
        Some(Error::InvalidDeadline)
    } else if s.spec_task(id) is Some {
        Some(Error::TaskAlreadyExists)
    } else if s.spec_owned(initiator).len() >= s.spec_capacity() {
        Some(Error::OwnershipCapacityExceeded)
    } else if s.spec_task_count() == u64::MAX {
        Some(Error::TaskCountOverflow)
    } else if s.spec_balance(Account::User(initiator)) < budget {
        Some(Error::InsufficientFunds)
    } else {
        None
    }
}

/// What a successful creation did: the budget moved from the initiator to
/// the new task's escrow sub-account, the new task is stored under the
/// content-derived identifier, the initiator gained it at the end of its
/// index entry, the counter rose by one, and nothing else changed.
pub open spec fn create_ok(
    pre: TaskLifecycle,
    post: TaskLifecycle,
    initiator: u64,
    title: Seq<u8>,
    specification: Seq<u8>,
    budget: u64,
    deadline: u64,
    attachments: Seq<u8>,
    keywords: Seq<u8>,
    id: u64,
) -> bool {
    &&& id == task_id_of(title, specification, initiator, budget, deadline, pre.spec_now())
    &&& post.spec_task(id) == Some(
        created_task_view(
            initiator,
            title,
            specification,
            budget,
            deadline,
            attachments,
            keywords,
            pre.spec_now(),
        ),
    )
    &&& forall|k: u64| k != id ==> #[trigger] post.spec_task(k) == pre.spec_task(k)
    &&& post.spec_owned(initiator) == pre.spec_owned(initiator).push(id)
    &&& forall|b: u64| b != initiator ==> #[trigger] post.spec_owned(b) == pre.spec_owned(b)
    &&& post.spec_balance(Account::User(initiator)) == pre.spec_balance(
        Account::User(initiator),
    ) - budget
    &&& post.spec_balance(Account::Escrow(id)) == budget
    &&& forall|acct: Account|
        acct != Account::User(initiator) && acct != Account::Escrow(id)
            ==> #[trigger] post.spec_balance(acct) == pre.spec_balance(acct)
    &&& same_registry(pre, post)
    &&& post.spec_task_count() == pre.spec_task_count() + 1
    &&& post.spec_now() == pre.spec_now()
    &&& post.spec_capacity() == pre.spec_capacity()
    &&& post.spec_total() == pre.spec_total()
}

impl TaskLifecycle {
    /// Post work: derive the task's identifier from its content, lock the
    /// budget in the task's escrow sub-account, store the task, and hand
    /// it to the initiator.  All-or-nothing; `create_check` names the
    /// exact error returned for every rejected input.
    pub fn create_task(
        &mut self,
        initiator: u64,
        title: Vec<u8>,
        specification: Vec<u8>,
        budget: u64,
        deadline: u64,
        attachments: Vec<u8>,
        keywords: Vec<u8>,
    ) -> (r: Result<u64, Error>)
        requires
            old(self).wf(),
        ensures
            final(self).wf(),
            match r {
                Ok(id) => create_check(
                    *old(self),
                    initiator,
                    title@,
                    specification@,
                    budget,
                    deadline,
                ) is None && create_ok(
                    *old(self),
                    *final(self),
                    initiator,
                    title@,
                    specification@,
                    budget,
                    deadline,
                    attachments@,
                    keywords@,
                    id,
                ),
                Err(e) => Some(e) == create_check(
                    *old(self),
                    initiator,
                    title@,
                    specification@,
                    budget,
                    deadline,
                ) && unchanged(*old(self), *final(self)),
            },
    {
        if !self.registry.has_identity(initiator) {
            return Err(Error::NoIdentity);
        }
        if deadline <= self.now {
            return Err(Error::InvalidDeadline);
        }
        let id = derive_task_id(&title, &specification, initiator, budget, deadline, self.now);
        if self.tasks.get(id).is_some() {
            return Err(Error::TaskAlreadyExists);
        }
        if self.owned.owned_len(initiator) >= self.max_tasks {
            return Err(Error::OwnershipCapacityExceeded);
        }
        if self.task_count == u64::MAX {
            return Err(Error::TaskCountOverflow);
        }
        match self.ledger.transfer(Account::User(initiator), Account::Escrow(id), budget) {
            Err(e) => {
                proof {
                    lemma_wf_frame(*old(self), *self);
                }
                return Err(e);
            },
            Ok(()) => {},
        }
        let t = Task {
            title: title,
            specification: specification,
            attachments: attachments,
            keywords: keywords,
            initiator: initiator,
            volunteer: initiator,
            current_owner: initiator,
            status: TaskStatus::Created,
            budget: budget,
            deadline: deadline,
            created_at: self.now,
            updated_at: self.now,
            completed_at: 0,
            feedback: None,
        };
        proof {
            if old(self).spec_owned(initiator).contains(id) {
                let j = choose|j: int|
                    0 <= j < old(self).spec_owned(initiator).len() && old(self).spec_owned(
                        initiator,
                    )[j] == id;
                assert(old(self).spec_task(old(self).spec_owned(initiator)[j]) is Some);
            }
        }
        self.tasks.insert_new(id, t);
        self.owned.push_id(initiator, id);
        self.task_count = self.task_count + 1;
        proof {
            assert(old(self).spec_balance(Account::Escrow(id)) == 0);
            assert(self.spec_balance(Account::Escrow(id)) == budget);
            lemma_create_preserves_wf(*old(self), *self, initiator, id);
        }
        Ok(id)
    }
}

/// `post` is `pre` with the first occurrence of `id` removed, keeping the
/// order of the rest.
pub open spec fn removed_one(pre: Seq<u64>, post: Seq<u64>, id: u64) -> bool {
    exists|k: int|
        {
            &&& 0 <= k < pre.len()
            &&& pre[k] == id
            &&& (forall|j: int| 0 <= j < k ==> pre[j] != id)
            &&& post == pre.remove(k)
        }
}

/// The first check a start fails, if any: the task must exist, must never
/// have been started, the volunteer must not be the initiator, and the
/// volunteer's index must have room.
pub open spec fn start_check(s: TaskLifecycle, volunteer: u64, id: u64) -> Option<Error> {
    match s.spec_task(id) {
        None => Some(Error::TaskNotFound),
        Some(t) => {
            if t.status != TaskStatus::Created || volunteer == t.initiator {
                Some(Error::NoPermissionToStart)
            } else if s.spec_owned(volunteer).len() >= s.spec_capacity() {
                Some(Error::OwnershipCapacityExceeded)
            } else {
                None
            }
        },
    }
}

/// What a successful start did: the task went in progress under the
/// volunteer, who took it over from the initiator in the index; nothing
/// else changed.
pub open spec fn start_ok(pre: TaskLifecycle, post: TaskLifecycle, volunteer: u64, id: u64) -> bool {
    let t = pre.spec_task(id).unwrap();
    &&& pre.spec_task(id) is Some
    &&& post.spec_task(id) == Some(
        TaskView {
            volunteer: volunteer,
            current_owner: volunteer,
            status: TaskStatus::InProgress,
            ..t
        },
    )
    &&& forall|k: u64| k != id ==> #[trigger] post.spec_task(k) == pre.spec_task(k)
    &&& removed_one(pre.spec_owned(t.initiator), post.spec_owned(t.initiator), id)
    &&& post.spec_owned(volunteer) == pre.spec_owned(volunteer).push(id)
    &&& forall|b: u64|
        b != t.initiator && b != volunteer ==> #[trigger] post.spec_owned(b) == pre.spec_owned(b)
    &&& same_balances(pre, post)
    &&& same_registry(pre, post)
    &&& post.spec_task_count() == pre.spec_task_count()
    &&& post.spec_now() == pre.spec_now()
    &&& post.spec_capacity() == pre.spec_capacity()
    &&& post.spec_total() == pre.spec_total()
}

/// The first check a completion fails, if any: the task must exist and be
/// in progress, the caller must be the volunteer currently holding it, and
/// the initiator's index must have room to take it back.
pub open spec fn complete_check(s: TaskLifecycle, caller: u64, id: u64) -> Option<Error> {
    match s.spec_task(id) {
        None => Some(Error::TaskNotFound),
        Some(t) => {
            if t.status != TaskStatus::InProgress || caller != t.current_owner {
                Some(Error::NoPermissionToComplete)
            } else if s.spec_owned(t.initiator).len() >= s.spec_capacity() {
                Some(Error::OwnershipCapacityExceeded)
            } else {
                None
            }
        },
    }
}

/// What a successful completion did: the task went to pending review under
/// the initiator, who took it back in the index, with the submission time
/// recorded; nothing else changed.
pub open spec fn complete_ok(pre: TaskLifecycle, post: TaskLifecycle, id: u64) -> bool {
    let t = pre.spec_task(id).unwrap();
    &&& pre.spec_task(id) is Some
    &&& post.spec_task(id) == Some(
        TaskView {
            current_owner: t.initiator,
            status: TaskStatus::PendingReview,
            completed_at: pre.spec_now(),
            ..t
        },
    )
    &&& forall|k: u64| k != id ==> #[trigger] post.spec_task(k) == pre.spec_task(k)
    &&& removed_one(pre.spec_owned(t.volunteer), post.spec_owned(t.volunteer), id)
    &&& post.spec_owned(t.initiator) == pre.spec_owned(t.initiator).push(id)
    &&& forall|b: u64|
        b != t.initiator && b != t.volunteer ==> #[trigger] post.spec_owned(b) == pre.spec_owned(b)
    &&& same_balances(pre, post)
    &&& same_registry(pre, post)
    &&& post.spec_task_count() == pre.spec_task_count()
    &&& post.spec_now() == pre.spec_now()
    &&& post.spec_capacity() == pre.spec_capacity()
    &&& post.spec_total() == pre.spec_total()
}

/// The first check a rejection fails, if any: the task must exist, only
/// the initiator reviews, the task must be pending review, and the
/// volunteer's index must have room to take it back.
pub open spec fn reject_check(s: TaskLifecycle, caller: u64, id: u64) -> Option<Error> {
    match s.spec_task(id) {
        None => Some(Error::TaskNotFound),
        Some(t) => {
            if caller != t.initiator {
                Some(Error::OnlyInitiatorAcceptsTask)
            } else if t.status != TaskStatus::PendingReview {
                Some(Error::NotInReviewState)
            } else if s.spec_owned(t.volunteer).len() >= s.spec_capacity() {
                Some(Error::OwnershipCapacityExceeded)
            } else {
                None
            }
        },
    }
}

/// What a successful rejection did: the task went back in progress under
/// the volunteer, who took it over in the index, with the feedback stored;
/// no funds moved and no reputation changed.
pub open spec fn reject_ok(
    pre: TaskLifecycle,
    post: TaskLifecycle,
    id: u64,
    feedback: Seq<u8>,
) -> bool {
    let t = pre.spec_task(id).unwrap();
    &&& pre.spec_task(id) is Some
    &&& post.spec_task(id) == Some(
        TaskView {
            current_owner: t.volunteer,
            status: TaskStatus::InProgress,
            feedback: Some(feedback),
            ..t
        },
    )
    &&& forall|k: u64| k != id ==> #[trigger] post.spec_task(k) == pre.spec_task(k)
    &&& removed_one(pre.spec_owned(t.initiator), post.spec_owned(t.initiator), id)
    &&& post.spec_owned(t.volunteer) == pre.spec_owned(t.volunteer).push(id)
    &&& forall|b: u64|
        b != t.initiator && b != t.volunteer ==> #[trigger] post.spec_owned(b) == pre.spec_owned(b)
    &&& same_balances(pre, post)
    &&& same_registry(pre, post)
    &&& post.spec_task_count() == pre.spec_task_count()
    &&& post.spec_now() == pre.spec_now()
    &&& post.spec_capacity() == pre.spec_capacity()
    &&& post.spec_total() == pre.spec_total()
}

/// Handing a task from one holder to another preserves the system
/// invariant.
proof fn lemma_reassign_preserves_wf(
    pre: TaskLifecycle,
    post: TaskLifecycle,
    id: u64,
    from_o: u64,
    to_o: u64,
)
    requires
        pre.wf(),
        post.ledger.wf(),
        post.registry.wf(),
        post.tasks.wf(),
        post.owned.wf(),
        from_o != to_o,
        pre.spec_task(id) is Some,
        pre.spec_task(id).unwrap().current_owner == from_o,
        post.spec_task(id) is Some,
        task_shape_ok(post.spec_task(id).unwrap()),
        post.spec_task(id).unwrap().current_owner == to_o,
        post.spec_task(id).unwrap().budget == pre.spec_task(id).unwrap().budget,
        forall|k: u64| k != id ==> #[trigger] post.spec_task(k) == pre.spec_task(k),
        removed_one(pre.spec_owned(from_o), post.spec_owned(from_o), id),
        post.spec_owned(to_o) == pre.spec_owned(to_o).push(id),
        forall|b: u64|
            b != from_o && b != to_o ==> #[trigger] post.spec_owned(b) == pre.spec_owned(b),
        forall|acct: Account| #[trigger] post.spec_balance(acct) == pre.spec_balance(acct),
        post.spec_task_count() == pre.spec_task_count(),
        post.spec_task_count() == post.tasks.spec_len(),
        pre.spec_owned(to_o).len() < pre.spec_capacity(),
        post.spec_capacity() == pre.spec_capacity(),
    ensures
        post.wf(),
{
    let ri = choose|k: int|
        {
            &&& 0 <= k < pre.spec_owned(from_o).len()
            &&& pre.spec_owned(from_o)[k] == id
            &&& (forall|j: int| 0 <= j < k ==> pre.spec_owned(from_o)[j] != id)
            &&& post.spec_owned(from_o) == pre.spec_owned(from_o).remove(k)
        };
    assert(!pre.spec_owned(to_o).contains(id)) by {
        if pre.spec_owned(to_o).contains(id) {
            let j = choose|j: int|
                0 <= j < pre.spec_owned(to_o).len() && pre.spec_owned(to_o)[j] == id;
            assert(pre.spec_task(pre.spec_owned(to_o)[j]).unwrap().current_owner == to_o);
        }
    }
    assert forall|k: u64|
        #[trigger] post.spec_task(k) is Some implies task_shape_ok(post.spec_task(k).unwrap()) by {
        if k != id {
            assert(post.spec_task(k) == pre.spec_task(k));
        }
    }
    assert forall|k: u64|
        #[trigger] post.spec_balance(Account::Escrow(k)) == match post.spec_task(k) {
            Some(t) => t.budget,
            None => 0u64,
        } by {
        assert(post.spec_balance(Account::Escrow(k)) == pre.spec_balance(Account::Escrow(k)));
        if k != id {
            assert(post.spec_task(k) == pre.spec_task(k));
        }
    }
    assert forall|k: u64|
        #[trigger] post.spec_task(k) is Some implies post.spec_owned(
        post.spec_task(k).unwrap().current_owner,
    ).contains(k) by {
        if k == id {
            assert(post.spec_owned(to_o)[pre.spec_owned(to_o).len() as int] == id);
        } else {
            assert(post.spec_task(k) == pre.spec_task(k));
            let o = pre.spec_task(k).unwrap().current_owner;
            assert(pre.spec_owned(o).contains(k));
            let j = choose|j: int| 0 <= j < pre.spec_owned(o).len() && pre.spec_owned(o)[j] == k;
            if o == from_o {
                if j < ri {
                    assert(post.spec_owned(o)[j] == pre.spec_owned(o)[j]);
                } else {
                    assert(j != ri);
                    assert(post.spec_owned(o)[j - 1] == pre.spec_owned(o)[j]);
                }
            } else if o == to_o {
                assert(post.spec_owned(o)[j] == pre.spec_owned(o)[j]);
            } else {
                assert(post.spec_owned(o)[j] == pre.spec_owned(o)[j]);
            }
        }
    }
    assert forall|a: u64, j: int|
        0 <= j < post.spec_owned(a).len() implies post.spec_task(
        #[trigger] post.spec_owned(a)[j],
    ) is Some && post.spec_task(post.spec_owned(a)[j]).unwrap().current_owner == a by {
        if a == from_o {
            let v: u64 = if j < ri {
                pre.spec_owned(a)[j]
            } else {
                pre.spec_owned(a)[j + 1]
            };
            assert(post.spec_owned(a)[j] == v);
            assert(pre.spec_task(v) is Some && pre.spec_task(v).unwrap().current_owner == a);
            assert(v != id) by {
                if j < ri {
                    assert(pre.spec_owned(a)[j] != pre.spec_owned(a)[ri]);
                } else {
                    assert(pre.spec_owned(a)[ri] != pre.spec_owned(a)[j + 1]);
                }
            }
            assert(post.spec_task(v) == pre.spec_task(v));
        } else if a == to_o {
            if j < pre.spec_owned(a).len() {
                let v = pre.spec_owned(a)[j];
                assert(post.spec_owned(a)[j] == v);
                assert(pre.spec_task(v) is Some && pre.spec_task(v).unwrap().current_owner == a);
                assert(v != id);
                assert(post.spec_task(v) == pre.spec_task(v));
            } else {
                assert(post.spec_owned(a)[j] == id);
            }
        } else {
            let v = pre.spec_owned(a)[j];
            assert(post.spec_owned(a)[j] == v);
            assert(pre.spec_task(v) is Some && pre.spec_task(v).unwrap().current_owner == a);
            assert(v != id) by {
                assert(pre.spec_task(id).unwrap().current_owner == from_o);
            }
            assert(post.spec_task(v) == pre.spec_task(v));
        }
    }
    assert forall|a: u64, i: int, j: int|
        0 <= i < j < post.spec_owned(a).len() implies (#[trigger] post.spec_owned(a)[i])
        != (#[trigger] post.spec_owned(a)[j]) by {
        if a == from_o {
            let si: int = if i < ri { i } else { i + 1 };
            let sj: int = if j < ri { j } else { j + 1 };
            assert(post.spec_owned(a)[i] == pre.spec_owned(a)[si]);
            assert(post.spec_owned(a)[j] == pre.spec_owned(a)[sj]);
        } else if a == to_o {
            let n = pre.spec_owned(a).len() as int;
            if j < n {
                assert(post.spec_owned(a)[i] == pre.spec_owned(a)[i]);
                assert(post.spec_owned(a)[j] == pre.spec_owned(a)[j]);
            } else {
                assert(post.spec_owned(a)[j] == id);
                assert(post.spec_owned(a)[i] == pre.spec_owned(a)[i]);
                assert(pre.spec_owned(a).contains(pre.spec_owned(a)[i]) == true) by {
                    assert(pre.spec_owned(a)[i] == pre.spec_owned(a)[i]);
                }
            }
        } else {
            assert(post.spec_owned(a)[i] == pre.spec_owned(a)[i]);
            assert(post.spec_owned(a)[j] == pre.spec_owned(a)[j]);
        }
    }
    assert forall|a: u64| #[trigger] post.spec_owned(a).len() <= post.spec_capacity() by {
        if a == from_o {
            assert(post.spec_owned(a).len() == pre.spec_owned(a).len() - 1);
        } else if a == to_o {
        } else {
            assert(post.spec_owned(a) == pre.spec_owned(a));
        }
    }
}

impl TaskLifecycle {
    /// A volunteer claims a created task: it goes in progress and moves
    /// into the volunteer's index.  All-or-nothing; `start_check` names
    /// the exact error returned for every rejected input.
    pub fn start_task(&mut self, volunteer: u64, id: u64) -> (r: Result<(), Error>)
        requires
            old(self).wf(),
        ensures
            final(self).wf(),
            match r {
                Ok(()) => start_check(*old(self), volunteer, id) is None && start_ok(
                    *old(self),
                    *final(self),
                    volunteer,
                    id,
                ),
                Err(e) => Some(e) == start_check(*old(self), volunteer, id) && unchanged(
                    *old(self),
                    *final(self),
                ),
            },
    {
        let (initiator, created) = match self.tasks.get(id) {
            None => {
                return Err(Error::TaskNotFound);
            },
            Some(t) => (t.initiator, t.status == TaskStatus::Created),
        };
        if !created || volunteer == initiator {
            return Err(Error::NoPermissionToStart);
        }
        if self.owned.owned_len(volunteer) >= self.max_tasks {
            return Err(Error::OwnershipCapacityExceeded);
        }
        let mut t = self.tasks.remove(id);
        t.volunteer = volunteer;
        t.current_owner = volunteer;
        t.status = TaskStatus::InProgress;
        self.tasks.insert_new(id, t);
        proof {
            lemma_owner_not_holder(*old(self), id, volunteer);
        }
        self.owned.remove_id(initiator, id);
        self.owned.push_id(volunteer, id);
        proof {
            lemma_reassign_preserves_wf(*old(self), *self, id, initiator, volunteer);
        }
        Ok(())
    }

    /// The volunteer submits finished work: the task goes to pending
    /// review and moves back into the initiator's index.  All-or-nothing;
    /// `complete_check` names the exact error returned for every rejected
    /// input.
    pub fn complete_task(&mut self, caller: u64, id: u64) -> (r: Result<(), Error>)
        requires
            old(self).wf(),
        ensures
            final(self).wf(),
            match r {
                Ok(()) => complete_check(*old(self), caller, id) is None && complete_ok(
                    *old(self),
                    *final(self),
                    id,
                ),
                Err(e) => Some(e) == complete_check(*old(self), caller, id) && unchanged(
                    *old(self),
                    *final(self),
                ),
            },
    {
        let (initiator, volunteer, in_progress) = match self.tasks.get(id) {
            None => {
                return Err(Error::TaskNotFound);
            },
            Some(t) => (t.initiator, t.current_owner, t.status == TaskStatus::InProgress),
        };
        if !in_progress || caller != volunteer {
            return Err(Error::NoPermissionToComplete);
        }
        if self.owned.owned_len(initiator) >= self.max_tasks {
            return Err(Error::OwnershipCapacityExceeded);
        }
        let mut t = self.tasks.remove(id);
        t.current_owner = initiator;
        t.status = TaskStatus::PendingReview;
        t.completed_at = self.now;
        self.tasks.insert_new(id, t);
        proof {
            lemma_owner_not_holder(*old(self), id, initiator);
        }
        self.owned.remove_id(volunteer, id);
        self.owned.push_id(initiator, id);
        proof {
            lemma_reassign_preserves_wf(*old(self), *self, id, volunteer, initiator);
        }
        Ok(())
    }

    /// The initiator rejects submitted work with feedback: the task goes
    /// back in progress and moves into the volunteer's index; no funds
    /// move and no reputation changes.  All-or-nothing; `reject_check`
    /// names the exact error returned for every rejected input.
    pub fn reject_task(&mut self, caller: u64, id: u64, feedback: Vec<u8>) -> (r: Result<
        (),
        Error,
    >)
        requires
            old(self).wf(),
        ensures
            final(self).wf(),
            match r {
                Ok(()) => reject_check(*old(self), caller, id) is None && reject_ok(
                    *old(self),
                    *final(self),
                    id,
                    feedback@,
                ),
                Err(e) => Some(e) == reject_check(*old(self), caller, id) && unchanged(
                    *old(self),
                    *final(self),
                ),
            },
    {
        let (initiator, volunteer, pending) = match self.tasks.get(id) {
            None => {
                return Err(Error::TaskNotFound);
            },
            Some(t) => (t.initiator, t.volunteer, t.status == TaskStatus::PendingReview),
        };
        if caller != initiator {
            return Err(Error::OnlyInitiatorAcceptsTask);
        }
        if !pending {
            return Err(Error::NotInReviewState);
        }
        if self.owned.owned_len(volunteer) >= self.max_tasks {
            return Err(Error::OwnershipCapacityExceeded);
        }
        let mut t = self.tasks.remove(id);
        t.current_owner = volunteer;
        t.status = TaskStatus::InProgress;
        t.feedback = Some(feedback);
        self.tasks.insert_new(id, t);
        proof {
            lemma_owner_not_holder(*old(self), id, volunteer);
        }
        self.owned.remove_id(initiator, id);
        self.owned.push_id(volunteer, id);
        proof {
            lemma_reassign_preserves_wf(*old(self), *self, id, initiator, volunteer);
        }
        Ok(())
    }
}

/// The first check an update fails, if any: the task must exist, only the
/// initiator updates, only a never-started task can be updated, and a
/// budget raise must be fundable.
pub open spec fn update_check(s: TaskLifecycle, caller: u64, id: u64, new_budget: u64) -> Option<
    Error,
> {
    match s.spec_task(id) {
        None => Some(Error::TaskNotFound),
        Some(t) => {
            if caller != t.initiator {
                Some(Error::OnlyInitiatorUpdatesTask)
            } else if t.status != TaskStatus::Created {
                Some(Error::NoPermissionToUpdate)
            } else if new_budget > t.budget && s.spec_balance(Account::User(t.initiator))
                < new_budget - t.budget {
                Some(Error::InsufficientFunds)
            } else {
                None
            }
        },
    }
}

/// What a successful update did: the content fields were replaced, the
/// escrow was topped up or partially refunded to match the new budget
/// exactly, and the update time was recorded; nothing else changed.
pub open spec fn update_ok(
    pre: TaskLifecycle,
    post: TaskLifecycle,
    id: u64,
    title: Seq<u8>,
    specification: Seq<u8>,
    new_budget: u64,
    new_deadline: u64,
    attachments: Seq<u8>,
    keywords: Seq<u8>,
) -> bool {
    let t = pre.spec_task(id).unwrap();
    &&& pre.spec_task(id) is Some
    &&& post.spec_task(id) == Some(
        TaskView {
            title: title,
            specification: specification,
            attachments: attachments,
            keywords: keywords,
            budget: new_budget,
            deadline: new_deadline,
            updated_at: pre.spec_now(),
            ..t
        },
    )
    &&& forall|k: u64| k != id ==> #[trigger] post.spec_task(k) == pre.spec_task(k)
    &&& same_owned(pre, post)
    &&& post.spec_balance(Account::User(t.initiator)) + new_budget == pre.spec_balance(
        Account::User(t.initiator),
    ) + t.budget
    &&& post.spec_balance(Account::Escrow(id)) == new_budget
    &&& forall|acct: Account|
        acct != Account::User(t.initiator) && acct != Account::Escrow(id)
            ==> #[trigger] post.spec_balance(acct) == pre.spec_balance(acct)
    &&& same_registry(pre, post)
    &&& post.spec_task_count() == pre.spec_task_count()
    &&& post.spec_now() == pre.spec_now()
    &&& post.spec_capacity() == pre.spec_capacity()
    &&& post.spec_total() == pre.spec_total()
}

/// The first check a removal fails, if any: the task must exist, and only
/// the initiator of a never-started task removes it.
pub open spec fn remove_check(s: TaskLifecycle, caller: u64, id: u64) -> Option<Error> {
    match s.spec_task(id) {
        None => Some(Error::TaskNotFound),
        Some(t) => {
            if caller != t.initiator || t.status != TaskStatus::Created {
                Some(Error::NoPermissionToRemove)
            } else {
                None
            }
        },
    }
}

/// What removing or expiring a task does: the task and its index entry go
/// away together, the full escrow balance returns to the account holding
/// the task at that moment, and the counter falls by one.  No reputation
/// changes.
pub open spec fn removed_ok(pre: TaskLifecycle, post: TaskLifecycle, id: u64) -> bool {
    let t = pre.spec_task(id).unwrap();
    &&& pre.spec_task(id) is Some
    &&& post.spec_task(id) is None
    &&& forall|k: u64| k != id ==> #[trigger] post.spec_task(k) == pre.spec_task(k)
    &&& removed_one(pre.spec_owned(t.current_owner), post.spec_owned(t.current_owner), id)
    &&& forall|b: u64|
        b != t.current_owner ==> #[trigger] post.spec_owned(b) == pre.spec_owned(b)
    &&& post.spec_balance(Account::User(t.current_owner)) == pre.spec_balance(
        Account::User(t.current_owner),
    ) + t.budget
    &&& post.spec_balance(Account::Escrow(id)) == 0
    &&& forall|acct: Account|
        acct != Account::User(t.current_owner) && acct != Account::Escrow(id)
            ==> #[trigger] post.spec_balance(acct) == pre.spec_balance(acct)
    &&& same_registry(pre, post)
    &&& post.spec_task_count() == pre.spec_task_count() - 1
    &&& post.spec_now() == pre.spec_now()
    &&& post.spec_capacity() == pre.spec_capacity()
    &&& post.spec_total() == pre.spec_total()
}

/// The first check an acceptance fails, if any: the task must exist, only
/// the initiator reviews, the task must be pending review, and both
/// parties must be able to take the reputation credit — checked before
/// any funds move, so that crediting cannot fail after payment.
pub open spec fn accept_check(s: TaskLifecycle, caller: u64, id: u64) -> Option<Error> {
    match s.spec_task(id) {
        None => Some(Error::TaskNotFound),
        Some(t) => {
            if caller != t.initiator {
                Some(Error::OnlyInitiatorAcceptsTask)
            } else if t.status != TaskStatus::PendingReview {
                Some(Error::NotInReviewState)
            } else if !(s.spec_can_credit(t.initiator) && s.spec_can_credit(t.volunteer)) {
                Some(Error::NoIdentity)
            } else {
                None
            }
        },
    }
}

/// What a successful acceptance did, as one atomic unit: the full escrow
/// moved to the volunteer, both parties' reputations rose by exactly one,
/// and the task and its index entry went away together.
pub open spec fn accept_ok(pre: TaskLifecycle, post: TaskLifecycle, id: u64) -> bool {
    let t = pre.spec_task(id).unwrap();
    &&& pre.spec_task(id) is Some
    &&& post.spec_task(id) is None
    &&& forall|k: u64| k != id ==> #[trigger] post.spec_task(k) == pre.spec_task(k)
    &&& removed_one(pre.spec_owned(t.initiator), post.spec_owned(t.initiator), id)
    &&& forall|b: u64| b != t.initiator ==> #[trigger] post.spec_owned(b) == pre.spec_owned(b)
    &&& post.spec_balance(Account::User(t.volunteer)) == pre.spec_balance(
        Account::User(t.volunteer),
    ) + t.budget
    &&& post.spec_balance(Account::Escrow(id)) == 0
    &&& forall|acct: Account|
        acct != Account::User(t.volunteer) && acct != Account::Escrow(id)
            ==> #[trigger] post.spec_balance(acct) == pre.spec_balance(acct)
    &&& post.spec_reputation(t.initiator) == pre.spec_reputation(t.initiator) + 1
    &&& post.spec_reputation(t.volunteer) == pre.spec_reputation(t.volunteer) + 1
    &&& forall|x: u64|
        x != t.initiator && x != t.volunteer
            ==> #[trigger] post.spec_reputation(x) == pre.spec_reputation(x)
    &&& forall|x: u64| #[trigger] post.spec_has_identity(x) == pre.spec_has_identity(x)
    &&& post.spec_task_count() == pre.spec_task_count() - 1
    &&& post.spec_now() == pre.spec_now()
    &&& post.spec_capacity() == pre.spec_capacity()
    &&& post.spec_total() == pre.spec_total()
}

/// Updating a task's fields, with the escrow brought to the new budget,
/// preserves the system invariant.
proof fn lemma_update_preserves_wf(pre: TaskLifecycle, post: TaskLifecycle, id: u64)
    requires
        pre.wf(),
        post.ledger.wf(),
        post.registry.wf(),
        post.tasks.wf(),
        post.owned.wf(),
        pre.spec_task(id) is Some,
        post.spec_task(id) is Some,
        task_shape_ok(post.spec_task(id).unwrap()),
        post.spec_task(id).unwrap().current_owner == pre.spec_task(id).unwrap().current_owner,
        post.spec_balance(Account::Escrow(id)) == post.spec_task(id).unwrap().budget,
        forall|k: u64| k != id ==> #[trigger] post.spec_task(k) == pre.spec_task(k),
        forall|b: u64| #[trigger] post.spec_owned(b) == pre.spec_owned(b),
        forall|k: u64|
            k != id ==> #[trigger] post.spec_balance(Account::Escrow(k)) == pre.spec_balance(
                Account::Escrow(k),
            ),
        post.spec_task_count() == pre.spec_task_count(),
        post.spec_task_count() == post.tasks.spec_len(),
        post.spec_capacity() == pre.spec_capacity(),
    ensures
        post.wf(),
{
    assert forall|k: u64|
        #[trigger] post.spec_task(k) is Some implies task_shape_ok(post.spec_task(k).unwrap()) by {
        if k != id {
            assert(post.spec_task(k) == pre.spec_task(k));
        }
    }
    assert forall|k: u64|
        #[trigger] post.spec_balance(Account::Escrow(k)) == match post.spec_task(k) {
            Some(t) => t.budget,
            None => 0u64,
        } by {
        if k != id {
            assert(post.spec_balance(Account::Escrow(k)) == pre.spec_balance(Account::Escrow(k)));
            assert(post.spec_task(k) == pre.spec_task(k));
        }
    }
    assert forall|k: u64|
        #[trigger] post.spec_task(k) is Some implies post.spec_owned(
        post.spec_task(k).unwrap().current_owner,
    ).contains(k) by {
        let o = post.spec_task(k).unwrap().current_owner;
        if k != id {
            assert(post.spec_task(k) == pre.spec_task(k));
        }
        assert(pre.spec_owned(o).contains(k));
        assert(post.spec_owned(o) == pre.spec_owned(o));
    }
    assert forall|a: u64, j: int|
        0 <= j < post.spec_owned(a).len() implies post.spec_task(
        #[trigger] post.spec_owned(a)[j],
    ) is Some && post.spec_task(post.spec_owned(a)[j]).unwrap().current_owner == a by {
        assert(post.spec_owned(a) == pre.spec_owned(a));
        let v = pre.spec_owned(a)[j];
        assert(pre.spec_task(v) is Some && pre.spec_task(v).unwrap().current_owner == a);
        if v != id {
            assert(post.spec_task(v) == pre.spec_task(v));
        }
    }
    assert forall|a: u64, i: int, j: int|
        0 <= i < j < post.spec_owned(a).len() implies (#[trigger] post.spec_owned(a)[i])
        != (#[trigger] post.spec_owned(a)[j]) by {
        assert(post.spec_owned(a) == pre.spec_owned(a));
    }
    assert forall|a: u64| #[trigger] post.spec_owned(a).len() <= post.spec_capacity() by {
        assert(post.spec_owned(a) == pre.spec_owned(a));
    }
}

/// Removing a task, with its escrow emptied, preserves the system
/// invariant.
proof fn lemma_remove_preserves_wf(pre: TaskLifecycle, post: TaskLifecycle, id: u64, owner: u64)
    requires
        pre.wf(),
        post.ledger.wf(),
        post.registry.wf(),
        post.tasks.wf(),
        post.owned.wf(),
        pre.spec_task(id) is Some,
        pre.spec_task(id).unwrap().current_owner == owner,
        post.spec_task(id) is None,
        post.spec_balance(Account::Escrow(id)) == 0,
        forall|k: u64| k != id ==> #[trigger] post.spec_task(k) == pre.spec_task(k),
        removed_one(pre.spec_owned(owner), post.spec_owned(owner), id),
        forall|b: u64| b != owner ==> #[trigger] post.spec_owned(b) == pre.spec_owned(b),
        forall|k: u64|
            k != id ==> #[trigger] post.spec_balance(Account::Escrow(k)) == pre.spec_balance(
                Account::Escrow(k),
            ),
        post.spec_task_count() == pre.spec_task_count() - 1,
        post.spec_task_count() == post.tasks.spec_len(),
        post.spec_capacity() == pre.spec_capacity(),
    ensures
        post.wf(),
{
    let ri = choose|k: int|
        {
            &&& 0 <= k < pre.spec_owned(owner).len()
            &&& pre.spec_owned(owner)[k] == id
            &&& (forall|j: int| 0 <= j < k ==> pre.spec_owned(owner)[j] != id)
            &&& post.spec_owned(owner) == pre.spec_owned(owner).remove(k)
        };
    assert forall|k: u64|
        #[trigger] post.spec_task(k) is Some implies task_shape_ok(post.spec_task(k).unwrap()) by {
        assert(k != id);
        assert(post.spec_task(k) == pre.spec_task(k));
    }
    assert forall|k: u64|
        #[trigger] post.spec_balance(Account::Escrow(k)) == match post.spec_task(k) {
            Some(t) => t.budget,
            None => 0u64,
        } by {
        if k != id {
            assert(post.spec_balance(Account::Escrow(k)) == pre.spec_balance(Account::Escrow(k)));
            assert(post.spec_task(k) == pre.spec_task(k));
        }
    }
    assert forall|k: u64|
        #[trigger] post.spec_task(k) is Some implies post.spec_owned(
        post.spec_task(k).unwrap().current_owner,
    ).contains(k) by {
        assert(k != id);
        assert(post.spec_task(k) == pre.spec_task(k));
        let o = pre.spec_task(k).unwrap().current_owner;
        assert(pre.spec_owned(o).contains(k));
        let j = choose|j: int| 0 <= j < pre.spec_owned(o).len() && pre.spec_owned(o)[j] == k;
        if o == owner {
            if j < ri {
                assert(post.spec_owned(o)[j] == pre.spec_owned(o)[j]);
            } else {
                assert(j != ri);
                assert(post.spec_owned(o)[j - 1] == pre.spec_owned(o)[j]);
            }
        } else {
            assert(post.spec_owned(o)[j] == pre.spec_owned(o)[j]);
        }
    }
    assert forall|a: u64, j: int|
        0 <= j < post.spec_owned(a).len() implies post.spec_task(
        #[trigger] post.spec_owned(a)[j],
    ) is Some && post.spec_task(post.spec_owned(a)[j]).unwrap().current_owner == a by {
        if a == owner {
            let v: u64 = if j < ri {
                pre.spec_owned(a)[j]
            } else {
                pre.spec_owned(a)[j + 1]
            };
            assert(post.spec_owned(a)[j] == v);
            assert(pre.spec_task(v) is Some && pre.spec_task(v).unwrap().current_owner == a);
            assert(v != id) by {
                if j < ri {
                    assert(pre.spec_owned(a)[j] != pre.spec_owned(a)[ri]);
                } else {
                    assert(pre.spec_owned(a)[ri] != pre.spec_owned(a)[j + 1]);
                }
            }
            assert(post.spec_task(v) == pre.spec_task(v));
        } else {
            let v = pre.spec_owned(a)[j];
            assert(post.spec_owned(a)[j] == v);
            assert(pre.spec_task(v) is Some && pre.spec_task(v).unwrap().current_owner == a);
            assert(v != id) by {
                assert(pre.spec_task(id).unwrap().current_owner == owner);
            }
            assert(post.spec_task(v) == pre.spec_task(v));
        }
    }
    assert forall|a: u64, i: int, j: int|
        0 <= i < j < post.spec_owned(a).len() implies (#[trigger] post.spec_owned(a)[i])
        != (#[trigger] post.spec_owned(a)[j]) by {
        if a == owner {
            let si: int = if i < ri { i } else { i + 1 };
            let sj: int = if j < ri { j } else { j + 1 };
            assert(post.spec_owned(a)[i] == pre.spec_owned(a)[si]);
            assert(post.spec_owned(a)[j] == pre.spec_owned(a)[sj]);
        } else {
            assert(post.spec_owned(a)[i] == pre.spec_owned(a)[i]);
            assert(post.spec_owned(a)[j] == pre.spec_owned(a)[j]);
        }
    }
    assert forall|a: u64| #[trigger] post.spec_owned(a).len() <= post.spec_capacity() by {
        if a == owner {
            assert(post.spec_owned(a).len() == pre.spec_owned(a).len() - 1);
        } else {
            assert(post.spec_owned(a) == pre.spec_owned(a));
        }
    }
}

impl TaskLifecycle {
    /// The initiator revises a never-started task: content fields are
    /// replaced and the escrow is topped up or partially refunded so that
    /// it again holds exactly the budget.  All-or-nothing; `update_check`
    /// names the exact error returned for every rejected input.
    pub fn update_task(
        &mut self,
        caller: u64,
        id: u64,
        new_title: Vec<u8>,
        new_specification: Vec<u8>,
        new_budget: u64,
        new_deadline: u64,
        new_attachments: Vec<u8>,
        new_keywords: Vec<u8>,
    ) -> (r: Result<(), Error>)
        requires
            old(self).wf(),
        ensures
            final(self).wf(),
            match r {
                Ok(()) => update_check(*old(self), caller, id, new_budget) is None && update_ok(
                    *old(self),
                    *final(self),
                    id,
                    new_title@,
                    new_specification@,
                    new_budget,
                    new_deadline,
                    new_attachments@,
                    new_keywords@,
                ),
                Err(e) => Some(e) == update_check(*old(self), caller, id, new_budget) && unchanged(
                    *old(self),
                    *final(self),
                ),
            },
    {
        let (initiator, created, budget) = match self.tasks.get(id) {
            None => {
                return Err(Error::TaskNotFound);
            },
            Some(t) => (t.initiator, t.status == TaskStatus::Created, t.budget),
        };
        if caller != initiator {
            return Err(Error::OnlyInitiatorUpdatesTask);
        }
        if !created {
            return Err(Error::NoPermissionToUpdate);
        }
        if new_budget > budget {
            match self.ledger.transfer(
                Account::User(initiator),
                Account::Escrow(id),
                new_budget - budget,
            ) {
                Err(e) => {
                    proof {
                        lemma_wf_frame(*old(self), *self);
                    }
                    return Err(e);
                },
                Ok(()) => {},
            }
        } else if budget > new_budget {
            proof {
                assert(old(self).spec_balance(Account::Escrow(id)) == budget);
            }
            match self.ledger.transfer(
                Account::Escrow(id),
                Account::User(initiator),
                budget - new_budget,
            ) {
                Err(_) => {
                    unreached()
                },
                Ok(()) => {},
            }
        }
        let mut t = self.tasks.remove(id);
        t.title = new_title;
        t.specification = new_specification;
        t.attachments = new_attachments;
        t.keywords = new_keywords;
        t.budget = new_budget;
        t.deadline = new_deadline;
        t.updated_at = self.now;
        self.tasks.insert_new(id, t);
        proof {
            assert(old(self).spec_balance(Account::Escrow(id)) == budget);
            assert(self.spec_balance(Account::Escrow(id)) == new_budget);
            lemma_update_preserves_wf(*old(self), *self, id);
        }
        Ok(())
    }

    /// Remove a task and refund its full escrow to the account holding it.
    /// Shared by explicit removal and by the expiry sweep, so refund and
    /// bookkeeping cannot diverge between the two paths.
    fn force_remove(&mut self, id: u64)
        requires
            old(self).wf(),
            old(self).spec_task(id) is Some,
        ensures
            final(self).wf(),
            removed_ok(*old(self), *final(self), id),
            exists|i: int|
                0 <= i < old(self).tasks.view_seq().len() && old(self).tasks.view_seq()[i] == (
                    id,
                    old(self).spec_task(id).unwrap(),
                ) && final(self).tasks.view_seq() == old(self).tasks.view_seq().remove(i),
    {
        let (owner, budget) = match self.tasks.get(id) {
            Some(t) => (t.current_owner, t.budget),
            None => unreached(),
        };
        proof {
            assert(self.spec_balance(Account::Escrow(id)) == budget);
        }
        match self.ledger.transfer(Account::Escrow(id), Account::User(owner), budget) {
            Err(_) => {
                unreached()
            },
            Ok(()) => {},
        }
        self.owned.remove_id(owner, id);
        proof {
            crate::assoc::lemma_find_some_index(old(self).tasks.view_seq(), id);
        }
        let _removed = self.tasks.remove(id);
        self.task_count = self.task_count - 1;
        proof {
            lemma_remove_preserves_wf(*old(self), *self, id, owner);
        }
    }

    /// The initiator withdraws a never-started task: the full escrow is
    /// refunded and the task goes away.  All-or-nothing; `remove_check`
    /// names the exact error returned for every rejected input.
    pub fn remove_task(&mut self, caller: u64, id: u64) -> (r: Result<(), Error>)
        requires
            old(self).wf(),
        ensures
            final(self).wf(),
            match r {
                Ok(()) => remove_check(*old(self), caller, id) is None && removed_ok(
                    *old(self),
                    *final(self),
                    id,
                ),
                Err(e) => Some(e) == remove_check(*old(self), caller, id) && unchanged(
                    *old(self),
                    *final(self),
                ),
            },
    {
        let (initiator, created) = match self.tasks.get(id) {
            None => {
                return Err(Error::TaskNotFound);
            },
            Some(t) => (t.initiator, t.status == TaskStatus::Created),
        };
        if caller != initiator || !created {
            return Err(Error::NoPermissionToRemove);
        }
        self.force_remove(id);
        Ok(())
    }

    /// The initiator accepts submitted work, as one atomic unit: the full
    /// escrow is paid to the volunteer, both parties gain one reputation
    /// point, and the task goes away.  Both identities are checked before
    /// any funds move, so crediting cannot fail after payment.
    /// All-or-nothing; `accept_check` names the exact error returned for
    /// every rejected input.
    pub fn accept_task(&mut self, caller: u64, id: u64) -> (r: Result<(), Error>)
        requires
            old(self).wf(),
        ensures
            final(self).wf(),
            match r {
                Ok(()) => accept_check(*old(self), caller, id) is None && accept_ok(
                    *old(self),
                    *final(self),
                    id,
                ),
                Err(e) => Some(e) == accept_check(*old(self), caller, id) && unchanged(
                    *old(self),
                    *final(self),
                ),
            },
    {
        let (initiator, volunteer, budget, pending) = match self.tasks.get(id) {
            None => {
                return Err(Error::TaskNotFound);
            },
            Some(t) => (t.initiator, t.volunteer, t.budget, t.status == TaskStatus::PendingReview),
        };
        if caller != initiator {
            return Err(Error::OnlyInitiatorAcceptsTask);
        }
        if !pending {
            return Err(Error::NotInReviewState);
        }
        let initiator_ok = self.registry.has_identity(initiator) && self.registry.reputation_of(
            initiator,
        ) < u64::MAX;
        let volunteer_ok = self.registry.has_identity(volunteer) && self.registry.reputation_of(
            volunteer,
        ) < u64::MAX;
        if !(initiator_ok && volunteer_ok) {
            return Err(Error::NoIdentity);
        }
        proof {
            assert(self.spec_balance(Account::Escrow(id)) == budget);
        }
        match self.ledger.transfer(Account::Escrow(id), Account::User(volunteer), budget) {
            Err(_) => {
                unreached()
            },
            Ok(()) => {},
        }
        match self.registry.credit_reputation(initiator) {
            Err(_) => {
                unreached()
            },
            Ok(()) => {},
        }
        match self.registry.credit_reputation(volunteer) {
            Err(_) => {
                unreached()
            },
            Ok(()) => {},
        }
        self.owned.remove_id(initiator, id);
        proof {
            crate::assoc::lemma_find_some_index(old(self).tasks.view_seq(), id);
        }
        let _removed = self.tasks.remove(id);
        self.task_count = self.task_count - 1;
        proof {
            lemma_remove_preserves_wf(*old(self), *self, id, initiator);
        }
        Ok(())
    }
}

/// The escrow refund that entry `e` contributes to account `a` when the
/// sweep runs at time `now`.
pub open spec fn expired_amount(e: (u64, TaskView), a: u64, now: u64) -> int {
    if e.1.current_owner == a && e.1.deadline <= now {
        e.1.budget as int
    } else {
        0
    }
}

/// The total escrow refund the sweep at time `now` owes account `a`.
pub open spec fn expired_sum(s: Seq<(u64, TaskView)>, a: u64, now: u64) -> int
    decreases s.len(),
{
    if s.len() == 0 {
        0
    } else {
        expired_amount(s[0], a, now) + expired_sum(s.drop_first(), a, now)
    }
}

/// How many stored tasks the sweep at time `now` removes.
pub open spec fn expired_count(s: Seq<(u64, TaskView)>, now: u64) -> int
    decreases s.len(),
{
    if s.len() == 0 {
        0
    } else {
        (if s[0].1.deadline <= now { 1int } else { 0int }) + expired_count(s.drop_first(), now)
    }
}

/// Removing one entry takes exactly its contribution out of the owed
/// refunds and out of the expired count.
pub proof fn lemma_expired_remove(s: Seq<(u64, TaskView)>, i: int, a: u64, now: u64)
    requires
        0 <= i < s.len(),
    ensures
        expired_sum(s.remove(i), a, now) == expired_sum(s, a, now) - expired_amount(s[i], a, now),
        expired_count(s.remove(i), now) == expired_count(s, now) - (if s[i].1.deadline <= now {
            1int
        } else {
            0int
        }),
    decreases i,
{
    if i == 0 {
        assert(s.remove(0) =~= s.drop_first());
    } else {
        assert(s.remove(i)[0] == s[0]);
        assert(s.remove(i).drop_first() =~= s.drop_first().remove(i - 1));
        assert(s.drop_first()[i - 1] == s[i]);
        lemma_expired_remove(s.drop_first(), i - 1, a, now);
    }
}

/// When no stored task is overdue, nothing is owed and nothing expires.
pub proof fn lemma_expired_none(s: Seq<(u64, TaskView)>, a: u64, now: u64)
    requires
        forall|j: int| 0 <= j < s.len() ==> (#[trigger] s[j]).1.deadline > now,
    ensures
        expired_sum(s, a, now) == 0,
        expired_count(s, now) == 0,
    decreases s.len(),
{
    if s.len() > 0 {
        assert forall|j: int| 0 <= j < s.drop_first().len() implies (#[trigger] s.drop_first()[j]).1.deadline > now by {
            assert(s.drop_first()[j] == s[j + 1]);
        }
        lemma_expired_none(s.drop_first(), a, now);
    }
}

/// Removing one element leaves every other value's membership as it was.
proof fn lemma_remove_keeps_members(s: Seq<u64>, ri: int, x: u64)
    requires
        0 <= ri < s.len(),
        x != s[ri],
    ensures
        s.remove(ri).contains(x) == s.contains(x),
{
    if s.contains(x) {
        let j = choose|j: int| 0 <= j < s.len() && s[j] == x;
        if j < ri {
            assert(s.remove(ri)[j] == x);
        } else {
            assert(s.remove(ri)[j - 1] == x);
        }
    }
    if s.remove(ri).contains(x) {
        let j = choose|j: int| 0 <= j < s.remove(ri).len() && s.remove(ri)[j] == x;
        let sj: int = if j < ri { j } else { j + 1 };
        assert(s[sj] == x);
    }
}

/// Removing the only occurrence of a value removes it from membership.
proof fn lemma_remove_only_occurrence(s: Seq<u64>, ri: int)
    requires
        0 <= ri < s.len(),
        forall|i: int, j: int| 0 <= i < j < s.len() ==> s[i] != s[j],
    ensures
        !s.remove(ri).contains(s[ri]),
{
    if s.remove(ri).contains(s[ri]) {
        let j = choose|j: int| 0 <= j < s.remove(ri).len() && s.remove(ri)[j] == s[ri];
        let sj: int = if j < ri { j } else { j + 1 };
        assert(s[sj] == s[ri]);
        assert(sj != ri);
    }
}

/// The subsequence of `s` whose elements satisfy `kept`, in order.
pub open spec fn retained(s: Seq<u64>, kept: spec_fn(u64) -> bool) -> Seq<u64>
    decreases s.len(),
{
    if s.len() == 0 {
        s
    } else if kept(s[0]) {
        seq![s[0]] + retained(s.drop_first(), kept)
    } else {
        retained(s.drop_first(), kept)
    }
}

/// Keeping everything keeps the sequence as it is.
proof fn lemma_retained_all(s: Seq<u64>, kept: spec_fn(u64) -> bool)
    requires
        forall|i: int| 0 <= i < s.len() ==> kept(#[trigger] s[i]),
    ensures
        retained(s, kept) == s,
    decreases s.len(),
{
    if s.len() > 0 {
        assert forall|i: int| 0 <= i < s.drop_first().len() implies kept(#[trigger] s.drop_first()[i]) by {
            assert(s.drop_first()[i] == s[i + 1]);
        }
        lemma_retained_all(s.drop_first(), kept);
        assert(seq![s[0]] + s.drop_first() =~= s);
    }
}

/// Two predicates that agree on every element retain the same subsequence.
proof fn lemma_retained_agree(s: Seq<u64>, p: spec_fn(u64) -> bool, q: spec_fn(u64) -> bool)
    requires
        forall|i: int| 0 <= i < s.len() ==> p(#[trigger] s[i]) == q(s[i]),
    ensures
        retained(s, p) == retained(s, q),
    decreases s.len(),
{
    if s.len() > 0 {
        assert forall|i: int| 0 <= i < s.drop_first().len() implies p(#[trigger] s.drop_first()[i]) == q(s.drop_first()[i]) by {
            assert(s.drop_first()[i] == s[i + 1]);
        }
        lemma_retained_agree(s.drop_first(), p, q);
    }
}

/// Dropping one retained element from the predicate removes exactly its
/// occurrence from the retained subsequence.
proof fn lemma_retained_drop_element(
    s: Seq<u64>,
    p: spec_fn(u64) -> bool,
    q: spec_fn(u64) -> bool,
    x: u64,
)
    requires
        forall|i: int, j: int| 0 <= i < j < s.len() ==> s[i] != s[j],
        s.contains(x),
        p(x),
        forall|i: int| 0 <= i < s.len() ==> q(#[trigger] s[i]) == (p(s[i]) && s[i] != x),
    ensures
        forall|k: int|
            0 <= k < retained(s, p).len() && (#[trigger] retained(s, p)[k]) == x && (forall|j: int|
                0 <= j < k ==> retained(s, p)[j] != x) ==> retained(s, q) == retained(s, p).remove(
                k,
            ),
    decreases s.len(),
{
    let rp = retained(s, p);
    let rq = retained(s, q);
    let rest = s.drop_first();
    assert forall|i: int, j: int| 0 <= i < j < rest.len() implies rest[i] != rest[j] by {
        assert(rest[i] == s[i + 1]);
        assert(rest[j] == s[j + 1]);
    }
    if s[0] == x {
        assert forall|i: int| 0 <= i < rest.len() implies rest[i] != x by {
            assert(rest[i] == s[i + 1]);
        }
        assert forall|i: int| 0 <= i < rest.len() implies q(#[trigger] rest[i]) == p(rest[i]) by {
            assert(rest[i] == s[i + 1]);
        }
        lemma_retained_agree(rest, p, q);
        assert(rp == seq![x] + retained(rest, p));
        assert(rq == retained(rest, q));
        assert forall|k: int|
            0 <= k < rp.len() && (#[trigger] rp[k]) == x && (forall|j: int|
                0 <= j < k ==> rp[j] != x) implies rq == rp.remove(k) by {
            assert(rp[0] == x);
            assert(k == 0);
            assert(rp.remove(0) =~= retained(rest, p));
        }
    } else {
        let sub = choose|i: int| 0 <= i < s.len() && s[i] == x;
        assert(rest[sub - 1] == x);
        assert(rest.contains(x));
        assert forall|i: int| 0 <= i < rest.len() implies q(#[trigger] rest[i]) == (p(rest[i])
            && rest[i] != x) by {
            assert(rest[i] == s[i + 1]);
        }
        lemma_retained_drop_element(rest, p, q, x);
        if p(s[0]) {
            assert(q(s[0]));
            assert(rp == seq![s[0]] + retained(rest, p));
            assert(rq == seq![s[0]] + retained(rest, q));
            assert forall|k: int|
                0 <= k < rp.len() && (#[trigger] rp[k]) == x && (forall|j: int|
                    0 <= j < k ==> rp[j] != x) implies rq == rp.remove(k) by {
                assert(rp[0] == s[0]);
                assert(k > 0);
                assert(retained(rest, p)[k - 1] == rp[k]);
                assert forall|j: int| 0 <= j < k - 1 implies retained(rest, p)[j] != x by {
                    assert(rp[j + 1] == retained(rest, p)[j]);
                }
                assert(retained(rest, q) == retained(rest, p).remove(k - 1));
                assert(rq =~= rp.remove(k));
            }
        } else {
            assert(!q(s[0]));
            assert(rp == retained(rest, p));
            assert(rq == retained(rest, q));
        }
    }
}

/// What one run of the expiry sweep did: every task whose deadline lay at
/// or before the current time went away, each refunding its full escrow
/// to the account holding it at that moment; every other task, and
/// everything else, stayed exactly as it was.  No reputation changes.
pub open spec fn sweep_ok(pre: TaskLifecycle, post: TaskLifecycle) -> bool {
    &&& forall|id: u64|
        #[trigger] post.spec_task(id) == (match pre.spec_task(id) {
            Some(t) => if t.deadline <= pre.spec_now() {
                None::<TaskView>
            } else {
                Some(t)
            },
            None => None::<TaskView>,
        })
    &&& post.spec_task_count() == pre.spec_task_count() - expired_count(
        pre.spec_store_entries(),
        pre.spec_now(),
    )
    &&& forall|a: u64|
        #[trigger] post.spec_balance(Account::User(a)) == pre.spec_balance(Account::User(a))
            + expired_sum(pre.spec_store_entries(), a, pre.spec_now())
    &&& forall|id: u64|
        #[trigger] post.spec_balance(Account::Escrow(id)) == (match pre.spec_task(id) {
            Some(t) => if t.deadline <= pre.spec_now() {
                0u64
            } else {
                pre.spec_balance(Account::Escrow(id))
            },
            None => pre.spec_balance(Account::Escrow(id)),
        })
    &&& forall|a: u64, id: u64|
        #[trigger] post.spec_owned(a).contains(id) <==> (pre.spec_owned(a).contains(id)
            && post.spec_task(id) is Some)
    &&& forall|a: u64|
        #[trigger] post.spec_owned(a) == retained(
            pre.spec_owned(a),
            |x: u64| post.spec_task(x) is Some,
        )
    &&& same_registry(pre, post)
    &&& post.spec_now() == pre.spec_now()
    &&& post.spec_capacity() == pre.spec_capacity()
    &&& post.spec_total() == pre.spec_total()
}

impl TaskLifecycle {
    /// The stored tasks as identifier/record pairs, in storage order.
    pub closed spec fn spec_store_entries(self) -> Seq<(u64, TaskView)> {
        self.tasks.view_seq()
    }

    /// Some stored task whose deadline has passed, if any remains.
    fn find_expired(&self) -> (r: Option<u64>)
        requires
            self.wf(),
        ensures
            match r {
                Some(id) => self.spec_task(id) is Some && self.spec_task(id).unwrap().deadline
                    <= self.spec_now(),
                None => forall|j: int|
                    0 <= j < self.spec_store_entries().len() ==> (
                    #[trigger] self.spec_store_entries()[j]).1.deadline > self.spec_now(),
            },
    {
        let n = self.tasks.len();
        let mut i: usize = 0;
        while i < n
            invariant
                self.wf(),
                n == self.tasks.spec_len(),
                i <= n,
                forall|j: int|
                    0 <= j < i ==> (#[trigger] self.tasks.view_seq()[j]).1.deadline
                        > self.spec_now(),
            decreases n - i,
        {
            let id = self.tasks.nth_id(i);
            proof {
                crate::assoc::lemma_find_at_index(self.tasks.view_seq(), i as int);
            }
            let t = match self.tasks.get(id) {
                Some(t) => t,
                None => unreached(),
            };
            if t.deadline <= self.now {
                return Some(id);
            }
            i = i + 1;
        }
        None
    }

    /// Run the expiry sweep for the current tick: remove every task whose
    /// deadline lies at or before the current time, refunding each task's
    /// full escrow to whoever holds it.  Expiry-driven removals never
    /// fail: the refund recipient exists and the escrow holds exactly the
    /// budget, so this is total.
    pub fn sweep_expired(&mut self)
        requires
            old(self).wf(),
        ensures
            final(self).wf(),
            sweep_ok(*old(self), *final(self)),
    {
        proof {
            assert forall|a: u64|
                #[trigger] self.spec_owned(a) == retained(
                    self.spec_owned(a),
                    |x: u64| self.spec_task(x) is Some,
                ) by {
                assert forall|i: int|
                    0 <= i < self.spec_owned(a).len() implies (|x: u64| self.spec_task(x) is Some)(
                    #[trigger] self.spec_owned(a)[i],
                ) by {
                    assert(self.spec_task(self.spec_owned(a)[i]) is Some);
                }
                lemma_retained_all(self.spec_owned(a), |x: u64| self.spec_task(x) is Some);
            }
        }
        loop
            invariant
                self.wf(),
                self.spec_now() == old(self).spec_now(),
                self.spec_capacity() == old(self).spec_capacity(),
                self.spec_total() == old(self).spec_total(),
                same_registry(*old(self), *self),
                forall|id: u64|
                    #[trigger] self.spec_task(id) is Some ==> self.spec_task(id) == old(
                        self,
                    ).spec_task(id),
                forall|id: u64|
                    old(self).spec_task(id) is Some && old(self).spec_task(id).unwrap().deadline
                        > old(self).spec_now() ==> #[trigger] self.spec_task(id) == old(
                        self,
                    ).spec_task(id),
                forall|id: u64|
                    old(self).spec_task(id) is None ==> #[trigger] self.spec_task(id) is None,
                forall|a: u64|
                    #[trigger] self.spec_balance(Account::User(a)) + expired_sum(
                        self.spec_store_entries(),
                        a,
                        old(self).spec_now(),
                    ) == old(self).spec_balance(Account::User(a)) + expired_sum(
                        old(self).spec_store_entries(),
                        a,
                        old(self).spec_now(),
                    ),
                self.spec_task_count() - expired_count(
                    self.spec_store_entries(),
                    old(self).spec_now(),
                ) == old(self).spec_task_count() - expired_count(
                    old(self).spec_store_entries(),
                    old(self).spec_now(),
                ),
                forall|a: u64, id: u64|
                    #[trigger] self.spec_owned(a).contains(id) <==> (old(self).spec_owned(
                        a,
                    ).contains(id) && self.spec_task(id) is Some),
                old(self).wf(),
                forall|a: u64|
                    #[trigger] self.spec_owned(a) == retained(
                        old(self).spec_owned(a),
                        |x: u64| self.spec_task(x) is Some,
                    ),
            ensures
                self.wf(),
                self.spec_now() == old(self).spec_now(),
                self.spec_capacity() == old(self).spec_capacity(),
                self.spec_total() == old(self).spec_total(),
                same_registry(*old(self), *self),
                forall|id: u64|
                    #[trigger] self.spec_task(id) is Some ==> self.spec_task(id) == old(
                        self,
                    ).spec_task(id),
                forall|id: u64|
                    old(self).spec_task(id) is Some && old(self).spec_task(id).unwrap().deadline
                        > old(self).spec_now() ==> #[trigger] self.spec_task(id) == old(
                        self,
                    ).spec_task(id),
                forall|id: u64|
                    old(self).spec_task(id) is None ==> #[trigger] self.spec_task(id) is None,
                forall|a: u64|
                    #[trigger] self.spec_balance(Account::User(a)) + expired_sum(
                        self.spec_store_entries(),
                        a,
                        old(self).spec_now(),
                    ) == old(self).spec_balance(Account::User(a)) + expired_sum(
                        old(self).spec_store_entries(),
                        a,
                        old(self).spec_now(),
                    ),
                self.spec_task_count() - expired_count(
                    self.spec_store_entries(),
                    old(self).spec_now(),
                ) == old(self).spec_task_count() - expired_count(
                    old(self).spec_store_entries(),
                    old(self).spec_now(),
                ),
                forall|a: u64, id: u64|
                    #[trigger] self.spec_owned(a).contains(id) <==> (old(self).spec_owned(
                        a,
                    ).contains(id) && self.spec_task(id) is Some),
                forall|a: u64|
                    #[trigger] self.spec_owned(a) == retained(
                        old(self).spec_owned(a),
                        |x: u64| self.spec_task(x) is Some,
                    ),
                forall|j: int|
                    0 <= j < self.spec_store_entries().len() ==> (
                    #[trigger] self.spec_store_entries()[j]).1.deadline > old(self).spec_now(),
            decreases self.tasks.spec_len(),
        {
            let next = self.find_expired();
            match next {
                None => {
                    break ;
                },
                Some(id) => {
                    let ghost mid = *self;
                    let ghost t = self.spec_task(id).unwrap();
                    let ghost owner = t.current_owner;
                    proof {
                        if old(self).spec_task(id) is None {
                            assert(self.spec_task(id) is None);
                        }
                    }
                    self.force_remove(id);
                    proof {
                        let ei = choose|i: int|
                            0 <= i < mid.tasks.view_seq().len() && mid.tasks.view_seq()[i] == (
                                id,
                                t,
                            ) && self.tasks.view_seq() == mid.tasks.view_seq().remove(i);
                        assert forall|a: u64|
                            #[trigger] self.spec_balance(Account::User(a)) + expired_sum(
                                self.spec_store_entries(),
                                a,
                                old(self).spec_now(),
                            ) == old(self).spec_balance(Account::User(a)) + expired_sum(
                                old(self).spec_store_entries(),
                                a,
                                old(self).spec_now(),
                            ) by {
                            lemma_expired_remove(
                                mid.spec_store_entries(),
                                ei,
                                a,
                                old(self).spec_now(),
                            );
                            if a != owner {
                                assert(self.spec_balance(Account::User(a)) == mid.spec_balance(
                                    Account::User(a),
                                ));
                            }
                        }
                        lemma_expired_remove(
                            mid.spec_store_entries(),
                            ei,
                            owner,
                            old(self).spec_now(),
                        );
                        assert(t.deadline <= old(self).spec_now());
                        assert(mid.spec_store_entries()[ei] == (id, t));

                        let ri = choose|k: int|
                            {
                                &&& 0 <= k < mid.spec_owned(owner).len()
                                &&& mid.spec_owned(owner)[k] == id
                                &&& (forall|j: int| 0 <= j < k ==> mid.spec_owned(owner)[j] != id)
                                &&& self.spec_owned(owner) == mid.spec_owned(owner).remove(k)
                            };
                        assert forall|a: u64, k: u64|
                            #[trigger] self.spec_owned(a).contains(k) <==> (old(self).spec_owned(
                                a,
                            ).contains(k) && self.spec_task(k) is Some) by {
                            if k == id {
                                lemma_remove_only_occurrence(mid.spec_owned(owner), ri);
                                if a != owner {
                                    lemma_owner_not_holder(mid, id, a);
                                }
                            } else {
                                if a == owner {
                                    lemma_remove_keeps_members(mid.spec_owned(owner), ri, k);
                                } else {
                                    assert(self.spec_owned(a) == mid.spec_owned(a));
                                }
                                assert(self.spec_task(k) == mid.spec_task(k));
                            }
                        }
                        let p = |x: u64| mid.spec_task(x) is Some;
                        let q = |x: u64| self.spec_task(x) is Some;
                        assert forall|a: u64|
                            #[trigger] self.spec_owned(a) == retained(
                                old(self).spec_owned(a),
                                q,
                            ) by {
                            let pre_list = old(self).spec_owned(a);
                            assert(mid.spec_owned(a) == retained(pre_list, p));
                            if a == owner {
                                assert(old(self).spec_task(id) == mid.spec_task(id));
                                assert(pre_list.contains(id)) by {
                                    assert(old(self).spec_owned(owner).contains(id));
                                }
                                assert forall|i: int|
                                    0 <= i < pre_list.len() implies q(#[trigger] pre_list[i]) == (
                                p(pre_list[i]) && pre_list[i] != id) by {
                                    if pre_list[i] != id {
                                        assert(self.spec_task(pre_list[i]) == mid.spec_task(
                                            pre_list[i],
                                        ));
                                    } else {
                                        assert(self.spec_task(id) is None);
                                    }
                                }
                                lemma_retained_drop_element(pre_list, p, q, id);
                                assert(retained(pre_list, p)[ri] == id);
                                assert(self.spec_owned(owner) == retained(pre_list, p).remove(ri));
                            } else {
                                lemma_owner_not_holder(*old(self), id, a);
                                assert forall|i: int|
                                    0 <= i < pre_list.len() implies p(#[trigger] pre_list[i]) == q(
                                    pre_list[i],
                                ) by {
                                    assert(pre_list[i] != id);
                                    assert(self.spec_task(pre_list[i]) == mid.spec_task(
                                        pre_list[i],
                                    ));
                                }
                                lemma_retained_agree(pre_list, p, q);
                                assert(self.spec_owned(a) == mid.spec_owned(a));
                            }
                        }
                    }
                },
            }
        }
        proof {
            assert forall|id: u64|
                #[trigger] self.spec_task(id) == (match old(self).spec_task(id) {
                    Some(t) => if t.deadline <= old(self).spec_now() {
                        None::<TaskView>
                    } else {
                        Some(t)
                    },
                    None => None::<TaskView>,
                }) by {
                if self.spec_task(id) is Some {
                    crate::assoc::lemma_find_some_index(self.tasks.view_seq(), id);
                    let i = choose|i: int|
                        0 <= i < self.tasks.view_seq().len() && (
                        #[trigger] self.tasks.view_seq()[i]).0 == id && Some(
                            self.tasks.view_seq()[i].1,
                        ) == crate::assoc::find(self.tasks.view_seq(), id);
                    assert(self.spec_store_entries()[i].1.deadline > old(self).spec_now());
                }
            }
            assert forall|a: u64|
                #[trigger] self.spec_balance(Account::User(a)) == old(self).spec_balance(
                    Account::User(a),
                ) + expired_sum(old(self).spec_store_entries(), a, old(self).spec_now()) by {
                lemma_expired_none(self.spec_store_entries(), a, old(self).spec_now());
            }
            lemma_expired_none(self.spec_store_entries(), 0, old(self).spec_now());
            assert forall|id: u64|
                #[trigger] self.spec_balance(Account::Escrow(id)) == (match old(self).spec_task(
                    id,
                ) {
                    Some(t) => if t.deadline <= old(self).spec_now() {
                        0u64
                    } else {
                        old(self).spec_balance(Account::Escrow(id))
                    },
                    None => old(self).spec_balance(Account::Escrow(id)),
                }) by {
                assert(self.spec_balance(Account::Escrow(id)) == match self.spec_task(id) {
                    Some(t) => t.budget,
                    None => 0u64,
                });
                assert(old(self).spec_balance(Account::Escrow(id)) == match old(self).spec_task(
                    id,
                ) {
                    Some(t) => t.budget,
                    None => 0u64,
                });
            }
        }
    }
}

/// Law: while a task exists, its escrow sub-account holds exactly its
/// budget; the escrow sub-account of any task not in the store — in
/// particular one just accepted, removed or expired — holds exactly zero.
pub proof fn lemma_escrow_matches_budget(s: TaskLifecycle, id: u64)
    requires
        s.wf(),
    ensures
        s.spec_task(id) is Some ==> s.spec_balance(Account::Escrow(id)) == s.spec_task(
            id,
        ).unwrap().budget,
        s.spec_task(id) is None ==> s.spec_balance(Account::Escrow(id)) == 0,
{
    assert(s.spec_balance(Account::Escrow(id)) == match s.spec_task(id) {
        Some(t) => t.budget,
        None => 0u64,
    });
}

/// Law: every task is held by its current owner, and by no other account.
pub proof fn lemma_owner_exclusive(s: TaskLifecycle, id: u64, a: u64)
    requires
        s.wf(),
        s.spec_task(id) is Some,
    ensures
        s.spec_owned(s.spec_task(id).unwrap().current_owner).contains(id),
        a != s.spec_task(id).unwrap().current_owner ==> !s.spec_owned(a).contains(id),
{
    if a != s.spec_task(id).unwrap().current_owner {
        lemma_owner_not_holder(s, id, a);
    }
}

/// Law: creating a task and immediately removing it restores the
/// initiator's balance exactly — the escrow is refunded in full, with no
/// residual left on the escrow sub-account.
pub proof fn lemma_create_remove_round_trip(
    s0: TaskLifecycle,
    s1: TaskLifecycle,
    s2: TaskLifecycle,
    initiator: u64,
    title: Seq<u8>,
    specification: Seq<u8>,
    budget: u64,
    deadline: u64,
    attachments: Seq<u8>,
    keywords: Seq<u8>,
    id: u64,
)
    requires
        s0.wf(),
        create_ok(
            s0,
            s1,
            initiator,
            title,
            specification,
            budget,
            deadline,
            attachments,
            keywords,
            id,
        ),
        removed_ok(s1, s2, id),
    ensures
        s2.spec_balance(Account::User(initiator)) == s0.spec_balance(Account::User(initiator)),
        s2.spec_balance(Account::Escrow(id)) == 0,
        s2.spec_task_count() == s0.spec_task_count(),
{
    assert(s1.spec_task(id).unwrap().current_owner == initiator);
    assert(s1.spec_task(id).unwrap().budget == budget);
}

/// Law: a started task cannot be started a second time — any further
/// start on the same identifier, by anyone, fails with
/// `NoPermissionToStart` — and no account's index entry carries the
/// identifier twice.
pub proof fn lemma_start_not_repeatable(
    s0: TaskLifecycle,
    s1: TaskLifecycle,
    volunteer: u64,
    id: u64,
    again: u64,
)
    requires
        s0.wf(),
        s1.wf(),
        start_ok(s0, s1, volunteer, id),
    ensures
        start_check(s1, again, id) == Some(Error::NoPermissionToStart),
        forall|a: u64, i: int, j: int|
            0 <= i < j < s1.spec_owned(a).len()
                ==> (#[trigger] s1.spec_owned(a)[i]) != (#[trigger] s1.spec_owned(a)[j]),
{
    assert(s1.spec_task(id).unwrap().status == TaskStatus::InProgress);
}

/// An account other than a task's current owner does not hold the task.
proof fn lemma_owner_not_holder(s: TaskLifecycle, id: u64, a: u64)
    requires
        s.wf(),
        s.spec_task(id) is Some,
        s.spec_task(id).unwrap().current_owner != a,
    ensures
        !s.spec_owned(a).contains(id),
{
    if s.spec_owned(a).contains(id) {
        let j = choose|j: int| 0 <= j < s.spec_owned(a).len() && s.spec_owned(a)[j] == id;
        assert(s.spec_task(s.spec_owned(a)[j]).unwrap().current_owner == a);
    }
}

/// A state whose tasks, index, counter and capacity are untouched and
/// whose escrow balances are pointwise those of a well-formed state is
/// itself well-formed once its components are.
proof fn lemma_wf_frame(a: TaskLifecycle, b: TaskLifecycle)
    requires
        a.wf(),
        b.ledger.wf(),
        b.registry.wf(),
        b.tasks == a.tasks,
        b.owned == a.owned,
        b.task_count == a.task_count,
        b.max_tasks == a.max_tasks,
        forall|k: u64|
            #[trigger] b.spec_balance(Account::Escrow(k)) == a.spec_balance(Account::Escrow(k)),
    ensures
        b.wf(),
{
    assert forall|id: u64|
        #[trigger] b.spec_task(id) is Some implies task_shape_ok(b.spec_task(id).unwrap()) by {
        assert(b.spec_task(id) == a.spec_task(id));
    }
    assert forall|id: u64|
        #[trigger] b.spec_balance(Account::Escrow(id)) == match b.spec_task(id) {
            Some(t) => t.budget,
            None => 0u64,
        } by {
        assert(b.spec_balance(Account::Escrow(id)) == a.spec_balance(Account::Escrow(id)));
        assert(b.spec_task(id) == a.spec_task(id));
    }
    assert forall|id: u64|
        #[trigger] b.spec_task(id) is Some implies b.spec_owned(
        b.spec_task(id).unwrap().current_owner,
    ).contains(id) by {
        assert(b.spec_task(id) == a.spec_task(id));
        if b.spec_task(id) is Some {
            let o = a.spec_task(id).unwrap().current_owner;
            assert(b.spec_owned(o) == a.spec_owned(o));
        }
    }
    assert forall|x: u64, j: int|
        0 <= j < b.spec_owned(x).len() implies b.spec_task(
        #[trigger] b.spec_owned(x)[j],
    ) is Some && b.spec_task(b.spec_owned(x)[j]).unwrap().current_owner == x by {
        assert(b.spec_owned(x) == a.spec_owned(x));
        assert(b.spec_task(a.spec_owned(x)[j]) == a.spec_task(a.spec_owned(x)[j]));
    }
    assert forall|x: u64, i: int, j: int|
        0 <= i < j < b.spec_owned(x).len() implies (#[trigger] b.spec_owned(x)[i])
        != (#[trigger] b.spec_owned(x)[j]) by {
        assert(b.spec_owned(x) == a.spec_owned(x));
    }
    assert forall|x: u64| #[trigger] b.spec_owned(x).len() <= b.spec_capacity() by {
        assert(b.spec_owned(x) == a.spec_owned(x));
    }
}

/// Creation preserves the system invariant.
proof fn lemma_create_preserves_wf(pre: TaskLifecycle, post: TaskLifecycle, initiator: u64, id: u64)
    requires
        pre.wf(),
        post.ledger.wf(),
        post.registry.wf(),
        post.tasks.wf(),
        post.owned.wf(),
        pre.spec_task(id) is None,
        pre.spec_owned(initiator).len() < pre.spec_capacity(),
        pre.spec_task_count() < u64::MAX,
        post.spec_task(id) is Some,
        task_shape_ok(post.spec_task(id).unwrap()),
        post.spec_task(id).unwrap().budget == post.spec_balance(Account::Escrow(id)),
        post.spec_task(id).unwrap().current_owner == initiator,
        forall|k: u64| k != id ==> #[trigger] post.spec_task(k) == pre.spec_task(k),
        post.spec_owned(initiator) == pre.spec_owned(initiator).push(id),
        forall|b: u64| b != initiator ==> #[trigger] post.spec_owned(b) == pre.spec_owned(b),
        forall|acct: Account|
            acct != Account::User(initiator) && acct != Account::Escrow(id)
                ==> #[trigger] post.spec_balance(acct) == pre.spec_balance(acct),
        post.spec_task_count() == pre.spec_task_count() + 1,
        post.spec_task_count() == post.tasks.spec_len(),
        post.spec_capacity() == pre.spec_capacity(),
    ensures
        post.wf(),
{
    assert forall|k: u64|
        #[trigger] post.spec_task(k) is Some implies task_shape_ok(post.spec_task(k).unwrap()) by {
        if k != id {
            assert(post.spec_task(k) == pre.spec_task(k));
        }
    }
    assert forall|k: u64|
        #[trigger] post.spec_balance(Account::Escrow(k)) == match post.spec_task(k) {
            Some(t) => t.budget,
            None => 0u64,
        } by {
        if k != id {
            assert(Account::Escrow(k) != Account::Escrow(id));
            assert(Account::Escrow(k) != Account::User(initiator));
            assert(post.spec_balance(Account::Escrow(k)) == pre.spec_balance(Account::Escrow(k)));
            assert(post.spec_task(k) == pre.spec_task(k));
        }
    }
    assert forall|k: u64|
        #[trigger] post.spec_task(k) is Some implies post.spec_owned(
        post.spec_task(k).unwrap().current_owner,
    ).contains(k) by {
        if k == id {
            let t = post.spec_task(id).unwrap();
            assert(post.spec_owned(initiator)[pre.spec_owned(initiator).len() as int] == id);
        } else {
            assert(post.spec_task(k) == pre.spec_task(k));
            assert(pre.spec_task(k) is Some);
            let t = pre.spec_task(k).unwrap();
            assert(pre.spec_owned(t.current_owner).contains(k));
            let j = choose|j: int|
                0 <= j < pre.spec_owned(t.current_owner).len() && pre.spec_owned(
                    t.current_owner,
                )[j] == k;
            if t.current_owner == initiator {
                assert(post.spec_owned(initiator)[j] == k);
            } else {
                assert(post.spec_owned(t.current_owner)[j] == k);
            }
        }
    }
    assert forall|a: u64, j: int|
        0 <= j < post.spec_owned(a).len() implies post.spec_task(
        #[trigger] post.spec_owned(a)[j],
    ) is Some && post.spec_task(post.spec_owned(a)[j]).unwrap().current_owner == a by {
        if a == initiator {
            if j < pre.spec_owned(initiator).len() {
                assert(post.spec_owned(a)[j] == pre.spec_owned(a)[j]);
                assert(pre.spec_task(pre.spec_owned(a)[j]) is Some);
                assert(pre.spec_task(pre.spec_owned(a)[j]).unwrap().current_owner == a);
                assert(pre.spec_owned(a)[j] != id);
            } else {
                assert(post.spec_owned(a)[j] == id);
            }
        } else {
            assert(post.spec_owned(a)[j] == pre.spec_owned(a)[j]);
            assert(pre.spec_task(pre.spec_owned(a)[j]) is Some);
            assert(pre.spec_task(pre.spec_owned(a)[j]).unwrap().current_owner == a);
            assert(pre.spec_owned(a)[j] != id);
        }
    }
    assert forall|a: u64, i: int, j: int|
        0 <= i < j < post.spec_owned(a).len() implies (#[trigger] post.spec_owned(a)[i])
        != (#[trigger] post.spec_owned(a)[j]) by {
        if a == initiator {
            let n = pre.spec_owned(initiator).len() as int;
            if j < n {
                assert(post.spec_owned(a)[i] == pre.spec_owned(a)[i]);
                assert(post.spec_owned(a)[j] == pre.spec_owned(a)[j]);
            } else {
                assert(post.spec_owned(a)[j] == id);
                assert(post.spec_owned(a)[i] == pre.spec_owned(a)[i]);
                if pre.spec_owned(a)[i] == id {
                    assert(pre.spec_task(pre.spec_owned(a)[i]) is Some);
                }
            }
        } else {
            assert(post.spec_owned(a)[i] == pre.spec_owned(a)[i]);
            assert(post.spec_owned(a)[j] == pre.spec_owned(a)[j]);
        }
    }
    assert forall|a: u64| #[trigger] post.spec_owned(a).len() <= post.spec_capacity() by {
        if a != initiator {
            assert(post.spec_owned(a) == pre.spec_owned(a));
        }
    }
}

} // verus!
