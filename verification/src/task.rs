//! The task record, its abstract view, and the content-derived task
//! identifier.
//!
//! A task's identifier is a pure function of its creation-time content
//! (title, specification, initiator, budget, deadline, creation time), so
//! identical submissions by the same account at the same time collide and
//! are rejected instead of silently duplicated.

use vstd::prelude::*;

verus! {

/// Where a task stands in its lifecycle.
///
/// "Pending review" is its own state: work was submitted and awaits the
/// initiator's accept or reject.
#[derive(Clone, Copy, PartialEq, Eq, Structural, Debug)]
pub enum TaskStatus {
    /// Created and never started: the initiator still holds it.
    Created,
    /// A volunteer is working on it.
    InProgress,
    /// Work was submitted; the initiator holds it for review.
    PendingReview,
}

/// One unit of escrowed work.
pub struct Task {
    /// Opaque byte content describing the task.
    pub title: Vec<u8>,
    /// Opaque byte content specifying the work.
    pub specification: Vec<u8>,
    /// Opaque attachment bytes.
    pub attachments: Vec<u8>,
    /// Opaque keyword bytes.
    pub keywords: Vec<u8>,
    /// The account that created the task; immutable after creation.
    pub initiator: u64,
    /// The account performing the work; equals `initiator` until started.
    pub volunteer: u64,
    /// The account responsible for the next action.
    pub current_owner: u64,
    /// Lifecycle state.
    pub status: TaskStatus,
    /// The escrowed amount.
    pub budget: u64,
    /// Absolute time after which the task is subject to forced expiry.
    pub deadline: u64,
    /// Time of creation.
    pub created_at: u64,
    /// Time of the last field update.
    pub updated_at: u64,
    /// Time work was submitted for review; zero until then.
    pub completed_at: u64,
    /// Message stored by a rejection.
    pub feedback: Option<Vec<u8>>,
}

/// The mathematical value of a task record.
#[verifier::ext_equal]
pub struct TaskView {
    pub title: Seq<u8>,
    pub specification: Seq<u8>,
    pub attachments: Seq<u8>,
    pub keywords: Seq<u8>,
    pub initiator: u64,
    pub volunteer: u64,
    pub current_owner: u64,
    pub status: TaskStatus,
    pub budget: u64,
    pub deadline: u64,
    pub created_at: u64,
    pub updated_at: u64,
    pub completed_at: u64,
    pub feedback: Option<Seq<u8>>,
}

impl View for Task {
    type V = TaskView;

    open spec fn view(&self) -> TaskView {
        TaskView {
            title: self.title@,
            specification: self.specification@,
            attachments: self.attachments@,
            keywords: self.keywords@,
            initiator: self.initiator,
            volunteer: self.volunteer,
            current_owner: self.current_owner,
            status: self.status,
            budget: self.budget,
            deadline: self.deadline,
            created_at: self.created_at,
            updated_at: self.updated_at,
            completed_at: self.completed_at,
            feedback: match self.feedback {
                Some(ref f) => Some(f@),
                None => None,
            },
        }
    }
}

/// One mixing step of the identifier derivation.
pub open spec fn mix(h: u64, b: u64) -> u64 {
    u64::wrapping_mul(h ^ b, 0x100000001b3)
}

/// Folds a byte sequence into the running identifier state.
pub open spec fn mix_bytes(h: u64, s: Seq<u8>) -> u64
    decreases s.len(),
{
    if s.len() == 0 {
        h
    } else {
        mix_bytes(mix(h, s[0] as u64), s.drop_first())
    }
}

/// Folds a length-prefixed byte field into the running identifier state.
pub open spec fn mix_field(h: u64, s: Seq<u8>) -> u64 {
    mix_bytes(mix(h, s.len() as u64), s)
}

/// The task identifier derived from the creation-time content.
pub open spec fn task_id_of(
    title: Seq<u8>,
    specification: Seq<u8>,
    initiator: u64,
    budget: u64,
    deadline: u64,
    created_at: u64,
) -> u64 {
    mix(
        mix(
            mix(
                mix(mix_field(mix_field(0xcbf29ce484222325, title), specification), initiator),
                budget,
            ),
            deadline,
        ),
        created_at,
    )
}

/// One executable mixing step.
fn mix_step(h: u64, b: u64) -> (r: u64)
    ensures
        r == mix(h, b),
{
    (h ^ b).wrapping_mul(0x100000001b3)
}

/// Folds one byte field, length first, into the running identifier state.
fn mix_field_step(h: u64, s: &Vec<u8>) -> (r: u64)
    ensures
        r == mix_field(h, s@),
{
    let mut acc = mix_step(h, s.len() as u64);
    proof {
        assert(s@.subrange(0, s@.len() as int) =~= s@);
    }
    let mut i: usize = 0;
    while i < s.len()
        invariant
            i <= s@.len(),
            mix_bytes(acc, s@.subrange(i as int, s@.len() as int)) == mix_field(h, s@),
        decreases s@.len() - i,
    {
        let ghost pre = s@.subrange(i as int, s@.len() as int);
        proof {
            assert(pre[0] == s@[i as int]);
            assert(pre.drop_first() =~= s@.subrange(i as int + 1, s@.len() as int));
        }
        acc = mix_step(acc, s[i] as u64);
        i = i + 1;
    }
    proof {
        assert(s@.subrange(s@.len() as int, s@.len() as int) =~= Seq::<u8>::empty());
    }
    acc
}

/// Compute the identifier a task created from this content would get.
pub fn derive_task_id(
    title: &Vec<u8>,
    specification: &Vec<u8>,
    initiator: u64,
    budget: u64,
    deadline: u64,
    created_at: u64,
) -> (id: u64)
    ensures
        id == task_id_of(title@, specification@, initiator, budget, deadline, created_at),
{
    let h = mix_field_step(0xcbf29ce484222325, title);
    let h = mix_field_step(h, specification);
    let h = mix_step(h, initiator);
    let h = mix_step(h, budget);
    let h = mix_step(h, deadline);
    mix_step(h, created_at)
}

} // verus!
