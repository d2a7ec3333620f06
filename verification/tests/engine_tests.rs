use task_lifecycle::Account;
use task_lifecycle::Error;
use task_lifecycle::TaskLifecycle;
use task_lifecycle::TaskStatus;
use task_lifecycle::derive_task_id;
use task_lifecycle::escrow_address;

fn setup() -> TaskLifecycle {
    let mut s = TaskLifecycle::new(77);
    s.mint(1, 1000);
    s.mint(2, 1000);
    s.mint(10, 1000);
    s
}

fn create(s: &mut TaskLifecycle, initiator: u64, budget: u64) -> u64 {
    let d = s.now() + 3600 * 1000;
    s.create_task(initiator, vec![9, 9], vec![8, 8], budget, d, vec![], vec![])
        .expect("creation should succeed")
}

#[test]
fn scenario_creation_locks_budget_in_escrow() {
    // Initiator 1 creates a task with budget 7 and a deadline an hour out:
    // the count becomes 1, the initiator pays 7, and the escrow holds 7.
    let mut s = setup();
    s.register_identity(1);
    let id = create(&mut s, 1, 7);
    assert_eq!(s.task_count(), 1);
    assert_eq!(s.balance_of(Account::User(1)), 993);
    assert_eq!(s.balance_of(escrow_address(id)), 7);
}

#[test]
fn scenario_full_acceptance_settles_everything() {
    // Volunteer 2 starts, completes; initiator 1 accepts: the volunteer is
    // paid the full budget, both reputations rise by exactly one, the
    // count returns to zero, and neither index still holds the task.
    let mut s = setup();
    s.register_identity(1);
    s.register_identity(2);
    let id = create(&mut s, 1, 7);
    assert!(s.start_task(2, id).is_ok());
    assert_eq!(s.tasks_owned(1).len(), 0);
    assert_eq!(s.tasks_owned(2), vec![id]);
    assert!(s.complete_task(2, id).is_ok());
    assert_eq!(s.tasks_owned(1), vec![id]);
    assert_eq!(s.tasks_owned(2).len(), 0);
    assert!(s.accept_task(1, id).is_ok());
    assert_eq!(s.balance_of(Account::User(2)), 1007);
    assert_eq!(s.reputation_of(1), 1);
    assert_eq!(s.reputation_of(2), 1);
    assert_eq!(s.task_count(), 0);
    assert!(!s.tasks_owned(1).contains(&id));
    assert!(!s.tasks_owned(2).contains(&id));
}

#[test]
fn scenario_rejection_changes_nothing_but_feedback_and_owner() {
    // As the acceptance scenario up to completion, but initiator 1
    // rejects with feedback: the feedback is stored, the volunteer holds
    // the task again, the status is in progress, and no balance or
    // reputation changed.
    let mut s = setup();
    s.register_identity(1);
    s.register_identity(2);
    let id = create(&mut s, 1, 7);
    assert!(s.start_task(2, id).is_ok());
    assert!(s.complete_task(2, id).is_ok());
    assert!(s.reject_task(1, id, b"redo".to_vec()).is_ok());
    let task = s.tasks(id).expect("task should still exist");
    assert_eq!(task.feedback, Some(b"redo".to_vec()));
    assert_eq!(task.current_owner, 2);
    assert_eq!(task.status, TaskStatus::InProgress);
    assert_eq!(s.balance_of(Account::User(1)), 993);
    assert_eq!(s.balance_of(Account::User(2)), 1000);
    assert_eq!(s.balance_of(escrow_address(id)), 7);
    assert_eq!(s.reputation_of(1), 0);
    assert_eq!(s.reputation_of(2), 0);
}

#[test]
fn scenario_expiry_refunds_and_decrements_count() {
    // A task with a deadline one tick away is never started; once the
    // clock passes it, the sweep removes the task and refunds the full
    // budget to the initiator, without any explicit removal call.
    let mut s = setup();
    s.register_identity(1);
    let d = s.now() + 1;
    let id = s
        .create_task(1, vec![9], vec![8], 7, d, vec![], vec![])
        .expect("creation should succeed");
    assert_eq!(s.task_count(), 1);
    assert_eq!(s.balance_of(Account::User(1)), 993);
    s.set_now(d + 1);
    s.sweep_expired();
    assert_eq!(s.task_count(), 0);
    assert!(s.tasks(id).is_none());
    assert_eq!(s.balance_of(Account::User(1)), 1000);
    assert_eq!(s.balance_of(escrow_address(id)), 0);
}

#[test]
fn scenario_capacity_overflow_reverses_escrow() {
    // With a capacity of one, a second creation fails with the capacity
    // error and retains no escrow transfer: the balance reflects only the
    // first task.
    let mut s = TaskLifecycle::new(1);
    assert_eq!(s.max_tasks_owned(), 1);
    s.mint(1, 1000);
    s.register_identity(1);
    let _id = create(&mut s, 1, 7);
    assert_eq!(s.balance_of(Account::User(1)), 993);
    let d = s.now() + 3600 * 1000;
    assert_eq!(
        s.create_task(1, vec![5], vec![6], 7, d, vec![], vec![]),
        Err(Error::OwnershipCapacityExceeded)
    );
    assert_eq!(s.balance_of(Account::User(1)), 993);
    assert_eq!(s.task_count(), 1);
}

#[test]
fn escrow_balance_tracks_budget_through_lifetime() {
    let mut s = setup();
    s.register_identity(1);
    let id = create(&mut s, 1, 7);
    assert_eq!(s.balance_of(escrow_address(id)), 7);
    assert!(s.start_task(2, id).is_ok());
    assert_eq!(s.balance_of(escrow_address(id)), 7);
    assert!(s.complete_task(2, id).is_ok());
    assert_eq!(s.balance_of(escrow_address(id)), 7);
    assert!(s.reject_task(1, id, vec![]).is_ok());
    assert_eq!(s.balance_of(escrow_address(id)), 7);
    assert!(s.complete_task(2, id).is_ok());
    s.register_identity(2);
    assert!(s.accept_task(1, id).is_ok());
    assert_eq!(s.balance_of(escrow_address(id)), 0);
}

#[test]
fn task_held_by_exactly_one_account() {
    let mut s = setup();
    s.register_identity(1);
    let id = create(&mut s, 1, 7);
    assert!(s.tasks_owned(1).contains(&id));
    assert!(!s.tasks_owned(2).contains(&id));
    assert!(s.start_task(2, id).is_ok());
    assert!(!s.tasks_owned(1).contains(&id));
    assert!(s.tasks_owned(2).contains(&id));
    assert!(s.complete_task(2, id).is_ok());
    assert!(s.tasks_owned(1).contains(&id));
    assert!(!s.tasks_owned(2).contains(&id));
}

#[test]
fn create_then_remove_restores_balance_exactly() {
    let mut s = setup();
    s.register_identity(1);
    let before = s.balance_of(Account::User(1));
    let id = create(&mut s, 1, 321);
    assert!(s.remove_task(1, id).is_ok());
    assert_eq!(s.balance_of(Account::User(1)), before);
    assert_eq!(s.balance_of(escrow_address(id)), 0);
}

#[test]
fn second_start_fails_without_duplicating_ownership() {
    let mut s = setup();
    s.register_identity(1);
    let id = create(&mut s, 1, 7);
    assert!(s.start_task(2, id).is_ok());
    assert_eq!(s.start_task(2, id), Err(Error::NoPermissionToStart));
    assert_eq!(s.start_task(10, id), Err(Error::NoPermissionToStart));
    let held = s.tasks_owned(2);
    assert_eq!(held.iter().filter(|x| **x == id).count(), 1);
    assert!(!s.tasks_owned(1).contains(&id));
    assert!(!s.tasks_owned(10).contains(&id));
}

#[test]
fn creation_requires_identity() {
    let mut s = setup();
    let d = s.now() + 1000;
    assert_eq!(
        s.create_task(1, vec![1], vec![2], 7, d, vec![], vec![]),
        Err(Error::NoIdentity)
    );
    assert_eq!(s.task_count(), 0);
    assert_eq!(s.balance_of(Account::User(1)), 1000);
}

#[test]
fn creation_rejects_past_deadline() {
    let mut s = setup();
    s.register_identity(1);
    s.set_now(500);
    assert_eq!(
        s.create_task(1, vec![1], vec![2], 7, 500, vec![], vec![]),
        Err(Error::InvalidDeadline)
    );
    assert_eq!(
        s.create_task(1, vec![1], vec![2], 7, 499, vec![], vec![]),
        Err(Error::InvalidDeadline)
    );
    assert!(s.create_task(1, vec![1], vec![2], 7, 501, vec![], vec![]).is_ok());
}

#[test]
fn identical_submissions_in_same_tick_collide() {
    let mut s = setup();
    s.register_identity(1);
    let d = s.now() + 1000;
    assert!(s.create_task(1, vec![1], vec![2], 7, d, vec![], vec![]).is_ok());
    assert_eq!(
        s.create_task(1, vec![1], vec![2], 7, d, vec![], vec![]),
        Err(Error::TaskAlreadyExists)
    );
    // At a later time the same content derives a fresh identifier.
    s.set_now(1);
    assert!(s.create_task(1, vec![1], vec![2], 7, d, vec![], vec![]).is_ok());
}

#[test]
fn creation_rejects_unfundable_budget() {
    let mut s = setup();
    s.register_identity(1);
    let d = s.now() + 1000;
    assert_eq!(
        s.create_task(1, vec![1], vec![2], 1001, d, vec![], vec![]),
        Err(Error::InsufficientFunds)
    );
    assert_eq!(s.balance_of(Account::User(1)), 1000);
}

#[test]
fn update_rejects_unfundable_raise() {
    let mut s = setup();
    s.register_identity(1);
    let id = create(&mut s, 1, 7);
    let d = s.now() + 1000;
    assert_eq!(
        s.update_task(1, id, vec![1], vec![2], 2000, d, vec![], vec![]),
        Err(Error::InsufficientFunds)
    );
    assert_eq!(s.tasks(id).expect("task should exist").budget, 7);
    assert_eq!(s.balance_of(escrow_address(id)), 7);
}

#[test]
fn operations_on_unknown_task_report_not_found() {
    let mut s = setup();
    s.register_identity(1);
    assert_eq!(s.start_task(2, 42), Err(Error::TaskNotFound));
    assert_eq!(s.complete_task(2, 42), Err(Error::TaskNotFound));
    assert_eq!(s.accept_task(1, 42), Err(Error::TaskNotFound));
    assert_eq!(s.reject_task(1, 42, vec![]), Err(Error::TaskNotFound));
    assert_eq!(s.remove_task(1, 42), Err(Error::TaskNotFound));
    let d = s.now() + 1000;
    assert_eq!(
        s.update_task(1, 42, vec![], vec![], 7, d, vec![], vec![]),
        Err(Error::TaskNotFound)
    );
    assert_eq!(s.is_task_initiator(42, 1), Err(Error::TaskNotFound));
}

#[test]
fn acceptance_needs_both_identities() {
    // Volunteer 2 never registered an identity: the pre-check fails
    // before any funds move.
    let mut s = setup();
    s.register_identity(1);
    let id = create(&mut s, 1, 7);
    assert!(s.start_task(2, id).is_ok());
    assert!(s.complete_task(2, id).is_ok());
    assert_eq!(s.accept_task(1, id), Err(Error::NoIdentity));
    assert_eq!(s.balance_of(Account::User(2)), 1000);
    assert_eq!(s.balance_of(escrow_address(id)), 7);
    assert!(s.tasks(id).is_some());
}

#[test]
fn review_actions_need_pending_review() {
    let mut s = setup();
    s.register_identity(1);
    s.register_identity(2);
    let id = create(&mut s, 1, 7);
    assert_eq!(s.reject_task(1, id, vec![]), Err(Error::NotInReviewState));
    assert!(s.start_task(2, id).is_ok());
    assert_eq!(s.accept_task(1, id), Err(Error::NotInReviewState));
    assert_eq!(s.reject_task(1, id, vec![]), Err(Error::NotInReviewState));
}

#[test]
fn task_identifier_is_content_derived() {
    // The identifier is a pure function of the creation-time content, so
    // two engines derive the same identifier for the same submission, and
    // a different budget derives a different one here.
    let mut a = setup();
    a.register_identity(1);
    let id_a = create(&mut a, 1, 7);
    let mut b = setup();
    b.register_identity(1);
    let id_b = create(&mut b, 1, 7);
    assert_eq!(id_a, id_b);
    assert_eq!(
        id_a,
        derive_task_id(&vec![9, 9], &vec![8, 8], 1, 7, 3600 * 1000, 0)
    );
    assert_eq!(id_a, 16271615180813115991);
    assert_ne!(
        derive_task_id(&vec![9, 9], &vec![8, 8], 1, 7, 3600 * 1000, 0),
        derive_task_id(&vec![9, 9], &vec![8, 8], 1, 8, 3600 * 1000, 0)
    );
}

#[test]
fn is_task_initiator_reports_the_creator() {
    let mut s = setup();
    s.register_identity(1);
    let id = create(&mut s, 1, 7);
    assert_eq!(s.is_task_initiator(id, 1), Ok(true));
    assert_eq!(s.is_task_initiator(id, 2), Ok(false));
}

#[test]
fn sweep_spares_tasks_still_within_deadline() {
    let mut s = setup();
    s.register_identity(1);
    let near = s.now() + 10;
    let far = s.now() + 1000;
    let id_near = s
        .create_task(1, vec![1], vec![2], 7, near, vec![], vec![])
        .expect("creation should succeed");
    let id_far = s
        .create_task(1, vec![3], vec![4], 9, far, vec![], vec![])
        .expect("creation should succeed");
    s.set_now(near);
    s.sweep_expired();
    assert!(s.tasks(id_near).is_none());
    assert!(s.tasks(id_far).is_some());
    assert_eq!(s.task_count(), 1);
    assert_eq!(s.balance_of(Account::User(1)), 1000 - 9);
}

#[test]
fn expiry_refunds_the_current_holder() {
    // An in-progress task expires while the volunteer holds it: the
    // unearned escrow returns to the volunteer, who holds it at that
    // moment.
    let mut s = setup();
    s.register_identity(1);
    let d = s.now() + 10;
    let id = s
        .create_task(1, vec![1], vec![2], 7, d, vec![], vec![])
        .expect("creation should succeed");
    assert!(s.start_task(2, id).is_ok());
    s.set_now(d);
    s.sweep_expired();
    assert!(s.tasks(id).is_none());
    assert_eq!(s.balance_of(Account::User(1)), 993);
    assert_eq!(s.balance_of(Account::User(2)), 1007);
    assert_eq!(s.reputation_of(1), 0);
    assert_eq!(s.reputation_of(2), 0);
}
