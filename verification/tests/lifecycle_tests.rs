use task_lifecycle::Account;
use task_lifecycle::Error;
use task_lifecycle::TaskLifecycle;
use task_lifecycle::TaskStatus;
use task_lifecycle::escrow_address;

const BUDGET: u64 = 7;
const BUDGET2: u64 = 10;

fn setup() -> TaskLifecycle {
    let mut s = TaskLifecycle::new(77);
    s.mint(1, 1000);
    s.mint(2, 1000);
    s.mint(10, 1000);
    s
}

fn deadline(s: &TaskLifecycle) -> u64 {
    s.now() + 3600 * 1000
}

fn title() -> Vec<u8> {
    vec![1, 2]
}

fn title2() -> Vec<u8> {
    vec![1, 7]
}

fn spec() -> Vec<u8> {
    vec![1, 3]
}

fn spec2() -> Vec<u8> {
    vec![1, 4]
}

fn attachments() -> Vec<u8> {
    vec![1, 4]
}

fn attachments2() -> Vec<u8> {
    vec![1, 3]
}

fn keywords() -> Vec<u8> {
    vec![1, 5]
}

fn keywords2() -> Vec<u8> {
    vec![1, 5]
}

fn feedback() -> Vec<u8> {
    vec![1, 4]
}

#[test]
fn create_new_task() {
    let mut s = setup();
    // An identity is necessary for task creation.
    s.register_identity(1);
    let d = deadline(&s);
    assert!(s.create_task(1, title(), spec(), BUDGET, d, attachments(), keywords()).is_ok());
}

#[test]
fn fund_transfer_on_create_task() {
    let mut s = setup();
    s.register_identity(1);
    assert_eq!(s.balance_of(Account::User(1)), 1000);
    let d = deadline(&s);
    assert!(s.create_task(1, title(), spec(), BUDGET, d, attachments(), keywords()).is_ok());
    assert_eq!(s.balance_of(Account::User(1)), 993);
    let task_id = s.tasks_owned(1)[0];
    assert_eq!(s.balance_of(escrow_address(task_id)), BUDGET);
}

#[test]
fn increase_task_count_when_creating_task() {
    let mut s = setup();
    s.register_identity(1);
    let d = deadline(&s);
    assert!(s.create_task(1, title(), spec(), BUDGET, d, attachments(), keywords()).is_ok());
    assert_eq!(s.task_count(), 1);
}

#[test]
fn increase_task_count_when_creating_two_tasks() {
    let mut s = setup();
    s.register_identity(1);
    let d = deadline(&s);
    assert!(s.create_task(1, title(), spec(), BUDGET, d, attachments(), keywords()).is_ok());
    assert!(s.create_task(1, title(), spec2(), BUDGET2, d, attachments(), keywords()).is_ok());
    assert_eq!(s.task_count(), 2);
}

#[test]
fn cant_own_more_tax_than_max_tasks() {
    let mut s = setup();
    s.register_identity(1);
    // Create 77 tasks, the configured ownership capacity.  The identifiers
    // are content-derived, so each submission varies its title: identical
    // submissions in the same tick collide instead of duplicating.
    for n in 0..77u8 {
        let d = deadline(&s);
        assert!(s.create_task(1, vec![1, 2, n], spec(), BUDGET, d, attachments(), keywords()).is_ok());
    }
    assert_eq!(s.task_count(), 77);
    // The 78th would exceed the capacity.
    let d = deadline(&s);
    assert_eq!(
        s.create_task(1, vec![1, 2, 77], spec2(), BUDGET, d, attachments(), keywords()),
        Err(Error::OwnershipCapacityExceeded)
    );
}

#[test]
fn assign_task_to_current_owner() {
    let mut s = setup();
    s.register_identity(10);
    let d = deadline(&s);
    assert!(s.create_task(10, title(), spec(), BUDGET, d, attachments(), keywords()).is_ok());
    let hash = s.tasks_owned(10)[0];
    assert_eq!(s.tasks(hash).expect("should found the task").current_owner, 10);
}

#[test]
fn verify_inputs_outputs_to_tasks() {
    let mut s = setup();
    s.register_identity(10);
    let d = deadline(&s);
    assert!(s.create_task(10, title(), spec(), BUDGET, d, attachments(), keywords()).is_ok());
    let hash = s.tasks_owned(10)[0];
    let task = s.tasks(hash).expect("should found the task");
    assert_eq!(task.current_owner, 10);
    assert_eq!(task.specification, vec![1u8, 3]);
    assert_eq!(task.budget, BUDGET);
    assert_eq!(task.title, title());
    assert_eq!(task.attachments, attachments());
    assert_eq!(task.keywords, keywords());
}

#[test]
fn task_can_be_updated_after_it_is_created() {
    let mut s = setup();
    s.register_identity(10);
    let d = deadline(&s);
    assert!(s.create_task(10, title(), spec(), BUDGET, d, attachments(), keywords()).is_ok());
    let hash = s.tasks_owned(10)[0];
    assert_eq!(s.tasks(hash).expect("should found the task").budget, BUDGET);
    let d = deadline(&s);
    assert!(s.update_task(10, hash, title2(), spec2(), BUDGET2, d, attachments2(), keywords2()).is_ok());
    let hash = s.tasks_owned(10)[0];
    let task = s.tasks(hash).expect("should found the task");
    assert_eq!(task.current_owner, 10);
    assert_eq!(task.budget, BUDGET2);
    assert_eq!(task.title, title2());
    assert_eq!(task.attachments, attachments2());
    assert_eq!(task.keywords, keywords2());
}

#[test]
fn check_balance_after_update_task() {
    let mut s = setup();
    s.register_identity(10);
    let d = deadline(&s);
    assert!(s.create_task(10, title(), spec(), BUDGET, d, attachments(), keywords()).is_ok());
    let hash = s.tasks_owned(10)[0];
    let d = deadline(&s);
    assert!(s.update_task(10, hash, title2(), spec2(), BUDGET2, d, attachments2(), keywords2()).is_ok());
    let hash = s.tasks_owned(10)[0];
    assert_eq!(s.balance_of(escrow_address(hash)), BUDGET2);
    let d = deadline(&s);
    assert!(s.update_task(10, hash, title2(), spec2(), BUDGET, d, attachments2(), keywords2()).is_ok());
    let hash = s.tasks_owned(10)[0];
    assert_eq!(s.balance_of(escrow_address(hash)), BUDGET);
}

#[test]
fn task_can_be_updated_only_by_one_who_created_it() {
    let mut s = setup();
    s.register_identity(10);
    let d = deadline(&s);
    assert!(s.create_task(10, title(), spec(), BUDGET, d, attachments(), keywords()).is_ok());
    let hash = s.tasks_owned(10)[0];
    let d = deadline(&s);
    assert_eq!(
        s.update_task(7, hash, title(), spec(), BUDGET2, d, attachments2(), keywords2()),
        Err(Error::OnlyInitiatorUpdatesTask)
    );
}

#[test]
fn task_can_be_updated_only_after_it_has_been_created() {
    let mut s = setup();
    s.register_identity(10);
    let d = deadline(&s);
    assert!(s.create_task(10, title(), spec(), BUDGET, d, attachments(), keywords()).is_ok());
    let hash = s.tasks_owned(10)[0];
    assert!(s.start_task(2, hash).is_ok());
    let d = deadline(&s);
    assert_eq!(
        s.update_task(10, hash, title(), spec(), BUDGET2, d, attachments2(), keywords2()),
        Err(Error::NoPermissionToUpdate)
    );
}

#[test]
fn start_tasks_assigns_new_current_owner() {
    let mut s = setup();
    s.register_identity(1);
    s.register_identity(2);
    let d = deadline(&s);
    assert!(s.create_task(1, title(), spec(), BUDGET, d, attachments(), keywords()).is_ok());
    let hash = s.tasks_owned(1)[0];
    assert_eq!(s.tasks(hash).expect("should found the task").current_owner, 1);
    assert_eq!(s.tasks_owned(1).len(), 1);
    assert!(s.start_task(2, hash).is_ok());
    assert_eq!(s.tasks_owned(1).len(), 0);
    assert_eq!(s.tasks_owned(2).len(), 1);
}

#[test]
fn start_tasks_assigns_task_to_volunteer() {
    let mut s = setup();
    s.register_identity(1);
    let d = deadline(&s);
    assert!(s.create_task(1, title(), spec(), BUDGET, d, attachments(), keywords()).is_ok());
    let hash = s.tasks_owned(1)[0];
    // A snapshot of the task as created, before anyone starts it.
    let snapshot_volunteer = s.tasks(hash).expect("should found the task").volunteer;
    assert_eq!(s.tasks(hash).expect("should found the task").current_owner, 1);
    assert_eq!(s.tasks_owned(1).len(), 1);
    assert!(s.start_task(2, hash).is_ok());
    assert_eq!(snapshot_volunteer, 1);
    assert_eq!(s.tasks_owned(2).len(), 1);
    assert_eq!(s.tasks_owned(1).len(), 0);
}

#[test]
fn completing_tasks_assigns_new_current_owner() {
    let mut s = setup();
    s.register_identity(1);
    let d = deadline(&s);
    assert!(s.create_task(1, title(), spec(), BUDGET, d, attachments(), keywords()).is_ok());
    let hash = s.tasks_owned(1)[0];
    assert_eq!(s.tasks(hash).expect("should found the task").current_owner, 1);
    assert_eq!(s.tasks_owned(1).len(), 1);
    assert!(s.start_task(2, hash).is_ok());
    assert_eq!(s.tasks_owned(1).len(), 0);
    assert_eq!(s.tasks_owned(2).len(), 1);
    assert!(s.complete_task(2, hash).is_ok());
    assert_eq!(s.tasks(hash).expect("should found the task").current_owner, 1);
    assert_eq!(s.tasks_owned(1).len(), 1);
    assert_eq!(s.tasks_owned(2).len(), 0);
}

#[test]
fn the_volunteer_is_different_from_task_creator() {
    let mut s = setup();
    s.register_identity(1);
    let d = deadline(&s);
    assert!(s.create_task(1, title(), spec(), BUDGET, d, attachments(), keywords()).is_ok());
    let hash = s.tasks_owned(1)[0];
    assert_eq!(s.start_task(1, hash), Err(Error::NoPermissionToStart));
}

#[test]
fn task_can_only_be_started_once() {
    let mut s = setup();
    s.register_identity(1);
    let d = deadline(&s);
    assert!(s.create_task(1, title(), spec(), BUDGET, d, attachments(), keywords()).is_ok());
    let hash = s.tasks_owned(1)[0];
    assert!(s.start_task(2, hash).is_ok());
    assert_eq!(s.start_task(2, hash), Err(Error::NoPermissionToStart));
}

#[test]
fn task_can_only_be_finished_by_the_user_who_started_it() {
    let mut s = setup();
    s.register_identity(1);
    let d = deadline(&s);
    assert!(s.create_task(1, title(), spec(), BUDGET, d, attachments(), keywords()).is_ok());
    let hash = s.tasks_owned(1)[0];
    assert!(s.start_task(2, hash).is_ok());
    assert_eq!(s.complete_task(1, hash), Err(Error::NoPermissionToComplete));
}

#[test]
fn task_can_be_removed_by_owner() {
    let mut s = setup();
    s.register_identity(1);
    let d = deadline(&s);
    assert!(s.create_task(1, title(), spec(), BUDGET, d, attachments(), keywords()).is_ok());
    let hash = s.tasks_owned(1)[0];
    assert_eq!(s.remove_task(2, hash), Err(Error::NoPermissionToRemove));
    assert!(s.remove_task(1, hash).is_ok());
    assert_eq!(s.task_count(), 0);
}

#[test]
fn task_can_be_removed_only_when_status_is_created() {
    let mut s = setup();
    s.register_identity(1);
    let d = deadline(&s);
    assert!(s.create_task(1, title(), spec(), 7, d, attachments(), keywords()).is_ok());
    let hash = s.tasks_owned(1)[0];
    assert!(s.start_task(2, hash).is_ok());
    assert_eq!(s.remove_task(2, hash), Err(Error::NoPermissionToRemove));
}

#[test]
fn only_creator_accepts_task() {
    let mut s = setup();
    s.register_identity(1);
    s.register_identity(2);
    let d = deadline(&s);
    assert!(s.create_task(1, title(), spec(), BUDGET, d, attachments(), keywords()).is_ok());
    let hash = s.tasks_owned(1)[0];
    assert_eq!(s.tasks(hash).expect("should found the task").current_owner, 1);
    assert_eq!(s.tasks_owned(1).len(), 1);
    assert!(s.start_task(2, hash).is_ok());
    assert_eq!(s.tasks_owned(1).len(), 0);
    assert_eq!(s.tasks_owned(2).len(), 1);
    assert!(s.complete_task(2, hash).is_ok());
    assert_eq!(s.tasks_owned(1).len(), 1);
    assert_eq!(s.tasks_owned(2).len(), 0);
    assert_eq!(s.accept_task(2, hash), Err(Error::OnlyInitiatorAcceptsTask));
    assert!(s.accept_task(1, hash).is_ok());
}

#[test]
fn volunteer_gets_paid_on_task_completion() {
    let mut s = setup();
    s.register_identity(1);
    s.register_identity(2);
    let d = deadline(&s);
    assert!(s.create_task(1, title(), spec(), BUDGET, d, attachments(), keywords()).is_ok());
    let hash = s.tasks_owned(1)[0];
    assert!(s.start_task(2, hash).is_ok());
    assert!(s.complete_task(2, hash).is_ok());
    assert_eq!(s.balance_of(Account::User(2)), 1000);
    assert!(s.accept_task(1, hash).is_ok());
    assert_eq!(s.balance_of(Account::User(2)), 1007);
}

#[test]
fn only_started_task_can_be_completed() {
    let mut s = setup();
    s.register_identity(1);
    s.register_identity(2);
    let d = deadline(&s);
    assert!(s.create_task(1, title(), spec(), BUDGET, d, attachments(), keywords()).is_ok());
    let hash = s.tasks_owned(1)[0];
    assert_eq!(s.tasks(hash).expect("should found the task").current_owner, 1);
    assert_eq!(s.tasks_owned(1).len(), 1);
    assert_eq!(s.complete_task(2, hash), Err(Error::NoPermissionToComplete));
    assert!(s.start_task(2, hash).is_ok());
    assert!(s.complete_task(2, hash).is_ok());
}

#[test]
fn when_task_is_accepted_ownership_is_cleared() {
    let mut s = setup();
    s.register_identity(1);
    s.register_identity(2);
    let d = deadline(&s);
    assert!(s.create_task(1, title(), spec(), BUDGET, d, attachments(), keywords()).is_ok());
    let hash = s.tasks_owned(1)[0];
    assert_eq!(s.tasks(hash).expect("should found the task").current_owner, 1);
    assert_eq!(s.tasks_owned(1).len(), 1);
    assert!(s.start_task(2, hash).is_ok());
    assert_eq!(s.tasks_owned(1).len(), 0);
    assert_eq!(s.tasks_owned(2).len(), 1);
    assert!(s.complete_task(2, hash).is_ok());
    assert_eq!(s.tasks_owned(1).len(), 1);
    assert_eq!(s.tasks_owned(2).len(), 0);
    assert!(s.accept_task(1, hash).is_ok());
    assert_eq!(s.tasks_owned(1).len(), 0);
    assert_eq!(s.tasks_owned(2).len(), 0);
}

#[test]
fn decrease_task_count_when_accepting_task() {
    let mut s = setup();
    s.register_identity(1);
    s.register_identity(2);
    let d = deadline(&s);
    assert!(s.create_task(1, title(), spec(), BUDGET, d, attachments(), keywords()).is_ok());
    let hash = s.tasks_owned(1)[0];
    let _task = s.tasks(hash).expect("should found the task");
    // Acceptance is only reachable from pending review, so the task goes
    // through a volunteer first; accepting then decreases the count.
    assert!(s.start_task(2, hash).is_ok());
    assert!(s.complete_task(2, hash).is_ok());
    assert!(s.accept_task(1, hash).is_ok());
    assert_eq!(s.task_count(), 0);
}

#[test]
fn task_can_be_rejected_by_creator() {
    let mut s = setup();
    s.register_identity(1);
    let d = deadline(&s);
    assert!(s.create_task(1, title(), spec(), BUDGET, d, attachments(), keywords()).is_ok());
    let hash = s.tasks_owned(1)[0];
    let _task = s.tasks(hash).expect("should found the task");
    assert!(s.start_task(2, hash).is_ok());
    assert_eq!(s.tasks_owned(1).len(), 0);
    assert_eq!(s.tasks_owned(2).len(), 1);
    assert!(s.complete_task(2, hash).is_ok());
    assert!(s.reject_task(1, hash, feedback()).is_ok());
    let hash = s.tasks_owned(2)[0];
    let task = s.tasks(hash).expect("should found the task");
    assert_eq!(task.current_owner, 2);
    assert_eq!(task.status, TaskStatus::InProgress);
}

#[test]
fn feedback_is_given_when_task_is_rejected() {
    let mut s = setup();
    s.register_identity(1);
    let d = deadline(&s);
    assert!(s.create_task(1, title(), spec(), BUDGET, d, attachments(), keywords()).is_ok());
    let hash = s.tasks_owned(1)[0];
    let _task = s.tasks(hash).expect("should found the task");
    assert!(s.start_task(2, hash).is_ok());
    assert_eq!(s.tasks_owned(1).len(), 0);
    assert_eq!(s.tasks_owned(2).len(), 1);
    assert!(s.complete_task(2, hash).is_ok());
    assert!(s.reject_task(1, hash, feedback()).is_ok());
    let hash = s.tasks_owned(2)[0];
    assert_eq!(s.tasks(hash).expect("should found the task").feedback, Some(feedback()));
}

#[test]
fn increase_profile_reputation_when_task_completed() {
    let mut s = setup();
    s.register_identity(1);
    s.register_identity(2);
    let d = deadline(&s);
    assert!(s.create_task(1, title(), spec(), BUDGET, d, attachments(), keywords()).is_ok());
    let hash = s.tasks_owned(1)[0];
    assert_eq!(s.tasks(hash).expect("should found the task").current_owner, 1);
    assert!(s.start_task(2, hash).is_ok());
    assert!(s.complete_task(2, hash).is_ok());
    assert!(s.accept_task(1, hash).is_ok());
    assert_eq!(s.reputation_of(1), 1);
    assert_eq!(s.reputation_of(2), 1);
}

#[test]
fn only_add_reputation_when_task_has_been_accepted() {
    let mut s = setup();
    s.register_identity(1);
    let d = deadline(&s);
    assert!(s.create_task(1, title(), spec(), BUDGET, d, attachments(), keywords()).is_ok());
    let hash = s.tasks_owned(1)[0];
    let _task = s.tasks(hash).expect("should found the task");
    // A never-started task is not pending review, so it cannot be
    // accepted, and no reputation is credited.
    assert_eq!(s.accept_task(1, hash), Err(Error::NotInReviewState));
    assert_eq!(s.reputation_of(1), 0);
}

#[test]
fn delete_task_after_deadline() {
    let mut s = setup();
    s.set_now(12000);
    s.sweep_expired();
    s.register_identity(1);
    let d = deadline(&s);
    assert!(s.create_task(1, title(), spec(), BUDGET, d, attachments(), keywords()).is_ok());
    let hash = s.tasks_owned(1)[0];
    assert!(s.tasks(hash).is_some());
    // The deadline is one hour away; run the sweep once the clock passes it.
    s.set_now(12000 * 302);
    s.sweep_expired();
    assert!(s.tasks(hash).is_none());
}

#[test]
fn balance_check_after_delete_task() {
    let mut s = setup();
    s.set_now(12000);
    s.sweep_expired();
    s.register_identity(1);
    let signer_balance = s.balance_of(Account::User(1));
    let d = deadline(&s);
    assert!(s.create_task(1, title(), spec(), BUDGET, d, attachments(), keywords()).is_ok());
    let signer_balance_after_task_creation = s.balance_of(Account::User(1));
    let hash = s.tasks_owned(1)[0];
    let task_account = escrow_address(hash);
    let task_balance = s.balance_of(task_account);
    assert_eq!(task_balance, BUDGET);
    assert_eq!(signer_balance, signer_balance_after_task_creation + task_balance);
    assert!(s.remove_task(1, hash).is_ok());
    let signer_balance_after_task_deletion = s.balance_of(Account::User(1));
    let task_balance = s.balance_of(task_account);
    assert_eq!(signer_balance, signer_balance_after_task_deletion);
    assert_eq!(task_balance, 0);
}

#[test]
fn block_time_is_added_when_task_is_updated() {
    let mut s = setup();
    s.set_now(1);
    s.register_identity(1);
    let d = deadline(&s);
    assert!(s.create_task(1, title(), spec(), BUDGET, d, attachments(), keywords()).is_ok());
    let hash = s.tasks_owned(1)[0];
    assert_eq!(s.tasks(hash).expect("should found the task").created_at, 1);
    s.set_now(3);
    let d = deadline(&s);
    assert!(s.update_task(1, hash, title2(), spec2(), BUDGET2, d, attachments2(), keywords2()).is_ok());
    assert_eq!(s.tasks(hash).expect("should found the task").updated_at, 3);
    assert!(s.start_task(2, hash).is_ok());
    s.set_now(100);
    assert!(s.complete_task(2, hash).is_ok());
    assert_eq!(s.tasks(hash).expect("should found the task").completed_at, 100);
}
