use botcore::errors::TaskError;
use botcore::task_manager::{CancelOutcome, SpawnOutcome, TaskManager};

#[test]
fn bound_never_exceeded() {
    let mut tm = TaskManager::new(2);
    assert_eq!(tm.spawn("a"), Ok(SpawnOutcome::Started));
    assert_eq!(tm.spawn("b"), Ok(SpawnOutcome::Started));
    // Every further admission waits: only two may run at once.
    assert_eq!(tm.spawn("c"), Ok(SpawnOutcome::Enqueued));
    assert_eq!(tm.spawn("d"), Ok(SpawnOutcome::Enqueued));
    assert_eq!(tm.spawn("e"), Ok(SpawnOutcome::Enqueued));
    // A completion frees one slot: exactly one promotion.
    let started = tm.task_completed("a");
    assert_eq!(started, vec!["c".to_string()]);
}

#[test]
fn zero_bound_queues_everything() {
    let mut tm = TaskManager::new(0);
    assert_eq!(tm.spawn("a"), Ok(SpawnOutcome::Enqueued));
    assert_eq!(tm.spawn("b"), Ok(SpawnOutcome::Enqueued));
    let started = tm.task_completed("a");
    assert!(started.is_empty());
}

#[test]
fn fifo_promotion_order() {
    let mut tm = TaskManager::new(2);
    assert_eq!(tm.spawn("a"), Ok(SpawnOutcome::Started));
    assert_eq!(tm.spawn("b"), Ok(SpawnOutcome::Started));
    assert_eq!(tm.spawn("c"), Ok(SpawnOutcome::Enqueued));
    assert_eq!(tm.spawn("d"), Ok(SpawnOutcome::Enqueued));
    // c entered the queue before d: c starts on the first completion, d on
    // the second, never the other way round.
    assert_eq!(tm.task_completed("a"), vec!["c".to_string()]);
    assert_eq!(tm.task_completed("b"), vec!["d".to_string()]);
    assert_eq!(tm.task_completed("c"), Vec::<String>::new());
}

#[test]
fn completion_fills_every_free_slot() {
    let mut tm = TaskManager::new(2);
    tm.spawn("a").unwrap();
    tm.spawn("b").unwrap();
    tm.spawn("c").unwrap();
    tm.spawn("d").unwrap();
    // Cancelling a running task frees its slot without promoting.
    assert_eq!(tm.cancel("b"), Ok(CancelOutcome::WasRunning));
    // The next completion then finds two free slots and promotes twice, in
    // queue order.
    let started = tm.task_completed("a");
    assert_eq!(started, vec!["c".to_string(), "d".to_string()]);
}

#[test]
fn duplicate_name_rejected_until_completion() {
    let mut tm = TaskManager::new(1);
    assert_eq!(tm.spawn("x"), Ok(SpawnOutcome::Started));
    // While "x" runs, the name is taken.
    assert_eq!(tm.spawn("x"), Err(TaskError::DuplicateTask));
    tm.spawn("y").unwrap();
    // "y" is queued; its name is taken too.
    assert_eq!(tm.spawn("y"), Err(TaskError::DuplicateTask));
    // After completion the name is free again.
    tm.task_completed("x");
    assert_eq!(tm.spawn("x"), Ok(SpawnOutcome::Enqueued));
}

#[test]
fn cancel_unknown_name_fails() {
    let mut tm = TaskManager::new(2);
    assert_eq!(tm.cancel("ghost"), Err(TaskError::TaskNotFound));
    tm.spawn("real").unwrap();
    tm.task_completed("real");
    // A finished task is no longer cancellable either.
    assert_eq!(tm.cancel("real"), Err(TaskError::TaskNotFound));
}

#[test]
fn cancel_queued_task_never_starts() {
    let mut tm = TaskManager::new(1);
    tm.spawn("a").unwrap();
    tm.spawn("b").unwrap();
    tm.spawn("c").unwrap();
    assert_eq!(tm.cancel("b"), Ok(CancelOutcome::WasQueued));
    // "b" was dropped from the queue: the completion of "a" promotes "c".
    assert_eq!(tm.task_completed("a"), vec!["c".to_string()]);
}

#[test]
fn cancel_all_discards_everything() {
    let mut tm = TaskManager::new(1);
    tm.spawn("a").unwrap();
    tm.spawn("b").unwrap();
    tm.cancel_all();
    assert!(tm.get_running_tasks().is_empty());
    assert!(!tm.is_running("a"));
    assert_eq!(tm.spawn("a"), Ok(SpawnOutcome::Started));
}

#[test]
fn introspection_covers_running_and_queued() {
    let mut tm = TaskManager::new(1);
    tm.spawn("run").unwrap();
    tm.spawn("wait").unwrap();
    assert!(tm.is_running("run"));
    assert!(tm.is_running("wait"));
    assert!(!tm.is_running("other"));
    assert_eq!(tm.get_running_tasks(), vec!["run".to_string(), "wait".to_string()]);
}

#[test]
fn task_error_messages() {
    assert_eq!(TaskError::DuplicateTask.message(), "task with this name already exists");
    assert_eq!(TaskError::TaskNotFound.message(), "task not found");
}
