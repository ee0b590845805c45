use parallel_executor::scheduler::{DependencyResult, Scheduler, SchedulerError, SchedulerTask, TxnStatus};

#[test]
fn hands_out_executions_in_order_then_waits() {
    let mut s = Scheduler::new(2);
    assert_eq!(s.num_txns(), 2);
    assert_eq!(s.next_task(), SchedulerTask::ExecutionTask(0, 0));
    assert_eq!(s.next_task(), SchedulerTask::ExecutionTask(1, 0));
    assert_eq!(s.next_task(), SchedulerTask::Wait);
    assert_eq!(s.status(0), Some(TxnStatus::Executing));
    assert_eq!(s.status(2), None);
}

#[test]
fn validation_comes_before_execution() {
    let mut s = Scheduler::new(3);
    assert_eq!(s.next_task(), SchedulerTask::ExecutionTask(0, 0));
    assert_eq!(s.finish_execution(0, false), Ok(()));
    assert_eq!(s.next_task(), SchedulerTask::ValidationTask(0, 0));
    assert_eq!(s.next_task(), SchedulerTask::ExecutionTask(1, 0));
}

#[test]
fn no_transaction_is_handed_out_twice() {
    let mut s = Scheduler::new(4);
    let mut running: Vec<u32> = Vec::new();
    for _ in 0..10 {
        match s.next_task() {
            SchedulerTask::ExecutionTask(i, _) | SchedulerTask::ValidationTask(i, _) => {
                assert!(!running.contains(&i));
                running.push(i);
            }
            SchedulerTask::Wait => break,
            SchedulerTask::Done => panic!("not done"),
        }
    }
    assert_eq!(running, vec![0, 1, 2, 3]);
    assert_eq!(s.finish_execution(2, false), Ok(()));
    assert_eq!(s.next_task(), SchedulerTask::ValidationTask(2, 0));
    assert_eq!(s.next_task(), SchedulerTask::Wait);
}

#[test]
fn reports_in_wrong_state_are_refused() {
    let mut s = Scheduler::new(2);
    assert_eq!(s.finish_execution(0, false), Err(SchedulerError::WrongStatus));
    assert_eq!(s.finish_validation(0, true), Err(SchedulerError::WrongStatus));
    assert_eq!(s.finish_execution(5, false), Err(SchedulerError::OutOfRange));
    assert_eq!(s.finish_validation(5, true), Err(SchedulerError::OutOfRange));
    assert_eq!(s.next_task(), SchedulerTask::ExecutionTask(0, 0));
    assert_eq!(s.finish_validation(0, true), Err(SchedulerError::WrongStatus));
}

#[test]
fn failed_validation_reexecutes_with_next_incarnation() {
    let mut s = Scheduler::new(2);
    assert_eq!(s.next_task(), SchedulerTask::ExecutionTask(0, 0));
    assert_eq!(s.next_task(), SchedulerTask::ExecutionTask(1, 0));
    s.finish_execution(0, true).unwrap();
    s.finish_execution(1, true).unwrap();
    assert_eq!(s.next_task(), SchedulerTask::ValidationTask(0, 0));
    assert_eq!(s.next_task(), SchedulerTask::ValidationTask(1, 0));
    s.finish_validation(1, true).unwrap();
    assert_eq!(s.status(1), Some(TxnStatus::Committed));
    s.finish_validation(0, false).unwrap();
    assert_eq!(s.incarnation(0), Some(1));
    assert_eq!(s.status(0), Some(TxnStatus::PendingExecution));
    assert_eq!(s.status(1), Some(TxnStatus::PendingValidation));
    assert_eq!(s.next_task(), SchedulerTask::ValidationTask(1, 0));
    assert_eq!(s.next_task(), SchedulerTask::ExecutionTask(0, 1));
}

#[test]
fn validation_that_went_stale_runs_again() {
    let mut s = Scheduler::new(2);
    s.next_task();
    s.next_task();
    s.finish_execution(0, false).unwrap();
    s.finish_execution(1, false).unwrap();
    assert_eq!(s.next_task(), SchedulerTask::ValidationTask(0, 0));
    assert_eq!(s.next_task(), SchedulerTask::ValidationTask(1, 0));
    s.finish_validation(0, false).unwrap();
    s.finish_validation(1, true).unwrap();
    assert_eq!(s.status(1), Some(TxnStatus::PendingValidation));
}

#[test]
fn dependency_answers() {
    let mut s = Scheduler::new(3);
    assert_eq!(s.wait_for_dependency(2, 0), DependencyResult::Dependency);
    s.next_task();
    assert_eq!(s.wait_for_dependency(2, 0), DependencyResult::Dependency);
    s.finish_execution(0, false).unwrap();
    assert_eq!(s.wait_for_dependency(2, 0), DependencyResult::Resolved);
    assert!(s.halt());
    assert!(!s.halt());
    assert!(s.is_halted());
    assert_eq!(s.wait_for_dependency(2, 1), DependencyResult::ExecutionHalted);
    assert_eq!(s.next_task(), SchedulerTask::Done);
    assert!(s.done());
}

#[test]
fn done_once_all_committed() {
    let mut s = Scheduler::new(1);
    assert!(!s.done());
    s.next_task();
    s.finish_execution(0, false).unwrap();
    s.next_task();
    s.finish_validation(0, true).unwrap();
    assert!(s.done());
    assert_eq!(s.next_task(), SchedulerTask::Done);
    let mut empty = Scheduler::new(0);
    assert_eq!(empty.next_task(), SchedulerTask::Done);
}
