use parallel_executor::captured_reads::{CapturedReads, DataRead};
use parallel_executor::executor::{record_execution, validate_and_finish, ExecutorError};
use parallel_executor::scheduler::{Scheduler, SchedulerError, SchedulerTask, TxnStatus};
use parallel_executor::txn_last_input_output::{TransactionOutput, TxnLastInputOutput};
use parallel_executor::types::{ExecutionStatus, MVDataError, MVDataOutput};
use parallel_executor::versioned_data::{StoreError, VersionedData};

fn out(pairs: &[(u8, u8)]) -> ExecutionStatus<TransactionOutput> {
    ExecutionStatus::Success(TransactionOutput::new(pairs.iter().map(|(k, v)| (vec![*k], vec![*v])).collect()).unwrap())
}

#[test]
fn record_then_validate_commits() {
    let mut store = VersionedData::new();
    let mut ledger = TxnLastInputOutput::new(2);
    let mut sched = Scheduler::new(2);
    assert_eq!(sched.next_task(), SchedulerTask::ExecutionTask(0, 0));
    assert_eq!(record_execution(&mut store, &mut ledger, &mut sched, 0, 0, CapturedReads::new(), out(&[(1, 10)])), Ok(()));
    assert_eq!(sched.status(0), Some(TxnStatus::PendingValidation));
    assert!(matches!(store.fetch_data(&vec![1], 1), Ok(MVDataOutput::Versioned(Ok((0, 0)), _))));
    assert_eq!(sched.next_task(), SchedulerTask::ValidationTask(0, 0));
    assert_eq!(validate_and_finish(&mut store, &ledger, &mut sched, 0), Ok(true));
    assert_eq!(sched.status(0), Some(TxnStatus::Committed));
}

#[test]
fn failed_validation_turns_writes_into_estimates() {
    let mut store = VersionedData::new();
    let mut ledger = TxnLastInputOutput::new(2);
    let mut sched = Scheduler::new(2);
    store.provide_base_value(vec![1], vec![0]).unwrap();
    sched.next_task();
    sched.next_task();
    let mut reads = CapturedReads::new();
    reads.capture_read(vec![1], DataRead::Versioned(Err(parallel_executor::types::StorageVersion), vec![0])).unwrap();
    record_execution(&mut store, &mut ledger, &mut sched, 1, 0, reads, out(&[(2, 20)])).unwrap();
    record_execution(&mut store, &mut ledger, &mut sched, 0, 0, CapturedReads::new(), out(&[(1, 5)])).unwrap();
    assert_eq!(sched.next_task(), SchedulerTask::ValidationTask(0, 0));
    assert_eq!(sched.next_task(), SchedulerTask::ValidationTask(1, 0));
    assert_eq!(validate_and_finish(&mut store, &ledger, &mut sched, 1), Ok(false));
    assert!(matches!(store.fetch_data(&vec![2], 2), Err(MVDataError::Dependency(1))));
    assert_eq!(sched.next_task(), SchedulerTask::ExecutionTask(1, 1));
    assert_eq!(record_execution(&mut store, &mut ledger, &mut sched, 1, 1, CapturedReads::new(), out(&[(3, 30)])), Ok(()));
    assert!(matches!(store.fetch_data(&vec![2], 2), Err(MVDataError::Uninitialized)));
}

#[test]
fn reports_that_cannot_be_taken() {
    let mut store = VersionedData::new();
    let mut ledger = TxnLastInputOutput::new(1);
    let mut sched = Scheduler::new(1);
    assert_eq!(
        record_execution(&mut store, &mut ledger, &mut sched, 0, 0, CapturedReads::new(), out(&[(1, 1)])),
        Err(ExecutorError::Scheduler(SchedulerError::WrongStatus))
    );
    assert_eq!(
        record_execution(&mut store, &mut ledger, &mut sched, 0, 0, CapturedReads::new(), out(&[(1, 1)])),
        Err(ExecutorError::Store(StoreError::StaleIncarnation))
    );
    let mut misused = CapturedReads::new();
    misused.capture_read(vec![1], DataRead::Exists(true)).unwrap();
    let _ = misused.capture_read(vec![1], DataRead::Exists(true));
    assert_eq!(
        record_execution(&mut store, &mut ledger, &mut sched, 0, 1, misused, ExecutionStatus::Abort),
        Err(ExecutorError::IncorrectUse)
    );
}
