use parallel_executor::captured_reads::{CapturedReads, ReadKind};
use parallel_executor::ext::{ParallelState, ReadResult, ReadStep};
use parallel_executor::scheduler::{Scheduler, SchedulerTask};
use parallel_executor::txn_last_input_output::{TransactionOutput, TxnLastInputOutput};
use parallel_executor::types::{ExecutionStatus, MVDataError, MVDataOutput};
use parallel_executor::versioned_data::VersionedData;

fn read_value(state: &mut ParallelState, store: &VersionedData, key: &Vec<u8>) -> Vec<u8> {
    match state.read_top_data_by_kind(store, key, ReadKind::Value) {
        ReadStep::Done(ReadResult::Value(Some(v))) => v,
        other => panic!("unexpected read {:?}", other),
    }
}

fn finish(
    store: &mut VersionedData,
    ledger: &mut TxnLastInputOutput,
    sched: &mut Scheduler,
    idx: u32,
    inc: u32,
    reads: CapturedReads,
    writes: Vec<(Vec<u8>, Vec<u8>)>,
) {
    let prev = ledger.modified_keys(idx).unwrap_or_default();
    let wrote_new = store.apply_write_set(idx, inc, &prev, &writes).unwrap();
    ledger.record(idx, reads, ExecutionStatus::Success(TransactionOutput::new(writes).unwrap()));
    sched.finish_execution(idx, wrote_new).unwrap();
}

#[test]
fn late_reader_is_invalidated_and_reexecuted() {
    let k = vec![7u8];
    let mut store = VersionedData::new();
    let mut ledger = TxnLastInputOutput::new(3);
    let mut sched = Scheduler::new(3);
    store.provide_base_value(k.clone(), vec![0]).unwrap();

    assert_eq!(sched.next_task(), SchedulerTask::ExecutionTask(0, 0));
    assert_eq!(sched.next_task(), SchedulerTask::ExecutionTask(1, 0));
    assert_eq!(sched.next_task(), SchedulerTask::ExecutionTask(2, 0));

    // Transaction 2 reads before the lower ones wrote.
    let mut s2 = ParallelState::new(2);
    assert_eq!(read_value(&mut s2, &store, &k), vec![0]);
    finish(&mut store, &mut ledger, &mut sched, 2, 0, s2.take_reads(), vec![(vec![9], vec![0])]);

    // Transaction 0 writes 1.
    let s0 = ParallelState::new(0);
    finish(&mut store, &mut ledger, &mut sched, 0, 0, s0.take_reads(), vec![(k.clone(), vec![1])]);

    // Transaction 1 reads 1 and writes 2.
    let mut s1 = ParallelState::new(1);
    assert_eq!(read_value(&mut s1, &store, &k), vec![1]);
    finish(&mut store, &mut ledger, &mut sched, 1, 0, s1.take_reads(), vec![(k.clone(), vec![2])]);

    let mut committed: Vec<u32> = Vec::new();
    let mut reexecuted = false;
    loop {
        match sched.next_task() {
            SchedulerTask::ValidationTask(i, _) => {
                let valid = ledger.read_set(i).unwrap().validate_data_reads(&store, i);
                if !valid {
                    let keys = ledger.modified_keys(i).unwrap();
                    store.mark_estimates(&keys, i).unwrap();
                }
                sched.finish_validation(i, valid).unwrap();
                if valid {
                    committed.retain(|c| *c < i);
                    committed.push(i);
                }
            }
            SchedulerTask::ExecutionTask(i, inc) => {
                assert_eq!((i, inc), (2, 1));
                let mut s = ParallelState::new(i);
                let seen = read_value(&mut s, &store, &k);
                assert_eq!(seen, vec![2]);
                reexecuted = true;
                finish(&mut store, &mut ledger, &mut sched, i, inc, s.take_reads(), vec![(vec![9], seen)]);
            }
            SchedulerTask::Wait => panic!("single worker never waits"),
            SchedulerTask::Done => break,
        }
    }
    assert!(reexecuted);
    assert_eq!(committed, vec![0, 1, 2]);
    match store.fetch_data(&k, 3) {
        Ok(MVDataOutput::Versioned(v, data)) => {
            assert_eq!(v, Ok((1, 0)));
            assert_eq!(data, vec![2]);
        }
        Err(e) => panic!("unexpected {:?}", e),
    }
    match store.fetch_data(&vec![9], 3) {
        Ok(MVDataOutput::Versioned(v, data)) => {
            assert_eq!(v, Ok((2, 1)));
            assert_eq!(data, vec![2]);
        }
        Err(e) => panic!("unexpected {:?}", e),
    }
    assert!(matches!(store.fetch_data(&vec![8], 3), Err(MVDataError::Uninitialized)));
}
