use vstd::prelude::*;

use crate::captured_reads::{valid_spec, CapturedReads};
use crate::scheduler::{spec_finish_execution, spec_finish_validation, Scheduler, SchedulerError};
use crate::txn_last_input_output::{
    committed_writes, pairs_of, LedgerView, TransactionOutput, TxnLastInputOutput, WriteSetView,
};
use crate::types::{ExecutionStatus, Incarnation, StorageKey, StorageValue, TxnIndex};
use crate::versioned_data::{
    keys_view, spec_apply_write_set, spec_mark_all, writes_new_location, StoreError, VersionedData,
};

verus! {

/// Why a worker's report could not be taken: each means the batch must
/// run sequentially instead.
#[derive(Clone, Copy, Debug, PartialEq, Eq, Structural)]
pub enum ExecutorError {
    /// The execution misused its read-set.
    IncorrectUse,
    Store(StoreError),
    Scheduler(SchedulerError),
}

/// The keys that a recorded output writes; none for an abort or no output.
pub open spec fn written_keys(o: Option<ExecutionStatus<WriteSetView>>) -> Seq<Seq<u8>> {
    match o {
        Some(ExecutionStatus::Success(w)) => w.map_values(|p: (Seq<u8>, Seq<u8>)| p.0),
        Some(ExecutionStatus::SkipRest(w)) => w.map_values(|p: (Seq<u8>, Seq<u8>)| p.0),
        _ => Seq::empty(),
    }
}

fn previous_keys(ledger: &TxnLastInputOutput, txn_idx: TxnIndex) -> (r: Vec<StorageKey>)
    requires
        ledger.wf(),
        txn_idx < ledger.num_txns(),
    ensures
        keys_view(r@) == written_keys(ledger@.outputs[txn_idx as int]),
{
    match ledger.modified_keys(txn_idx) {
        Some(keys) => {
            proof {
                assert(keys_view(keys@) =~= written_keys(ledger@.outputs[txn_idx as int]));
            }
            keys
        },
        None => {
            proof {
                assert(keys_view(Seq::<StorageKey>::empty()) =~= written_keys(ledger@.outputs[txn_idx as int]));
            }
            Vec::new()
        },
    }
}

/// Records a finished execution of incarnation `incarnation` of `txn_idx`:
/// its writes go to the store, replacing those of its previous incarnation;
/// its read-set and output go to the ledger; and the scheduler learns that
/// it awaits validation, and whether it wrote a key that it did not write
/// before.
pub fn record_execution(
    store: &mut VersionedData,
    ledger: &mut TxnLastInputOutput,
    scheduler: &mut Scheduler,
    txn_idx: TxnIndex,
    incarnation: Incarnation,
    reads: CapturedReads,
    output: ExecutionStatus<TransactionOutput>,
) -> (r: Result<(), ExecutorError>)
    requires
        old(ledger).wf(),
        old(scheduler).wf(),
        reads.wf(),
        txn_idx < old(ledger).num_txns(),
    ensures
        final(ledger).wf(),
        final(scheduler).wf(),
        reads@.incorrect_use ==> r == Err::<(), ExecutorError>(ExecutorError::IncorrectUse) && final(store)@ == old(store)@
            && final(ledger)@ == old(ledger)@ && final(scheduler)@ == old(scheduler)@,
        !reads@.incorrect_use ==> {
            let prev = written_keys(old(ledger)@.outputs[txn_idx as int]);
            let w = committed_writes(output@);
            match spec_apply_write_set(old(store)@, txn_idx, incarnation, prev, w) {
                None => r matches Err(ExecutorError::Store(_)),
                Some(m) => final(store)@ == m && final(ledger)@ == (LedgerView {
                    inputs: old(ledger)@.inputs.update(txn_idx as int, Some(reads@)),
                    outputs: old(ledger)@.outputs.update(txn_idx as int, Some(output@)),
                    module_read_write_intersection: old(ledger)@.module_read_write_intersection,
                }) && match spec_finish_execution(old(scheduler)@, txn_idx, writes_new_location(prev, w)) {
                    Ok(s) => r is Ok && final(scheduler)@ == s,
                    Err(e) => r == Err::<(), ExecutorError>(ExecutorError::Scheduler(e)),
                },
            }
        },
{
    if reads.is_incorrect_use() {
        return Err(ExecutorError::IncorrectUse);
    }
    let prev = previous_keys(ledger, txn_idx);
    let empty: Vec<(StorageKey, StorageValue)> = Vec::new();
    let applied = match &output {
        ExecutionStatus::Success(t) => store.apply_write_set(txn_idx, incarnation, &prev, t.writes()),
        ExecutionStatus::SkipRest(t) => store.apply_write_set(txn_idx, incarnation, &prev, t.writes()),
        ExecutionStatus::Abort => {
            proof {
                assert(pairs_of(empty@) =~= committed_writes(output@));
            }
            store.apply_write_set(txn_idx, incarnation, &prev, &empty)
        },
    };
    let wrote_new = match applied {
        Ok(b) => b,
        Err(e) => {
            return Err(ExecutorError::Store(e));
        },
    };
    ledger.record(txn_idx, reads, output);
    match scheduler.finish_execution(txn_idx, wrote_new) {
        Ok(()) => Ok(()),
        Err(e) => Err(ExecutorError::Scheduler(e)),
    }
}

/// Validates the last recorded read-set of `txn_idx` against the store and
/// reports the outcome to the scheduler; on failure, the writes of that
/// execution first become estimates. Returns whether it was valid.
pub fn validate_and_finish(
    store: &mut VersionedData,
    ledger: &TxnLastInputOutput,
    scheduler: &mut Scheduler,
    txn_idx: TxnIndex,
) -> (r: Result<bool, ExecutorError>)
    requires
        ledger.wf(),
        old(scheduler).wf(),
        txn_idx < ledger.num_txns(),
    ensures
        final(scheduler).wf(),
        ({
            let valid = match ledger@.inputs[txn_idx as int] {
                Some(c) => valid_spec(c, old(store)@, txn_idx),
                None => false,
            };
            &&& valid ==> final(store)@ == old(store)@
            &&& match (if valid {
                Some(old(store)@)
            } else {
                spec_mark_all(old(store)@, txn_idx, written_keys(ledger@.outputs[txn_idx as int]))
            }) {
                None => r matches Err(ExecutorError::Store(_)),
                Some(m) => final(store)@ == m && match spec_finish_validation(old(scheduler)@, txn_idx, valid) {
                    Ok(s) => r == Ok::<bool, ExecutorError>(valid) && final(scheduler)@ == s,
                    Err(e) => r == Err::<bool, ExecutorError>(ExecutorError::Scheduler(e)),
                },
            }
        }),
{
    let valid = match ledger.read_set(txn_idx) {
        Some(reads) => reads.validate_data_reads(store, txn_idx),
        None => false,
    };
    if !valid {
        let keys = previous_keys(ledger, txn_idx);
        if let Err(e) = store.mark_estimates(&keys, txn_idx) {
            return Err(ExecutorError::Store(e));
        }
    }
    match scheduler.finish_validation(txn_idx, valid) {
        Ok(()) => Ok(valid),
        Err(e) => Err(ExecutorError::Scheduler(e)),
    }
}

} // verus!
