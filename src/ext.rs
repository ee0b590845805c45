use vstd::prelude::*;

use crate::captured_reads::{
    downcast_spec, spec_capture, CapturedReads, CapturedView, DataRead, ReadKind, ReadView,
};
use crate::types::{MVDataError, MVDataOutput, StorageKey, StorageValue, TxnIndex};
use crate::versioned_data::{spec_fetch, StoreView, VersionedData};

verus! {

/// Why a transaction's execution must stop.
#[derive(Clone, Copy, Debug, PartialEq, Eq, Structural)]
pub enum HaltReason {
    /// Its reads disagree with each other, which speculation explains.
    InconsistentReads,
    /// The parallel execution of the batch was halted.
    ExecutionHalted,
}

/// What a read made on behalf of a transaction returns to it.
#[derive(Debug)]
pub enum ReadResult {
    Value(Option<StorageValue>),
    Exists(bool),
    /// Nothing is known of the key yet: its base value must be provided.
    Uninitialized,
    HaltSpeculativeExecution(HaltReason),
}

pub enum ReadResultView {
    Value(Option<Seq<u8>>),
    Exists(bool),
    Uninitialized,
    HaltSpeculativeExecution(HaltReason),
}

impl View for ReadResult {
    type V = ReadResultView;

    open spec fn view(&self) -> ReadResultView {
        match self {
            ReadResult::Value(Some(v)) => ReadResultView::Value(Some(v@)),
            ReadResult::Value(None) => ReadResultView::Value(None),
            ReadResult::Exists(b) => ReadResultView::Exists(*b),
            ReadResult::Uninitialized => ReadResultView::Uninitialized,
            ReadResult::HaltSpeculativeExecution(h) => ReadResultView::HaltSpeculativeExecution(*h),
        }
    }
}

pub open spec fn result_of_read(r: ReadView) -> ReadResultView {
    match r {
        ReadView::Versioned(_, v) => ReadResultView::Value(Some(v)),
        ReadView::Exists(b) => ReadResultView::Exists(b),
    }
}

impl ReadResult {
    pub fn from_data_read(data: DataRead) -> (r: ReadResult)
        ensures
            r@ == result_of_read(data@),
    {
        match data {
            DataRead::Versioned(_, v) => ReadResult::Value(Some(v)),
            DataRead::Exists(exists) => ReadResult::Exists(exists),
        }
    }
}

/// One step of a read: its result, or the transaction whose execution it
/// must wait for before it reads again.
#[derive(Debug)]
pub enum ReadStep {
    Done(ReadResult),
    WaitFor(TxnIndex),
}

pub enum ReadStepView {
    Done(ReadResultView),
    WaitFor(TxnIndex),
}

impl View for ReadStep {
    type V = ReadStepView;

    open spec fn view(&self) -> ReadStepView {
        match self {
            ReadStep::Done(r) => ReadStepView::Done(r@),
            ReadStep::WaitFor(i) => ReadStepView::WaitFor(*i),
        }
    }
}

/// A read of `key` of kind `kind` by transaction `idx`, with read-set `cv`
/// over store `store`: served from the read-set where it says enough; else
/// from the store, and then captured; or a wait on the transaction whose
/// estimate stands below.
pub open spec fn spec_read_step(cv: CapturedView, store: StoreView, key: Seq<u8>, idx: TxnIndex, kind: ReadKind) -> (
    CapturedView,
    ReadStepView,
) {
    if cv.reads.contains_key(key) && downcast_spec(cv.reads[key], kind) is Some {
        (cv, ReadStepView::Done(result_of_read(downcast_spec(cv.reads[key], kind).unwrap())))
    } else {
        match spec_fetch(store, key, idx) {
            Ok((version, v)) => {
                let d = downcast_spec(ReadView::Versioned(version, v), kind).unwrap();
                let (next, captured) = spec_capture(cv, key, d);
                if captured is Ok {
                    (next, ReadStepView::Done(result_of_read(d)))
                } else {
                    (next, ReadStepView::Done(ReadResultView::HaltSpeculativeExecution(HaltReason::InconsistentReads)))
                }
            },
            Err(MVDataError::Uninitialized) => (cv, ReadStepView::Done(ReadResultView::Uninitialized)),
            Err(MVDataError::Dependency(dep)) => (cv, ReadStepView::WaitFor(dep)),
        }
    }
}

/// A transaction's view of the state while it executes: the reads it made,
/// served and checked against the multi-version store.
pub struct ParallelState {
    txn_idx: TxnIndex,
    captured_reads: CapturedReads,
}

impl ParallelState {
    pub closed spec fn txn_idx(&self) -> TxnIndex {
        self.txn_idx
    }

    pub closed spec fn reads(&self) -> CapturedView {
        self.captured_reads@
    }

    pub closed spec fn wf(&self) -> bool {
        self.captured_reads.wf()
    }

    pub fn new(txn_idx: TxnIndex) -> (s: ParallelState)
        ensures
            s.wf(),
            s.txn_idx() == txn_idx,
            s.reads().reads == Map::<Seq<u8>, ReadView>::empty(),
            !s.reads().speculative_failure,
            !s.reads().incorrect_use,
    {
        ParallelState { txn_idx, captured_reads: CapturedReads::new() }
    }

    pub fn txn_index(&self) -> (r: TxnIndex)
        ensures
            r == self.txn_idx(),
    {
        self.txn_idx
    }

    /// The reads made so far, for recording once the execution ends.
    pub fn take_reads(self) -> (r: CapturedReads)
        requires
            self.wf(),
        ensures
            r.wf(),
            r@ == self.reads(),
    {
        self.captured_reads
    }

    /// Reads `key` with kind `target_kind`. A `WaitFor` answer asks the
    /// caller to wait until that transaction has executed, then read again.
    pub fn read_top_data_by_kind(&mut self, versioned_top: &VersionedData, key: &StorageKey, target_kind: ReadKind) -> (r: ReadStep)
        requires
            old(self).wf(),
        ensures
            final(self).wf(),
            final(self).txn_idx() == old(self).txn_idx(),
            (final(self).reads(), r@) == spec_read_step(old(self).reads(), versioned_top@, key@, old(self).txn_idx(), target_kind),
    {
        if let Some(data) = self.captured_reads.get_by_kind(key, target_kind) {
            return ReadStep::Done(ReadResult::from_data_read(data));
        }
        match versioned_top.fetch_data(key, self.txn_idx) {
            Ok(MVDataOutput::Versioned(version, v)) => {
                let data_read = DataRead::Versioned(version, v).downcast(target_kind);
                match data_read {
                    Some(d) => {
                        let result_data = match &d {
                            DataRead::Versioned(ver, bytes) => DataRead::Versioned(*ver, bytes.clone()),
                            DataRead::Exists(b) => DataRead::Exists(*b),
                        };
                        if self.captured_reads.capture_read(key.clone(), d).is_err() {
                            ReadStep::Done(ReadResult::HaltSpeculativeExecution(HaltReason::InconsistentReads))
                        } else {
                            ReadStep::Done(ReadResult::from_data_read(result_data))
                        }
                    },
                    None => ReadStep::Done(ReadResult::Uninitialized),
                }
            },
            Err(MVDataError::Uninitialized) => ReadStep::Done(ReadResult::Uninitialized),
            Err(MVDataError::Dependency(dep_idx)) => ReadStep::WaitFor(dep_idx),
        }
    }

    /// Records a speculative failure found outside the reads.
    pub fn mark_failure(&mut self)
        requires
            old(self).wf(),
        ensures
            final(self).wf(),
            final(self).txn_idx() == old(self).txn_idx(),
            final(self).reads() == (CapturedView {
                reads: old(self).reads().reads,
                speculative_failure: true,
                incorrect_use: old(self).reads().incorrect_use,
            }),
    {
        self.captured_reads.mark_failure();
    }
}

} // verus!
