use std::sync::Arc;

use vstd::prelude::*;

use crate::captured_reads::{CapturedReads, CapturedView};
use crate::types::{same_key, ExecutionStatus, StorageKey, StorageValue, TxnIndex};

verus! {

/// A write-set as the contracts see it: (key, value) pairs in order.
pub type WriteSetView = Seq<(Seq<u8>, Seq<u8>)>;

/// No key occurs twice in the write-set: it maps each key to one value.
pub open spec fn unique_keys(w: WriteSetView) -> bool {
    forall|i: int, j: int| 0 <= i < j < w.len() ==> #[trigger] w[i].0 != #[trigger] w[j].0
}

/// The output of executing a transaction.
#[derive(Debug)]
pub struct TransactionOutput {
    /// The writes this transaction intends to make, one per key.
    write_set: Vec<(StorageKey, StorageValue)>,
}

impl View for TransactionOutput {
    type V = WriteSetView;

    closed spec fn view(&self) -> WriteSetView {
        pairs_of(self.write_set@)
    }
}

impl<T: View> View for ExecutionStatus<T> {
    type V = ExecutionStatus<T::V>;

    open spec fn view(&self) -> ExecutionStatus<T::V> {
        match self {
            ExecutionStatus::Success(t) => ExecutionStatus::Success(t@),
            ExecutionStatus::SkipRest(t) => ExecutionStatus::SkipRest(t@),
            ExecutionStatus::Abort => ExecutionStatus::Abort,
        }
    }
}

fn copy_bytes(v: &Vec<u8>) -> (r: Vec<u8>)
    ensures
        r@ == v@,
{
    v.clone()
}

impl TransactionOutput {
    #[verifier::type_invariant]
    closed spec fn inv(self) -> bool {
        unique_keys(pairs_of(self.write_set@))
    }

    /// The output that writes `write_set`; none where a key occurs twice.
    pub fn new(write_set: Vec<(StorageKey, StorageValue)>) -> (r: Option<TransactionOutput>)
        ensures
            r is Some == unique_keys(pairs_of(write_set@)),
            r matches Some(o) ==> o@ == pairs_of(write_set@),
    {
        let ghost w = pairs_of(write_set@);
        let mut i: usize = 0;
        while i < write_set.len()
            invariant
                i <= write_set.len(),
                w == pairs_of(write_set@),
                forall|a: int, b: int| 0 <= a < b < i ==> #[trigger] w[a].0 != #[trigger] w[b].0,
            decreases write_set.len() - i,
        {
            let mut j: usize = 0;
            while j < i
                invariant
                    j <= i < write_set.len(),
                    w == pairs_of(write_set@),
                    forall|a: int| 0 <= a < j ==> #[trigger] w[a].0 != w[i as int].0,
                decreases i - j,
            {
                if same_key(&write_set[j].0, &write_set[i].0) {
                    proof {
                        assert(w[j as int].0 == w[i as int].0);
                    }
                    return None;
                }
                j += 1;
            }
            i += 1;
        }
        Some(TransactionOutput { write_set })
    }

    /// The keys that the write-set touches, in its order, each once.
    pub fn keys(&self) -> (r: Vec<StorageKey>)
        ensures
            r@.len() == self@.len(),
            forall|i: int| 0 <= i < r@.len() ==> #[trigger] r@[i]@ == self@[i].0,
            forall|i: int, j: int| 0 <= i < j < r@.len() ==> #[trigger] r@[i]@ != #[trigger] r@[j]@,
    {
        proof {
            use_type_invariant(self);
        }
        let mut r: Vec<StorageKey> = Vec::new();
        let mut i: usize = 0;
        while i < self.write_set.len()
            invariant
                i <= self.write_set.len(),
                r@.len() == i,
                forall|j: int| 0 <= j < i ==> #[trigger] r@[j]@ == self@[j].0,
            decreases self.write_set.len() - i,
        {
            r.push(copy_bytes(&self.write_set[i].0));
            i += 1;
        }
        proof {
            assert forall|a: int, b: int| 0 <= a < b < r@.len() implies #[trigger] r@[a]@ != #[trigger] r@[b]@ by {
                assert(self@[a].0 != self@[b].0);
            }
        }
        r
    }

    pub fn into_writes(self) -> (r: Vec<(StorageKey, StorageValue)>)
        ensures
            pairs_of(r@) == self@,
            unique_keys(self@),
    {
        proof {
            use_type_invariant(&self);
        }
        self.write_set
    }

    /// The write-set, key by key.
    pub fn writes(&self) -> (r: &Vec<(StorageKey, StorageValue)>)
        ensures
            pairs_of(r@) == self@,
            unique_keys(self@),
    {
        proof {
            use_type_invariant(self);
        }
        &self.write_set
    }

    /// A copy that holds the same writes.
    pub fn duplicate(&self) -> (r: TransactionOutput)
        ensures
            r@ == self@,
    {
        proof {
            use_type_invariant(self);
        }
        let mut w: Vec<(StorageKey, StorageValue)> = Vec::new();
        let mut i: usize = 0;
        while i < self.write_set.len()
            invariant
                i <= self.write_set.len(),
                w@.len() == i,
                forall|j: int| 0 <= j < i ==> (#[trigger] w@[j]).0@ == self.write_set@[j].0@ && w@[j].1@
                    == self.write_set@[j].1@,
            decreases self.write_set.len() - i,
        {
            let (k, v) = (&self.write_set[i].0, &self.write_set[i].1);
            w.push((copy_bytes(k), copy_bytes(v)));
            i += 1;
        }
        proof {
            assert(pairs_of(w@) =~= self@);
        }
        TransactionOutput { write_set: w }
    }
}

/// The last recorded output of a transaction.
#[derive(Debug)]
pub struct TxnOutput {
    output_status: ExecutionStatus<TransactionOutput>,
}

impl View for TxnOutput {
    type V = ExecutionStatus<WriteSetView>;

    closed spec fn view(&self) -> ExecutionStatus<WriteSetView> {
        self.output_status@
    }
}

impl TxnOutput {
    pub fn from_output_status(output_status: ExecutionStatus<TransactionOutput>) -> (r: TxnOutput)
        ensures
            r@ == output_status@,
    {
        TxnOutput { output_status }
    }

    pub fn output_status(&self) -> (r: &ExecutionStatus<TransactionOutput>)
        ensures
            r@ == self@,
    {
        &self.output_status
    }

    pub fn into_output_status(self) -> (r: ExecutionStatus<TransactionOutput>)
        ensures
            r@ == self@,
    {
        self.output_status
    }
}

/// Relies on `Arc::try_unwrap`: the value where no other pointer to it is
/// left, else the pointer handed back.
#[verifier::external_body]
fn unwrap_unique<T>(a: Arc<T>) -> (r: Result<T, Arc<T>>)
    ensures
        r matches Ok(t) ==> t == *a,
        r matches Err(b) ==> *b == *a,
{
    Arc::try_unwrap(a)
}

/// What a transaction's output writes once committed: its write-set, or
/// nothing where it aborted.
pub open spec fn committed_writes(o: ExecutionStatus<WriteSetView>) -> WriteSetView {
    match o {
        ExecutionStatus::Success(w) => w,
        ExecutionStatus::SkipRest(w) => w,
        ExecutionStatus::Abort => Seq::empty(),
    }
}

pub open spec fn pairs_of(w: Seq<(StorageKey, StorageValue)>) -> WriteSetView {
    w.map_values(|p: (StorageKey, StorageValue)| (p.0@, p.1@))
}

/// Every output before position `x` is recorded and does not skip the rest.
pub open spec fn runs_on_to(outs: Seq<Option<ExecutionStatus<WriteSetView>>>, x: int) -> bool {
    forall|j: int| 0 <= j < x ==> #[trigger] outs[j] is Some && !(outs[j] matches Some(ExecutionStatus::SkipRest(_)))
}

/// An output is missing before the batch ends or an output skips the rest.
pub open spec fn missing_before_skip(outs: Seq<Option<ExecutionStatus<WriteSetView>>>) -> bool {
    exists|x: int| 0 <= x < outs.len() && #[trigger] outs[x] is None && runs_on_to(outs, x)
}

/// Why the ledger refused an operation: each is a misuse by the caller.
#[derive(Clone, Copy, Debug, PartialEq, Eq, Structural)]
pub enum LedgerError {
    /// No output is recorded for the transaction.
    NoOutput,
    /// The recorded output is not a success.
    NotSuccess,
    /// Another holder of the recorded output is still alive.
    OutputShared,
}

pub open spec fn input_view(slot: Option<Arc<CapturedReads>>) -> Option<CapturedView> {
    match slot {
        Some(a) => Some((*a)@),
        None => None,
    }
}

pub open spec fn output_view(slot: Option<Arc<TxnOutput>>) -> Option<ExecutionStatus<WriteSetView>> {
    match slot {
        Some(a) => Some((*a)@),
        None => None,
    }
}

/// The ledger as the contracts see it: per transaction, the last recorded
/// read-set and output.
pub struct LedgerView {
    pub inputs: Seq<Option<CapturedView>>,
    pub outputs: Seq<Option<ExecutionStatus<WriteSetView>>>,
    pub module_read_write_intersection: bool,
}

/// The last read-set and output recorded for each transaction of the batch.
/// Each is a shared snapshot: a reader keeps the one it took while a new
/// one replaces it.
pub struct TxnLastInputOutput {
    inputs: Vec<Option<Arc<CapturedReads>>>,
    outputs: Vec<Option<Arc<TxnOutput>>>,
    module_read_write_intersection: bool,
}

impl View for TxnLastInputOutput {
    type V = LedgerView;

    closed spec fn view(&self) -> LedgerView {
        LedgerView {
            inputs: self.inputs@.map_values(|slot: Option<Arc<CapturedReads>>| input_view(slot)),
            outputs: self.outputs@.map_values(|slot: Option<Arc<TxnOutput>>| output_view(slot)),
            module_read_write_intersection: self.module_read_write_intersection,
        }
    }
}

impl TxnLastInputOutput {
    /// One slot of each kind per transaction, and every recorded read-set
    /// well formed.
    pub open spec fn wf(&self) -> bool {
        &&& self@.inputs.len() == self@.outputs.len()
        &&& self.inputs_wf()
    }

    pub closed spec fn inputs_wf(&self) -> bool {
        &&& self.inputs.len() == self.outputs.len()
        &&& forall|i: int|
            0 <= i < self.inputs.len() ==> (#[trigger] self.inputs@[i] matches Some(a) ==> (*a).wf())
    }

    pub open spec fn num_txns(&self) -> nat {
        self@.inputs.len()
    }

    pub fn new(num_txns: TxnIndex) -> (r: TxnLastInputOutput)
        ensures
            r.wf(),
            r@.inputs.len() == num_txns,
            r@.outputs.len() == num_txns,
            forall|i: int| 0 <= i < num_txns ==> #[trigger] r@.inputs[i] is None && r@.outputs[i] is None,
            !r@.module_read_write_intersection,
    {
        let mut inputs: Vec<Option<Arc<CapturedReads>>> = Vec::new();
        let mut outputs: Vec<Option<Arc<TxnOutput>>> = Vec::new();
        let mut i: TxnIndex = 0;
        while i < num_txns
            invariant
                i <= num_txns,
                inputs@.len() == i,
                outputs@.len() == i,
                forall|j: int| 0 <= j < i ==> #[trigger] inputs@[j] is None && outputs@[j] is None,
            decreases num_txns - i,
        {
            inputs.push(None);
            outputs.push(None);
            i += 1;
        }
        TxnLastInputOutput { inputs, outputs, module_read_write_intersection: false }
    }

    /// Replaces both snapshots of `txn_idx` with those of its latest
    /// execution.
    pub fn record(&mut self, txn_idx: TxnIndex, input: CapturedReads, output: ExecutionStatus<TransactionOutput>) -> (r: bool)
        requires
            old(self).wf(),
            txn_idx < old(self).num_txns(),
            input.wf(),
        ensures
            r,
            final(self).wf(),
            final(self)@ == (LedgerView {
                inputs: old(self)@.inputs.update(txn_idx as int, Some(input@)),
                outputs: old(self)@.outputs.update(txn_idx as int, Some(output@)),
                module_read_write_intersection: old(self)@.module_read_write_intersection,
            }),
    {
        let i = txn_idx as usize;
        let ghost iv = input@;
        let ghost ov = output@;
        self.inputs[i] = Some(Arc::new(input));
        self.outputs[i] = Some(Arc::new(TxnOutput::from_output_status(output)));
        proof {
            assert(self@.inputs =~= old(self)@.inputs.update(txn_idx as int, Some(iv)));
            assert(self@.outputs =~= old(self)@.outputs.update(txn_idx as int, Some(ov)));
        }
        true
    }

    /// The last recorded read-set of `txn_idx`, if it was executed.
    pub fn read_set(&self, txn_idx: TxnIndex) -> (r: Option<Arc<CapturedReads>>)
        requires
            self.wf(),
            txn_idx < self.num_txns(),
        ensures
            input_view(r) == self@.inputs[txn_idx as int],
            r matches Some(a) ==> (*a).wf(),
    {
        match &self.inputs[txn_idx as usize] {
            Some(a) => Some(Arc::clone(a)),
            None => None,
        }
    }

    /// The last recorded output of `txn_idx`, if it was executed.
    pub fn txn_output(&self, txn_idx: TxnIndex) -> (r: Option<Arc<TxnOutput>>)
        requires
            self.wf(),
            txn_idx < self.num_txns(),
        ensures
            output_view(r) == self@.outputs[txn_idx as int],
    {
        match &self.outputs[txn_idx as usize] {
            Some(a) => Some(Arc::clone(a)),
            None => None,
        }
    }

    /// Whether the recorded output of `txn_idx` says that the rest of the
    /// batch is skipped.
    pub fn block_skips_rest_at_idx(&self, txn_idx: TxnIndex) -> (r: bool)
        requires
            self.wf(),
            txn_idx < self.num_txns(),
        ensures
            r == (self@.outputs[txn_idx as int] matches Some(ExecutionStatus::SkipRest(_))),
    {
        match &self.outputs[txn_idx as usize] {
            Some(a) => match a.output_status() {
                ExecutionStatus::SkipRest(_) => true,
                _ => false,
            },
            None => false,
        }
    }

    /// Turns the successful output of `txn_idx` into one that skips the
    /// rest of the batch.
    pub fn update_to_skip_rest(&mut self, txn_idx: TxnIndex) -> (r: Result<(), LedgerError>)
        requires
            old(self).wf(),
            txn_idx < old(self).num_txns(),
        ensures
            final(self).wf(),
            match old(self)@.outputs[txn_idx as int] {
                Some(ExecutionStatus::Success(w)) => r is Ok && final(self)@ == (LedgerView {
                    outputs: old(self)@.outputs.update(txn_idx as int, Some(ExecutionStatus::SkipRest(w))),
                    ..old(self)@
                }),
                _ => r == Err::<(), LedgerError>(LedgerError::NotSuccess) && final(self)@ == old(self)@,
            },
    {
        let i = txn_idx as usize;
        let skipped = match &self.outputs[i] {
            Some(a) => match a.output_status() {
                ExecutionStatus::Success(t) => Some(t.duplicate()),
                _ => None,
            },
            None => None,
        };
        match skipped {
            Some(t) => {
                let ghost w = t@;
                self.outputs[i] = Some(Arc::new(TxnOutput::from_output_status(ExecutionStatus::SkipRest(t))));
                proof {
                    assert(self@.outputs =~= old(self)@.outputs.update(txn_idx as int, Some(ExecutionStatus::SkipRest(w))));
                    assert(self@.inputs =~= old(self)@.inputs);
                }
                Ok(())
            },
            None => Err(LedgerError::NotSuccess),
        }
    }

    /// The keys that the recorded output of `txn_idx` writes; none where
    /// there is no output or it aborted.
    pub fn modified_keys(&self, txn_idx: TxnIndex) -> (r: Option<Vec<StorageKey>>)
        requires
            self.wf(),
            txn_idx < self.num_txns(),
        ensures
            match self@.outputs[txn_idx as int] {
                Some(ExecutionStatus::Success(w)) | Some(ExecutionStatus::SkipRest(w)) => r matches Some(keys) && keys@.len() == w.len()
                    && (forall|i: int| 0 <= i < w.len() ==> #[trigger] keys@[i]@ == w[i].0)
                    && forall|i: int, j: int| 0 <= i < j < keys@.len() ==> #[trigger] keys@[i]@ != #[trigger] keys@[j]@,
                _ => r is None,
            },
    {
        match &self.outputs[txn_idx as usize] {
            Some(a) => match a.output_status() {
                ExecutionStatus::Success(t) => Some(t.keys()),
                ExecutionStatus::SkipRest(t) => Some(t.keys()),
                ExecutionStatus::Abort => None,
            },
            None => None,
        }
    }

    /// Hands out the recorded output of `txn_idx` and empties its slot, once
    /// no other holder of that output is left.
    pub fn take_output(&mut self, txn_idx: TxnIndex) -> (r: Result<ExecutionStatus<TransactionOutput>, LedgerError>)
        requires
            old(self).wf(),
            txn_idx < old(self).num_txns(),
        ensures
            final(self).wf(),
            match old(self)@.outputs[txn_idx as int] {
                None => r == Err::<ExecutionStatus<TransactionOutput>, LedgerError>(LedgerError::NoOutput)
                    && final(self)@ == old(self)@,
                Some(o) => match r {
                    Ok(status) => status@ == o && final(self)@ == (LedgerView {
                        outputs: old(self)@.outputs.update(txn_idx as int, None),
                        ..old(self)@
                    }),
                    Err(e) => e == LedgerError::OutputShared && final(self)@ == old(self)@,
                },
            },
    {
        let i = txn_idx as usize;
        if self.outputs[i].is_none() {
            return Err(LedgerError::NoOutput);
        }
        let slot = self.outputs[i].take();
        let a = slot.unwrap();
        match unwrap_unique(a) {
            Ok(out) => {
                proof {
                    assert(self@.outputs =~= old(self)@.outputs.update(txn_idx as int, None));
                    assert(self@.inputs =~= old(self)@.inputs);
                }
                Ok(out.into_output_status())
            },
            Err(a) => {
                self.outputs[i] = Some(a);
                proof {
                    assert(self@.outputs =~= old(self)@.outputs);
                }
                Err(LedgerError::OutputShared)
            },
        }
    }

    /// Records that a module path was both read and written in the batch,
    /// which the batch can only run sequentially.
    pub fn mark_module_read_write_intersection(&mut self)
        ensures
            final(self)@ == (LedgerView { module_read_write_intersection: true, ..old(self)@ }),
            final(self).wf() == old(self).wf(),
    {
        self.module_read_write_intersection = true;
    }

    pub fn module_read_write_intersection(&self) -> (r: bool)
        ensures
            r == self@.module_read_write_intersection,
    {
        self.module_read_write_intersection
    }
    /// Takes the outputs of the batch in order and returns what each
    /// writes, up to and including the first that skips the rest of the
    /// batch. An error means an output is missing or still shared, which
    /// only a misuse causes; the slots read so far are then emptied.
    pub fn take_committed_write_sets(&mut self) -> (r: Result<Vec<Vec<(StorageKey, StorageValue)>>, LedgerError>)
        requires
            old(self).wf(),
            old(self).num_txns() <= u32::MAX,
        ensures
            final(self).wf(),
            r matches Ok(ws) ==> {
                let outs = old(self)@.outputs;
                let k = ws@.len();
                &&& k <= outs.len()
                &&& (k == outs.len() || (k > 0 && outs[k - 1] matches Some(ExecutionStatus::SkipRest(_))))
                &&& forall|i: int| 0 <= i < k ==> #[trigger] outs[i] is Some && pairs_of(ws@[i]@) == committed_writes(outs[i].unwrap())
                &&& forall|i: int| 0 <= i < k - 1 ==> !(#[trigger] outs[i] matches Some(ExecutionStatus::SkipRest(_)))
            },
            old(self)@.outputs.len() == 0 ==> (r matches Ok(ws) && ws@.len() == 0),
            missing_before_skip(old(self)@.outputs) ==> r is Err,
            !missing_before_skip(old(self)@.outputs) ==> !(r matches Err(LedgerError::NoOutput)),
    {
        let ghost outs = self@.outputs;
        let n = self.outputs.len();
        let mut ws: Vec<Vec<(StorageKey, StorageValue)>> = Vec::new();
        let mut i: usize = 0;
        while i < n
            invariant
                self.wf(),
                n == self.outputs.len(),
                n == outs.len(),
                outs == old(self)@.outputs,
                n <= u32::MAX,
                i <= n,
                ws@.len() == i,
                forall|j: int| i <= j < n ==> #[trigger] self@.outputs[j] == outs[j],
                forall|j: int| 0 <= j < i ==> #[trigger] outs[j] is Some && pairs_of(ws@[j]@) == committed_writes(outs[j].unwrap()),
                forall|j: int| 0 <= j < i ==> !(#[trigger] outs[j] matches Some(ExecutionStatus::SkipRest(_))),
            decreases n - i,
        {
            let ghost before = self@;
            let taken = self.take_output(i as TxnIndex);
            proof {
                assert(before.outputs[i as int] == outs[i as int]);
                assert forall|j: int| i < j < n implies #[trigger] self@.outputs[j] == outs[j] by {
                    assert(self@.outputs[j] == before.outputs[j]);
                }
            }
            match taken {
                Ok(status) => {
                    let (w, skip) = match status {
                        ExecutionStatus::Success(t) => (t.into_writes(), false),
                        ExecutionStatus::SkipRest(t) => (t.into_writes(), true),
                        ExecutionStatus::Abort => (Vec::new(), false),
                    };
                    proof {
                        assert(pairs_of(w@) =~= committed_writes(outs[i as int].unwrap()));
                        assert(skip ==> outs[i as int] matches Some(ExecutionStatus::SkipRest(_)));
                        assert(!skip ==> !(outs[i as int] matches Some(ExecutionStatus::SkipRest(_))));
                    }
                    ws.push(w);
                    i += 1;
                    if skip {
                        proof {
                            assert forall|x: int| 0 <= x < n && #[trigger] outs[x] is None implies !runs_on_to(outs, x) by {
                                assert(x > i - 1);
                                assert(outs[i - 1] matches Some(ExecutionStatus::SkipRest(_)));
                            }
                        }
                        return Ok(ws);
                    }
                },
                Err(e) => {
                    proof {
                        if e == LedgerError::NoOutput {
                            assert(outs[i as int] is None);
                            assert(runs_on_to(outs, i as int));
                        }
                    }
                    return Err(e);
                },
            }
        }
        proof {
            assert forall|x: int| 0 <= x < n implies !(#[trigger] outs[x] is None) by {}
        }
        Ok(ws)
    }
}

} // verus!
