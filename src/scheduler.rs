use vstd::prelude::*;

use crate::types::{Incarnation, TxnIndex};

verus! {

/// Where a transaction stands in the optimistic execution protocol.
#[derive(Clone, Copy, Debug, PartialEq, Eq, Structural)]
pub enum TxnStatus {
    PendingExecution,
    Executing,
    PendingValidation,
    Validating,
    /// Validated, and kept so until a lower transaction changes what it
    /// may have read.
    Committed,
}

/// Work handed to a worker.
#[derive(Clone, Copy, Debug, PartialEq, Eq, Structural)]
pub enum SchedulerTask {
    ExecutionTask(TxnIndex, Incarnation),
    ValidationTask(TxnIndex, Incarnation),
    /// Nothing to hand out now, but the batch is not finished.
    Wait,
    /// Every transaction is committed, or execution was halted.
    Done,
}

/// The answer to a transaction that found an estimate of another.
#[derive(Clone, Copy, Debug, PartialEq, Eq, Structural)]
pub enum DependencyResult {
    /// The dependency has finished executing: read again.
    Resolved,
    /// The dependency is pending or executing: wait for it.
    Dependency,
    ExecutionHalted,
}

/// Why the scheduler refused a report: each is a misuse by the caller,
/// but the last, which ends parallel execution of the batch.
#[derive(Clone, Copy, Debug, PartialEq, Eq, Structural)]
pub enum SchedulerError {
    /// No such transaction.
    OutOfRange,
    /// The transaction is not in the state that the report finishes.
    WrongStatus,
    /// The transaction cannot be executed once more.
    IncarnationLimit,
}

/// The scheduler as the contracts see it.
pub struct SchedulerView {
    pub status: Seq<TxnStatus>,
    pub incarnations: Seq<Incarnation>,
    /// Set on a transaction under validation when a lower transaction
    /// changed in a way that the running validation may have missed.
    pub stale: Seq<bool>,
    pub halted: bool,
}

/// `i` is the lowest index with status `st`.
pub open spec fn is_first(s: Seq<TxnStatus>, st: TxnStatus, i: int) -> bool {
    &&& 0 <= i < s.len()
    &&& s[i] == st
    &&& forall|j: int| 0 <= j < i ==> s[j] != st
}

pub open spec fn has_status(s: Seq<TxnStatus>, st: TxnStatus) -> bool {
    exists|i: int| 0 <= i < s.len() && s[i] == st
}

pub open spec fn first_with(s: Seq<TxnStatus>, st: TxnStatus) -> int {
    choose|i: int| is_first(s, st, i)
}

pub open spec fn all_committed(s: Seq<TxnStatus>) -> bool {
    forall|i: int| 0 <= i < s.len() ==> s[i] == TxnStatus::Committed
}

pub proof fn lemma_first_unique(s: Seq<TxnStatus>, st: TxnStatus, i: int)
    requires
        is_first(s, st, i),
    ensures
        first_with(s, st) == i,
{
    let k = first_with(s, st);
    if k < i {
        assert(s[k] != st);
    } else if i < k {
        assert(s[i] != st);
    }
}

/// The task that the scheduler hands out, and its state afterwards: the
/// lowest transaction awaiting validation, else the lowest awaiting
/// execution.
pub open spec fn spec_next_task(v: SchedulerView) -> (SchedulerView, SchedulerTask) {
    if v.halted {
        (v, SchedulerTask::Done)
    } else if has_status(v.status, TxnStatus::PendingValidation) {
        let i = first_with(v.status, TxnStatus::PendingValidation);
        (
            SchedulerView { status: v.status.update(i, TxnStatus::Validating), ..v },
            SchedulerTask::ValidationTask(i as TxnIndex, v.incarnations[i]),
        )
    } else if has_status(v.status, TxnStatus::PendingExecution) {
        let i = first_with(v.status, TxnStatus::PendingExecution);
        (
            SchedulerView { status: v.status.update(i, TxnStatus::Executing), ..v },
            SchedulerTask::ExecutionTask(i as TxnIndex, v.incarnations[i]),
        )
    } else if all_committed(v.status) {
        (v, SchedulerTask::Done)
    } else {
        (v, SchedulerTask::Wait)
    }
}

/// Transactions above `idx` must be validated again: committed ones return
/// to pending validation, and running validations are marked stale.
pub open spec fn revalidate_above(v: SchedulerView, idx: int) -> SchedulerView {
    SchedulerView {
        status: Seq::new(
            v.status.len(),
            |j: int|
                if j > idx && v.status[j] == TxnStatus::Committed {
                    TxnStatus::PendingValidation
                } else {
                    v.status[j]
                },
        ),
        stale: Seq::new(
            v.stale.len(),
            |j: int|
                if j > idx && v.status[j] == TxnStatus::Validating {
                    true
                } else {
                    v.stale[j]
                },
        ),
        ..v
    }
}

/// The scheduler after `idx` finished executing, having written (or not)
/// a key that its previous incarnation did not write.
pub open spec fn spec_finish_execution(v: SchedulerView, idx: TxnIndex, wrote_new_location: bool) -> Result<
    SchedulerView,
    SchedulerError,
> {
    if idx >= v.status.len() {
        Err(SchedulerError::OutOfRange)
    } else if v.status[idx as int] != TxnStatus::Executing {
        Err(SchedulerError::WrongStatus)
    } else {
        let w = SchedulerView { status: v.status.update(idx as int, TxnStatus::PendingValidation), ..v };
        if wrote_new_location {
            Ok(revalidate_above(w, idx as int))
        } else {
            Ok(w)
        }
    }
}

/// The scheduler after the validation of `idx` ended with `valid`: commit;
/// validate again if it went stale; or, on failure, execute once more with
/// the next incarnation and validate the transactions above again.
pub open spec fn spec_finish_validation(v: SchedulerView, idx: TxnIndex, valid: bool) -> Result<
    SchedulerView,
    SchedulerError,
> {
    if idx >= v.status.len() {
        Err(SchedulerError::OutOfRange)
    } else if v.status[idx as int] != TxnStatus::Validating {
        Err(SchedulerError::WrongStatus)
    } else if valid && !v.stale[idx as int] {
        Ok(SchedulerView { status: v.status.update(idx as int, TxnStatus::Committed), ..v })
    } else if valid {
        Ok(
            SchedulerView {
                status: v.status.update(idx as int, TxnStatus::PendingValidation),
                stale: v.stale.update(idx as int, false),
                ..v
            },
        )
    } else if v.incarnations[idx as int] == u32::MAX {
        Err(SchedulerError::IncarnationLimit)
    } else {
        Ok(
            revalidate_above(
                SchedulerView {
                    status: v.status.update(idx as int, TxnStatus::PendingExecution),
                    incarnations: v.incarnations.update(idx as int, (v.incarnations[idx as int] + 1) as Incarnation),
                    stale: v.stale.update(idx as int, false),
                    halted: v.halted,
                },
                idx as int,
            ),
        )
    }
}

/// What a transaction waiting on `dep_idx` is told.
pub open spec fn spec_dependency(v: SchedulerView, dep_idx: TxnIndex) -> DependencyResult {
    if v.halted {
        DependencyResult::ExecutionHalted
    } else if v.status[dep_idx as int] == TxnStatus::PendingExecution || v.status[dep_idx as int]
        == TxnStatus::Executing {
        DependencyResult::Dependency
    } else {
        DependencyResult::Resolved
    }
}

pub open spec fn is_running(st: TxnStatus) -> bool {
    st == TxnStatus::Executing || st == TxnStatus::Validating
}

/// The scheduler hands a task for a transaction out only when the
/// transaction awaits it, and marks it running; a running transaction is
/// never handed out, nor changed by handing out other tasks.
pub proof fn lemma_next_task_exclusive(v: SchedulerView)
    requires
        view_wf(v),
    ensures
        ({
            let (w, task) = spec_next_task(v);
            &&& view_wf(w)
            &&& (task matches SchedulerTask::ExecutionTask(i, inc) ==> i < v.status.len()
                && v.status[i as int] == TxnStatus::PendingExecution && w.status[i as int] == TxnStatus::Executing
                && inc == v.incarnations[i as int])
            &&& (task matches SchedulerTask::ValidationTask(i, inc) ==> i < v.status.len()
                && v.status[i as int] == TxnStatus::PendingValidation && w.status[i as int] == TxnStatus::Validating
                && inc == v.incarnations[i as int])
            &&& forall|j: int| 0 <= j < v.status.len() && is_running(#[trigger] v.status[j]) ==> w.status[j] == v.status[j]
        }),
{
    if !v.halted && has_status(v.status, TxnStatus::PendingValidation) {
        let k = choose|k: int| 0 <= k < v.status.len() && v.status[k] == TxnStatus::PendingValidation;
        lemma_has_first(v.status, TxnStatus::PendingValidation, k);
    } else if !v.halted && has_status(v.status, TxnStatus::PendingExecution) {
        let k = choose|k: int| 0 <= k < v.status.len() && v.status[k] == TxnStatus::PendingExecution;
        lemma_has_first(v.status, TxnStatus::PendingExecution, k);
    }
}

/// Where some index holds `st`, a lowest such index exists.
pub proof fn lemma_has_first(s: Seq<TxnStatus>, st: TxnStatus, k: int)
    requires
        0 <= k < s.len(),
        s[k] == st,
    ensures
        is_first(s, st, first_with(s, st)),
    decreases k,
{
    if exists|j: int| 0 <= j < k && s[j] == st {
        let j = choose|j: int| 0 <= j < k && s[j] == st;
        lemma_has_first(s, st, j);
    } else {
        assert(is_first(s, st, k));
    }
}

/// A running transaction stays running, with its incarnation, whatever
/// another transaction reports: only the report on its own task ends it.
pub proof fn lemma_running_stays_running(v: SchedulerView, i: int, j: TxnIndex, flag: bool)
    requires
        view_wf(v),
        0 <= i < v.status.len(),
        is_running(v.status[i]),
        j != i,
    ensures
        spec_finish_execution(v, j, flag) matches Ok(w) ==> w.status[i] == v.status[i] && w.incarnations[i]
            == v.incarnations[i],
        spec_finish_validation(v, j, flag) matches Ok(w) ==> w.status[i] == v.status[i] && w.incarnations[i]
            == v.incarnations[i],
{
}

/// Hands out execution and validation work for a batch of transactions and
/// tracks, per transaction, its status and incarnation.
pub struct Scheduler {
    status: Vec<TxnStatus>,
    incarnations: Vec<Incarnation>,
    stale: Vec<bool>,
    halted: bool,
}

impl View for Scheduler {
    type V = SchedulerView;

    closed spec fn view(&self) -> SchedulerView {
        SchedulerView {
            status: self.status@,
            incarnations: self.incarnations@,
            stale: self.stale@,
            halted: self.halted,
        }
    }
}

/// Per-transaction sequences of one length, which indices of the batch
/// can address.
pub open spec fn view_wf(v: SchedulerView) -> bool {
    &&& v.incarnations.len() == v.status.len()
    &&& v.stale.len() == v.status.len()
    &&& v.status.len() <= u32::MAX
}

impl Scheduler {
    pub open spec fn wf(&self) -> bool {
        view_wf(self@)
    }

    pub fn new(num_txns: TxnIndex) -> (s: Scheduler)
        ensures
            s.wf(),
            s@.status == Seq::new(num_txns as nat, |i: int| TxnStatus::PendingExecution),
            s@.incarnations == Seq::new(num_txns as nat, |i: int| 0 as Incarnation),
            s@.stale == Seq::new(num_txns as nat, |i: int| false),
            !s@.halted,
    {
        let mut status: Vec<TxnStatus> = Vec::new();
        let mut incarnations: Vec<Incarnation> = Vec::new();
        let mut stale: Vec<bool> = Vec::new();
        let mut i: TxnIndex = 0;
        while i < num_txns
            invariant
                i <= num_txns,
                status@ == Seq::new(i as nat, |j: int| TxnStatus::PendingExecution),
                incarnations@ == Seq::new(i as nat, |j: int| 0 as Incarnation),
                stale@ == Seq::new(i as nat, |j: int| false),
            decreases num_txns - i,
        {
            status.push(TxnStatus::PendingExecution);
            incarnations.push(0);
            stale.push(false);
            i += 1;
            proof {
                assert(status@ =~= Seq::new(i as nat, |j: int| TxnStatus::PendingExecution));
                assert(incarnations@ =~= Seq::new(i as nat, |j: int| 0 as Incarnation));
                assert(stale@ =~= Seq::new(i as nat, |j: int| false));
            }
        }
        Scheduler { status, incarnations, stale, halted: false }
    }

    pub fn num_txns(&self) -> (n: TxnIndex)
        requires
            self.wf(),
        ensures
            n == self@.status.len(),
    {
        self.status.len() as TxnIndex
    }

    pub fn status(&self, txn_idx: TxnIndex) -> (r: Option<TxnStatus>)
        ensures
            r == (if txn_idx < self@.status.len() {
                Some(self@.status[txn_idx as int])
            } else {
                None
            }),
    {
        if (txn_idx as usize) < self.status.len() {
            Some(self.status[txn_idx as usize])
        } else {
            None
        }
    }

    pub fn incarnation(&self, txn_idx: TxnIndex) -> (r: Option<Incarnation>)
        requires
            self.wf(),
        ensures
            r == (if txn_idx < self@.status.len() {
                Some(self@.incarnations[txn_idx as int])
            } else {
                None
            }),
    {
        if (txn_idx as usize) < self.incarnations.len() {
            Some(self.incarnations[txn_idx as usize])
        } else {
            None
        }
    }

    /// The lowest index with status `st`.
    fn find_first(&self, st: TxnStatus) -> (r: Option<usize>)
        ensures
            r matches Some(i) ==> is_first(self@.status, st, i as int),
            r is None ==> !has_status(self@.status, st),
    {
        let mut i: usize = 0;
        while i < self.status.len()
            invariant
                i <= self.status.len(),
                forall|j: int| 0 <= j < i ==> self.status@[j] != st,
            decreases self.status.len() - i,
        {
            if self.status[i] == st {
                return Some(i);
            }
            i += 1;
        }
        None
    }

    fn all_committed(&self) -> (r: bool)
        ensures
            r == all_committed(self@.status),
    {
        let mut i: usize = 0;
        while i < self.status.len()
            invariant
                i <= self.status.len(),
                forall|j: int| 0 <= j < i ==> self.status@[j] == TxnStatus::Committed,
            decreases self.status.len() - i,
        {
            if self.status[i] != TxnStatus::Committed {
                return false;
            }
            i += 1;
        }
        true
    }

    /// Hands out the next task: validation of the lowest transaction that
    /// awaits it, else execution of the lowest that awaits it; else tells
    /// the worker to wait, or that the batch is done.
    pub fn next_task(&mut self) -> (r: SchedulerTask)
        requires
            old(self).wf(),
        ensures
            final(self).wf(),
            (final(self)@, r) == spec_next_task(old(self)@),
    {
        if self.halted {
            return SchedulerTask::Done;
        }
        match self.find_first(TxnStatus::PendingValidation) {
            Some(i) => {
                proof {
                    lemma_first_unique(self@.status, TxnStatus::PendingValidation, i as int);
                }
                self.status.set(i, TxnStatus::Validating);
                return SchedulerTask::ValidationTask(i as TxnIndex, self.incarnations[i]);
            },
            None => {},
        }
        match self.find_first(TxnStatus::PendingExecution) {
            Some(i) => {
                proof {
                    lemma_first_unique(self@.status, TxnStatus::PendingExecution, i as int);
                }
                self.status.set(i, TxnStatus::Executing);
                return SchedulerTask::ExecutionTask(i as TxnIndex, self.incarnations[i]);
            },
            None => {},
        }
        if self.all_committed() {
            SchedulerTask::Done
        } else {
            SchedulerTask::Wait
        }
    }

    /// Marks every transaction above `idx` for validation once more.
    fn revalidate_above(&mut self, idx: usize)
        requires
            view_wf(old(self)@),
            idx < old(self)@.status.len(),
        ensures
            final(self)@ == revalidate_above(old(self)@, idx as int),
    {
        let ghost v = self@;
        let mut j: usize = idx + 1;
        proof {
            assert(self@.status =~= Seq::new(v.status.len(), |k: int|
                if k > idx && k < j && v.status[k] == TxnStatus::Committed { TxnStatus::PendingValidation } else { v.status[k] }));
            assert(self@.stale =~= Seq::new(v.stale.len(), |k: int|
                if k > idx && k < j && v.status[k] == TxnStatus::Validating { true } else { v.stale[k] }));
        }
        while j < self.status.len()
            invariant
                view_wf(v),
                idx < j,
                j <= self.status.len(),
                self@.incarnations == v.incarnations,
                self@.halted == v.halted,
                self@.status == Seq::new(v.status.len(), |k: int|
                    if k > idx && k < j && v.status[k] == TxnStatus::Committed { TxnStatus::PendingValidation } else { v.status[k] }),
                self@.stale == Seq::new(v.stale.len(), |k: int|
                    if k > idx && k < j && v.status[k] == TxnStatus::Validating { true } else { v.stale[k] }),
            decreases self.status.len() - j,
        {
            let st = self.status[j];
            if st == TxnStatus::Committed {
                self.status.set(j, TxnStatus::PendingValidation);
            } else if st == TxnStatus::Validating {
                self.stale.set(j, true);
            }
            j += 1;
            proof {
                assert(self@.status =~= Seq::new(v.status.len(), |k: int|
                    if k > idx && k < j && v.status[k] == TxnStatus::Committed { TxnStatus::PendingValidation } else { v.status[k] }));
                assert(self@.stale =~= Seq::new(v.stale.len(), |k: int|
                    if k > idx && k < j && v.status[k] == TxnStatus::Validating { true } else { v.stale[k] }));
            }
        }
        proof {
            assert(self@.status =~= revalidate_above(v, idx as int).status);
            assert(self@.stale =~= revalidate_above(v, idx as int).stale);
        }
    }

    /// Reports that the running execution of `txn_idx` finished; the
    /// transaction then awaits validation. Where it wrote a key that its
    /// previous incarnation did not, the transactions above it are
    /// validated again.
    pub fn finish_execution(&mut self, txn_idx: TxnIndex, wrote_new_location: bool) -> (r: Result<(), SchedulerError>)
        requires
            old(self).wf(),
        ensures
            final(self).wf(),
            match spec_finish_execution(old(self)@, txn_idx, wrote_new_location) {
                Ok(w) => r is Ok && final(self)@ == w,
                Err(e) => r == Err::<(), SchedulerError>(e) && final(self)@ == old(self)@,
            },
    {
        let i = txn_idx as usize;
        if i >= self.status.len() {
            return Err(SchedulerError::OutOfRange);
        }
        if self.status[i] != TxnStatus::Executing {
            return Err(SchedulerError::WrongStatus);
        }
        self.status.set(i, TxnStatus::PendingValidation);
        if wrote_new_location {
            self.revalidate_above(i);
        }
        Ok(())
    }

    /// Reports the outcome of the running validation of `txn_idx`. A valid
    /// one commits, unless a lower transaction changed meanwhile; a failed
    /// one sends the transaction back to execution with its next
    /// incarnation, and the transactions above it to validation.
    pub fn finish_validation(&mut self, txn_idx: TxnIndex, valid: bool) -> (r: Result<(), SchedulerError>)
        requires
            old(self).wf(),
        ensures
            final(self).wf(),
            match spec_finish_validation(old(self)@, txn_idx, valid) {
                Ok(w) => r is Ok && final(self)@ == w,
                Err(e) => r == Err::<(), SchedulerError>(e) && final(self)@ == old(self)@,
            },
    {
        let i = txn_idx as usize;
        if i >= self.status.len() {
            return Err(SchedulerError::OutOfRange);
        }
        if self.status[i] != TxnStatus::Validating {
            return Err(SchedulerError::WrongStatus);
        }
        if valid {
            if self.stale[i] {
                self.status.set(i, TxnStatus::PendingValidation);
                self.stale.set(i, false);
            } else {
                self.status.set(i, TxnStatus::Committed);
            }
            return Ok(());
        }
        if self.incarnations[i] == u32::MAX {
            return Err(SchedulerError::IncarnationLimit);
        }
        self.status.set(i, TxnStatus::PendingExecution);
        let next = self.incarnations[i] + 1;
        self.incarnations.set(i, next);
        self.stale.set(i, false);
        self.revalidate_above(i);
        Ok(())
    }

    /// Whether a transaction that found an estimate of `dep_idx` must wait:
    /// it must while `dep_idx` awaits or runs its execution. A waiting
    /// thread asks again each time the scheduler changes.
    pub fn wait_for_dependency(&self, txn_idx: TxnIndex, dep_idx: TxnIndex) -> (r: DependencyResult)
        requires
            dep_idx < self@.status.len(),
        ensures
            r == spec_dependency(self@, dep_idx),
    {
        if self.halted {
            return DependencyResult::ExecutionHalted;
        }
        let st = self.status[dep_idx as usize];
        if st == TxnStatus::PendingExecution || st == TxnStatus::Executing {
            DependencyResult::Dependency
        } else {
            DependencyResult::Resolved
        }
    }

    /// Stops the parallel execution of the batch; true for the call that
    /// stopped it.
    pub fn halt(&mut self) -> (r: bool)
        ensures
            r == !old(self)@.halted,
            final(self)@ == (SchedulerView { halted: true, ..old(self)@ }),
    {
        let first = !self.halted;
        self.halted = true;
        first
    }

    pub fn is_halted(&self) -> (r: bool)
        ensures
            r == self@.halted,
    {
        self.halted
    }

    /// Whether no work is left: every transaction is committed, or the
    /// execution was halted.
    pub fn done(&self) -> (r: bool)
        ensures
            r == (self@.halted || all_committed(self@.status)),
    {
        self.halted || self.all_committed()
    }
}

} // verus!
