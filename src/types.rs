use vstd::prelude::*;

verus! {

/// Position of a transaction in the batch.
pub type TxnIndex = u32;

/// Counts the execution attempts of one transaction.
pub type Incarnation = u32;

/// Index into a key's version chain: 0 holds the pre-batch value, and
/// transaction `i` writes at `i + 1`.
pub type ShiftedTxnIndex = u64;

pub type StorageKey = Vec<u8>;

pub type StorageValue = Vec<u8>;

/// Marks a version that stands for the pre-batch storage state.
#[derive(Clone, Copy, Debug, PartialEq, Eq, Structural)]
pub struct StorageVersion;

/// Either the write of a given incarnation of a transaction, or the storage
/// state from before the batch.
pub type Version = Result<(TxnIndex, Incarnation), StorageVersion>;

/// Whether a recorded write is final for its incarnation or a placeholder
/// for a pending re-execution.
#[derive(Clone, Copy, Debug, PartialEq, Eq, Structural)]
pub enum Flag {
    Done,
    Estimate,
}

/// A successful read of the multi-version store.
#[derive(Debug)]
pub enum MVDataOutput {
    Versioned(Version, StorageValue),
}

/// A read of the multi-version store that yields no value.
#[derive(Clone, Copy, Debug, PartialEq, Eq, Structural)]
pub enum MVDataError {
    /// No write at or below the reading transaction, not even a base value.
    Uninitialized,
    /// The nearest write below is an estimate left by this transaction.
    Dependency(TxnIndex),
}

/// Mathematical form of a store read: the version and the bytes read.
pub type FetchView = Result<(Version, Seq<u8>), MVDataError>;

pub open spec fn fetch_view(r: Result<MVDataOutput, MVDataError>) -> FetchView {
    match r {
        Ok(MVDataOutput::Versioned(v, data)) => Ok((v, data@)),
        Err(e) => Err(e),
    }
}

/// Whether two keys hold the same bytes.
pub fn same_key(a: &StorageKey, b: &StorageKey) -> (r: bool)
    ensures
        r == (a@ == b@),
{
    if a.len() != b.len() {
        return false;
    }
    let mut i: usize = 0;
    while i < a.len()
        invariant
            a.len() == b.len(),
            i <= a.len(),
            forall|j: int| 0 <= j < i ==> a@[j] == b@[j],
        decreases a.len() - i,
    {
        if a[i] != b[i] {
            return false;
        }
        i += 1;
    }
    proof {
        assert(a@ =~= b@);
    }
    true
}

/// What one execution attempt of a transaction produced.
#[derive(Debug)]
pub enum ExecutionStatus<T> {
    Success(T),
    /// Success, and no later transaction of the batch may take effect.
    SkipRest(T),
    Abort,
}

} // verus!
