use vstd::prelude::*;

use crate::types::{same_key, FetchView, MVDataOutput, StorageKey, StorageValue, TxnIndex, Version};
use crate::versioned_data::{spec_fetch, StoreView, VersionedData};

verus! {

/// How much a read learned of a key: whether it exists, or its whole value.
/// A value read implies an existence read.
#[derive(Clone, Copy, Debug, PartialEq, Eq, Structural)]
pub enum ReadKind {
    Exists,
    Value,
}

pub open spec fn kind_rank(k: ReadKind) -> int {
    match k {
        ReadKind::Exists => 0,
        ReadKind::Value => 1,
    }
}

/// What a transaction learned from one read, to be checked at validation.
#[derive(Debug)]
pub enum DataRead {
    /// The value of a given version; two such reads agree when their
    /// versions are equal.
    Versioned(Version, StorageValue),
    Exists(bool),
}

/// A read as the contracts see it.
pub enum ReadView {
    Versioned(Version, Seq<u8>),
    Exists(bool),
}

impl View for DataRead {
    type V = ReadView;

    open spec fn view(&self) -> ReadView {
        match self {
            DataRead::Versioned(v, data) => ReadView::Versioned(*v, data@),
            DataRead::Exists(b) => ReadView::Exists(*b),
        }
    }
}

/// The result of comparing a read with another.
#[derive(Clone, Copy, Debug, PartialEq, Eq, Structural)]
pub enum DataReadComparison {
    /// The first holds all the second says, and agrees with it.
    Contains,
    /// The first holds all the second says, and disagrees with it.
    Inconsistent,
    /// The first says less than the second.
    Insufficient,
}

pub open spec fn kind_of(r: ReadView) -> ReadKind {
    match r {
        ReadView::Versioned(_, _) => ReadKind::Value,
        ReadView::Exists(_) => ReadKind::Exists,
    }
}

/// The read `r` reduced to kind `k`, where `r` says at least that much.
pub open spec fn downcast_spec(r: ReadView, k: ReadKind) -> Option<ReadView> {
    if kind_of(r) == k {
        Some(r)
    } else if kind_rank(kind_of(r)) > kind_rank(k) {
        Some(ReadView::Exists(true))
    } else {
        None
    }
}

/// Two reads of one kind agree: on the version for a value read, and on the
/// answer for an existence read.
pub open spec fn reads_agree(a: ReadView, b: ReadView) -> bool {
    match (a, b) {
        (ReadView::Versioned(va, _), ReadView::Versioned(vb, _)) => va == vb,
        (ReadView::Exists(ea), ReadView::Exists(eb)) => ea == eb,
        _ => false,
    }
}

pub open spec fn compare_spec(a: ReadView, b: ReadView) -> DataReadComparison {
    if kind_rank(kind_of(a)) < kind_rank(kind_of(b)) {
        DataReadComparison::Insufficient
    } else if reads_agree(downcast_spec(a, kind_of(b)).unwrap(), b) {
        DataReadComparison::Contains
    } else {
        DataReadComparison::Inconsistent
    }
}

fn version_eq(a: &Version, b: &Version) -> (r: bool)
    ensures
        r == (*a == *b),
{
    match (a, b) {
        (Ok(x), Ok(y)) => x.0 == y.0 && x.1 == y.1,
        (Err(x), Err(y)) => {
            proof {
                assert(*x == *y);
            }
            true
        },
        _ => false,
    }
}

impl DataRead {
    pub fn get_kind(&self) -> (k: ReadKind)
        ensures
            k == kind_of(self@),
    {
        match self {
            DataRead::Versioned(_, _) => ReadKind::Value,
            DataRead::Exists(_) => ReadKind::Exists,
        }
    }

    /// Extracts from this read one of kind `kind`, where it says enough.
    pub fn downcast(&self, kind: ReadKind) -> (r: Option<DataRead>)
        ensures
            r is Some == downcast_spec(self@, kind) is Some,
            r matches Some(d) ==> d@ == downcast_spec(self@, kind).unwrap(),
    {
        match (self, kind) {
            (DataRead::Versioned(v, data), ReadKind::Value) => Some(DataRead::Versioned(*v, data.clone())),
            (DataRead::Versioned(_, _), ReadKind::Exists) => Some(DataRead::Exists(true)),
            (DataRead::Exists(b), ReadKind::Exists) => Some(DataRead::Exists(*b)),
            (DataRead::Exists(_), ReadKind::Value) => None,
        }
    }

    fn agrees(&self, other: &DataRead) -> (r: bool)
        ensures
            r == reads_agree(self@, other@),
    {
        match (self, other) {
            (DataRead::Versioned(a, _), DataRead::Versioned(b, _)) => version_eq(a, b),
            (DataRead::Exists(a), DataRead::Exists(b)) => *a == *b,
            _ => false,
        }
    }

    /// Whether this read holds what `other` says, and agrees with it.
    pub fn contains(&self, other: &DataRead) -> (r: DataReadComparison)
        ensures
            r == compare_spec(self@, other@),
    {
        let self_kind = self.get_kind();
        let other_kind = other.get_kind();
        let less = match (self_kind, other_kind) {
            (ReadKind::Exists, ReadKind::Value) => true,
            _ => false,
        };
        if less {
            return DataReadComparison::Insufficient;
        }
        let same = match self.downcast(other_kind) {
            Some(d) => d.agrees(other),
            None => false,
        };
        if same {
            DataReadComparison::Contains
        } else {
            DataReadComparison::Inconsistent
        }
    }
}

/// Why a read could not be captured.
#[derive(Clone, Copy, Debug, PartialEq, Eq, Structural)]
pub enum CaptureError {
    /// The caller captured a read that says no more than the one already
    /// held for the key, which it should have reused.
    IncorrectUse,
    /// The read disagrees with the one already held for the key: the
    /// transaction saw inconsistent speculative state.
    Inconsistency,
}

/// A read-set as the contracts see it.
pub struct CapturedView {
    pub reads: Map<Seq<u8>, ReadView>,
    pub speculative_failure: bool,
    pub incorrect_use: bool,
}

/// The read-set after capturing `read` of `key`, and what the capture returns.
pub open spec fn spec_capture(v: CapturedView, key: Seq<u8>, read: ReadView) -> (CapturedView, Result<(), CaptureError>) {
    if !v.reads.contains_key(key) {
        (
            CapturedView {
                reads: v.reads.insert(key, read),
                speculative_failure: v.speculative_failure,
                incorrect_use: v.incorrect_use,
            },
            Ok(()),
        )
    } else if kind_rank(kind_of(read)) <= kind_rank(kind_of(v.reads[key])) {
        (
            CapturedView { reads: v.reads, speculative_failure: v.speculative_failure, incorrect_use: true },
            Err(CaptureError::IncorrectUse),
        )
    } else if compare_spec(read, v.reads[key]) == DataReadComparison::Contains {
        (
            CapturedView {
                reads: v.reads.insert(key, read),
                speculative_failure: v.speculative_failure,
                incorrect_use: v.incorrect_use,
            },
            Ok(()),
        )
    } else {
        (
            CapturedView { reads: v.reads, speculative_failure: true, incorrect_use: v.incorrect_use },
            Err(CaptureError::Inconsistency),
        )
    }
}

/// A captured read still holds when the store now gives a value whose read
/// contains it.
pub open spec fn read_holds(fresh: FetchView, captured: ReadView) -> bool {
    match fresh {
        Ok((version, data)) => compare_spec(ReadView::Versioned(version, data), captured)
            == DataReadComparison::Contains,
        Err(_) => false,
    }
}

/// Validation of a read-set against the store, for transaction `idx`.
pub open spec fn valid_spec(v: CapturedView, store: StoreView, idx: TxnIndex) -> bool {
    &&& !v.speculative_failure
    &&& forall|k: Seq<u8>| #[trigger] v.reads.contains_key(k) ==> read_holds(spec_fetch(store, k, idx), v.reads[k])
}

/// Within one execution, capturing a read of a key whose held read is of
/// the same or a higher kind is refused as a misuse, leaves the reads as
/// they were, and flags the read-set.
pub proof fn lemma_capture_rejects_no_richer_read(v: CapturedView, key: Seq<u8>, read: ReadView)
    requires
        v.reads.contains_key(key),
        kind_rank(kind_of(read)) <= kind_rank(kind_of(v.reads[key])),
    ensures
        spec_capture(v, key, read).1 == Err::<(), CaptureError>(CaptureError::IncorrectUse),
        spec_capture(v, key, read).0.reads == v.reads,
        spec_capture(v, key, read).0.incorrect_use,
{
}

/// One read per key in `l`, and `m` the map that `l` lists.
spec fn list_wf(l: Seq<(StorageKey, DataRead)>, m: Map<Seq<u8>, ReadView>) -> bool {
    &&& forall|i: int, j: int| 0 <= i < j < l.len() ==> #[trigger] l[i].0@ != #[trigger] l[j].0@
    &&& forall|i: int|
        0 <= i < l.len() ==> {
            &&& m.contains_key(#[trigger] l[i].0@)
            &&& m[l[i].0@] == l[i].1@
        }
    &&& forall|k: Seq<u8>| #[trigger] m.contains_key(k) ==> exists|i: int| 0 <= i < l.len() && #[trigger] l[i].0@ == k
}

/// The read-set of one execution attempt of a transaction: per key, the
/// most informative read it made, plus flags for speculative failures and
/// for misuse.
pub struct CapturedReads {
    data_reads: Vec<(StorageKey, DataRead)>,
    reads: Ghost<Map<Seq<u8>, ReadView>>,
    speculative_failure: bool,
    incorrect_use: bool,
}

impl View for CapturedReads {
    type V = CapturedView;

    closed spec fn view(&self) -> CapturedView {
        CapturedView {
            reads: self.reads@,
            speculative_failure: self.speculative_failure,
            incorrect_use: self.incorrect_use,
        }
    }
}

impl CapturedReads {
    /// One read per key, and the ghost map in step with the list.
    pub closed spec fn wf(&self) -> bool {
        list_wf(self.data_reads@, self.reads@)
    }

    pub fn new() -> (c: CapturedReads)
        ensures
            c.wf(),
            c@.reads == Map::<Seq<u8>, ReadView>::empty(),
            !c@.speculative_failure,
            !c@.incorrect_use,
    {
        CapturedReads {
            data_reads: Vec::new(),
            reads: Ghost(Map::empty()),
            speculative_failure: false,
            incorrect_use: false,
        }
    }

    /// The position of `key` in the list, if it is there.
    fn find(&self, key: &StorageKey) -> (r: Option<usize>)
        requires
            self.wf(),
        ensures
            r is Some == self@.reads.contains_key(key@),
            r matches Some(i) ==> i < self.data_reads.len() && self.data_reads[i as int].0@ == key@,
    {
        let mut i: usize = 0;
        while i < self.data_reads.len()
            invariant
                self.wf(),
                i <= self.data_reads.len(),
                forall|j: int| 0 <= j < i ==> #[trigger] self.data_reads[j].0@ != key@,
            decreases self.data_reads.len() - i,
        {
            if same_key(&self.data_reads[i].0, key) {
                return Some(i);
            }
            i += 1;
        }
        None
    }

    pub fn is_speculative_failure(&self) -> (r: bool)
        ensures
            r == self@.speculative_failure,
    {
        self.speculative_failure
    }

    pub fn is_incorrect_use(&self) -> (r: bool)
        ensures
            r == self@.incorrect_use,
    {
        self.incorrect_use
    }

    /// Records a speculative failure that arose outside the reads, such as
    /// a failed resolution of an aggregate.
    pub fn mark_failure(&mut self)
        requires
            old(self).wf(),
        ensures
            final(self).wf(),
            final(self)@ == (CapturedView {
                reads: old(self)@.reads,
                speculative_failure: true,
                incorrect_use: old(self)@.incorrect_use,
            }),
    {
        self.speculative_failure = true;
    }
    /// Records `read` of `state_key`, keeping for each key the most
    /// informative read. A read that says no more than the one held is a
    /// misuse; one that disagrees with it is a speculative failure.
    pub fn capture_read(&mut self, state_key: StorageKey, read: DataRead) -> (r: Result<(), CaptureError>)
        requires
            old(self).wf(),
        ensures
            final(self).wf(),
            (final(self)@, r) == spec_capture(old(self)@, state_key@, read@),
    {
        let ghost k = state_key@;
        let ghost rv = read@;
        let ghost old_list = self.data_reads@;
        match self.find(&state_key) {
            None => {
                self.data_reads.push((state_key, read));
                self.reads = Ghost(self.reads@.insert(k, rv));
                proof {
                    let l = self.data_reads@;
                    assert forall|i: int| 0 <= i < old_list.len() implies #[trigger] l[i] == old_list[i] by {}
                    assert(l[old_list.len() as int].0@ == k);
                    assert forall|x: Seq<u8>| #[trigger] self.reads@.contains_key(x) implies exists|i: int|
                        0 <= i < l.len() && #[trigger] l[i].0@ == x by {
                        if x != k {
                            let w = choose|w: int| 0 <= w < old_list.len() && #[trigger] old_list[w].0@ == x;
                            assert(l[w].0@ == x);
                        }
                    }
                }
                Ok(())
            },
            Some(i) => {
                let existing_kind = self.data_reads[i].1.get_kind();
                let new_kind = read.get_kind();
                let says_more = match (new_kind, existing_kind) {
                    (ReadKind::Value, ReadKind::Exists) => true,
                    _ => false,
                };
                if !says_more {
                    self.incorrect_use = true;
                    return Err(CaptureError::IncorrectUse);
                }
                if read.contains(&self.data_reads[i].1) == DataReadComparison::Contains {
                    self.data_reads[i] = (state_key, read);
                    self.reads = Ghost(self.reads@.insert(k, rv));
                    proof {
                        let l = self.data_reads@;
                        assert forall|j: int| 0 <= j < l.len() && j != i implies #[trigger] l[j] == old_list[j] by {}
                        assert forall|a: int, b: int| 0 <= a < b < l.len() implies #[trigger] l[a].0@
                            != #[trigger] l[b].0@ by {
                            assert(old_list[a].0@ != old_list[b].0@);
                        }
                        assert forall|x: Seq<u8>| #[trigger] self.reads@.contains_key(x) implies exists|j: int|
                            0 <= j < l.len() && #[trigger] l[j].0@ == x by {
                            if x != k {
                                let w = choose|w: int| 0 <= w < old_list.len() && #[trigger] old_list[w].0@ == x;
                                assert(l[w].0@ == x);
                            } else {
                                assert(l[i as int].0@ == x);
                            }
                        }
                        assert forall|j: int| 0 <= j < l.len() implies {
                            &&& self.reads@.contains_key(#[trigger] l[j].0@)
                            &&& self.reads@[l[j].0@] == l[j].1@
                        } by {
                            if j != i {
                                assert(old_list[j].0@ != old_list[i as int].0@);
                            }
                        }
                    }
                    Ok(())
                } else {
                    self.speculative_failure = true;
                    Err(CaptureError::Inconsistency)
                }
            },
        }
    }

    /// The read held for `state_key`, reduced to `kind`, where it says that
    /// much.
    pub fn get_by_kind(&self, state_key: &StorageKey, kind: ReadKind) -> (r: Option<DataRead>)
        requires
            self.wf(),
        ensures
            r is Some == (self@.reads.contains_key(state_key@) && downcast_spec(self@.reads[state_key@], kind) is Some),
            r matches Some(d) ==> d@ == downcast_spec(self@.reads[state_key@], kind).unwrap(),
    {
        match self.find(state_key) {
            Some(i) => self.data_reads[i].1.downcast(kind),
            None => None,
        }
    }

    /// Whether every captured read still holds in `data_map` for transaction
    /// `idx_to_validate`, with no speculative failure recorded.
    pub fn validate_data_reads(&self, data_map: &VersionedData, idx_to_validate: TxnIndex) -> (r: bool)
        requires
            self.wf(),
        ensures
            r == valid_spec(self@, data_map@, idx_to_validate),
    {
        if self.speculative_failure {
            return false;
        }
        let mut i: usize = 0;
        while i < self.data_reads.len()
            invariant
                self.wf(),
                !self.speculative_failure,
                i <= self.data_reads.len(),
                forall|j: int|
                    0 <= j < i ==> read_holds(
                        spec_fetch(data_map@, #[trigger] self.data_reads[j].0@, idx_to_validate),
                        self.data_reads[j].1@,
                    ),
            decreases self.data_reads.len() - i,
        {
            let (key, captured) = (&self.data_reads[i].0, &self.data_reads[i].1);
            let holds = match data_map.fetch_data(key, idx_to_validate) {
                Ok(MVDataOutput::Versioned(version, v)) => DataRead::Versioned(version, v).contains(captured)
                    == DataReadComparison::Contains,
                Err(_) => false,
            };
            if !holds {
                proof {
                    assert(self@.reads.contains_key(self.data_reads[i as int].0@));
                }
                return false;
            }
            i += 1;
        }
        proof {
            assert forall|k: Seq<u8>| #[trigger] self@.reads.contains_key(k) implies read_holds(
                spec_fetch(data_map@, k, idx_to_validate),
                self@.reads[k],
            ) by {
                let w = choose|w: int| 0 <= w < self.data_reads.len() && #[trigger] self.data_reads[w].0@ == k;
                assert(read_holds(spec_fetch(data_map@, self.data_reads[w].0@, idx_to_validate), self.data_reads[w].1@));
            }
        }
        true
    }
}

} // verus!
