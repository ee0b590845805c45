use dashmap::DashMap;
use vstd::prelude::*;

use crate::txn_last_input_output::pairs_of;
use crate::types::{
    fetch_view, same_key, FetchView, Flag, Incarnation, MVDataError, MVDataOutput, ShiftedTxnIndex, StorageKey,
    StorageValue, StorageVersion, TxnIndex, Version,
};

verus! {

/// An entry as the contracts see it: incarnation, bytes, and whether it is
/// an estimate.
pub type EntryView = (Incarnation, Seq<u8>, bool);

/// The largest shifted index: the one of the last possible transaction.
pub open spec fn max_shifted() -> int {
    u32::MAX as u64 + 1
}

/// Every entry of the multi-version store has an estimate flag and content.
pub struct Entry {
    incarnation: Incarnation,
    value: StorageValue,
    flag: Flag,
}

impl View for Entry {
    type V = EntryView;

    closed spec fn view(&self) -> EntryView {
        (self.incarnation, self.value@, self.flag == Flag::Estimate)
    }
}

impl Entry {
    pub fn new_write_from(incarnation: Incarnation, data: StorageValue) -> (e: Entry)
        ensures
            e@ == (incarnation, data@, false),
    {
        Entry { incarnation, value: data, flag: Flag::Done }
    }

    pub fn flag(&self) -> (f: Flag)
        ensures
            (f == Flag::Estimate) == self@.2,
    {
        self.flag
    }

    pub fn mark_estimate(&mut self)
        ensures
            final(self)@ == (old(self)@.0, old(self)@.1, true),
    {
        self.flag = Flag::Estimate;
    }

    pub fn incarnation(&self) -> (i: Incarnation)
        ensures
            i == self@.0,
    {
        self.incarnation
    }

    pub fn value_len(&self) -> (n: usize)
        ensures
            n == self@.1.len(),
    {
        self.value.len()
    }
}

/// `s` is the highest index in `chain` below `bound`.
pub open spec fn is_latest_below(chain: Map<ShiftedTxnIndex, EntryView>, bound: u64, s: u64) -> bool {
    &&& chain.contains_key(s)
    &&& s < bound
    &&& forall|t: u64| #[trigger] chain.contains_key(t) && t < bound ==> t <= s
}

/// The version that the entry at shifted index `s` stands for.
pub open spec fn version_at(s: ShiftedTxnIndex, incarnation: Incarnation) -> Version {
    if s == 0 {
        Err(StorageVersion)
    } else {
        Ok(((s - 1) as TxnIndex, incarnation))
    }
}

/// What a read below `bound` sees in a version chain: the nearest entry
/// below, as a dependency if it is an estimate, or nothing.
pub open spec fn read_spec(chain: Map<ShiftedTxnIndex, EntryView>, bound: u64) -> FetchView {
    if exists|s: u64| is_latest_below(chain, bound, s) {
        let s = choose|s: u64| is_latest_below(chain, bound, s);
        if chain[s].2 && s > 0 {
            Err(MVDataError::Dependency((s - 1) as TxnIndex))
        } else {
            Ok((version_at(s, chain[s].0), chain[s].1))
        }
    } else {
        Err(MVDataError::Uninitialized)
    }
}

/// A chain has one highest index below a bound, if any.
pub proof fn lemma_latest_below_unique(chain: Map<ShiftedTxnIndex, EntryView>, bound: u64, s: u64)
    requires
        is_latest_below(chain, bound, s),
    ensures
        (choose|t: u64| is_latest_below(chain, bound, t)) == s,
{
    let t = choose|t: u64| is_latest_below(chain, bound, t);
    assert(t <= s && s <= t);
}

/// A read below `bound` names a transaction below `bound - 1`, and a
/// version whose incarnation the chain holds.
pub proof fn lemma_read_spec_bounds(chain: Map<ShiftedTxnIndex, EntryView>, bound: u64)
    requires
        bound <= max_shifted(),
    ensures
        read_spec(chain, bound) matches Err(MVDataError::Dependency(d)) ==> d + 1 < bound,
        read_spec(chain, bound) matches Ok((Ok((i, n)), _)) ==> i + 1 < bound && chain.contains_key((i + 1) as u64)
            && chain[(i + 1) as u64].0 == n,
{
    if exists|s: u64| is_latest_below(chain, bound, s) {
        let s = choose|s: u64| is_latest_below(chain, bound, s);
        assert(s < bound);
        if s > 0 {
            assert(((s - 1) as TxnIndex + 1) as u64 == s);
        }
    }
}

/// The version chain of one key: entries ordered by shifted index.
pub struct VersionedValue {
    entries: Vec<(ShiftedTxnIndex, Entry)>,
    chain: Ghost<Map<ShiftedTxnIndex, EntryView>>,
}

impl View for VersionedValue {
    type V = Map<ShiftedTxnIndex, EntryView>;

    closed spec fn view(&self) -> Map<ShiftedTxnIndex, EntryView> {
        self.chain@
    }
}

/// A version chain that the store can hold: indices of real transactions,
/// and a base value that is never an estimate.
pub open spec fn chain_wf(chain: Map<ShiftedTxnIndex, EntryView>) -> bool {
    &&& forall|s: u64| #[trigger] chain.contains_key(s) ==> s <= max_shifted()
    &&& chain.contains_key(0) ==> !chain[0].2
}

/// The entries are sorted strictly by index, list exactly the chain, and
/// the chain can be held by the store.
spec fn entries_inv(entries: Seq<(ShiftedTxnIndex, Entry)>, chain: Map<ShiftedTxnIndex, EntryView>) -> bool {
    &&& forall|p: int, q: int| 0 <= p < q < entries.len() ==> #[trigger] entries[p].0 < #[trigger] entries[q].0
    &&& forall|p: int|
        0 <= p < entries.len() ==> {
            &&& chain.contains_key(#[trigger] entries[p].0)
            &&& chain[entries[p].0] == entries[p].1@
        }
    &&& forall|s: u64| #[trigger] chain.contains_key(s) ==> exists|p: int| 0 <= p < entries.len() && #[trigger] entries[p].0 == s
    &&& chain_wf(chain)
}

impl VersionedValue {
    #[verifier::type_invariant]
    closed spec fn inv(self) -> bool {
        entries_inv(self.entries@, self.chain@)
    }

    pub fn new() -> (v: VersionedValue)
        ensures
            v@ == Map::<ShiftedTxnIndex, EntryView>::empty(),
    {
        VersionedValue { entries: Vec::new(), chain: Ghost(Map::empty()) }
    }

    /// The first position whose index is at least `s`, and whether it is `s`.
    fn position(&self, s: ShiftedTxnIndex) -> (r: (usize, bool))
        ensures
            r.0 <= self.entries.len(),
            forall|p: int| 0 <= p < r.0 ==> #[trigger] self.entries[p].0 < s,
            forall|p: int| r.0 <= p < self.entries.len() ==> #[trigger] self.entries[p].0 >= s,
            r.1 == (r.0 < self.entries.len() && self.entries[r.0 as int].0 == s),
            r.1 == self@.contains_key(s),
    {
        proof {
            use_type_invariant(self);
        }
        let mut p: usize = 0;
        while p < self.entries.len() && self.entries[p].0 < s
            invariant
                p <= self.entries.len(),
                forall|q: int| 0 <= q < p ==> #[trigger] self.entries[q].0 < s,
            decreases self.entries.len() - p,
        {
            p += 1;
        }
        proof {
            use_type_invariant(self);
            assert forall|q: int| p <= q < self.entries.len() implies #[trigger] self.entries[q].0 >= s by {
                if q > p {
                    assert(self.entries[p as int].0 < self.entries[q].0);
                }
            }
            if self@.contains_key(s) {
                let w = choose|w: int| 0 <= w < self.entries.len() && #[trigger] self.entries[w].0 == s;
                assert(self.entries[w].0 == s);
            }
        }
        (p, p < self.entries.len() && self.entries[p].0 == s)
    }

    pub fn get(&self, s: ShiftedTxnIndex) -> (r: Option<&Entry>)
        ensures
            r is Some == self@.contains_key(s),
            r matches Some(e) ==> e@ == self@[s],
    {
        proof {
            use_type_invariant(self);
        }
        let (p, found) = self.position(s);
        if found {
            Some(&self.entries[p].1)
        } else {
            None
        }
    }

    /// Puts `e` at index `s`, replacing what was there.
    pub fn insert(self, s: ShiftedTxnIndex, e: Entry) -> (r: VersionedValue)
        requires
            s <= max_shifted(),
            s == 0 ==> !e@.2,
        ensures
            r@ == self@.insert(s, e@),
    {
        proof {
            use_type_invariant(&self);
        }
        let ghost ev = e@;
        let ghost old_entries = self.entries@;
        let (p, found) = self.position(s);
        let VersionedValue { mut entries, chain } = self;
        if found {
            entries.remove(p);
        }
        let ghost mid = entries@;
        entries.insert(p, (s, e));
        let chain = Ghost(chain@.insert(s, ev));
        proof {
            let new_entries = entries@;
            assert(mid.len() == old_entries.len() || mid == old_entries.remove(p as int));
            assert forall|a: int| 0 <= a < mid.len() implies #[trigger] mid[a] == (if found && a >= p {
                old_entries[a + 1]
            } else {
                old_entries[a]
            }) by {}
            assert forall|a: int, b: int|
                0 <= a < b < new_entries.len() implies #[trigger] new_entries[a].0 < #[trigger] new_entries[b].0 by {
                if b < p {
                } else if b == p {
                    assert(new_entries[a] == mid[a]);
                } else if a < p {
                    assert(new_entries[b] == mid[b - 1]);
                } else if a == p {
                    assert(new_entries[b] == mid[b - 1]);
                    if found {
                        assert(old_entries[p as int].0 < old_entries[b as int].0);
                    }
                } else {
                    assert(new_entries[b] == mid[b - 1]);
                    assert(new_entries[a] == mid[a - 1]);
                }
            }
            assert forall|a: int|
                0 <= a < new_entries.len() implies {
                &&& chain@.contains_key(#[trigger] new_entries[a].0)
                &&& chain@[new_entries[a].0] == new_entries[a].1@
            } by {
                if a != p {
                    let b = if a < p { a } else { a - 1 };
                    assert(new_entries[a] == mid[b]);
                    assert(new_entries[a].0 != s);
                }
            }
            assert forall|t: u64| #[trigger] chain@.contains_key(t) implies exists|a: int|
                0 <= a < new_entries.len() && #[trigger] new_entries[a].0 == t by {
                if t == s {
                    assert(new_entries[p as int].0 == t);
                } else {
                    let w = choose|w: int| 0 <= w < old_entries.len() && #[trigger] old_entries[w].0 == t;
                    if found && w == p {
                    } else {
                        let b = if found && w > p { w - 1 } else { w };
                        let a = if b < p { b } else { b + 1 };
                        assert(new_entries[a].0 == t);
                    }
                }
            }
            assert(chain_wf(chain@));
            assert(entries_inv(entries@, chain@));
        }
        VersionedValue { entries, chain }
    }

    /// Takes the entry at index `s` out of the chain.
    pub fn remove(self, s: ShiftedTxnIndex) -> (r: (VersionedValue, Option<Entry>))
        ensures
            r.0@ == self@.remove(s),
            r.1 is Some == self@.contains_key(s),
            r.1 matches Some(e) ==> e@ == self@[s],
    {
        proof {
            use_type_invariant(&self);
        }
        let ghost old_entries = self.entries@;
        let (p, found) = self.position(s);
        if !found {
            proof {
                assert(self@.remove(s) =~= self@);
            }
            return (self, None);
        }
        let VersionedValue { mut entries, chain } = self;
        let (_, e) = entries.remove(p);
        let chain = Ghost(chain@.remove(s));
        proof {
            assert forall|a: int| 0 <= a < entries.len() implies #[trigger] entries[a] == (if a >= p {
                old_entries[a + 1]
            } else {
                old_entries[a]
            }) by {}
            assert forall|a: int, b: int| 0 <= a < b < entries.len() implies #[trigger] entries[a].0
                < #[trigger] entries[b].0 by {
                let a1 = if a >= p { a + 1 } else { a };
                let b1 = if b >= p { b + 1 } else { b };
                assert(old_entries[a1].0 < old_entries[b1].0);
            }
            assert forall|a: int| 0 <= a < entries.len() implies {
                &&& chain@.contains_key(#[trigger] entries[a].0)
                &&& chain@[entries[a].0] == entries[a].1@
            } by {
                let a1 = if a >= p { a + 1 } else { a };
                assert(entries[a] == old_entries[a1]);
                if a1 < p {
                    assert(old_entries[a1].0 < old_entries[p as int].0);
                } else {
                    assert(old_entries[p as int].0 < old_entries[a1].0);
                }
            }
            assert forall|t: u64| #[trigger] chain@.contains_key(t) implies exists|a: int|
                0 <= a < entries.len() && #[trigger] entries[a].0 == t by {
                let w = choose|w: int| 0 <= w < old_entries.len() && #[trigger] old_entries[w].0 == t;
                let a = if w > p { w - 1 } else { w };
                assert(entries[a].0 == t);
            }
            assert(chain_wf(chain@));
            assert(entries_inv(entries@, chain@));
        }
        (VersionedValue { entries, chain }, Some(e))
    }

    /// Flags the entry at index `s` as an estimate, if there is one.
    pub fn mark_estimate(self, s: ShiftedTxnIndex) -> (r: (VersionedValue, bool))
        requires
            s > 0,
        ensures
            r.1 == self@.contains_key(s),
            r.0@ == (if r.1 {
                self@.insert(s, (self@[s].0, self@[s].1, true))
            } else {
                self@
            }),
    {
        proof {
            use_type_invariant(&self);
        }
        let (rest, taken) = self.remove(s);
        match taken {
            Some(mut e) => {
                e.mark_estimate();
                proof {
                    assert(rest@.insert(s, e@) =~= self@.insert(s, (self@[s].0, self@[s].1, true)));
                }
                (rest.insert(s, e), true)
            },
            None => {
                proof {
                    assert(rest@ =~= self@);
                }
                (rest, false)
            },
        }
    }

    /// Reads the nearest entry strictly below `bound`.
    pub fn read(&self, bound: u64) -> (r: Result<MVDataOutput, MVDataError>)
        ensures
            fetch_view(r) == read_spec(self@, bound),
    {
        proof {
            use_type_invariant(self);
        }
        let mut p = self.entries.len();
        while p > 0
            invariant
                p <= self.entries.len(),
                forall|q: int| p <= q < self.entries.len() ==> #[trigger] self.entries[q].0 >= bound,
            decreases p,
        {
            proof {
                use_type_invariant(self);
            }
            let s = self.entries[p - 1].0;
            if s < bound {
                let e = &self.entries[p - 1].1;
                proof {
                    assert(self.chain@.contains_key(s));
                    assert forall|t: u64| #[trigger] self.chain@.contains_key(t) && t < bound implies t <= s by {
                        let w = choose|w: int| 0 <= w < self.entries.len() && #[trigger] self.entries[w].0 == t;
                        if w > p - 1 {
                            assert(self.entries[w].0 >= bound);
                        } else if w < p - 1 {
                            assert(self.entries[w].0 < self.entries[p - 1].0);
                        }
                    }
                    assert(is_latest_below(self@, bound, s));
                    lemma_latest_below_unique(self@, bound, s);
                }
                if e.flag == Flag::Estimate {
                    return Err(MVDataError::Dependency((s - 1) as TxnIndex));
                }
                let version = if s == 0 {
                    Err(StorageVersion)
                } else {
                    Ok(((s - 1) as TxnIndex, e.incarnation))
                };
                return Ok(MVDataOutput::Versioned(version, e.value.clone()));
            }
            p -= 1;
        }
        proof {
            use_type_invariant(self);
            assert forall|t: u64| !is_latest_below(self@, bound, t) by {
                if self.chain@.contains_key(t) && t < bound {
                    let w = choose|w: int| 0 <= w < self.entries.len() && #[trigger] self.entries[w].0 == t;
                    assert(self.entries[w].0 >= bound);
                }
            }
        }
        Err(MVDataError::Uninitialized)
    }
}

/// What the store holds: for each key, its version chain.
pub type StoreView = Map<Seq<u8>, Map<ShiftedTxnIndex, EntryView>>;

#[verifier::external_type_specification]
#[verifier::external_body]
#[verifier::reject_recursive_types(K)]
#[verifier::reject_recursive_types(V)]
#[verifier::reject_recursive_types(S)]
pub struct ExDashMap<K, V, S>(DashMap<K, V, S>);

/// The version chains that a concurrent map holds, key by key.
pub uninterp spec fn stored_chains(m: DashMap<StorageKey, VersionedValue>) -> StoreView;

/// Relies on `DashMap::new`: a map without entries.
#[verifier::external_body]
fn chains_new() -> (r: DashMap<StorageKey, VersionedValue>)
    ensures
        stored_chains(r) == StoreView::empty(),
{
    DashMap::new()
}

/// Relies on `DashMap::insert`: `key` maps to `value` afterwards, and no
/// other key changes.
#[verifier::external_body]
fn chains_insert(m: &mut DashMap<StorageKey, VersionedValue>, key: StorageKey, value: VersionedValue)
    ensures
        stored_chains(*final(m)) == stored_chains(*old(m)).insert(key@, value@),
{
    m.insert(key, value);
}

/// Relies on `DashMap::remove`: hands out the value at `key`, if any, and
/// leaves the map without it.
#[verifier::external_body]
fn chains_remove(m: &mut DashMap<StorageKey, VersionedValue>, key: &StorageKey) -> (r: Option<
    VersionedValue,
>)
    ensures
        stored_chains(*final(m)) == stored_chains(*old(m)).remove(key@),
        r is Some == stored_chains(*old(m)).contains_key(key@),
        r matches Some(v) ==> v@ == stored_chains(*old(m))[key@],
{
    m.remove(key).map(|(_, v)| v)
}

/// Relies on `DashMap::view`: hands the chain at `key`, if any, to the
/// closure, whose result it returns; the closure reads it below `bound`
/// with `VersionedValue::read`.
#[verifier::external_body]
fn chains_read(m: &DashMap<StorageKey, VersionedValue>, key: &StorageKey, bound: u64) -> (r: Option<
    Result<MVDataOutput, MVDataError>,
>)
    ensures
        r is Some == stored_chains(*m).contains_key(key@),
        r matches Some(x) ==> fetch_view(x) == read_spec(stored_chains(*m)[key@], bound),
{
    m.view(key, |_, c| c.read(bound))
}

/// Why the store refused an operation: each is a misuse by the caller.
#[derive(Clone, Copy, Debug, PartialEq, Eq, Structural)]
pub enum StoreError {
    /// A write whose incarnation is not above the one already recorded.
    StaleIncarnation,
    /// No entry of the transaction at the key.
    MissingEntry,
    /// A second base value whose length differs from the first.
    BaseValueMismatch,
}

/// The chain of `key`, empty if the store has none.
pub open spec fn chain_of(m: StoreView, key: Seq<u8>) -> Map<ShiftedTxnIndex, EntryView> {
    if m.contains_key(key) {
        m[key]
    } else {
        Map::empty()
    }
}

/// Where transaction `idx` writes in a chain.
pub open spec fn shifted(idx: TxnIndex) -> ShiftedTxnIndex {
    (idx + 1) as ShiftedTxnIndex
}

/// What a read by transaction `idx` of `key` sees.
pub open spec fn spec_fetch(m: StoreView, key: Seq<u8>, idx: TxnIndex) -> FetchView {
    read_spec(chain_of(m, key), shifted(idx))
}

/// The store after a write, or `None` where the write is refused because
/// an entry of the same transaction has an incarnation at least as high.
pub open spec fn spec_write(m: StoreView, key: Seq<u8>, idx: TxnIndex, incarnation: Incarnation, data: Seq<u8>) -> Option<StoreView> {
    let c = chain_of(m, key);
    let s = shifted(idx);
    if c.contains_key(s) && c[s].0 >= incarnation {
        None
    } else {
        Some(m.insert(key, c.insert(s, (incarnation, data, false))))
    }
}

/// The store after flagging the entry of `idx` at `key` as an estimate, or
/// `None` where there is no such entry.
pub open spec fn spec_mark_estimate(m: StoreView, key: Seq<u8>, idx: TxnIndex) -> Option<StoreView> {
    let c = chain_of(m, key);
    let s = shifted(idx);
    if c.contains_key(s) {
        Some(m.insert(key, c.insert(s, (c[s].0, c[s].1, true))))
    } else {
        None
    }
}

/// The store after removing the entry of `idx` at `key`, or `None` where
/// there is no such entry.
pub open spec fn spec_delete(m: StoreView, key: Seq<u8>, idx: TxnIndex) -> Option<StoreView> {
    let c = chain_of(m, key);
    let s = shifted(idx);
    if c.contains_key(s) {
        Some(m.insert(key, c.remove(s)))
    } else {
        None
    }
}

/// The store after providing the base value of `key`: set where it is
/// absent, kept where one of the same length is there already, and `None`
/// where one of another length is there.
pub open spec fn spec_provide_base(m: StoreView, key: Seq<u8>, data: Seq<u8>) -> Option<StoreView> {
    let c = chain_of(m, key);
    if !c.contains_key(0) {
        Some(m.insert(key, c.insert(0, (0, data, false))))
    } else if c[0].1.len() == data.len() {
        Some(m)
    } else {
        None
    }
}

/// The store after writing each (key, value) of `w` in order, or `None`
/// where one write is refused.
pub open spec fn spec_write_all(m: StoreView, idx: TxnIndex, incarnation: Incarnation, w: Seq<(Seq<u8>, Seq<u8>)>) -> Option<StoreView>
    decreases w.len(),
{
    if w.len() == 0 {
        Some(m)
    } else {
        match spec_write_all(m, idx, incarnation, w.drop_last()) {
            Some(m1) => spec_write(m1, w.last().0, idx, incarnation, w.last().1),
            None => None,
        }
    }
}

/// The store after removing the entry of `idx` at each key of `prev` that
/// `keep` does not hold, or `None` where one such entry is missing.
pub open spec fn spec_delete_stale(m: StoreView, idx: TxnIndex, prev: Seq<Seq<u8>>, keep: Set<Seq<u8>>) -> Option<StoreView>
    decreases prev.len(),
{
    if prev.len() == 0 {
        Some(m)
    } else {
        match spec_delete_stale(m, idx, prev.drop_last(), keep) {
            Some(m1) => if keep.contains(prev.last()) {
                Some(m1)
            } else {
                spec_delete(m1, prev.last(), idx)
            },
            None => None,
        }
    }
}

/// The keys of a write-set.
pub open spec fn write_keys(w: Seq<(Seq<u8>, Seq<u8>)>) -> Set<Seq<u8>> {
    Set::new(|k: Seq<u8>| exists|j: int| 0 <= j < w.len() && w[j].0 == k)
}

/// The store after a new incarnation of `idx` recorded write-set `w`,
/// where the previous one wrote the keys `prev`: each write is made, and the
/// entries at keys that `w` no longer writes are removed.
pub open spec fn spec_apply_write_set(
    m: StoreView,
    idx: TxnIndex,
    incarnation: Incarnation,
    prev: Seq<Seq<u8>>,
    w: Seq<(Seq<u8>, Seq<u8>)>,
) -> Option<StoreView> {
    match spec_write_all(m, idx, incarnation, w) {
        Some(m1) => spec_delete_stale(m1, idx, prev, write_keys(w)),
        None => None,
    }
}

/// Whether `w` writes a key that `prev` does not hold.
pub open spec fn writes_new_location(prev: Seq<Seq<u8>>, w: Seq<(Seq<u8>, Seq<u8>)>) -> bool {
    exists|j: int| 0 <= j < w.len() && !prev.contains(#[trigger] w[j].0)
}

/// The store after flagging the entries of `idx` at each key of `keys` as
/// estimates, or `None` where one is missing.
pub open spec fn spec_mark_all(m: StoreView, idx: TxnIndex, keys: Seq<Seq<u8>>) -> Option<StoreView>
    decreases keys.len(),
{
    if keys.len() == 0 {
        Some(m)
    } else {
        match spec_mark_all(m, idx, keys.drop_last()) {
            Some(m1) => spec_mark_estimate(m1, keys.last(), idx),
            None => None,
        }
    }
}

pub open spec fn keys_view(keys: Seq<StorageKey>) -> Seq<Seq<u8>> {
    keys.map_values(|k: StorageKey| k@)
}

fn contains_key_in(keys: &Vec<StorageKey>, key: &StorageKey) -> (r: bool)
    ensures
        r == keys_view(keys@).contains(key@),
{
    let mut i: usize = 0;
    while i < keys.len()
        invariant
            i <= keys.len(),
            forall|j: int| 0 <= j < i ==> keys@[j]@ != key@,
        decreases keys.len() - i,
    {
        if same_key(&keys[i], key) {
            proof {
                assert(keys_view(keys@)[i as int] == key@);
            }
            return true;
        }
        i += 1;
    }
    proof {
        if keys_view(keys@).contains(key@) {
            let j = choose|j: int| 0 <= j < keys_view(keys@).len() && keys_view(keys@)[j] == key@;
            assert(keys@[j]@ == key@);
        }
    }
    false
}

fn written_in(w: &Vec<(StorageKey, StorageValue)>, key: &StorageKey) -> (r: bool)
    ensures
        r == write_keys(pairs_of(w@)).contains(key@),
{
    let mut i: usize = 0;
    while i < w.len()
        invariant
            i <= w.len(),
            forall|j: int| 0 <= j < i ==> w@[j].0@ != key@,
        decreases w.len() - i,
    {
        if same_key(&w[i].0, key) {
            proof {
                assert(pairs_of(w@)[i as int].0 == key@);
            }
            return true;
        }
        i += 1;
    }
    proof {
        if write_keys(pairs_of(w@)).contains(key@) {
            let j = choose|j: int| 0 <= j < pairs_of(w@).len() && pairs_of(w@)[j].0 == key@;
            assert(w@[j].0@ == key@);
        }
    }
    false
}

/// Maps each key to its chain of versions, written by the transactions of
/// one batch over the pre-batch base values.
pub struct VersionedData {
    values: DashMap<StorageKey, VersionedValue>,
}

impl View for VersionedData {
    type V = StoreView;

    closed spec fn view(&self) -> StoreView {
        stored_chains(self.values)
    }
}

impl VersionedData {
    pub fn new() -> (d: VersionedData)
        ensures
            d@ == StoreView::empty(),
    {
        VersionedData { values: chains_new() }
    }

    /// Takes the chain of `key` out of the map, or an empty one.
    fn take_chain(&mut self, key: &StorageKey) -> (r: (VersionedValue, bool))
        ensures
            r.0@ == chain_of(old(self)@, key@),
            r.1 == old(self)@.contains_key(key@),
            final(self)@ == old(self)@.remove(key@),
    {
        match chains_remove(&mut self.values, key) {
            Some(c) => (c, true),
            None => (VersionedValue::new(), false),
        }
    }

    /// Flags the entry of `txn_idx` at `key` as an estimate of the write
    /// that its next incarnation will make.
    pub fn mark_estimate(&mut self, key: &StorageKey, txn_idx: TxnIndex) -> (r: Result<(), StoreError>)
        ensures
            match spec_mark_estimate(old(self)@, key@, txn_idx) {
                Some(m) => r is Ok && final(self)@ == m,
                None => r == Err::<(), StoreError>(StoreError::MissingEntry) && final(self)@ == old(self)@,
            },
    {
        let ghost old_view = self@;
        let (c, present) = self.take_chain(key);
        let (c, found) = c.mark_estimate(txn_idx as u64 + 1);
        if !present {
            proof {
                assert(self@.remove(key@) =~= old_view);
            }
            return Err(StoreError::MissingEntry);
        }
        chains_insert(&mut self.values, key.clone(), c);
        proof {
            if !found {
                assert(self@ =~= old_view);
            }
        }
        if found {
            Ok(())
        } else {
            Err(StoreError::MissingEntry)
        }
    }
    /// Removes the entry of `txn_idx` at `key`, for a re-execution that no
    /// longer writes the key.
    pub fn delete(&mut self, key: &StorageKey, txn_idx: TxnIndex) -> (r: Result<(), StoreError>)
        ensures
            match spec_delete(old(self)@, key@, txn_idx) {
                Some(m) => r is Ok && final(self)@ == m,
                None => r == Err::<(), StoreError>(StoreError::MissingEntry) && final(self)@ == old(self)@,
            },
    {
        let ghost old_view = self@;
        let (c, present) = self.take_chain(key);
        if !present {
            proof {
                assert(self@.remove(key@) =~= old_view);
            }
            return Err(StoreError::MissingEntry);
        }
        let (c, taken) = c.remove(txn_idx as u64 + 1);
        let found = taken.is_some();
        chains_insert(&mut self.values, key.clone(), c);
        proof {
            if !found {
                assert(old_view[key@].remove(shifted(txn_idx)) =~= old_view[key@]);
                assert(self@ =~= old_view);
            }
        }
        if found {
            Ok(())
        } else {
            Err(StoreError::MissingEntry)
        }
    }

    /// Reads `key` as transaction `txn_idx` sees it: the nearest entry of a
    /// lower transaction, else the base value.
    pub fn fetch_data(&self, key: &StorageKey, txn_idx: TxnIndex) -> (r: Result<MVDataOutput, MVDataError>)
        ensures
            fetch_view(r) == spec_fetch(self@, key@, txn_idx),
            fetch_view(r) matches Err(MVDataError::Dependency(d)) ==> d < txn_idx,
            fetch_view(r) matches Ok((Ok((i, n)), _)) ==> i < txn_idx && chain_of(self@, key@).contains_key(
                shifted(i),
            ) && chain_of(self@, key@)[shifted(i)].0 == n,
    {
        proof {
            lemma_read_spec_bounds(chain_of(self@, key@), shifted(txn_idx));
        }
        match chains_read(&self.values, key, txn_idx as u64 + 1) {
            Some(r) => r,
            None => {
                proof {
                    assert(!exists|s: u64| is_latest_below(chain_of(self@, key@), shifted(txn_idx), s));
                }
                Err(MVDataError::Uninitialized)
            },
        }
    }

    /// Sets the pre-batch value of `key`, which the storage backend supplied.
    pub fn provide_base_value(&mut self, key: StorageKey, data: StorageValue) -> (r: Result<(), StoreError>)
        ensures
            match spec_provide_base(old(self)@, key@, data@) {
                Some(m) => r is Ok && final(self)@ == m,
                None => r == Err::<(), StoreError>(StoreError::BaseValueMismatch) && final(self)@ == old(self)@,
            },
    {
        let ghost old_view = self@;
        let (c, _) = self.take_chain(&key);
        let present = match c.get(0) {
            Some(e) => Some(e.value_len() == data.len()),
            None => None,
        };
        if let Some(same_len) = present {
            chains_insert(&mut self.values, key, c);
            proof {
                assert(self@ =~= old_view);
            }
            return if same_len {
                Ok(())
            } else {
                Err(StoreError::BaseValueMismatch)
            };
        }
        let c = c.insert(0, Entry::new_write_from(0, data));
        chains_insert(&mut self.values, key, c);
        Ok(())
    }

    /// Records what incarnation `incarnation` of transaction `txn_idx` wrote
    /// at `key`.
    pub fn write(&mut self, key: StorageKey, txn_idx: TxnIndex, incarnation: Incarnation, data: StorageValue) -> (r: Result<(), StoreError>)
        ensures
            match spec_write(old(self)@, key@, txn_idx, incarnation, data@) {
                Some(m) => r is Ok && final(self)@ == m,
                None => r == Err::<(), StoreError>(StoreError::StaleIncarnation) && final(self)@ == old(self)@,
            },
    {
        let ghost old_view = self@;
        let s: u64 = txn_idx as u64 + 1;
        let (c, _) = self.take_chain(&key);
        let refused = match c.get(s) {
            Some(e) => e.incarnation() >= incarnation,
            None => false,
        };
        if refused {
            chains_insert(&mut self.values, key, c);
            proof {
                assert(self@ =~= old_view);
            }
            return Err(StoreError::StaleIncarnation);
        }
        let c = c.insert(s, Entry::new_write_from(incarnation, data));
        chains_insert(&mut self.values, key, c);
        Ok(())
    }
    /// Records the write-set `writes` of incarnation `incarnation` of
    /// `txn_idx`, whose previous incarnation wrote the keys `prev_keys`;
    /// returns whether a key was written that the previous one did not
    /// write. An error is a misuse that ends the parallel execution of the
    /// batch: the store then holds part of the change.
    pub fn apply_write_set(
        &mut self,
        txn_idx: TxnIndex,
        incarnation: Incarnation,
        prev_keys: &Vec<StorageKey>,
        writes: &Vec<(StorageKey, StorageValue)>,
    ) -> (r: Result<bool, StoreError>)
        ensures
            r is Ok == spec_apply_write_set(old(self)@, txn_idx, incarnation, keys_view(prev_keys@), pairs_of(writes@)) is Some,
            r matches Ok(b) ==> b == writes_new_location(keys_view(prev_keys@), pairs_of(writes@))
                && final(self)@ == spec_apply_write_set(old(self)@, txn_idx, incarnation, keys_view(prev_keys@), pairs_of(writes@)).unwrap(),
    {
        let ghost w = pairs_of(writes@);
        let ghost prev = keys_view(prev_keys@);
        let ghost m0 = self@;
        let mut wrote_new = false;
        let mut i: usize = 0;
        while i < writes.len()
            invariant
                i <= writes.len(),
                w == pairs_of(writes@),
                prev == keys_view(prev_keys@),
                m0 == old(self)@,
                spec_write_all(m0, txn_idx, incarnation, w.take(i as int)) == Some(self@),
                wrote_new == exists|j: int| 0 <= j < i && !prev.contains(#[trigger] w[j].0),
            decreases writes.len() - i,
        {
            proof {
                assert(w.take(i + 1).drop_last() =~= w.take(i as int));
            }
            let (key, value) = (&writes[i].0, &writes[i].1);
            if !contains_key_in(prev_keys, key) {
                wrote_new = true;
            }
            let ghost before = self@;
            if self.write(key.clone(), txn_idx, incarnation, value.clone()).is_err() {
                proof {
                    assert(w.take(i + 1).last() == w[i as int]);
                    assert(w[i as int] == (key@, value@));
                    assert(spec_write_all(m0, txn_idx, incarnation, w.take(i + 1)) is None);
                    lemma_write_all_stays_none(m0, txn_idx, incarnation, w, i as int + 1);
                    assert(w.take(writes.len() as int) =~= w);
                }
                return Err(StoreError::StaleIncarnation);
            }
            i += 1;
        }
        proof {
            assert(w.take(writes.len() as int) =~= w);
        }
        let ghost m1 = self@;
        let mut k: usize = 0;
        while k < prev_keys.len()
            invariant
                k <= prev_keys.len(),
                w == pairs_of(writes@),
                prev == keys_view(prev_keys@),
                m0 == old(self)@,
                spec_write_all(m0, txn_idx, incarnation, w) == Some(m1),
                spec_delete_stale(m1, txn_idx, prev.take(k as int), write_keys(w)) == Some(self@),
            decreases prev_keys.len() - k,
        {
            proof {
                assert(prev.take(k + 1).drop_last() =~= prev.take(k as int));
            }
            let key = &prev_keys[k];
            if !written_in(writes, key) {
                if self.delete(key, txn_idx).is_err() {
                    proof {
                        assert(prev.take(k + 1).last() == prev[k as int]);
                        assert(spec_delete_stale(m1, txn_idx, prev.take(k + 1), write_keys(w)) is None);
                        lemma_delete_stale_stays_none(m1, txn_idx, prev, write_keys(w), k as int + 1);
                        assert(prev.take(prev_keys.len() as int) =~= prev);
                    }
                    return Err(StoreError::MissingEntry);
                }
            }
            k += 1;
        }
        proof {
            assert(prev.take(prev_keys.len() as int) =~= prev);
        }
        Ok(wrote_new)
    }

    /// Flags the entries of `txn_idx` at each of `keys` as estimates, after
    /// its validation failed. An error is a misuse that ends the parallel
    /// execution of the batch: the store then holds part of the change.
    pub fn mark_estimates(&mut self, keys: &Vec<StorageKey>, txn_idx: TxnIndex) -> (r: Result<(), StoreError>)
        ensures
            r is Ok == spec_mark_all(old(self)@, txn_idx, keys_view(keys@)) is Some,
            r is Ok ==> final(self)@ == spec_mark_all(old(self)@, txn_idx, keys_view(keys@)).unwrap(),
    {
        let ghost ks = keys_view(keys@);
        let ghost m0 = self@;
        let mut i: usize = 0;
        while i < keys.len()
            invariant
                i <= keys.len(),
                ks == keys_view(keys@),
                m0 == old(self)@,
                spec_mark_all(m0, txn_idx, ks.take(i as int)) == Some(self@),
            decreases keys.len() - i,
        {
            proof {
                assert(ks.take(i + 1).drop_last() =~= ks.take(i as int));
            }
            if self.mark_estimate(&keys[i], txn_idx).is_err() {
                proof {
                    assert(ks.take(i + 1).last() == ks[i as int]);
                    assert(spec_mark_all(m0, txn_idx, ks.take(i + 1)) is None);
                    lemma_mark_all_stays_none(m0, txn_idx, ks, i as int + 1);
                    assert(ks.take(keys.len() as int) =~= ks);
                }
                return Err(StoreError::MissingEntry);
            }
            i += 1;
        }
        proof {
            assert(ks.take(keys.len() as int) =~= ks);
        }
        Ok(())
    }
}

/// The multi-version data that threads read and write while a batch
/// executes in parallel.
pub struct MVHashMap {
    data: VersionedData,
}

impl View for MVHashMap {
    type V = StoreView;

    closed spec fn view(&self) -> StoreView {
        self.data@
    }
}

impl MVHashMap {
    pub fn new() -> (m: MVHashMap)
        ensures
            m@ == StoreView::empty(),
    {
        MVHashMap { data: VersionedData::new() }
    }

    pub fn data(&self) -> (r: &VersionedData)
        ensures
            r@ == self@,
    {
        &self.data
    }

    pub fn data_mut(&mut self) -> (r: &mut VersionedData)
        ensures
            r@ == old(self)@,
            final(self)@ == final(r)@,
    {
        &mut self.data
    }
}

/// A write at a key and transaction succeeds only above the incarnation
/// already recorded there, and records its own: two successive successful
/// writes at one place carry strictly increasing incarnations.
pub proof fn lemma_write_incarnations_increase(
    m: StoreView,
    key: Seq<u8>,
    idx: TxnIndex,
    first: Incarnation,
    first_data: Seq<u8>,
    second: Incarnation,
    second_data: Seq<u8>,
)
    requires
        spec_write(m, key, idx, first, first_data) is Some,
        spec_write(spec_write(m, key, idx, first, first_data).unwrap(), key, idx, second, second_data) is Some,
    ensures
        first < second,
        chain_of(spec_write(m, key, idx, first, first_data).unwrap(), key)[shifted(idx)].0 == first,
{
    let m1 = spec_write(m, key, idx, first, first_data).unwrap();
    assert(chain_of(m1, key) == chain_of(m, key).insert(shifted(idx), (first, first_data, false)));
}

/// Flagging an estimate keeps the incarnation recorded at every place, so
/// a later write there must still be of a higher incarnation.
pub proof fn lemma_mark_estimate_keeps_incarnations(m: StoreView, key: Seq<u8>, idx: TxnIndex, other: Seq<u8>, s: ShiftedTxnIndex)
    requires
        spec_mark_estimate(m, key, idx) is Some,
        chain_of(m, other).contains_key(s),
    ensures
        chain_of(spec_mark_estimate(m, key, idx).unwrap(), other).contains_key(s),
        chain_of(spec_mark_estimate(m, key, idx).unwrap(), other)[s].0 == chain_of(m, other)[s].0,
{
}

/// Once a base value is provided for a key that nothing has written, every
/// transaction reads exactly that value, as of the storage version.
pub proof fn lemma_base_value_read_by_all(m: StoreView, key: Seq<u8>, data: Seq<u8>, idx: TxnIndex)
    requires
        chain_of(m, key) == Map::<ShiftedTxnIndex, EntryView>::empty(),
    ensures
        spec_provide_base(m, key, data) is Some,
        spec_fetch(spec_provide_base(m, key, data).unwrap(), key, idx) == Ok::<(Version, Seq<u8>), MVDataError>(
            (Err(StorageVersion), data),
        ),
{
    let m1 = spec_provide_base(m, key, data).unwrap();
    let c = chain_of(m1, key);
    assert(c == Map::<ShiftedTxnIndex, EntryView>::empty().insert(0, (0, data, false)));
    assert(is_latest_below(c, shifted(idx), 0));
    lemma_latest_below_unique(c, shifted(idx), 0);
}

/// After the entry of transaction `dep` at a key is flagged as an estimate,
/// a transaction above `dep` that no write between the two separates from
/// it is told to wait for `dep`; once a new incarnation of `dep` writes
/// there, it reads that write.
pub proof fn lemma_estimate_then_rewrite(m: StoreView, key: Seq<u8>, dep: TxnIndex, idx: TxnIndex, incarnation: Incarnation, data: Seq<u8>)
    requires
        dep < idx,
        spec_mark_estimate(m, key, dep) is Some,
        forall|s: u64| #[trigger] chain_of(m, key).contains_key(s) && shifted(dep) < s ==> s >= shifted(idx),
        chain_of(m, key)[shifted(dep)].0 < incarnation,
    ensures
        spec_fetch(spec_mark_estimate(m, key, dep).unwrap(), key, idx) == Err::<(Version, Seq<u8>), MVDataError>(
            MVDataError::Dependency(dep),
        ),
        spec_write(spec_mark_estimate(m, key, dep).unwrap(), key, dep, incarnation, data) is Some,
        spec_fetch(
            spec_write(spec_mark_estimate(m, key, dep).unwrap(), key, dep, incarnation, data).unwrap(),
            key,
            idx,
        ) == Ok::<(Version, Seq<u8>), MVDataError>((Ok((dep, incarnation)), data)),
{
    let m1 = spec_mark_estimate(m, key, dep).unwrap();
    let c1 = chain_of(m1, key);
    assert(is_latest_below(c1, shifted(idx), shifted(dep)));
    lemma_latest_below_unique(c1, shifted(idx), shifted(dep));
    let m2 = spec_write(m1, key, dep, incarnation, data).unwrap();
    let c2 = chain_of(m2, key);
    assert(is_latest_below(c2, shifted(idx), shifted(dep)));
    lemma_latest_below_unique(c2, shifted(idx), shifted(dep));
}

/// The value of `key` that sequential execution shows the transaction at
/// position `idx`: the write of the nearest transaction below it that
/// writes the key, else the base value.
pub open spec fn sequential_value(
    base: Map<Seq<u8>, Seq<u8>>,
    writes: Seq<Map<Seq<u8>, Seq<u8>>>,
    key: Seq<u8>,
    idx: nat,
) -> Option<Seq<u8>>
    decreases idx,
{
    if idx == 0 {
        if base.contains_key(key) {
            Some(base[key])
        } else {
            None
        }
    } else if idx - 1 < writes.len() && writes[idx - 1].contains_key(key) {
        Some(writes[idx - 1][key])
    } else {
        sequential_value(base, writes, key, (idx - 1) as nat)
    }
}

/// The chain of `key` holds exactly its base value, if any, and the final
/// write of each transaction of `writes` that writes it, none an estimate.
pub open spec fn holds_committed(
    chain: Map<ShiftedTxnIndex, EntryView>,
    base: Map<Seq<u8>, Seq<u8>>,
    writes: Seq<Map<Seq<u8>, Seq<u8>>>,
    incarnations: Seq<Incarnation>,
    key: Seq<u8>,
) -> bool {
    &&& chain.contains_key(0) == base.contains_key(key)
    &&& base.contains_key(key) ==> chain[0] == (0 as Incarnation, base[key], false)
    &&& forall|s: u64|
        s > 0 ==> (#[trigger] chain.contains_key(s) == (s - 1 < writes.len() && writes[s - 1].contains_key(key)))
    &&& forall|j: int|
        0 <= j < writes.len() && #[trigger] writes[j].contains_key(key) ==> chain[(j + 1) as u64] == (
            incarnations[j],
            writes[j][key],
            false,
        )
}

proof fn lemma_read_skips_absent(chain: Map<ShiftedTxnIndex, EntryView>, b: u64)
    requires
        b > 0,
        !chain.contains_key((b - 1) as u64),
    ensures
        read_spec(chain, b) == read_spec(chain, (b - 1) as u64),
{
    let c = (b - 1) as u64;
    assert forall|s: u64| is_latest_below(chain, b, s) <==> is_latest_below(chain, c, s) by {
        if is_latest_below(chain, b, s) {
            assert(s != c);
        }
    }
    if exists|s: u64| is_latest_below(chain, b, s) {
        let s = choose|s: u64| is_latest_below(chain, b, s);
        lemma_latest_below_unique(chain, c, s);
    }
}

proof fn lemma_committed_read(
    chain: Map<ShiftedTxnIndex, EntryView>,
    base: Map<Seq<u8>, Seq<u8>>,
    writes: Seq<Map<Seq<u8>, Seq<u8>>>,
    incarnations: Seq<Incarnation>,
    key: Seq<u8>,
    i: nat,
)
    requires
        i <= writes.len(),
        writes.len() <= u32::MAX,
        holds_committed(chain, base, writes, incarnations, key),
    ensures
        match read_spec(chain, (i + 1) as u64) {
            Ok((_, v)) => sequential_value(base, writes, key, i) == Some(v),
            Err(e) => e == MVDataError::Uninitialized && sequential_value(base, writes, key, i) is None,
        },
    decreases i,
{
    let b = (i + 1) as u64;
    if chain.contains_key(i as u64) {
        assert(is_latest_below(chain, b, i as u64));
        lemma_latest_below_unique(chain, b, i as u64);
        if i > 0 {
            assert(writes[i - 1].contains_key(key));
        }
    } else {
        lemma_read_skips_absent(chain, b);
        if i == 0 {
            assert forall|s: u64| !is_latest_below(chain, 0, s) by {}
        } else {
            assert(!writes[i - 1].contains_key(key));
            lemma_committed_read(chain, base, writes, incarnations, key, (i - 1) as nat);
        }
    }
}

/// Where the store holds for a key exactly its base value and the final
/// writes of the transactions of the batch, none an estimate, each
/// transaction reads that key exactly as sequential execution of the batch
/// in order shows it, and finds it uninitialized exactly where sequential
/// execution has no value for it.
pub proof fn lemma_committed_reads_are_sequential(
    m: StoreView,
    base: Map<Seq<u8>, Seq<u8>>,
    writes: Seq<Map<Seq<u8>, Seq<u8>>>,
    incarnations: Seq<Incarnation>,
    key: Seq<u8>,
    idx: TxnIndex,
)
    requires
        idx <= writes.len(),
        writes.len() <= u32::MAX,
        holds_committed(chain_of(m, key), base, writes, incarnations, key),
    ensures
        match spec_fetch(m, key, idx) {
            Ok((_, v)) => sequential_value(base, writes, key, idx as nat) == Some(v),
            Err(e) => e == MVDataError::Uninitialized && sequential_value(base, writes, key, idx as nat) is None,
        },
{
    lemma_committed_read(chain_of(m, key), base, writes, incarnations, key, idx as nat);
}

proof fn lemma_write_all_stays_none(m: StoreView, idx: TxnIndex, incarnation: Incarnation, w: Seq<(Seq<u8>, Seq<u8>)>, n: int)
    requires
        0 <= n <= w.len(),
        spec_write_all(m, idx, incarnation, w.take(n)) is None,
    ensures
        spec_write_all(m, idx, incarnation, w) is None,
    decreases w.len() - n,
{
    if n < w.len() {
        assert(w.take(n + 1).drop_last() =~= w.take(n));
        lemma_write_all_stays_none(m, idx, incarnation, w, n + 1);
    } else {
        assert(w.take(n) =~= w);
    }
}

proof fn lemma_delete_stale_stays_none(m: StoreView, idx: TxnIndex, prev: Seq<Seq<u8>>, keep: Set<Seq<u8>>, n: int)
    requires
        0 <= n <= prev.len(),
        spec_delete_stale(m, idx, prev.take(n), keep) is None,
    ensures
        spec_delete_stale(m, idx, prev, keep) is None,
    decreases prev.len() - n,
{
    if n < prev.len() {
        assert(prev.take(n + 1).drop_last() =~= prev.take(n));
        lemma_delete_stale_stays_none(m, idx, prev, keep, n + 1);
    } else {
        assert(prev.take(n) =~= prev);
    }
}

proof fn lemma_mark_all_stays_none(m: StoreView, idx: TxnIndex, keys: Seq<Seq<u8>>, n: int)
    requires
        0 <= n <= keys.len(),
        spec_mark_all(m, idx, keys.take(n)) is None,
    ensures
        spec_mark_all(m, idx, keys) is None,
    decreases keys.len() - n,
{
    if n < keys.len() {
        assert(keys.take(n + 1).drop_last() =~= keys.take(n));
        lemma_mark_all_stays_none(m, idx, keys, n + 1);
    } else {
        assert(keys.take(n) =~= keys);
    }
}

} // verus!
