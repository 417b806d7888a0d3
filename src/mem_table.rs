//! The ordered write buffer: the latest record for every key not yet
//! flushed, kept sorted by key, with a running byte-size total.
use crate::keys::{compare_keys, lemma_lex_lt_irreflexive, lemma_lex_lt_transitive, lex_lt};
use core::cmp::Ordering;
use vstd::prelude::*;
use vstd::slice::slice_to_vec;

verus! {

/// Bytes charged once per distinct key: a 16-byte timestamp and a 1-byte
/// tombstone flag.
pub const ENTRY_OVERHEAD: usize = 17;

/// One record: the latest write, or delete marker, for a key.
pub struct MemTableEntry {
    pub key: Vec<u8>,
    pub value: Option<Vec<u8>>,
    pub timestamp_ms: u128,
    pub is_deleted: bool,
}

/// What a record holds, as mathematical values.
pub struct EntryView {
    pub key: Seq<u8>,
    pub value: Option<Seq<u8>>,
    pub timestamp_ms: u128,
    pub is_deleted: bool,
}

impl View for MemTableEntry {
    type V = EntryView;

    open spec fn view(&self) -> EntryView {
        EntryView {
            key: self.key@,
            value: match self.value {
                Some(v) => Some(v@),
                None => None,
            },
            timestamp_ms: self.timestamp_ms,
            is_deleted: self.is_deleted,
        }
    }
}

/// The record that `set(key, value, timestamp_ms)` stores.
pub open spec fn write_record(key: Seq<u8>, value: Seq<u8>, timestamp_ms: u128) -> EntryView {
    EntryView { key, value: Some(value), timestamp_ms, is_deleted: false }
}

/// The record that `delete(key, timestamp_ms)` stores.
pub open spec fn tombstone_record(key: Seq<u8>, timestamp_ms: u128) -> EntryView {
    EntryView { key, value: None, timestamp_ms, is_deleted: true }
}

/// Keys strictly increase along `s`, so no key occurs twice.
pub open spec fn keys_sorted(s: Seq<EntryView>) -> bool {
    forall|i: int, j: int| 0 <= i < j < s.len() ==> lex_lt(#[trigger] s[i].key, #[trigger] s[j].key)
}

/// Every record is a tombstone exactly when it holds no value.
pub open spec fn tombstones_consistent(s: Seq<EntryView>) -> bool {
    forall|i: int| 0 <= i < s.len() ==> (#[trigger] s[i]).is_deleted == s[i].value is None
}

/// Some record of `s` has key `k`.
pub open spec fn has_key(s: Seq<EntryView>, k: Seq<u8>) -> bool {
    exists|i: int| 0 <= i < s.len() && (#[trigger] s[i]).key == k
}

/// The record of `s` with key `k`, if there is one.
pub open spec fn lookup(s: Seq<EntryView>, k: Seq<u8>) -> Option<EntryView> {
    if has_key(s, k) {
        Some(s[choose|i: int| 0 <= i < s.len() && (#[trigger] s[i]).key == k])
    } else {
        None
    }
}

/// Length of a stored value; a tombstone stores none.
pub open spec fn value_len(v: Option<Seq<u8>>) -> nat {
    match v {
        Some(v) => v.len(),
        None => 0,
    }
}

/// Length of the value stored under `k` in `s`, 0 where there is none.
pub open spec fn stored_len(s: Seq<EntryView>, k: Seq<u8>) -> nat {
    match lookup(s, k) {
        Some(e) => value_len(e.value),
        None => 0,
    }
}

/// Accounted bytes of one record: key, value and the fixed overhead.
pub open spec fn entry_cost(e: EntryView) -> nat {
    e.key.len() + value_len(e.value) + ENTRY_OVERHEAD as nat
}

/// Accounted bytes of all records of `s`.
pub open spec fn total_cost(s: Seq<EntryView>) -> nat
    decreases s.len(),
{
    if s.len() == 0 {
        0
    } else {
        total_cost(s.drop_last()) + entry_cost(s.last())
    }
}

/// `after` is `before` with `rec` written at its key: the record with that key
/// replaced in place, or else `rec` inserted at some position.
pub open spec fn upserted(before: Seq<EntryView>, after: Seq<EntryView>, rec: EntryView) -> bool {
    if has_key(before, rec.key) {
        exists|i: int|
            0 <= i < before.len() && (#[trigger] before[i]).key == rec.key && after == before.update(i, rec)
    } else {
        exists|i: int| 0 <= i <= before.len() && after == #[trigger] before.insert(i, rec)
    }
}

/// In a sorted sequence a key sits at one position only.
pub proof fn lemma_key_position_unique(s: Seq<EntryView>, i: int, j: int)
    requires
        keys_sorted(s),
        0 <= i < s.len(),
        0 <= j < s.len(),
        s[i].key == s[j].key,
    ensures
        i == j,
{
    if i < j || j < i {
        lemma_lex_lt_irreflexive(s[i].key);
    }
}

/// In a sorted sequence, the record at a position holding `k` is what
/// `lookup` finds for `k`.
pub proof fn lemma_lookup_at(s: Seq<EntryView>, i: int)
    requires
        keys_sorted(s),
        0 <= i < s.len(),
    ensures
        lookup(s, s[i].key) == Some(s[i]),
{
    let k = s[i].key;
    assert(has_key(s, k));
    let j = choose|j: int| 0 <= j < s.len() && (#[trigger] s[j]).key == k;
    lemma_key_position_unique(s, i, j);
}

/// The accounted bytes of two runs of records add up.
pub proof fn lemma_total_cost_concat(a: Seq<EntryView>, b: Seq<EntryView>)
    ensures
        total_cost(a + b) == total_cost(a) + total_cost(b),
    decreases b.len(),
{
    if b.len() == 0 {
        assert(a + b =~= a);
    } else {
        lemma_total_cost_concat(a, b.drop_last());
        assert((a + b).drop_last() =~= a + b.drop_last());
        assert((a + b).last() == b.last());
    }
}

proof fn lemma_total_cost_single(e: EntryView)
    ensures
        total_cost(seq![e]) == entry_cost(e),
{
    let s = seq![e];
    assert(s.drop_last() =~= Seq::<EntryView>::empty());
    assert(total_cost(s.drop_last()) == 0);
    assert(s.last() == e);
}

/// Replacing one record changes the total by the difference of the two
/// records' costs.
pub proof fn lemma_total_cost_update(s: Seq<EntryView>, i: int, e: EntryView)
    requires
        0 <= i < s.len(),
    ensures
        entry_cost(s[i]) <= total_cost(s),
        total_cost(s.update(i, e)) == total_cost(s) - entry_cost(s[i]) + entry_cost(e),
{
    let pre = s.take(i);
    let post = s.skip(i + 1);
    assert(s =~= pre + seq![s[i]] + post);
    assert(s.update(i, e) =~= pre + seq![e] + post);
    lemma_total_cost_concat(pre + seq![s[i]], post);
    lemma_total_cost_concat(pre, seq![s[i]]);
    lemma_total_cost_concat(pre + seq![e], post);
    lemma_total_cost_concat(pre, seq![e]);
    lemma_total_cost_single(s[i]);
    lemma_total_cost_single(e);
}

/// Inserting a record adds its cost to the total.
pub proof fn lemma_total_cost_insert(s: Seq<EntryView>, i: int, e: EntryView)
    requires
        0 <= i <= s.len(),
    ensures
        total_cost(s.insert(i, e)) == total_cost(s) + entry_cost(e),
{
    let pre = s.take(i);
    let post = s.skip(i);
    assert(s =~= pre + post);
    assert(s.insert(i, e) =~= pre + seq![e] + post);
    lemma_total_cost_concat(pre, post);
    lemma_total_cost_concat(pre + seq![e], post);
    lemma_total_cost_concat(pre, seq![e]);
    lemma_total_cost_single(e);
}

/// The ordered write buffer.
pub struct MemTable {
    entries: Vec<MemTableEntry>,
    size: usize,
}

impl View for MemTable {
    type V = Seq<EntryView>;

    closed spec fn view(&self) -> Seq<EntryView> {
        self.entries@.map_values(|e: MemTableEntry| e@)
    }
}

impl MemTable {
    /// The buffer's invariant: records sorted by key with no key twice,
    /// tombstones holding no value, and `size` equal to the accounted bytes
    /// of all records.
    pub closed spec fn wf(&self) -> bool {
        &&& keys_sorted(self@)
        &&& tombstones_consistent(self@)
        &&& self.size == total_cost(self@)
    }

    /// Creates an empty buffer.
    pub fn new() -> (r: MemTable)
        ensures
            r.wf(),
            r@ == Seq::<EntryView>::empty(),
    {
        let r = MemTable { entries: Vec::new(), size: 0 };
        assert(r@ =~= Seq::<EntryView>::empty());
        r
    }

    /// Binary search by key: `Ok` with the position of `key`, or `Err` with
    /// the position at which it would have to be inserted to keep the order.
    fn get_index(&self, key: &[u8]) -> (r: Result<usize, usize>)
        requires
            self.wf(),
        ensures
            match r {
                Ok(i) => i < self@.len() && self@[i as int].key == key@,
                Err(i) => {
                    &&& i <= self@.len()
                    &&& forall|j: int| 0 <= j < i ==> lex_lt(#[trigger] self@[j].key, key@)
                    &&& forall|j: int| i <= j < self@.len() ==> lex_lt(key@, #[trigger] self@[j].key)
                },
            },
    {
        let mut lo: usize = 0;
        let mut hi: usize = self.entries.len();
        while lo < hi
            invariant
                self.wf(),
                lo <= hi <= self@.len(),
                self@.len() == self.entries@.len(),
                forall|j: int| 0 <= j < lo ==> lex_lt(#[trigger] self@[j].key, key@),
                forall|j: int| hi <= j < self@.len() ==> lex_lt(key@, #[trigger] self@[j].key),
            decreases hi - lo,
        {
            let mid: usize = lo + (hi - lo) / 2;
            let mid_key = self.entries[mid].key.as_slice();
            assert(mid_key@ == self@[mid as int].key);
            match compare_keys(mid_key, key) {
                Ordering::Less => {
                    assert forall|j: int| 0 <= j <= mid implies lex_lt(#[trigger] self@[j].key, key@) by {
                        if j < mid {
                            lemma_lex_lt_transitive(self@[j].key, mid_key@, key@);
                        }
                    }
                    lo = mid + 1;
                },
                Ordering::Greater => {
                    assert forall|j: int| mid <= j < self@.len() implies lex_lt(key@, #[trigger] self@[j].key) by {
                        if mid < j {
                            lemma_lex_lt_transitive(key@, mid_key@, self@[j].key);
                        }
                    }
                    hi = mid;
                },
                Ordering::Equal => {
                    return Ok(mid);
                },
            }
        }
        Err(lo)
    }

    /// Stores `entry` at the position that `get_index` reported for its key,
    /// replacing the record there or inserting a new one, and keeps `size`
    /// equal to the accounted bytes.
    fn upsert(&mut self, found: Result<usize, usize>, entry: MemTableEntry)
        requires
            old(self).wf(),
            entry.is_deleted == entry.value is None,
            match found {
                Ok(i) => i < old(self)@.len() && old(self)@[i as int].key == entry.key@,
                Err(i) => {
                    &&& i <= old(self)@.len()
                    &&& forall|j: int| 0 <= j < i ==> lex_lt(#[trigger] old(self)@[j].key, entry.key@)
                    &&& forall|j: int|
                        i <= j < old(self)@.len() ==> lex_lt(entry.key@, #[trigger] old(self)@[j].key)
                },
            },
            total_cost(old(self)@) + entry_cost(entry@) <= usize::MAX,
        ensures
            final(self).wf(),
            upserted(old(self)@, final(self)@, entry@),
            total_cost(final(self)@) == total_cost(old(self)@) - stored_len(old(self)@, entry.key@)
                + value_len(entry@.value) + if has_key(old(self)@, entry.key@) {
                0
            } else {
                entry.key@.len() + ENTRY_OVERHEAD
            },
    {
        let ghost before = self@;
        let ghost rec = entry@;
        let new_len: usize = match &entry.value {
            Some(v) => v.len(),
            None => 0,
        };
        match found {
            Ok(idx) => {
                proof {
                    lemma_lookup_at(before, idx as int);
                    lemma_total_cost_update(before, idx as int, rec);
                }
                let old_len: usize = match &self.entries[idx].value {
                    Some(v) => v.len(),
                    None => 0,
                };
                assert(old_len == value_len(before[idx as int].value));
                if new_len < old_len {
                    self.size = self.size - (old_len - new_len);
                } else {
                    self.size = self.size + (new_len - old_len);
                }
                self.entries.set(idx, entry);
                proof {
                    assert(self@ =~= before.update(idx as int, rec));
                    assert(before[idx as int].key == rec.key);
                }
            },
            Err(idx) => {
                proof {
                    lemma_total_cost_insert(before, idx as int, rec);
                    if has_key(before, rec.key) {
                        let j = choose|j: int| 0 <= j < before.len() && (#[trigger] before[j]).key == rec.key;
                        lemma_lex_lt_irreflexive(rec.key);
                        assert(j < idx || idx <= j);
                    }
                }
                let key_len: usize = entry.key.len();
                self.size = self.size + key_len + new_len + ENTRY_OVERHEAD;
                self.entries.insert(idx, entry);
                proof {
                    assert(self@ =~= before.insert(idx as int, rec));
                    assert forall|i: int, j: int| 0 <= i < j < self@.len() implies lex_lt(
                        #[trigger] self@[i].key,
                        #[trigger] self@[j].key,
                    ) by {
                        if j < idx {
                        } else if j == idx {
                        } else if i < idx {
                            lemma_lex_lt_transitive(self@[i].key, rec.key, self@[j].key);
                        } else if i == idx {
                        } else {
                            assert(self@[i] == before[i - 1]);
                            assert(self@[j] == before[j - 1]);
                        }
                    }
                }
            },
        }
    }

    /// Writes `value` under `key`: replaces the key's record in place if it
    /// has one, else inserts a new record at its sorted position. The size
    /// changes by the difference of the value lengths (a tombstone counting
    /// as 0), or for a new key by the key and value lengths plus the fixed
    /// overhead.
    pub fn set(&mut self, key: &[u8], value: &[u8], timestamp_ms: u128)
        requires
            old(self).wf(),
            total_cost(old(self)@) + key@.len() + value@.len() + ENTRY_OVERHEAD <= usize::MAX,
        ensures
            final(self).wf(),
            upserted(old(self)@, final(self)@, write_record(key@, value@, timestamp_ms)),
            total_cost(final(self)@) == total_cost(old(self)@) - stored_len(old(self)@, key@)
                + value@.len() + if has_key(old(self)@, key@) {
                0
            } else {
                key@.len() + ENTRY_OVERHEAD
            },
    {
        let entry = MemTableEntry {
            key: slice_to_vec(key),
            value: Some(slice_to_vec(value)),
            timestamp_ms,
            is_deleted: false,
        };
        let found = self.get_index(key);
        self.upsert(found, entry);
    }

    /// Marks `key` deleted with a tombstone: replaces the key's record in
    /// place if it has one, else inserts a tombstone at its sorted position.
    /// The size loses the length of the value the key held, or for a new key
    /// gains the key length plus the fixed overhead.
    pub fn delete(&mut self, key: &[u8], timestamp_ms: u128)
        requires
            old(self).wf(),
            total_cost(old(self)@) + key@.len() + ENTRY_OVERHEAD <= usize::MAX,
        ensures
            final(self).wf(),
            upserted(old(self)@, final(self)@, tombstone_record(key@, timestamp_ms)),
            total_cost(final(self)@) == total_cost(old(self)@) - stored_len(old(self)@, key@)
                + if has_key(old(self)@, key@) {
                0
            } else {
                key@.len() + ENTRY_OVERHEAD
            },
    {
        let entry = MemTableEntry { key: slice_to_vec(key), value: None, timestamp_ms, is_deleted: true };
        let found = self.get_index(key);
        self.upsert(found, entry);
    }

    /// The record with key `key`, which may be a tombstone, or `None` where
    /// the buffer holds nothing for that key.
    pub fn get(&self, key: &[u8]) -> (r: Option<&MemTableEntry>)
        requires
            self.wf(),
        ensures
            match r {
                Some(e) => lookup(self@, key@) == Some(e@),
                None => lookup(self@, key@) is None,
            },
    {
        match self.get_index(key) {
            Ok(idx) => {
                proof {
                    lemma_lookup_at(self@, idx as int);
                }
                Some(&self.entries[idx])
            },
            Err(idx) => {
                proof {
                    if has_key(self@, key@) {
                        let j = choose|j: int| 0 <= j < self@.len() && (#[trigger] self@[j]).key == key@;
                        lemma_lex_lt_irreflexive(key@);
                        assert(j < idx || idx <= j);
                    }
                }
                None
            },
        }
    }

    /// Number of distinct keys held, tombstones included.
    pub fn len(&self) -> (r: usize)
        ensures
            r == self@.len(),
    {
        self.entries.len()
    }

    /// All records, in key order.
    pub fn entries(&self) -> (r: &[MemTableEntry])
        ensures
            r@.map_values(|e: MemTableEntry| e@) == self@,
    {
        self.entries.as_slice()
    }

    /// Accounted bytes of the buffer.
    pub fn size(&self) -> (r: usize)
        requires
            self.wf(),
        ensures
            r == total_cost(self@),
    {
        self.size
    }
}

/// After a write of `rec`, looking up its key finds exactly `rec`.
pub proof fn lemma_lookup_after_upsert(before: Seq<EntryView>, after: Seq<EntryView>, rec: EntryView)
    requires
        keys_sorted(after),
        upserted(before, after, rec),
    ensures
        lookup(after, rec.key) == Some(rec),
{
    if has_key(before, rec.key) {
        let i = choose|i: int|
            0 <= i < before.len() && (#[trigger] before[i]).key == rec.key && after == before.update(i, rec);
        lemma_lookup_at(after, i);
    } else {
        let i = choose|i: int| 0 <= i <= before.len() && after == #[trigger] before.insert(i, rec);
        lemma_lookup_at(after, i);
    }
}

/// Every buffer that `new`, `set` and `delete` produce, and hence every
/// sequence of those calls at every point, holds its records strictly sorted
/// by key, so with no key twice, and each record is a tombstone exactly when
/// it holds no value.
pub proof fn lemma_entries_sorted(t: &MemTable)
    requires
        t.wf(),
    ensures
        keys_sorted(t@),
        tombstones_consistent(t@),
{
}

/// Last writer wins: after `set(k, v1, t1)` and then `set(k, v2, t2)` the
/// record for `k` holds `v2` and `t2`, whatever the order of `t1` and `t2`.
pub proof fn lemma_last_writer_wins(
    first: MemTable,
    second: MemTable,
    third: MemTable,
    k: Seq<u8>,
    v1: Seq<u8>,
    t1: u128,
    v2: Seq<u8>,
    t2: u128,
)
    requires
        first.wf(),
        second.wf(),
        third.wf(),
        upserted(first@, second@, write_record(k, v1, t1)),
        upserted(second@, third@, write_record(k, v2, t2)),
    ensures
        lookup(third@, k) == Some(write_record(k, v2, t2)),
{
    lemma_lookup_after_upsert(second@, third@, write_record(k, v2, t2));
}

/// After `delete(k, t)` the record for `k` is a tombstone with no value and
/// timestamp `t`, whether or not `k` had a record before.
pub proof fn lemma_delete_leaves_tombstone(before: MemTable, after: MemTable, k: Seq<u8>, t: u128)
    requires
        before.wf(),
        after.wf(),
        upserted(before@, after@, tombstone_record(k, t)),
    ensures
        lookup(after@, k) == Some(tombstone_record(k, t)),
        lookup(after@, k) matches Some(e) && e.value is None && e.is_deleted && e.timestamp_ms == t,
{
    lemma_lookup_after_upsert(before@, after@, tombstone_record(k, t));
}

/// A write of one key leaves what every other key looks up to unchanged; in
/// particular a key that no call has written, starting from the empty
/// buffer, stays absent, which `get` reports as `None` and not as a
/// tombstone.
pub proof fn lemma_other_keys_unchanged(before: MemTable, after: MemTable, rec: EntryView, k: Seq<u8>)
    requires
        before.wf(),
        after.wf(),
        upserted(before@, after@, rec),
        k != rec.key,
    ensures
        lookup(after@, k) == lookup(before@, k),
        before@ == Seq::<EntryView>::empty() ==> lookup(after@, k) is None,
{
    let b = before@;
    let a = after@;
    let replaced = has_key(b, rec.key);
    let i = if replaced {
        choose|i: int| 0 <= i < b.len() && (#[trigger] b[i]).key == rec.key && a == b.update(i, rec)
    } else {
        choose|i: int| 0 <= i <= b.len() && a == #[trigger] b.insert(i, rec)
    };
    if has_key(b, k) {
        let j = choose|j: int| 0 <= j < b.len() && (#[trigger] b[j]).key == k;
        lemma_lookup_at(b, j);
        let ja = if replaced || j < i {
            j
        } else {
            j + 1
        };
        assert(a[ja] == b[j]);
        lemma_lookup_at(a, ja);
    } else if has_key(a, k) {
        let ja = choose|j: int| 0 <= j < a.len() && (#[trigger] a[j]).key == k;
        if replaced || ja < i {
            assert(b[ja].key == k);
        } else {
            assert(b[ja - 1].key == k);
        }
    }
}

/// Deleting a key that is already a tombstone keeps the number of records
/// and the accounted size, and changes only the record's timestamp.
pub proof fn lemma_redelete_changes_only_timestamp(before: MemTable, after: MemTable, k: Seq<u8>, t: u128)
    requires
        before.wf(),
        after.wf(),
        lookup(before@, k) matches Some(e) && e.is_deleted,
        upserted(before@, after@, tombstone_record(k, t)),
    ensures
        after@.len() == before@.len(),
        total_cost(after@) == total_cost(before@),
        lookup(after@, k) == Some(EntryView { timestamp_ms: t, ..lookup(before@, k).unwrap() }),
{
    let b = before@;
    let rec = tombstone_record(k, t);
    let j = choose|j: int| 0 <= j < b.len() && (#[trigger] b[j]).key == k;
    let i = choose|i: int| 0 <= i < b.len() && (#[trigger] b[i]).key == k && after@ == b.update(i, rec);
    lemma_key_position_unique(b, i, j);
    lemma_total_cost_update(b, i, rec);
    lemma_lookup_after_upsert(b, after@, rec);
    assert(b[i].value is None);
}

} // verus!
