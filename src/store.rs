use crate::codec::{append_bytes, clamp_usize, decode_value, deserialize_value, item_fits, lemma_decode_value_prefix, lemma_decode_value_span, lemma_value_round_trip, serialize_value, value_record};
use crate::error::{surface, surfaced, DeserializationError, StoreError};
use crate::iterator::{StoreIter, StoreIterator};
use crate::types::{keys_equal, BorrowedEntry, Item, Key, Value};
use vstd::prelude::*;
use vstd::set_lib::{lemma_int_range, lemma_len_subset, lemma_set_disjoint_lens, set_int_range};

mod snapshot;

pub use snapshot::{lemma_snapshot_round_trip, load_index, keys_file, meta_file, key_storable, wants_compaction, Snapshot, FILE_VERSION, META_SIZE};
use vstd::slice::slice_subrange;

verus! {

/// The abstract state of a store: which offset each live key points to, and
/// the append-only byte buffer the offsets point into.
pub struct LogModel {
    pub index: Map<Item, usize>,
    pub data: Seq<u8>,
}

/// What reading the record at `off` in `data` gives.
pub open spec fn read_at(data: Seq<u8>, off: int) -> Result<Item, DeserializationError> {
    if off >= data.len() {
        Err(DeserializationError::BufferTooShort { expected: clamp_usize(off + 1), actual: data.len() as usize })
    } else {
        match decode_value(data.subrange(off, data.len() as int)) {
            Ok((v, _)) => Ok(v),
            Err(e) => Err(e),
        }
    }
}

/// What reading key `k` gives: nothing when it is not live, else the result of
/// reading the record it points to.
pub open spec fn read_model(m: LogModel, k: Item) -> Option<Result<Item, DeserializationError>> {
    if m.index.contains_key(k) {
        Some(read_at(m.data, m.index[k] as int))
    } else {
        None
    }
}

/// The state after storing `v` under `k`: its record is appended and `k`
/// points to where it starts.
pub open spec fn put_model(m: LogModel, k: Item, v: Item) -> LogModel {
    LogModel { index: m.index.insert(k, m.data.len() as usize), data: m.data + value_record(v) }
}

/// The state after deleting `k`: the key is gone, the bytes stay.
pub open spec fn delete_model(m: LogModel, k: Item) -> LogModel {
    LogModel { index: m.index.remove(k), data: m.data }
}

/// Whether every live key reads back a value.
pub open spec fn all_readable(m: LogModel) -> bool {
    forall|k: Item| #[trigger] m.index.contains_key(k) ==> read_at(m.data, m.index[k] as int) is Ok
}

/// How many bytes the record at `off` spans, or 0 where it cannot be read.
pub open spec fn span_at(data: Seq<u8>, off: int) -> int {
    if 0 <= off < data.len() && decode_value(data.subrange(off, data.len() as int)) is Ok {
        decode_value(data.subrange(off, data.len() as int))->Ok_0.1
    } else {
        0
    }
}

/// The bytes spanned by the records that the entries point to, summed and
/// capped at the largest `usize`.
pub open spec fn live_total(entries: Seq<(Key, usize)>, data: Seq<u8>) -> int
    decreases entries.len(),
{
    if entries.len() == 0 {
        0
    } else {
        clamp_usize(live_total(entries.drop_last(), data) + span_at(data, entries.last().1 as int)) as int
    }
}

/// Whether every entry points to a record that reads back.
pub open spec fn entries_readable(entries: Seq<(Key, usize)>, data: Seq<u8>) -> bool {
    forall|j: int| 0 <= j < entries.len() ==> #[trigger] read_at(data, entries[j].1 as int) is Ok
}

/// Appending bytes changes neither what a readable record reads nor its span.
pub proof fn lemma_read_after_append(d: Seq<u8>, e: Seq<u8>, off: int)
    requires
        0 <= off,
        read_at(d, off) is Ok,
    ensures
        read_at(d + e, off) == read_at(d, off),
        span_at(d + e, off) == span_at(d, off),
        off + span_at(d, off) <= d.len(),
{
    let b = d.subrange(off, d.len() as int);
    let c = (d + e).subrange(off, (d + e).len() as int);
    lemma_decode_value_span(b);
    let n = decode_value(b)->Ok_0.1;
    assert(c.subrange(0, n) =~= b.subrange(0, n));
    lemma_decode_value_prefix(b, c);
}

/// Appending bytes does not change the live total of readable entries.
pub proof fn lemma_live_total_after_append(entries: Seq<(Key, usize)>, d: Seq<u8>, e: Seq<u8>)
    requires
        entries_readable(entries, d),
    ensures
        live_total(entries, d + e) == live_total(entries, d),
    decreases entries.len(),
{
    if entries.len() > 0 {
        let front = entries.drop_last();
        assert forall|j: int| 0 <= j < front.len() implies #[trigger] read_at(d, front[j].1 as int) is Ok by {
            assert(front[j] == entries[j]);
        }
        lemma_live_total_after_append(front, d, e);
        assert(read_at(d, entries[entries.len() - 1].1 as int) is Ok);
        lemma_read_after_append(d, e, entries.last().1 as int);
    }
}

/// Whether the readable records that the entries point to occupy pairwise
/// disjoint byte ranges.
pub open spec fn records_disjoint(entries: Seq<(Key, usize)>, data: Seq<u8>) -> bool {
    forall|i: int, j: int|
        0 <= i < j < entries.len() ==> span_at(data, #[trigger] entries[i].1 as int) == 0 || span_at(
            data,
            #[trigger] entries[j].1 as int,
        ) == 0 || entries[i].1 + span_at(data, entries[i].1 as int) <= entries[j].1 || entries[j].1
            + span_at(data, entries[j].1 as int) <= entries[i].1
}

/// The byte positions covered by the readable records that the entries point to.
pub open spec fn covered(entries: Seq<(Key, usize)>, data: Seq<u8>) -> Set<int> {
    Set::new(
        |p: int|
            exists|i: int|
                0 <= i < entries.len() && entries[i].1 <= p < entries[i].1 + span_at(data, #[trigger] entries[i].1 as int),
    )
}

/// A readable record lies within the buffer.
proof fn lemma_span_within(data: Seq<u8>, off: int)
    requires
        0 <= off,
    ensures
        span_at(data, off) >= 0,
        span_at(data, off) > 0 ==> off + span_at(data, off) <= data.len(),
{
    if 0 <= off < data.len() && decode_value(data.subrange(off, data.len() as int)) is Ok {
        lemma_decode_value_span(data.subrange(off, data.len() as int));
    }
}

/// With disjoint records, the live total counts the covered positions.
proof fn lemma_live_total_covered(entries: Seq<(Key, usize)>, data: Seq<u8>)
    requires
        records_disjoint(entries, data),
        data.len() <= usize::MAX,
    ensures
        covered(entries, data).finite(),
        covered(entries, data).subset_of(set_int_range(0, data.len() as int)),
        live_total(entries, data) == covered(entries, data).len(),
    decreases entries.len(),
{
    lemma_int_range(0, data.len() as int);
    if entries.len() == 0 {
        assert(covered(entries, data) =~= Set::<int>::empty());
    } else {
        let front = entries.drop_last();
        let n = entries.len() - 1;
        let o = entries[n].1 as int;
        lemma_span_within(data, o);
        let w = span_at(data, o);
        assert(records_disjoint(front, data)) by {
            assert forall|i: int, j: int| 0 <= i < j < front.len() implies span_at(data, #[trigger] front[i].1 as int) == 0
                || span_at(data, #[trigger] front[j].1 as int) == 0 || front[i].1 + span_at(data, front[i].1 as int)
                <= front[j].1 || front[j].1 + span_at(data, front[j].1 as int) <= front[i].1 by {
                assert(front[i] == entries[i] && front[j] == entries[j]);
            }
        }
        lemma_live_total_covered(front, data);
        let cf = covered(front, data);
        let r = set_int_range(o, o + w);
        lemma_int_range(o, o + w);
        assert(covered(entries, data) =~= cf + r) by {
            assert forall|p: int| covered(entries, data).contains(p) <==> (cf + r).contains(p) by {
                if covered(entries, data).contains(p) {
                    let i = choose|i: int|
                        0 <= i < entries.len() && entries[i].1 <= p < entries[i].1 + span_at(data, #[trigger] entries[i].1 as int);
                    if i < n {
                        assert(front[i] == entries[i]);
                    }
                }
                if cf.contains(p) {
                    let i = choose|i: int|
                        0 <= i < front.len() && front[i].1 <= p < front[i].1 + span_at(data, #[trigger] front[i].1 as int);
                    assert(front[i] == entries[i]);
                }
                if r.contains(p) {
                    assert(entries[n].1 <= p < entries[n].1 + span_at(data, entries[n].1 as int));
                }
            }
        }
        assert(cf.disjoint(r)) by {
            assert forall|p: int| cf.contains(p) implies !r.contains(p) by {
                let i = choose|i: int|
                    0 <= i < front.len() && front[i].1 <= p < front[i].1 + span_at(data, #[trigger] front[i].1 as int);
                assert(front[i] == entries[i]);
                assert(span_at(data, entries[i].1 as int) == 0 || span_at(data, entries[n].1 as int) == 0
                    || entries[i].1 + span_at(data, entries[i].1 as int) <= entries[n].1 || entries[n].1
                    + span_at(data, entries[n].1 as int) <= entries[i].1);
            }
        }
        lemma_set_disjoint_lens(cf, r);
        assert((cf + r).subset_of(set_int_range(0, data.len() as int)));
        lemma_len_subset(cf + r, set_int_range(0, data.len() as int));
    }
}

/// Records that do not overlap span no more bytes than the buffer holds, so
/// compacting such a store never grows its buffer.
pub proof fn lemma_compaction_never_grows(entries: Seq<(Key, usize)>, data: Seq<u8>)
    requires
        records_disjoint(entries, data),
        data.len() <= usize::MAX,
    ensures
        live_total(entries, data) <= data.len(),
{
    lemma_live_total_covered(entries, data);
    lemma_int_range(0, data.len() as int);
    lemma_len_subset(covered(entries, data), set_int_range(0, data.len() as int));
}

/// Every live record reads back and no two live records overlap: the layout
/// that storing and deleting keep.
pub open spec fn layout_sound(m: LogModel) -> bool {
    &&& all_readable(m)
    &&& forall|a: Item, b: Item|
        #[trigger] m.index.contains_key(a) && #[trigger] m.index.contains_key(b) && a != b ==> m.index[a]
            + span_at(m.data, m.index[a] as int) <= m.index[b] || m.index[b] + span_at(m.data, m.index[b] as int)
            <= m.index[a]
}

/// The empty store has a sound layout.
pub proof fn lemma_empty_layout_sound(data: Seq<u8>)
    ensures
        layout_sound(LogModel { index: Map::empty(), data }),
{
}

/// Storing a value keeps the layout sound.
pub proof fn lemma_put_keeps_layout(m: LogModel, k: Item, v: Item)
    requires
        layout_sound(m),
        item_fits(v),
        m.data.len() + value_record(v).len() <= usize::MAX,
    ensures
        layout_sound(put_model(m, k, v)),
{
    let m2 = put_model(m, k, v);
    lemma_get_after_put(m, k, v);
    let off = m.data.len() as int;
    assert(m2.data.subrange(off, m2.data.len() as int) =~= value_record(v) + Seq::<u8>::empty());
    lemma_value_round_trip(v, Seq::<u8>::empty());
    assert(span_at(m2.data, off) == value_record(v).len());
    assert forall|q: Item| q != k && #[trigger] m.index.contains_key(q) implies read_at(m2.data, m.index[q] as int)
        == read_at(m.data, m.index[q] as int) && span_at(m2.data, m.index[q] as int) == span_at(m.data, m.index[q] as int)
        && m.index[q] + span_at(m.data, m.index[q] as int) <= off by {
        lemma_read_after_append(m.data, value_record(v), m.index[q] as int);
    }
    assert forall|q: Item| #[trigger] m2.index.contains_key(q) implies read_at(m2.data, m2.index[q] as int) is Ok by {
        if q != k {
            assert(m.index.contains_key(q));
        }
    }
}

/// Deleting a key keeps the layout sound.
pub proof fn lemma_delete_keeps_layout(m: LogModel, k: Item)
    requires
        layout_sound(m),
    ensures
        layout_sound(delete_model(m, k)),
{
    let m2 = delete_model(m, k);
    assert forall|q: Item| #[trigger] m2.index.contains_key(q) implies read_at(m2.data, m2.index[q] as int) is Ok by {
        assert(m.index.contains_key(q));
    }
    assert forall|a: Item, b: Item|
        #[trigger] m2.index.contains_key(a) && #[trigger] m2.index.contains_key(b) && a != b implies m2.index[a]
            + span_at(m2.data, m2.index[a] as int) <= m2.index[b] || m2.index[b] + span_at(m2.data, m2.index[b] as int)
            <= m2.index[a] by {
        assert(m.index.contains_key(a) && m.index.contains_key(b));
    }
}

/// Reading a key right after storing a value under it gives that value.
pub proof fn lemma_get_after_put(m: LogModel, k: Item, v: Item)
    requires
        item_fits(v),
        m.data.len() + value_record(v).len() <= usize::MAX,
    ensures
        read_model(put_model(m, k, v), k) == Some(Ok::<Item, DeserializationError>(v)),
{
    let m2 = put_model(m, k, v);
    let off = m.data.len() as int;
    assert(m2.data.subrange(off, m2.data.len() as int) =~= value_record(v) + Seq::<u8>::empty());
    lemma_value_round_trip(v, Seq::<u8>::empty());
}

/// Storing a value under one key leaves what any other readable key reads unchanged.
pub proof fn lemma_put_keeps_other_keys(m: LogModel, k: Item, v: Item, other: Item)
    requires
        other != k,
        read_model(m, other) matches Some(Ok(_)),
    ensures
        read_model(put_model(m, k, v), other) == read_model(m, other),
{
    lemma_read_after_append(m.data, value_record(v), m.index[other] as int);
}

/// After deleting a key it reads as absent, and every other key reads as before.
pub proof fn lemma_delete_removes(m: LogModel, k: Item, other: Item)
    ensures
        read_model(delete_model(m, k), k) is None,
        other != k ==> read_model(delete_model(m, k), other) == read_model(m, other),
{
}

/// The text of an optional path.
pub open spec fn path_view(p: Option<String>) -> Option<Seq<char>> {
    match p {
        Some(s) => Some(s@),
        None => None,
    }
}

/// An in-memory offset index over an append-only byte buffer of records.
pub struct Store {
    index: Vec<(Key, usize)>,
    data: Vec<u8>,
    path: Option<String>,
    map: Ghost<Map<Item, usize>>,
}

impl View for Store {
    type V = LogModel;

    closed spec fn view(&self) -> LogModel {
        LogModel { index: self.map@, data: self.data@ }
    }
}

impl Store {
    /// The index entries in their internal order.
    pub closed spec fn entries(&self) -> Seq<(Key, usize)> {
        self.index@
    }

    /// The base path of the store's snapshot files, if it has one.
    pub closed spec fn base_path(&self) -> Option<Seq<char>> {
        path_view(self.path)
    }

    /// An empty index over `data`, with the given path.
    fn with_parts(data: Vec<u8>, path: Option<String>) -> (r: Store)
        ensures
            r.wf(),
            r@.index == Map::<Item, usize>::empty(),
            r@.data == data@,
            r.base_path() == path_view(path),
    {
        Store { index: Vec::new(), data, path, map: Ghost(Map::empty()) }
    }

    /// The number of live keys equals the number of index entries.
    pub proof fn lemma_dom_len(&self)
        requires
            self.wf(),
        ensures
            self@.index.dom().len() == self.entries().len(),
    {
        let ks = self.index@.map_values(|e: (Key, usize)| e.0@);
        assert(ks.no_duplicates()) by {
            assert forall|i: int, j: int|
                0 <= i < ks.len() && 0 <= j < ks.len() && i != j implies ks[i] != ks[j] by {
                if i < j {
                    assert(self.index@[i].0@ != self.index@[j].0@);
                } else {
                    assert(self.index@[j].0@ != self.index@[i].0@);
                }
            }
        }
        ks.unique_seq_to_set();
        assert(self.map@.dom() =~= ks.to_set()) by {
            assert forall|k: Item| self.map@.dom().contains(k) <==> ks.contains(k) by {
                if self.map@.contains_key(k) {
                    let i = choose|i: int| 0 <= i < self.index@.len() && #[trigger] self.index@[i].0@ == k;
                    assert(ks[i] == k);
                }
                if ks.contains(k) {
                    let i = choose|i: int| 0 <= i < ks.len() && ks[i] == k;
                    assert(self.index@[i].0@ == k);
                }
            }
        }
    }

    /// The index holds each key once and agrees with the abstract map.
    pub closed spec fn wf(&self) -> bool {
        &&& forall|i: int, j: int|
            0 <= i < j < self.index@.len() ==> #[trigger] self.index@[i].0@ != #[trigger] self.index@[j].0@
        &&& forall|i: int|
            #![trigger self.index@[i]]
            0 <= i < self.index@.len() ==> self.map@.contains_key(self.index@[i].0@)
                && self.map@[self.index@[i].0@] == self.index@[i].1
        &&& forall|k: Item|
            #[trigger] self.map@.contains_key(k) ==> exists|i: int|
                0 <= i < self.index@.len() && #[trigger] self.index@[i].0@ == k
    }

    /// An empty store without a path.
    pub fn new() -> (r: Store)
        ensures
            r.wf(),
            r@.index == Map::<Item, usize>::empty(),
            r@.data == Seq::<u8>::empty(),
            r.base_path() is None,
    {
        Store { index: Vec::new(), data: Vec::new(), path: None, map: Ghost(Map::empty()) }
    }

    /// Where `key` sits in the index, if it is live.
    fn find(&self, key: &Key) -> (r: Option<usize>)
        requires
            self.wf(),
        ensures
            match r {
                Some(i) => i < self.index@.len() && self.index@[i as int].0@ == key@,
                None => !self@.index.contains_key(key@),
            },
    {
        let mut i: usize = 0;
        while i < self.index.len()
            invariant
                self.wf(),
                i <= self.index@.len(),
                forall|j: int| 0 <= j < i ==> #[trigger] self.index@[j].0@ != key@,
            decreases self.index@.len() - i,
        {
            if keys_equal(&self.index[i].0, key) {
                return Some(i);
            }
            i = i + 1;
        }
        None
    }

    /// Appends the record of `value` to the buffer and points `key` at it,
    /// replacing any earlier mapping of `key`.
    pub fn put(&mut self, key: Key, value: Value)
        requires
            old(self).wf(),
            item_fits(value@),
            old(self)@.data.len() + value_record(value@).len() <= usize::MAX,
        ensures
            final(self).wf(),
            final(self)@ == put_model(old(self)@, key@, value@),
            final(self).base_path() == old(self).base_path(),
    {
        let pos = self.data.len();
        let record = serialize_value(&value);
        append_bytes(&mut self.data, record.as_slice());
        assert(self.index@ == old(self).index@ && self.map@ == old(self).map@);
        self.point(key, pos);
    }

    /// Points `key` at `pos`, replacing any earlier mapping of `key`.
    fn point(&mut self, key: Key, pos: usize)
        requires
            old(self).wf(),
        ensures
            final(self).wf(),
            final(self)@.index == old(self)@.index.insert(key@, pos),
            final(self)@.data == old(self)@.data,
            final(self).base_path() == old(self).base_path(),
    {
        let slot = self.find(&key);
        let ghost k = key@;
        let ghost w: int;
        match slot {
            Some(i) => {
                self.index.set(i, (key, pos));
                proof {
                    w = i as int;
                }
            },
            None => {
                self.index.push((key, pos));
                proof {
                    w = self.index@.len() - 1;
                }
            },
        }
        self.map = Ghost(self.map@.insert(k, pos));
        proof {
            assert(self.index@[w].0@ == k);
            assert forall|q: Item| #[trigger] self.map@.contains_key(q) implies exists|i: int|
                0 <= i < self.index@.len() && #[trigger] self.index@[i].0@ == q by {
                if q != k {
                    let i = choose|i: int| 0 <= i < old(self).index@.len() && #[trigger] old(self).index@[i].0@ == q;
                    assert(self.index@[i].0@ == q);
                } else {
                    assert(self.index@[w].0@ == q);
                }
            }
        }
    }

    /// Reads the record at `pos`, reporting failures as store errors.
    fn read_record(&self, pos: usize) -> (r: Result<BorrowedEntry<'_>, StoreError>)
        ensures
            match read_at(self.data@, pos as int) {
                Ok(v) => r matches Ok(e) && e@ == v,
                Err(c) => r == Err::<BorrowedEntry<'_>, StoreError>(surfaced(c)),
            },
    {
        if pos >= self.data.len() {
            let expected = if pos == usize::MAX { usize::MAX } else { pos + 1 };
            return Err(StoreError::InvalidData {
                cause: DeserializationError::BufferTooShort { expected, actual: self.data.len() },
            });
        }
        match deserialize_value(slice_subrange(self.data.as_slice(), pos, self.data.len())) {
            Ok((entry, _)) => Ok(entry),
            Err(cause) => Err(surface(cause)),
        }
    }

    /// The entry stored under `key`. Its text borrows from the buffer.
    pub fn get(&self, key: &Key) -> (r: Result<BorrowedEntry<'_>, StoreError>)
        requires
            self.wf(),
        ensures
            match read_model(self@, key@) {
                None => r matches Err(StoreError::KeyNotFound(k)) && k@ == key@,
                Some(Ok(v)) => r matches Ok(e) && e@ == v,
                Some(Err(c)) => r == Err::<BorrowedEntry<'_>, StoreError>(surfaced(c)),
            },
    {
        match self.find(key) {
            None => Err(StoreError::KeyNotFound(key.duplicate())),
            Some(i) => self.read_record(self.index[i].1),
        }
    }

    /// Removes `key` from the index; its record stays in the buffer as garbage.
    pub fn delete(&mut self, key: &Key) -> (r: Result<(), StoreError>)
        requires
            old(self).wf(),
        ensures
            final(self).wf(),
            final(self).base_path() == old(self).base_path(),
            old(self)@.index.contains_key(key@) ==> r is Ok && final(self)@ == delete_model(old(self)@, key@),
            !old(self)@.index.contains_key(key@) ==> (r matches Err(StoreError::KeyNotFound(k)) && k@ == key@)
                && final(self)@ == old(self)@,
    {
        match self.find(key) {
            None => Err(StoreError::KeyNotFound(key.duplicate())),
            Some(i) => {
                let ghost k = key@;
                let ghost before = self.index@;
                self.index.remove(i);
                self.map = Ghost(self.map@.remove(k));
                proof {
                    assert forall|a: int, b: int|
                        0 <= a < b < self.index@.len() implies #[trigger] self.index@[a].0@
                        != #[trigger] self.index@[b].0@ by {
                        let a0 = if a < i { a } else { a + 1 };
                        let b0 = if b < i { b } else { b + 1 };
                        assert(self.index@[a] == before[a0]);
                        assert(self.index@[b] == before[b0]);
                    }
                    assert forall|j: int|
                        #![trigger self.index@[j]]
                        0 <= j < self.index@.len() implies self.map@.contains_key(self.index@[j].0@)
                        && self.map@[self.index@[j].0@] == self.index@[j].1 by {
                        let j0 = if j < i { j } else { j + 1 };
                        assert(self.index@[j] == before[j0]);
                        assert(before[j0].0@ != before[i as int].0@);
                    }
                    assert forall|q: Item| #[trigger] self.map@.contains_key(q) implies exists|j: int|
                        0 <= j < self.index@.len() && #[trigger] self.index@[j].0@ == q by {
                        let j0 = choose|j: int| 0 <= j < before.len() && #[trigger] before[j].0@ == q;
                        assert(j0 != i);
                        let j = if j0 < i { j0 } else { j0 - 1 };
                        assert(self.index@[j] == before[j0]);
                    }
                }
                Ok(())
            },
        }
    }

    /// Empties both the index and the buffer.
    pub fn clear(&mut self)
        requires
            old(self).wf(),
        ensures
            final(self).wf(),
            final(self)@.index == Map::<Item, usize>::empty(),
            final(self)@.data == Seq::<u8>::empty(),
            final(self).base_path() == old(self).base_path(),
    {
        self.index.clear();
        self.data.clear();
        self.map = Ghost(Map::empty());
    }

    /// The live keys, each once, in no particular order.
    pub fn keys(&self) -> (r: Vec<&Key>)
        requires
            self.wf(),
        ensures
            forall|i: int, j: int| 0 <= i < j < r@.len() ==> #[trigger] r@[i]@ != #[trigger] r@[j]@,
            forall|k: Item| self@.index.contains_key(k) <==> exists|i: int| 0 <= i < r@.len() && #[trigger] r@[i]@ == k,
    {
        let mut out: Vec<&Key> = Vec::new();
        let mut i: usize = 0;
        while i < self.index.len()
            invariant
                self.wf(),
                i <= self.index@.len(),
                out@.len() == i,
                forall|j: int| 0 <= j < i ==> #[trigger] out@[j]@ == self.index@[j].0@,
            decreases self.index@.len() - i,
        {
            out.push(&self.index[i].0);
            i = i + 1;
        }
        proof {
            assert forall|k: Item| self@.index.contains_key(k) <==> exists|j: int| 0 <= j < out@.len() && #[trigger] out@[j]@ == k by {
                if self@.index.contains_key(k) {
                    let j = choose|j: int| 0 <= j < self.index@.len() && #[trigger] self.index@[j].0@ == k;
                    assert(out@[j]@ == k);
                }
                if exists|j: int| 0 <= j < out@.len() && #[trigger] out@[j]@ == k {
                    let j = choose|j: int| 0 <= j < out@.len() && #[trigger] out@[j]@ == k;
                    assert(self.index@[j].0@ == k);
                }
            }
        }
        out
    }

    /// Reads the record at `pos` in `data`, with the number of bytes it spans.
    fn decode_at(data: &[u8], pos: usize) -> (r: Result<(BorrowedEntry<'_>, usize), DeserializationError>)
        ensures
            r is Ok <==> read_at(data@, pos as int) is Ok,
            r matches Ok((e, n)) ==> read_at(data@, pos as int) == Ok::<Item, DeserializationError>(e@)
                && n == span_at(data@, pos as int) && pos + n <= data@.len(),
            r matches Err(c) ==> read_at(data@, pos as int) == Err::<Item, DeserializationError>(c),
    {
        if pos >= data.len() {
            let expected = if pos == usize::MAX { usize::MAX } else { pos + 1 };
            return Err(DeserializationError::BufferTooShort { expected, actual: data.len() });
        }
        deserialize_value(slice_subrange(data, pos, data.len()))
    }

    /// The bytes spanned by the records that live keys point to; records that
    /// cannot be read count for nothing.
    pub fn live_bytes(&self) -> (r: usize)
        ensures
            r == live_total(self.entries(), self@.data),
    {
        let mut total: usize = 0;
        let mut i: usize = 0;
        while i < self.index.len()
            invariant
                i <= self.index@.len(),
                total == live_total(self.index@.subrange(0, i as int), self.data@),
            decreases self.index@.len() - i,
        {
            let n: usize = match Self::decode_at(self.data.as_slice(), self.index[i].1) {
                Ok((_, n)) => n,
                Err(_) => 0,
            };
            proof {
                assert(self.index@.subrange(0, i + 1).drop_last() =~= self.index@.subrange(0, i as int));
            }
            total = if n > usize::MAX - total { usize::MAX } else { total + n };
            i = i + 1;
        }
        proof {
            assert(self.index@.subrange(0, i as int) =~= self.index@);
        }
        total
    }

    /// Rewrites the buffer so that it holds only the records of live keys, one
    /// after the other, and returns how many bytes that reclaimed. Fails,
    /// leaving the store as it was, if a live record cannot be read: with
    /// `DataCorruption` on a checksum mismatch, else with `InvalidData`.
    pub fn compact(&mut self) -> (r: Result<usize, StoreError>)
        requires
            old(self).wf(),
        ensures
            final(self).wf(),
            final(self).base_path() == old(self).base_path(),
            r is Ok <==> entries_readable(old(self).entries(), old(self)@.data),
            r is Ok ==> {
                &&& final(self)@.index.dom() == old(self)@.index.dom()
                &&& forall|k: Item| #[trigger] read_model(final(self)@, k) == read_model(old(self)@, k)
                &&& final(self)@.data.len() == live_total(old(self).entries(), old(self)@.data)
                &&& live_total(final(self).entries(), final(self)@.data) == final(self)@.data.len()
                &&& r->Ok_0 == if final(self)@.data.len() <= old(self)@.data.len() {
                    old(self)@.data.len() - final(self)@.data.len()
                } else {
                    0
                }
            },
            r matches Err(e) ==> final(self)@ == old(self)@ && exists|j: int|
                0 <= j < old(self).entries().len() && #[trigger] read_at(old(self)@.data, old(self).entries()[j].1 as int)
                    is Err && e == surfaced(read_at(old(self)@.data, old(self).entries()[j].1 as int)->Err_0),
    {
        let old_size = self.data.len();
        let mut new_data: Vec<u8> = Vec::new();
        let mut new_index: Vec<(Key, usize)> = Vec::new();
        let ghost mut new_map: Map<Item, usize> = Map::empty();
        let mut i: usize = 0;
        while i < self.index.len()
            invariant
                self.wf(),
                self.data@.len() == old_size,
                i <= self.index@.len(),
                new_index@.len() == i,
                forall|j: int| 0 <= j < i ==> #[trigger] new_index@[j].0@ == self.index@[j].0@,
                forall|j: int|
                    0 <= j < i ==> #[trigger] read_at(self.data@, self.index@[j].1 as int) is Ok,
                forall|j: int|
                    0 <= j < i ==> #[trigger] read_at(new_data@, new_index@[j].1 as int) == read_at(
                        self.data@,
                        self.index@[j].1 as int,
                    ),
                forall|j: int|
                    #![trigger new_index@[j]]
                    0 <= j < i ==> new_map.contains_key(new_index@[j].0@) && new_map[new_index@[j].0@]
                        == new_index@[j].1,
                forall|q: Item|
                    #[trigger] new_map.contains_key(q) ==> exists|j: int|
                        0 <= j < i && #[trigger] new_index@[j].0@ == q,
                new_data@.len() == live_total(self.index@.subrange(0, i as int), self.data@),
                live_total(new_index@, new_data@) == new_data@.len(),
            decreases self.index@.len() - i,
        {
            let pos = self.index[i].1;
            let n = match Self::decode_at(self.data.as_slice(), pos) {
                Ok((_, n)) => n,
                Err(cause) => {
                    proof {
                        assert(read_at(old(self)@.data, old(self).entries()[i as int].1 as int) == Err::<Item, DeserializationError>(cause));
                    }
                    return Err(surface(cause));
                },
            };
            let new_pos = new_data.len();
            let ghost nd0 = new_data@;
            let ghost ni0 = new_index@;
            let record = slice_subrange(self.data.as_slice(), pos, pos + n);
            append_bytes(&mut new_data, record);
            let new_end = new_data.len();
            let key = self.index[i].0.duplicate();
            let ghost k = key@;
            new_index.push((key, new_pos));
            proof {
                new_map = new_map.insert(k, new_pos);
                assert(new_end == nd0.len() + n);
                let d = self.data@;
                let b = d.subrange(pos as int, d.len() as int);
                let c = new_data@.subrange(new_pos as int, new_data@.len() as int);
                assert(c.subrange(0, n as int) =~= b.subrange(0, n as int));
                lemma_decode_value_prefix(b, c);
                assert(read_at(new_data@, new_pos as int) == read_at(d, pos as int));
                assert(span_at(new_data@, new_pos as int) == n);
                assert forall|j: int| 0 <= j < i implies #[trigger] read_at(new_data@, new_index@[j].1 as int)
                    == read_at(d, self.index@[j].1 as int) by {
                    assert(new_index@[j] == ni0[j]);
                    lemma_read_after_append(nd0, record@, ni0[j].1 as int);
                }
                assert forall|j: int| 0 <= j < ni0.len() implies #[trigger] read_at(nd0, ni0[j].1 as int) is Ok by {
                    assert(read_at(d, self.index@[j].1 as int) is Ok);
                }
                lemma_live_total_after_append(ni0, nd0, record@);
                assert(new_index@.drop_last() =~= ni0);
                assert(self.index@.subrange(0, i + 1).drop_last() =~= self.index@.subrange(0, i as int));
                assert(self.index@.subrange(0, i + 1).last() == self.index@[i as int]);
                assert forall|j: int| #![trigger new_index@[j]]
                    0 <= j < i + 1 implies new_map.contains_key(new_index@[j].0@) && new_map[new_index@[j].0@]
                    == new_index@[j].1 by {
                    if j < i {
                        assert(new_index@[j] == ni0[j]);
                        assert(self.index@[j].0@ != self.index@[i as int].0@);
                    }
                }
                assert forall|q: Item| #[trigger] new_map.contains_key(q) implies exists|j: int|
                    0 <= j < i + 1 && #[trigger] new_index@[j].0@ == q by {
                    if q == k {
                        assert(new_index@[i as int].0@ == q);
                    } else {
                        let j = choose|j: int| 0 <= j < i && #[trigger] ni0[j].0@ == q;
                        assert(new_index@[j] == ni0[j]);
                    }
                }
            }
            i = i + 1;
        }
        proof {
            assert(self.index@.subrange(0, i as int) =~= self.index@);
            assert forall|a: int, b: int| 0 <= a < b < new_index@.len() implies #[trigger] new_index@[a].0@
                != #[trigger] new_index@[b].0@ by {
                assert(self.index@[a].0@ != self.index@[b].0@);
            }
            assert(new_map.dom() =~= self.map@.dom()) by {
                assert forall|q: Item| new_map.contains_key(q) <==> self.map@.contains_key(q) by {
                    if new_map.contains_key(q) {
                        let j = choose|j: int| 0 <= j < i && #[trigger] new_index@[j].0@ == q;
                        assert(self.index@[j].0@ == q);
                    }
                    if self.map@.contains_key(q) {
                        let j = choose|j: int| 0 <= j < self.index@.len() && #[trigger] self.index@[j].0@ == q;
                        assert(new_index@[j].0@ == q);
                    }
                }
            }
            assert forall|q: Item| #[trigger] read_model(LogModel { index: new_map, data: new_data@ }, q)
                == read_model(self@, q) by {
                if self.map@.contains_key(q) {
                    let j = choose|j: int| 0 <= j < self.index@.len() && #[trigger] self.index@[j].0@ == q;
                    assert(new_index@[j].0@ == q);
                    assert(read_at(new_data@, new_index@[j].1 as int) == read_at(self.data@, self.index@[j].1 as int));
                }
            }
        }
        let reclaimed = if new_data.len() <= old_size { old_size - new_data.len() } else { 0 };
        self.data = new_data;
        self.index = new_index;
        self.map = Ghost(new_map);
        Ok(reclaimed)
    }

    /// How many live keys the index holds.
    pub(crate) fn entry_count(&self) -> (r: usize)
        ensures
            r == self.entries().len(),
    {
        self.index.len()
    }

    /// The key of the `i`-th index entry.
    pub(crate) fn key_at(&self, i: usize) -> (r: &Key)
        requires
            i < self.entries().len(),
        ensures
            r@ == self.entries()[i as int].0@,
    {
        &self.index[i].0
    }

    /// Each index entry names a live key, each live key once.
    pub proof fn lemma_entries_are_keys(&self)
        requires
            self.wf(),
        ensures
            forall|i: int, j: int|
                0 <= i < j < self.entries().len() ==> #[trigger] self.entries()[i].0@
                    != #[trigger] self.entries()[j].0@,
            forall|i: int|
                0 <= i < self.entries().len() ==> self@.index.contains_key(#[trigger] self.entries()[i].0@),
            forall|i: int|
                0 <= i < self.entries().len() ==> self@.index[#[trigger] self.entries()[i].0@] == self.entries()[i].1,
            forall|k: Item|
                #[trigger] self@.index.contains_key(k) ==> exists|i: int|
                    0 <= i < self.entries().len() && #[trigger] self.entries()[i].0@ == k,
    {
        assert forall|i: int| 0 <= i < self.entries().len() implies self@.index.contains_key(
            #[trigger] self.entries()[i].0@,
        ) by {
            assert(self.index@[i] == self.entries()[i]);
        }
        assert forall|i: int| 0 <= i < self.entries().len() implies self@.index[#[trigger] self.entries()[i].0@]
            == self.entries()[i].1 by {
            assert(self.index@[i] == self.entries()[i]);
        }
        assert forall|k: Item| #[trigger] self@.index.contains_key(k) implies exists|i: int|
            0 <= i < self.entries().len() && #[trigger] self.entries()[i].0@ == k by {
            let i = choose|i: int| 0 <= i < self.index@.len() && #[trigger] self.index@[i].0@ == k;
            assert(self.entries()[i].0@ == k);
        }
    }

    /// The entries of all live keys, in the order of the index.
    pub fn values(&self) -> (r: Vec<Result<BorrowedEntry<'_>, StoreError>>)
        requires
            self.wf(),
        ensures
            r@.len() == self.entries().len(),
            forall|i: int|
                0 <= i < r@.len() ==> match read_model(self@, self.entries()[i].0@) {
                    Some(Ok(v)) => #[trigger] r@[i] matches Ok(e) && e@ == v,
                    Some(Err(c)) => r@[i] == Err::<BorrowedEntry<'_>, StoreError>(surfaced(c)),
                    None => false,
                },
    {
        proof {
            self.lemma_entries_are_keys();
        }
        let mut out: Vec<Result<BorrowedEntry<'_>, StoreError>> = Vec::new();
        let mut i: usize = 0;
        while i < self.index.len()
            invariant
                self.wf(),
                i <= self.index@.len(),
                out@.len() == i,
                forall|i: int|
                    0 <= i < self.entries().len() ==> self@.index.contains_key(#[trigger] self.entries()[i].0@),
                forall|j: int|
                    0 <= j < i ==> match read_model(self@, self.entries()[j].0@) {
                        Some(Ok(v)) => #[trigger] out@[j] matches Ok(e) && e@ == v,
                        Some(Err(c)) => out@[j] == Err::<BorrowedEntry<'_>, StoreError>(surfaced(c)),
                        None => false,
                    },
            decreases self.index@.len() - i,
        {
            let v = self.get(&self.index[i].0);
            proof {
                assert(self@.index.contains_key(self.entries()[i as int].0@));
            }
            out.push(v);
            i = i + 1;
        }
        out
    }

    /// How many keys are live.
    pub fn len(&self) -> (r: usize)
        requires
            self.wf(),
        ensures
            r == self@.index.dom().len(),
    {
        proof {
            self.lemma_dom_len();
        }
        self.index.len()
    }

    /// A walk over the live keys and their entries, in no particular order.
    pub fn iter(&self) -> (r: StoreIterator<'_>)
        requires
            self.wf(),
        ensures
            r.source() == self@,
            r.source_entries() == self.entries(),
            r.source_wf(),
            r.position() == 0,
    {
        StoreIterator::new(self)
    }

    /// A walk over every record physically present in the buffer, in the order
    /// they were written, including overwritten and deleted ones.
    pub fn buffer_iter(&self) -> (r: StoreIter<'_>)
        ensures
            r.buffer() == self@.data,
            r.position() == 0,
    {
        StoreIter::new(self.data.as_slice())
    }

    /// Every index entry reads back exactly when every live key does.
    pub proof fn lemma_entries_readable_iff(&self)
        requires
            self.wf(),
        ensures
            entries_readable(self.entries(), self@.data) <==> all_readable(self@),
    {
        self.lemma_entries_are_keys();
        if entries_readable(self.entries(), self@.data) {
            assert forall|k: Item| #[trigger] self@.index.contains_key(k) implies read_at(self@.data, self@.index[k] as int) is Ok by {
                let i = choose|i: int| 0 <= i < self.entries().len() && #[trigger] self.entries()[i].0@ == k;
                assert(read_at(self@.data, self.entries()[i].1 as int) is Ok);
            }
        }
        if all_readable(self@) {
            assert forall|j: int| 0 <= j < self.entries().len() implies #[trigger] read_at(self@.data, self.entries()[j].1 as int) is Ok by {
                assert(self@.index.contains_key(self.entries()[j].0@));
            }
        }
    }

    /// Compacting a store whose layout is sound never grows its buffer: the
    /// live records it keeps take no more room than the buffer they came from.
    pub proof fn lemma_compaction_shrinks(&self)
        requires
            self.wf(),
            layout_sound(self@),
            self@.data.len() <= usize::MAX,
        ensures
            live_total(self.entries(), self@.data) <= self@.data.len(),
    {
        self.lemma_entries_are_keys();
        let e = self.entries();
        assert(records_disjoint(e, self@.data)) by {
            assert forall|i: int, j: int| 0 <= i < j < e.len() implies span_at(self@.data, #[trigger] e[i].1 as int) == 0
                || span_at(self@.data, #[trigger] e[j].1 as int) == 0 || e[i].1 + span_at(self@.data, e[i].1 as int)
                <= e[j].1 || e[j].1 + span_at(self@.data, e[j].1 as int) <= e[i].1 by {
                assert(self@.index.contains_key(e[i].0@) && self@.index.contains_key(e[j].0@));
                assert(e[i].0@ != e[j].0@);
            }
        }
        lemma_compaction_never_grows(e, self@.data);
    }
}

} // verus!
