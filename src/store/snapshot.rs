use super::{entries_readable, live_total, path_view, read_model, LogModel, Store};
use crate::codec::{
    append_bytes, checksum, clamp_usize, clamped_sum, crc32_of, utf8, decode_key, deserialize_key, item_fits, key_bytes,
    lemma_key_round_trip, serialize_key,
};
use crate::error::{DeserializationError, StoreError};
use crate::types::{Item, Key};
use vstd::bytes::*;
use vstd::prelude::*;
use vstd::slice::{slice_subrange, slice_to_vec};
use vstd::string::StringSliceAdditionalSpecFns;

verus! {

/// Format version written to and required in the metadata file.
pub const FILE_VERSION: u32 = 1;

/// Bytes in the metadata file: version, keys checksum, data checksum (4 each)
/// and the entry count (8).
pub const META_SIZE: usize = 20;

/// The contents of the three snapshot files of a store.
pub struct Snapshot {
    /// Version, CRC-32 of `keys`, CRC-32 of `data`, number of entries.
    pub meta: Vec<u8>,
    /// One `(u32 length, key encoding, u64 offset)` entry per live key.
    pub keys: Vec<u8>,
    /// The store's buffer, verbatim.
    pub data: Vec<u8>,
}

/// One entry of the keys file.
pub open spec fn key_entry(k: Item, off: usize) -> Seq<u8> {
    spec_u32_to_le_bytes(key_bytes(k).len() as u32) + key_bytes(k) + spec_u64_to_le_bytes(off as u64)
}

/// The keys file for the given index entries, in their order.
pub open spec fn keys_file(entries: Seq<(Key, usize)>) -> Seq<u8>
    decreases entries.len(),
{
    if entries.len() == 0 {
        Seq::empty()
    } else {
        key_entry(entries[0].0@, entries[0].1) + keys_file(entries.drop_first())
    }
}

/// The metadata file for the given checksums and entry count.
pub open spec fn meta_file(keys_crc: u32, data_crc: u32, count: nat) -> Seq<u8> {
    spec_u32_to_le_bytes(FILE_VERSION) + spec_u32_to_le_bytes(keys_crc) + spec_u32_to_le_bytes(data_crc)
        + spec_u64_to_le_bytes(count as u64)
}

/// Whether a key's encoding fits the 32-bit length field of the keys file.
pub open spec fn key_storable(k: Item) -> bool {
    item_fits(k) && key_bytes(k).len() <= u32::MAX
}

/// Prepends parsed entries to the rest of a parse.
pub open spec fn chain(
    done: Seq<(Item, usize)>,
    rest: Result<Seq<(Item, usize)>, DeserializationError>,
) -> Result<Seq<(Item, usize)>, DeserializationError> {
    match rest {
        Ok(r) => Ok(done + r),
        Err(e) => Err(e),
    }
}

/// The entries read from a keys file; `base` is where `b` starts in the file.
/// Every entry must be complete: a tail too short for its length field is a
/// truncated entry.
pub open spec fn parse_keys(b: Seq<u8>, base: int) -> Result<Seq<(Item, usize)>, DeserializationError>
    decreases b.len(),
{
    if b.len() == 0 {
        Ok(Seq::empty())
    } else if b.len() < 4 {
        Err(DeserializationError::BufferTooShort { expected: clamp_usize(base + 4), actual: clamp_usize(base + b.len()) })
    } else {
        let kl = spec_u32_from_le_bytes(b.subrange(0, 4)) as int;
        if b.len() - 4 < kl + 8 {
            Err(DeserializationError::BufferTooShort { expected: clamp_usize(base + 4 + kl + 8), actual: clamp_usize(base + b.len()) })
        } else {
            match decode_key(b.subrange(4, 4 + kl)) {
                Err(e) => Err(e),
                Ok((k, _)) => {
                    let off = spec_u64_from_le_bytes(b.subrange(4 + kl, 12 + kl));
                    if off > usize::MAX {
                        Err(DeserializationError::ByteConversionError)
                    } else {
                        chain(seq![(k, off as usize)], parse_keys(b.subrange(12 + kl, b.len() as int), base + 12 + kl))
                    }
                },
            }
        }
    }
}

/// The index built from parsed entries: a later entry for a key wins.
pub open spec fn index_of(entries: Seq<(Item, usize)>) -> Map<Item, usize>
    decreases entries.len(),
{
    if entries.len() == 0 {
        Map::empty()
    } else {
        index_of(entries.drop_last()).insert(entries.last().0, entries.last().1)
    }
}

/// What loading the three files gives: the index, or why they are refused.
pub open spec fn load_index(meta: Seq<u8>, keys: Seq<u8>, data: Seq<u8>) -> Result<Map<Item, usize>, StoreError> {
    if meta.len() < META_SIZE {
        Err(StoreError::InvalidData { cause: DeserializationError::BufferTooShort { expected: META_SIZE, actual: meta.len() as usize } })
    } else if spec_u32_from_le_bytes(meta.subrange(0, 4)) != FILE_VERSION {
        Err(StoreError::UnsupportedVersion(spec_u32_from_le_bytes(meta.subrange(0, 4))))
    } else if crc32_of(keys) != spec_u32_from_le_bytes(meta.subrange(4, 8)) {
        Err(StoreError::FileCorrupted)
    } else if crc32_of(data) != spec_u32_from_le_bytes(meta.subrange(8, 12)) {
        Err(StoreError::FileCorrupted)
    } else {
        match parse_keys(keys, 0) {
            Err(e) => Err(StoreError::InvalidData { cause: e }),
            Ok(s) => if index_of(s).dom().len() != spec_u64_from_le_bytes(meta.subrange(12, 20)) {
                Err(StoreError::FileCorrupted)
            } else {
                Ok(index_of(s))
            },
        }
    }
}

/// The path that `base` names with its extension replaced by `ext`.
pub uninterp spec fn path_with_extension(base: Seq<char>, ext: Seq<char>) -> Seq<char>;

/// Relies on `std::path::Path::with_extension`: `base` with the extension of
/// its final component set to `ext`; a function of the two texts alone. It
/// panics on an extension holding a path separator, which `requires` excludes.
#[verifier::external_body]
fn with_extension(base: &str, ext: &str) -> (r: String)
    requires
        !ext@.contains('/'),
        !ext@.contains('\\'),
    ensures
        r@ == path_with_extension(base@, ext@),
{
    std::path::Path::new(base).with_extension(ext).to_string_lossy().into_owned()
}

/// Whether a save compacts first: more than 35% of the buffer is garbage.
pub open spec fn wants_compaction(live: int, total: int) -> bool {
    total > 0 && 100 * (total - live) > 35 * total
}

/// The keys file grows by one entry per appended index entry.
pub proof fn lemma_keys_file_push(s: Seq<(Key, usize)>, e: (Key, usize))
    ensures
        keys_file(s.push(e)) == keys_file(s) + key_entry(e.0@, e.1),
    decreases s.len(),
{
    if s.len() == 0 {
        assert(s.push(e).drop_first() =~= Seq::<(Key, usize)>::empty());
        assert(keys_file(Seq::<(Key, usize)>::empty()) == Seq::<u8>::empty());
        assert(keys_file(s) == Seq::<u8>::empty());
        assert(keys_file(s.push(e)) =~= key_entry(e.0@, e.1));
    } else {
        assert(s.push(e).drop_first() =~= s.drop_first().push(e));
        lemma_keys_file_push(s.drop_first(), e);
        assert(keys_file(s.push(e)) =~= keys_file(s) + key_entry(e.0@, e.1));
    }
}

impl Store {
    /// Whether `key` can be written to a keys file.
    fn storable(key: &Key) -> (r: bool)
        ensures
            r == key_storable(key@),
    {
        proof {
            lemma_auto_spec_u64_to_from_le_bytes();
        }
        match key {
            Key::String(s) => {
                let t = s.as_str();
                let b = t.as_bytes();
                let n = b.len();
                assert(key_bytes(key@).len() == 9 + n);
                n <= 0xFFFF_FFF6 && n <= usize::MAX - 64
            },
            Key::Int(_) => true,
        }
    }

    /// The keys file of the snapshot at `base`.
    pub fn keys_path(base: &str) -> (r: String)
        ensures
            r@ == path_with_extension(base@, "keys"@),
    {
        proof {
            reveal_strlit("keys");
        }
        with_extension(base, "keys")
    }

    /// The data file of the snapshot at `base`.
    pub fn data_path(base: &str) -> (r: String)
        ensures
            r@ == path_with_extension(base@, "data"@),
    {
        proof {
            reveal_strlit("data");
        }
        with_extension(base, "data")
    }

    /// The metadata file of the snapshot at `base`.
    pub fn meta_path(base: &str) -> (r: String)
        ensures
            r@ == path_with_extension(base@, "meta"@),
    {
        proof {
            reveal_strlit("meta");
        }
        with_extension(base, "meta")
    }

    /// A store that persists under `path`: rebuilt from `existing` when its
    /// snapshot files were found there, else empty.
    pub fn with_path(path: String, existing: Option<Snapshot>) -> (r: Result<Store, StoreError>)
        ensures
            match existing {
                None => r matches Ok(s) && s.wf() && s@.index == Map::<Item, usize>::empty() && s@.data
                    == Seq::<u8>::empty() && s.base_path() == Some(path@),
                Some(snap) => match load_index(snap.meta@, snap.keys@, snap.data@) {
                    Ok(m) => r matches Ok(s) && s.wf() && s@ == (LogModel { index: m, data: snap.data@ })
                        && s.base_path() == Some(path@),
                    Err(e) => r == Err::<Store, StoreError>(e),
                },
            },
    {
        match existing {
            None => Ok(Store::with_parts(Vec::new(), Some(path))),
            Some(snap) => Store::from_snapshot(Some(path), snap.meta.as_slice(), snap.keys.as_slice(), snap.data),
        }
    }

    /// The base path of the snapshot files, if the store has one.
    pub fn path(&self) -> (r: Option<&String>)
        ensures
            match r {
                Some(p) => self.base_path() == Some(p@),
                None => self.base_path() is None,
            },
    {
        self.path.as_ref()
    }

    /// The length of the buffer in bytes, garbage included.
    pub fn data_len(&self) -> (r: usize)
        ensures
            r == self@.data.len(),
    {
        self.data.len()
    }

    /// Whether the garbage in the buffer exceeds 35% of it.
    pub fn needs_compaction(&self) -> (r: bool)
        ensures
            r == wants_compaction(live_total(self.entries(), self@.data), self@.data.len() as int),
    {
        let live = self.live_bytes();
        let total = self.data.len();
        if total == 0 {
            return false;
        }
        let wasted = if live >= total { 0 } else { total - live };
        (wasted as u128) * 100 > (total as u128) * 35
    }

    /// Rebuilds a store from the contents of its three snapshot files: checks
    /// the version and both checksums, reads the key entries and checks their
    /// count against the metadata.
    pub fn from_snapshot(path: Option<String>, meta: &[u8], keys: &[u8], data: Vec<u8>) -> (r: Result<Store, StoreError>)
        ensures
            match load_index(meta@, keys@, data@) {
                Ok(m) => r matches Ok(s) && s.wf() && s@ == (LogModel { index: m, data: data@ }) && s.base_path()
                    == path_view(path),
                Err(e) => r == Err::<Store, StoreError>(e),
            },
    {
        if meta.len() < META_SIZE {
            return Err(StoreError::InvalidData {
                cause: DeserializationError::BufferTooShort { expected: META_SIZE, actual: meta.len() },
            });
        }
        let version = u32_from_le_bytes(slice_subrange(meta, 0, 4));
        if version != FILE_VERSION {
            return Err(StoreError::UnsupportedVersion(version));
        }
        let keys_crc = u32_from_le_bytes(slice_subrange(meta, 4, 8));
        let data_crc = u32_from_le_bytes(slice_subrange(meta, 8, 12));
        let count = u64_from_le_bytes(slice_subrange(meta, 12, 20));
        if checksum(keys) != keys_crc {
            return Err(StoreError::FileCorrupted);
        }
        if checksum(data.as_slice()) != data_crc {
            return Err(StoreError::FileCorrupted);
        }
        let ghost d = data@;
        let ghost pv = path_view(path);
        let mut store = Store::with_parts(Vec::new(), path);
        let mut pos: usize = 0;
        let ghost mut parsed: Seq<(Item, usize)> = Seq::empty();
        assert(keys@.subrange(0, keys@.len() as int) =~= keys@);
        while pos < keys.len()
            invariant
                store.wf(),
                store@.data == Seq::<u8>::empty(),
                data@ == d,
                store.base_path() == pv,
                pos <= keys@.len(),
                meta@.len() >= META_SIZE,
                spec_u32_from_le_bytes(meta@.subrange(0, 4)) == FILE_VERSION,
                crc32_of(keys@) == spec_u32_from_le_bytes(meta@.subrange(4, 8)),
                crc32_of(d) == spec_u32_from_le_bytes(meta@.subrange(8, 12)),
                count == spec_u64_from_le_bytes(meta@.subrange(12, 20)),
                parse_keys(keys@, 0) == chain(parsed, parse_keys(keys@.subrange(pos as int, keys@.len() as int), pos as int)),
                store@.index == index_of(parsed),
            decreases keys@.len() - pos,
        {
            let ghost b = keys@.subrange(pos as int, keys@.len() as int);
            if keys.len() - pos < 4 {
                return Err(StoreError::InvalidData {
                    cause: DeserializationError::BufferTooShort {
                        expected: clamped_sum(pos, 4),
                        actual: keys.len(),
                    },
                });
            }
            assert(b.subrange(0, 4) =~= keys@.subrange(pos as int, pos + 4));
            let kl = u32_from_le_bytes(slice_subrange(keys, pos, pos + 4)) as usize;
            let start = pos + 4;
            if ((keys.len() - start) as u64) < (kl as u64) + 8 {
                let expected = clamped_sum(start, (kl as u64) + 8);
                return Err(StoreError::InvalidData {
                    cause: DeserializationError::BufferTooShort { expected, actual: keys.len() },
                });
            }
            assert(b.subrange(4, 4 + kl) =~= keys@.subrange(start as int, start + kl));
            let key = match deserialize_key(slice_subrange(keys, start, start + kl)) {
                Ok((key, _)) => key,
                Err(cause) => {
                    return Err(StoreError::InvalidData { cause });
                },
            };
            assert(b.subrange(4 + kl, 12 + kl) =~= keys@.subrange(start + kl, start + kl + 8));
            let off = u64_from_le_bytes(slice_subrange(keys, start + kl, start + kl + 8));
            if off > usize::MAX as u64 {
                return Err(StoreError::InvalidData { cause: DeserializationError::ByteConversionError });
            }
            let ghost entry = (key@, off as usize);
            store.point(key, off as usize);
            pos = start + kl + 8;
            proof {
                assert(b.subrange(12 + kl, b.len() as int) =~= keys@.subrange(pos as int, keys@.len() as int));
                let rest = parse_keys(keys@.subrange(pos as int, keys@.len() as int), pos as int);
                match rest {
                    Ok(r) => {
                        assert(parsed + (seq![entry] + r) =~= parsed.push(entry) + r);
                    },
                    Err(_) => {},
                }
                assert(parsed.push(entry).drop_last() =~= parsed);
                parsed = parsed.push(entry);
            }
        }
        proof {
            assert(parsed + Seq::<(Item, usize)>::empty() =~= parsed);
        }
        if store.len() as u64 != count {
            return Err(StoreError::FileCorrupted);
        }
        store.data = data;
        Ok(store)
    }

    /// The contents of the three snapshot files. Compacts first when more than
    /// 35% of the buffer is garbage. Fails if that compaction fails, or with
    /// `InvalidData` (`ByteConversionError`) if a key is too long for the keys
    /// file's 32-bit length field.
    pub fn snapshot(&mut self) -> (r: Result<Snapshot, StoreError>)
        requires
            old(self).wf(),
        ensures
            final(self).wf(),
            final(self).base_path() == old(self).base_path(),
            final(self)@.index.dom() == old(self)@.index.dom(),
            forall|k: Item| #[trigger] read_model(final(self)@, k) == read_model(old(self)@, k),
            !wants_compaction(live_total(old(self).entries(), old(self)@.data), old(self)@.data.len() as int)
                ==> final(self)@ == old(self)@,
            wants_compaction(live_total(old(self).entries(), old(self)@.data), old(self)@.data.len() as int)
                && r is Ok ==> live_total(final(self).entries(), final(self)@.data) == final(self)@.data.len(),
            r is Ok <==> (!wants_compaction(live_total(old(self).entries(), old(self)@.data), old(self)@.data.len() as int)
                || entries_readable(old(self).entries(), old(self)@.data))
                && forall|k: Item| #[trigger] old(self)@.index.contains_key(k) ==> key_storable(k),
            r matches Ok(snap) ==> {
                &&& snap.data@ == final(self)@.data
                &&& snap.keys@ == keys_file(final(self).entries())
                &&& snap.meta@ == meta_file(crc32_of(snap.keys@), crc32_of(snap.data@), final(self).entries().len())
            },
    {
        if self.needs_compaction() {
            match self.compact() {
                Ok(_) => {},
                Err(e) => {
                    return Err(e);
                },
            }
        }
        proof {
            self.lemma_entries_are_keys();
        }
        let mut keys: Vec<u8> = Vec::new();
        let mut i: usize = 0;
        while i < self.index.len()
            invariant
                self.wf(),
                i <= self.index@.len(),
                keys@ == keys_file(self.index@.subrange(0, i as int)),
                self.base_path() == old(self).base_path(),
                self@.index.dom() == old(self)@.index.dom(),
                forall|k: Item| #[trigger] read_model(self@, k) == read_model(old(self)@, k),
                !wants_compaction(live_total(old(self).entries(), old(self)@.data), old(self)@.data.len() as int)
                    ==> self@ == old(self)@,
                !wants_compaction(live_total(old(self).entries(), old(self)@.data), old(self)@.data.len() as int)
                    || entries_readable(old(self).entries(), old(self)@.data),
                wants_compaction(live_total(old(self).entries(), old(self)@.data), old(self)@.data.len() as int)
                    ==> live_total(self.entries(), self@.data) == self@.data.len(),
                forall|j: int|
                    0 <= j < self.entries().len() ==> self@.index.contains_key(#[trigger] self.entries()[j].0@),
                forall|j: int| 0 <= j < i ==> key_storable(#[trigger] self.index@[j].0@),
            decreases self.index@.len() - i,
        {
            let key = &self.index[i].0;
            if !Self::storable(key) {
                proof {
                    assert(self@.index.contains_key(self.entries()[i as int].0@));
                }
                return Err(StoreError::InvalidData { cause: DeserializationError::ByteConversionError });
            }
            let kb = serialize_key(key);
            let ghost before = keys@;
            append_bytes(&mut keys, u32_to_le_bytes(kb.len() as u32).as_slice());
            append_bytes(&mut keys, kb.as_slice());
            append_bytes(&mut keys, u64_to_le_bytes(self.index[i].1 as u64).as_slice());
            proof {
                lemma_keys_file_push(self.index@.subrange(0, i as int), self.index@[i as int]);
                assert(self.index@.subrange(0, i + 1) =~= self.index@.subrange(0, i as int).push(self.index@[i as int]));
                assert(keys@ =~= before + key_entry(self.index@[i as int].0@, self.index@[i as int].1));
            }
            i = i + 1;
        }
        proof {
            assert(self.index@.subrange(0, i as int) =~= self.index@);
            assert forall|k: Item| #[trigger] self@.index.contains_key(k) implies key_storable(k) by {
                let j = choose|j: int| 0 <= j < self.entries().len() && #[trigger] self.entries()[j].0@ == k;
                assert(key_storable(self.index@[j].0@));
            }
        }
        let data = slice_to_vec(self.data.as_slice());
        let mut meta: Vec<u8> = Vec::new();
        append_bytes(&mut meta, u32_to_le_bytes(FILE_VERSION).as_slice());
        append_bytes(&mut meta, u32_to_le_bytes(checksum(keys.as_slice())).as_slice());
        append_bytes(&mut meta, u32_to_le_bytes(checksum(data.as_slice())).as_slice());
        append_bytes(&mut meta, u64_to_le_bytes(self.index.len() as u64).as_slice());
        proof {
            assert(meta@ =~= meta_file(crc32_of(keys@), crc32_of(data@), self.entries().len()));
        }
        Ok(Snapshot { meta, keys, data })
    }
}

/// The parsed form of index entries: each key's item and its offset.
pub open spec fn entry_items(e: Seq<(Key, usize)>) -> Seq<(Item, usize)> {
    e.map_values(|x: (Key, usize)| (x.0@, x.1))
}

/// Parsing a keys file gives back the entries it was written from.
pub proof fn lemma_parse_keys_file(e: Seq<(Key, usize)>, base: int)
    requires
        forall|j: int| 0 <= j < e.len() ==> key_storable(#[trigger] e[j].0@),
    ensures
        parse_keys(keys_file(e), base) == Ok::<Seq<(Item, usize)>, DeserializationError>(entry_items(e)),
    decreases e.len(),
{
    lemma_auto_spec_u32_to_from_le_bytes();
    lemma_auto_spec_u64_to_from_le_bytes();
    if e.len() == 0 {
        assert(entry_items(e) =~= Seq::<(Item, usize)>::empty());
    } else {
        let k = e[0].0@;
        let off = e[0].1;
        let kb = key_bytes(k);
        let kl = kb.len() as int;
        let b = keys_file(e);
        assert(key_storable(e[0].0@));
        assert(b.subrange(0, 4) =~= spec_u32_to_le_bytes(kb.len() as u32));
        assert(b.subrange(4, 4 + kl) =~= kb + Seq::<u8>::empty());
        lemma_key_round_trip(k, Seq::<u8>::empty());
        assert(b.subrange(4 + kl, 12 + kl) =~= spec_u64_to_le_bytes(off as u64));
        assert(b.subrange(12 + kl, b.len() as int) =~= keys_file(e.drop_first()));
        assert forall|j: int| 0 <= j < e.drop_first().len() implies key_storable(#[trigger] e.drop_first()[j].0@) by {
            assert(e.drop_first()[j] == e[j + 1]);
        }
        lemma_parse_keys_file(e.drop_first(), base + 12 + kl);
        assert(seq![(k, off)] + entry_items(e.drop_first()) =~= entry_items(e));
    }
}

/// With each key listed once, the index built from entries maps every listed
/// key to its offset and holds no other key.
pub proof fn lemma_index_of_distinct(s: Seq<(Item, usize)>)
    requires
        forall|i: int, j: int| 0 <= i < j < s.len() ==> #[trigger] s[i].0 != #[trigger] s[j].0,
    ensures
        forall|i: int|
            0 <= i < s.len() ==> index_of(s).contains_key(#[trigger] s[i].0) && index_of(s)[s[i].0] == s[i].1,
        forall|k: Item| #[trigger] index_of(s).contains_key(k) ==> exists|i: int| 0 <= i < s.len() && #[trigger] s[i].0 == k,
    decreases s.len(),
{
    if s.len() > 0 {
        let front = s.drop_last();
        assert forall|i: int, j: int| 0 <= i < j < front.len() implies #[trigger] front[i].0 != #[trigger] front[j].0 by {
            assert(front[i] == s[i] && front[j] == s[j]);
        }
        lemma_index_of_distinct(front);
        assert forall|i: int| 0 <= i < s.len() implies index_of(s).contains_key(#[trigger] s[i].0) && index_of(s)[s[i].0]
            == s[i].1 by {
            if i < s.len() - 1 {
                assert(front[i] == s[i]);
                assert(s[i].0 != s[s.len() - 1].0);
            }
        }
        assert(index_of(s) == index_of(front).insert(s.last().0, s.last().1));
        assert forall|k: Item| #[trigger] index_of(s).contains_key(k) implies exists|i: int| 0 <= i < s.len() && #[trigger] s[i].0 == k by {
            if k != s.last().0 {
                assert(index_of(front).contains_key(k));
                let i = choose|i: int| 0 <= i < front.len() && #[trigger] front[i].0 == k;
                assert(s[i] == front[i]);
            } else {
                assert(s[s.len() - 1].0 == k);
            }
        }
    }
}

/// Loading the files written for a store rebuilds its index exactly.
pub proof fn lemma_snapshot_round_trip(store: &Store)
    requires
        store.wf(),
        forall|k: Item| #[trigger] store@.index.contains_key(k) ==> key_storable(k),
        store.entries().len() <= u64::MAX,
    ensures
        load_index(
            meta_file(crc32_of(keys_file(store.entries())), crc32_of(store@.data), store.entries().len()),
            keys_file(store.entries()),
            store@.data,
        ) == Ok::<Map<Item, usize>, StoreError>(store@.index),
{
    lemma_auto_spec_u32_to_from_le_bytes();
    lemma_auto_spec_u64_to_from_le_bytes();
    let e = store.entries();
    store.lemma_entries_are_keys();
    store.lemma_dom_len();
    assert forall|j: int| 0 <= j < e.len() implies key_storable(#[trigger] e[j].0@) by {
        assert(store@.index.contains_key(e[j].0@));
    }
    lemma_parse_keys_file(e, 0);
    let items = entry_items(e);
    assert forall|i: int, j: int| 0 <= i < j < items.len() implies #[trigger] items[i].0 != #[trigger] items[j].0 by {
        assert(e[i].0@ != e[j].0@);
    }
    lemma_index_of_distinct(items);
    assert(index_of(items) =~= store@.index) by {
        assert forall|k: Item| index_of(items).contains_key(k) <==> store@.index.contains_key(k) by {
            if index_of(items).contains_key(k) {
                let i = choose|i: int| 0 <= i < items.len() && #[trigger] items[i].0 == k;
                assert(store@.index.contains_key(e[i].0@));
            }
            if store@.index.contains_key(k) {
                let i = choose|i: int| 0 <= i < e.len() && #[trigger] e[i].0@ == k;
                assert(items[i].0 == k);
            }
        }
        assert forall|k: Item| #[trigger] index_of(items).contains_key(k) implies index_of(items)[k] == store@.index[k] by {
            let i = choose|i: int| 0 <= i < items.len() && #[trigger] items[i].0 == k;
            assert(store@.index[e[i].0@] == e[i].1);
        }
    }
    let meta = meta_file(crc32_of(keys_file(e)), crc32_of(store@.data), e.len());
    assert(meta.subrange(0, 4) =~= spec_u32_to_le_bytes(FILE_VERSION));
    assert(meta.subrange(4, 8) =~= spec_u32_to_le_bytes(crc32_of(keys_file(e))));
    assert(meta.subrange(8, 12) =~= spec_u32_to_le_bytes(crc32_of(store@.data)));
    assert(meta.subrange(12, 20) =~= spec_u64_to_le_bytes(e.len() as u64));
}

} // verus!
