use crate::codec::{decode_value, deserialize_value};
use crate::error::{surface, surfaced, StoreError};
use crate::store::{read_model, LogModel, Store};
use crate::types::{BorrowedEntry, Key};
use vstd::prelude::*;
use vstd::slice::slice_subrange;

verus! {

/// Walks the live keys of a store, reading each one's entry.
pub struct StoreIterator<'a> {
    store: &'a Store,
    pos: usize,
}

/// Walks the records of a buffer one after the other, live or not.
pub struct StoreIter<'a> {
    buf: &'a [u8],
    pos: usize,
}

impl<'a> StoreIterator<'a> {
    /// The state of the store being walked.
    pub closed spec fn source(&self) -> LogModel {
        self.store@
    }

    /// The index entries of the store being walked.
    pub closed spec fn source_entries(&self) -> Seq<(Key, usize)> {
        self.store.entries()
    }

    /// Whether the store being walked is well formed.
    pub closed spec fn source_wf(&self) -> bool {
        self.store.wf()
    }

    /// How many index entries have been visited.
    pub closed spec fn position(&self) -> int {
        self.pos as int
    }

    /// Starts a walk over the live keys of `store`.
    pub fn new(store: &'a Store) -> (r: StoreIterator<'a>)
        requires
            store.wf(),
        ensures
            r.source() == store@,
            r.source_entries() == store.entries(),
            r.source_wf(),
            r.position() == 0,
    {
        StoreIterator { store, pos: 0 }
    }

    /// The next live key with what reading it gives, or `None` once every key
    /// has been visited.
    pub fn next(&mut self) -> (r: Option<(&'a Key, Result<BorrowedEntry<'a>, StoreError>)>)
        requires
            old(self).source_wf(),
        ensures
            final(self).source() == old(self).source(),
            final(self).source_entries() == old(self).source_entries(),
            final(self).source_wf(),
            old(self).position() >= old(self).source_entries().len() ==> r is None && final(self).position()
                == old(self).position(),
            old(self).position() < old(self).source_entries().len() ==> final(self).position() == old(self).position()
                + 1 && (r matches Some((k, v)) && k@ == old(self).source_entries()[old(self).position()].0@
                && match read_model(old(self).source(), k@) {
                None => v matches Err(StoreError::KeyNotFound(q)) && q@ == k@,
                Some(Ok(x)) => v matches Ok(e) && e@ == x,
                Some(Err(c)) => v == Err::<BorrowedEntry<'a>, StoreError>(surfaced(c)),
            }),
    {
        if self.pos >= self.store.entry_count() {
            return None;
        }
        let key = self.store.key_at(self.pos);
        let value = self.store.get(key);
        self.pos = self.pos + 1;
        Some((key, value))
    }
}

impl<'a> StoreIter<'a> {
    /// The bytes being walked.
    pub closed spec fn buffer(&self) -> Seq<u8> {
        self.buf@
    }

    /// Where the next record starts.
    pub closed spec fn position(&self) -> int {
        self.pos as int
    }

    /// Starts a walk over the records of `buf` from its first byte.
    pub fn new(buf: &'a [u8]) -> (r: StoreIter<'a>)
        ensures
            r.buffer() == buf@,
            r.position() == 0,
    {
        StoreIter { buf, pos: 0 }
    }

    /// The next record's entry, or `None` at the end of the buffer. After the
    /// first record that cannot be read, the walk reports the error and ends.
    pub fn next(&mut self) -> (r: Option<Result<BorrowedEntry<'a>, StoreError>>)
        ensures
            final(self).buffer() == old(self).buffer(),
            old(self).position() >= old(self).buffer().len() ==> r is None && final(self).position()
                == old(self).position(),
            old(self).position() < old(self).buffer().len() ==> match decode_value(
                old(self).buffer().subrange(old(self).position(), old(self).buffer().len() as int),
            ) {
                Ok((x, n)) => (r matches Some(Ok(e)) && e@ == x) && final(self).position() == old(self).position() + n,
                Err(c) => r == Some(Err::<BorrowedEntry<'a>, StoreError>(surfaced(c)))
                    && final(self).position() == old(self).buffer().len(),
            },
    {
        if self.pos >= self.buf.len() {
            return None;
        }
        match deserialize_value(slice_subrange(self.buf, self.pos, self.buf.len())) {
            Ok((entry, n)) => {
                self.pos = self.pos + n;
                Some(Ok(entry))
            },
            Err(cause) => {
                self.pos = self.buf.len();
                Some(Err(surface(cause)))
            },
        }
    }
}

} // verus!
