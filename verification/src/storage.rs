//! The key-value storage abstraction: validated store keys, storage errors,
//! and an in-memory store with ranged reads, partial writes and performance
//! counters.

use vstd::prelude::*;

use crate::byte_range::{ByteRange, InvalidByteRangeError};

verus! {

/// The byte value of the path separator in store keys.
pub const SEPARATOR: u8 = 47u8;

/// The byte value of a dot, which may not form a path component on its own.
pub const DOT: u8 = 46u8;

/// Whether a byte sequence is a well-formed store key: UTF-8 path components
/// separated by `/`, with no leading or trailing slash, no empty components
/// and no `.` or `..` components.
pub open spec fn store_key_bytes_valid(s: Seq<u8>) -> bool {
    &&& s.len() > 0
    &&& s[0] != SEPARATOR
    &&& s[s.len() - 1] != SEPARATOR
    &&& forall|i: int| 0 < i < s.len() && s[i - 1] == SEPARATOR ==> #[trigger] s[i] != SEPARATOR
    &&& !(exists|i: int| is_dot_component_at(s, i))
    &&& !(exists|i: int| is_dot_dot_component_at(s, i))
}

/// Whether position `i` starts a path component that is exactly `.`.
pub open spec fn is_dot_component_at(s: Seq<u8>, i: int) -> bool {
    &&& 0 <= i < s.len()
    &&& s[i] == DOT
    &&& (i == 0 || s[i - 1] == SEPARATOR)
    &&& (i + 1 == s.len() || s[i + 1] == SEPARATOR)
}

/// Whether position `i` starts a path component that is exactly `..`.
pub open spec fn is_dot_dot_component_at(s: Seq<u8>, i: int) -> bool {
    &&& 0 <= i
    &&& i + 1 < s.len()
    &&& s[i] == DOT
    &&& s[i + 1] == DOT
    &&& (i == 0 || s[i - 1] == SEPARATOR)
    &&& (i + 2 == s.len() || s[i + 2] == SEPARATOR)
}

/// A store key: a non-empty `/`-separated path, validated on construction.
#[derive(Clone, Debug)]
pub struct StoreKey {
    bytes: Vec<u8>,
}

impl StoreKey {
    /// The key as a byte sequence.
    pub closed spec fn view(self) -> Seq<u8> {
        self.bytes@
    }

    /// Every constructed key is well-formed.
    pub closed spec fn wf(self) -> bool {
        store_key_bytes_valid(self.bytes@)
    }

    /// Create a store key from its UTF-8 bytes, rejecting byte sequences
    /// that are not well-formed keys.
    pub fn new(bytes: Vec<u8>) -> (r: Result<StoreKey, StoreKeyError>)
        ensures
            r matches Ok(k) ==> k@ == bytes@ && k.wf(),
            r is Err <==> !store_key_bytes_valid(bytes@),
    {
        if bytes.len() == 0 {
            return Err(StoreKeyError { bytes });
        }
        if bytes[0] == SEPARATOR || bytes[bytes.len() - 1] == SEPARATOR {
            return Err(StoreKeyError { bytes });
        }
        let n = bytes.len();
        let mut i: usize = 0;
        while i < n
            invariant
                n == bytes@.len(),
                0 < n,
                i <= n,
                bytes@[0] != SEPARATOR,
                bytes@[n - 1] != SEPARATOR,
                forall|j: int| 0 < j < i && bytes@[j - 1] == SEPARATOR ==> #[trigger] bytes@[j]
                    != SEPARATOR,
                forall|j: int| j < i ==> !is_dot_component_at(bytes@, j),
                forall|j: int| j < i ==> !is_dot_dot_component_at(bytes@, j),
            decreases n - i,
        {
            if i > 0 && bytes[i - 1] == SEPARATOR && bytes[i] == SEPARATOR {
                return Err(StoreKeyError { bytes });
            }
            if bytes[i] == DOT && (i == 0 || bytes[i - 1] == SEPARATOR) {
                if i + 1 == n || bytes[i + 1] == SEPARATOR {
                    proof {
                        assert(is_dot_component_at(bytes@, i as int));
                    }
                    return Err(StoreKeyError { bytes });
                }
                if bytes[i + 1] == DOT && (i + 2 == n || bytes[i + 2] == SEPARATOR) {
                    proof {
                        assert(is_dot_dot_component_at(bytes@, i as int));
                    }
                    return Err(StoreKeyError { bytes });
                }
            }
            i += 1;
        }
        Ok(StoreKey { bytes })
    }

    /// A copy of the key.
    pub fn duplicate(&self) -> (r: StoreKey)
        ensures
            r@ == self@,
            r.wf() == self.wf(),
    {
        StoreKey { bytes: self.bytes.clone() }
    }

    /// The key's bytes.
    pub fn as_bytes(&self) -> (r: &Vec<u8>)
        ensures
            r@ == self@,
    {
        &self.bytes
    }

    /// Whether two keys are the same path.
    pub fn key_equals(&self, other: &StoreKey) -> (r: bool)
        ensures
            r == (self@ == other@),
    {
        bytes_equal(&self.bytes, &other.bytes)
    }
}

/// Whether two byte vectors hold the same bytes.
pub fn bytes_equal(a: &Vec<u8>, b: &Vec<u8>) -> (r: bool)
    ensures
        r == (a@ == b@),
{
    if a.len() != b.len() {
        return false;
    }
    let mut i: usize = 0;
    while i < a.len()
        invariant
            a@.len() == b@.len(),
            i <= a@.len(),
            forall|j: int| 0 <= j < i ==> a@[j] == b@[j],
        decreases a@.len() - i,
    {
        if a[i] != b[i] {
            return false;
        }
        i += 1;
    }
    proof {
        assert(a@ =~= b@);
    }
    true
}

/// A byte sequence that is not a well-formed store key.
#[derive(Clone, Debug)]
pub struct StoreKeyError {
    /// The offending bytes.
    pub bytes: Vec<u8>,
}

/// An error from a store operation.
#[derive(Clone, Debug)]
pub enum StorageError {
    /// The key does not exist.
    KeyNotFound(StoreKey),
    /// A byte range did not resolve within the value it addresses.
    InvalidByteRange(InvalidByteRangeError),
    /// The store does not support the operation.
    Unsupported(Vec<u8>),
    /// Any other error, with a message.
    Other(Vec<u8>),
}

/// A byte range within the value of a store key.
#[derive(Clone, Debug)]
pub struct StoreKeyRange {
    /// The key addressed.
    pub key: StoreKey,
    /// The byte range within the key's value.
    pub byte_range: ByteRange,
}

/// One entry of the in-memory store's history: a mapping of a key to a value,
/// or its erasure.
#[derive(Clone, Debug)]
struct StoreRecord {
    key: StoreKey,
    value: Option<Vec<u8>>,
}

/// The key-to-bytes mapping that a history of records denotes: later records
/// shadow earlier ones.
spec fn contents_of(records: Seq<StoreRecord>) -> Map<Seq<u8>, Seq<u8>>
    decreases records.len(),
{
    if records.len() == 0 {
        Map::empty()
    } else {
        let last = records.last();
        match last.value {
            Some(v) => contents_of(records.drop_last()).insert(last.key@, v@),
            None => contents_of(records.drop_last()).remove(last.key@),
        }
    }
}

/// Whether `p` is a byte-prefix of `k`.
pub open spec fn is_prefixed(k: Seq<u8>, p: Seq<u8>) -> bool {
    p.len() <= k.len() && k.take(p.len() as int) == p
}

/// One more than a counter's value, saturating at the counter's maximum.
pub open spec fn counter_bump(x: u64) -> u64 {
    if x == u64::MAX {
        x
    } else {
        (x + 1) as u64
    }
}

/// A counter increased by an amount, saturating at the counter's maximum.
pub open spec fn counter_add(x: u64, n: int) -> u64 {
    if x + n > u64::MAX {
        u64::MAX
    } else {
        (x + n) as u64
    }
}

/// An in-memory key-value store with ranged reads, partial writes and
/// performance counters.
///
/// The counters record one read per ranged-read batch, one write per value
/// or partial-value write, and the number of bytes returned by reads;
/// erasures count as neither.
///
/// Concurrency model: every mutating operation takes the store by exclusive
/// borrow, so read-modify-write sequences are serialised by ownership. This
/// plays the role of the advisory per-key mutex that a shared multi-writer
/// store would need; no cross-process claims are made.
pub struct MemoryStore {
    records: Vec<StoreRecord>,
    reads: u64,
    writes: u64,
    bytes_read: u64,
}

impl MemoryStore {
    /// The key-to-bytes mapping the store currently holds.
    pub closed spec fn contents(self) -> Map<Seq<u8>, Seq<u8>> {
        contents_of(self.records@)
    }

    /// The number of read batches performed so far.
    pub closed spec fn spec_reads(self) -> u64 {
        self.reads
    }

    /// The number of write calls performed so far.
    pub closed spec fn spec_writes(self) -> u64 {
        self.writes
    }

    /// The number of bytes returned by reads so far.
    pub closed spec fn spec_bytes_read(self) -> u64 {
        self.bytes_read
    }

    /// Create an empty store.
    pub fn new() -> (r: MemoryStore)
        ensures
            r.contents() == Map::<Seq<u8>, Seq<u8>>::empty(),
            r.spec_reads() == 0,
            r.spec_writes() == 0,
            r.spec_bytes_read() == 0,
    {
        MemoryStore { records: Vec::new(), reads: 0, writes: 0, bytes_read: 0 }
    }

    /// The number of read batches performed so far.
    pub fn reads(&self) -> (r: u64)
        ensures
            r == self.spec_reads(),
    {
        self.reads
    }

    /// The number of write calls performed so far.
    pub fn writes(&self) -> (r: u64)
        ensures
            r == self.spec_writes(),
    {
        self.writes
    }

    /// The number of bytes returned by reads so far.
    pub fn bytes_read(&self) -> (r: u64)
        ensures
            r == self.spec_bytes_read(),
    {
        self.bytes_read
    }

    /// Reset the performance counters; the stored data is unchanged.
    pub fn reset(&mut self)
        ensures
            final(self).contents() == old(self).contents(),
            final(self).spec_reads() == 0,
            final(self).spec_writes() == 0,
            final(self).spec_bytes_read() == 0,
    {
        self.reads = 0;
        self.writes = 0;
        self.bytes_read = 0;
    }

    /// The index of the last record for a key, if the key is present.
    fn find(&self, key: &StoreKey) -> (r: Option<usize>)
        ensures
            r matches Some(i) ==> {
                &&& i < self.records@.len()
                &&& self.records@[i as int].key@ == key@
                &&& forall|j: int| i < j < self.records@.len() ==> self.records@[j].key@ != key@
                &&& (self.records@[i as int].value matches Some(v) ==> self.contents().contains_key(
                    key@,
                ) && self.contents()[key@] == v@)
                &&& (self.records@[i as int].value is None ==> !self.contents().contains_key(key@))
            },
            r is None ==> !self.contents().contains_key(key@),
    {
        let mut i: usize = self.records.len();
        while i > 0
            invariant
                i <= self.records@.len(),
                forall|j: int| i <= j < self.records@.len() ==> self.records@[j].key@ != key@,
            decreases i,
        {
            i -= 1;
            if self.records[i].key.key_equals(key) {
                proof {
                    lemma_contents_lookup(self.records@, i as int, key@);
                }
                return Some(i);
            }
        }
        proof {
            lemma_contents_absent(self.records@, key@);
        }
        None
    }

    /// Whether the store holds a value for the key. Does not count as a read.
    pub fn contains(&self, key: &StoreKey) -> (r: bool)
        ensures
            r == self.contents().contains_key(key@),
    {
        match self.find(key) {
            Some(i) => self.records[i].value.is_some(),
            None => false,
        }
    }

    /// The size in bytes of the value at the key, or `None` if absent. Does
    /// not count as a read.
    pub fn size_key(&self, key: &StoreKey) -> (r: Option<u64>)
        ensures
            r matches Some(n) ==> self.contents().contains_key(key@) && n == self.contents()[
                key@].len(),
            r is None <==> !self.contents().contains_key(key@),
    {
        match self.find(key) {
            Some(i) => {
                match &self.records[i].value {
                    Some(v) => Some(v.len() as u64),
                    None => None,
                }
            },
            None => None,
        }
    }

    /// Retrieve the whole value at the key, or `None` if absent. Counts one
    /// read and the value's bytes.
    pub fn get(&mut self, key: &StoreKey) -> (r: Option<Vec<u8>>)
        ensures
            final(self).contents() == old(self).contents(),
            final(self).spec_writes() == old(self).spec_writes(),
            final(self).spec_reads() == counter_bump(old(self).spec_reads()),
            r matches Some(v) ==> {
                &&& old(self).contents().contains_key(key@)
                &&& v@ == old(self).contents()[key@]
                &&& final(self).spec_bytes_read() == counter_add(
                    old(self).spec_bytes_read(),
                    v@.len() as int,
                )
            },
            r is None <==> !old(self).contents().contains_key(key@),
            r is None ==> final(self).spec_bytes_read() == old(self).spec_bytes_read(),
    {
        if self.reads < u64::MAX {
            self.reads = self.reads + 1;
        }
        let found = self.find(key);
        match found {
            Some(i) => {
                match &self.records[i].value {
                    Some(v) => {
                        let out = v.clone();
                        proof {
                            assert(out@ == old(self).contents()[key@]);
                        }
                        let n = out.len() as u64;
                        if self.bytes_read <= u64::MAX - n {
                            self.bytes_read = self.bytes_read + n;
                        } else {
                            self.bytes_read = u64::MAX;
                        }
                        Some(out)
                    },
                    None => None,
                }
            },
            None => None,
        }
    }

    /// Store a value at the key, replacing any previous value. Counts one
    /// write.
    pub fn set(&mut self, key: &StoreKey, value: Vec<u8>)
        ensures
            final(self).contents() == old(self).contents().insert(key@, value@),
            final(self).spec_writes() == counter_bump(old(self).spec_writes()),
            final(self).spec_reads() == old(self).spec_reads(),
            final(self).spec_bytes_read() == old(self).spec_bytes_read(),
    {
        self.records.push(StoreRecord { key: key.duplicate(), value: Some(value) });
        if self.writes < u64::MAX {
            self.writes = self.writes + 1;
        }
        proof {
            assert(self.records@.drop_last() =~= old(self).records@);
        }
    }

    /// Read the given byte ranges of the value at the key, as one batched
    /// ranged read. Returns `Ok(None)` iff the key is absent; fails with
    /// `InvalidByteRange` if a range does not resolve within the value.
    /// Counts one read and the bytes of every range served.
    pub fn get_partial_values_key(&mut self, key: &StoreKey, ranges: &Vec<ByteRange>) -> (r:
        Result<Option<Vec<Vec<u8>>>, StorageError>)
        ensures
            final(self).contents() == old(self).contents(),
            final(self).spec_writes() == old(self).spec_writes(),
            final(self).spec_reads() == counter_bump(old(self).spec_reads()),
            r matches Ok(Some(out)) ==> {
                &&& old(self).contents().contains_key(key@)
                &&& out@.len() == ranges@.len()
                &&& forall|i: int|
                    0 <= i < ranges@.len() ==> piece_of(
                        #[trigger] out@[i]@,
                        old(self).contents()[key@],
                        ranges@[i],
                    )
            },
            r is Ok ==> final(self).spec_bytes_read() >= old(self).spec_bytes_read(),
            r matches Ok(None) <==> !old(self).contents().contains_key(key@),
            r matches Err(e) ==> old(self).contents().contains_key(key@) && e is InvalidByteRange
                && exists|i: int|
                0 <= i < ranges@.len() && !ranges@[i].spec_is_valid(
                    old(self).contents()[key@].len() as u64,
                ),
    {
        if self.reads < u64::MAX {
            self.reads = self.reads + 1;
        }
        let found = self.find(key);
        let value: Vec<u8> = match found {
            Some(idx) => {
                match &self.records[idx].value {
                    Some(v) => v.clone(),
                    None => {
                        return Ok(None);
                    },
                }
            },
            None => {
                return Ok(None);
            },
        };
        let n = value.len() as u64;
        let mut out: Vec<Vec<u8>> = Vec::new();
        let mut total: u64 = 0;
        let mut i: usize = 0;
        proof {
            assert(value@ == old(self).contents()[key@]);
        }
        while i < ranges.len()
            invariant
                old(self).contents().contains_key(key@),
                value@ == old(self).contents()[key@],
                self.contents() == old(self).contents(),
                self.spec_writes() == old(self).spec_writes(),
                self.spec_reads() == counter_bump(old(self).spec_reads()),
                self.spec_bytes_read() == old(self).spec_bytes_read(),
                n == value@.len(),
                n <= usize::MAX,
                i <= ranges@.len(),
                out@.len() == i,
                forall|j: int| 0 <= j < i ==> piece_of(#[trigger] out@[j]@, value@, ranges@[j]),
            decreases ranges@.len() - i,
        {
            let range = &ranges[i];
            if !range.is_valid(n) {
                return Err(
                    StorageError::InvalidByteRange(
                        InvalidByteRangeError { byte_range: *range, size: n },
                    ),
                );
            }
            proof {
                crate::byte_range::lemma_byte_range_resolution(*range, n);
            }
            let start = range.start(n) as usize;
            let end = range.end(n) as usize;
            let piece = copy_subrange(&value, start, end);
            let piece_len = piece.len() as u64;
            if total <= u64::MAX - piece_len {
                total = total + piece_len;
            } else {
                total = u64::MAX;
            }
            proof {
                assert(piece_of(piece@, value@, ranges@[i as int]));
            }
            out.push(piece);
            proof {
                assert(out@[i as int]@ == piece@);
                assert(piece_of(out@[i as int]@, value@, ranges@[i as int]));
            }
            i += 1;
        }
        if self.bytes_read <= u64::MAX - total {
            self.bytes_read = self.bytes_read + total;
        } else {
            self.bytes_read = u64::MAX;
        }
        Ok(Some(out))
    }

    /// Overlay bytes at an offset of the value at the key, extending the
    /// value (zero-padded) when the overlay reaches past its current end. An
    /// absent key is treated as an empty value. Counts one write.
    pub fn set_partial_value(&mut self, key: &StoreKey, offset: u64, bytes: &Vec<u8>)
        requires
            offset + bytes@.len() <= usize::MAX,
        ensures
            final(self).contents() == old(self).contents().insert(
                key@,
                overlay(
                    if old(self).contents().contains_key(key@) {
                        old(self).contents()[key@]
                    } else {
                        Seq::empty()
                    },
                    offset as int,
                    bytes@,
                ),
            ),
            final(self).spec_writes() == counter_bump(old(self).spec_writes()),
            final(self).spec_reads() == old(self).spec_reads(),
            final(self).spec_bytes_read() == old(self).spec_bytes_read(),
    {
        let found = self.find(key);
        let ghost base_seq: Seq<u8> = if old(self).contents().contains_key(key@) {
            old(self).contents()[key@]
        } else {
            Seq::empty()
        };
        let mut merged: Vec<u8> = Vec::new();
        match found {
            Some(idx) => {
                match &self.records[idx].value {
                    Some(v) => {
                        merged = v.clone();
                    },
                    None => {},
                }
            },
            None => {},
        }
        proof {
            assert(merged@ == base_seq);
        }
        // pad with zeros up to the overlay's end
        let end = (offset as usize) + bytes.len();
        while merged.len() < end
            invariant
                end <= usize::MAX,
                merged@.len() == base_seq.len() || (base_seq.len() < merged@.len() <= end),
                forall|j: int|
                    0 <= j < base_seq.len() && j < merged@.len() ==> merged@[j] == base_seq[j],
                forall|j: int| base_seq.len() <= j < merged@.len() ==> merged@[j] == 0u8,
            decreases end - merged@.len(),
        {
            merged.push(0u8);
        }
        // write the overlay bytes
        let mut i: usize = 0;
        while i < bytes.len()
            invariant
                end == offset + bytes@.len(),
                end <= usize::MAX,
                merged@.len() >= end,
                merged@.len() == base_seq.len() || (base_seq.len() < merged@.len() <= end),
                i <= bytes@.len(),
                forall|j: int|
                    0 <= j < base_seq.len() && j < merged@.len() && !(offset <= j < offset + i)
                        ==> merged@[j] == base_seq[j],
                forall|j: int|
                    base_seq.len() <= j < merged@.len() && !(offset <= j < offset + i)
                        ==> merged@[j] == 0u8,
                forall|j: int| 0 <= j < i ==> merged@[offset + j] == bytes@[j],
            decreases bytes@.len() - i,
        {
            let at = (offset as usize) + i;
            merged.set(at, bytes[i]);
            i += 1;
        }
        proof {
            let expected = overlay(base_seq, offset as int, bytes@);
            assert(merged@ =~= expected);
        }
        self.set(key, merged);
    }

    /// Erase the key. Idempotent: absent keys stay absent. Counts as neither
    /// a read nor a write.
    pub fn erase(&mut self, key: &StoreKey)
        ensures
            final(self).contents() == old(self).contents().remove(key@),
            final(self).spec_writes() == old(self).spec_writes(),
            final(self).spec_reads() == old(self).spec_reads(),
            final(self).spec_bytes_read() == old(self).spec_bytes_read(),
    {
        self.records.push(StoreRecord { key: key.duplicate(), value: None });
        proof {
            assert(self.records@.drop_last() =~= old(self).records@);
        }
    }
}

impl MemoryStore {
    /// Erase several keys. Idempotent per key; counts as neither reads nor
    /// writes.
    pub fn erase_values(&mut self, keys: &Vec<StoreKey>)
        ensures
            final(self).spec_writes() == old(self).spec_writes(),
            final(self).spec_reads() == old(self).spec_reads(),
            final(self).spec_bytes_read() == old(self).spec_bytes_read(),
            forall|q: Seq<u8>|
                #[trigger] final(self).contents().contains_key(q) <==> old(
                    self,
                ).contents().contains_key(q) && !(exists|i: int|
                    0 <= i < keys@.len() && keys@[i]@ == q),
            forall|q: Seq<u8>|
                #[trigger] final(self).contents().contains_key(q) ==> final(self).contents()[q]
                    == old(self).contents()[q],
    {
        let mut i: usize = 0;
        while i < keys.len()
            invariant
                i <= keys@.len(),
                self.spec_writes() == old(self).spec_writes(),
                self.spec_reads() == old(self).spec_reads(),
                self.spec_bytes_read() == old(self).spec_bytes_read(),
                forall|q: Seq<u8>|
                    #[trigger] self.contents().contains_key(q) <==> old(
                        self,
                    ).contents().contains_key(q) && !(exists|j: int|
                        0 <= j < i && keys@[j]@ == q),
                forall|q: Seq<u8>|
                    #[trigger] self.contents().contains_key(q) ==> self.contents()[q] == old(
                        self,
                    ).contents()[q],
            decreases keys@.len() - i,
        {
            self.erase(&keys[i]);
            i += 1;
        }
    }

    /// Erase every key under a byte prefix. Counts as neither reads nor
    /// writes.
    pub fn erase_prefix(&mut self, prefix: &Vec<u8>)
        ensures
            final(self).spec_writes() == old(self).spec_writes(),
            final(self).spec_reads() == old(self).spec_reads(),
            final(self).spec_bytes_read() == old(self).spec_bytes_read(),
            forall|q: Seq<u8>|
                #[trigger] final(self).contents().contains_key(q) <==> old(
                    self,
                ).contents().contains_key(q) && !is_prefixed(q, prefix@),
            forall|q: Seq<u8>|
                #[trigger] final(self).contents().contains_key(q) ==> final(self).contents()[q]
                    == old(self).contents()[q],
    {
        let mut doomed: Vec<StoreKey> = Vec::new();
        let mut i: usize = 0;
        while i < self.records.len()
            invariant
                i <= self.records@.len(),
                forall|j: int|
                    0 <= j < doomed@.len() ==> is_prefixed(#[trigger] doomed@[j]@, prefix@),
                forall|j: int|
                    0 <= j < i && is_prefixed(#[trigger] self.records@[j].key@, prefix@) ==> (
                    exists|d: int| 0 <= d < doomed@.len() && doomed@[d]@ == self.records@[j].key@),
            decreases self.records@.len() - i,
        {
            let ghost doomed_before = doomed@;
            let key = &self.records[i].key;
            let mut matched = false;
            if prefix.len() <= key.as_bytes().len() {
                let head = copy_subrange(key.as_bytes(), 0, prefix.len());
                if bytes_equal(&head, prefix) {
                    proof {
                        assert(head@ =~= self.records@[i as int].key@.take(prefix@.len() as int));
                        assert(is_prefixed(self.records@[i as int].key@, prefix@));
                    }
                    let d = key.duplicate();
                    doomed.push(d);
                    matched = true;
                    proof {
                        assert(doomed@[doomed@.len() - 1]@ == self.records@[i as int].key@);
                        assert(forall|d: int|
                            0 <= d < doomed_before.len() ==> doomed@[d] == doomed_before[d]);
                    }
                } else {
                    proof {
                        assert(head@ =~= self.records@[i as int].key@.take(prefix@.len() as int));
                        assert(!is_prefixed(self.records@[i as int].key@, prefix@));
                    }
                }
            }
            proof {
                if is_prefixed(self.records@[i as int].key@, prefix@) {
                    assert(matched);
                    assert(exists|d: int|
                        0 <= d < doomed@.len() && doomed@[d]@ == self.records@[i as int].key@);
                }
                assert(forall|j: int|
                    0 <= j < i && is_prefixed(#[trigger] self.records@[j].key@, prefix@) ==> (
                    exists|d: int|
                        0 <= d < doomed_before.len() && doomed_before[d]@
                            == self.records@[j].key@));
                assert forall|j: int|
                    0 <= j < i && is_prefixed(
                        #[trigger] self.records@[j].key@,
                        prefix@,
                    ) implies (exists|d: int|
                    0 <= d < doomed@.len() && doomed@[d]@ == self.records@[j].key@) by {
                    let d0 = choose|d: int|
                        0 <= d < doomed_before.len() && doomed_before[d]@
                            == self.records@[j].key@;
                    assert(doomed@[d0]@ == self.records@[j].key@);
                }
            }
            i += 1;
        }
        let ghost records_before = self.records@;
        let mut k: usize = 0;
        while k < doomed.len()
            invariant
                k <= doomed@.len(),
                self.spec_writes() == old(self).spec_writes(),
                self.spec_reads() == old(self).spec_reads(),
                self.spec_bytes_read() == old(self).spec_bytes_read(),
                forall|j: int|
                    0 <= j < doomed@.len() ==> is_prefixed(#[trigger] doomed@[j]@, prefix@),
                forall|j: int|
                    0 <= j < records_before.len() && is_prefixed(
                        #[trigger] records_before[j].key@,
                        prefix@,
                    ) ==> (exists|d: int|
                        0 <= d < doomed@.len() && doomed@[d]@ == records_before[j].key@),
                forall|q: Seq<u8>|
                    #[trigger] self.contents().contains_key(q) ==> old(
                        self,
                    ).contents().contains_key(q) && self.contents()[q] == old(self).contents()[q],
                forall|q: Seq<u8>|
                    old(self).contents().contains_key(q) && !is_prefixed(q, prefix@)
                        ==> #[trigger] self.contents().contains_key(q),
                forall|q: Seq<u8>|
                    old(self).contents().contains_key(q) && !(exists|d: int|
                        0 <= d < k && doomed@[d]@ == q) ==> #[trigger] self.contents().contains_key(
                        q,
                    ),
                forall|d: int|
                    0 <= d < k ==> !self.contents().contains_key(#[trigger] doomed@[d]@),
            decreases doomed@.len() - k,
        {
            self.erase(&doomed[k]);
            k += 1;
        }
        proof {
            assert(records_before == old(self).records@);
            assert forall|q: Seq<u8>|
                old(self).contents().contains_key(q) && is_prefixed(
                    q,
                    prefix@,
                ) implies !self.contents().contains_key(q) by {
                lemma_contents_in_records(records_before, q);
                let j = choose|j: int|
                    0 <= j < records_before.len() && records_before[j].key@ == q;
                assert(exists|d: int| 0 <= d < doomed@.len() && doomed@[d]@ == q);
            }
        }
    }

    /// The keys the store currently holds, each once, in no promised order.
    pub fn list(&self) -> (r: Vec<StoreKey>)
        ensures
            forall|i: int, j: int| 0 <= i < j < r@.len() ==> #[trigger] r@[i]@ != #[trigger] r@[j]@,
            forall|q: Seq<u8>|
                #[trigger] self.contents().contains_key(q) <==> exists|i: int|
                    0 <= i < r@.len() && r@[i]@ == q,
    {
        let mut out: Vec<StoreKey> = Vec::new();
        let mut i: usize = 0;
        while i < self.records.len()
            invariant
                i <= self.records@.len(),
                forall|a: int, b: int|
                    0 <= a < b < out@.len() ==> #[trigger] out@[a]@ != #[trigger] out@[b]@,
                forall|a: int|
                    0 <= a < out@.len() ==> #[trigger] self.contents().contains_key(out@[a]@),
                forall|j: int|
                    0 <= j < i && #[trigger] self.contents().contains_key(self.records@[j].key@)
                        ==> (exists|a: int|
                        0 <= a < out@.len() && out@[a]@ == self.records@[j].key@),
            decreases self.records@.len() - i,
        {
            let ghost out_before = out@;
            let key = self.records[i].key.duplicate();
            if self.contains(&key) {
                let mut seen = false;
                let mut a: usize = 0;
                while a < out.len()
                    invariant
                        a <= out@.len(),
                        out@ == out_before,
                        key@ == self.records@[i as int].key@,
                        seen == exists|b: int| 0 <= b < a && out@[b]@ == key@,
                    decreases out@.len() - a,
                {
                    if out[a].key_equals(&key) {
                        seen = true;
                    }
                    a += 1;
                }
                if !seen {
                    out.push(key);
                    proof {
                        assert(out@[out@.len() - 1]@ == self.records@[i as int].key@);
                        assert(forall|b: int|
                            0 <= b < out_before.len() ==> out@[b] == out_before[b]);
                    }
                } else {
                    proof {
                        let b = choose|b: int|
                            0 <= b < out_before.len() && out_before[b]@
                                == self.records@[i as int].key@;
                        assert(out@[b]@ == self.records@[i as int].key@);
                    }
                }
            }
            proof {
                assert forall|j: int|
                    0 <= j < i && #[trigger] self.contents().contains_key(
                        self.records@[j].key@,
                    ) implies (exists|a: int|
                    0 <= a < out@.len() && out@[a]@ == self.records@[j].key@) by {
                    let a0 = choose|a: int|
                        0 <= a < out_before.len() && out_before[a]@ == self.records@[j].key@;
                    assert(out@[a0]@ == self.records@[j].key@);
                }
            }
            i += 1;
        }
        proof {
            assert forall|q: Seq<u8>| #[trigger]
                self.contents().contains_key(q) implies exists|a: int|
                0 <= a < out@.len() && out@[a]@ == q by {
                lemma_contents_in_records(self.records@, q);
            }
        }
        out
    }

    /// The keys the store currently holds under a byte prefix, each once,
    /// in no promised order.
    #[verifier::rlimit(60)]
    pub fn list_prefix(&self, prefix: &Vec<u8>) -> (r: Vec<StoreKey>)
        ensures
            forall|i: int, j: int| 0 <= i < j < r@.len() ==> #[trigger] r@[i]@ != #[trigger] r@[j]@,
            forall|q: Seq<u8>|
                (#[trigger] self.contents().contains_key(q) && is_prefixed(q, prefix@)) <==> exists|
                    i: int,
                |
                    0 <= i < r@.len() && r@[i]@ == q,
    {
        let all = self.list();
        let mut out: Vec<StoreKey> = Vec::new();
        let mut i: usize = 0;
        while i < all.len()
            invariant
                i <= all@.len(),
                forall|a: int, b: int|
                    0 <= a < b < all@.len() ==> #[trigger] all@[a]@ != #[trigger] all@[b]@,
                forall|a: int|
                    0 <= a < all@.len() ==> #[trigger] self.contents().contains_key(all@[a]@),
                forall|a: int, b: int|
                    0 <= a < b < out@.len() ==> #[trigger] out@[a]@ != #[trigger] out@[b]@,
                forall|a: int|
                    0 <= a < out@.len() ==> #[trigger] self.contents().contains_key(out@[a]@),
                forall|a: int| 0 <= a < out@.len() ==> is_prefixed(#[trigger] out@[a]@, prefix@),
                forall|a: int|
                    0 <= a < out@.len() ==> exists|j: int| 0 <= j < i && #[trigger] out@[a]@
                        == all@[j]@,
                forall|j: int|
                    0 <= j < i && is_prefixed(#[trigger] all@[j]@, prefix@) ==> (exists|a: int|
                        0 <= a < out@.len() && out@[a]@ == all@[j]@),
            decreases all@.len() - i,
        {
            let ghost out_before = out@;
            let key = &all[i];
            let mut matched = false;
            if prefix.len() <= key.as_bytes().len() {
                let head = copy_subrange(key.as_bytes(), 0, prefix.len());
                if bytes_equal(&head, prefix) {
                    proof {
                        assert(head@ =~= all@[i as int]@.take(prefix@.len() as int));
                        assert(is_prefixed(all@[i as int]@, prefix@));
                        assert forall|a: int|
                            0 <= a < out_before.len() implies out_before[a]@ != all@[
                        i as int]@ by {
                            let j0 = choose|j: int|
                                0 <= j < i && #[trigger] out_before[a]@ == all@[j]@;
                            assert(all@[j0]@ != all@[i as int]@);
                        }
                    }
                    out.push(key.duplicate());
                    matched = true;
                    proof {
                        assert(out@[out@.len() - 1]@ == all@[i as int]@);
                        assert(forall|a: int|
                            0 <= a < out_before.len() ==> out@[a] == out_before[a]);
                    }
                } else {
                    proof {
                        assert(head@ =~= all@[i as int]@.take(prefix@.len() as int));
                        assert(!is_prefixed(all@[i as int]@, prefix@));
                    }
                }
            }
            proof {
                if is_prefixed(all@[i as int]@, prefix@) {
                    assert(matched);
                }
                assert forall|j: int|
                    0 <= j < i && is_prefixed(#[trigger] all@[j]@, prefix@) implies (exists|a: int|
                    0 <= a < out@.len() && out@[a]@ == all@[j]@) by {
                    let a0 = choose|a: int|
                        0 <= a < out_before.len() && out_before[a]@ == all@[j]@;
                    assert(out@[a0]@ == all@[j]@);
                }
                assert forall|a: int|
                    0 <= a < out@.len() implies exists|j: int| 0 <= j < i + 1
                    && #[trigger] out@[a]@ == all@[j]@ by {
                    if a < out_before.len() {
                        let j0 = choose|j: int|
                            0 <= j < i && #[trigger] out_before[a]@ == all@[j]@;
                        assert(out@[a]@ == all@[j0]@);
                    } else {
                        assert(out@[a]@ == all@[i as int]@);
                    }
                }
            }
            i += 1;
        }
        proof {
            assert forall|q: Seq<u8>|
                self.contents().contains_key(q) && is_prefixed(q, prefix@) implies exists|a: int|
                0 <= a < out@.len() && out@[a]@ == q by {
                let j = choose|j: int| 0 <= j < all@.len() && all@[j]@ == q;
                assert(is_prefixed(all@[j]@, prefix@));
            }
        }
        out
    }

    /// One ranged read for each keyed byte range: `None` for an absent key,
    /// the addressed bytes otherwise. Each entry counts as one read.
    pub fn get_partial_values(&mut self, key_ranges: &Vec<StoreKeyRange>) -> (r: Result<
        Vec<Option<Vec<u8>>>,
        StorageError,
    >)
        ensures
            final(self).contents() == old(self).contents(),
            final(self).spec_writes() == old(self).spec_writes(),
            r matches Ok(out) ==> {
                &&& out@.len() == key_ranges@.len()
                &&& forall|i: int|
                    0 <= i < key_ranges@.len() ==> (#[trigger] out@[i] is None <==> !old(
                        self,
                    ).contents().contains_key(key_ranges@[i].key@))
                &&& forall|i: int|
                    0 <= i < key_ranges@.len() ==> (#[trigger] out@[i] matches Some(v) ==> piece_of(
                        v@,
                        old(self).contents()[key_ranges@[i].key@],
                        key_ranges@[i].byte_range,
                    ))
            },
            r matches Err(e) ==> e is InvalidByteRange,
    {
        let mut out: Vec<Option<Vec<u8>>> = Vec::new();
        let mut i: usize = 0;
        while i < key_ranges.len()
            invariant
                i <= key_ranges@.len(),
                out@.len() == i,
                self.contents() == old(self).contents(),
                self.spec_writes() == old(self).spec_writes(),
                forall|j: int|
                    0 <= j < i ==> (#[trigger] out@[j] is None <==> !old(
                        self,
                    ).contents().contains_key(key_ranges@[j].key@)),
                forall|j: int|
                    0 <= j < i ==> (#[trigger] out@[j] matches Some(v) ==> piece_of(
                        v@,
                        old(self).contents()[key_ranges@[j].key@],
                        key_ranges@[j].byte_range,
                    )),
            decreases key_ranges@.len() - i,
        {
            let entry = &key_ranges[i];
            let mut ranges: Vec<ByteRange> = Vec::new();
            ranges.push(entry.byte_range);
            match self.get_partial_values_key(&entry.key, &ranges) {
                Ok(Some(mut pieces)) => {
                    if pieces.len() != 1 {
                        proof {
                            assert(false);
                        }
                        return Err(
                            StorageError::InvalidByteRange(
                                InvalidByteRangeError { byte_range: entry.byte_range, size: 0 },
                            ),
                        );
                    }
                    let piece = pieces.remove(0);
                    proof {
                        assert(piece_of(
                            piece@,
                            old(self).contents()[key_ranges@[i as int].key@],
                            key_ranges@[i as int].byte_range,
                        ));
                    }
                    out.push(Some(piece));
                },
                Ok(None) => {
                    out.push(None);
                },
                Err(e) => {
                    return Err(e);
                },
            }
            i += 1;
        }
        Ok(out)
    }
}

/// A key the store holds is named by some record.
proof fn lemma_contents_in_records(records: Seq<StoreRecord>, q: Seq<u8>)
    requires
        contents_of(records).contains_key(q),
    ensures
        exists|j: int| 0 <= j < records.len() && #[trigger] records[j].key@ == q,
    decreases records.len(),
{
    if records.len() > 0 {
        if records.last().key@ == q {
            assert(records[records.len() - 1].key@ == q);
        } else {
            lemma_contents_in_records(records.drop_last(), q);
            let j = choose|j: int|
                0 <= j < records.drop_last().len() && #[trigger] records.drop_last()[j].key@ == q;
            assert(records[j].key@ == q);
        }
    }
}

/// If record `i` is the last record for a key, the store's contents at that
/// key are exactly record `i`'s value.
proof fn lemma_contents_lookup(records: Seq<StoreRecord>, i: int, k: Seq<u8>)
    requires
        0 <= i < records.len(),
        records[i].key@ == k,
        forall|j: int| i < j < records.len() ==> records[j].key@ != k,
    ensures
        records[i].value matches Some(v) ==> contents_of(records).contains_key(k) && contents_of(
            records,
        )[k] == v@,
        records[i].value is None ==> !contents_of(records).contains_key(k),
    decreases records.len(),
{
    if i == records.len() - 1 {
    } else {
        assert(records.drop_last()[i] == records[i]);
        assert(forall|j: int|
            i < j < records.drop_last().len() ==> records.drop_last()[j] == records[j]);
        lemma_contents_lookup(records.drop_last(), i, k);
        assert(records.last().key@ != k);
    }
}

/// A key no record names is absent from the contents.
proof fn lemma_contents_absent(records: Seq<StoreRecord>, k: Seq<u8>)
    requires
        forall|j: int| 0 <= j < records.len() ==> records[j].key@ != k,
    ensures
        !contents_of(records).contains_key(k),
    decreases records.len(),
{
    if records.len() > 0 {
        assert(forall|j: int|
            0 <= j < records.drop_last().len() ==> records.drop_last()[j] == records[j]);
        lemma_contents_absent(records.drop_last(), k);
    }
}

/// Whether `piece` is exactly the bytes of `value` addressed by `range`.
pub open spec fn piece_of(piece: Seq<u8>, value: Seq<u8>, range: ByteRange) -> bool {
    &&& range.spec_is_valid(value.len() as u64)
    &&& piece == value.subrange(
        range.spec_start(value.len() as u64),
        range.spec_end(value.len() as u64),
    )
}

/// The value after overlaying `b` at `offset` of `base`: positions covered
/// by `b` take its bytes, other positions keep `base`'s bytes, and the gap
/// between the end of `base` and `offset`, if any, is zero-filled.
pub open spec fn overlay(base: Seq<u8>, offset: int, b: Seq<u8>) -> Seq<u8> {
    Seq::new(
        if base.len() >= offset + b.len() {
            base.len() as nat
        } else {
            (offset + b.len()) as nat
        },
        |i: int|
            if offset <= i < offset + b.len() {
                b[i - offset]
            } else if i < base.len() {
                base[i]
            } else {
                0u8
            },
    )
}

/// A copy of the bytes of `v` from `start` (inclusive) to `end` (exclusive).
pub fn copy_subrange(v: &Vec<u8>, start: usize, end: usize) -> (r: Vec<u8>)
    requires
        start <= end <= v@.len(),
    ensures
        r@ == v@.subrange(start as int, end as int),
{
    let mut out: Vec<u8> = Vec::new();
    let mut i: usize = start;
    while i < end
        invariant
            start <= i <= end <= v@.len(),
            out@.len() == i - start,
            forall|j: int| 0 <= j < out@.len() ==> out@[j] == v@[start + j],
        decreases end - i,
    {
        out.push(v[i]);
        i += 1;
    }
    proof {
        assert(out@ =~= v@.subrange(start as int, end as int));
    }
    out
}

} // verus!
