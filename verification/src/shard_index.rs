//! The shard index: a fixed-size table recording, for each inner chunk of a
//! shard in row-major order, the byte offset and length of its encoded blob
//! within the shard, with a sentinel for inner chunks that are empty (equal
//! to the fill value). All integers are little-endian `u64`s on disk.

use vstd::prelude::*;

use vstd::bytes::{
    spec_u64_from_le_bytes, spec_u64_to_le_bytes, u64_from_le_bytes, u64_to_le_bytes,
    lemma_auto_spec_u64_to_from_le_bytes,
};

use crate::storage::copy_subrange;

verus! {

/// The sentinel marking an empty inner chunk in both halves of its entry.
pub const EMPTY_SENTINEL: u64 = u64::MAX;

/// Where the index lives within the shard blob.
#[derive(Clone, Copy, Debug, PartialEq, Eq, Structural)]
pub enum ShardingIndexLocation {
    /// The index is a fixed-size prefix of the shard.
    Start,
    /// The index is a fixed-size suffix of the shard.
    End,
}

/// The little-endian byte serialisation of a sequence of `u64`s.
pub open spec fn le_bytes_of_u64s(s: Seq<u64>) -> Seq<u8>
    decreases s.len(),
{
    if s.len() == 0 {
        Seq::empty()
    } else {
        le_bytes_of_u64s(s.drop_last()) + spec_u64_to_le_bytes(s.last())
    }
}

/// The `u64`s read from a little-endian byte serialisation whose length is a
/// multiple of eight.
pub open spec fn u64s_of_le_bytes(b: Seq<u8>) -> Seq<u64>
    decreases b.len(),
{
    if b.len() < 8 {
        Seq::empty()
    } else {
        u64s_of_le_bytes(b.take(b.len() - 8)).push(spec_u64_from_le_bytes(b.skip(b.len() - 8)))
    }
}

/// Serialising a sequence of `u64`s takes eight bytes each.
pub proof fn lemma_le_bytes_len(s: Seq<u64>)
    ensures
        le_bytes_of_u64s(s).len() == 8 * s.len(),
    decreases s.len(),
{
    lemma_auto_spec_u64_to_from_le_bytes();
    if s.len() > 0 {
        lemma_le_bytes_len(s.drop_last());
    }
}

/// Reading back a serialised sequence of `u64`s gives the sequence.
pub proof fn lemma_le_bytes_round_trip(s: Seq<u64>)
    ensures
        u64s_of_le_bytes(le_bytes_of_u64s(s)) == s,
    decreases s.len(),
{
    lemma_auto_spec_u64_to_from_le_bytes();
    lemma_le_bytes_len(s);
    if s.len() == 0 {
        assert(u64s_of_le_bytes(le_bytes_of_u64s(s)) =~= s);
    } else {
        lemma_le_bytes_round_trip(s.drop_last());
        lemma_le_bytes_len(s.drop_last());
        let b = le_bytes_of_u64s(s);
        assert(b.take(b.len() - 8) =~= le_bytes_of_u64s(s.drop_last()));
        assert(b.skip(b.len() - 8) =~= spec_u64_to_le_bytes(s.last()));
        assert(u64s_of_le_bytes(b) =~= s);
    }
}

/// Serialise index entries as little-endian `u64`s.
pub fn encode_shard_index(entries: &Vec<u64>) -> (r: Vec<u8>)
    requires
        8 * entries@.len() <= usize::MAX,
    ensures
        r@ == le_bytes_of_u64s(entries@),
        r@.len() == 8 * entries@.len(),
{
    proof {
        lemma_le_bytes_len(entries@);
    }
    let mut out: Vec<u8> = Vec::new();
    let mut i: usize = 0;
    while i < entries.len()
        invariant
            8 * entries@.len() <= usize::MAX,
            i <= entries@.len(),
            out@ == le_bytes_of_u64s(entries@.take(i as int)),
            out@.len() == 8 * i,
        decreases entries@.len() - i,
    {
        proof {
            lemma_le_bytes_len(entries@.take(i as int));
            assert(entries@.take(i + 1).drop_last() =~= entries@.take(i as int));
            assert(entries@.take(i + 1).last() == entries@[i as int]);
        }
        let piece = u64_to_le_bytes(entries[i]);
        let mut k: usize = 0;
        while k < 8
            invariant
                k <= 8,
                piece@.len() == 8,
                out@ == le_bytes_of_u64s(entries@.take(i as int)) + piece@.take(k as int),
            decreases 8 - k,
        {
            proof {
                assert(piece@.take(k + 1) =~= piece@.take(k as int).push(piece@[k as int]));
            }
            out.push(piece[k]);
            k += 1;
        }
        proof {
            assert(piece@.take(8) =~= piece@);
        }
        i += 1;
    }
    proof {
        assert(entries@.take(entries@.len() as int) =~= entries@);
    }
    out
}

/// Parse index entries from their little-endian serialisation.
pub fn decode_shard_index(bytes: &Vec<u8>) -> (r: Vec<u64>)
    requires
        bytes@.len() % 8 == 0,
    ensures
        r@ == u64s_of_le_bytes(bytes@),
        8 * r@.len() == bytes@.len(),
        le_bytes_of_u64s(r@) == bytes@,
    {
    let count = bytes.len() / 8;
    proof {
        assert(8 * (bytes@.len() / 8) == bytes@.len());
        assert(bytes@.len() <= usize::MAX);
    }
    let mut out: Vec<u64> = Vec::new();
    let mut i: usize = 0;
    while i < count
        invariant
            bytes@.len() % 8 == 0,
            count == bytes@.len() / 8,
            8 * count == bytes@.len(),
            bytes@.len() <= usize::MAX,
            i <= count,
            out@.len() == i,
            out@ == u64s_of_le_bytes(bytes@.take(8 * i)),
            le_bytes_of_u64s(out@) == bytes@.take(8 * i),
        decreases count - i,
    {
        proof {
            assert(8 * i + 8 <= 8 * count) by (nonlinear_arith)
                requires
                    i < count,
            ;
        }
        let piece = copy_subrange(bytes, 8 * i, 8 * i + 8);
        let word = u64_from_le_bytes(piece.as_slice());
        proof {
            lemma_auto_spec_u64_to_from_le_bytes();
            let t = bytes@.take(8 * (i + 1));
            assert(t.take(t.len() - 8) =~= bytes@.take(8 * i));
            assert(t.skip(t.len() - 8) =~= bytes@.subrange(8 * i, 8 * i + 8));
            assert(word == spec_u64_from_le_bytes(piece@));
            assert(spec_u64_to_le_bytes(word) =~= piece@);
        }
        out.push(word);
        i += 1;
        proof {
            assert(out@.drop_last() =~= u64s_of_le_bytes(bytes@.take(8 * (i - 1))));
            assert(le_bytes_of_u64s(out@) == le_bytes_of_u64s(out@.drop_last())
                + spec_u64_to_le_bytes(out@.last()));
            assert(le_bytes_of_u64s(out@) =~= bytes@.take(8 * i));
            assert(out@ =~= u64s_of_le_bytes(bytes@.take(8 * i)));
        }
    }
    proof {
        assert(bytes@.take(8 * (count as int)) =~= bytes@);
    }
    out
}

/// The stored offset of inner chunk `i` in an entry table.
pub open spec fn entry_offset(entries: Seq<u64>, i: int) -> u64 {
    entries[2 * i]
}

/// The stored byte length of inner chunk `i` in an entry table.
pub open spec fn entry_nbytes(entries: Seq<u64>, i: int) -> u64 {
    entries[2 * i + 1]
}

/// Whether inner chunk `i` is marked empty (both halves are the sentinel).
pub open spec fn entry_is_empty(entries: Seq<u64>, i: int) -> bool {
    entries[2 * i] == EMPTY_SENTINEL && entries[2 * i + 1] == EMPTY_SENTINEL
}

/// Whether an entry table is a valid index for a shard whose inner-chunk
/// bytes live in `[lo, hi)`: every non-empty entry lies within the region
/// and no two non-empty entries overlap.
pub open spec fn shard_index_entries_valid(entries: Seq<u64>, lo: int, hi: int) -> bool {
    &&& entries.len() % 2 == 0
    &&& forall|i: int|
        0 <= i < entries.len() / 2 && !entry_is_empty(entries, i) ==> lo <= #[trigger] entry_offset(
            entries,
            i,
        ) && entry_offset(entries, i) + entry_nbytes(entries, i) <= hi
    &&& forall|i: int, j: int|
        0 <= i < j < entries.len() / 2 && !entry_is_empty(entries, i) && !entry_is_empty(
            entries,
            j,
        ) ==> #[trigger] entry_offset(entries, i) + entry_nbytes(entries, i)
            <= #[trigger] entry_offset(entries, j) || entry_offset(entries, j) + entry_nbytes(
            entries,
            j,
        ) <= entry_offset(entries, i)
}

/// Check that an entry table is a valid index for inner-chunk bytes living
/// in `[lo, hi)`.
pub fn validate_shard_index(entries: &Vec<u64>, lo: u64, hi: u64) -> (r: bool)
    requires
        entries@.len() % 2 == 0,
    ensures
        r == shard_index_entries_valid(entries@, lo as int, hi as int),
{
    let count = entries.len() / 2;
    proof {
        assert(2 * (entries@.len() / 2) == entries@.len());
        assert(entries@.len() <= usize::MAX);
    }
    let mut i: usize = 0;
    while i < count
        invariant
            entries@.len() % 2 == 0,
            count == entries@.len() / 2,
            2 * count == entries@.len(),
            entries@.len() <= usize::MAX,
            i <= count,
            forall|k: int|
                0 <= k < i && !entry_is_empty(entries@, k) ==> lo <= #[trigger] entry_offset(
                    entries@,
                    k,
                ) && entry_offset(entries@, k) + entry_nbytes(entries@, k) <= hi,
            forall|k: int, j: int|
                0 <= k < j < i && !entry_is_empty(entries@, k) && !entry_is_empty(entries@, j)
                    ==> #[trigger] entry_offset(entries@, k) + entry_nbytes(entries@, k)
                    <= #[trigger] entry_offset(entries@, j) || entry_offset(entries@, j)
                    + entry_nbytes(entries@, j) <= entry_offset(entries@, k),
        decreases count - i,
    {
        proof {
            assert(2 * i + 1 < 2 * count) by (nonlinear_arith)
                requires
                    i < count,
            ;
        }
        let off_i = entries[2 * i];
        let len_i = entries[2 * i + 1];
        proof {
            assert(off_i == entry_offset(entries@, i as int));
            assert(len_i == entry_nbytes(entries@, i as int));
        }
        if !(off_i == EMPTY_SENTINEL && len_i == EMPTY_SENTINEL) {
            if off_i < lo {
                proof {
                    assert(!entry_is_empty(entries@, i as int) && entry_offset(entries@, i as int)
                        < lo);
                }
                return false;
            }
            if len_i > u64::MAX - off_i || off_i + len_i > hi {
                proof {
                    assert(!entry_is_empty(entries@, i as int) && entry_offset(entries@, i as int)
                        + entry_nbytes(entries@, i as int) > hi);
                }
                return false;
            }
            let mut j: usize = 0;
            while j < i
                invariant
                    entries@.len() % 2 == 0,
                    count == entries@.len() / 2,
                    2 * count == entries@.len(),
                    entries@.len() <= usize::MAX,
                    i < count,
                    j <= i,
                    off_i == entry_offset(entries@, i as int),
                    len_i == entry_nbytes(entries@, i as int),
                    !entry_is_empty(entries@, i as int),
                    off_i + len_i <= hi,
                    forall|k: int|
                        0 <= k < j && !entry_is_empty(entries@, k) ==> #[trigger] entry_offset(
                            entries@,
                            k,
                        ) + entry_nbytes(entries@, k) <= entry_offset(entries@, i as int)
                            || entry_offset(entries@, i as int) + entry_nbytes(entries@, i as int)
                            <= entry_offset(entries@, k),
                decreases i - j,
            {
                proof {
                    assert(2 * j + 1 < 2 * count) by (nonlinear_arith)
                        requires
                            j < i,
                            i < count,
                    ;
                }
                let off_j = entries[2 * j];
                let len_j = entries[2 * j + 1];
                proof {
                    assert(off_j == entry_offset(entries@, j as int));
                    assert(len_j == entry_nbytes(entries@, j as int));
                }
                if !(off_j == EMPTY_SENTINEL && len_j == EMPTY_SENTINEL) {
                    let j_before = len_j <= u64::MAX - off_j && off_j + len_j <= off_i;
                    let i_before = off_i + len_i <= off_j;
                    if !(j_before || i_before) {
                        proof {
                            assert(!entry_is_empty(entries@, j as int));
                            assert(!(entry_offset(entries@, j as int) + entry_nbytes(
                                entries@,
                                j as int,
                            ) <= entry_offset(entries@, i as int)));
                            assert(!(entry_offset(entries@, i as int) + entry_nbytes(
                                entries@,
                                i as int,
                            ) <= entry_offset(entries@, j as int)));
                        }
                        return false;
                    }
                }
                j += 1;
            }
        }
        i += 1;
    }
    true
}

/// The end of the occupied inner-chunk region: the largest entry end over
/// the non-empty entries, but at least `floor`.
pub open spec fn shard_body_end(entries: Seq<u64>, floor: int) -> int
    decreases entries.len(),
{
    if entries.len() < 2 {
        floor
    } else {
        let rest = shard_body_end(entries.take(entries.len() - 2), floor);
        let k = entries.len() / 2 - 1;
        if entry_is_empty(entries, k) {
            rest
        } else if entry_offset(entries, k) + entry_nbytes(entries, k) > rest {
            entry_offset(entries, k) + entry_nbytes(entries, k)
        } else {
            rest
        }
    }
}

/// Compute the end of the occupied inner-chunk region.
pub fn compute_shard_body_end(entries: &Vec<u64>, floor: u64) -> (r: u64)
    requires
        entries@.len() % 2 == 0,
        shard_index_entries_valid(entries@, 0, u64::MAX as int) || shard_index_entries_valid(
            entries@,
            floor as int,
            u64::MAX as int,
        ),
    ensures
        r == shard_body_end(entries@, floor as int),
        r >= floor,
    {
    let count = entries.len() / 2;
    proof {
        assert(2 * (entries@.len() / 2) == entries@.len());
        assert(entries@.len() <= usize::MAX);
    }
    let mut end: u64 = floor;
    let mut i: usize = 0;
    while i < count
        invariant
            entries@.len() % 2 == 0,
            count == entries@.len() / 2,
            2 * count == entries@.len(),
            entries@.len() <= usize::MAX,
            i <= count,
            shard_index_entries_valid(entries@, 0, u64::MAX as int) || shard_index_entries_valid(
                entries@,
                floor as int,
                u64::MAX as int,
            ),
            end == shard_body_end(entries@.take(2 * i), floor as int),
            end >= floor,
        decreases count - i,
    {
        proof {
            let t = entries@.take(2 * (i + 1));
            assert(t.take(t.len() - 2) =~= entries@.take(2 * i));
            assert(entry_offset(t, i as int) == entry_offset(entries@, i as int));
            assert(entry_nbytes(t, i as int) == entry_nbytes(entries@, i as int));
        }
        proof {
            assert(2 * i + 1 < 2 * count) by (nonlinear_arith)
                requires
                    i < count,
            ;
        }
        let off = entries[2 * i];
        let len = entries[2 * i + 1];
        if !(off == EMPTY_SENTINEL && len == EMPTY_SENTINEL) {
            proof {
                assert(!entry_is_empty(entries@, i as int));
                assert(entry_offset(entries@, i as int) + entry_nbytes(entries@, i as int)
                    <= u64::MAX);
            }
            let this_end = off + len;
            if this_end > end {
                end = this_end;
            }
        }
        i += 1;
    }
    proof {
        assert(entries@.take(2 * (count as int)) =~= entries@);
    }
    end
}

} // verus!
