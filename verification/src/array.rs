//! The array engine: chunk keys, fill-value buffers, rectangular gather and
//! scatter, and the chunk-level store and retrieve operations, including the
//! sharding codec's partial decode and partial encode paths.

use vstd::prelude::*;

use crate::array_subset::{
    checked_num_elements, lemma_linear_index_injective, lemma_num_elements_positive, linear_index,
    linear_index_of, num_elements_of, pos_within, unravel_index, ArraySubset,
};
use crate::codec::{CodecError, DataType};
use crate::config::Config;
use crate::shard_index::{
    compute_shard_body_end, decode_shard_index, encode_shard_index, validate_shard_index,
    ShardingIndexLocation, EMPTY_SENTINEL,
};
use crate::byte_range::ByteRange;
use crate::storage::{copy_subrange, MemoryStore, StorageError, StoreKey, StoreKeyError};

verus! {

/// The decimal digits of a number, most significant first.
pub open spec fn decimal_of(x: nat) -> Seq<u8>
    decreases x,
{
    if x < 10 {
        seq![(48 + x) as u8]
    } else {
        decimal_of(x / 10).push((48 + x % 10) as u8)
    }
}

/// Append the decimal digits of `x`.
pub fn push_decimal(out: &mut Vec<u8>, x: u64)
    ensures
        final(out)@ == old(out)@ + decimal_of(x as nat),
    decreases x,
{
    if x < 10 {
        out.push(48 + (x as u8));
        proof {
            assert(final(out)@ =~= old(out)@ + decimal_of(x as nat));
        }
    } else {
        push_decimal(out, x / 10);
        out.push(48 + ((x % 10) as u8));
        proof {
            assert(final(out)@ =~= old(out)@ + decimal_of(x as nat));
        }
    }
}

/// How a chunk grid index maps to a store key.
#[derive(Clone, Copy, Debug, PartialEq, Eq, Structural)]
pub enum ChunkKeyEncoding {
    /// `c/{i0}/{i1}/…` with a configurable separator; a rank-zero chunk maps
    /// to the key `c`.
    Default(u8),
    /// `{i0}.{i1}.…` with a configurable separator; a rank-zero chunk maps
    /// to the key `0`.
    V2(u8),
}

/// The key bytes of a chunk grid index under an encoding.
pub open spec fn chunk_key_bytes(encoding: ChunkKeyEncoding, indices: Seq<u64>) -> Seq<u8>
    decreases indices.len(),
{
    match encoding {
        ChunkKeyEncoding::Default(sep) => {
            if indices.len() == 0 {
                seq![99u8]
            } else {
                chunk_key_bytes(encoding, indices.drop_last()) + seq![sep] + decimal_of(
                    indices.last() as nat,
                )
            }
        },
        ChunkKeyEncoding::V2(sep) => {
            if indices.len() == 0 {
                seq![48u8]
            } else if indices.len() == 1 {
                decimal_of(indices[0] as nat)
            } else {
                chunk_key_bytes(encoding, indices.drop_last()) + seq![sep] + decimal_of(
                    indices.last() as nat,
                )
            }
        },
    }
}

impl ChunkKeyEncoding {
    /// The store key of a chunk grid index. Fails only if the built path is
    /// not a well-formed store key, which no decimal index produces with the
    /// standard separators.
    pub fn encode(&self, indices: &Vec<u64>) -> (r: Result<StoreKey, StoreKeyError>)
        ensures
            r is Ok <==> crate::storage::store_key_bytes_valid(chunk_key_bytes(*self, indices@)),
            r matches Ok(k) ==> k@ == chunk_key_bytes(*self, indices@) && k.wf(),
    {
        let mut bytes: Vec<u8> = Vec::new();
        match self {
            ChunkKeyEncoding::Default(sep) => {
                bytes.push(99u8);
                let mut d: usize = 0;
                while d < indices.len()
                    invariant
                        d <= indices@.len(),
                        bytes@ == chunk_key_bytes(ChunkKeyEncoding::Default(*sep), indices@.take(
                            d as int,
                        )),
                    decreases indices@.len() - d,
                {
                    proof {
                        assert(indices@.take(d + 1).drop_last() =~= indices@.take(d as int));
                        assert(indices@.take(d + 1).last() == indices@[d as int]);
                    }
                    bytes.push(*sep);
                    push_decimal(&mut bytes, indices[d]);
                    d += 1;
                }
                proof {
                    assert(indices@.take(indices@.len() as int) =~= indices@);
                }
            },
            ChunkKeyEncoding::V2(sep) => {
                if indices.len() == 0 {
                    bytes.push(48u8);
                } else {
                    push_decimal(&mut bytes, indices[0]);
                    proof {
                        assert(indices@.take(1).drop_last() =~= Seq::<u64>::empty());
                        assert(bytes@ == chunk_key_bytes(ChunkKeyEncoding::V2(*sep), indices@.take(
                            1,
                        )));
                    }
                    let mut d: usize = 1;
                    while d < indices.len()
                        invariant
                            1 <= d <= indices@.len(),
                            bytes@ == chunk_key_bytes(ChunkKeyEncoding::V2(*sep), indices@.take(
                                d as int,
                            )),
                        decreases indices@.len() - d,
                    {
                        proof {
                            assert(indices@.take(d + 1).drop_last() =~= indices@.take(d as int));
                            assert(indices@.take(d + 1).last() == indices@[d as int]);
                        }
                        bytes.push(*sep);
                        push_decimal(&mut bytes, indices[d]);
                        d += 1;
                    }
                    proof {
                        assert(indices@.take(indices@.len() as int) =~= indices@);
                    }
                }
            },
        }
        StoreKey::new(bytes)
    }
}

/// Whether a position of the outer array lies inside a region.
pub open spec fn pos_in_region(q: Seq<u64>, region: ArraySubset) -> bool {
    &&& q.len() == region.shape@.len()
    &&& forall|d: int|
        0 <= d < q.len() ==> region.start@[d] <= #[trigger] q[d] < region.start@[d]
            + region.shape@[d]
}

/// A position translated by an origin, dimension by dimension.
pub open spec fn pos_plus(origin: Seq<u64>, pos: Seq<u64>) -> Seq<u64> {
    Seq::new(origin.len(), |d: int| (origin[d] + pos[d]) as u64)
}

/// `count` elements of the fill pattern, repeated.
pub open spec fn repeat_fill(count: nat, fill: Seq<u8>) -> Seq<u8> {
    Seq::new(count * fill.len(), |i: int| fill[i % (fill.len() as int)])
}

/// A buffer of `count` fill-value elements.
pub fn fill_buffer(count: usize, fill: &Vec<u8>) -> (r: Vec<u8>)
    requires
        fill@.len() >= 1,
        count * fill@.len() <= usize::MAX,
    ensures
        r@ == repeat_fill(count as nat, fill@),
{
    let es = fill.len();
    let mut out: Vec<u8> = Vec::new();
    let mut e: usize = 0;
    while e < count
        invariant
            es == fill@.len(),
            es >= 1,
            count * es <= usize::MAX,
            e <= count,
            out@.len() == e * es,
            forall|i: int| 0 <= i < out@.len() ==> out@[i] == fill@[i % (es as int)],
        decreases count - e,
    {
        proof {
            assert((e + 1) * es == e * es + es) by (nonlinear_arith);
            assert((e + 1) * es <= count * es) by (nonlinear_arith)
                requires
                    e + 1 <= count,
                    es >= 0,
            ;
        }
        proof {
            assert((e * es) % (es as int) == 0) by (nonlinear_arith)
                requires
                    es >= 1,
            ;
        }
        let mut k: usize = 0;
        while k < es
            invariant
                es == fill@.len(),
                k <= es,
                out@.len() == e * es + k,
                e * es + es <= usize::MAX,
                forall|i: int| 0 <= i < out@.len() ==> out@[i] == fill@[i % (es as int)],
                (e * es) % (es as int) == 0,
            decreases es - k,
        {
            proof {
                assert((e * es + k) % (es as int) == k) by (nonlinear_arith)
                    requires
                        0 <= k < es,
                        (e * es) % (es as int) == 0,
                        es >= 1,
                ;
            }
            out.push(fill[k]);
            k += 1;
        }
        e += 1;
    }
    proof {
        assert(out@ =~= repeat_fill(count as nat, fill@));
    }
    out
}

/// Whether every element of the buffer equals the fill pattern.
pub open spec fn all_fill(b: Seq<u8>, fill: Seq<u8>) -> bool {
    forall|i: int| 0 <= i < b.len() ==> b[i] == fill[i % (fill.len() as int)]
}

/// Test whether every element of the buffer equals the fill pattern.
pub fn is_all_fill(b: &Vec<u8>, fill: &Vec<u8>) -> (r: bool)
    requires
        fill@.len() >= 1,
    ensures
        r == all_fill(b@, fill@),
{
    let es = fill.len();
    let mut i: usize = 0;
    while i < b.len()
        invariant
            es == fill@.len(),
            es >= 1,
            i <= b@.len(),
            forall|j: int| 0 <= j < i ==> b@[j] == fill@[j % (es as int)],
        decreases b@.len() - i,
    {
        if b[i] != fill[i % es] {
            return false;
        }
        i += 1;
    }
    true
}

/// The product of two shapes' element counts where one bounds the other
/// dimension-wise.
pub proof fn lemma_num_elements_le(a: Seq<u64>, b: Seq<u64>)
    requires
        a.len() == b.len(),
        forall|d: int| 0 <= d < a.len() ==> a[d] <= b[d],
    ensures
        num_elements_of(a) <= num_elements_of(b),
    decreases a.len(),
{
    if a.len() > 0 {
        assert(forall|d: int|
            0 <= d < a.len() - 1 ==> #[trigger] a.drop_last()[d] == a[d] && b.drop_last()[d]
                == b[d]);
        lemma_num_elements_le(a.drop_last(), b.drop_last());
        let x = num_elements_of(a.drop_last()) as int;
        let y = num_elements_of(b.drop_last()) as int;
        assert(x * a.last() <= y * b.last()) by (nonlinear_arith)
            requires
                0 <= x <= y,
                0 <= a.last() <= b.last(),
        ;
    }
}

/// Copy the elements of a rectangular region of a row-major source buffer,
/// in row-major order over the region.
pub fn extract_region(src: &Vec<u8>, src_shape: &Vec<u64>, region: &ArraySubset, es: usize) -> (r:
    Vec<u8>)
    requires
        es >= 1,
        region.within(src_shape@),
        src@.len() == num_elements_of(src_shape@) * es,
        num_elements_of(src_shape@) * es <= usize::MAX,
    ensures
        r@.len() == region.spec_num_elements() * es,
        forall|fillpat: Seq<u8>|
            fillpat.len() == es && #[trigger] all_fill(src@, fillpat) ==> all_fill(r@, fillpat),
        forall|pos: Seq<u64>, k: int|
            pos_within(pos, region.shape@) && 0 <= k < es ==> #[trigger] r@[linear_index_of(
                pos,
                region.shape@,
            ) * es + k] == src@[linear_index_of(pos_plus(region.start@, pos), src_shape@) * es + k],
{
    proof {
        lemma_num_elements_le(region.shape@, src_shape@);
        assert(num_elements_of(region.shape@) * es <= num_elements_of(src_shape@) * es)
            by (nonlinear_arith)
            requires
                num_elements_of(region.shape@) <= num_elements_of(src_shape@),
                es >= 0,
        ;
        assert(num_elements_of(src_shape@) <= num_elements_of(src_shape@) * es)
            by (nonlinear_arith)
            requires
                es >= 1,
                num_elements_of(src_shape@) >= 0,
        ;
        assert(num_elements_of(region.shape@) <= num_elements_of(region.shape@) * es)
            by (nonlinear_arith)
            requires
                es >= 1,
                num_elements_of(region.shape@) >= 0,
        ;
    }
    let count_opt = checked_num_elements(&region.shape);
    let count = match count_opt {
        Some(c) => c as usize,
        None => {
            proof {
                assert(false);
            }
            0
        },
    };
    proof {
        assert forall|pos: Seq<u64>|
            pos_within(pos, region.shape@) implies 0 <= linear_index_of(pos, region.shape@)
            < count by {
            crate::array_subset::lemma_linear_index_bound(pos, region.shape@);
        }
    }
    let mut out: Vec<u8> = Vec::new();
    let mut e: usize = 0;
    while e < count
        invariant
            es >= 1,
            region.within(src_shape@),
            src@.len() == num_elements_of(src_shape@) * es,
            num_elements_of(src_shape@) * es <= usize::MAX,
            count == num_elements_of(region.shape@),
            count * es <= usize::MAX,
            e <= count,
            out@.len() == e * es,
            forall|fillpat: Seq<u8>|
                fillpat.len() == es && #[trigger] all_fill(src@, fillpat) ==> all_fill(
                    out@,
                    fillpat,
                ),
            forall|pos: Seq<u64>, k: int|
                pos_within(pos, region.shape@) && linear_index_of(pos, region.shape@) < e && 0 <= k
                    < es ==> #[trigger] out@[linear_index_of(pos, region.shape@) * es + k]
                    == src@[linear_index_of(pos_plus(region.start@, pos), src_shape@) * es + k],
        decreases count - e,
    {
        let pos = unravel_index(e as u64, &region.shape);
        let mut abs: Vec<u64> = Vec::new();
        let mut d: usize = 0;
        while d < pos.len()
            invariant
                pos@.len() == region.shape@.len(),
                region.within(src_shape@),
                pos_within(pos@, region.shape@),
                d <= pos@.len(),
                abs@.len() == d,
                forall|k: int| 0 <= k < d ==> abs@[k] == region.start@[k] + pos@[k],
            decreases pos@.len() - d,
        {
            abs.push(region.start[d] + pos[d]);
            d += 1;
        }
        proof {
            assert(pos_within(abs@, src_shape@));
            lemma_num_elements_positive(src_shape@);
            assert(num_elements_of(src_shape@) <= num_elements_of(src_shape@) * es)
                by (nonlinear_arith)
                requires
                    es >= 1,
                    num_elements_of(src_shape@) >= 0,
            ;
        }
        let li = linear_index(&abs, src_shape) as usize;
        proof {
            assert((li + 1) * es <= num_elements_of(src_shape@) * es) by (nonlinear_arith)
                requires
                    li + 1 <= num_elements_of(src_shape@),
                    es >= 0,
            ;
            assert(li * es + es == (li + 1) * es) by (nonlinear_arith);
            assert((e + 1) * es == e * es + es) by (nonlinear_arith);
            assert((e + 1) * es <= count * es) by (nonlinear_arith)
                requires
                    e + 1 <= count,
                    es >= 0,
            ;
        }
        let ghost out_before = out@;
        let mut k: usize = 0;
        while k < es
            invariant
                k <= es,
                out@ == out_before + src@.subrange(li * es, li * es + k),
                out_before.len() == e * es,
                li * es + es <= src@.len(),
                src@.len() <= usize::MAX,
                e * es + es <= usize::MAX,
            decreases es - k,
        {
            proof {
                assert(out_before + src@.subrange(li * es, li * es + k + 1) =~= (out_before
                    + src@.subrange(li * es, li * es + k)).push(src@[li * es + k]));
            }
            out.push(src[li * es + k]);
            k += 1;
        }
        proof {
            assert forall|ppos: Seq<u64>, k2: int|
                pos_within(ppos, region.shape@) && linear_index_of(ppos, region.shape@) < e + 1 && 0
                    <= k2 < es implies #[trigger] out@[linear_index_of(ppos, region.shape@) * es
                + k2] == src@[linear_index_of(pos_plus(region.start@, ppos), src_shape@) * es
                + k2] by {
                let lp = linear_index_of(ppos, region.shape@);
                crate::array_subset::lemma_linear_index_bound(ppos, region.shape@);
                assert(lp * es + es == (lp + 1) * es) by (nonlinear_arith);
                if lp < e {
                    assert(out@[lp * es + k2] == out_before[lp * es + k2]) by {
                        assert((lp + 1) * es <= e * es) by (nonlinear_arith)
                            requires
                                lp + 1 <= e,
                                es >= 0,
                        ;
                        assert(lp * es + k2 < e * es) by (nonlinear_arith)
                            requires
                                0 <= k2 < es,
                                lp * es + es == (lp + 1) * es,
                                (lp + 1) * es <= e * es,
                        ;
                        assert(lp * es + k2 >= 0) by (nonlinear_arith)
                            requires
                                lp >= 0,
                                es >= 0,
                                k2 >= 0,
                        ;
                    }
                } else {
                    lemma_linear_index_injective(ppos, pos@, region.shape@);
                    assert(abs@ =~= pos_plus(region.start@, ppos));
                    assert(out@[e * es + k2] == src@[li * es + k2]);
                }
            }
            assert forall|fillpat: Seq<u8>|
                fillpat.len() == es && #[trigger] all_fill(src@, fillpat) implies all_fill(
                out@,
                fillpat,
            ) by {
                assert forall|i: int| 0 <= i < out@.len() implies out@[i] == fillpat[i % (
                es as int)] by {
                    if i < e * es {
                        assert(out@[i] == out_before[i]);
                        assert(all_fill(out_before, fillpat));
                    } else {
                        let k2 = i - e * es;
                        assert(out@[i] == src@[li * es + k2]);
                        assert(src@[li * es + k2] == fillpat[(li * es + k2) % (es as int)]);
                        assert((li * es + k2) % (es as int) == k2) by (nonlinear_arith)
                            requires
                                0 <= k2 < es,
                                es >= 1,
                        ;
                        assert((e * es + k2) % (es as int) == k2) by (nonlinear_arith)
                            requires
                                0 <= k2 < es,
                                es >= 1,
                        ;
                    }
                }
            }
        }
        e += 1;
    }
    out
}

/// Overwrite the elements of a rectangular region of a row-major destination
/// buffer with the given elements, in row-major order over the region.
pub fn inject_region(
    dst: &mut Vec<u8>,
    dst_shape: &Vec<u64>,
    region: &ArraySubset,
    src: &Vec<u8>,
    es: usize,
)
    requires
        es >= 1,
        region.within(dst_shape@),
        old(dst)@.len() == num_elements_of(dst_shape@) * es,
        num_elements_of(dst_shape@) * es <= usize::MAX,
        src@.len() == region.spec_num_elements() * es,
    ensures
        final(dst)@.len() == old(dst)@.len(),
        forall|fillpat: Seq<u8>|
            fillpat.len() == es && #[trigger] all_fill(src@, fillpat) && all_fill(
                old(dst)@,
                fillpat,
            ) ==> all_fill(final(dst)@, fillpat),
        // the scatter law: region elements take the source's bytes ...
        forall|pos: Seq<u64>, k: int|
            pos_within(pos, region.shape@) && 0 <= k < es ==> #[trigger] final(dst)@[
                linear_index_of(pos_plus(region.start@, pos), dst_shape@) * es + k] == src@[
                linear_index_of(pos, region.shape@) * es + k],
        // ... and elements outside the region keep the old bytes
        forall|q: Seq<u64>, k: int|
            pos_within(q, dst_shape@) && !pos_in_region(q, *region) && 0 <= k < es
                ==> #[trigger] final(dst)@[linear_index_of(q, dst_shape@) * es + k] == old(dst)@[
                linear_index_of(q, dst_shape@) * es + k],
{
    proof {
        lemma_num_elements_le(region.shape@, dst_shape@);
        assert(num_elements_of(region.shape@) * es <= num_elements_of(dst_shape@) * es)
            by (nonlinear_arith)
            requires
                num_elements_of(region.shape@) <= num_elements_of(dst_shape@),
                es >= 0,
        ;
        assert(num_elements_of(dst_shape@) <= num_elements_of(dst_shape@) * es)
            by (nonlinear_arith)
            requires
                es >= 1,
                num_elements_of(dst_shape@) >= 0,
        ;
        assert(num_elements_of(region.shape@) <= num_elements_of(region.shape@) * es)
            by (nonlinear_arith)
            requires
                es >= 1,
                num_elements_of(region.shape@) >= 0,
        ;
    }
    let count_opt = checked_num_elements(&region.shape);
    let count = match count_opt {
        Some(c) => c as usize,
        None => {
            proof {
                assert(false);
            }
            0
        },
    };
    proof {
        assert forall|pos: Seq<u64>|
            pos_within(pos, region.shape@) implies 0 <= linear_index_of(pos, region.shape@)
            < count by {
            crate::array_subset::lemma_linear_index_bound(pos, region.shape@);
        }
    }
    let mut e: usize = 0;
    while e < count
        invariant
            es >= 1,
            region.within(dst_shape@),
            dst@.len() == num_elements_of(dst_shape@) * es,
            num_elements_of(dst_shape@) * es <= usize::MAX,
            count == num_elements_of(region.shape@),
            src@.len() == count * es,
            src@.len() <= usize::MAX,
            e <= count,
            dst@.len() == old(dst)@.len(),
            forall|fillpat: Seq<u8>|
                fillpat.len() == es && #[trigger] all_fill(src@, fillpat) && all_fill(
                    old(dst)@,
                    fillpat,
                ) ==> all_fill(dst@, fillpat),
            forall|pos: Seq<u64>, k: int|
                pos_within(pos, region.shape@) && linear_index_of(pos, region.shape@) < e && 0 <= k
                    < es ==> #[trigger] dst@[linear_index_of(pos_plus(region.start@, pos),
                dst_shape@) * es + k] == src@[linear_index_of(pos, region.shape@) * es + k],
            forall|q: Seq<u64>, k: int|
                pos_within(q, dst_shape@) && !pos_in_region(q, *region) && 0 <= k < es
                    ==> #[trigger] dst@[linear_index_of(q, dst_shape@) * es + k] == old(dst)@[
                    linear_index_of(q, dst_shape@) * es + k],
        decreases count - e,
    {
        let pos = unravel_index(e as u64, &region.shape);
        let mut abs: Vec<u64> = Vec::new();
        let mut d: usize = 0;
        while d < pos.len()
            invariant
                pos@.len() == region.shape@.len(),
                region.within(dst_shape@),
                pos_within(pos@, region.shape@),
                d <= pos@.len(),
                abs@.len() == d,
                forall|k: int| 0 <= k < d ==> abs@[k] == region.start@[k] + pos@[k],
            decreases pos@.len() - d,
        {
            abs.push(region.start[d] + pos[d]);
            d += 1;
        }
        proof {
            assert(pos_within(abs@, dst_shape@));
            lemma_num_elements_positive(dst_shape@);
            assert(num_elements_of(dst_shape@) <= num_elements_of(dst_shape@) * es)
                by (nonlinear_arith)
                requires
                    es >= 1,
                    num_elements_of(dst_shape@) >= 0,
            ;
        }
        let li = linear_index(&abs, dst_shape) as usize;
        proof {
            assert((li + 1) * es <= num_elements_of(dst_shape@) * es) by (nonlinear_arith)
                requires
                    li + 1 <= num_elements_of(dst_shape@),
                    es >= 0,
            ;
            assert(li * es + es == (li + 1) * es) by (nonlinear_arith);
            assert((e + 1) * es <= count * es) by (nonlinear_arith)
                requires
                    e + 1 <= count,
                    es >= 0,
            ;
            assert(e * es + es == (e + 1) * es) by (nonlinear_arith);
            assert(e * es >= 0) by (nonlinear_arith)
                requires
                    e >= 0,
                    es >= 0,
            ;
        }
        let ghost dst_at_entry = dst@;
        let mut k: usize = 0;
        while k < es
            invariant
                k <= es,
                dst@.len() == num_elements_of(dst_shape@) * es,
                dst@.len() == old(dst)@.len(),
                dst_at_entry.len() == dst@.len(),
                num_elements_of(dst_shape@) * es <= usize::MAX,
                region.within(dst_shape@),
                li * es + es <= dst@.len(),
                0 <= e * es,
                e * es + es <= src@.len(),
                src@.len() <= usize::MAX,
                forall|j: int|
                    0 <= j < dst@.len() && !(li * es <= j < li * es + k) ==> #[trigger] dst@[j]
                        == dst_at_entry[j],
                forall|j: int|
                    li * es <= j < li * es + k ==> #[trigger] dst@[j] == src@[e * es + (j - li
                        * es)],
                forall|fillpat: Seq<u8>|
                    fillpat.len() == es && #[trigger] all_fill(src@, fillpat) && all_fill(
                        old(dst)@,
                        fillpat,
                    ) ==> all_fill(dst@, fillpat),
            decreases es - k,
        {
            let ghost dst_prev = dst@;
            let byte = src[e * es + k];
            dst.set(li * es + k, byte);
            proof {
                assert forall|fillpat: Seq<u8>|
                    fillpat.len() == es && #[trigger] all_fill(src@, fillpat) && all_fill(
                        old(dst)@,
                        fillpat,
                    ) implies all_fill(dst@, fillpat) by {
                    assert(all_fill(dst_prev, fillpat));
                    assert forall|i: int| 0 <= i < dst@.len() implies dst@[i] == fillpat[i % (
                    es as int)] by {
                        if i == li * es + k {
                            assert(dst@[i] == src@[e * es + k]);
                            assert(src@[e * es + k] == fillpat[(e * es + k) % (es as int)]);
                            assert((e * es + k) % (es as int) == k) by (nonlinear_arith)
                                requires
                                    0 <= k < es,
                                    es >= 1,
                            ;
                            assert((li * es + k) % (es as int) == k) by (nonlinear_arith)
                                requires
                                    0 <= k < es,
                                    es >= 1,
                            ;
                        } else {
                            assert(dst@[i] == dst_prev[i]);
                        }
                    }
                }
            }
            k += 1;
        }
        proof {
            assert(abs@ =~= pos_plus(region.start@, pos@));
            assert(pos_in_region(abs@, *region));
            assert(pos_within(abs@, dst_shape@));
            crate::array_subset::lemma_linear_index_bound(abs@, dst_shape@);
            assert forall|ppos: Seq<u64>, k2: int|
                pos_within(ppos, region.shape@) && linear_index_of(ppos, region.shape@) < e + 1 && 0
                    <= k2 < es implies #[trigger] dst@[linear_index_of(
                pos_plus(region.start@, ppos),
                dst_shape@,
            ) * es + k2] == src@[linear_index_of(ppos, region.shape@) * es + k2] by {
                let lp = linear_index_of(ppos, region.shape@);
                crate::array_subset::lemma_linear_index_bound(ppos, region.shape@);
                let target = pos_plus(region.start@, ppos);
                assert(pos_within(target, dst_shape@));
                crate::array_subset::lemma_linear_index_bound(target, dst_shape@);
                let lt = linear_index_of(target, dst_shape@);
                if lp == e {
                    lemma_linear_index_injective(ppos, pos@, region.shape@);
                    assert(target =~= abs@);
                    assert(dst@[li * es + k2] == src@[e * es + k2]);
                    assert(src@[lp * es + k2] == src@[e * es + k2]);
                } else {
                    if lt == li {
                        lemma_linear_index_injective(target, abs@, dst_shape@);
                        assert forall|d: int| 0 <= d < ppos.len() implies ppos[d] == pos@[d] by {
                            assert(target[d] == abs@[d]);
                        }
                        assert(ppos =~= pos@);
                        assert(lp == e);
                        assert(false);
                    }
                    assert(lt * es + k2 < li * es || lt * es + k2 >= li * es + es)
                        by (nonlinear_arith)
                        requires
                            lt != li,
                            lt >= 0,
                            li >= 0,
                            0 <= k2 < es,
                    ;
                    assert(0 <= lt * es + k2 < dst@.len()) by (nonlinear_arith)
                        requires
                            0 <= lt,
                            lt + 1 <= num_elements_of(dst_shape@),
                            0 <= k2 < es,
                            dst@.len() == num_elements_of(dst_shape@) * es,
                    ;
                    assert(dst@[lt * es + k2] == dst_at_entry[lt * es + k2]);
                }
            }
            assert forall|q: Seq<u64>, k2: int|
                pos_within(q, dst_shape@) && !pos_in_region(q, *region) && 0 <= k2 < es implies
                #[trigger] dst@[linear_index_of(q, dst_shape@) * es + k2] == old(dst)@[
                linear_index_of(q, dst_shape@) * es + k2] by {
                crate::array_subset::lemma_linear_index_bound(q, dst_shape@);
                let lq = linear_index_of(q, dst_shape@);
                if lq == li {
                    lemma_linear_index_injective(q, abs@, dst_shape@);
                    assert(false);
                }
                assert(lq * es + k2 < li * es || lq * es + k2 >= li * es + es) by (nonlinear_arith)
                    requires
                        lq != li,
                        lq >= 0,
                        li >= 0,
                        0 <= k2 < es,
                ;
                assert(0 <= lq * es + k2 < dst@.len()) by (nonlinear_arith)
                    requires
                        0 <= lq,
                        lq + 1 <= num_elements_of(dst_shape@),
                        0 <= k2 < es,
                        dst@.len() == num_elements_of(dst_shape@) * es,
                ;
                assert(dst@[lq * es + k2] == dst_at_entry[lq * es + k2]);
            }
        }
        e += 1;
    }
}

/// An error from an array operation.
#[derive(Clone, Debug)]
pub enum ArrayError {
    /// A codec failed.
    Codec(CodecError),
    /// The store failed.
    Storage(StorageError),
    /// A chunk key could not be built.
    Key(StoreKeyError),
    /// A buffer had the wrong length: `(got, expected)`.
    InvalidBytesLength(usize, usize),
    /// A subset fell outside the shape it addresses.
    SubsetOutOfBounds,
    /// A chunk grid index fell outside the chunk grid.
    InvalidChunkGridIndices,
    /// A stored shard's index or layout is not well-formed.
    CorruptShard,
    /// A size computation exceeded the machine's limits.
    Overflow,
}

/// Per-operation options, defaulted from a configuration snapshot.
#[derive(Clone, Copy, Debug)]
pub struct CodecOptions {
    /// Whether checksum codecs validate on decode.
    pub validate_checksums: bool,
    /// Whether fill-equal chunks are stored rather than erased.
    pub store_empty_chunks: bool,
    /// The codec parallelism budget; zero means unconstrained.
    pub concurrent_target: usize,
    /// The preferred minimum number of chunks in flight.
    pub chunk_concurrent_minimum: usize,
    /// Whether the sharding partial-encode path is used for subset writes.
    pub experimental_partial_encoding: bool,
}

impl CodecOptions {
    /// Options defaulted from a configuration snapshot; partial encoding
    /// starts disabled, as in the configuration.
    pub fn new(config: &Config) -> (r: CodecOptions)
        ensures
            r.validate_checksums == config.validate_checksums,
            r.store_empty_chunks == config.store_empty_chunks,
            r.concurrent_target == config.codec_concurrent_target,
            r.chunk_concurrent_minimum == config.chunk_concurrent_minimum,
            r.experimental_partial_encoding == false,
    {
        CodecOptions {
            validate_checksums: config.validate_checksums(),
            store_empty_chunks: config.store_empty_chunks(),
            concurrent_target: config.codec_concurrent_target(),
            chunk_concurrent_minimum: config.chunk_concurrent_minimum(),
            experimental_partial_encoding: false,
        }
    }

    /// The options with partial encoding set as given.
    pub fn with_experimental_partial_encoding(self, enabled: bool) -> (r: CodecOptions)
        ensures
            r == (CodecOptions { experimental_partial_encoding: enabled, ..self }),
    {
        CodecOptions { experimental_partial_encoding: enabled, ..self }
    }

    /// The options with the empty-chunk policy set as given.
    pub fn with_store_empty_chunks(self, enabled: bool) -> (r: CodecOptions)
        ensures
            r == (CodecOptions { store_empty_chunks: enabled, ..self }),
    {
        CodecOptions { store_empty_chunks: enabled, ..self }
    }
}

/// The sharding codec's configuration: the inner chunk shape (dividing the
/// outer chunk shape exactly) and where the index lives.
#[derive(Clone, Debug)]
pub struct ShardingCodecConfiguration {
    /// The shape of one inner chunk.
    pub inner_chunk_shape: Vec<u64>,
    /// Whether the index is a prefix or a suffix of the shard.
    pub index_location: ShardingIndexLocation,
}

/// The array-to-bytes codec of an array's pipeline (exactly one exists per
/// pipeline).
#[derive(Clone, Debug)]
pub enum ArrayToBytesCodec {
    /// Fixed-size elements serialised as their canonical little-endian
    /// bytes: the identity on the already-canonical element buffer.
    Bytes,
    /// A shard: an inner chunk grid with an offset/size index, all within
    /// one store key.
    Sharding(ShardingCodecConfiguration),
}

/// A chunked n-dimensional array bound to a chunk key encoding and a codec.
#[derive(Clone, Debug)]
pub struct Array {
    shape: Vec<u64>,
    chunk_shape: Vec<u64>,
    data_type: DataType,
    fill_value: Vec<u8>,
    codec: ArrayToBytesCodec,
    chunk_key_encoding: ChunkKeyEncoding,
}

/// The inner chunk grid of a shard: outer chunk extents divided by inner
/// chunk extents.
pub open spec fn grid_shape_of(chunk_shape: Seq<u64>, inner: Seq<u64>) -> Seq<u64> {
    Seq::new(chunk_shape.len(), |d: int| (chunk_shape[d] / inner[d]) as u64)
}

/// Whether an array descriptor is well-formed and within the machine's
/// limits: shapes agree in rank, chunks are non-empty, the fill value is one
/// element, chunk buffers fit in memory, and under sharding the inner chunk
/// shape divides the chunk shape with the index and inner buffers in bounds.
pub open spec fn descriptor_wf(
    shape: Seq<u64>,
    chunk_shape: Seq<u64>,
    data_type: DataType,
    fill_value: Seq<u8>,
    codec: ArrayToBytesCodec,
) -> bool {
    let es = data_type.spec_size() as int;
    &&& shape.len() == chunk_shape.len()
    &&& forall|d: int| 0 <= d < chunk_shape.len() ==> chunk_shape[d] >= 1
    &&& fill_value.len() == data_type.spec_size()
    &&& fill_value.len() >= 1
    &&& num_elements_of(chunk_shape) * es <= usize::MAX
    &&& match codec {
        ArrayToBytesCodec::Bytes => true,
        ArrayToBytesCodec::Sharding(c) => {
            let inner = c.inner_chunk_shape@;
            &&& inner.len() == chunk_shape.len()
            &&& forall|d: int| 0 <= d < inner.len() ==> inner[d] >= 1
            &&& forall|d: int|
                0 <= d < inner.len() ==> #[trigger] (chunk_shape[d] as int) % (inner[d] as int)
                    == 0
            &&& 16 * num_elements_of(grid_shape_of(chunk_shape, inner)) <= usize::MAX
            &&& num_elements_of(inner) * es <= usize::MAX
        },
    }
}

impl Array {
    /// The array's shape.
    pub closed spec fn spec_shape(self) -> Seq<u64> {
        self.shape@
    }

    /// The shape of one chunk.
    pub closed spec fn spec_chunk_shape(self) -> Seq<u64> {
        self.chunk_shape@
    }

    /// The element data type.
    pub closed spec fn spec_data_type(self) -> DataType {
        self.data_type
    }

    /// The fill value: one element's byte pattern.
    pub closed spec fn spec_fill_value(self) -> Seq<u8> {
        self.fill_value@
    }

    /// The chunk key encoding.
    pub closed spec fn spec_chunk_key_encoding(self) -> ChunkKeyEncoding {
        self.chunk_key_encoding
    }

    /// Well-formed: shapes agree in rank, chunks are non-empty, the fill
    /// value is one element, chunk buffers fit in memory, and under sharding
    /// the inner chunk shape divides the chunk shape.
    pub closed spec fn wf(self) -> bool {
        descriptor_wf(self.shape@, self.chunk_shape@, self.data_type, self.fill_value@, self.codec)
    }

    /// Create an array, validating the descriptor.
    pub fn new(
        shape: Vec<u64>,
        chunk_shape: Vec<u64>,
        data_type: DataType,
        fill_value: Vec<u8>,
        codec: ArrayToBytesCodec,
        chunk_key_encoding: ChunkKeyEncoding,
    ) -> (r: Result<Array, ArrayError>)
        ensures
            r is Ok <==> descriptor_wf(shape@, chunk_shape@, data_type, fill_value@, codec),
            r matches Ok(a) ==> {
                &&& a.wf()
                &&& a.spec_shape() == shape@
                &&& a.spec_chunk_shape() == chunk_shape@
                &&& a.spec_data_type() == data_type
                &&& a.spec_fill_value() == fill_value@
                &&& a.spec_chunk_key_encoding() == chunk_key_encoding
            },
    {
        if shape.len() != chunk_shape.len() {
            return Err(ArrayError::InvalidChunkGridIndices);
        }
        let es = data_type.size();
        if fill_value.len() != es || es == 0 {
            return Err(ArrayError::InvalidBytesLength(fill_value.len(), es));
        }
        let mut d: usize = 0;
        while d < chunk_shape.len()
            invariant
                d <= chunk_shape@.len(),
                forall|k: int| 0 <= k < d ==> chunk_shape@[k] >= 1,
            decreases chunk_shape@.len() - d,
        {
            if chunk_shape[d] == 0 {
                return Err(ArrayError::InvalidChunkGridIndices);
            }
            d += 1;
        }
        let chunk_ne = match checked_num_elements(&chunk_shape) {
            Some(n) => n,
            None => {
                proof {
                    let cne = num_elements_of(chunk_shape@) as int;
                    assert(cne <= cne * es) by (nonlinear_arith)
                        requires
                            es >= 1,
                            cne >= 0,
                    ;
                }
                return Err(ArrayError::Overflow);
            },
        };
        if chunk_ne > (usize::MAX as u64) || (chunk_ne as usize) > usize::MAX / es {
            proof {
                let cne = num_elements_of(chunk_shape@) as int;
                vstd::arithmetic::div_mod::lemma_fundamental_div_mod(usize::MAX as int, es as int);
                if cne > (usize::MAX as int) / (es as int) {
                    assert(cne * es > usize::MAX) by (nonlinear_arith)
                        requires
                            es >= 1,
                            cne > (usize::MAX as int) / (es as int),
                            usize::MAX as int == (es as int) * ((usize::MAX as int) / (es as int))
                                + (usize::MAX as int) % (es as int),
                            0 <= (usize::MAX as int) % (es as int) < es,
                    ;
                } else {
                    assert(cne <= cne * es) by (nonlinear_arith)
                        requires
                            es >= 1,
                            cne >= 0,
                    ;
                }
            }
            return Err(ArrayError::Overflow);
        }
        proof {
            let cne = num_elements_of(chunk_shape@) as int;
            assert(cne * es <= ((usize::MAX as int) / (es as int)) * es) by (nonlinear_arith)
                requires
                    es >= 1,
                    0 <= cne <= (usize::MAX as int) / (es as int),
            ;
            assert(((usize::MAX as int) / (es as int)) * es <= usize::MAX) by (nonlinear_arith)
                requires
                    es >= 1,
            ;
        }
        match &codec {
            ArrayToBytesCodec::Bytes => {},
            ArrayToBytesCodec::Sharding(c) => {
                if c.inner_chunk_shape.len() != chunk_shape.len() {
                    return Err(ArrayError::InvalidChunkGridIndices);
                }
                let mut grid: Vec<u64> = Vec::new();
                let mut d2: usize = 0;
                while d2 < chunk_shape.len()
                    invariant
                        codec is Sharding,
                        codec->Sharding_0.inner_chunk_shape@ == c.inner_chunk_shape@,
                        chunk_shape@.len() == c.inner_chunk_shape@.len(),
                        d2 <= chunk_shape@.len(),
                        grid@.len() == d2,
                        forall|k: int| 0 <= k < d2 ==> c.inner_chunk_shape@[k] >= 1,
                        forall|k: int|
                            0 <= k < d2 ==> #[trigger] (chunk_shape@[k] as int) % (
                            c.inner_chunk_shape@[k] as int) == 0,
                        forall|k: int|
                            0 <= k < d2 ==> grid@[k] == chunk_shape@[k] / c.inner_chunk_shape@[k],
                    decreases chunk_shape@.len() - d2,
                {
                    let inner_d = c.inner_chunk_shape[d2];
                    if inner_d == 0 || chunk_shape[d2] % inner_d != 0 {
                        proof {
                            assert(codec is Sharding);
                            assert(codec->Sharding_0.inner_chunk_shape@ == c.inner_chunk_shape@);
                            if inner_d == 0 {
                                assert(!(c.inner_chunk_shape@[d2 as int] >= 1));
                            } else {
                                assert((chunk_shape@[d2 as int] as int) % (
                                c.inner_chunk_shape@[d2 as int] as int) != 0);
                            }
                            assert(!descriptor_wf(
                                shape@,
                                chunk_shape@,
                                data_type,
                                fill_value@,
                                codec,
                            ));
                        }
                        return Err(ArrayError::InvalidChunkGridIndices);
                    }
                    grid.push(chunk_shape[d2] / inner_d);
                    d2 += 1;
                }
                proof {
                    assert(grid@ =~= grid_shape_of(chunk_shape@, c.inner_chunk_shape@));
                }
                let grid_ne = match checked_num_elements(&grid) {
                    Some(n) => n,
                    None => {
                        proof {
                            let gne = num_elements_of(grid@) as int;
                            assert(gne <= 16 * gne) by (nonlinear_arith)
                                requires
                                    gne >= 0,
                            ;
                        }
                        return Err(ArrayError::Overflow);
                    },
                };
                if grid_ne > ((usize::MAX / 16) as u64) {
                    proof {
                        let gne = num_elements_of(grid@) as int;
                        vstd::arithmetic::div_mod::lemma_fundamental_div_mod(
                            usize::MAX as int,
                            16,
                        );
                        assert(16 * gne > usize::MAX) by (nonlinear_arith)
                            requires
                                gne > (usize::MAX as int) / 16,
                                usize::MAX as int == 16 * ((usize::MAX as int) / 16) + (
                                usize::MAX as int) % 16,
                                0 <= (usize::MAX as int) % 16 < 16,
                        ;
                    }
                    return Err(ArrayError::Overflow);
                }
                let inner_ne = match checked_num_elements(&c.inner_chunk_shape) {
                    Some(n) => n,
                    None => {
                        proof {
                            let ine = num_elements_of(c.inner_chunk_shape@) as int;
                            assert(ine <= ine * es) by (nonlinear_arith)
                                requires
                                    es >= 1,
                                    ine >= 0,
                            ;
                        }
                        return Err(ArrayError::Overflow);
                    },
                };
                if inner_ne > (usize::MAX as u64) || (inner_ne as usize) > usize::MAX / es {
                    proof {
                        let ine = num_elements_of(c.inner_chunk_shape@) as int;
                        vstd::arithmetic::div_mod::lemma_fundamental_div_mod(
                            usize::MAX as int,
                            es as int,
                        );
                        if ine > (usize::MAX as int) / (es as int) {
                            assert(ine * es > usize::MAX) by (nonlinear_arith)
                                requires
                                    es >= 1,
                                    ine > (usize::MAX as int) / (es as int),
                                    usize::MAX as int == (es as int) * ((usize::MAX as int) / (
                                    es as int)) + (usize::MAX as int) % (es as int),
                                    0 <= (usize::MAX as int) % (es as int) < es,
                            ;
                        } else {
                            assert(ine <= ine * es) by (nonlinear_arith)
                                requires
                                    es >= 1,
                                    ine >= 0,
                            ;
                        }
                    }
                    return Err(ArrayError::Overflow);
                }
                proof {
                    assert(grid@ =~= grid_shape_of(chunk_shape@, c.inner_chunk_shape@));
                    let gne = num_elements_of(grid@) as int;
                    assert(16 * gne <= 16 * ((usize::MAX as int) / 16)) by (nonlinear_arith)
                        requires
                            0 <= gne <= (usize::MAX as int) / 16,
                    ;
                    let ine = num_elements_of(c.inner_chunk_shape@) as int;
                    assert(ine * es <= ((usize::MAX as int) / (es as int)) * es) by (nonlinear_arith)
                        requires
                            es >= 1,
                            0 <= ine <= (usize::MAX as int) / (es as int),
                    ;
                    assert(((usize::MAX as int) / (es as int)) * es <= usize::MAX) by (nonlinear_arith)
                        requires
                            es >= 1,
                    ;
                }
            },
        }
        Ok(Array { shape, chunk_shape, data_type, fill_value, codec, chunk_key_encoding })
    }

    /// The array's shape.
    pub fn shape(&self) -> (r: &Vec<u64>)
        ensures
            r@ == self.spec_shape(),
    {
        &self.shape
    }

    /// The element data type.
    pub fn data_type(&self) -> (r: DataType)
        ensures
            r == self.spec_data_type(),
    {
        self.data_type
    }

    /// The store key of a chunk.
    pub fn chunk_key(&self, chunk_indices: &Vec<u64>) -> (r: Result<StoreKey, ArrayError>)
        ensures
            r is Ok <==> crate::storage::store_key_bytes_valid(
                chunk_key_bytes(self.spec_chunk_key_encoding(), chunk_indices@),
            ),
            r matches Ok(k) ==> k@ == chunk_key_bytes(self.spec_chunk_key_encoding(),
            chunk_indices@) && k.wf(),
    {
        match self.chunk_key_encoding.encode(chunk_indices) {
            Ok(k) => Ok(k),
            Err(e) => Err(ArrayError::Key(e)),
        }
    }

    /// The number of elements of one chunk.
    fn chunk_num_elements(&self) -> (r: usize)
        requires
            self.wf(),
        ensures
            r == num_elements_of(self.spec_chunk_shape()),
            r * self.spec_data_type().spec_size() <= usize::MAX,
    {
        proof {
            let cne = num_elements_of(self.chunk_shape@) as int;
            let es = self.data_type.spec_size() as int;
            assert(cne <= cne * es) by (nonlinear_arith)
                requires
                    es >= 1,
                    cne >= 0,
            ;
        }
        match checked_num_elements(&self.chunk_shape) {
            Some(n) => n as usize,
            None => {
                proof {
                    assert(false);
                }
                0
            },
        }
    }

    /// The array-to-bytes codec.
    pub closed spec fn spec_codec(self) -> ArrayToBytesCodec {
        self.codec
    }

    /// Erase a chunk: remove its key from the store. Idempotent.
    pub fn erase_chunk(&self, store: &mut MemoryStore, chunk_indices: &Vec<u64>) -> (r: Result<
        (),
        ArrayError,
    >)
        ensures
            r is Ok <==> crate::storage::store_key_bytes_valid(
                chunk_key_bytes(self.spec_chunk_key_encoding(), chunk_indices@),
            ),
            r is Ok ==> final(store).contents() == old(store).contents().remove(
                chunk_key_bytes(self.spec_chunk_key_encoding(), chunk_indices@),
            ),
            r is Err ==> final(store).contents() == old(store).contents(),
    {
        let key = self.chunk_key(chunk_indices)?;
        store.erase(&key);
        Ok(())
    }
}


/// The larger of the two subsets' starts in one dimension: where their
/// intersection begins.
pub open spec fn intersect_lo(a: &ArraySubset, b: &ArraySubset, d: int) -> int {
    if a.start@[d] >= b.start@[d] {
        a.start@[d] as int
    } else {
        b.start@[d] as int
    }
}

/// The smaller of the two subsets' ends in one dimension: where their
/// intersection ends.
pub open spec fn intersect_hi(a: &ArraySubset, b: &ArraySubset, d: int) -> int {
    if a.start@[d] + a.shape@[d] <= b.start@[d] + b.shape@[d] {
        a.start@[d] + a.shape@[d]
    } else {
        b.start@[d] + b.shape@[d]
    }
}

/// The intersection of two subsets of the same rank, or `None` when it is
/// empty in some dimension.
pub fn intersect(a: &ArraySubset, b: &ArraySubset) -> (r: Option<ArraySubset>)
    requires
        a.wf(),
        b.wf(),
        a.spec_rank() == b.spec_rank(),
    ensures
        r is None <==> exists|d: int|
            0 <= d < a.spec_rank() && #[trigger] intersect_hi(a, b, d) <= intersect_lo(a, b, d),
        r matches Some(s) ==> {
            &&& s.wf()
            &&& s.spec_rank() == a.spec_rank()
            &&& (forall|d: int|
                0 <= d < s.spec_rank() ==> #[trigger] s.start@[d] == intersect_lo(a, b, d))
            &&& (forall|d: int|
                0 <= d < s.spec_rank() ==> s.start@[d] + #[trigger] s.shape@[d] == intersect_hi(
                    a,
                    b,
                    d,
                ))
            &&& (forall|d: int| 0 <= d < s.spec_rank() ==> #[trigger] s.shape@[d] >= 1)
        },
{
    let rank = a.shape.len();
    let mut start: Vec<u64> = Vec::new();
    let mut shape: Vec<u64> = Vec::new();
    let mut d: usize = 0;
    while d < rank
        invariant
            a.wf(),
            b.wf(),
            rank == a.spec_rank() == b.spec_rank(),
            d <= rank,
            start@.len() == d,
            shape@.len() == d,
            forall|k: int| 0 <= k < d ==> #[trigger] start@[k] == intersect_lo(a, b, k),
            forall|k: int|
                0 <= k < d ==> start@[k] + #[trigger] shape@[k] == intersect_hi(a, b, k),
            forall|k: int| 0 <= k < d ==> #[trigger] shape@[k] >= 1,
            forall|k: int| 0 <= k < d ==> intersect_lo(a, b, k) < #[trigger] intersect_hi(a, b, k),
        decreases rank - d,
    {
        let lo = if a.start[d] >= b.start[d] {
            a.start[d]
        } else {
            b.start[d]
        };
        let a_end = a.start[d] + a.shape[d];
        let b_end = b.start[d] + b.shape[d];
        let hi = if a_end <= b_end {
            a_end
        } else {
            b_end
        };
        if hi <= lo {
            proof {
                assert(intersect_hi(a, b, d as int) <= intersect_lo(a, b, d as int));
            }
            return None;
        }
        start.push(lo);
        shape.push(hi - lo);
        proof {
            assert(start@[d as int] == intersect_lo(a, b, d as int));
            assert(start@[d as int] + shape@[d as int] == intersect_hi(a, b, d as int));
            assert(shape@[d as int] >= 1);
        }
        d += 1;
    }
    Some(ArraySubset { start, shape })
}

/// The subset translated to coordinates relative to an origin that bounds it
/// from below in every dimension.
pub fn relative_to(subset: &ArraySubset, origin: &Vec<u64>) -> (r: ArraySubset)
    requires
        subset.wf(),
        subset.spec_rank() == origin@.len(),
        forall|d: int| 0 <= d < origin@.len() ==> subset.start@[d] >= origin@[d],
    ensures
        r.wf(),
        r.spec_rank() == subset.spec_rank(),
        r.shape@ == subset.shape@,
        forall|d: int| 0 <= d < origin@.len() ==> r.start@[d] == subset.start@[d] - origin@[d],
{
    let mut start: Vec<u64> = Vec::new();
    let mut d: usize = 0;
    while d < origin.len()
        invariant
            subset.wf(),
            subset.spec_rank() == origin@.len(),
            forall|k: int| 0 <= k < origin@.len() ==> subset.start@[k] >= origin@[k],
            d <= origin@.len(),
            start@.len() == d,
            forall|k: int| 0 <= k < d ==> start@[k] == subset.start@[k] - origin@[k],
        decreases origin@.len() - d,
    {
        start.push(subset.start[d] - origin[d]);
        d += 1;
    }
    let shape = subset.shape.clone();
    proof {
        assert(shape@ == subset.shape@);
    }
    ArraySubset { start, shape }
}

/// The absolute region of inner chunk `pos` of a shard: its start is the
/// position scaled by the inner chunk shape.
fn cell_subset(pos: &Vec<u64>, inner: &Vec<u64>, chunk_shape: &Vec<u64>) -> (r: Result<
    ArraySubset,
    ArrayError,
>)
    requires
        pos@.len() == inner@.len() == chunk_shape@.len(),
        forall|d: int| 0 <= d < inner@.len() ==> inner@[d] >= 1,
        forall|d: int|
            0 <= d < inner@.len() ==> #[trigger] (chunk_shape@[d] as int) % (inner@[d] as int)
                == 0,
        forall|d: int| 0 <= d < inner@.len() ==> pos@[d] < chunk_shape@[d] / inner@[d],
    ensures
        r matches Ok(s) ==> {
            &&& s.wf()
            &&& s.spec_rank() == inner@.len()
            &&& s.shape@ == inner@
            &&& s.within(chunk_shape@)
            &&& forall|d: int| 0 <= d < inner@.len() ==> #[trigger] s.start@[d] == pos@[d] * inner@[d]
        },
{
    let mut start: Vec<u64> = Vec::new();
    let mut d: usize = 0;
    while d < inner.len()
        invariant
            pos@.len() == inner@.len() == chunk_shape@.len(),
            forall|k: int| 0 <= k < inner@.len() ==> inner@[k] >= 1,
            forall|k: int|
                0 <= k < inner@.len() ==> #[trigger] (chunk_shape@[k] as int) % (inner@[k] as int)
                    == 0,
            forall|k: int| 0 <= k < inner@.len() ==> pos@[k] < chunk_shape@[k] / inner@[k],
            d <= inner@.len(),
            start@.len() == d,
            forall|k: int| 0 <= k < d ==> #[trigger] start@[k] == pos@[k] * inner@[k],
            forall|k: int| 0 <= k < d ==> start@[k] + inner@[k] <= chunk_shape@[k],
        decreases inner@.len() - d,
    {
        proof {
            let c = chunk_shape@[d as int] as int;
            let i = inner@[d as int] as int;
            let p = pos@[d as int] as int;
            vstd::arithmetic::div_mod::lemma_fundamental_div_mod(c, i);
            assert((p + 1) * i <= (c / i) * i) by (nonlinear_arith)
                requires
                    i >= 1,
                    0 <= p,
                    p + 1 <= c / i,
            ;
            assert((c / i) * i <= c) by (nonlinear_arith)
                requires
                    i >= 1,
                    c >= 0,
                    c % i == 0,
                    c == i * (c / i) + c % i,
            ;
            assert(p * i + i == (p + 1) * i) by (nonlinear_arith);
        }
        let s = match pos[d].checked_mul(inner[d]) {
            Some(v) => v,
            None => {
                return Err(ArrayError::Overflow);
            },
        };
        start.push(s);
        d += 1;
    }
    let shape = inner.clone();
    proof {
        assert(shape@ == inner@);
    }
    Ok(ArraySubset { start, shape })
}

impl Array {
    /// Decode a shard blob into the chunk's element buffer: parse and check
    /// the index, then scatter each non-empty inner chunk, leaving empty
    /// cells as the fill value.
    fn shard_decode(&self, cfg: &ShardingCodecConfiguration, blob: &Vec<u8>) -> (r: Result<
        Vec<u8>,
        ArrayError,
    >)
        requires
            self.wf(),
            self.spec_codec() matches ArrayToBytesCodec::Sharding(c) && c.inner_chunk_shape@
                == cfg.inner_chunk_shape@ && c.index_location == cfg.index_location,
        ensures
            r matches Ok(v) ==> v@.len() == num_elements_of(self.spec_chunk_shape())
                * self.spec_data_type().spec_size(),
    {
        let es = self.data_type.size();
        let cne = self.chunk_num_elements();
        let inner = &cfg.inner_chunk_shape;
        let mut grid: Vec<u64> = Vec::new();
        let mut d: usize = 0;
        while d < inner.len()
            invariant
                self.wf(),
                self.spec_codec() matches ArrayToBytesCodec::Sharding(c) && c.inner_chunk_shape@
                    == cfg.inner_chunk_shape@,
                inner@ == cfg.inner_chunk_shape@,
                inner@.len() == self.spec_chunk_shape().len(),
                d <= inner@.len(),
                grid@.len() == d,
                forall|k: int| 0 <= k < d ==> grid@[k] == self.spec_chunk_shape()[k] / inner@[k],
            decreases inner@.len() - d,
        {
            grid.push(self.chunk_shape[d] / inner[d]);
            d += 1;
        }
        proof {
            assert(grid@ =~= grid_shape_of(self.spec_chunk_shape(), inner@));
        }
        let nc = match checked_num_elements(&grid) {
            Some(n) => n,
            None => {
                return Err(ArrayError::Overflow);
            },
        };
        if nc > ((usize::MAX / 16) as u64) {
            return Err(ArrayError::Overflow);
        }
        let nc_us = nc as usize;
        let isz: usize = 16 * nc_us;
        if blob.len() < isz {
            return Err(ArrayError::CorruptShard);
        }
        let index_bytes = match cfg.index_location {
            ShardingIndexLocation::Start => copy_subrange(blob, 0, isz),
            ShardingIndexLocation::End => copy_subrange(blob, blob.len() - isz, blob.len()),
        };
        proof {
            assert((16 * (nc_us as int)) % 8 == 0) by (nonlinear_arith);
        }
        let entries = decode_shard_index(&index_bytes);
        proof {
            assert(8 * entries@.len() == 16 * (nc_us as int));
            assert(entries@.len() == 2 * (nc_us as int)) by (nonlinear_arith)
                requires
                    8 * entries@.len() == 16 * (nc_us as int),
            ;
            assert(entries@.len() % 2 == 0) by (nonlinear_arith)
                requires
                    entries@.len() == 2 * (nc_us as int),
            ;
        }
        let (lo, hi): (u64, u64) = match cfg.index_location {
            ShardingIndexLocation::Start => (isz as u64, blob.len() as u64),
            ShardingIndexLocation::End => (0, (blob.len() - isz) as u64),
        };
        if !validate_shard_index(&entries, lo, hi) {
            return Err(ArrayError::CorruptShard);
        }
        let inner_ne = match checked_num_elements(inner) {
            Some(n) => n,
            None => {
                return Err(ArrayError::Overflow);
            },
        };
        if inner_ne > (usize::MAX as u64) || es == 0 || (inner_ne as usize) > usize::MAX / es {
            return Err(ArrayError::Overflow);
        }
        let cell_bytes = (inner_ne as usize) * es;
        proof {
            let ine = inner_ne as int;
            assert(ine * es <= ((usize::MAX as int) / (es as int)) * es) by (nonlinear_arith)
                requires
                    es >= 1,
                    0 <= ine <= (usize::MAX as int) / (es as int),
            ;
            assert(((usize::MAX as int) / (es as int)) * es <= usize::MAX) by (nonlinear_arith)
                requires
                    es >= 1,
            ;
        }
        let mut out = fill_buffer(cne, &self.fill_value);
        proof {
            assert(out@.len() == (cne as int) * (self.fill_value@.len() as int));
            assert(blob@.len() <= usize::MAX);
        }
        let mut ic: usize = 0;
        while ic < nc_us
            invariant
                self.wf(),
                self.spec_codec() matches ArrayToBytesCodec::Sharding(c) && c.inner_chunk_shape@
                    == cfg.inner_chunk_shape@,
                inner@ == cfg.inner_chunk_shape@,
                inner@.len() == self.spec_chunk_shape().len(),
                grid@ == grid_shape_of(self.spec_chunk_shape(), inner@),
                nc_us == num_elements_of(grid@),
                entries@.len() == 2 * nc_us,
                entries@.len() % 2 == 0,
                crate::shard_index::shard_index_entries_valid(entries@, lo as int, hi as int),
                hi <= blob@.len(),
                blob@.len() <= usize::MAX,
                es == self.spec_data_type().spec_size(),
                es >= 1,
                cell_bytes == (inner_ne as int) * es,
                inner_ne == num_elements_of(inner@),
                out@.len() == num_elements_of(self.spec_chunk_shape()) * es,
                num_elements_of(self.spec_chunk_shape()) * es <= usize::MAX,
                ic <= nc_us,
            decreases nc_us - ic,
        {
            proof {
                assert(2 * ic + 1 < 2 * nc_us) by (nonlinear_arith)
                    requires
                        ic < nc_us,
                ;
            }
            let off = entries[2 * ic];
            let len = entries[2 * ic + 1];
            if !(off == EMPTY_SENTINEL && len == EMPTY_SENTINEL) {
                proof {
                    assert(!crate::shard_index::entry_is_empty(entries@, ic as int));
                    assert(crate::shard_index::entry_offset(entries@, ic as int) == off);
                    assert(crate::shard_index::entry_nbytes(entries@, ic as int) == len);
                    assert(off + len <= hi);
                }
                if (len as usize) != cell_bytes {
                    return Err(ArrayError::CorruptShard);
                }
                let piece = copy_subrange(blob, off as usize, (off + len) as usize);
                proof {
                    assert(piece@.len() == len);
                }
                let pos = unravel_index(ic as u64, &grid);
                proof {
                    assert(forall|k: int|
                        0 <= k < inner@.len() ==> #[trigger] pos@[k] < grid@[k]
                            && grid@[k] == self.spec_chunk_shape()[k] / inner@[k]);
                    assert(forall|k: int| 0 <= k < inner@.len() ==> inner@[k] >= 1);
                }
                let cell = cell_subset(&pos, inner, &self.chunk_shape)?;
                proof {
                    assert(cell.spec_num_elements() == num_elements_of(inner@));
                    assert(piece@.len() == cell.spec_num_elements() * es);
                }
                inject_region(&mut out, &self.chunk_shape, &cell, &piece, es);
            }
            ic += 1;
        }
        Ok(out)
    }

    /// Encode a chunk's element buffer as a shard blob: concatenated inner
    /// chunk blobs plus the index at its configured end, with fill-equal
    /// inner chunks left out and marked by the sentinel.
    fn shard_encode(&self, cfg: &ShardingCodecConfiguration, bytes: &Vec<u8>) -> (r: Result<
        Vec<u8>,
        ArrayError,
    >)
        requires
            self.wf(),
            self.spec_codec() matches ArrayToBytesCodec::Sharding(c) && c.inner_chunk_shape@
                == cfg.inner_chunk_shape@ && c.index_location == cfg.index_location,
            bytes@.len() == num_elements_of(self.spec_chunk_shape())
                * self.spec_data_type().spec_size(),
    {
        let es = self.data_type.size();
        // bind the buffer's length once: as an exec `usize` it bounds the
        // ghost length for the merge loop below
        let _user_len: usize = bytes.len();
        let inner = &cfg.inner_chunk_shape;
        let mut grid: Vec<u64> = Vec::new();
        let mut d: usize = 0;
        while d < inner.len()
            invariant
                self.wf(),
                self.spec_codec() matches ArrayToBytesCodec::Sharding(c) && c.inner_chunk_shape@
                    == cfg.inner_chunk_shape@,
                inner@ == cfg.inner_chunk_shape@,
                inner@.len() == self.spec_chunk_shape().len(),
                d <= inner@.len(),
                grid@.len() == d,
                forall|k: int| 0 <= k < d ==> grid@[k] == self.spec_chunk_shape()[k] / inner@[k],
            decreases inner@.len() - d,
        {
            grid.push(self.chunk_shape[d] / inner[d]);
            d += 1;
        }
        proof {
            assert(grid@ =~= grid_shape_of(self.spec_chunk_shape(), inner@));
        }
        let nc = match checked_num_elements(&grid) {
            Some(n) => n,
            None => {
                return Err(ArrayError::Overflow);
            },
        };
        if nc > ((usize::MAX / 16) as u64) {
            return Err(ArrayError::Overflow);
        }
        let nc_us = nc as usize;
        let isz: usize = 16 * nc_us;
        let floor: u64 = match cfg.index_location {
            ShardingIndexLocation::Start => isz as u64,
            ShardingIndexLocation::End => 0,
        };
        let mut entries: Vec<u64> = Vec::new();
        let mut body: Vec<u8> = Vec::new();
        let mut cursor: u64 = floor;
        let mut ic: usize = 0;
        while ic < nc_us
            invariant
                self.wf(),
                self.spec_codec() matches ArrayToBytesCodec::Sharding(c) && c.inner_chunk_shape@
                    == cfg.inner_chunk_shape@,
                inner@ == cfg.inner_chunk_shape@,
                inner@.len() == self.spec_chunk_shape().len(),
                grid@ == grid_shape_of(self.spec_chunk_shape(), inner@),
                nc_us == num_elements_of(grid@),
                es == self.spec_data_type().spec_size(),
                es >= 1,
                bytes@.len() == num_elements_of(self.spec_chunk_shape()) * es,
                num_elements_of(self.spec_chunk_shape()) * es <= usize::MAX,
                ic <= nc_us,
                entries@.len() == 2 * ic,
            decreases nc_us - ic,
        {
            let pos = unravel_index(ic as u64, &grid);
            proof {
                assert(forall|k: int|
                    0 <= k < inner@.len() ==> #[trigger] pos@[k] < grid@[k] && grid@[k]
                        == self.spec_chunk_shape()[k] / inner@[k]);
                assert(forall|k: int| 0 <= k < inner@.len() ==> inner@[k] >= 1);
            }
            let cell = cell_subset(&pos, inner, &self.chunk_shape)?;
            let piece = extract_region(bytes, &self.chunk_shape, &cell, es);
            if is_all_fill(&piece, &self.fill_value) {
                entries.push(EMPTY_SENTINEL);
                entries.push(EMPTY_SENTINEL);
            } else {
                let len = piece.len() as u64;
                entries.push(cursor);
                entries.push(len);
                let mut k: usize = 0;
                while k < piece.len()
                    invariant
                        k <= piece@.len(),
                    decreases piece@.len() - k,
                {
                    body.push(piece[k]);
                    k += 1;
                }
                cursor = match cursor.checked_add(len) {
                    Some(c) => c,
                    None => {
                        return Err(ArrayError::Overflow);
                    },
                };
            }
            ic += 1;
        }
        if 8 * entries.len() > usize::MAX / 2 {
            return Err(ArrayError::Overflow);
        }
        proof {
            assert(entries@.len() % 2 == 0) by (nonlinear_arith)
                requires
                    entries@.len() == 2 * (nc_us as int),
            ;
        }
        if !validate_shard_index(&entries, floor, cursor) {
            return Err(ArrayError::CorruptShard);
        }
        let index_bytes = encode_shard_index(&entries);
        let mut blob: Vec<u8> = Vec::new();
        match cfg.index_location {
            ShardingIndexLocation::Start => {
                let mut k: usize = 0;
                while k < index_bytes.len()
                    invariant
                        k <= index_bytes@.len(),
                    decreases index_bytes@.len() - k,
                {
                    blob.push(index_bytes[k]);
                    k += 1;
                }
                let mut k2: usize = 0;
                while k2 < body.len()
                    invariant
                        k2 <= body@.len(),
                    decreases body@.len() - k2,
                {
                    blob.push(body[k2]);
                    k2 += 1;
                }
            },
            ShardingIndexLocation::End => {
                let mut k: usize = 0;
                while k < body.len()
                    invariant
                        k <= body@.len(),
                    decreases body@.len() - k,
                {
                    blob.push(body[k]);
                    k += 1;
                }
                let mut k2: usize = 0;
                while k2 < index_bytes.len()
                    invariant
                        k2 <= index_bytes@.len(),
                    decreases index_bytes@.len() - k2,
                {
                    blob.push(index_bytes[k2]);
                    k2 += 1;
                }
            },
        }
        Ok(blob)
    }

    /// Retrieve and decode a chunk. An absent chunk decodes to a buffer of
    /// fill-value elements.
    pub fn retrieve_chunk(&self, store: &mut MemoryStore, chunk_indices: &Vec<u64>) -> (r: Result<
        Vec<u8>,
        ArrayError,
    >)
        requires
            self.wf(),
        ensures
            final(store).contents() == old(store).contents(),
            final(store).spec_writes() == old(store).spec_writes(),
            r matches Ok(v) ==> v@.len() == num_elements_of(self.spec_chunk_shape())
                * self.spec_data_type().spec_size(),
            r is Ok && !old(store).contents().contains_key(
                chunk_key_bytes(self.spec_chunk_key_encoding(), chunk_indices@),
            ) ==> r->Ok_0@ == repeat_fill(
                num_elements_of(self.spec_chunk_shape()),
                self.spec_fill_value(),
            ),
            r is Ok && self.spec_codec() is Bytes && old(store).contents().contains_key(
                chunk_key_bytes(self.spec_chunk_key_encoding(), chunk_indices@),
            ) ==> r->Ok_0@ == old(store).contents()[chunk_key_bytes(
                self.spec_chunk_key_encoding(),
                chunk_indices@,
            )],
            ({
                let k = chunk_key_bytes(self.spec_chunk_key_encoding(), chunk_indices@);
                crate::storage::store_key_bytes_valid(k) && (!old(store).contents().contains_key(k)
                    || (self.spec_codec() is Bytes && old(store).contents()[k].len()
                    == num_elements_of(self.spec_chunk_shape())
                    * self.spec_data_type().spec_size())) ==> r is Ok
            }),
    {
        let key = self.chunk_key(chunk_indices)?;
        let cne = self.chunk_num_elements();
        let es = self.data_type.size();
        match store.get(&key) {
            None => {
                let out = fill_buffer(cne, &self.fill_value);
                Ok(out)
            },
            Some(blob) => {
                match &self.codec {
                    ArrayToBytesCodec::Bytes => {
                        if blob.len() != cne * es {
                            Err(ArrayError::InvalidBytesLength(blob.len(), cne * es))
                        } else {
                            Ok(blob)
                        }
                    },
                    ArrayToBytesCodec::Sharding(cfg) => self.shard_decode(cfg, &blob),
                }
            },
        }
    }

    /// Encode and store a chunk. When the empty-chunk policy is off and
    /// every element equals the fill value, the chunk's key is erased
    /// instead of written.
    pub fn store_chunk(
        &self,
        store: &mut MemoryStore,
        chunk_indices: &Vec<u64>,
        bytes: Vec<u8>,
        options: &CodecOptions,
    ) -> (r: Result<(), ArrayError>)
        requires
            self.wf(),
        ensures
            r is Ok && !options.store_empty_chunks && all_fill(bytes@, self.spec_fill_value())
                ==> !final(store).contents().contains_key(
                chunk_key_bytes(self.spec_chunk_key_encoding(), chunk_indices@),
            ),
            r is Ok && !all_fill(bytes@, self.spec_fill_value()) ==> final(store).contents()
                .contains_key(chunk_key_bytes(self.spec_chunk_key_encoding(), chunk_indices@)),
            r is Ok && !options.store_empty_chunks && all_fill(bytes@, self.spec_fill_value())
                ==> final(store).contents() == old(store).contents().remove(
                chunk_key_bytes(self.spec_chunk_key_encoding(), chunk_indices@),
            ),
            r is Ok && self.spec_codec() is Bytes && !(!options.store_empty_chunks && all_fill(
                bytes@,
                self.spec_fill_value(),
            )) ==> final(store).contents() == old(store).contents().insert(
                chunk_key_bytes(self.spec_chunk_key_encoding(), chunk_indices@),
                bytes@,
            ),
            r is Err ==> final(store).contents() == old(store).contents(),
            r is Ok ==> bytes@.len() == num_elements_of(self.spec_chunk_shape())
                * self.spec_data_type().spec_size(),
            self.spec_codec() is Bytes && crate::storage::store_key_bytes_valid(
                chunk_key_bytes(self.spec_chunk_key_encoding(), chunk_indices@),
            ) && bytes@.len() == num_elements_of(self.spec_chunk_shape())
                * self.spec_data_type().spec_size() ==> r is Ok,
    {
        let key = self.chunk_key(chunk_indices)?;
        let cne = self.chunk_num_elements();
        let es = self.data_type.size();
        if bytes.len() != cne * es {
            return Err(ArrayError::InvalidBytesLength(bytes.len(), cne * es));
        }
        if !options.store_empty_chunks && is_all_fill(&bytes, &self.fill_value) {
            store.erase(&key);
            return Ok(());
        }
        let blob = match &self.codec {
            ArrayToBytesCodec::Bytes => bytes,
            ArrayToBytesCodec::Sharding(cfg) => self.shard_encode(cfg, &bytes)?,
        };
        store.set(&key, blob);
        Ok(())
    }

    /// Retrieve the elements of a subset of one chunk, decoding the whole
    /// chunk and extracting the requested region.
    pub fn retrieve_chunk_subset(
        &self,
        store: &mut MemoryStore,
        chunk_indices: &Vec<u64>,
        chunk_subset: &ArraySubset,
    ) -> (r: Result<Vec<u8>, ArrayError>)
        requires
            self.wf(),
        ensures
            final(store).contents() == old(store).contents(),
            r matches Ok(v) ==> v@.len() == chunk_subset.spec_num_elements()
                * self.spec_data_type().spec_size(),
            r is Ok ==> chunk_subset.within(self.spec_chunk_shape()),
            ({
                let k = chunk_key_bytes(self.spec_chunk_key_encoding(), chunk_indices@);
                chunk_subset.within(self.spec_chunk_shape())
                    && crate::storage::store_key_bytes_valid(k)
                    && (!old(store).contents().contains_key(k) || (self.spec_codec() is Bytes
                    && old(store).contents()[k].len() == num_elements_of(self.spec_chunk_shape())
                    * self.spec_data_type().spec_size())) ==> r is Ok
            }),
            r is Ok && !old(store).contents().contains_key(
                chunk_key_bytes(self.spec_chunk_key_encoding(), chunk_indices@),
            ) ==> all_fill(r->Ok_0@, self.spec_fill_value()),
            // the law of partial decoding for the plain bytes pipeline: the
            // result is exactly the requested slice of the stored chunk
            r is Ok && self.spec_codec() is Bytes && old(store).contents().contains_key(
                chunk_key_bytes(self.spec_chunk_key_encoding(), chunk_indices@),
            ) ==> forall|pos: Seq<u64>, kk: int|
                pos_within(pos, chunk_subset.shape@) && 0 <= kk
                    < self.spec_data_type().spec_size() ==> #[trigger] r->Ok_0@[linear_index_of(
                    pos,
                    chunk_subset.shape@,
                ) * self.spec_data_type().spec_size() + kk] == old(store).contents()[
                    chunk_key_bytes(self.spec_chunk_key_encoding(), chunk_indices@)][
                    linear_index_of(pos_plus(chunk_subset.start@, pos), self.spec_chunk_shape())
                        * self.spec_data_type().spec_size() + kk],
    {
        let es = self.data_type.size();
        if chunk_subset.rank() != self.chunk_shape.len() || chunk_subset.start.len()
            != self.chunk_shape.len() {
            return Err(ArrayError::SubsetOutOfBounds);
        }
        let mut d: usize = 0;
        while d < self.chunk_shape.len()
            invariant
                self.wf(),
                chunk_subset.start@.len() == self.spec_chunk_shape().len(),
                chunk_subset.shape@.len() == self.spec_chunk_shape().len(),
                d <= self.spec_chunk_shape().len(),
                forall|k: int|
                    0 <= k < d ==> chunk_subset.start@[k] + chunk_subset.shape@[k]
                        <= self.spec_chunk_shape()[k],
            decreases self.spec_chunk_shape().len() - d,
        {
            if chunk_subset.shape[d] > u64::MAX - chunk_subset.start[d] || chunk_subset.start[d]
                + chunk_subset.shape[d] > self.chunk_shape[d] {
                return Err(ArrayError::SubsetOutOfBounds);
            }
            d += 1;
        }
        let chunk = self.retrieve_chunk(store, chunk_indices)?;
        proof {
            assert forall|k: int|
                0 <= k < chunk_subset.start@.len() implies chunk_subset.start@[k]
                + chunk_subset.shape@[k] <= u64::MAX by {
                assert(chunk_subset.start@[k] + chunk_subset.shape@[k]
                    <= self.spec_chunk_shape()[k]);
            }
            assert(chunk_subset.wf());
            assert(chunk_subset.within(self.spec_chunk_shape()));
            if !old(store).contents().contains_key(
                chunk_key_bytes(self.spec_chunk_key_encoding(), chunk_indices@),
            ) {
                assert(all_fill(chunk@, self.spec_fill_value()));
            }
        }
        let out = extract_region(&chunk, &self.chunk_shape, chunk_subset, es);
        proof {
            if !old(store).contents().contains_key(
                chunk_key_bytes(self.spec_chunk_key_encoding(), chunk_indices@),
            ) {
                assert(all_fill(chunk@, self.spec_fill_value()));
                assert(all_fill(out@, self.spec_fill_value()));
            }
        }
        Ok(out)
    }
}


impl Array {
    /// Write a subset of a sharded chunk in place: read the index, merge the
    /// touched inner chunks, append the rewritten ones after the occupied
    /// region (stale slots are abandoned), and rewrite the index. When every
    /// inner chunk of the result is empty the chunk's key is erased.
    ///
    /// The sequence is one ranged read for the index, one batched ranged
    /// read for the touched non-empty inner chunks (if any), one partial
    /// write per rewritten inner chunk, and one partial write for the index.
    fn shard_store_subset(
        &self,
        store: &mut MemoryStore,
        cfg: &ShardingCodecConfiguration,
        key: &StoreKey,
        chunk_subset: &ArraySubset,
        bytes: &Vec<u8>,
        options: &CodecOptions,
    ) -> (r: Result<(), ArrayError>)
        requires
            self.wf(),
            self.spec_codec() matches ArrayToBytesCodec::Sharding(c) && c.inner_chunk_shape@
                == cfg.inner_chunk_shape@ && c.index_location == cfg.index_location,
            chunk_subset.within(self.spec_chunk_shape()),
            bytes@.len() == chunk_subset.spec_num_elements() * self.spec_data_type().spec_size(),
        ensures
            r is Err ==> final(store).contents() == old(store).contents(),
    {
        let es = self.data_type.size();
        // bind the buffer's length once: as an exec `usize` it bounds the
        // ghost length for the merge loop below
        let _user_len: usize = bytes.len();
        let inner = &cfg.inner_chunk_shape;
        let mut grid: Vec<u64> = Vec::new();
        let mut d: usize = 0;
        while d < inner.len()
            invariant
                self.wf(),
                self.spec_codec() matches ArrayToBytesCodec::Sharding(c) && c.inner_chunk_shape@
                    == cfg.inner_chunk_shape@,
                inner@ == cfg.inner_chunk_shape@,
                inner@.len() == self.spec_chunk_shape().len(),
                d <= inner@.len(),
                grid@.len() == d,
                forall|k: int| 0 <= k < d ==> grid@[k] == self.spec_chunk_shape()[k] / inner@[k],
            decreases inner@.len() - d,
        {
            grid.push(self.chunk_shape[d] / inner[d]);
            d += 1;
        }
        proof {
            assert(grid@ =~= grid_shape_of(self.spec_chunk_shape(), inner@));
        }
        let nc = match checked_num_elements(&grid) {
            Some(n) => n,
            None => {
                return Err(ArrayError::Overflow);
            },
        };
        if nc > ((usize::MAX / 16) as u64) {
            return Err(ArrayError::Overflow);
        }
        let nc_us = nc as usize;
        let isz: usize = 16 * nc_us;
        let inner_ne = match checked_num_elements(inner) {
            Some(n) => n,
            None => {
                return Err(ArrayError::Overflow);
            },
        };
        if inner_ne > (usize::MAX as u64) || es == 0 || (inner_ne as usize) > usize::MAX / es {
            return Err(ArrayError::Overflow);
        }
        let cell_bytes = (inner_ne as usize) * es;
        proof {
            let ine = inner_ne as int;
            assert(ine * es <= ((usize::MAX as int) / (es as int)) * es) by (nonlinear_arith)
                requires
                    es >= 1,
                    0 <= ine <= (usize::MAX as int) / (es as int),
            ;
            assert(((usize::MAX as int) / (es as int)) * es <= usize::MAX) by (nonlinear_arith)
                requires
                    es >= 1,
            ;
        }
        // one ranged read for the index; an absent key is an all-empty shard
        let total_size = store.size_key(key);
        let index_range: ByteRange = match cfg.index_location {
            ShardingIndexLocation::Start => ByteRange::FromStart(0, Some(isz as u64)),
            ShardingIndexLocation::End => ByteRange::FromEnd(isz as u64),
        };
        let mut ranges: Vec<ByteRange> = Vec::new();
        ranges.push(index_range);
        let index_read = match store.get_partial_values_key(key, &ranges) {
            Ok(v) => v,
            Err(StorageError::InvalidByteRange(_)) => {
                return Err(ArrayError::CorruptShard);
            },
            Err(e) => {
                return Err(ArrayError::Storage(e));
            },
        };
        let mut entries: Vec<u64>;
        let floor: u64 = match cfg.index_location {
            ShardingIndexLocation::Start => isz as u64,
            ShardingIndexLocation::End => 0,
        };
        match index_read {
            Some(pieces) => {
                if pieces.len() != 1 {
                    return Err(ArrayError::CorruptShard);
                }
                let index_bytes = &pieces[0];
                if index_bytes.len() != isz {
                    return Err(ArrayError::CorruptShard);
                }
                proof {
                    assert((16 * (nc_us as int)) % 8 == 0) by (nonlinear_arith);
                }
                entries = decode_shard_index(index_bytes);
                let hi: u64 = match total_size {
                    Some(t) => {
                        match cfg.index_location {
                            ShardingIndexLocation::Start => t,
                            ShardingIndexLocation::End => {
                                if t < isz as u64 {
                                    return Err(ArrayError::CorruptShard);
                                }
                                t - isz as u64
                            },
                        }
                    },
                    None => {
                        return Err(ArrayError::CorruptShard);
                    },
                };
                proof {
                    assert(8 * entries@.len() == 16 * (nc_us as int));
                    assert(entries@.len() == 2 * (nc_us as int)) by (nonlinear_arith)
                        requires
                            8 * entries@.len() == 16 * (nc_us as int),
                    ;
                }
                if !validate_shard_index(&entries, floor, hi) {
                    return Err(ArrayError::CorruptShard);
                }
            },
            None => {
                proof {
                    assert(2 * (nc_us as int) <= usize::MAX) by (nonlinear_arith)
                        requires
                            nc_us <= (usize::MAX as int) / 16,
                    ;
                }
                entries = Vec::new();
                let mut k: usize = 0;
                while k < 2 * nc_us
                    invariant
                        2 * (nc_us as int) <= usize::MAX,
                        k <= 2 * nc_us,
                        entries@.len() == k,
                        forall|j: int| 0 <= j < k ==> entries@[j] == EMPTY_SENTINEL,
                    decreases 2 * nc_us - k,
                {
                    entries.push(EMPTY_SENTINEL);
                    k += 1;
                }
                proof {
                    assert(entries@.len() % 2 == 0) by (nonlinear_arith)
                        requires
                            entries@.len() == 2 * (nc_us as int),
                    ;
                    assert(forall|j: int|
                        0 <= j < nc_us ==> crate::shard_index::entry_is_empty(entries@, j));
                }
                if !validate_shard_index(&entries, floor, u64::MAX) {
                    return Err(ArrayError::CorruptShard);
                }
            },
        }
        proof {
            assert(entries@.len() == 2 * (nc_us as int));
        }
        // find the touched inner chunks and batch-read the non-empty ones
        let mut touched: Vec<usize> = Vec::new();
        let mut read_cells: Vec<usize> = Vec::new();
        let mut read_ranges: Vec<ByteRange> = Vec::new();
        let mut ic: usize = 0;
        while ic < nc_us
            invariant
                self.wf(),
                self.spec_codec() matches ArrayToBytesCodec::Sharding(c) && c.inner_chunk_shape@
                    == cfg.inner_chunk_shape@,
                inner@ == cfg.inner_chunk_shape@,
                inner@.len() == self.spec_chunk_shape().len(),
                grid@ == grid_shape_of(self.spec_chunk_shape(), inner@),
                nc_us == num_elements_of(grid@),
                entries@.len() == 2 * nc_us,
                chunk_subset.within(self.spec_chunk_shape()),
                ic <= nc_us,
                store.contents() == old(store).contents(),
                read_cells@.len() == read_ranges@.len(),
                forall|j: int| 0 <= j < touched@.len() ==> #[trigger] touched@[j] < nc_us,
                forall|j: int| 0 <= j < read_cells@.len() ==> #[trigger] read_cells@[j] < nc_us,
            decreases nc_us - ic,
        {
            proof {
                assert(2 * ic + 1 < 2 * nc_us) by (nonlinear_arith)
                    requires
                        ic < nc_us,
                ;
            }
            let pos = unravel_index(ic as u64, &grid);
            proof {
                assert(forall|k: int|
                    0 <= k < inner@.len() ==> #[trigger] pos@[k] < grid@[k] && grid@[k]
                        == self.spec_chunk_shape()[k] / inner@[k]);
                assert(forall|k: int| 0 <= k < inner@.len() ==> inner@[k] >= 1);
            }
            let cell = cell_subset(&pos, inner, &self.chunk_shape)?;
            match intersect(chunk_subset, &cell) {
                Some(_inter) => {
                    touched.push(ic);
                    let off = entries[2 * ic];
                    let len = entries[2 * ic + 1];
                    if !(off == EMPTY_SENTINEL && len == EMPTY_SENTINEL) {
                        read_cells.push(ic);
                        read_ranges.push(ByteRange::FromStart(off, Some(len)));
                    }
                },
                None => {},
            }
            ic += 1;
        }
        let pieces: Vec<Vec<u8>> = if read_ranges.len() > 0 {
            match store.get_partial_values_key(key, &read_ranges) {
                Ok(Some(p)) => p,
                Ok(None) => {
                    return Err(ArrayError::CorruptShard);
                },
                Err(StorageError::InvalidByteRange(_)) => {
                    return Err(ArrayError::CorruptShard);
                },
                Err(e) => {
                    return Err(ArrayError::Storage(e));
                },
            }
        } else {
            Vec::new()
        };
        if pieces.len() != read_cells.len() {
            return Err(ArrayError::CorruptShard);
        }
        // merge each touched inner chunk and lay the rewritten ones after
        // the occupied region
        let mut cursor: u64 = compute_shard_body_end(&entries, floor);
        let mut body_offsets: Vec<u64> = Vec::new();
        let mut body_writes: Vec<Vec<u8>> = Vec::new();
        let mut t: usize = 0;
        while t < touched.len()
            invariant
                self.wf(),
                self.spec_codec() matches ArrayToBytesCodec::Sharding(c) && c.inner_chunk_shape@
                    == cfg.inner_chunk_shape@,
                inner@ == cfg.inner_chunk_shape@,
                inner@.len() == self.spec_chunk_shape().len(),
                grid@ == grid_shape_of(self.spec_chunk_shape(), inner@),
                nc_us == num_elements_of(grid@),
                entries@.len() == 2 * nc_us,
                chunk_subset.within(self.spec_chunk_shape()),
                bytes@.len() == chunk_subset.spec_num_elements()
                    * self.spec_data_type().spec_size(),
                bytes@.len() <= usize::MAX,
                es == self.spec_data_type().spec_size(),
                es >= 1,
                inner_ne == num_elements_of(inner@),
                cell_bytes == (inner_ne as int) * es,
                cell_bytes <= usize::MAX,
                t <= touched@.len(),
                store.contents() == old(store).contents(),
                pieces@.len() == read_cells@.len(),
                body_offsets@.len() == body_writes@.len(),
                forall|j: int| 0 <= j < touched@.len() ==> #[trigger] touched@[j] < nc_us,
                forall|j: int| 0 <= j < read_cells@.len() ==> #[trigger] read_cells@[j] < nc_us,
            decreases touched@.len() - t,
        {
            let ic_t = touched[t];
            proof {
                assert(2 * ic_t + 1 < 2 * nc_us) by (nonlinear_arith)
                    requires
                        ic_t < nc_us,
                ;
            }
            let pos = unravel_index(ic_t as u64, &grid);
            proof {
                assert(forall|k: int|
                    0 <= k < inner@.len() ==> #[trigger] pos@[k] < grid@[k] && grid@[k]
                        == self.spec_chunk_shape()[k] / inner@[k]);
                assert(forall|k: int| 0 <= k < inner@.len() ==> inner@[k] >= 1);
            }
            let cell = cell_subset(&pos, inner, &self.chunk_shape)?;
            let inter = match intersect(chunk_subset, &cell) {
                Some(i) => i,
                None => {
                    t += 1;
                    continue ;
                },
            };
            // the old decoded inner chunk, or a fill-value buffer
            let off = entries[2 * ic_t];
            let len = entries[2 * ic_t + 1];
            let mut old_cell: Vec<u8>;
            if off == EMPTY_SENTINEL && len == EMPTY_SENTINEL {
                old_cell = fill_buffer(inner_ne as usize, &self.fill_value);
            } else {
                // find the batched piece for this inner chunk
                let mut found: Option<usize> = None;
                let mut ri: usize = 0;
                while ri < read_cells.len()
                    invariant
                        pieces@.len() == read_cells@.len(),
                        ri <= read_cells@.len(),
                        found matches Some(f) ==> f < pieces@.len(),
                    decreases read_cells@.len() - ri,
                {
                    if read_cells[ri] == ic_t {
                        found = Some(ri);
                    }
                    ri += 1;
                }
                let fi = match found {
                    Some(f) => f,
                    None => {
                        return Err(ArrayError::CorruptShard);
                    },
                };
                let piece = &pieces[fi];
                if piece.len() != cell_bytes {
                    return Err(ArrayError::CorruptShard);
                }
                old_cell = piece.clone();
            }
            proof {
                assert(old_cell@.len() == num_elements_of(inner@) * es);
            }
            // merge the written elements into the inner chunk
            let rel_cell = relative_to(&inter, &cell.start);
            let rel_subset = relative_to(&inter, &chunk_subset.start);
            proof {
                assert(rel_subset.within(chunk_subset.shape@));
                assert(rel_cell.within(inner@));
            }
            let piece_user = extract_region(bytes, &chunk_subset.shape, &rel_subset, es);
            proof {
                assert(rel_cell.spec_num_elements() == rel_subset.spec_num_elements());
            }
            inject_region(&mut old_cell, inner, &rel_cell, &piece_user, es);
            if is_all_fill(&old_cell, &self.fill_value) {
                entries.set(2 * ic_t, EMPTY_SENTINEL);
                entries.set(2 * ic_t + 1, EMPTY_SENTINEL);
            } else {
                let new_len = old_cell.len() as u64;
                entries.set(2 * ic_t, cursor);
                entries.set(2 * ic_t + 1, new_len);
                body_offsets.push(cursor);
                body_writes.push(old_cell);
                cursor = match cursor.checked_add(new_len) {
                    Some(c) => c,
                    None => {
                        return Err(ArrayError::Overflow);
                    },
                };
            }
            t += 1;
        }
        // erase the key when the whole shard became empty
        let mut all_empty = true;
        let mut k: usize = 0;
        while k < entries.len()
            invariant
                k <= entries@.len(),
                all_empty == forall|j: int| 0 <= j < k ==> entries@[j] == EMPTY_SENTINEL,
            decreases entries@.len() - k,
        {
            if entries[k] != EMPTY_SENTINEL {
                all_empty = false;
            }
            k += 1;
        }
        if all_empty {
            store.erase(key);
            return Ok(());
        }
        // refuse to write an index whose entries escape the shard's body or
        // overlap one another
        if !validate_shard_index(&entries, floor, cursor) {
            return Err(ArrayError::CorruptShard);
        }
        // every check precedes the first write: a failed update leaves the
        // store as it was
        let index_offset: u64 = match cfg.index_location {
            ShardingIndexLocation::Start => 0,
            ShardingIndexLocation::End => cursor,
        };
        if index_offset > (usize::MAX as u64) - (isz as u64) {
            return Err(ArrayError::Overflow);
        }
        if 8 * entries.len() > usize::MAX / 2 {
            return Err(ArrayError::Overflow);
        }
        let mut w: usize = 0;
        while w < body_writes.len()
            invariant
                body_offsets@.len() == body_writes@.len(),
                w <= body_writes@.len(),
                store.contents() == old(store).contents(),
                forall|j: int|
                    0 <= j < w ==> #[trigger] body_offsets@[j] + body_writes@[j]@.len()
                        <= usize::MAX,
            decreases body_writes@.len() - w,
        {
            let off_w = body_offsets[w];
            let data = &body_writes[w];
            if off_w > (usize::MAX as u64) || (data.len() as u64) > (usize::MAX as u64) - off_w {
                return Err(ArrayError::Overflow);
            }
            w += 1;
        }
        // write the rewritten inner chunks, then the index
        w = 0;
        while w < body_writes.len()
            invariant
                body_offsets@.len() == body_writes@.len(),
                w <= body_writes@.len(),
                forall|j: int|
                    0 <= j < body_writes@.len() ==> #[trigger] body_offsets@[j]
                        + body_writes@[j]@.len() <= usize::MAX,
            decreases body_writes@.len() - w,
        {
            let off_w = body_offsets[w];
            let data = &body_writes[w];
            store.set_partial_value(key, off_w, data);
            w += 1;
        }
        let index_bytes = encode_shard_index(&entries);
        store.set_partial_value(key, index_offset, &index_bytes);
        Ok(())
    }

    /// Write the elements of a subset of one chunk. A subset covering the
    /// whole chunk is a plain chunk store; otherwise a sharded chunk with
    /// partial encoding enabled is updated in place, and any other chunk is
    /// read, merged and stored back.
    pub fn store_chunk_subset(
        &self,
        store: &mut MemoryStore,
        chunk_indices: &Vec<u64>,
        chunk_subset: &ArraySubset,
        bytes: Vec<u8>,
        options: &CodecOptions,
    ) -> (r: Result<(), ArrayError>)
        requires
            self.wf(),
        ensures
            r is Err ==> final(store).contents() == old(store).contents(),
            ({
                let k = chunk_key_bytes(self.spec_chunk_key_encoding(), chunk_indices@);
                self.spec_codec() is Bytes && chunk_subset.within(self.spec_chunk_shape())
                    && bytes@.len() == chunk_subset.spec_num_elements()
                    * self.spec_data_type().spec_size() && crate::storage::store_key_bytes_valid(
                    k,
                ) && (!old(store).contents().contains_key(k) || old(store).contents()[k].len()
                    == num_elements_of(self.spec_chunk_shape())
                    * self.spec_data_type().spec_size()) ==> r is Ok
            }),
            r is Ok && self.spec_codec() is Bytes && (forall|d: int|
                0 <= d < self.spec_chunk_shape().len() ==> #[trigger] chunk_subset.start@[d] == 0
                    && chunk_subset.shape@[d] == self.spec_chunk_shape()[d]) && !(
            !options.store_empty_chunks && all_fill(bytes@, self.spec_fill_value()))
                ==> final(store).contents() == old(store).contents().insert(
                chunk_key_bytes(self.spec_chunk_key_encoding(), chunk_indices@),
                bytes@,
            ),
    {
        let es = self.data_type.size();
        if chunk_subset.rank() != self.chunk_shape.len() || chunk_subset.start.len()
            != self.chunk_shape.len() {
            return Err(ArrayError::SubsetOutOfBounds);
        }
        let mut d: usize = 0;
        while d < self.chunk_shape.len()
            invariant
                self.wf(),
                store.contents() == old(store).contents(),
                chunk_subset.start@.len() == self.spec_chunk_shape().len(),
                chunk_subset.shape@.len() == self.spec_chunk_shape().len(),
                d <= self.spec_chunk_shape().len(),
                forall|k: int|
                    0 <= k < d ==> chunk_subset.start@[k] + chunk_subset.shape@[k]
                        <= self.spec_chunk_shape()[k],
            decreases self.spec_chunk_shape().len() - d,
        {
            if chunk_subset.shape[d] > u64::MAX - chunk_subset.start[d] || chunk_subset.start[d]
                + chunk_subset.shape[d] > self.chunk_shape[d] {
                return Err(ArrayError::SubsetOutOfBounds);
            }
            d += 1;
        }
        proof {
            assert forall|k: int|
                0 <= k < chunk_subset.start@.len() implies chunk_subset.start@[k]
                + chunk_subset.shape@[k] <= u64::MAX by {
                assert(chunk_subset.start@[k] + chunk_subset.shape@[k]
                    <= self.spec_chunk_shape()[k]);
            }
            assert(chunk_subset.wf());
            assert(chunk_subset.within(self.spec_chunk_shape()));
        }
        proof {
            lemma_num_elements_le(chunk_subset.shape@, self.chunk_shape@);
            let sne = num_elements_of(chunk_subset.shape@) as int;
            let cne = num_elements_of(self.spec_chunk_shape()) as int;
            assert(sne * es <= cne * es) by (nonlinear_arith)
                requires
                    0 <= sne <= cne,
                    es >= 0,
            ;
            assert(sne <= sne * es) by (nonlinear_arith)
                requires
                    es >= 1,
                    sne >= 0,
            ;
            assert(sne <= (usize::MAX as int) / (es as int)) by (nonlinear_arith)
                requires
                    es >= 1,
                    sne * es <= usize::MAX,
            ;
        }
        let subset_ne = match chunk_subset.num_elements() {
            Some(n) => n,
            None => {
                proof {
                    assert(false);
                }
                return Err(ArrayError::Overflow);
            },
        };
        if subset_ne > (usize::MAX as u64) || es == 0 || (subset_ne as usize) > usize::MAX / es {
            proof {
                assert(false);
            }
            return Err(ArrayError::Overflow);
        }
        let expected = (subset_ne as usize) * es;
        if bytes.len() != expected {
            return Err(ArrayError::InvalidBytesLength(bytes.len(), expected));
        }
        if chunk_subset.is_whole(&self.chunk_shape) {
            proof {
                assert(chunk_subset.shape@ =~= self.chunk_shape@);
            }
            return self.store_chunk(store, chunk_indices, bytes, options);
        }
        if options.experimental_partial_encoding {
            let is_sharding = match &self.codec {
                ArrayToBytesCodec::Sharding(_) => true,
                ArrayToBytesCodec::Bytes => false,
            };
            if is_sharding {
                let key = self.chunk_key(chunk_indices)?;
                let cfg = match &self.codec {
                    ArrayToBytesCodec::Sharding(c) => c,
                    ArrayToBytesCodec::Bytes => {
                        return Err(ArrayError::CorruptShard);
                    },
                };
                return self.shard_store_subset(store, cfg, &key, chunk_subset, &bytes, options);
            }
        }
        // decode, merge, re-encode
        let mut chunk = self.retrieve_chunk(store, chunk_indices)?;
        inject_region(&mut chunk, &self.chunk_shape, chunk_subset, &bytes, es);
        self.store_chunk(store, chunk_indices, chunk, options)
    }

    /// Write the elements of an array subset: the subset is decomposed into
    /// per-chunk subsets and each touched chunk is updated.
    pub fn store_array_subset(
        &self,
        store: &mut MemoryStore,
        subset: &ArraySubset,
        bytes: &Vec<u8>,
        options: &CodecOptions,
    ) -> (r: Result<(), ArrayError>)
        requires
            self.wf(),
        ensures
            r is Ok ==> subset.within(self.spec_shape()) && bytes@.len()
                == subset.spec_num_elements() * self.spec_data_type().spec_size(),
    {
        let es = self.data_type.size();
        if subset.rank() != self.shape.len() || subset.start.len() != self.shape.len() {
            return Err(ArrayError::SubsetOutOfBounds);
        }
        let mut d: usize = 0;
        while d < self.shape.len()
            invariant
                self.wf(),
                subset.start@.len() == self.spec_shape().len(),
                subset.shape@.len() == self.spec_shape().len(),
                self.spec_shape().len() == self.spec_chunk_shape().len(),
                d <= self.spec_shape().len(),
                forall|k: int|
                    0 <= k < d ==> subset.start@[k] + subset.shape@[k] <= self.spec_shape()[k],
            decreases self.spec_shape().len() - d,
        {
            if subset.shape[d] > u64::MAX - subset.start[d] || subset.start[d] + subset.shape[d]
                > self.shape[d] {
                return Err(ArrayError::SubsetOutOfBounds);
            }
            d += 1;
        }
        proof {
            assert forall|k: int|
                0 <= k < subset.start@.len() implies subset.start@[k] + subset.shape@[k]
                <= u64::MAX by {
                assert(subset.start@[k] + subset.shape@[k] <= self.spec_shape()[k]);
            }
            assert(subset.wf());
        }
        let subset_ne = match subset.num_elements() {
            Some(n) => n,
            None => {
                return Err(ArrayError::Overflow);
            },
        };
        if subset_ne > (usize::MAX as u64) || es == 0 || (subset_ne as usize) > usize::MAX / es {
            return Err(ArrayError::Overflow);
        }
        let expected = (subset_ne as usize) * es;
        if bytes.len() != expected {
            return Err(ArrayError::InvalidBytesLength(bytes.len(), expected));
        }
        if subset_ne == 0 {
            return Ok(());
        }
        // the range of chunks the subset touches
        let mut first: Vec<u64> = Vec::new();
        let mut counts: Vec<u64> = Vec::new();
        let mut d2: usize = 0;
        while d2 < self.shape.len()
            invariant
                self.wf(),
                subset.wf(),
                subset.start@.len() == self.spec_shape().len(),
                subset.shape@.len() == self.spec_shape().len(),
                self.spec_shape().len() == self.spec_chunk_shape().len(),
                num_elements_of(subset.shape@) > 0,
                d2 <= self.spec_shape().len(),
                first@.len() == d2,
                counts@.len() == d2,
            decreases self.spec_shape().len() - d2,
        {
            proof {
                lemma_num_elements_positive(subset.shape@);
            }
            let c = self.chunk_shape[d2];
            let lo = subset.start[d2] / c;
            let hi = (subset.start[d2] + (subset.shape[d2] - 1)) / c;
            proof {
                let st = subset.start@[d2 as int] as int;
                let sh = subset.shape@[d2 as int] as int;
                let ci = c as int;
                vstd::arithmetic::div_mod::lemma_div_is_ordered(st, st + sh - 1, ci);
                vstd::arithmetic::div_mod::lemma_fundamental_div_mod(st + sh - 1, ci);
                assert((st + sh - 1) / ci <= st + sh - 1) by (nonlinear_arith)
                    requires
                        ci >= 1,
                        st + sh - 1 >= 0,
                        st + sh - 1 == ci * ((st + sh - 1) / ci) + (st + sh - 1) % ci,
                        0 <= (st + sh - 1) % ci,
                ;
            }
            first.push(lo);
            counts.push(hi - lo + 1);
            d2 += 1;
        }
        let nchunks = match checked_num_elements(&counts) {
            Some(n) => n,
            None => {
                return Err(ArrayError::Overflow);
            },
        };
        let mut li: u64 = 0;
        while li < nchunks
            invariant
                self.wf(),
                subset.wf(),
                subset.start@.len() == self.spec_shape().len(),
                subset.shape@.len() == self.spec_shape().len(),
                self.spec_shape().len() == self.spec_chunk_shape().len(),
                bytes@.len() == num_elements_of(subset.shape@) * es,
                bytes@.len() <= usize::MAX,
                es == self.spec_data_type().spec_size(),
                es >= 1,
                first@.len() == self.spec_shape().len(),
                counts@.len() == self.spec_shape().len(),
                nchunks == num_elements_of(counts@),
                li <= nchunks,
            decreases nchunks - li,
        {
            let rel = unravel_index(li, &counts);
            let mut cpos: Vec<u64> = Vec::new();
            let mut cstart: Vec<u64> = Vec::new();
            let mut ok = true;
            let mut d3: usize = 0;
            while d3 < rel.len()
                invariant
                    self.wf(),
                    rel@.len() == counts@.len() == first@.len() == self.spec_chunk_shape().len(),
                    d3 <= rel@.len(),
                    cpos@.len() == d3,
                    cstart@.len() == d3,
                    forall|k: int|
                        0 <= k < d3 ==> #[trigger] cstart@[k] + self.spec_chunk_shape()[k]
                            <= u64::MAX,
                decreases rel@.len() - d3,
            {
                let p = match first[d3].checked_add(rel[d3]) {
                    Some(p) => p,
                    None => {
                        return Err(ArrayError::Overflow);
                    },
                };
                let st = match p.checked_mul(self.chunk_shape[d3]) {
                    Some(s) => s,
                    None => {
                        return Err(ArrayError::Overflow);
                    },
                };
                if st > u64::MAX - self.chunk_shape[d3] {
                    return Err(ArrayError::Overflow);
                }
                cpos.push(p);
                cstart.push(st);
                d3 += 1;
            }
            let chunk_region = ArraySubset { start: cstart, shape: self.chunk_shape.clone() };
            proof {
                assert(chunk_region.shape@ == self.spec_chunk_shape());
                assert(chunk_region.wf());
            }
            match intersect(subset, &chunk_region) {
                Some(inter) => {
                    let rel_chunk = relative_to(&inter, &chunk_region.start);
                    let rel_subset = relative_to(&inter, &subset.start);
                    proof {
                        assert(rel_subset.within(subset.shape@));
                    }
                    let piece = extract_region(bytes, &subset.shape, &rel_subset, es);
                    proof {
                        assert(rel_chunk.spec_num_elements() == rel_subset.spec_num_elements());
                    }
                    self.store_chunk_subset(store, &cpos, &rel_chunk, piece, options)?;
                },
                None => {},
            }
            li += 1;
        }
        Ok(())
    }

    /// Read the elements of an array subset: the subset is decomposed into
    /// per-chunk subsets, each read through the chunk-subset path and
    /// assembled in row-major order over the subset. Elements of chunks
    /// never written are the fill value.
    pub fn retrieve_array_subset(&self, store: &mut MemoryStore, subset: &ArraySubset) -> (r:
        Result<Vec<u8>, ArrayError>)
        requires
            self.wf(),
        ensures
            final(store).contents() == old(store).contents(),
            r matches Ok(v) ==> v@.len() == subset.spec_num_elements()
                * self.spec_data_type().spec_size(),
            r is Ok ==> subset.within(self.spec_shape()),
            r is Ok && old(store).contents() == Map::<Seq<u8>, Seq<u8>>::empty() ==> r->Ok_0@
                == repeat_fill(subset.spec_num_elements(), self.spec_fill_value()),
    {
        let es = self.data_type.size();
        if subset.rank() != self.shape.len() || subset.start.len() != self.shape.len() {
            return Err(ArrayError::SubsetOutOfBounds);
        }
        let mut d: usize = 0;
        while d < self.shape.len()
            invariant
                self.wf(),
                subset.start@.len() == self.spec_shape().len(),
                subset.shape@.len() == self.spec_shape().len(),
                self.spec_shape().len() == self.spec_chunk_shape().len(),
                d <= self.spec_shape().len(),
                forall|k: int|
                    0 <= k < d ==> subset.start@[k] + subset.shape@[k] <= self.spec_shape()[k],
            decreases self.spec_shape().len() - d,
        {
            if subset.shape[d] > u64::MAX - subset.start[d] || subset.start[d] + subset.shape[d]
                > self.shape[d] {
                return Err(ArrayError::SubsetOutOfBounds);
            }
            d += 1;
        }
        proof {
            assert forall|k: int|
                0 <= k < subset.start@.len() implies subset.start@[k] + subset.shape@[k]
                <= u64::MAX by {
                assert(subset.start@[k] + subset.shape@[k] <= self.spec_shape()[k]);
            }
            assert(subset.wf());
        }
        let subset_ne = match subset.num_elements() {
            Some(n) => n,
            None => {
                return Err(ArrayError::Overflow);
            },
        };
        if subset_ne > (usize::MAX as u64) || es == 0 || (subset_ne as usize) > usize::MAX / es {
            return Err(ArrayError::Overflow);
        }
        proof {
            let sne = subset_ne as int;
            assert(sne * es <= ((usize::MAX as int) / (es as int)) * es) by (nonlinear_arith)
                requires
                    es >= 1,
                    0 <= sne <= (usize::MAX as int) / (es as int),
            ;
            assert(((usize::MAX as int) / (es as int)) * es <= usize::MAX) by (nonlinear_arith)
                requires
                    es >= 1,
            ;
        }
        let mut out = fill_buffer(subset_ne as usize, &self.fill_value);
        proof {
            assert(all_fill(out@, self.spec_fill_value()));
        }
        if subset_ne == 0 {
            proof {
                assert(out@ =~= repeat_fill(subset.spec_num_elements(), self.spec_fill_value()));
            }
            return Ok(out);
        }
        let mut first: Vec<u64> = Vec::new();
        let mut counts: Vec<u64> = Vec::new();
        let mut d2: usize = 0;
        while d2 < self.shape.len()
            invariant
                self.wf(),
                subset.wf(),
                subset.start@.len() == self.spec_shape().len(),
                subset.shape@.len() == self.spec_shape().len(),
                self.spec_shape().len() == self.spec_chunk_shape().len(),
                num_elements_of(subset.shape@) > 0,
                d2 <= self.spec_shape().len(),
                first@.len() == d2,
                counts@.len() == d2,
            decreases self.spec_shape().len() - d2,
        {
            proof {
                lemma_num_elements_positive(subset.shape@);
            }
            let c = self.chunk_shape[d2];
            let lo = subset.start[d2] / c;
            let hi = (subset.start[d2] + (subset.shape[d2] - 1)) / c;
            proof {
                let st = subset.start@[d2 as int] as int;
                let sh = subset.shape@[d2 as int] as int;
                let ci = c as int;
                vstd::arithmetic::div_mod::lemma_div_is_ordered(st, st + sh - 1, ci);
                vstd::arithmetic::div_mod::lemma_fundamental_div_mod(st + sh - 1, ci);
                assert((st + sh - 1) / ci <= st + sh - 1) by (nonlinear_arith)
                    requires
                        ci >= 1,
                        st + sh - 1 >= 0,
                        st + sh - 1 == ci * ((st + sh - 1) / ci) + (st + sh - 1) % ci,
                        0 <= (st + sh - 1) % ci,
                ;
            }
            first.push(lo);
            counts.push(hi - lo + 1);
            d2 += 1;
        }
        let nchunks = match checked_num_elements(&counts) {
            Some(n) => n,
            None => {
                return Err(ArrayError::Overflow);
            },
        };
        let mut li: u64 = 0;
        while li < nchunks
            invariant
                self.wf(),
                subset.wf(),
                subset.start@.len() == self.spec_shape().len(),
                subset.shape@.len() == self.spec_shape().len(),
                self.spec_shape().len() == self.spec_chunk_shape().len(),
                out@.len() == num_elements_of(subset.shape@) * es,
                num_elements_of(subset.shape@) * es <= usize::MAX,
                es == self.spec_data_type().spec_size(),
                es >= 1,
                first@.len() == self.spec_shape().len(),
                counts@.len() == self.spec_shape().len(),
                nchunks == num_elements_of(counts@),
                li <= nchunks,
                store.contents() == old(store).contents(),
                self.spec_fill_value().len() == es,
                old(store).contents() == Map::<Seq<u8>, Seq<u8>>::empty() ==> all_fill(
                    out@,
                    self.spec_fill_value(),
                ),
            decreases nchunks - li,
        {
            let rel = unravel_index(li, &counts);
            let mut cpos: Vec<u64> = Vec::new();
            let mut cstart: Vec<u64> = Vec::new();
            let mut d3: usize = 0;
            while d3 < rel.len()
                invariant
                    self.wf(),
                    rel@.len() == counts@.len() == first@.len() == self.spec_chunk_shape().len(),
                    d3 <= rel@.len(),
                    cpos@.len() == d3,
                    cstart@.len() == d3,
                    forall|k: int|
                        0 <= k < d3 ==> #[trigger] cstart@[k] + self.spec_chunk_shape()[k]
                            <= u64::MAX,
                    store.contents() == old(store).contents(),
                decreases rel@.len() - d3,
            {
                let p = match first[d3].checked_add(rel[d3]) {
                    Some(p) => p,
                    None => {
                        return Err(ArrayError::Overflow);
                    },
                };
                let st = match p.checked_mul(self.chunk_shape[d3]) {
                    Some(s) => s,
                    None => {
                        return Err(ArrayError::Overflow);
                    },
                };
                if st > u64::MAX - self.chunk_shape[d3] {
                    return Err(ArrayError::Overflow);
                }
                cpos.push(p);
                cstart.push(st);
                d3 += 1;
            }
            let chunk_region = ArraySubset { start: cstart, shape: self.chunk_shape.clone() };
            proof {
                assert(chunk_region.shape@ == self.spec_chunk_shape());
                assert(chunk_region.wf());
            }
            match intersect(subset, &chunk_region) {
                Some(inter) => {
                    let rel_chunk = relative_to(&inter, &chunk_region.start);
                    let rel_subset = relative_to(&inter, &subset.start);
                    proof {
                        assert(rel_chunk.within(self.spec_chunk_shape()));
                        assert(rel_subset.within(subset.shape@));
                    }
                    let piece = self.retrieve_chunk_subset(store, &cpos, &rel_chunk)?;
                    proof {
                        assert(rel_chunk.spec_num_elements() == rel_subset.spec_num_elements());
                        if old(store).contents() == Map::<Seq<u8>, Seq<u8>>::empty() {
                            assert(!store.contents().contains_key(
                                chunk_key_bytes(self.spec_chunk_key_encoding(), cpos@),
                            ));
                            assert(all_fill(piece@, self.spec_fill_value()));
                        }
                    }
                    inject_region(&mut out, &subset.shape, &rel_subset, &piece, es);
                },
                None => {},
            }
            li += 1;
        }
        proof {
            if old(store).contents() == Map::<Seq<u8>, Seq<u8>>::empty() {
                assert(out@ =~= repeat_fill(subset.spec_num_elements(), self.spec_fill_value()));
            }
        }
        Ok(out)
    }
}

} // verus!
