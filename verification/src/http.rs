//! The computational half of an HTTP-backed read-only store: building the
//! `Range` header for a batch of byte ranges, and slicing the server's
//! response back into one buffer per requested range. The transport itself
//! (URLs, requests, status codes) lives outside the verified library.

use vstd::prelude::*;

use crate::array::{decimal_of, push_decimal};
use crate::byte_range::ByteRange;
use crate::storage::{copy_subrange, piece_of, StorageError, StoreKey, StoreKeyRange};

verus! {

/// The `Range` header value bytes for a batch of byte ranges resolved
/// against a total size: `bytes=` followed by `start-last` pairs separated
/// by `, `.
pub open spec fn range_header_bytes(ranges: Seq<ByteRange>, n: u64) -> Seq<u8>
    decreases ranges.len(),
{
    if ranges.len() == 0 {
        seq![98u8, 121u8, 116u8, 101u8, 115u8, 61u8]
    } else {
        let prefix = range_header_bytes(ranges.drop_last(), n);
        let sep: Seq<u8> = if ranges.len() == 1 {
            Seq::empty()
        } else {
            seq![44u8, 32u8]
        };
        prefix + sep + decimal_of(ranges.last().spec_start(n) as nat) + seq![45u8] + decimal_of(
            (ranges.last().spec_end(n) - 1) as nat,
        )
    }
}

/// Build the `Range` header value for a batch of byte ranges, resolved
/// against the resource's total size. Every range must be non-empty: HTTP
/// ranges name their last byte.
pub fn build_range_header(ranges: &Vec<ByteRange>, n: u64) -> (r: Result<Vec<u8>, ()>)
    ensures
        r matches Ok(v) ==> v@ == range_header_bytes(ranges@, n),
        r is Ok <==> (forall|i: int| 0 <= i < ranges@.len() ==> #[trigger] ranges@[i].spec_is_valid(
            n,
        )) && (forall|i: int| 0 <= i < ranges@.len() ==> #[trigger] ranges@[i].spec_length(n) >= 1),
{
    let mut out: Vec<u8> = Vec::new();
    out.push(98);
    out.push(121);
    out.push(116);
    out.push(101);
    out.push(115);
    out.push(61);
    proof {
        assert(out@ =~= range_header_bytes(ranges@.take(0), n));
    }
    let mut i: usize = 0;
    while i < ranges.len()
        invariant
            i <= ranges@.len(),
            out@ == range_header_bytes(ranges@.take(i as int), n),
            forall|j: int| 0 <= j < i ==> #[trigger] ranges@[j].spec_is_valid(n),
            forall|j: int| 0 <= j < i ==> #[trigger] ranges@[j].spec_length(n) >= 1,
        decreases ranges@.len() - i,
    {
        let range = &ranges[i];
        if !range.is_valid(n) {
            return Err(());
        }
        let start = range.start(n);
        let end = range.end(n);
        if end <= start {
            proof {
                assert(ranges@[i as int].spec_length(n) < 1);
            }
            return Err(());
        }
        proof {
            assert(ranges@.take(i + 1).drop_last() =~= ranges@.take(i as int));
            assert(ranges@.take(i + 1).last() == ranges@[i as int]);
        }
        if i > 0 {
            out.push(44);
            out.push(32);
        }
        push_decimal(&mut out, start);
        out.push(45);
        push_decimal(&mut out, end - 1);
        proof {
            assert(out@ =~= range_header_bytes(ranges@.take(i + 1), n));
        }
        i += 1;
    }
    proof {
        assert(ranges@.take(ranges@.len() as int) =~= ranges@);
    }
    Ok(out)
}

/// The sum of the resolved lengths of the first `k` ranges.
pub open spec fn length_sum(ranges: Seq<ByteRange>, n: u64, k: int) -> int
    decreases k,
{
    if k <= 0 {
        0
    } else {
        length_sum(ranges, n, k - 1) + ranges[k - 1].spec_length(n)
    }
}

/// Slice a `206 Partial Content` body — the concatenation of the requested
/// ranges — back into one buffer per range. Fails when the body's length is
/// not the sum of the resolved range lengths, or a range does not resolve
/// against the resource size `n`.
pub fn extract_partial_content(body: &Vec<u8>, ranges: &Vec<ByteRange>, n: u64) -> (r: Result<
    Vec<Vec<u8>>,
    (),
>)
    ensures
        r is Ok <==> (forall|i: int| 0 <= i < ranges@.len() ==> #[trigger] ranges@[i].spec_is_valid(
            n,
        )) && body@.len() == length_sum(ranges@, n, ranges@.len() as int),
        r matches Ok(out) ==> {
            &&& out@.len() == ranges@.len()
            &&& forall|i: int|
                0 <= i < ranges@.len() ==> {
                    &&& #[trigger] ranges@[i].spec_is_valid(n)
                    &&& out@[i]@ == body@.subrange(
                        length_sum(ranges@, n, i),
                        length_sum(ranges@, n, i + 1),
                    )
                }
        },
{
    // bind the body's length once: an exec usize, bounding the ghost length
    let body_len = body.len();
    // resolve all ranges and compute the expected total
    let mut total: usize = 0;
    let mut i: usize = 0;
    while i < ranges.len()
        invariant
            body_len == body@.len(),
            i <= ranges@.len(),
            total == length_sum(ranges@, n, i as int),
            total <= usize::MAX,
            forall|j: int| 0 <= j < i ==> #[trigger] ranges@[j].spec_is_valid(n),
        decreases ranges@.len() - i,
    {
        let range = &ranges[i];
        if !range.is_valid(n) {
            proof {
                assert(!ranges@[i as int].spec_is_valid(n));
            }
            return Err(());
        }
        let len = range.length(n);
        if (len as u128) > (usize::MAX as u128) - (total as u128) {
            // the body, a vector, can never be as long as the resolved sum
            proof {
                if forall|j: int|
                    0 <= j < ranges@.len() ==> #[trigger] ranges@[j].spec_is_valid(n) {
                    lemma_length_sum_lower(ranges@, n, i as int);
                }
            }
            return Err(());
        }
        total = total + (len as usize);
        i += 1;
    }
    if body_len != total {
        return Err(());
    }
    proof {
        assert(body@.len() <= usize::MAX);
    }
    let mut out: Vec<Vec<u8>> = Vec::new();
    let mut at: usize = 0;
    i = 0;
    while i < ranges.len()
        invariant
            i <= ranges@.len(),
            out@.len() == i,
            at == length_sum(ranges@, n, i as int),
            body@.len() == length_sum(ranges@, n, ranges@.len() as int),
            body@.len() <= usize::MAX,
            forall|j: int| 0 <= j < ranges@.len() ==> #[trigger] ranges@[j].spec_is_valid(n),
            forall|j: int|
                0 <= j < i ==> #[trigger] out@[j]@ == body@.subrange(
                    length_sum(ranges@, n, j),
                    length_sum(ranges@, n, j + 1),
                ),
        decreases ranges@.len() - i,
    {
        proof {
            lemma_length_sum_bounds(ranges@, n, i as int, ranges@.len() as int);
            crate::byte_range::lemma_byte_range_resolution(ranges@[i as int], n);
            assert(at + ranges@[i as int].spec_length(n) <= body@.len());
            assert(body@.len() <= usize::MAX);
        }
        let range = &ranges[i];
        let len = range.length(n) as usize;
        let piece = copy_subrange(body, at, at + len);
        out.push(piece);
        at = at + len;
        i += 1;
    }
    Ok(out)
}

/// The final length sum dominates any partial sum plus its next range's
/// length, when the remaining ranges are valid.
pub proof fn lemma_length_sum_lower(ranges: Seq<ByteRange>, n: u64, i: int)
    requires
        0 <= i < ranges.len(),
        forall|j: int| i <= j < ranges.len() ==> #[trigger] ranges[j].spec_is_valid(n),
    ensures
        length_sum(ranges, n, ranges.len() as int) >= length_sum(ranges, n, i) + ranges[
            i].spec_length(n),
    decreases ranges.len() - i,
{
    crate::byte_range::lemma_byte_range_resolution(ranges[i], n);
    if i + 1 == ranges.len() {
    } else {
        lemma_length_sum_lower(ranges, n, i + 1);
        crate::byte_range::lemma_byte_range_resolution(ranges[i + 1], n);
    }
}

/// Partial length sums are monotone and bounded by the total.
pub proof fn lemma_length_sum_bounds(ranges: Seq<ByteRange>, n: u64, i: int, total: int)
    requires
        0 <= i < total <= ranges.len(),
        forall|j: int| 0 <= j < ranges.len() ==> #[trigger] ranges[j].spec_is_valid(n),
    ensures
        0 <= length_sum(ranges, n, i),
        length_sum(ranges, n, i) + ranges[i].spec_length(n) == length_sum(ranges, n, i + 1),
        length_sum(ranges, n, i + 1) <= length_sum(ranges, n, total),
    decreases total - i,
{
    lemma_length_sum_nonneg(ranges, n, i);
    crate::byte_range::lemma_byte_range_resolution(ranges[i], n);
    if i + 1 < total {
        crate::byte_range::lemma_byte_range_resolution(ranges[i + 1], n);
        lemma_length_sum_bounds(ranges, n, i + 1, total);
    }
}

/// A partial length sum of valid ranges is non-negative.
pub proof fn lemma_length_sum_nonneg(ranges: Seq<ByteRange>, n: u64, i: int)
    requires
        i <= ranges.len(),
        forall|j: int| 0 <= j < ranges.len() ==> #[trigger] ranges[j].spec_is_valid(n),
    ensures
        0 <= length_sum(ranges, n, i),
    decreases i,
{
    if i > 0 {
        lemma_length_sum_nonneg(ranges, n, i - 1);
        crate::byte_range::lemma_byte_range_resolution(ranges[i - 1], n);
    }
}

/// Slice a `200 OK` body — the whole resource — into one buffer per
/// requested range: the engine slices locally when the server ignores the
/// range request. Fails when the body is not the full resource or a range
/// does not resolve.
pub fn extract_full_content(body: &Vec<u8>, ranges: &Vec<ByteRange>, n: u64) -> (r: Result<
    Vec<Vec<u8>>,
    (),
>)
    ensures
        r is Ok <==> body@.len() == n && (forall|i: int|
            0 <= i < ranges@.len() ==> #[trigger] ranges@[i].spec_is_valid(n)),
        r matches Ok(out) ==> {
            &&& out@.len() == ranges@.len()
            &&& forall|i: int|
                0 <= i < ranges@.len() ==> piece_of(#[trigger] out@[i]@, body@, ranges@[i])
        },
{
    if (body.len() as u64) != n {
        return Err(());
    }
    proof {
        assert(body@.len() <= usize::MAX);
    }
    let mut out: Vec<Vec<u8>> = Vec::new();
    let mut i: usize = 0;
    while i < ranges.len()
        invariant
            body@.len() == n,
            body@.len() <= usize::MAX,
            i <= ranges@.len(),
            out@.len() == i,
            forall|j: int| 0 <= j < i ==> #[trigger] ranges@[j].spec_is_valid(n),
            forall|j: int| 0 <= j < i ==> piece_of(#[trigger] out@[j]@, body@, ranges@[j]),
        decreases ranges@.len() - i,
    {
        let range = &ranges[i];
        if !range.is_valid(n) {
            proof {
                assert(!ranges@[i as int].spec_is_valid(n));
            }
            return Err(());
        }
        proof {
            crate::byte_range::lemma_byte_range_resolution(ranges@[i as int], n);
        }
        let start = range.start(n) as usize;
        let end = range.end(n) as usize;
        let piece = copy_subrange(body, start, end);
        proof {
            assert(piece_of(piece@, body@, ranges@[i as int]));
        }
        out.push(piece);
        proof {
            assert(out@[i as int]@ == piece@);
        }
        i += 1;
    }
    Ok(out)
}

/// When a server honours a batched range request, slicing the partial
/// content equals slicing the full resource locally: if the body is the
/// concatenation of the requested ranges of the full content, the pieces
/// recovered from it are exactly the ranges of the full content.
pub proof fn lemma_partial_equals_full(
    full: Seq<u8>,
    body: Seq<u8>,
    ranges: Seq<ByteRange>,
    n: u64,
    partial_out: Seq<Seq<u8>>,
    full_out: Seq<Seq<u8>>,
)
    requires
        full.len() == n,
        forall|j: int| 0 <= j < ranges.len() ==> #[trigger] ranges[j].spec_is_valid(n),
        body.len() == length_sum(ranges, n, ranges.len() as int),
        // the server concatenated the requested ranges of the full resource
        forall|j: int|
            0 <= j < ranges.len() ==> #[trigger] body.subrange(
                length_sum(ranges, n, j),
                length_sum(ranges, n, j + 1),
            ) == full.subrange(ranges[j].spec_start(n), ranges[j].spec_end(n)),
        // what the two extraction paths returned, per their contracts
        partial_out.len() == ranges.len(),
        forall|j: int|
            0 <= j < ranges.len() ==> #[trigger] partial_out[j] == body.subrange(
                length_sum(ranges, n, j),
                length_sum(ranges, n, j + 1),
            ),
        full_out.len() == ranges.len(),
        forall|j: int| 0 <= j < ranges.len() ==> piece_of(#[trigger] full_out[j], full, ranges[j]),
    ensures
        partial_out == full_out,
{
    assert forall|j: int| 0 <= j < ranges.len() implies partial_out[j] == full_out[j] by {
        assert(full_out[j] == full.subrange(ranges[j].spec_start(n), ranges[j].spec_end(n)));
    }
    assert(partial_out =~= full_out);
}

/// A maximal run of consecutive ranged reads of one key, to travel as one
/// batched range request.
pub struct KeyRangeGroup {
    /// The key the run reads.
    pub key: StoreKey,
    /// The byte ranges of the run, in their original order.
    pub ranges: Vec<ByteRange>,
}

/// The number of ranges in the first `g` groups.
pub open spec fn group_prefix_count(groups: Seq<KeyRangeGroup>, g: int) -> int
    decreases g,
{
    if g <= 0 {
        0
    } else {
        group_prefix_count(groups, g - 1) + groups[g - 1].ranges@.len()
    }
}

/// Split a sequence of keyed byte ranges into maximal runs of consecutive
/// equal keys, keeping the order: the groups' ranges, concatenated, are the
/// input's ranges, each under its own key, and no two consecutive groups
/// share a key.
pub fn group_key_ranges(key_ranges: &Vec<StoreKeyRange>) -> (r: Vec<KeyRangeGroup>)
    ensures
        group_prefix_count(r@, r@.len() as int) == key_ranges@.len(),
        forall|g: int| 0 <= g < r@.len() ==> #[trigger] r@[g].ranges@.len() >= 1,
        forall|g: int| 0 < g < r@.len() ==> #[trigger] r@[g].key@ != r@[g - 1].key@,
        forall|g: int, j: int|
            0 <= g < r@.len() && 0 <= j < r@[g].ranges@.len() ==> {
                &&& key_ranges@[group_prefix_count(r@, g) + j].key@ == #[trigger] r@[g].key@
                &&& key_ranges@[group_prefix_count(r@, g) + j].byte_range == #[trigger] r@[
                    g].ranges@[j]
            },
{
    let mut out: Vec<KeyRangeGroup> = Vec::new();
    let mut i: usize = 0;
    while i < key_ranges.len()
        invariant
            i <= key_ranges@.len(),
            group_prefix_count(out@, out@.len() as int) == i,
            i == 0 ==> out@.len() == 0,
            i > 0 ==> out@.len() >= 1,
            i > 0 ==> out@.last().key@ == key_ranges@[i - 1].key@,
            forall|g: int| 0 <= g < out@.len() ==> #[trigger] out@[g].ranges@.len() >= 1,
            forall|g: int| 0 < g < out@.len() ==> #[trigger] out@[g].key@ != out@[g - 1].key@,
            forall|g: int, j: int|
                0 <= g < out@.len() && 0 <= j < out@[g].ranges@.len() ==> {
                    &&& key_ranges@[group_prefix_count(out@, g) + j].key@ == #[trigger] out@[
                        g].key@
                    &&& key_ranges@[group_prefix_count(out@, g) + j].byte_range
                        == #[trigger] out@[g].ranges@[j]
                },
        decreases key_ranges@.len() - i,
    {
        let item = &key_ranges[i];
        let ghost old_out = out@;
        let mut appended = false;
        if i > 0 {
            let last_idx = out.len() - 1;
            if out[last_idx].key.key_equals(&item.key) {
                let mut group = out.pop().unwrap();
                let ghost old_group_ranges = group.ranges@;
                group.ranges.push(item.byte_range);
                out.push(group);
                appended = true;
                proof {
                    assert(out@.len() == old_out.len());
                    assert(forall|g: int| 0 <= g < out@.len() - 1 ==> out@[g] == old_out[g]);
                    lemma_group_prefix_same(old_out, out@, out@.len() - 1);
                    assert(out@.last().ranges@ == old_group_ranges.push(item.byte_range));
                    assert(group_prefix_count(out@, out@.len() as int) == group_prefix_count(
                        out@,
                        out@.len() - 1,
                    ) + out@.last().ranges@.len());
                }
            }
        }
        if !appended {
            let mut ranges: Vec<ByteRange> = Vec::new();
            ranges.push(item.byte_range);
            out.push(KeyRangeGroup { key: item.key.duplicate(), ranges });
            proof {
                assert(out@.drop_last() =~= old_out);
                lemma_group_prefix_same(out@.drop_last(), out@, out@.len() - 1);
            }
        }
        i += 1;
    }
    out
}

/// Prefix counts depend only on the groups before the cut.
proof fn lemma_group_prefix_same(a: Seq<KeyRangeGroup>, b: Seq<KeyRangeGroup>, g: int)
    requires
        0 <= g <= a.len(),
        g <= b.len(),
        forall|k: int| 0 <= k < g ==> a[k] == b[k],
    ensures
        forall|k: int| 0 <= k <= g ==> group_prefix_count(a, k) == group_prefix_count(b, k),
    decreases g,
{
    if g > 0 {
        lemma_group_prefix_same(a, b, g - 1);
        assert(group_prefix_count(a, g) == group_prefix_count(a, g - 1) + a[g - 1].ranges@.len());
        assert(group_prefix_count(b, g) == group_prefix_count(b, g - 1) + b[g - 1].ranges@.len());
    }
}

/// The URL bytes of a store key under a base URL: the base, a slash, and
/// the key's path. A well-formed store key never starts with a slash, so no
/// stripping is needed.
pub fn key_url_bytes(base: &Vec<u8>, key: &StoreKey) -> (r: Vec<u8>)
    ensures
        r@ == base@ + seq![47u8] + key@,
{
    let mut out: Vec<u8> = Vec::new();
    let mut i: usize = 0;
    while i < base.len()
        invariant
            i <= base@.len(),
            out@ == base@.take(i as int),
        decreases base@.len() - i,
    {
        proof {
            assert(base@.take(i + 1) =~= base@.take(i as int).push(base@[i as int]));
        }
        out.push(base[i]);
        i += 1;
    }
    proof {
        assert(base@.take(base@.len() as int) =~= base@);
    }
    out.push(47);
    let key_bytes = key.as_bytes();
    let mut j: usize = 0;
    while j < key_bytes.len()
        invariant
            key_bytes@ == key@,
            j <= key@.len(),
            out@ == base@ + seq![47u8] + key@.take(j as int),
        decreases key@.len() - j,
    {
        proof {
            assert(base@ + seq![47u8] + key@.take(j + 1) =~= (base@ + seq![47u8] + key@.take(
                j as int,
            )).push(key@[j as int]));
        }
        out.push(key_bytes[j]);
        j += 1;
    }
    proof {
        assert(key@.take(key@.len() as int) =~= key@);
        assert(out@ =~= base@ + seq![47u8] + key@);
    }
    out
}

/// The number a sequence of decimal digit bytes denotes.
pub open spec fn decimal_value_of(s: Seq<u8>) -> int
    decreases s.len(),
{
    if s.len() == 0 {
        0
    } else {
        decimal_value_of(s.drop_last()) * 10 + (s.last() - 48)
    }
}

/// Whether every byte of a sequence is an ASCII decimal digit.
pub open spec fn all_decimal_digits(s: Seq<u8>) -> bool {
    forall|i: int| 0 <= i < s.len() ==> 48 <= #[trigger] s[i] <= 57
}

/// Parse a decimal content length. Returns the denoted number when the
/// bytes are one or more decimal digits and the value fits in `u64`, and
/// nothing otherwise.
pub fn parse_content_length(bytes: &Vec<u8>) -> (r: Option<u64>)
    ensures
        r matches Some(v) ==> {
            &&& bytes@.len() > 0
            &&& all_decimal_digits(bytes@)
            &&& v == decimal_value_of(bytes@)
        },
        r is None ==> bytes@.len() == 0 || !all_decimal_digits(bytes@) || decimal_value_of(bytes@)
            > u64::MAX,
{
    if bytes.len() == 0 {
        return None;
    }
    let mut value: u64 = 0;
    let mut i: usize = 0;
    while i < bytes.len()
        invariant
            bytes@.len() > 0,
            i <= bytes@.len(),
            value == decimal_value_of(bytes@.take(i as int)),
            forall|j: int| 0 <= j < i ==> 48 <= #[trigger] bytes@[j] <= 57,
        decreases bytes@.len() - i,
    {
        let b = bytes[i];
        if b < 48 || b > 57 {
            proof {
                assert(!(48 <= bytes@[i as int] <= 57));
            }
            return None;
        }
        proof {
            assert(bytes@.take(i + 1).drop_last() =~= bytes@.take(i as int));
            assert(bytes@.take(i + 1).last() == bytes@[i as int]);
        }
        if value > (u64::MAX - ((b - 48) as u64)) / 10 {
            proof {
                if all_decimal_digits(bytes@) {
                    assert(decimal_value_of(bytes@.take(i + 1)) > u64::MAX) by (nonlinear_arith)
                        requires
                            decimal_value_of(bytes@.take(i + 1)) == (value as int) * 10 + (
                            bytes@[i as int] - 48),
                            value > ((u64::MAX - (bytes@[i as int] - 48)) as int) / 10,
                            48 <= bytes@[i as int] <= 57,
                    ;
                    lemma_decimal_value_grows(bytes@, i as int);
                }
            }
            return None;
        }
        value = value * 10 + ((b - 48) as u64);
        i += 1;
    }
    proof {
        assert(bytes@.take(bytes@.len() as int) =~= bytes@);
    }
    Some(value)
}

/// A longer digit string never denotes a smaller number.
proof fn lemma_decimal_value_grows(s: Seq<u8>, i: int)
    requires
        0 <= i < s.len(),
        forall|j: int| 0 <= j < s.len() ==> 48 <= #[trigger] s[j] <= 57,
    ensures
        decimal_value_of(s) >= decimal_value_of(s.take(i + 1)),
        decimal_value_of(s.take(i + 1)) >= 0,
    decreases s.len() - i,
{
    lemma_decimal_value_nonneg(s.take(i + 1));
    if i + 1 == s.len() {
        assert(s.take(i + 1) =~= s);
    } else {
        lemma_decimal_value_grows(s, i + 1);
        assert(s.take(i + 2).drop_last() =~= s.take(i + 1));
        assert(s.take(i + 2).last() == s[i + 1]);
        let a = decimal_value_of(s.take(i + 1));
        assert(decimal_value_of(s.take(i + 2)) == a * 10 + (s[i + 1] - 48));
        assert(a * 10 >= a) by (nonlinear_arith)
            requires
                a >= 0,
        ;
    }
}

/// Digit strings denote non-negative numbers.
proof fn lemma_decimal_value_nonneg(s: Seq<u8>)
    requires
        forall|j: int| 0 <= j < s.len() ==> 48 <= #[trigger] s[j] <= 57,
    ensures
        decimal_value_of(s) >= 0,
    decreases s.len(),
{
    if s.len() > 0 {
        assert(forall|j: int| 0 <= j < s.len() - 1 ==> 48 <= #[trigger] s.drop_last()[j] <= 57);
        lemma_decimal_value_nonneg(s.drop_last());
        let a = decimal_value_of(s.drop_last());
        assert(a * 10 >= 0) by (nonlinear_arith)
            requires
                a >= 0,
        ;
    }
}

/// Fan a batched ranged-read outcome out to one result per requested range:
/// on success each range gets its piece; on failure each range gets the
/// error, with a missing key reported as missing and any other failure as a
/// plain message.
pub fn replicate_per_range(
    outcome: Result<Vec<Vec<u8>>, StorageError>,
    count: usize,
    message: Vec<u8>,
) -> (r: Vec<Result<Vec<u8>, StorageError>>)
    requires
        outcome matches Ok(pieces) ==> pieces@.len() == count,
    ensures
        r@.len() == count,
        outcome matches Ok(pieces) ==> forall|i: int|
            0 <= i < count ==> (#[trigger] r@[i] matches Ok(v) && v@ == pieces@[i]@),
        outcome matches Err(e) && e is KeyNotFound ==> forall|i: int|
            0 <= i < count ==> (#[trigger] r@[i] matches Err(e2) && e2 is KeyNotFound),
        outcome matches Err(e) && !(e is KeyNotFound) ==> forall|i: int|
            0 <= i < count ==> (#[trigger] r@[i] matches Err(e2) && e2 is Other),
{
    let mut out: Vec<Result<Vec<u8>, StorageError>> = Vec::new();
    match outcome {
        Ok(mut pieces) => {
            let ghost pieces_at_entry = pieces@;
            let mut i: usize = 0;
            while i < count
                invariant
                    pieces@.len() == count - i,
                    pieces@ =~= pieces_at_entry.skip(i as int),
                    pieces_at_entry.len() == count,
                    i <= count,
                    out@.len() == i,
                    forall|j: int|
                        0 <= j < i ==> (#[trigger] out@[j] matches Ok(v) && v@
                            == pieces_at_entry[j]@),
                decreases count - i,
            {
                let piece = pieces.remove(0);
                proof {
                    assert(piece@ == pieces_at_entry[i as int]@);
                    assert(pieces@ =~= pieces_at_entry.skip(i + 1));
                }
                out.push(Ok(piece));
                i += 1;
            }
        },
        Err(err) => {
            let not_found = match &err {
                StorageError::KeyNotFound(_) => true,
                _ => false,
            };
            let mut i: usize = 0;
            while i < count
                invariant
                    i <= count,
                    out@.len() == i,
                    not_found == err is KeyNotFound,
                    err is KeyNotFound ==> forall|j: int|
                        0 <= j < i ==> (#[trigger] out@[j] matches Err(e2) && e2 is KeyNotFound),
                    !(err is KeyNotFound) ==> forall|j: int|
                        0 <= j < i ==> (#[trigger] out@[j] matches Err(e2) && e2 is Other),
                decreases count - i,
            {
                if not_found {
                    let k = match &err {
                        StorageError::KeyNotFound(k) => k.duplicate(),
                        _ => {
                            proof {
                                assert(false);
                            }
                            return out;
                        },
                    };
                    out.push(Err(StorageError::KeyNotFound(k)));
                } else {
                    out.push(Err(StorageError::Other(message.clone())));
                }
                i += 1;
            }
        },
    }
    out
}

/// An error creating an HTTP store.
#[derive(Debug)]
pub enum HTTPStoreCreateError {
    /// An I/O error, with its message.
    IOError(String),
    /// The base URL is not valid.
    InvalidBaseURL(String),
}

} // verus!
