//! Hyperrectangular subsets of an n-dimensional array, and the row-major
//! indexing arithmetic that the chunk and shard machinery is built on.

use vstd::prelude::*;

verus! {

/// The number of elements of an n-dimensional shape: the product of its
/// dimension extents.
pub open spec fn num_elements_of(shape: Seq<u64>) -> nat
    decreases shape.len(),
{
    if shape.len() == 0 {
        1
    } else {
        num_elements_of(shape.drop_last()) * (shape.last() as nat)
    }
}

/// The row-major linear index of a position within a shape (the last
/// dimension varies fastest).
pub open spec fn linear_index_of(pos: Seq<u64>, shape: Seq<u64>) -> int
    decreases shape.len(),
{
    if shape.len() == 0 {
        0
    } else {
        linear_index_of(pos.drop_last(), shape.drop_last()) * (shape.last() as int)
            + (pos.last() as int)
    }
}

/// Whether a position lies within a shape in every dimension.
pub open spec fn pos_within(pos: Seq<u64>, shape: Seq<u64>) -> bool {
    &&& pos.len() == shape.len()
    &&& forall|d: int| 0 <= d < shape.len() ==> pos[d] < shape[d]
}

/// A shape with at least one element has every dimension positive, and
/// conversely.
pub proof fn lemma_num_elements_positive(shape: Seq<u64>)
    ensures
        num_elements_of(shape) > 0 <==> (forall|d: int| 0 <= d < shape.len() ==> shape[d] > 0),
    decreases shape.len(),
{
    if shape.len() > 0 {
        lemma_num_elements_positive(shape.drop_last());
        let a = num_elements_of(shape.drop_last()) as int;
        let c = shape.last() as int;
        assert(num_elements_of(shape) == a * c);
        assert(a * c > 0 <==> (a > 0 && c > 0)) by (nonlinear_arith)
            requires
                a >= 0,
                c >= 0,
        ;
        assert(forall|d: int|
            0 <= d < shape.len() - 1 ==> #[trigger] shape.drop_last()[d] == shape[d]);
        if a > 0 && c > 0 {
            assert(forall|d: int| 0 <= d < shape.len() ==> shape[d] > 0) by {
                assert(forall|d: int|
                    0 <= d < shape.len() - 1 ==> #[trigger] shape[d] == shape.drop_last()[d]);
            }
        }
    }
}

/// The linear index of a position within a shape is below the number of
/// elements of the shape.
pub proof fn lemma_linear_index_bound(pos: Seq<u64>, shape: Seq<u64>)
    requires
        pos_within(pos, shape),
    ensures
        0 <= linear_index_of(pos, shape) < num_elements_of(shape),
    decreases shape.len(),
{
    if shape.len() > 0 {
        assert(pos_within(pos.drop_last(), shape.drop_last())) by {
            assert(forall|d: int|
                0 <= d < shape.len() - 1 ==> pos.drop_last()[d] == pos[d]
                    && shape.drop_last()[d] == shape[d]);
        }
        lemma_linear_index_bound(pos.drop_last(), shape.drop_last());
        let li = linear_index_of(pos.drop_last(), shape.drop_last());
        let ne = num_elements_of(shape.drop_last()) as int;
        let s = shape.last() as int;
        let p = pos.last() as int;
        assert(li * s + p < ne * s) by (nonlinear_arith)
            requires
                0 <= li < ne,
                0 <= p < s,
        ;
    }
}

/// An n-dimensional hyperrectangle: a start position and a shape of the same
/// rank.
#[derive(Clone, Debug)]
pub struct ArraySubset {
    /// The position of the first element of the subset in each dimension.
    pub start: Vec<u64>,
    /// The extent of the subset in each dimension.
    pub shape: Vec<u64>,
}

impl ArraySubset {
    /// Well-formed: start and shape have the same rank and the subset's end
    /// does not overflow.
    pub open spec fn wf(self) -> bool {
        &&& self.start@.len() == self.shape@.len()
        &&& forall|d: int|
            0 <= d < self.start@.len() ==> self.start@[d] + self.shape@[d] <= u64::MAX
    }

    /// The rank of the subset.
    pub open spec fn spec_rank(self) -> nat {
        self.shape@.len()
    }

    /// The number of elements the subset covers.
    pub open spec fn spec_num_elements(self) -> nat {
        num_elements_of(self.shape@)
    }

    /// Whether the subset lies entirely within an array of the given shape.
    pub open spec fn within(self, outer: Seq<u64>) -> bool {
        &&& self.wf()
        &&& self.spec_rank() == outer.len()
        &&& forall|d: int|
            0 <= d < outer.len() ==> self.start@[d] + self.shape@[d] <= outer[d]
    }

    /// Create a subset from a start position and a shape of the same rank.
    pub fn new_with_start_shape(start: Vec<u64>, shape: Vec<u64>) -> (r: Option<ArraySubset>)
        ensures
            r matches Some(s) ==> s.wf() && s.start@ == start@ && s.shape@ == shape@,
            r is None <==> !(ArraySubset { start, shape }).wf(),
    {
        if start.len() != shape.len() {
            return None;
        }
        let mut d: usize = 0;
        while d < start.len()
            invariant
                start@.len() == shape@.len(),
                d <= start@.len(),
                forall|k: int| 0 <= k < d ==> start@[k] + shape@[k] <= u64::MAX,
            decreases start@.len() - d,
        {
            if shape[d] > u64::MAX - start[d] {
                return None;
            }
            d += 1;
        }
        Some(ArraySubset { start, shape })
    }

    /// Create a subset covering `start..end` in each dimension.
    pub fn new_with_ranges(ranges: &Vec<(u64, u64)>) -> (r: Option<ArraySubset>)
        ensures
            r matches Some(s) ==> {
                &&& s.wf()
                &&& s.spec_rank() == ranges@.len()
                &&& forall|d: int|
                    0 <= d < ranges@.len() ==> s.start@[d] == ranges@[d].0 && s.start@[d]
                        + s.shape@[d] == ranges@[d].1
            },
            r is None <==> exists|d: int| 0 <= d < ranges@.len() && ranges@[d].0 > ranges@[d].1,
    {
        let mut start: Vec<u64> = Vec::new();
        let mut shape: Vec<u64> = Vec::new();
        let mut d: usize = 0;
        while d < ranges.len()
            invariant
                d <= ranges@.len(),
                start@.len() == d,
                shape@.len() == d,
                forall|k: int|
                    0 <= k < d ==> start@[k] == ranges@[k].0 && start@[k] + shape@[k]
                        == ranges@[k].1,
                forall|k: int| 0 <= k < d ==> ranges@[k].0 <= ranges@[k].1,
            decreases ranges@.len() - d,
        {
            let (lo, hi) = ranges[d];
            if lo > hi {
                return None;
            }
            start.push(lo);
            shape.push(hi - lo);
            d += 1;
        }
        Some(ArraySubset { start, shape })
    }

    /// The rank of the subset.
    pub fn rank(&self) -> (r: usize)
        ensures
            r == self.spec_rank(),
    {
        self.shape.len()
    }

    /// The number of elements the subset covers, if it fits in `u64`.
    pub fn num_elements(&self) -> (r: Option<u64>)
        ensures
            r matches Some(n) ==> n == self.spec_num_elements(),
            r is None ==> self.spec_num_elements() > u64::MAX,
    {
        checked_num_elements(&self.shape)
    }

    /// Whether the subset covers exactly an array of the given shape (starts
    /// at the origin and spans every dimension fully).
    pub fn is_whole(&self, outer: &Vec<u64>) -> (r: bool)
        ensures
            r == (self.start@.len() == outer@.len() && self.shape@.len() == outer@.len() && (
            forall|d: int| 0 <= d < outer@.len() ==> self.start@[d] == 0) && (forall|d: int|
                0 <= d < outer@.len() ==> self.shape@[d] == outer@[d])),
    {
        if self.shape.len() != outer.len() || self.start.len() != outer.len() {
            return false;
        }
        let mut d: usize = 0;
        while d < outer.len()
            invariant
                self.start@.len() == outer@.len(),
                self.shape@.len() == outer@.len(),
                d <= outer@.len(),
                forall|k: int| 0 <= k < d ==> self.start@[k] == 0,
                forall|k: int| 0 <= k < d ==> self.shape@[k] == outer@[k],
            decreases outer@.len() - d,
        {
            if self.start[d] != 0 {
                return false;
            }
            if self.shape[d] != outer[d] {
                return false;
            }
            d += 1;
        }
        true
    }
}

/// The product of a shape's extents, if it fits in `u64`.
pub fn checked_num_elements(shape: &Vec<u64>) -> (r: Option<u64>)
    ensures
        r matches Some(n) ==> n == num_elements_of(shape@),
        r is None ==> num_elements_of(shape@) > u64::MAX,
{
    let mut d: usize = 0;
    while d < shape.len()
        invariant
            d <= shape@.len(),
            forall|k: int| 0 <= k < d ==> shape@[k] > 0,
        decreases shape@.len() - d,
    {
        if shape[d] == 0 {
            proof {
                lemma_num_elements_positive(shape@);
            }
            return Some(0);
        }
        d += 1;
    }
    proof {
        lemma_num_elements_positive(shape@);
    }
    let mut n: u64 = 1;
    d = 0;
    while d < shape.len()
        invariant
            d <= shape@.len(),
            forall|k: int| 0 <= k < shape@.len() ==> shape@[k] > 0,
            n == num_elements_of(shape@.take(d as int)),
        decreases shape@.len() - d,
    {
        proof {
            assert(shape@.take(d + 1).drop_last() =~= shape@.take(d as int));
            assert(shape@.take(d + 1).last() == shape@[d as int]);
        }
        let next = n.checked_mul(shape[d]);
        match next {
            Some(m) => {
                n = m;
            },
            None => {
                proof {
                    lemma_num_elements_take_mono(shape@, d + 1);
                    lemma_num_elements_positive(shape@.skip(d + 1));
                    assert(forall|k: int|
                        0 <= k < shape@.skip(d + 1).len() ==> #[trigger] shape@.skip(d + 1)[k]
                            == shape@[k + d + 1]);
                    let big = num_elements_of(shape@.take(d + 1)) as int;
                    let rest = num_elements_of(shape@.skip(d + 1)) as int;
                    assert(big > u64::MAX);
                    assert(big * rest >= big) by (nonlinear_arith)
                        requires
                            big >= 0,
                            rest >= 1,
                    ;
                }
                return None;
            },
        }
        d += 1;
    }
    proof {
        assert(shape@.take(shape@.len() as int) =~= shape@);
    }
    Some(n)
}

/// The number of elements of a prefix of a shape divides — and so never
/// exceeds, once positive — the number of elements of the whole shape.
pub proof fn lemma_num_elements_take_mono(shape: Seq<u64>, d: int)
    requires
        0 <= d <= shape.len(),
    ensures
        num_elements_of(shape) == num_elements_of(shape.take(d)) * num_elements_of(shape.skip(d)),
    decreases shape.len() - d,
{
    if d == shape.len() {
        assert(shape.take(d) =~= shape);
        assert(shape.skip(d) =~= Seq::<u64>::empty());
        assert(num_elements_of(shape) == num_elements_of(shape.take(d)) * 1);
    } else {
        lemma_num_elements_take_mono(shape.drop_last(), d);
        assert(shape.drop_last().take(d) =~= shape.take(d));
        assert(shape.skip(d).drop_last() =~= shape.drop_last().skip(d));
        assert(shape.skip(d).last() == shape.last());
        let a = num_elements_of(shape.take(d)) as int;
        let b = num_elements_of(shape.drop_last().skip(d)) as int;
        let c = shape.last() as int;
        assert(num_elements_of(shape) == (a * b) * c);
        assert(num_elements_of(shape.skip(d)) == b * c);
        assert((a * b) * c == a * (b * c)) by (nonlinear_arith);
    }
}

/// The row-major linear index of a position within a shape.
///
/// Requires the position to lie within the shape and the shape's element
/// count to fit in `u64`; the result is then below that count.
pub fn linear_index(pos: &Vec<u64>, shape: &Vec<u64>) -> (r: u64)
    requires
        pos_within(pos@, shape@),
        num_elements_of(shape@) <= u64::MAX,
    ensures
        r == linear_index_of(pos@, shape@),
        r < num_elements_of(shape@),
{
    let mut acc: u64 = 0;
    let mut d: usize = 0;
    while d < shape.len()
        invariant
            pos_within(pos@, shape@),
            num_elements_of(shape@) <= u64::MAX,
            d <= shape@.len(),
            acc == linear_index_of(pos@.take(d as int), shape@.take(d as int)),
            acc < num_elements_of(shape@.take(d as int)),
        decreases shape@.len() - d,
    {
        proof {
            assert(shape@.take(d + 1).drop_last() =~= shape@.take(d as int));
            assert(pos@.take(d + 1).drop_last() =~= pos@.take(d as int));
            assert(shape@.take(d + 1).last() == shape@[d as int]);
            assert(pos@.take(d + 1).last() == pos@[d as int]);
            lemma_num_elements_take_mono(shape@, d + 1);
            lemma_num_elements_positive(shape@.skip(d + 1));
            assert(pos_within(pos@, shape@));
            assert(forall|k: int| 0 <= k < shape@.len() ==> pos@[k] < shape@[k]);
            assert(num_elements_of(shape@.skip(d + 1)) >= 1) by {
                assert(forall|k: int|
                    0 <= k < shape@.skip(d + 1).len() ==> #[trigger] shape@.skip(d + 1)[k]
                        == shape@[k + d + 1]);
            }
            let a = acc as int;
            let ne = num_elements_of(shape@.take(d as int)) as int;
            let s = shape@[d as int] as int;
            let p = pos@[d as int] as int;
            let rest = num_elements_of(shape@.skip(d + 1)) as int;
            assert(a * s + p < ne * s) by (nonlinear_arith)
                requires
                    0 <= a < ne,
                    0 <= p < s,
            ;
            assert(ne * s == num_elements_of(shape@.take(d + 1)));
            assert(num_elements_of(shape@) == num_elements_of(shape@.take(d + 1)) * rest);
            assert(ne * s <= num_elements_of(shape@)) by (nonlinear_arith)
                requires
                    rest >= 1,
                    ne * s >= 0,
                    num_elements_of(shape@) == ne * s * rest,
            ;
        }
        acc = acc * shape[d] + pos[d];
        d += 1;
    }
    proof {
        assert(shape@.take(shape@.len() as int) =~= shape@);
        assert(pos@.take(shape@.len() as int) =~= pos@);
    }
    acc
}

/// Two positions within a shape with the same row-major linear index are
/// the same position.
pub proof fn lemma_linear_index_injective(p1: Seq<u64>, p2: Seq<u64>, shape: Seq<u64>)
    requires
        pos_within(p1, shape),
        pos_within(p2, shape),
        linear_index_of(p1, shape) == linear_index_of(p2, shape),
    ensures
        p1 == p2,
    decreases shape.len(),
{
    if shape.len() == 0 {
        assert(p1 =~= p2);
    } else {
        assert(forall|d: int|
            0 <= d < shape.len() - 1 ==> #[trigger] p1.drop_last()[d] == p1[d]
                && p2.drop_last()[d] == p2[d] && shape.drop_last()[d] == shape[d]);
        assert(pos_within(p1.drop_last(), shape.drop_last()));
        assert(pos_within(p2.drop_last(), shape.drop_last()));
        let a1 = linear_index_of(p1.drop_last(), shape.drop_last());
        let a2 = linear_index_of(p2.drop_last(), shape.drop_last());
        let sl = shape.last() as int;
        let b1 = p1.last() as int;
        let b2 = p2.last() as int;
        assert(a1 * sl + b1 == a2 * sl + b2);
        assert(a1 == a2 && b1 == b2) by (nonlinear_arith)
            requires
                a1 * sl + b1 == a2 * sl + b2,
                0 <= b1 < sl,
                0 <= b2 < sl,
        ;
        lemma_linear_index_injective(p1.drop_last(), p2.drop_last(), shape.drop_last());
        assert forall|d: int| 0 <= d < p1.len() implies p1[d] == p2[d] by {
            if d < p1.len() - 1 {
                assert(p1.drop_last()[d] == p1[d]);
                assert(p2.drop_last()[d] == p2[d]);
            } else {
                assert(p1[d] == p1.last());
                assert(p2[d] == p2.last());
            }
        }
        assert(p1 =~= p2);
    }
}

/// The number of elements of a shape, decomposed at its first dimension.
pub proof fn lemma_num_elements_front(shape: Seq<u64>)
    requires
        shape.len() > 0,
    ensures
        num_elements_of(shape) == (shape[0] as int) * num_elements_of(shape.skip(1)),
    decreases shape.len(),
{
    if shape.len() == 1 {
        assert(shape.drop_last() =~= Seq::<u64>::empty());
        assert(shape.skip(1) =~= Seq::<u64>::empty());
        assert(num_elements_of(Seq::<u64>::empty()) == 1);
        assert(num_elements_of(shape) == num_elements_of(shape.drop_last()) * (
        shape.last() as nat));
        assert(shape[0] == shape.last());
        assert(num_elements_of(shape.drop_last()) == 1);
        assert(num_elements_of(shape.skip(1)) == 1);
        assert(num_elements_of(shape) == 1 * (shape.last() as nat));
        assert(num_elements_of(shape) == shape.last() as int);
        assert((shape[0] as int) * num_elements_of(shape.skip(1)) == (shape[0] as int) * 1);
        assert(num_elements_of(shape) == (shape[0] as int) * num_elements_of(shape.skip(1)));
    } else {
        lemma_num_elements_front(shape.drop_last());
        assert(num_elements_of(shape) == num_elements_of(shape.drop_last()) * (
        shape.last() as nat));
        assert(num_elements_of(shape.skip(1)) == num_elements_of(shape.skip(1).drop_last()) * (
        shape.skip(1).last() as nat));
        assert(shape.drop_last()[0] == shape[0]);
        assert(shape.drop_last().skip(1) =~= shape.skip(1).drop_last());
        assert(shape.skip(1).last() == shape.last());
        let a = shape[0] as int;
        let b = num_elements_of(shape.skip(1).drop_last()) as int;
        let c = shape.last() as int;
        assert(num_elements_of(shape) == (a * b) * c);
        assert((a * b) * c == a * (b * c)) by (nonlinear_arith);
        assert(num_elements_of(shape.skip(1)) == b * c);
        assert(num_elements_of(shape) == (shape[0] as int) * num_elements_of(shape.skip(1)));
    }
}

/// The linear index of a position, decomposed at its first dimension.
pub proof fn lemma_linear_index_front(pos: Seq<u64>, shape: Seq<u64>)
    requires
        pos.len() == shape.len(),
        shape.len() > 0,
    ensures
        linear_index_of(pos, shape) == (pos[0] as int) * num_elements_of(shape.skip(1))
            + linear_index_of(pos.skip(1), shape.skip(1)),
    decreases shape.len(),
{
    if shape.len() == 1 {
        assert(shape.skip(1) =~= Seq::<u64>::empty());
        assert(pos.skip(1) =~= Seq::<u64>::empty());
        assert(pos.drop_last() =~= Seq::<u64>::empty());
        assert(shape.drop_last() =~= Seq::<u64>::empty());
        assert(num_elements_of(Seq::<u64>::empty()) == 1);
        assert(linear_index_of(Seq::<u64>::empty(), Seq::<u64>::empty()) == 0);
        assert(pos[0] == pos.last() && shape[0] == shape.last());
    } else {
        lemma_linear_index_front(pos.drop_last(), shape.drop_last());
        lemma_num_elements_front(shape.drop_last());
        assert(linear_index_of(pos, shape) == linear_index_of(pos.drop_last(), shape.drop_last())
            * (shape.last() as int) + (pos.last() as int));
        assert(linear_index_of(pos.skip(1), shape.skip(1)) == linear_index_of(
            pos.skip(1).drop_last(),
            shape.skip(1).drop_last(),
        ) * (shape.skip(1).last() as int) + (pos.skip(1).last() as int));
        assert(num_elements_of(shape.skip(1)) == num_elements_of(shape.skip(1).drop_last()) * (
        shape.skip(1).last() as nat));
        assert(pos.drop_last()[0] == pos[0]);
        assert(shape.drop_last().skip(1) =~= shape.skip(1).drop_last());
        assert(pos.drop_last().skip(1) =~= pos.skip(1).drop_last());
        assert(shape.skip(1).last() == shape.last());
        assert(pos.skip(1).last() == pos.last());
        let p0 = pos[0] as int;
        let b = num_elements_of(shape.skip(1).drop_last()) as int;
        let c = shape.last() as int;
        let lp = linear_index_of(pos.skip(1).drop_last(), shape.skip(1).drop_last());
        assert(linear_index_of(pos, shape) == (p0 * b + lp) * c + (pos.last() as int));
        assert((p0 * b + lp) * c == p0 * (b * c) + lp * c) by (nonlinear_arith);
    }
}

/// The position with the given row-major linear index within a shape.
#[verifier::rlimit(60)]
pub fn unravel_index(index: u64, shape: &Vec<u64>) -> (r: Vec<u64>)
    requires
        index < num_elements_of(shape@),
    ensures
        pos_within(r@, shape@),
        linear_index_of(r@, shape@) == index,
{
    proof {
        lemma_num_elements_positive(shape@);
        assert(shape@.take(shape@.len() as int) =~= shape@);
        assert(shape@.skip(shape@.len() as int) =~= Seq::<u64>::empty());
        assert(num_elements_of(Seq::<u64>::empty()) == 1);
        assert(linear_index_of(Seq::<u64>::empty(), Seq::<u64>::empty()) == 0);
    }
    let mut pos: Vec<u64> = Vec::new();
    let mut d: usize = shape.len();
    let mut rem: u64 = index;
    while d > 0
        invariant
            index < num_elements_of(shape@),
            forall|k: int| 0 <= k < shape@.len() ==> shape@[k] > 0,
            d <= shape@.len(),
            pos@.len() == shape@.len() - d,
            forall|k: int| 0 <= k < pos@.len() ==> pos@[k] < shape@[d + k],
            rem < num_elements_of(shape@.take(d as int)),
            index == (rem as int) * num_elements_of(shape@.skip(d as int)) + linear_index_of(
                pos@,
                shape@.skip(d as int),
            ),
        decreases d,
    {
        let ghost old_pos = pos@;
        let ghost old_rem = rem as int;
        let s = shape[d - 1];
        let q = rem / s;
        let m = rem % s;
        pos.insert(0, m);
        rem = q;
        d -= 1;
        proof {
            let ne = num_elements_of(shape@.take(d + 1)) as int;
            let nep = num_elements_of(shape@.take(d as int)) as int;
            assert(shape@.take(d + 1).drop_last() =~= shape@.take(d as int));
            assert(shape@.take(d + 1).last() == shape@[d as int]);
            assert(ne == nep * (s as int));
            assert((old_rem / (s as int)) < nep) by (nonlinear_arith)
                requires
                    s > 0,
                    0 <= old_rem < nep * (s as int),
            ;
            vstd::arithmetic::div_mod::lemma_fundamental_div_mod(old_rem, s as int);
            // the new position sequence is m prepended to the old one
            assert(pos@[0] == m);
            assert(pos@.skip(1) =~= old_pos);
            assert(shape@.skip(d as int)[0] == shape@[d as int]);
            assert(shape@.skip(d as int).skip(1) =~= shape@.skip(d + 1));
            lemma_linear_index_front(pos@, shape@.skip(d as int));
            lemma_num_elements_front(shape@.skip(d as int));
            let rest = num_elements_of(shape@.skip(d + 1)) as int;
            let lin_old = linear_index_of(old_pos, shape@.skip(d + 1));
            assert(index == old_rem * rest + lin_old);
            assert(old_rem == (s as int) * (q as int) + (m as int));
            assert(((s as int) * (q as int) + (m as int)) * rest == (q as int) * ((s as int)
                * rest) + (m as int) * rest) by (nonlinear_arith);
            assert(num_elements_of(shape@.skip(d as int)) == (s as int) * rest);
            assert(linear_index_of(pos@, shape@.skip(d as int)) == (m as int) * rest + lin_old);
        }
    }
    proof {
        assert(shape@.skip(0) =~= shape@);
        assert(num_elements_of(shape@.take(0)) == 1);
        assert(rem == 0);
        assert(forall|k: int| 0 <= k < pos@.len() ==> pos@[k] < shape@[k]);
    }
    pos
}

} // verus!
