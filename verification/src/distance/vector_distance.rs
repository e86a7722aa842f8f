//! Squared Euclidean and Manhattan distances between vectors.

use super::VectorDistance;
use crate::types::{difference_squares_symmetric, Float};
use vstd::prelude::*;

verus! {

/// Number of partial sums kept side by side.
const LANES: usize = 8;

/// Squared Euclidean distance between two vectors.
///
/// Accumulates in eight lanes with fused multiply-add; the components past
/// the last full block of eight are added one by one at the end.
pub struct SqEuclidean;

/// Manhattan (L1) distance between two vectors.
///
/// Accumulates in eight lanes; the components past the last full block of
/// eight are added one by one at the end.
pub struct Manhattan;


/// Lane `j` of the squared Euclidean accumulator after `blocks` full blocks
/// of eight components: each step is `diff.mul_add(diff, acc)`.
pub open spec fn sq_lane<F: Float>(a: Seq<F>, b: Seq<F>, j: int, blocks: nat) -> F
    decreases blocks,
{
    if blocks == 0 {
        F::spec_zero()
    } else {
        let t = 8 * (blocks - 1) + j;
        let diff = a[t].spec_minus(b[t]);
        diff.spec_mul_add(diff, sq_lane(a, b, j, (blocks - 1) as nat))
    }
}

/// Lane `j` of the Manhattan accumulator after `blocks` full blocks of eight
/// components: each step is `acc.plus(|diff|)`.
pub open spec fn abs_lane<F: Float>(a: Seq<F>, b: Seq<F>, j: int, blocks: nat) -> F
    decreases blocks,
{
    if blocks == 0 {
        F::spec_zero()
    } else {
        let t = 8 * (blocks - 1) + j;
        abs_lane(a, b, j, (blocks - 1) as nat).spec_plus(a[t].spec_minus(b[t]).spec_abs())
    }
}

/// `zero + lane(0) + ... + lane(k - 1)`, added left to right.
pub open spec fn lanes_sum<F: Float>(lane: spec_fn(int) -> F, k: nat) -> F
    decreases k,
{
    if k == 0 {
        F::spec_zero()
    } else {
        lanes_sum(lane, (k - 1) as nat).spec_plus(lane(k - 1))
    }
}

/// `zero + diff(from)² + ... + diff(to - 1)²`, added left to right.
pub open spec fn sq_tail<F: Float>(a: Seq<F>, b: Seq<F>, from: int, to: int) -> F
    decreases to - from,
{
    if to <= from {
        F::spec_zero()
    } else {
        let diff = a[to - 1].spec_minus(b[to - 1]);
        sq_tail(a, b, from, to - 1).spec_plus(diff.spec_times(diff))
    }
}

/// `zero + |diff(from)| + ... + |diff(to - 1)|`, added left to right.
pub open spec fn abs_tail<F: Float>(a: Seq<F>, b: Seq<F>, from: int, to: int) -> F
    decreases to - from,
{
    if to <= from {
        F::spec_zero()
    } else {
        abs_tail(a, b, from, to - 1).spec_plus(a[to - 1].spec_minus(b[to - 1]).spec_abs())
    }
}

/// The squared Euclidean distance as `SqEuclidean::dist` computes it: the
/// eight lanes over the full blocks summed in order, then, where `d` is not
/// a multiple of eight, the remaining components summed separately and added.
pub open spec fn sq_euclidean<F: Float>(a: Seq<F>, b: Seq<F>, d: nat) -> F {
    let blocks = d / 8;
    let lanes = lanes_sum(|j: int| sq_lane(a, b, j, blocks), 8);
    if d > 8 * blocks {
        lanes.spec_plus(sq_tail(a, b, (8 * blocks) as int, d as int))
    } else {
        lanes
    }
}

/// The Manhattan distance as `Manhattan::dist` computes it, laid out as
/// `sq_euclidean`.
pub open spec fn manhattan<F: Float>(a: Seq<F>, b: Seq<F>, d: nat) -> F {
    let blocks = d / 8;
    let lanes = lanes_sum(|j: int| abs_lane(a, b, j, blocks), 8);
    if d > 8 * blocks {
        lanes.spec_plus(abs_tail(a, b, (8 * blocks) as int, d as int))
    } else {
        lanes
    }
}

/// A lane of the squared Euclidean accumulator does not depend on the order
/// of the two vectors.
pub proof fn lemma_sq_lane_symmetric<F: Float>(a: Seq<F>, b: Seq<F>, j: int, blocks: nat)
    requires
        difference_squares_symmetric::<F>(),
    ensures
        sq_lane(a, b, j, blocks) == sq_lane(b, a, j, blocks),
    decreases blocks,
{
    if blocks > 0 {
        lemma_sq_lane_symmetric(a, b, j, (blocks - 1) as nat);
        let t = 8 * (blocks - 1) + j;
        let acc = sq_lane(a, b, j, (blocks - 1) as nat);
        assert(a[t].spec_minus(b[t]).spec_mul_add(a[t].spec_minus(b[t]), acc) == b[t].spec_minus(a[t]).spec_mul_add(
            b[t].spec_minus(a[t]),
            acc,
        ));
    }
}

/// The remaining components' sum of squares does not depend on the order
/// of the two vectors.
pub proof fn lemma_sq_tail_symmetric<F: Float>(a: Seq<F>, b: Seq<F>, from: int, to: int)
    requires
        difference_squares_symmetric::<F>(),
    ensures
        sq_tail(a, b, from, to) == sq_tail(b, a, from, to),
    decreases to - from,
{
    if to > from {
        lemma_sq_tail_symmetric(a, b, from, to - 1);
        let x = a[to - 1];
        let y = b[to - 1];
        assert(x.spec_minus(y).spec_times(x.spec_minus(y)) == y.spec_minus(x).spec_times(y.spec_minus(x)));
    }
}

/// The squared Euclidean distance as computed is symmetric: swapping the
/// two vectors gives the same value, bit for bit, on a number type whose
/// squared differences do not depend on their order.
pub proof fn lemma_sq_euclidean_symmetric<F: Float>(a: Seq<F>, b: Seq<F>, d: nat)
    requires
        difference_squares_symmetric::<F>(),
    ensures
        sq_euclidean(a, b, d) == sq_euclidean(b, a, d),
{
    let blocks = d / 8;
    assert forall|j: int| sq_lane(a, b, j, blocks) == sq_lane(b, a, j, blocks) by {
        lemma_sq_lane_symmetric(a, b, j, blocks);
    }
    assert((|j: int| sq_lane(a, b, j, blocks)) =~= (|j: int| sq_lane(b, a, j, blocks)));
    lemma_sq_tail_symmetric(a, b, (8 * blocks) as int, d as int);
}

impl VectorDistance for SqEuclidean {

    fn dist<F: Float>(a: &[F], b: &[F], d: usize) -> (r: F)
        ensures
            r == sq_euclidean(a@, b@, d as nat),
    {
        let sd = d - d % LANES;
        let ghost blocks: nat = (d / 8) as nat;
        assert(sd == 8 * blocks);
        let mut vsum: Vec<F> = Vec::new();
        while vsum.len() < LANES
            invariant
                vsum@.len() <= LANES,
                forall|j: int| 0 <= j < vsum@.len() ==> #[trigger] vsum@[j] == F::spec_zero(),
            decreases LANES - vsum@.len(),
        {
            vsum.push(F::zero());
        }
        let mut i: usize = 0;
        let ghost mut blk: nat = 0;
        while i < sd
            invariant
                sd <= d,
                d <= a@.len(),
                d <= b@.len(),
                i <= sd,
                sd == 8 * blocks,
                i == 8 * blk,
                vsum@.len() == LANES,
                forall|j: int| 0 <= j < 8 ==> #[trigger] vsum@[j] == sq_lane(a@, b@, j, blk),
            decreases sd - i,
        {
            let mut j: usize = 0;
            while j < LANES
                invariant
                    sd <= d,
                    d <= a@.len(),
                    d <= b@.len(),
                    i + LANES <= sd,
                    i == 8 * blk,
                    j <= LANES,
                    vsum@.len() == LANES,
                    forall|jj: int|
                        0 <= jj < j ==> #[trigger] vsum@[jj] == sq_lane(a@, b@, jj, blk + 1),
                    forall|jj: int| j <= jj < 8 ==> #[trigger] vsum@[jj] == sq_lane(a@, b@, jj, blk),
                decreases LANES - j,
            {
                let diff = a[i + j].minus(b[i + j]);
                let acc = vsum[j];
                vsum.set(j, diff.mul_add(diff, acc));
                proof {
                    assert(vsum@[j as int] == sq_lane(a@, b@, j as int, blk + 1));
                }
                j = j + 1;
            }
            i = i + LANES;
            proof {
                blk = blk + 1;
            }
        }
        assert(blk == blocks);
        let ghost lane = |j: int| sq_lane(a@, b@, j, blocks);
        let mut sum = F::zero();
        let mut k: usize = 0;
        while k < LANES
            invariant
                k <= LANES,
                vsum@.len() == LANES,
                forall|j: int| 0 <= j < 8 ==> #[trigger] vsum@[j] == sq_lane(a@, b@, j, blocks),
                lane == (|j: int| sq_lane(a@, b@, j, blocks)),
                sum == lanes_sum(lane, k as nat),
            decreases LANES - k,
        {
            sum = sum.plus(vsum[k]);
            k = k + 1;
        }
        if d > sd {
            let mut tail = F::zero();
            let mut t: usize = sd;
            while t < d
                invariant
                    sd <= t <= d,
                    d <= a@.len(),
                    d <= b@.len(),
                    tail == sq_tail(a@, b@, sd as int, t as int),
                decreases d - t,
            {
                let diff = a[t].minus(b[t]);
                tail = tail.plus(diff.times(diff));
                t = t + 1;
            }
            sum = sum.plus(tail);
        }
        sum
    }
}

impl VectorDistance for Manhattan {

    fn dist<F: Float>(a: &[F], b: &[F], d: usize) -> (r: F)
        ensures
            r == manhattan(a@, b@, d as nat),
    {
        let sd = d - d % LANES;
        let ghost blocks: nat = (d / 8) as nat;
        assert(sd == 8 * blocks);
        let mut vsum: Vec<F> = Vec::new();
        while vsum.len() < LANES
            invariant
                vsum@.len() <= LANES,
                forall|j: int| 0 <= j < vsum@.len() ==> #[trigger] vsum@[j] == F::spec_zero(),
            decreases LANES - vsum@.len(),
        {
            vsum.push(F::zero());
        }
        let mut i: usize = 0;
        let ghost mut blk: nat = 0;
        while i < sd
            invariant
                sd <= d,
                d <= a@.len(),
                d <= b@.len(),
                i <= sd,
                sd == 8 * blocks,
                i == 8 * blk,
                vsum@.len() == LANES,
                forall|j: int| 0 <= j < 8 ==> #[trigger] vsum@[j] == abs_lane(a@, b@, j, blk),
            decreases sd - i,
        {
            let mut j: usize = 0;
            while j < LANES
                invariant
                    sd <= d,
                    d <= a@.len(),
                    d <= b@.len(),
                    i + LANES <= sd,
                    i == 8 * blk,
                    j <= LANES,
                    vsum@.len() == LANES,
                    forall|jj: int|
                        0 <= jj < j ==> #[trigger] vsum@[jj] == abs_lane(a@, b@, jj, blk + 1),
                    forall|jj: int| j <= jj < 8 ==> #[trigger] vsum@[jj] == abs_lane(a@, b@, jj, blk),
                decreases LANES - j,
            {
                let diff = a[i + j].minus(b[i + j]).abs();
                let acc = vsum[j];
                vsum.set(j, acc.plus(diff));
                proof {
                    assert(vsum@[j as int] == abs_lane(a@, b@, j as int, blk + 1));
                }
                j = j + 1;
            }
            i = i + LANES;
            proof {
                blk = blk + 1;
            }
        }
        assert(blk == blocks);
        let ghost lane = |j: int| abs_lane(a@, b@, j, blocks);
        let mut sum = F::zero();
        let mut k: usize = 0;
        while k < LANES
            invariant
                k <= LANES,
                vsum@.len() == LANES,
                forall|j: int| 0 <= j < 8 ==> #[trigger] vsum@[j] == abs_lane(a@, b@, j, blocks),
                lane == (|j: int| abs_lane(a@, b@, j, blocks)),
                sum == lanes_sum(lane, k as nat),
            decreases LANES - k,
        {
            sum = sum.plus(vsum[k]);
            k = k + 1;
        }
        if d > sd {
            let mut tail = F::zero();
            let mut t: usize = sd;
            while t < d
                invariant
                    sd <= t <= d,
                    d <= a@.len(),
                    d <= b@.len(),
                    tail == abs_tail(a@, b@, sd as int, t as int),
                decreases d - t,
            {
                tail = tail.plus(a[t].minus(b[t]).abs());
                t = t + 1;
            }
            sum = sum.plus(tail);
        }
        sum
    }
}

} // verus!
