//! The search for blocks without texture.
use crate::equations::EquationSystem;
use crate::kernels::{is_product, linsolve_gives, product, Kernels};
use crate::matrix::{copied, filled};
use crate::plane::{lemma_place_bound, Plane};
use crate::scalar::{
    binary, clamped, count, denotes, is_below, is_rank, is_zero, lemma_total_push, maximum, minus,
    mul_add, over, plus, ratio, times, total, unary, value, BinaryOp, Formula, Scalar, Term, UnaryOp,
};
use crate::strength::at_most;
use crate::{BLOCK_SIZE, BLOCK_SIZE_SQUARED};
use vstd::multiset::Multiset;
use vstd::prelude::*;

verus! {

/// The number of parameters of a plane that is fitted to a block.
pub const LOW_POLY_NUM_PARAMS: usize = 3;

/// The number of pixels of a block that have all their neighbours in it.
pub const NUM_INNER: usize = 900;

/// Finds the blocks of a plane in which there is little but noise.
#[derive(Debug)]
pub struct FlatBlockFinder<T> {
    /// For each pixel of a block, its row and column relative to the centre, and one.
    pub a: Vec<T>,
    /// The inverse of the normal matrix of `a`.
    pub a_t_a_inv: Vec<T>,
}

impl<T> FlatBlockFinder<T> {
    /// The matrices have their sizes.
    pub open spec fn wf(self) -> bool {
        &&& self.a.len() == LOW_POLY_NUM_PARAMS * BLOCK_SIZE_SQUARED
        &&& self.a_t_a_inv.len() == LOW_POLY_NUM_PARAMS * LOW_POLY_NUM_PARAMS
    }
}

impl<T: Copy> Clone for FlatBlockFinder<T> {
    /// A finder with the same matrices.
    fn clone(&self) -> (f: Self)
        ensures
            f.a@ == self.a@,
            f.a_t_a_inv@ == self.a_t_a_inv@,
    {
        FlatBlockFinder { a: copied(&self.a), a_t_a_inv: copied(&self.a_t_a_inv) }
    }
}

/// Where row or column `k` of a block lies relative to the centre.
pub open spec fn centered<T>(k: int) -> Formula<T> {
    over(minus(count(k as usize), count(16)), count(16))
}

/// Entry number `k` of the position matrix: of each pixel of a block, the row, the column,
/// and one.
pub open spec fn position_entry<T>(k: int) -> Formula<T> {
    let pixel = k / 3;
    if k % 3 == 0 {
        centered(pixel / (BLOCK_SIZE as int))
    } else if k % 3 == 1 {
        centered(pixel % (BLOCK_SIZE as int))
    } else {
        count(1)
    }
}

/// Whether `a` holds, for each pixel of a block, its position and one.
pub open spec fn is_position_matrix<T: Scalar>(a: Seq<T>) -> bool {
    &&& a.len() == LOW_POLY_NUM_PARAMS * BLOCK_SIZE_SQUARED
    &&& forall|k: int| 0 <= k < a.len() ==> denotes(position_entry(k), #[trigger] a[k])
}

/// The products of columns `i` and `j` of `a` in its first `rows` rows.
pub open spec fn normal_terms<T>(a: Seq<T>, i: int, j: int, rows: int) -> Seq<Formula<T>> {
    Seq::new(rows as nat, |r: int| times(value(a[3 * r + i]), value(a[3 * r + j])))
}

/// Whether `m` is the normal matrix of `a`.
pub open spec fn is_normal_matrix<T: Scalar>(a: Seq<T>, m: Seq<T>) -> bool {
    &&& m.len() == 9
    &&& forall|k: int|
        0 <= k < 9 ==> denotes(
            total(count(0), normal_terms(a, k / 3, k % 3, BLOCK_SIZE_SQUARED as int)),
            #[trigger] m[k],
        )
}

/// Whether `b` is zero but for a one at place `i`.
pub open spec fn is_unit<T: Scalar>(b: Seq<T>, i: int) -> bool {
    &&& b.len() == 3
    &&& forall|k: int|
        0 <= k < 3 ==> denotes(
            count(if k == i {
                1
            } else {
                0
            }),
            #[trigger] b[k],
        )
}

/// Whether solving for column `i` of the inverse of `m` can lead from `x` to `y`. A
/// solution of the wrong length is not taken over.
pub open spec fn is_inverse_column<T: Kernels>(m: Seq<T>, i: int, x: Seq<T>, y: Seq<T>) -> bool {
    exists|b: Seq<T>, z: Seq<T>, ok: bool|
        {
            &&& is_unit(b, i)
            &&& #[trigger] linsolve_gives(3, m, b, x, z, ok)
            &&& y == if z.len() == 3 {
                z
            } else {
                x
            }
        }
}

/// The first, the second or the third of three columns.
pub open spec fn pick<T>(i: int, y0: Seq<T>, y1: Seq<T>, y2: Seq<T>) -> Seq<T> {
    if i == 0 {
        y0
    } else if i == 1 {
        y1
    } else {
        y2
    }
}

/// Whether `inv` is the inverse of `m`, column by column.
pub open spec fn is_inverse<T: Kernels>(m: Seq<T>, inv: Seq<T>) -> bool {
    &&& inv.len() == 9
    &&& exists|x: Seq<T>, y0: Seq<T>, y1: Seq<T>, y2: Seq<T>|
        {
            &&& x.len() == 3
            &&& forall|k: int| 0 <= k < 3 ==> is_zero(#[trigger] x[k])
            &&& #[trigger] is_inverse_column(m, 0, x, y0)
            &&& #[trigger] is_inverse_column(m, 1, y0, y1)
            &&& #[trigger] is_inverse_column(m, 2, y1, y2)
            &&& forall|k: int| 0 <= k < 9 ==> #[trigger] inv[k] == pick(k % 3, y0, y1, y2)[k / 3]
        }
}

/// Whether the finder fits planes by least squares.
pub open spec fn is_plane_fitter<T: Kernels>(f: FlatBlockFinder<T>) -> bool {
    &&& is_position_matrix(f.a@)
    &&& exists|m: Seq<T>| #[trigger] is_normal_matrix(f.a@, m) && is_inverse(m, f.a_t_a_inv@)
}

/// The number of blocks that cover `size` pixels.
pub open spec fn blocks_over(size: usize) -> int {
    (size + BLOCK_SIZE - 1) / (BLOCK_SIZE as int)
}

/// The number of blocks that cover a plane.
pub open spec fn num_blocks(plane: Plane<u8>) -> int {
    blocks_over(plane.geometry.width) * blocks_over(plane.geometry.height)
}

/// Pixel number `k` of the block at `offset_x`, `offset_y`; beyond the plane, the pixel
/// at its edge.
pub open spec fn block_pixel(plane: Plane<u8>, offset_x: int, offset_y: int, k: int) -> u8 {
    plane.pixel(
        at_most(offset_x + k % (BLOCK_SIZE as int), plane.geometry.width - 1),
        at_most(offset_y + k / (BLOCK_SIZE as int), plane.geometry.height - 1),
    )
}

/// Whether `raw` holds the pixels of a block, as intensities from zero to one.
pub open spec fn are_intensities<T: Scalar>(
    plane: Plane<u8>,
    offset_x: int,
    offset_y: int,
    raw: Seq<T>,
) -> bool {
    &&& raw.len() == BLOCK_SIZE_SQUARED
    &&& forall|k: int|
        0 <= k < raw.len() ==> denotes(
            over(count(block_pixel(plane, offset_x, offset_y, k) as usize), count(255)),
            #[trigger] raw[k],
        )
}

/// Whether `fit` is the plane that fits the intensities best.
pub open spec fn is_plane_fit<T: Kernels>(
    f: FlatBlockFinder<T>,
    raw: Seq<T>,
    fit: Seq<T>,
) -> bool {
    exists|c: Seq<T>, p: Seq<T>|
        {
            &&& #[trigger] is_product(raw, f.a@, 1, BLOCK_SIZE_SQUARED, 3, c)
            &&& #[trigger] is_product(f.a_t_a_inv@, c, 3, 3, 1, p)
            &&& is_product(f.a@, p, BLOCK_SIZE_SQUARED, 3, 1, fit)
        }
}

/// Whether `block` holds the intensities of a block less the plane that fits them best.
pub open spec fn is_extracted<T: Kernels>(
    f: FlatBlockFinder<T>,
    plane: Plane<u8>,
    offset_x: int,
    offset_y: int,
    block: Seq<T>,
) -> bool {
    exists|raw: Seq<T>, fit: Seq<T>|
        {
            &&& are_intensities(plane, offset_x, offset_y, raw)
            &&& #[trigger] is_plane_fit(f, raw, fit)
            &&& is_difference(raw, fit, block)
        }
}

/// Whether `d` is `a - b`, entry by entry.
pub open spec fn is_difference<T: Scalar>(a: Seq<T>, b: Seq<T>, d: Seq<T>) -> bool {
    &&& d.len() == a.len()
    &&& forall|k: int|
        0 <= k < d.len() ==> denotes(minus(value(a[k]), value(b[k])), #[trigger] d[k])
}

/// The place in the block of inner pixel number `m`.
pub open spec fn inner(m: int) -> int {
    (m / 30 + 1) * BLOCK_SIZE + m % 30 + 1
}

/// The horizontal gradient at inner pixel number `m`.
pub open spec fn gradient_x<T>(b: Seq<T>, m: int) -> Formula<T> {
    over(minus(value(b[inner(m) + 1]), value(b[inner(m) - 1])), count(2))
}

/// The vertical gradient at inner pixel number `m`.
pub open spec fn gradient_y<T>(b: Seq<T>, m: int) -> Formula<T> {
    over(minus(value(b[inner(m) + BLOCK_SIZE]), value(b[inner(m) - BLOCK_SIZE])), count(2))
}

/// What is summed up over the inner pixels of a block.
pub enum Moment {
    GradientXX,
    GradientXY,
    GradientYY,
    Intensity,
    IntensitySquared,
}

/// What inner pixel number `m` contributes to a moment.
pub open spec fn moment_term<T>(b: Seq<T>, what: Moment, m: int) -> Formula<T> {
    match what {
        Moment::GradientXX => times(gradient_x(b, m), gradient_x(b, m)),
        Moment::GradientXY => times(gradient_x(b, m), gradient_y(b, m)),
        Moment::GradientYY => times(gradient_y(b, m), gradient_y(b, m)),
        Moment::Intensity => value(b[inner(m)]),
        Moment::IntensitySquared => times(value(b[inner(m)]), value(b[inner(m)])),
    }
}

/// What the first `m` inner pixels contribute to a moment.
pub open spec fn moment_terms<T>(b: Seq<T>, what: Moment, m: int) -> Seq<Formula<T>> {
    Seq::new(m as nat, |i: int| moment_term(b, what, i))
}

/// The sum over the first `m` inner pixels.
pub open spec fn partial_moment<T>(b: Seq<T>, what: Moment, m: int) -> Formula<T> {
    total(count(0), moment_terms(b, what, m))
}

/// A moment of a block: the mean over the inner pixels.
pub open spec fn moment<T>(b: Seq<T>, what: Moment) -> Formula<T> {
    over(partial_moment(b, what, NUM_INNER as int), count(NUM_INNER))
}

/// The variance of the intensities.
pub open spec fn variance<T>(b: Seq<T>) -> Formula<T> {
    let mean = moment(b, Moment::Intensity);
    mul_add(mean, unary(UnaryOp::Negated, mean), moment(b, Moment::IntensitySquared))
}

/// The trace of the gradient covariance matrix.
pub open spec fn gradient_trace<T>(b: Seq<T>) -> Formula<T> {
    plus(moment(b, Moment::GradientXX), moment(b, Moment::GradientYY))
}

/// The determinant of the gradient covariance matrix.
pub open spec fn gradient_det<T>(b: Seq<T>) -> Formula<T> {
    mul_add(
        moment(b, Moment::GradientXX),
        moment(b, Moment::GradientYY),
        unary(UnaryOp::Negated, unary(UnaryOp::Squared, moment(b, Moment::GradientXY))),
    )
}

/// The distance of the two eigenvalues of the gradient covariance matrix.
pub open spec fn eigenvalue_gap<T>(b: Seq<T>) -> Formula<T> {
    let trace = gradient_trace(b);
    unary(
        UnaryOp::SquareRoot,
        maximum(mul_add(trace, trace, times(ratio((-4) as i64, 1), gradient_det(b))), count(0)),
    )
}

/// The larger eigenvalue of the gradient covariance matrix: its spectral norm.
pub open spec fn spectral_norm<T>(b: Seq<T>) -> Formula<T> {
    binary(BinaryOp::Midpoint, gradient_trace(b), eigenvalue_gap(b))
}

/// How much stronger the gradient is along one direction than across it.
pub open spec fn eigenvalue_ratio<T>(b: Seq<T>) -> Formula<T> {
    over(
        spectral_norm(b),
        maximum(over(minus(gradient_trace(b), eigenvalue_gap(b)), count(2)), ratio(1, 1_000_000)),
    )
}

/// A threshold, scaled down to a pixel.
pub open spec fn per_pixel<T>(num: i64, den: i64) -> Formula<T> {
    over(ratio(num, den), count(BLOCK_SIZE_SQUARED))
}

/// How flat a block is, from zero to one: a sigmoid function of a weighted sum of the
/// features.
pub open spec fn flatness<T>(b: Seq<T>) -> Formula<T> {
    let sum = mul_add(
        ratio((-12434) as i64, 1),
        spectral_norm(b),
        mul_add(
            count(13087),
            gradient_trace(b),
            mul_add(
                ratio((-6682) as i64, 1),
                variance(b),
                mul_add(ratio((-2056) as i64, 10_000), eigenvalue_ratio(b), ratio(25_694, 10_000)),
            ),
        ),
    );
    let bounded = clamped(sum, ratio((-25) as i64, 1), count(100));
    over(
        count(1),
        plus(count(1), unary(UnaryOp::Exponential, unary(UnaryOp::Negated, bounded))),
    )
}

/// Whether testing if `f` is below `g`, and then, if it is, for what gives `rest`, can come
/// to the verdict `all`.
pub open spec fn and_below<T: Scalar>(
    f: Formula<T>,
    g: Formula<T>,
    rest: spec_fn(bool) -> bool,
    all: bool,
) -> bool {
    exists|first: bool|
        {
            &&& #[trigger] is_below(f, g, first)
            &&& if first {
                rest(all)
            } else {
                !all
            }
        }
}

/// Whether a block can be found to be flat or not: its gradients are small and have no
/// direction, and it is not without noise.
pub open spec fn is_flat_verdict<T: Scalar>(b: Seq<T>, flat: bool) -> bool {
    and_below(
        gradient_trace(b),
        per_pixel(15, 100),
        |c: bool|
            and_below(
                eigenvalue_ratio(b),
                ratio(125, 100),
                |d: bool|
                    and_below(
                        spectral_norm(b),
                        per_pixel(8, 100),
                        |e: bool| is_below(per_pixel(5, 1_000), variance(b), e),
                        d,
                    ),
                c,
            ),
        flat,
    )
}

/// Whether the flatness of a block can have the ordering key `rank`. It is zero for a block
/// without noise.
pub open spec fn is_score<T: Scalar>(b: Seq<T>, rank: u32) -> bool {
    exists|noisy: bool|
        {
            &&& #[trigger] is_below(per_pixel(5, 1_000), variance(b), noisy)
            &&& is_rank(
                if noisy {
                    flatness(b)
                } else {
                    count(0)
                },
                rank,
            )
        }
}

/// Whether block number `index` of a plane can be found to be `flat`, and its flatness to
/// have the ordering key `rank`.
pub open spec fn is_block_scored<T: Kernels>(
    f: FlatBlockFinder<T>,
    plane: Plane<u8>,
    index: int,
    flat: bool,
    rank: u32,
) -> bool {
    let across = blocks_over(plane.geometry.width);
    exists|block: Seq<T>|
        {
            &&& #[trigger] is_extracted(
                f,
                plane,
                (index % across) * BLOCK_SIZE,
                (index / across) * BLOCK_SIZE,
                block,
            )
            &&& is_flat_verdict(block, flat)
            &&& is_score(block, rank)
        }
}

/// How many of the first `n` keys are below `t`.
pub open spec fn num_below(ranks: Seq<u32>, t: int, n: int) -> int
    decreases n,
{
    if n <= 0 {
        0
    } else {
        num_below(ranks, t, n - 1) + if ranks[n - 1] < t {
            1int
        } else {
            0
        }
    }
}

/// Whether `t` is the key at place `k` when the keys are put in order.
pub open spec fn is_order_statistic(ranks: Seq<u32>, k: int, t: int) -> bool {
    num_below(ranks, t, ranks.len() as int) <= k < num_below(ranks, t + 1, ranks.len() as int)
}

/// The mark of a block: all bits if it is flat, else the lowest if it is among the flattest.
pub open spec fn mark(flat: bool, top: bool) -> u8 {
    if flat {
        255
    } else if top {
        1
    } else {
        0
    }
}

/// How many of the first `n` marks are set.
pub open spec fn num_marked(marks: Seq<u8>, n: int) -> int
    decreases n,
{
    if n <= 0 {
        0
    } else {
        num_marked(marks, n - 1) + if marks[n - 1] != 0 {
            1int
        } else {
            0
        }
    }
}

/// Whether the blocks are marked that are flat or whose flatness is in the top tenth, and
/// `num_flat` is their number.
pub open spec fn are_marked(
    flats: Seq<bool>,
    ranks: Seq<u32>,
    marks: Seq<u8>,
    num_flat: int,
) -> bool {
    let n = ranks.len() as int;
    &&& marks.len() == n
    &&& num_flat == num_marked(marks, n)
    &&& exists|t: int|
        {
            &&& #[trigger] is_order_statistic(ranks, n * 90 / 100, t)
            &&& forall|i: int|
                0 <= i < n ==> #[trigger] marks[i] == mark(flats[i], ranks[i] >= t)
        }
}

/// Whether `marks` and `num_flat` can be the outcome of the search in a plane.
pub open spec fn is_flat_map<T: Kernels>(
    f: FlatBlockFinder<T>,
    plane: Plane<u8>,
    marks: Seq<u8>,
    num_flat: int,
) -> bool {
    exists|flats: Seq<bool>, ranks: Seq<u32>|
        {
            &&& flats.len() == num_blocks(plane)
            &&& ranks.len() == num_blocks(plane)
            &&& forall|i: int|
                0 <= i < flats.len() ==> is_block_scored(
                    f,
                    plane,
                    i,
                    #[trigger] flats[i],
                    ranks[i],
                )
            &&& #[trigger] are_marked(flats, ranks, marks, num_flat)
        }
}

/// A larger bound has at least as many keys below it.
proof fn lemma_num_below_monotone(ranks: Seq<u32>, s: int, t: int, n: int)
    requires
        s <= t,
        n <= ranks.len(),
    ensures
        0 <= num_below(ranks, s, n) <= num_below(ranks, t, n),
        n >= 0 ==> num_below(ranks, t, n) <= n,
    decreases n,
{
    if n > 0 {
        lemma_num_below_monotone(ranks, s, t, n - 1);
    }
}

/// The key at a place in the order is determined by the keys.
pub proof fn law_order_statistic_is_unique(ranks: Seq<u32>, k: int, s: int, t: int)
    requires
        is_order_statistic(ranks, k, s),
        is_order_statistic(ranks, k, t),
    ensures
        s == t,
{
    let n = ranks.len() as int;
    if s < t {
        lemma_num_below_monotone(ranks, s + 1, t, n);
    } else if t < s {
        lemma_num_below_monotone(ranks, t + 1, s, n);
    }
}

/// The key at a place in the order is the entry there when the keys have been sorted.
pub proof fn law_order_statistic_of_sorted(ranks: Seq<u32>, sorted: Seq<u32>, k: int)
    requires
        sorted.to_multiset() == ranks.to_multiset(),
        forall|i: int, j: int| 0 <= i <= j < sorted.len() ==> sorted[i] <= sorted[j],
        0 <= k < ranks.len(),
    ensures
        is_order_statistic(ranks, k, sorted[k] as int),
{
    ranks.to_multiset_ensures();
    sorted.to_multiset_ensures();
    lemma_num_below_of_sorted(sorted, k, sorted.len() as int);
    lemma_num_below_is_count(ranks, sorted[k] as int);
    lemma_num_below_is_count(sorted, sorted[k] as int);
    lemma_num_below_is_count(ranks, sorted[k] + 1);
    lemma_num_below_is_count(sorted, sorted[k] + 1);
}

/// How many keys are below a bound does not depend on their order.
proof fn lemma_num_below_is_count(ranks: Seq<u32>, t: int)
    ensures
        num_below(ranks, t, ranks.len() as int) == ranks.to_multiset().filter(
            |r: u32| r < t,
        ).len(),
    decreases ranks.len(),
{
    broadcast use vstd::seq_lib::group_to_multiset_ensures;

    let f = |r: u32| r < t;
    if ranks.len() == 0 {
        assert(ranks.to_multiset().filter(f) =~= Multiset::empty());
    } else {
        let rest = ranks.drop_last();
        let last = ranks.last();
        lemma_num_below_is_count(rest, t);
        lemma_num_below_prefix(rest, ranks, t, rest.len() as int);
        assert(ranks =~= rest.push(last));
        let m = rest.to_multiset();
        if f(last) {
            assert(m.insert(last).filter(f) =~= m.filter(f).insert(last));
        } else {
            assert(m.insert(last).filter(f) =~= m.filter(f));
        }
    }
}

/// Keys that agree on the first `n` places count the same there.
proof fn lemma_num_below_prefix(a: Seq<u32>, b: Seq<u32>, t: int, n: int)
    requires
        n <= a.len(),
        n <= b.len(),
        forall|i: int| 0 <= i < n ==> a[i] == b[i],
    ensures
        num_below(a, t, n) == num_below(b, t, n),
    decreases n,
{
    if n > 0 {
        lemma_num_below_prefix(a, b, t, n - 1);
    }
}

/// In sorted keys, those below and those up to the key at place `k` end around it.
proof fn lemma_num_below_of_sorted(ranks: Seq<u32>, k: int, n: int)
    requires
        forall|i: int, j: int| 0 <= i <= j < ranks.len() ==> ranks[i] <= ranks[j],
        0 <= k < ranks.len(),
        0 <= n <= ranks.len(),
    ensures
        num_below(ranks, ranks[k] as int, n) <= k,
        num_below(ranks, ranks[k] as int, n) <= n,
        num_below(ranks, ranks[k] + 1, n) >= if n <= k + 1 {
            n
        } else {
            k + 1
        },
    decreases n,
{
    if n > 0 {
        lemma_num_below_of_sorted(ranks, k, n - 1);
        if n - 1 >= k {
            assert(ranks[k] <= ranks[n - 1]);
        } else {
            assert(ranks[n - 1] <= ranks[k]);
        }
    }
}

/// The keys that are not below a bound make up the rest.
proof fn lemma_marked_at_least(
    flats: Seq<bool>,
    ranks: Seq<u32>,
    marks: Seq<u8>,
    t: int,
    n: int,
)
    requires
        0 <= n <= ranks.len(),
        marks.len() == ranks.len(),
        forall|i: int|
            0 <= i < ranks.len() ==> #[trigger] marks[i] == mark(flats[i], ranks[i] >= t),
    ensures
        num_marked(marks, n) >= n - num_below(ranks, t, n),
        num_marked(marks, n) <= n,
    decreases n,
{
    if n > 0 {
        lemma_marked_at_least(flats, ranks, marks, t, n - 1);
        assert(marks[n - 1] == mark(flats[n - 1], ranks[n - 1] >= t));
    }
}

/// At least a tenth of the blocks is marked, and never none.
pub proof fn law_top_tenth_is_marked(
    flats: Seq<bool>,
    ranks: Seq<u32>,
    marks: Seq<u8>,
    num_flat: int,
)
    requires
        are_marked(flats, ranks, marks, num_flat),
    ensures
        num_flat >= ranks.len() - ranks.len() * 90 / 100,
        num_flat * 10 >= ranks.len(),
        num_flat <= ranks.len(),
        ranks.len() > 0 ==> num_flat > 0,
{
    let n = ranks.len() as int;
    let t = choose|t: int|
        {
            &&& #[trigger] is_order_statistic(ranks, n * 90 / 100, t)
            &&& forall|i: int|
                0 <= i < n ==> #[trigger] marks[i] == mark(flats[i], ranks[i] >= t)
        };
    lemma_marked_at_least(flats, ranks, marks, t, n);
}

/// Where row or column `k` of a block lies relative to the centre.
fn center<T: Scalar>(k: usize) -> (t: Term<T>)
    ensures
        t@ == centered::<T>(k as int),
{
    let half = Term::count(BLOCK_SIZE / 2);
    Term::count(k).minus(&half).over(&half)
}

/// The positions of the pixels of a block.
fn position_matrix<T: Scalar>() -> (a: Vec<T>)
    ensures
        is_position_matrix(a@),
{
    let mut a: Vec<T> = Vec::new();
    let mut row: usize = 0;
    while row < BLOCK_SIZE_SQUARED
        invariant
            row <= BLOCK_SIZE_SQUARED,
            a.len() == 3 * row,
            forall|k: int| 0 <= k < a.len() ==> denotes(position_entry(k), #[trigger] a@[k]),
        decreases BLOCK_SIZE_SQUARED - row,
    {
        a.push(center(row / BLOCK_SIZE).get());
        a.push(center(row % BLOCK_SIZE).get());
        a.push(Term::count(1).get());
        row = row + 1;
    }
    a
}

/// The normal matrix of `a`.
fn normal_matrix<T: Scalar>(a: &Vec<T>) -> (m: Vec<T>)
    requires
        a.len() == LOW_POLY_NUM_PARAMS * BLOCK_SIZE_SQUARED,
    ensures
        is_normal_matrix(a@, m@),
{
    let mut m: Vec<T> = Vec::new();
    let mut k: usize = 0;
    while k < 9
        invariant
            k <= 9,
            m.len() == k,
            a.len() == LOW_POLY_NUM_PARAMS * BLOCK_SIZE_SQUARED,
            forall|q: int|
                0 <= q < k ==> denotes(
                    total(count(0), normal_terms(a@, q / 3, q % 3, BLOCK_SIZE_SQUARED as int)),
                    #[trigger] m@[q],
                ),
        decreases 9 - k,
    {
        let i = k / 3;
        let j = k % 3;
        let mut sum: Term<T> = Term::count(0);
        let mut row: usize = 0;
        while row < BLOCK_SIZE_SQUARED
            invariant
                row <= BLOCK_SIZE_SQUARED,
                i < 3,
                j < 3,
                a.len() == LOW_POLY_NUM_PARAMS * BLOCK_SIZE_SQUARED,
                sum@ == total(count(0), normal_terms(a@, i as int, j as int, row as int)),
            decreases BLOCK_SIZE_SQUARED - row,
        {
            let term = Term::of(a[3 * row + i]).times(&Term::of(a[3 * row + j]));
            proof {
                let terms = normal_terms(a@, i as int, j as int, row as int);
                assert(terms.push(term@) =~= normal_terms(a@, i as int, j as int, row + 1));
                lemma_total_push(count(0), terms, term@);
            }
            sum = sum.plus(&term);
            row = row + 1;
        }
        m.push(sum.get());
        k = k + 1;
    }
    m
}

/// Solves for column `i` of the inverse of the matrix of `eqns`.
fn solve_column<T: Kernels>(eqns: &mut EquationSystem<T>, i: usize)
    requires
        old(eqns).wf(),
        old(eqns).n == 3,
        i < 3,
    ensures
        final(eqns).wf(),
        final(eqns).n == 3,
        final(eqns).a@ == old(eqns).a@,
        is_inverse_column(old(eqns).a@, i as int, old(eqns).x@, final(eqns).x@),
{
    eqns.b = filled(3, Term::count(0).get());
    eqns.b[i] = Term::count(1).get();
    let ghost before = *eqns;
    let ok = eqns.solve();
    proof {
        assert(is_unit(before.b@, i as int));
        let z = choose|z: Seq<T>|
            {
                &&& #[trigger] linsolve_gives(before.n, before.a@, before.b@, before.x@, z, ok)
                &&& eqns.x@ == if z.len() == before.n {
                    z
                } else {
                    before.x@
                }
            };
        assert(linsolve_gives(3, before.a@, before.b@, before.x@, z, ok));
    }
}

impl<T: Kernels> FlatBlockFinder<T> {
    /// A finder that fits planes by least squares.
    pub fn new() -> (f: Self)
        ensures
            f.wf(),
            is_plane_fitter(f),
    {
        let a: Vec<T> = position_matrix();
        let mut eqns: EquationSystem<T> = EquationSystem::new(LOW_POLY_NUM_PARAMS);
        eqns.a = normal_matrix(&a);
        let ghost m = eqns.a@;
        let ghost x = eqns.x@;
        solve_column(&mut eqns, 0);
        let y0 = [eqns.x[0], eqns.x[1], eqns.x[2]];
        let ghost s0 = eqns.x@;
        solve_column(&mut eqns, 1);
        let y1 = [eqns.x[0], eqns.x[1], eqns.x[2]];
        let ghost s1 = eqns.x@;
        solve_column(&mut eqns, 2);
        let ghost s2 = eqns.x@;
        let mut a_t_a_inv: Vec<T> = Vec::new();
        let mut j: usize = 0;
        while j < 3
            invariant
                j <= 3,
                eqns.x@ == s2,
                s0.len() == 3,
                s1.len() == 3,
                s2.len() == 3,
                y0@ == s0,
                y1@ == s1,
                a_t_a_inv.len() == 3 * j,
                forall|k: int|
                    0 <= k < a_t_a_inv.len() ==> #[trigger] a_t_a_inv@[k] == pick(
                        k % 3,
                        s0,
                        s1,
                        s2,
                    )[k / 3],
            decreases 3 - j,
        {
            a_t_a_inv.push(y0[j]);
            a_t_a_inv.push(y1[j]);
            a_t_a_inv.push(eqns.x[j]);
            j = j + 1;
        }
        proof {
            assert(is_inverse_column(m, 0, x, s0));
            assert(is_inverse_column(m, 1, s0, s1));
            assert(is_inverse_column(m, 2, s1, s2));
            assert(is_inverse(m, a_t_a_inv@));
        }
        FlatBlockFinder { a, a_t_a_inv }
    }

    /// The pixels of a block as intensities from zero to one.
    fn intensities(plane: &Plane<u8>, offset_x: usize, offset_y: usize) -> (raw: Vec<T>)
        requires
            plane.wf(),
        ensures
            are_intensities(*plane, offset_x as int, offset_y as int, raw@),
    {
        let width = plane.geometry.width;
        let height = plane.geometry.height;
        let stride = plane.geometry.stride;
        let origin = plane.data_origin();
        let mut raw: Vec<T> = Vec::new();
        let mut k: usize = 0;
        while k < BLOCK_SIZE_SQUARED
            invariant
                k <= BLOCK_SIZE_SQUARED,
                raw.len() == k,
                plane.wf(),
                width == plane.geometry.width,
                height == plane.geometry.height,
                stride == plane.geometry.stride,
                origin == plane.geometry.origin(),
                forall|q: int|
                    0 <= q < k ==> denotes(
                        over(
                            count(
                                block_pixel(
                                    *plane,
                                    offset_x as int,
                                    offset_y as int,
                                    q,
                                ) as usize,
                            ),
                            count(255),
                        ),
                        #[trigger] raw@[q],
                    ),
            decreases BLOCK_SIZE_SQUARED - k,
        {
            let xi = k % BLOCK_SIZE;
            let yi = k / BLOCK_SIZE;
            let x = if offset_x < width && xi < width - offset_x {
                offset_x + xi
            } else {
                width - 1
            };
            let y = if offset_y < height && yi < height - offset_y {
                offset_y + yi
            } else {
                height - 1
            };
            proof {
                lemma_place_bound(plane.geometry, x as int, y as int);
            }
            let pixel = plane.data[origin + y * stride + x];
            assert(pixel == block_pixel(*plane, offset_x as int, offset_y as int, k as int));
            raw.push(Term::count(pixel as usize).over(&Term::count(255)).get());
            k = k + 1;
        }
        raw
    }

    /// The intensities of a block less the plane that fits them best.
    fn extract_block(&self, plane: &Plane<u8>, offset_x: usize, offset_y: usize) -> (block: Vec<T>)
        requires
            self.wf(),
            plane.wf(),
        ensures
            block.len() == BLOCK_SIZE_SQUARED,
            is_extracted(*self, *plane, offset_x as int, offset_y as int, block@),
    {
        let raw = Self::intensities(plane, offset_x, offset_y);
        let c = product(&raw, &self.a, 1, BLOCK_SIZE_SQUARED, LOW_POLY_NUM_PARAMS);
        let p = product(&self.a_t_a_inv, &c, LOW_POLY_NUM_PARAMS, LOW_POLY_NUM_PARAMS, 1);
        let fit = product(&self.a, &p, BLOCK_SIZE_SQUARED, LOW_POLY_NUM_PARAMS, 1);
        assert(is_product(raw@, self.a@, 1, BLOCK_SIZE_SQUARED, 3, c@));
        assert(is_product(self.a_t_a_inv@, c@, 3, 3, 1, p@));
        assert(is_plane_fit(*self, raw@, fit@));
        let mut block: Vec<T> = Vec::new();
        let mut k: usize = 0;
        while k < BLOCK_SIZE_SQUARED
            invariant
                k <= BLOCK_SIZE_SQUARED,
                raw.len() == BLOCK_SIZE_SQUARED,
                fit.len() == BLOCK_SIZE_SQUARED,
                block.len() == k,
                forall|q: int|
                    0 <= q < k ==> denotes(
                        minus(value(raw@[q]), value(fit@[q])),
                        #[trigger] block@[q],
                    ),
            decreases BLOCK_SIZE_SQUARED - k,
        {
            block.push(Term::of(raw[k]).minus(&Term::of(fit[k])).get());
            k = k + 1;
        }
        assert(is_difference(raw@, fit@, block@));
        block
    }

    /// Whether block number `index` is flat, and the ordering key of its flatness.
    pub fn score_block(&self, plane: &Plane<u8>, index: usize) -> (r: (bool, u32))
        requires
            self.wf(),
            plane.wf(),
            index < num_blocks(*plane),
        ensures
            is_block_scored(*self, *plane, index as int, r.0, r.1),
    {
        let across = (plane.geometry.width - 1) / BLOCK_SIZE + 1;
        proof {
            lemma_block_place(plane.geometry.width, plane.geometry.height, index as int);
        }
        let offset_y = index / across * BLOCK_SIZE;
        let offset_x = index % across * BLOCK_SIZE;
        let block = self.extract_block(plane, offset_x, offset_y);
        let (flat, rank) = judge(&block);
        assert(is_extracted(
            *self,
            *plane,
            (index as int % blocks_over(plane.geometry.width)) * BLOCK_SIZE,
            (index as int / blocks_over(plane.geometry.width)) * BLOCK_SIZE,
            block@,
        ));
        (flat, rank)
    }

    /// Marks the blocks of a plane that are flat or among the flattest. Gives the marks,
    /// row by row, and the number of blocks marked.
    pub fn run(&self, plane: &Plane<u8>) -> (r: (Vec<u8>, usize))
        requires
            self.wf(),
            plane.wf(),
        ensures
            is_flat_map(*self, *plane, r.0@, r.1 as int),
    {
        let num_blocks_w = (plane.geometry.width - 1) / BLOCK_SIZE + 1;
        let num_blocks_h = (plane.geometry.height - 1) / BLOCK_SIZE + 1;
        proof {
            lemma_num_blocks(*plane);
        }
        let len = num_blocks_w * num_blocks_h;
        let mut flats: Vec<bool> = Vec::new();
        let mut ranks: Vec<u32> = Vec::new();
        let mut i: usize = 0;
        while i < len
            invariant
                self.wf(),
                plane.wf(),
                len == num_blocks(*plane),
                i <= len,
                flats.len() == i,
                ranks.len() == i,
                forall|k: int|
                    0 <= k < i ==> is_block_scored(
                        *self,
                        *plane,
                        k,
                        #[trigger] flats@[k],
                        ranks@[k],
                    ),
            decreases len - i,
        {
            let (flat, rank) = self.score_block(plane, i);
            flats.push(flat);
            ranks.push(rank);
            i = i + 1;
        }
        mark_flat_blocks(&flats, &ranks)
    }
}

/// A block starts inside the plane.
proof fn lemma_block_place(width: usize, height: usize, index: int)
    requires
        width > 0,
        height > 0,
        0 <= index < blocks_over(width) * blocks_over(height),
    ensures
        blocks_over(width) > 0,
        0 <= (index % blocks_over(width)) * BLOCK_SIZE < width,
        0 <= (index / blocks_over(width)) * BLOCK_SIZE < height,
{
    let across = blocks_over(width);
    let down = blocks_over(height);
    vstd::arithmetic::div_mod::lemma_fundamental_div_mod(index, across);
    assert(0 <= index / across < down) by (nonlinear_arith)
        requires
            0 < across,
            0 <= index < across * down,
            index == across * (index / across) + index % across,
            0 <= index % across < across,
    ;
}

/// The blocks of a plane can be counted.
proof fn lemma_num_blocks(plane: Plane<u8>)
    requires
        plane.wf(),
    ensures
        0 < num_blocks(plane) <= usize::MAX,
{
    let g = plane.geometry;
    lemma_place_bound(g, g.width - 1, g.height - 1);
    let across = blocks_over(g.width);
    let down = blocks_over(g.height);
    assert(0 < across * down <= (g.height - 1) * g.stride + g.width) by (nonlinear_arith)
        requires
            0 < across <= g.width <= g.stride,
            0 < down <= g.height,
    ;
}

/// The sums over the inner pixels of a block.
struct Moments<T: Scalar> {
    gxx: Term<T>,
    gxy: Term<T>,
    gyy: Term<T>,
    mean: Term<T>,
    square: Term<T>,
}

/// One more inner pixel adds one more term.
proof fn lemma_moment_push<T>(b: Seq<T>, what: Moment, m: int)
    requires
        0 <= m,
    ensures
        partial_moment(b, what, m + 1) == plus(partial_moment(b, what, m), moment_term(b, what, m)),
{
    let terms = moment_terms(b, what, m);
    assert(terms.push(moment_term(b, what, m)) =~= moment_terms(b, what, m + 1));
    lemma_total_push(count(0), terms, moment_term(b, what, m));
}

/// The moments of a block.
fn moments<T: Scalar>(block: &Vec<T>) -> (r: Moments<T>)
    requires
        block.len() == BLOCK_SIZE_SQUARED,
    ensures
        r.gxx@ == moment(block@, Moment::GradientXX),
        r.gxy@ == moment(block@, Moment::GradientXY),
        r.gyy@ == moment(block@, Moment::GradientYY),
        r.mean@ == moment(block@, Moment::Intensity),
        r.square@ == moment(block@, Moment::IntensitySquared),
{
    let two = Term::count(2);
    let mut gxx = Term::count(0);
    let mut gxy = Term::count(0);
    let mut gyy = Term::count(0);
    let mut mean = Term::count(0);
    let mut square = Term::count(0);
    let mut m: usize = 0;
    while m < NUM_INNER
        invariant
            m <= NUM_INNER,
            block.len() == BLOCK_SIZE_SQUARED,
            two@ == count::<T>(2),
            gxx@ == partial_moment(block@, Moment::GradientXX, m as int),
            gxy@ == partial_moment(block@, Moment::GradientXY, m as int),
            gyy@ == partial_moment(block@, Moment::GradientYY, m as int),
            mean@ == partial_moment(block@, Moment::Intensity, m as int),
            square@ == partial_moment(block@, Moment::IntensitySquared, m as int),
        decreases NUM_INNER - m,
    {
        let k = (m / 30 + 1) * BLOCK_SIZE + m % 30 + 1;
        let gx = Term::of(block[k + 1]).minus(&Term::of(block[k - 1])).over(&two);
        let gy = Term::of(block[k + BLOCK_SIZE]).minus(&Term::of(block[k - BLOCK_SIZE])).over(
            &two,
        );
        let val = Term::of(block[k]);
        proof {
            lemma_moment_push(block@, Moment::GradientXX, m as int);
            lemma_moment_push(block@, Moment::GradientXY, m as int);
            lemma_moment_push(block@, Moment::GradientYY, m as int);
            lemma_moment_push(block@, Moment::Intensity, m as int);
            lemma_moment_push(block@, Moment::IntensitySquared, m as int);
        }
        gxx = gxx.plus(&gx.times(&gx));
        gxy = gxy.plus(&gx.times(&gy));
        gyy = gyy.plus(&gy.times(&gy));
        mean = mean.plus(&val);
        square = square.plus(&val.times(&val));
        m = m + 1;
    }
    let norm = Term::count(NUM_INNER);
    Moments {
        gxx: gxx.over(&norm),
        gxy: gxy.over(&norm),
        gyy: gyy.over(&norm),
        mean: mean.over(&norm),
        square: square.over(&norm),
    }
}

/// Whether a block is flat, and the ordering key of its flatness.
pub fn judge<T: Scalar>(block: &Vec<T>) -> (r: (bool, u32))
    requires
        block.len() == BLOCK_SIZE_SQUARED,
    ensures
        is_flat_verdict(block@, r.0),
        is_score(block@, r.1),
{
    let m = moments(block);
    let ghost b = block@;
    let pixels = Term::count(BLOCK_SIZE_SQUARED);
    let trace_threshold = Term::ratio(15, 100).over(&pixels);
    let ratio_threshold = Term::ratio(125, 100);
    let norm_threshold = Term::ratio(8, 100).over(&pixels);
    let var_threshold = Term::ratio(5, 1_000).over(&pixels);
    let var = m.mean.mul_add(&m.mean.negated(), &m.square);
    assert(var@ == variance(b));
    let trace = m.gxx.plus(&m.gyy);
    assert(trace@ == gradient_trace(b));
    let det = m.gxx.mul_add(&m.gyy, &m.gxy.squared().negated());
    assert(det@ == gradient_det(b));
    let e_sub = trace.mul_add(&trace, &Term::ratio(-4, 1).times(&det)).maximum(
        &Term::count(0),
    ).square_root();
    assert(e_sub@ == eigenvalue_gap(b));
    let norm = trace.midpoint(&e_sub);
    assert(norm@ == spectral_norm(b));
    let e2 = trace.minus(&e_sub).over(&Term::count(2));
    let ratio = norm.over(&e2.maximum(&Term::ratio(1, 1_000_000)));
    assert(ratio@ == eigenvalue_ratio(b));
    let flat = trace.below(&trace_threshold) && ratio.below(&ratio_threshold) && norm.below(
        &norm_threshold,
    ) && var_threshold.below(&var);
    let sum_weights = Term::ratio(-12434, 1).mul_add(
        &norm,
        &Term::count(13087).mul_add(
            &trace,
            &Term::ratio(-6682, 1).mul_add(
                &var,
                &Term::ratio(-2056, 10_000).mul_add(&ratio, &Term::ratio(25_694, 10_000)),
            ),
        ),
    ).clamped(&Term::ratio(-25, 1), &Term::count(100));
    let score = Term::count(1).over(&Term::count(1).plus(&sum_weights.negated().exponential()));
    assert(score@ == flatness(b));
    let noisy = var_threshold.below(&var);
    assert(is_below(per_pixel(5, 1_000), variance(b), noisy));
    let rank = if noisy {
        score.to_rank()
    } else {
        Term::<T>::count(0).to_rank()
    };
    (flat, rank)
}

/// How many keys are at most `t`.
fn count_at_most(ranks: &Vec<u32>, t: u32) -> (c: usize)
    ensures
        c == num_below(ranks@, t + 1, ranks.len() as int),
{
    let mut c: usize = 0;
    let mut i: usize = 0;
    while i < ranks.len()
        invariant
            i <= ranks.len(),
            c <= i,
            c == num_below(ranks@, t + 1, i as int),
        decreases ranks.len() - i,
    {
        if ranks[i] <= t {
            c = c + 1;
        }
        i = i + 1;
    }
    c
}

/// No key is below zero, and every key is below a bound that is larger than all.
proof fn lemma_num_below_extremes(ranks: Seq<u32>, n: int)
    requires
        0 <= n <= ranks.len(),
    ensures
        num_below(ranks, 0, n) == 0,
        num_below(ranks, u32::MAX + 1, n) == n,
    decreases n,
{
    if n > 0 {
        lemma_num_below_extremes(ranks, n - 1);
    }
}

/// The key at place `k` when the keys are put in order.
fn order_statistic(ranks: &Vec<u32>, k: usize) -> (t: u32)
    requires
        k < ranks.len(),
    ensures
        is_order_statistic(ranks@, k as int, t as int),
{
    proof {
        lemma_num_below_extremes(ranks@, ranks.len() as int);
    }
    let mut low: u32 = 0;
    let mut high: u32 = u32::MAX;
    while low < high
        invariant
            low <= high,
            num_below(ranks@, low as int, ranks.len() as int) <= k,
            k < num_below(ranks@, high + 1, ranks.len() as int),
        decreases high - low,
    {
        let mid = low + (high - low) / 2;
        if k < count_at_most(ranks, mid) {
            high = mid;
        } else {
            low = mid + 1;
        }
    }
    low
}

/// Marks the blocks that are flat or whose flatness is in the top tenth. Gives the marks
/// and the number of blocks marked.
pub fn mark_flat_blocks(flats: &Vec<bool>, ranks: &Vec<u32>) -> (r: (Vec<u8>, usize))
    requires
        flats.len() == ranks.len(),
        ranks.len() > 0,
    ensures
        are_marked(flats@, ranks@, r.0@, r.1 as int),
{
    let len = ranks.len();
    let top_nth_percentile = len - ((len - 1) / 10 + 1);
    assert(top_nth_percentile == len * 90 / 100);
    let threshold = order_statistic(ranks, top_nth_percentile);
    let mut marks: Vec<u8> = Vec::new();
    let mut num_flat: usize = 0;
    let mut i: usize = 0;
    while i < len
        invariant
            i <= len,
            len == flats.len(),
            len == ranks.len(),
            marks.len() == i,
            num_flat <= i,
            num_flat == num_marked(marks@, i as int),
            forall|k: int|
                0 <= k < i ==> #[trigger] marks@[k] == mark(flats@[k], ranks@[k] >= threshold),
        decreases len - i,
    {
        let m: u8 = if flats[i] {
            255
        } else if ranks[i] >= threshold {
            1
        } else {
            0
        };
        let ghost before = marks@;
        marks.push(m);
        if m != 0 {
            num_flat = num_flat + 1;
        }
        proof {
            lemma_num_marked_prefix(before, marks@, i as int);
        }
        i = i + 1;
    }
    (marks, num_flat)
}

/// Marks that agree on the first `n` blocks count the same there.
proof fn lemma_num_marked_prefix(a: Seq<u8>, b: Seq<u8>, n: int)
    requires
        n <= a.len(),
        n <= b.len(),
        forall|i: int| 0 <= i < n ==> a[i] == b[i],
    ensures
        num_marked(a, n) == num_marked(b, n),
    decreases n,
{
    if n > 0 {
        lemma_num_marked_prefix(a, b, n - 1);
    }
}

} // verus!
