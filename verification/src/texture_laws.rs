//! What makes a block flat, if the number type calculates exactly: gradients that are small
//! and point everywhere alike, and some noise.
use crate::difference_laws::sum_up;
use crate::exact::{
    is_defined, is_exact, is_root, larger, law_worth, lemma_worth_total, within, worth,
};
use crate::flat_blocks::{
    and_below, eigenvalue_gap, eigenvalue_ratio, flatness, gradient_det, gradient_trace, gradient_x,
    gradient_y, inner, is_flat_verdict, is_score, moment, moment_term, moment_terms,
    partial_moment, per_pixel, spectral_norm, variance, Moment, NUM_INNER,
};
use crate::precise::{
    has_exponential, has_middle, has_ranks, lemma_clamped_operands, lemma_mul_add_operands,
    lemma_operand, lemma_operands,
};
use crate::report_laws::lemma_below;
use crate::scalar::{
    below_gives, clamped, count, denotes, is_below, is_rank, maximum, minus, mul_add, over, plus,
    rank_gives, ratio, times, total, unary, unary_gives, value, BinaryOp, Formula, Scalar, UnaryOp,
};
use vstd::prelude::*;

verus! {

/// The intensity in column `x`, row `y` of a block.
pub open spec fn block_at<T>(b: Seq<T>, v: spec_fn(T) -> real, x: int, y: int) -> real {
    v(b[32 * y + x])
}

/// The column of inner pixel `m`: there are 30 in each row.
pub open spec fn column(m: int) -> int {
    m % 30 + 1
}

/// The row of inner pixel `m`.
pub open spec fn row(m: int) -> int {
    m / 30 + 1
}

/// The intensity at inner pixel `m` of a block.
pub open spec fn intensity<T>(b: Seq<T>, v: spec_fn(T) -> real, m: int) -> real {
    block_at(b, v, column(m), row(m))
}

/// How much the intensity changes per pixel along the row, at inner pixel `m`.
pub open spec fn slope_x<T>(b: Seq<T>, v: spec_fn(T) -> real, m: int) -> real {
    (block_at(b, v, column(m) + 1, row(m)) - block_at(b, v, column(m) - 1, row(m))) / 2real
}

/// How much the intensity changes per pixel along the column, at inner pixel `m`.
pub open spec fn slope_y<T>(b: Seq<T>, v: spec_fn(T) -> real, m: int) -> real {
    (block_at(b, v, column(m), row(m) + 1) - block_at(b, v, column(m), row(m) - 1)) / 2real
}

/// What is averaged over the inner pixels.
pub open spec fn averaged<T>(
    b: Seq<T>,
    v: spec_fn(T) -> real,
    what: Moment,
) -> spec_fn(int) -> real {
    |m: int|
        match what {
            Moment::GradientXX => slope_x(b, v, m) * slope_x(b, v, m),
            Moment::GradientXY => slope_x(b, v, m) * slope_y(b, v, m),
            Moment::GradientYY => slope_y(b, v, m) * slope_y(b, v, m),
            Moment::Intensity => intensity(b, v, m),
            Moment::IntensitySquared => intensity(b, v, m) * intensity(b, v, m),
        }
}

/// The mean over the inner pixels.
pub open spec fn mean_of<T>(b: Seq<T>, v: spec_fn(T) -> real, what: Moment) -> real {
    sum_up(averaged(b, v, what), NUM_INNER as int) / NUM_INNER as real
}

/// The squared distances of the intensities from `c`.
pub open spec fn deviations<T>(
    b: Seq<T>,
    v: spec_fn(T) -> real,
    c: real,
) -> spec_fn(int) -> real {
    |m: int| (intensity(b, v, m) - c) * (intensity(b, v, m) - c)
}

/// The variance of the intensities of the inner pixels.
pub open spec fn noise_in<T>(b: Seq<T>, v: spec_fn(T) -> real) -> real {
    sum_up(deviations(b, v, mean_of(b, v, Moment::Intensity)), NUM_INNER as int)
        / NUM_INNER as real
}

/// Whether `e1` and `e2` are the eigenvalues of the covariance matrix of the gradients, the
/// larger one first.
pub open spec fn are_eigenvalues<T>(
    b: Seq<T>,
    v: spec_fn(T) -> real,
    e1: real,
    e2: real,
) -> bool {
    let xx = mean_of(b, v, Moment::GradientXX);
    let xy = mean_of(b, v, Moment::GradientXY);
    let yy = mean_of(b, v, Moment::GradientYY);
    &&& e1 >= e2
    &&& e1 + e2 == xx + yy
    &&& e1 * e2 == xx * yy - xy * xy
}

/// What the terms of a mean are worth.
proof fn lemma_moment_sum<T: Scalar>(b: Seq<T>, v: spec_fn(T) -> real, what: Moment, k: int)
    requires
        0 <= k,
    ensures
        is_defined(total(count(0), moment_terms(b, what, k)), v),
        worth(total(count(0), moment_terms(b, what, k)), v) == sum_up(averaged(b, v, what), k),
    decreases k,
{
    let terms = moment_terms(b, what, k);
    lemma_worth_total(terms, v);
    if k > 0 {
        lemma_moment_sum(b, v, what, k - 1);
        let m = k - 1;
        assert(terms.drop_last() =~= moment_terms(b, what, k - 1));
        assert(terms.last() == moment_term(b, what, m));
        let gx = gradient_x(b, m);
        let gy = gradient_y(b, m);
        let i = value(b[inner(m)]);
        assert(inner(m) == 32 * row(m) + column(m));
        assert(is_defined(gx, v) && worth(gx, v) == slope_x(b, v, m)) by {
            reveal_with_fuel(worth, 4);
            reveal_with_fuel(is_defined, 4);
        }
        assert(is_defined(gy, v) && worth(gy, v) == slope_y(b, v, m)) by {
            reveal_with_fuel(worth, 4);
            reveal_with_fuel(is_defined, 4);
        }
        assert(is_defined(i, v) && worth(i, v) == intensity(b, v, m));
        assert(is_defined(moment_term(b, what, m), v));
        assert(worth(moment_term(b, what, m), v) == averaged(b, v, what)(m));
    }
}

/// What a mean is worth.
proof fn lemma_moment<T: Scalar>(b: Seq<T>, v: spec_fn(T) -> real, what: Moment)
    ensures
        is_defined(moment(b, what), v),
        worth(moment(b, what), v) == mean_of(b, v, what),
{
    lemma_moment_sum(b, v, what, NUM_INNER as int);
    let n: Formula<T> = count(NUM_INNER);
    assert(is_defined(n, v) && worth(n, v) == NUM_INNER as real);
    assert(moment(b, what) == over(partial_moment(b, what, NUM_INNER as int), n));
}

/// What the trace and the determinant of the covariance matrix are worth.
proof fn lemma_trace_det<T: Scalar>(b: Seq<T>, v: spec_fn(T) -> real)
    ensures
        ({
            let xx = mean_of(b, v, Moment::GradientXX);
            let xy = mean_of(b, v, Moment::GradientXY);
            let yy = mean_of(b, v, Moment::GradientYY);
            &&& is_defined(gradient_trace(b), v)
            &&& worth(gradient_trace(b), v) == xx + yy
            &&& is_defined(gradient_det(b), v)
            &&& worth(gradient_det(b), v) == xx * yy - xy * xy
        }),
{
    lemma_moment(b, v, Moment::GradientXX);
    lemma_moment(b, v, Moment::GradientXY);
    lemma_moment(b, v, Moment::GradientYY);
    let mxx = moment(b, Moment::GradientXX);
    let mxy = moment(b, Moment::GradientXY);
    let myy = moment(b, Moment::GradientYY);
    assert(gradient_trace(b) == plus(mxx, myy));
    let sq = unary(UnaryOp::Squared, mxy);
    let neg = unary(UnaryOp::Negated, sq);
    let xy = mean_of(b, v, Moment::GradientXY);
    assert(is_defined(sq, v) && worth(sq, v) == xy * xy);
    assert(is_defined(neg, v) && worth(neg, v) == -(xy * xy));
    assert(gradient_det(b) == mul_add(mxx, myy, neg));
}

/// What the gap between the eigenvalues is worth.
proof fn lemma_gap<T: Scalar>(b: Seq<T>, v: spec_fn(T) -> real, g: T)
    requires
        is_exact(v),
        denotes(eigenvalue_gap(b), g),
    ensures
        ({
            let t = mean_of(b, v, Moment::GradientXX) + mean_of(b, v, Moment::GradientYY);
            are_eigenvalues(b, v, (t + v(g)) / 2real, (t - v(g)) / 2real)
        }),
{
    lemma_trace_det(b, v);
    let xx = mean_of(b, v, Moment::GradientXX);
    let xy = mean_of(b, v, Moment::GradientXY);
    let yy = mean_of(b, v, Moment::GradientYY);
    let trace = gradient_trace(b);
    let det = gradient_det(b);
    let four: Formula<T> = ratio((-4) as i64, 1);
    let zero: Formula<T> = count(0);
    let part = times(four, det);
    let sum = mul_add(trace, trace, part);
    let under = maximum(sum, zero);
    assert((-4) as i64 as real == -4real);
    assert(-4real / 1real == -4real) by (nonlinear_arith);
    assert(is_defined(four, v) && worth(four, v) == -4real);
    assert(is_defined(zero, v) && worth(zero, v) == 0real);
    assert(is_defined(part, v) && worth(part, v) == -4real * (xx * yy - xy * xy));
    assert(is_defined(sum, v));
    assert(is_defined(under, v) && worth(under, v) == larger(worth(sum, v), 0real));
    assert(eigenvalue_gap(b) == unary(UnaryOp::SquareRoot, under));
    let x = lemma_operand(UnaryOp::SquareRoot, under, g);
    law_worth(under, v, x);
    let s = worth(sum, v);
    let t = xx + yy;
    assert(s == t * t + -4real * (xx * yy - xy * xy));
    lemma_discriminant(xx, xy, yy, s, v(g));
}

/// The eigenvalues from the discriminant.
proof fn lemma_discriminant(xx: real, xy: real, yy: real, s: real, g: real)
    requires
        s == (xx + yy) * (xx + yy) + -4real * (xx * yy - xy * xy),
        is_root(larger(s, 0real), g),
    ensures
        ({
            let e1 = ((xx + yy) + g) / 2real;
            let e2 = ((xx + yy) - g) / 2real;
            &&& e1 >= e2
            &&& e1 + e2 == xx + yy
            &&& e1 * e2 == xx * yy - xy * xy
        }),
{
    let t = xx + yy;
    let d = xx - yy;
    assert(t * t == d * d + 4real * (xx * yy)) by (nonlinear_arith)
        requires
            t == xx + yy,
            d == xx - yy,
    ;
    assert(d * d >= 0real) by (nonlinear_arith);
    assert(xy * xy >= 0real) by (nonlinear_arith);
    assert(g * g == s);
    let e1 = (t + g) / 2real;
    let e2 = (t - g) / 2real;
    assert(4real * (e1 * e2) == t * t - g * g) by (nonlinear_arith)
        requires
            e1 == (t + g) / 2real,
            e2 == (t - g) / 2real,
    ;
}

/// What the largest eigenvalue and the quotient of the eigenvalues are worth.
proof fn lemma_norm<T: Scalar>(b: Seq<T>, v: spec_fn(T) -> real, n: T) -> (e: (real, real))
    requires
        is_exact(v),
        has_middle(v),
        denotes(spectral_norm(b), n),
    ensures
        are_eigenvalues(b, v, e.0, e.1),
        v(n) == e.0,
{
    let (t, g) = lemma_operands(BinaryOp::Midpoint, gradient_trace(b), eigenvalue_gap(b), n);
    lemma_trace_det(b, v);
    law_worth(gradient_trace(b), v, t);
    lemma_gap(b, v, g);
    ((v(t) + v(g)) / 2real, (v(t) - v(g)) / 2real)
}

/// There is one pair of eigenvalues.
pub proof fn lemma_one_pair<T>(
    b: Seq<T>,
    v: spec_fn(T) -> real,
    e1: real,
    e2: real,
    f1: real,
    f2: real,
)
    requires
        are_eigenvalues(b, v, e1, e2),
        are_eigenvalues(b, v, f1, f2),
    ensures
        e1 == f1,
        e2 == f2,
{
    let (p, q) = (e1 - e2, f1 - f2);
    assert(p * p == (e1 + e2) * (e1 + e2) - 4real * (e1 * e2)) by (nonlinear_arith)
        requires
            p == e1 - e2,
    ;
    assert(q * q == (f1 + f2) * (f1 + f2) - 4real * (f1 * f2)) by (nonlinear_arith)
        requires
            q == f1 - f2,
    ;
    assert(p == q) by (nonlinear_arith)
        requires
            p * p == q * q,
            p >= 0real,
            q >= 0real,
    ;
}

/// What the quotient of the eigenvalues is worth.
proof fn lemma_ratio<T: Scalar>(b: Seq<T>, v: spec_fn(T) -> real, r: T) -> (e: (real, real))
    requires
        is_exact(v),
        has_middle(v),
        denotes(eigenvalue_ratio(b), r),
    ensures
        are_eigenvalues(b, v, e.0, e.1),
        v(r) * larger(e.1, 1real / 1_000_000real) == e.0,
        larger(e.1, 1real / 1_000_000real) > 0real,
{
    let small: Formula<T> = ratio(1, 1_000_000);
    let lower = over(minus(gradient_trace(b), eigenvalue_gap(b)), count(2));
    let least = maximum(lower, small);
    let (n, l) = lemma_operands(BinaryOp::Over, spectral_norm(b), least, r);
    let (e1, e2) = lemma_norm(b, v, n);
    let (x, s) = lemma_operands(BinaryOp::Maximum, lower, small, l);
    let (y, two) = lemma_operands(
        BinaryOp::Over,
        minus(gradient_trace(b), eigenvalue_gap(b)),
        count(2),
        x,
    );
    let (t, g) = lemma_operands(BinaryOp::Minus, gradient_trace(b), eigenvalue_gap(b), y);
    lemma_trace_det(b, v);
    law_worth(gradient_trace(b), v, t);
    lemma_gap(b, v, g);
    law_worth(count(2), v, two);
    law_worth(small, v, s);
    assert(worth(small, v) == 1real / 1_000_000real);
    assert(1real / 1_000_000real > 0real) by (nonlinear_arith);
    lemma_one_pair(b, v, e1, e2, (v(t) + v(g)) / 2real, (v(t) - v(g)) / 2real);
    let z = larger(e2, 1real / 1_000_000real);
    assert(v(l) == z);
    let q = v(r);
    assert(q * z == e1) by (nonlinear_arith)
        requires
            q == e1 / z,
            z > 0real,
    ;
    (e1, e2)
}

/// The variance is the mean of the squared distances from the mean.
proof fn lemma_variance<T: Scalar>(b: Seq<T>, v: spec_fn(T) -> real)
    ensures
        is_defined(variance(b), v),
        worth(variance(b), v) == noise_in(b, v),
{
    lemma_moment(b, v, Moment::Intensity);
    lemma_moment(b, v, Moment::IntensitySquared);
    let mean = moment(b, Moment::Intensity);
    let sq = moment(b, Moment::IntensitySquared);
    let neg = unary(UnaryOp::Negated, mean);
    assert(is_defined(neg, v) && worth(neg, v) == -worth(mean, v));
    assert(variance(b) == mul_add(mean, neg, sq));
    let n = NUM_INNER as int;
    let m = mean_of(b, v, Moment::Intensity);
    lemma_deviations(b, v, m, n);
    let s1 = sum_up(averaged(b, v, Moment::Intensity), n);
    let s2 = sum_up(averaged(b, v, Moment::IntensitySquared), n);
    let k = NUM_INNER as real;
    let d = sum_up(deviations(b, v, m), n);
    assert(m * k == s1) by (nonlinear_arith)
        requires
            m == s1 / k,
            k == 900real,
    ;
    let q = s2 / k;
    assert(d / k == m * (-m) + q) by (nonlinear_arith)
        requires
            d == s2 - 2real * (m * s1) + n as real * (m * m),
            m * k == s1,
            q == s2 / k,
            k == 900real,
            n as real == 900real,
    ;
}

/// The sum of the squared distances from a number.
proof fn lemma_deviations<T>(b: Seq<T>, v: spec_fn(T) -> real, c: real, k: int)
    requires
        0 <= k,
    ensures
        sum_up(deviations(b, v, c), k) == sum_up(averaged(b, v, Moment::IntensitySquared), k)
            - 2real * (c * sum_up(averaged(b, v, Moment::Intensity), k)) + k as real * (c * c),
    decreases k,
{
    let cc = c * c;
    if k > 0 {
        lemma_deviations(b, v, c, k - 1);
        let x = intensity(b, v, k - 1);
        let s = sum_up(averaged(b, v, Moment::Intensity), k - 1);
        let j = (k - 1) as real;
        assert((x - c) * (x - c) == x * x - 2real * (c * x) + cc) by (nonlinear_arith)
            requires
                cc == c * c,
        ;
        assert(c * (s + x) == c * s + c * x) by (nonlinear_arith);
        assert(k as real == j + 1real);
        assert((j + 1real) * cc == j * cc + cc) by (nonlinear_arith);
    } else {
        assert(0real * cc == 0real) by (nonlinear_arith);
        assert(c * 0real == 0real) by (nonlinear_arith);
    }
}

/// A share of a pixel.
proof fn lemma_per_pixel<T: Scalar>(v: spec_fn(T) -> real, num: i64, den: i64)
    requires
        den != 0,
    ensures
        is_defined(per_pixel::<T>(num, den), v),
        worth(per_pixel::<T>(num, den), v) == (num as real / den as real) / 1_024real,
{
    let r: Formula<T> = ratio(num, den);
    let n: Formula<T> = count(1_024);
    assert(is_defined(r, v) && worth(r, v) == num as real / den as real);
    assert(is_defined(n, v) && worth(n, v) == 1_024real);
    assert(per_pixel::<T>(num, den) == over(r, n));
}

/// Whether gradients with the eigenvalues `e1` and `e2`, and noise of the variance `var`, are
/// those of a flat block.
pub open spec fn is_flat(e1: real, e2: real, var: real) -> bool {
    &&& e1 + e2 < (15real / 100real) / 1_024real
    &&& e1 < (125real / 100real) * larger(e2, 1real / 1_000_000real)
    &&& e1 < (8real / 100real) / 1_024real
    &&& var > (5real / 1_000real) / 1_024real
}

/// A block is flat if its gradients are small and no direction stands out, and if it is not
/// without noise: this is told by the eigenvalues of the covariance matrix of the gradients
/// and by the variance of the intensities.
pub proof fn law_flat_verdict<T: Scalar>(
    b: Seq<T>,
    v: spec_fn(T) -> real,
    flat: bool,
    e1: real,
    e2: real,
)
    requires
        is_exact(v),
        has_middle(v),
        is_flat_verdict(b, flat),
        are_eigenvalues(b, v, e1, e2),
    ensures
        flat <==> is_flat(e1, e2, noise_in(b, v)),
{
    let noisy = |e: bool| is_below(per_pixel(5, 1_000), variance(b), e);
    let small = |d: bool| and_below(spectral_norm(b), per_pixel(8, 100), noisy, d);
    let round = |c: bool| and_below(eigenvalue_ratio(b), ratio(125, 100), small, c);
    lemma_trace_det(b, v);
    lemma_variance(b, v);
    lemma_per_pixel::<T>(v, 15, 100);
    lemma_per_pixel::<T>(v, 8, 100);
    lemma_per_pixel::<T>(v, 5, 1_000);
    let first = choose|first: bool|
        {
            &&& #[trigger] is_below(gradient_trace(b), per_pixel(15, 100), first)
            &&& if first {
                round(flat)
            } else {
                !flat
            }
        };
    lemma_below(v, gradient_trace(b), per_pixel(15, 100), first);
    if first {
        let second = choose|second: bool|
            {
                &&& #[trigger] is_below(eigenvalue_ratio(b), ratio(125, 100), second)
                &&& if second {
                    small(flat)
                } else {
                    !flat
                }
            };
        lemma_round(b, v, second, e1, e2);
        if second {
            let third = choose|third: bool|
                {
                    &&& #[trigger] is_below(spectral_norm(b), per_pixel(8, 100), third)
                    &&& if third {
                        noisy(flat)
                    } else {
                        !flat
                    }
                };
            lemma_small(b, v, third, e1, e2);
            if third {
                lemma_below(v, per_pixel(5, 1_000), variance(b), flat);
            }
        }
    }
}

/// The test for a direction that stands out.
proof fn lemma_round<T: Scalar>(b: Seq<T>, v: spec_fn(T) -> real, c: bool, e1: real, e2: real)
    requires
        is_exact(v),
        has_middle(v),
        are_eigenvalues(b, v, e1, e2),
        is_below(eigenvalue_ratio(b), ratio(125, 100), c),
    ensures
        c == (e1 < (125real / 100real) * larger(e2, 1real / 1_000_000real)),
{
    let (x, y) = choose|x: T, y: T| #[trigger]
        denotes(eigenvalue_ratio(b), x) && #[trigger] denotes(ratio(125, 100), y) && call_ensures(
            T::below,
            (x, y),
            c,
        );
    assert(below_gives(x, y, c));
    let (f1, f2) = lemma_ratio(b, v, x);
    lemma_one_pair(b, v, e1, e2, f1, f2);
    law_worth(ratio(125, 100), v, y);
    let limit = 125real / 100real;
    assert(worth(ratio::<T>(125, 100), v) == limit);
    let z = larger(e2, 1real / 1_000_000real);
    let q = v(x);
    assert(q < limit <==> q * z < limit * z) by (nonlinear_arith)
        requires
            z > 0real,
    ;
}

/// The test for large gradients.
proof fn lemma_small<T: Scalar>(b: Seq<T>, v: spec_fn(T) -> real, c: bool, e1: real, e2: real)
    requires
        is_exact(v),
        has_middle(v),
        are_eigenvalues(b, v, e1, e2),
        is_below(spectral_norm(b), per_pixel(8, 100), c),
    ensures
        c == (e1 < (8real / 100real) / 1_024real),
{
    let (x, y) = choose|x: T, y: T| #[trigger]
        denotes(spectral_norm(b), x) && #[trigger] denotes(per_pixel(8, 100), y) && call_ensures(
            T::below,
            (x, y),
            c,
        );
    assert(below_gives(x, y, c));
    let (f1, f2) = lemma_norm(b, v, x);
    lemma_one_pair(b, v, e1, e2, f1, f2);
    lemma_per_pixel::<T>(v, 8, 100);
    law_worth(per_pixel(8, 100), v, y);
}

/// Whether all gradients in a block lie along one direction: the intensity changes only
/// across lines, as in stripes.
pub open spec fn is_striped<T>(b: Seq<T>, v: spec_fn(T) -> real, dx: real, dy: real) -> bool {
    &&& dx != 0real || dy != 0real
    &&& forall|m: int|
        0 <= m < NUM_INNER ==> dy * #[trigger] slope_x(b, v, m) == dx * slope_y(b, v, m)
}

/// The means over gradients along one direction.
proof fn lemma_striped_sums<T>(
    b: Seq<T>,
    v: spec_fn(T) -> real,
    dx: real,
    dy: real,
    k: int,
)
    requires
        0 <= k <= NUM_INNER,
        is_striped(b, v, dx, dy),
    ensures
        dy * sum_up(averaged(b, v, Moment::GradientXX), k) == dx * sum_up(
            averaged(b, v, Moment::GradientXY),
            k,
        ),
        dy * sum_up(averaged(b, v, Moment::GradientXY), k) == dx * sum_up(
            averaged(b, v, Moment::GradientYY),
            k,
        ),
    decreases k,
{
    if k > 0 {
        lemma_striped_sums(b, v, dx, dy, k - 1);
        let m = k - 1;
        let x = slope_x(b, v, m);
        let y = slope_y(b, v, m);
        let sxx = sum_up(averaged(b, v, Moment::GradientXX), k - 1);
        let sxy = sum_up(averaged(b, v, Moment::GradientXY), k - 1);
        let syy = sum_up(averaged(b, v, Moment::GradientYY), k - 1);
        assert(dy * x == dx * y);
        assert(dy * (x * x) == dx * (x * y)) by (nonlinear_arith)
            requires
                dy * x == dx * y,
        ;
        assert(dy * (x * y) == dx * (y * y)) by (nonlinear_arith)
            requires
                dy * x == dx * y,
        ;
        assert(dy * (sxx + x * x) == dy * sxx + dy * (x * x)) by (nonlinear_arith);
        assert(dx * (sxy + x * y) == dx * sxy + dx * (x * y)) by (nonlinear_arith);
        assert(dy * (sxy + x * y) == dy * sxy + dy * (x * y)) by (nonlinear_arith);
        assert(dx * (syy + y * y) == dx * syy + dx * (y * y)) by (nonlinear_arith);
    } else {
        assert(dy * 0real == dx * 0real) by (nonlinear_arith);
    }
}

/// A striped block is not flat, whatever the direction of the stripes, unless there is hardly
/// any gradient in it.
pub proof fn law_stripes_are_not_flat<T: Scalar>(
    b: Seq<T>,
    v: spec_fn(T) -> real,
    flat: bool,
    dx: real,
    dy: real,
)
    requires
        is_exact(v),
        has_middle(v),
        is_flat_verdict(b, flat),
        is_striped(b, v, dx, dy),
        mean_of(b, v, Moment::GradientXX) + mean_of(b, v, Moment::GradientYY) >= (125real / 100real)
            / 1_000_000real,
    ensures
        !flat,
{
    let n = NUM_INNER as int;
    lemma_striped_sums(b, v, dx, dy, n);
    let k = NUM_INNER as real;
    let (sxx, sxy, syy) = (
        sum_up(averaged(b, v, Moment::GradientXX), n),
        sum_up(averaged(b, v, Moment::GradientXY), n),
        sum_up(averaged(b, v, Moment::GradientYY), n),
    );
    let xx = mean_of(b, v, Moment::GradientXX);
    let xy = mean_of(b, v, Moment::GradientXY);
    let yy = mean_of(b, v, Moment::GradientYY);
    assert(dy * xx == dx * xy && dy * xy == dx * yy) by (nonlinear_arith)
        requires
            dy * sxx == dx * sxy,
            dy * sxy == dx * syy,
            xx == sxx / k,
            xy == sxy / k,
            yy == syy / k,
            k == 900real,
    ;
    assert(xx * yy == xy * xy) by {
        if dx != 0real {
            assert(dx * (xx * yy - xy * xy) == 0real) by (nonlinear_arith)
                requires
                    dy * xx == dx * xy,
                    dy * xy == dx * yy,
            ;
            let z = xx * yy - xy * xy;
            assert(z == 0real) by (nonlinear_arith)
                requires
                    dx * z == 0real,
                    dx != 0real,
            ;
        } else {
            assert(xx == 0real && xy == 0real) by (nonlinear_arith)
                requires
                    dy * xx == 0real * xy,
                    dy * xy == 0real * yy,
                    dy != 0real,
            ;
            assert(0real * yy == 0real) by (nonlinear_arith);
        }
    }
    let t = xx + yy;
    assert(t * 0real == 0real) by (nonlinear_arith);
    assert(are_eigenvalues(b, v, t, 0real));
    law_flat_verdict(b, v, flat, t, 0real);
    assert((125real / 100real) * (1real / 1_000_000real) == (125real / 100real) / 1_000_000real)
        by (nonlinear_arith);
}

/// A block in which the intensity depends on the sum of column and row only is not flat, unless
/// there is hardly any gradient in it: its stripes run along the diagonal.
pub proof fn law_diagonal_texture_is_not_flat<T: Scalar>(
    b: Seq<T>,
    v: spec_fn(T) -> real,
    flat: bool,
    f: spec_fn(int) -> real,
)
    requires
        is_exact(v),
        has_middle(v),
        is_flat_verdict(b, flat),
        forall|x: int, y: int|
            0 <= x < 32 && 0 <= y < 32 ==> #[trigger] block_at(b, v, x, y) == f(x + y),
        mean_of(b, v, Moment::GradientXX) >= (125real / 100real) / 2_000_000real,
    ensures
        !flat,
{
    assert forall|m: int| 0 <= m < NUM_INNER implies 1real * #[trigger] slope_x(b, v, m) == 1real
        * slope_y(b, v, m) by {
        let x = column(m);
        let y = row(m);
        assert(block_at(b, v, x + 1, y) == f(x + 1 + y));
        assert(block_at(b, v, x - 1, y) == f(x - 1 + y));
        assert(block_at(b, v, x, y + 1) == f(x + (y + 1)));
        assert(block_at(b, v, x, y - 1) == f(x + (y - 1)));
    }
    let n = NUM_INNER as int;
    lemma_striped_sums(b, v, 1real, 1real, n);
    assert((125real / 100real) / 2_000_000real * 2real == (125real / 100real) / 1_000_000real)
        by (nonlinear_arith);
    law_stripes_are_not_flat(b, v, flat, 1real, 1real);
}

/// How flat a block is, by its gradients and its noise.
pub open spec fn evidence(e1: real, e2: real, var: real) -> real {
    -12_434real * e1 + 13_087real * (e1 + e2) - 6_682real * var - (2_056real / 10_000real) * (e1
        / larger(e2, 1real / 1_000_000real)) + 25_694real / 10_000real
}

/// What the flatness of a block is worked out from.
proof fn lemma_flatness<T: Scalar>(
    b: Seq<T>,
    v: spec_fn(T) -> real,
    x: T,
    e1: real,
    e2: real,
) -> (e: (T, T))
    requires
        is_exact(v),
        has_middle(v),
        has_exponential(v),
        denotes(flatness(b), x),
        are_eigenvalues(b, v, e1, e2),
    ensures
        unary_gives(UnaryOp::Exponential, e.0, e.1),
        v(e.0) == -within(evidence(e1, e2, noise_in(b, v)), -25real, 100real),
        v(e.1) > 0real,
        v(x) == 1real / (1real + v(e.1)),
{
    lemma_trace_det(b, v);
    lemma_variance(b, v);
    let one: Formula<T> = count(1);
    let a4: Formula<T> = ratio((-2056) as i64, 10_000);
    let c4: Formula<T> = ratio(25_694, 10_000);
    let f4 = mul_add(a4, eigenvalue_ratio(b), c4);
    let a3: Formula<T> = ratio((-6682) as i64, 1);
    let f3 = mul_add(a3, variance(b), f4);
    let a2: Formula<T> = count(13087);
    let f2 = mul_add(a2, gradient_trace(b), f3);
    let a1: Formula<T> = ratio((-12434) as i64, 1);
    let sum = mul_add(a1, spectral_norm(b), f2);
    let low: Formula<T> = ratio((-25) as i64, 1);
    let high: Formula<T> = count(100);
    let kept = clamped(sum, low, high);
    let neg = unary(UnaryOp::Negated, kept);
    let grown = unary(UnaryOp::Exponential, neg);
    assert(flatness(b) == over(one, plus(one, grown)));
    let (o, p) = lemma_operands(BinaryOp::Over, one, plus(one, grown), x);
    let (o2, g) = lemma_operands(BinaryOp::Plus, one, grown, p);
    let n = lemma_operand(UnaryOp::Exponential, neg, g);
    let k = lemma_operand(UnaryOp::Negated, kept, n);
    let (s, l, h) = lemma_clamped_operands(sum, low, high, k);
    let (w1, x1, s2) = lemma_mul_add_operands(a1, spectral_norm(b), f2, s);
    let (w2, x2, s3) = lemma_mul_add_operands(a2, gradient_trace(b), f3, s2);
    let (w3, x3, s4) = lemma_mul_add_operands(a3, variance(b), f4, s3);
    let (w4, x4, s5) = lemma_mul_add_operands(a4, eigenvalue_ratio(b), c4, s4);
    law_worth(one, v, o);
    law_worth(one, v, o2);
    law_worth(low, v, l);
    law_worth(high, v, h);
    law_worth(a1, v, w1);
    law_worth(a2, v, w2);
    law_worth(a3, v, w3);
    law_worth(a4, v, w4);
    law_worth(c4, v, s5);
    law_worth(gradient_trace(b), v, x2);
    law_worth(variance(b), v, x3);
    assert((-25) as i64 as real == -25real);
    assert((-12434) as i64 as real == -12_434real);
    assert((-6682) as i64 as real == -6_682real);
    assert((-2056) as i64 as real == -2_056real);
    assert(-25real / 1real == -25real) by (nonlinear_arith);
    assert(-12_434real / 1real == -12_434real) by (nonlinear_arith);
    assert(-6_682real / 1real == -6_682real) by (nonlinear_arith);
    assert(v(l) == -25real && v(h) == 100real);
    assert(v(w1) == -12_434real && v(w2) == 13_087real && v(w3) == -6_682real);
    assert(v(w4) == -2_056real / 10_000real && v(s5) == 25_694real / 10_000real);
    let (f1, g1) = lemma_norm(b, v, x1);
    lemma_one_pair(b, v, e1, e2, f1, g1);
    let (f2, g2) = lemma_ratio(b, v, x4);
    lemma_one_pair(b, v, e1, e2, f2, g2);
    let z = larger(e2, 1real / 1_000_000real);
    let q = v(x4);
    assert(q == e1 / z) by (nonlinear_arith)
        requires
            q * z == e1,
            z > 0real,
    ;
    let part = 2_056real / 10_000real;
    assert(-2_056real / 10_000real == -part) by (nonlinear_arith)
        requires
            part == 2_056real / 10_000real,
    ;
    assert((-part) * q == -(part * q)) by (nonlinear_arith);
    let var = noise_in(b, v);
    assert(v(s4) == (-part) * q + 25_694real / 10_000real);
    assert(v(s3) == -6_682real * var + v(s4));
    assert(v(s2) == 13_087real * (e1 + e2) + v(s3));
    assert(v(s) == -12_434real * e1 + v(s2));
    assert(evidence(e1, e2, var) == -12_434real * e1 + 13_087real * (e1 + e2) - 6_682real * var
        - part * q + 25_694real / 10_000real);
    let (r0, r1, r2, r3) = (v(s), v(s2), v(s3), v(s4));
    let all = evidence(e1, e2, var);
    let pq = part * q;
    assert(r0 == all) by (nonlinear_arith)
        requires
            r3 == -pq + 25_694real / 10_000real,
            r2 == -6_682real * var + r3,
            r1 == 13_087real * (e1 + e2) + r2,
            r0 == -12_434real * e1 + r1,
            all == -12_434real * e1 + 13_087real * (e1 + e2) - 6_682real * var - pq + 25_694real
                / 10_000real,
    ;
    (n, g)
}

/// Of two noisy blocks, the one with more evidence for being flat does not get the lower
/// score. A block without noise gets the score of zero.
pub proof fn law_score<T: Scalar>(
    b: Seq<T>,
    c: Seq<T>,
    v: spec_fn(T) -> real,
    i: u32,
    j: u32,
    e: (real, real),
    f: (real, real),
)
    requires
        is_exact(v),
        has_middle(v),
        has_exponential(v),
        has_ranks(v),
        is_score(b, i),
        is_score(c, j),
        are_eigenvalues(b, v, e.0, e.1),
        are_eigenvalues(c, v, f.0, f.1),
    ensures
        noise_in(b, v) <= (5real / 1_000real) / 1_024real ==> exists|z: T|
            v(z) == 0real && #[trigger] rank_gives(z, i),
        noise_in(b, v) > (5real / 1_000real) / 1_024real && noise_in(c, v) > (5real / 1_000real)
            / 1_024real && evidence(e.0, e.1, noise_in(b, v)) <= evidence(
            f.0,
            f.1,
            noise_in(c, v),
        ) ==> i <= j,
{
    let x = lemma_score(b, v, i);
    let y = lemma_score(c, v, j);
    let limit = (5real / 1_000real) / 1_024real;
    if noise_in(b, v) <= limit {
        assert(v(x) == 0real && rank_gives(x, i));
    } else if noise_in(c, v) > limit && evidence(e.0, e.1, noise_in(b, v)) <= evidence(
        f.0,
        f.1,
        noise_in(c, v),
    ) {
        let (n1, g1) = lemma_flatness(b, v, x, e.0, e.1);
        let (n2, g2) = lemma_flatness(c, v, y, f.0, f.1);
        let (p, q) = (v(g1), v(g2));
        assert(q <= p);
        assert(0real <= 1real / (1real + p) && 1real / (1real + p) <= 1real / (1real + q))
            by (nonlinear_arith)
            requires
                0real < q,
                q <= p,
        ;
    }
}

/// What the score of a block is the key of.
proof fn lemma_score<T: Scalar>(b: Seq<T>, v: spec_fn(T) -> real, rank: u32) -> (x: T)
    requires
        is_exact(v),
        is_score(b, rank),
    ensures
        rank_gives(x, rank),
        noise_in(b, v) > (5real / 1_000real) / 1_024real ==> denotes(flatness(b), x),
        noise_in(b, v) <= (5real / 1_000real) / 1_024real ==> v(x) == 0real,
{
    lemma_variance(b, v);
    lemma_per_pixel::<T>(v, 5, 1_000);
    let noisy = choose|noisy: bool|
        {
            &&& #[trigger] is_below(per_pixel(5, 1_000), variance(b), noisy)
            &&& is_rank(
                if noisy {
                    flatness(b)
                } else {
                    count(0)
                },
                rank,
            )
        };
    lemma_below(v, per_pixel(5, 1_000), variance(b), noisy);
    let f = if noisy {
        flatness(b)
    } else {
        count(0)
    };
    let x = choose|x: T| #[trigger] denotes(f, x) && call_ensures(T::to_rank, (x,), rank);
    assert(rank_gives(x, rank));
    if !noisy {
        law_worth(count(0), v, x);
    }
    x
}

} // verus!
