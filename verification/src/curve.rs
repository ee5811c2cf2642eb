//! Simplification of a noise strength curve.
use crate::matrix::filled;
use crate::scalar::{
    count, denotes, is_at_least, is_below, is_index, is_zero, minus, mul_add, over, plus, ratio,
    times, unary, value, Formula, Scalar, Term, UnaryOp,
};
use crate::strength::{at_most, bin_center, bin_position, NoiseStrengthLut, StrengthSolver};
use vstd::prelude::*;

verus! {

/// Whether the centre of bin `j` can be found to lie from `lo` up to, but not at, `hi`.
pub open spec fn is_inside<T: Scalar>(
    num_bins: usize,
    j: int,
    lo: [T; 2],
    hi: [T; 2],
    inside: bool,
) -> bool {
    exists|left: bool|
        {
            &&& #[trigger] is_below(bin_center(num_bins, j), value(lo[0]), left)
            &&& left ==> !inside
            &&& !left ==> is_at_least(bin_center(num_bins, j), value(hi[0]), !inside)
        }
}

/// How far the strength in bin `j` lies from the line through `lo` and `hi`.
pub open spec fn deviation<T>(
    x: Seq<T>,
    num_bins: usize,
    j: int,
    lo: [T; 2],
    hi: [T; 2],
) -> Formula<T> {
    let a = over(
        minus(bin_center(num_bins, j), value(lo[0])),
        minus(value(hi[0]), value(lo[0])),
    );
    unary(
        UnaryOp::Absolute,
        minus(
            value(x[j]),
            mul_add(value(lo[1]), minus(count(1), a), times(value(hi[1]), a)),
        ),
    )
}

/// Whether `f` is the sum of the deviations in the bins from `from` up to, but not at,
/// `to` whose centres are found to lie between `lo` and `hi`.
pub open spec fn is_deviation_sum<T: Scalar>(
    x: Seq<T>,
    num_bins: usize,
    lo: [T; 2],
    hi: [T; 2],
    from: int,
    to: int,
    f: Formula<T>,
) -> bool
    decreases to - from,
{
    if to <= from {
        f == count::<T>(0)
    } else {
        exists|g: Formula<T>, inside: bool|
            {
                &&& is_deviation_sum(x, num_bins, lo, hi, from, to - 1, g)
                &&& #[trigger] deviation_step(x, num_bins, lo, hi, to, g, inside, f)
            }
    }
}

/// Whether `f` is `g` with the deviation in the bin before `to` added if its centre is
/// found to be `inside`.
pub open spec fn deviation_step<T: Scalar>(
    x: Seq<T>,
    num_bins: usize,
    lo: [T; 2],
    hi: [T; 2],
    to: int,
    g: Formula<T>,
    inside: bool,
    f: Formula<T>,
) -> bool {
    &&& is_inside(num_bins, to - 1, lo, hi, inside)
    &&& f == if inside {
        plus(g, deviation(x, num_bins, to - 1, lo, hi))
    } else {
        g
    }
}

/// Whether `r` is the error made in the bins between `lo` and `hi` when the curve is a
/// straight line there.
pub open spec fn is_residual<T: Scalar>(
    x: Seq<T>,
    num_bins: usize,
    lo: [T; 2],
    hi: [T; 2],
    r: T,
) -> bool {
    exists|first: usize, k: usize, f: Formula<T>|
        {
            &&& is_index(unary(UnaryOp::Floor, bin_position(num_bins, value(lo[0]))), first)
            &&& is_index(unary(UnaryOp::Ceil, bin_position(num_bins, value(hi[0]))), k)
            &&& #[trigger] is_deviation_sum(
                x,
                num_bins,
                lo,
                hi,
                first as int,
                at_most(k as int, num_bins - 1) + 1,
                f,
            )
            &&& denotes(times(f, over(count(255), count(num_bins))), r)
        }
}

/// Whether `post` is `pre` with the residuals of the inner points from `start` up to,
/// but not at, `end` worked out anew.
pub open spec fn are_residuals_updated<T: Scalar>(
    x: Seq<T>,
    num_bins: usize,
    points: Seq<[T; 2]>,
    pre: Seq<T>,
    start: int,
    end: int,
    post: Seq<T>,
) -> bool {
    &&& post.len() == pre.len()
    &&& forall|i: int|
        0 <= i < pre.len() ==> if 1 <= i && start <= i < end && i < points.len() - 1 {
            is_residual(x, num_bins, points[i - 1], points[i + 1], #[trigger] post[i])
        } else {
            post[i] == pre[i]
        }
}

/// Whether `m` is found to be the first of the places from 1 up to, but not at, `end`
/// with the least residual.
pub open spec fn is_least<T: Scalar>(residual: Seq<T>, end: int, m: int) -> bool
    decreases end,
{
    if end <= 1 {
        m == 1
    } else {
        exists|p: int, less: bool|
            {
                &&& is_least(residual, end - 1, p)
                &&& #[trigger] least_step(residual, end, p, less, m)
            }
    }
}

/// Whether comparing the place before `end` with the best place `p` so far can come out
/// as `less` and leave `m` as the best.
pub open spec fn least_step<T: Scalar>(
    residual: Seq<T>,
    end: int,
    p: int,
    less: bool,
    m: int,
) -> bool {
    &&& is_below(value(residual[end - 1]), value(residual[p]), less)
    &&& m == if less {
        end - 1
    } else {
        p
    }
}

/// Whether the search for points to remove can come to the verdict `stop` when `m` is
/// the point with the least residual: not while there are more than `max` points, and
/// then if the residual per unit of intensity is above the tolerance.
pub open spec fn stops_at<T: Scalar>(
    points: Seq<[T; 2]>,
    residual: Seq<T>,
    m: int,
    max: int,
    stop: bool,
) -> bool {
    if points.len() <= max {
        is_below(
            ratio(625, 100_000),
            over(
                value(residual[m]),
                minus(value(points[m + 1][0]), value(points[m - 1][0])),
            ),
            stop,
        )
    } else {
        !stop
    }
}

/// Whether removing points one by one can lead from `points` to `result`.
pub open spec fn simplifies_to<T: Scalar>(
    x: Seq<T>,
    num_bins: usize,
    max: int,
    points: Seq<[T; 2]>,
    residual: Seq<T>,
    result: Seq<[T; 2]>,
) -> bool
    decreases points.len(),
{
    if points.len() <= 2 {
        result == points
    } else {
        exists|m: int, stop: bool, next: Seq<T>|
            {
                &&& 1 <= m < points.len() - 1
                &&& #[trigger] removal_step(x, num_bins, max, points, residual, m, stop, next)
                &&& if stop {
                    result == points
                } else {
                    simplifies_to(x, num_bins, max, points.remove(m), next, result)
                }
            }
    }
}

/// Whether one round of the search can pick point `m`, come to the verdict `stop`, and,
/// if it goes on, leave the residuals `next`. When a point is removed, the residuals keep
/// their places while the points behind it move up by one. Only two of them are worked out
/// anew, so a point further on is judged by the residual of the point that was there
/// before it, and one on a straight stretch can stay.
pub open spec fn removal_step<T: Scalar>(
    x: Seq<T>,
    num_bins: usize,
    max: int,
    points: Seq<[T; 2]>,
    residual: Seq<T>,
    m: int,
    stop: bool,
    next: Seq<T>,
) -> bool {
    &&& is_least(residual, points.len() - 1, m)
    &&& stops_at(points, residual, m, max, stop)
    &&& !stop ==> are_residuals_updated(
        x,
        num_bins,
        points.remove(m),
        residual,
        m - 1,
        m + 1,
        next,
    )
}

/// Whether `points` has one point for each bin: its centre and the strength there.
pub open spec fn is_full_curve<T: Scalar>(
    x: Seq<T>,
    num_bins: usize,
    points: Seq<[T; 2]>,
) -> bool {
    &&& points.len() == num_bins
    &&& forall|i: int|
        0 <= i < num_bins ==> denotes(bin_center(num_bins, i), (#[trigger] points[i])[0])
            && points[i][1] == x[i]
}

/// Whether `result` is a curve through at most `max` points that fits the strengths of
/// the solver: the curve through all bins, simplified.
pub open spec fn is_fit<T: Scalar>(
    s: StrengthSolver<T>,
    max: int,
    result: Seq<[T; 2]>,
) -> bool {
    exists|points: Seq<[T; 2]>, blank: Seq<T>, residual: Seq<T>|
        {
            &&& is_full_curve(s.eqns.x@, s.num_bins, points)
            &&& blank.len() == s.num_bins
            &&& forall|i: int| 0 <= i < blank.len() ==> is_zero(#[trigger] blank[i])
            &&& #[trigger] are_residuals_updated(
                s.eqns.x@,
                s.num_bins,
                points,
                blank,
                0,
                s.num_bins as int,
                residual,
            )
            &&& #[trigger] simplifies_to(s.eqns.x@, s.num_bins, max, points, residual, result)
        }
}

/// Whether `result` is what is left of `points` when the points at the places that
/// `kept` does not list are removed. The two end points are not.
pub open spec fn keeps<T>(points: Seq<[T; 2]>, kept: Seq<int>, result: Seq<[T; 2]>) -> bool {
    &&& kept.len() == result.len()
    &&& forall|i: int| 0 <= i < kept.len() ==> 0 <= #[trigger] kept[i] < points.len()
    &&& forall|i: int, j: int| 0 <= i < j < kept.len() ==> #[trigger] kept[i] < #[trigger] kept[j]
    &&& forall|i: int| 0 <= i < kept.len() ==> #[trigger] result[i] == points[kept[i]]
    &&& points.len() >= 1 ==> kept.len() >= 1 && kept.first() == 0 && kept.last() == points.len()
        - 1
}

/// Simplifying a curve only removes points: those that stay keep their order, and the
/// two end points stay. More than `max` points remain only if no inner point is left.
pub proof fn law_simplification<T: Scalar>(
    x: Seq<T>,
    num_bins: usize,
    max: int,
    points: Seq<[T; 2]>,
    residual: Seq<T>,
    result: Seq<[T; 2]>,
)
    requires
        simplifies_to(x, num_bins, max, points, residual, result),
    ensures
        exists|kept: Seq<int>| keeps(points, kept, result),
        points.len() >= 2 ==> result.len() >= 2,
        points.len() >= 1 ==> result.len() >= 1 && result.first() == points.first()
            && result.last() == points.last(),
        result.len() <= max || result.len() <= 2,
    decreases points.len(),
{
    let all = Seq::new(points.len(), |i: int| i);
    if points.len() <= 2 {
        assert(keeps(points, all, result));
    } else {
        let (m, stop, next) = choose|m: int, stop: bool, next: Seq<T>|
            {
                &&& 1 <= m < points.len() - 1
                &&& #[trigger] removal_step(x, num_bins, max, points, residual, m, stop, next)
                &&& if stop {
                    result == points
                } else {
                    simplifies_to(x, num_bins, max, points.remove(m), next, result)
                }
            };
        if stop {
            assert(keeps(points, all, result));
        } else {
            let rest = points.remove(m);
            assert(rest.len() == points.len() - 1);
            assert(rest.first() == points.first());
            assert(rest.last() == points.last());
            law_simplification(x, num_bins, max, rest, next, result);
            let inner = choose|kept: Seq<int>| keeps(rest, kept, result);
            lemma_keeps_after_removal(points, m, inner, result);
        }
    }
}

/// What is left of a curve without point `m` is left of the whole curve.
proof fn lemma_keeps_after_removal<T>(
    points: Seq<[T; 2]>,
    m: int,
    inner: Seq<int>,
    result: Seq<[T; 2]>,
)
    requires
        1 <= m < points.len() - 1,
        keeps(points.remove(m), inner, result),
    ensures
        exists|kept: Seq<int>| keeps(points, kept, result),
{
    let rest = points.remove(m);
    let kept = Seq::new(
        inner.len(),
        |i: int|
            if inner[i] < m {
                inner[i]
            } else {
                inner[i] + 1
            },
    );
    assert forall|i: int| 0 <= i < kept.len() implies #[trigger] result[i] == points[kept[i]] by {
        assert(result[i] == rest[inner[i]]);
    }
    assert forall|i: int| 0 <= i < kept.len() implies 0 <= #[trigger] kept[i] < points.len() by {
        assert(0 <= inner[i] < rest.len());
    }
    assert forall|i: int, j: int| 0 <= i < j < kept.len() implies #[trigger] kept[i]
        < #[trigger] kept[j] by {
        assert(inner[i] < inner[j]);
    }
    assert(rest.len() == points.len() - 1);
    assert(kept.last() == inner.last() + 1);
    assert(keeps(points, kept, result));
}

/// Whether `p` is the centre of bin `k` and the strength there.
pub open spec fn is_point_of_bin<T: Scalar>(s: StrengthSolver<T>, k: int, p: [T; 2]) -> bool {
    &&& 0 <= k < s.num_bins
    &&& denotes(bin_center(s.num_bins, k), p[0])
    &&& p[1] == s.eqns.x@[k]
}

/// Whether `p` is the centre of some bin and the strength there.
pub open spec fn is_bin_point<T: Scalar>(s: StrengthSolver<T>, p: [T; 2]) -> bool {
    exists|k: int| is_point_of_bin(s, k, p)
}

/// A fitted curve starts at the first bin, ends at the last, takes its points from the
/// bins, and has at most `max` points if `max` is at least two.
pub proof fn law_fit<T: Scalar>(s: StrengthSolver<T>, max: int, result: Seq<[T; 2]>)
    requires
        s.num_bins >= 1,
        is_fit(s, max, result),
    ensures
        max >= 2 ==> result.len() <= max,
        1 <= result.len() <= s.num_bins,
        s.num_bins >= 2 ==> result.len() >= 2,
        is_point_of_bin(s, 0, result.first()),
        is_point_of_bin(s, s.num_bins - 1, result.last()),
        forall|i: int|
            0 <= i < result.len() ==> #[trigger] is_bin_point(s, result[i]),
{
    let (points, blank, residual) = choose|points: Seq<[T; 2]>, blank: Seq<T>, residual: Seq<T>|
        {
            &&& is_full_curve(s.eqns.x@, s.num_bins, points)
            &&& blank.len() == s.num_bins
            &&& forall|i: int| 0 <= i < blank.len() ==> is_zero(#[trigger] blank[i])
            &&& #[trigger] are_residuals_updated(
                s.eqns.x@,
                s.num_bins,
                points,
                blank,
                0,
                s.num_bins as int,
                residual,
            )
            &&& #[trigger] simplifies_to(s.eqns.x@, s.num_bins, max, points, residual, result)
        };
    law_simplification(s.eqns.x@, s.num_bins, max, points, residual, result);
    lemma_kept_points(s, points, result);
}

/// What is left of the curve through all bins consists of points of bins.
proof fn lemma_kept_points<T: Scalar>(
    s: StrengthSolver<T>,
    points: Seq<[T; 2]>,
    result: Seq<[T; 2]>,
)
    requires
        is_full_curve(s.eqns.x@, s.num_bins, points),
        exists|kept: Seq<int>| keeps(points, kept, result),
    ensures
        result.len() <= s.num_bins,
        forall|i: int|
            0 <= i < result.len() ==> #[trigger] is_bin_point(s, result[i]),
{
    let kept = choose|kept: Seq<int>| keeps(points, kept, result);
    lemma_increasing_length(kept, s.num_bins as int);
    assert forall|i: int| 0 <= i < result.len() implies #[trigger] is_bin_point(s, result[i]) by {
        let k = kept[i];
        assert(result[i] == points[k]);
        assert(is_point_of_bin(s, k, result[i]));
    }
}

/// An increasing list of places below `bound` has at most `bound` entries.
proof fn lemma_increasing_length(kept: Seq<int>, bound: int)
    requires
        0 <= bound,
        forall|i: int| 0 <= i < kept.len() ==> 0 <= #[trigger] kept[i] < bound,
        forall|i: int, j: int| 0 <= i < j < kept.len() ==> #[trigger] kept[i] < #[trigger] kept[j],
    ensures
        kept.len() <= bound,
    decreases kept.len(),
{
    if kept.len() > 0 {
        let last = kept.last();
        let front = kept.drop_last();
        assert forall|i: int| 0 <= i < front.len() implies 0 <= #[trigger] front[i] < last by {
            assert(kept[i] < kept[kept.len() - 1]);
        }
        lemma_increasing_length(front, last);
    }
}

impl<T: Scalar> StrengthSolver<T> {
    /// A curve through at most `max_output_points` points that fits the strengths in
    /// the bins. Points are removed greedily, while there are too many or while that
    /// hardly hurts; the end points always stay.
    pub fn fit_piecewise(&self, max_output_points: usize) -> (lut: NoiseStrengthLut<T>)
        requires
            self.wf(),
            self.num_bins >= 1,
        ensures
            is_fit(*self, max_output_points as int, lut.points@),
    {
        let ghost x = self.eqns.x@;
        let ghost max = max_output_points as int;
        let num_bins = self.num_bins;
        let mut lut: NoiseStrengthLut<T> = NoiseStrengthLut::new(num_bins);
        let mut i: usize = 0;
        while i < num_bins
            invariant
                i <= num_bins,
                self.wf(),
                num_bins == self.num_bins,
                num_bins >= 1,
                x == self.eqns.x@,
                lut.points.len() == num_bins,
                forall|k: int|
                    0 <= k < i ==> denotes(bin_center(num_bins, k), (#[trigger] lut.points@[k])[0])
                        && lut.points@[k][1] == x[k],
            decreases num_bins - i,
        {
            let point = [self.get_center(i).get(), self.eqns.x[i]];
            lut.points[i] = point;
            i = i + 1;
        }
        let zero = Term::count(0).get();
        let mut residual = filled(num_bins, zero);
        let ghost blank = residual@;
        self.update_piecewise_linear_residual(&lut, &mut residual, 0, num_bins);
        let ghost points0 = lut.points@;
        let ghost residual0 = residual@;
        while lut.points.len() > 2
            invariant_except_break
                self.wf(),
                num_bins == self.num_bins,
                num_bins >= 1,
                x == self.eqns.x@,
                max == max_output_points,
                1 <= lut.points.len() <= num_bins,
                residual.len() == num_bins,
                forall|q: Seq<[T; 2]>| #[trigger]
                    simplifies_to(x, num_bins, max, lut.points@, residual@, q) ==> simplifies_to(
                        x,
                        num_bins,
                        max,
                        points0,
                        residual0,
                        q,
                    ),
                lut.points.len() <= 2 ==> simplifies_to(
                    x,
                    num_bins,
                    max,
                    lut.points@,
                    residual@,
                    lut.points@,
                ),
            ensures
                simplifies_to(x, num_bins, max, points0, residual0, lut.points@),
            decreases lut.points.len(),
        {
            let ghost points = lut.points@;
            let ghost before = residual@;
            let min_index = Self::least_residual(&residual, lut.points.len() - 1);
            let dx = Term::of(lut.points[min_index + 1][0]).minus(
                &Term::of(lut.points[min_index - 1][0]),
            );
            let avg_residual = Term::of(residual[min_index]).over(&dx);
            if lut.points.len() <= max_output_points && Term::ratio(625, 100_000).below(
                &avg_residual,
            ) {
                assert(removal_step(
                    x,
                    num_bins,
                    max,
                    points,
                    before,
                    min_index as int,
                    true,
                    before,
                ));
                assert(simplifies_to(x, num_bins, max, points, before, points));
                break ;
            }
            lut.points.remove(min_index);
            self.update_piecewise_linear_residual(
                &lut,
                &mut residual,
                min_index - 1,
                min_index + 1,
            );
            proof {
                assert(removal_step(
                    x,
                    num_bins,
                    max,
                    points,
                    before,
                    min_index as int,
                    false,
                    residual@,
                ));
                assert forall|q: Seq<[T; 2]>| #[trigger]
                    simplifies_to(x, num_bins, max, lut.points@, residual@, q) implies simplifies_to(
                    x,
                    num_bins,
                    max,
                    points0,
                    residual0,
                    q,
                ) by {
                    assert(simplifies_to(x, num_bins, max, points, before, q));
                }
            }
        }
        lut
    }

    /// The place from 1 up to, but not at, `end` with the least residual.
    fn least_residual(residual: &Vec<T>, end: usize) -> (m: usize)
        requires
            2 <= end <= residual.len(),
        ensures
            1 <= m < end,
            is_least(residual@, end as int, m as int),
    {
        let mut m: usize = 1;
        let mut j: usize = 1;
        while j < end
            invariant
                2 <= end <= residual.len(),
                1 <= j <= end,
                1 <= m < end,
                m == 1 || m < j,
                is_least(residual@, j as int, m as int),
            decreases end - j,
        {
            let ghost p = m;
            let less = Term::of(residual[j]).below(&Term::of(residual[m]));
            if less {
                m = j;
            }
            assert(least_step(residual@, j + 1, p as int, less, m as int));
            j = j + 1;
        }
        m
    }

    /// Works out the residuals of the inner points from `start` up to `end`.
    fn update_piecewise_linear_residual(
        &self,
        lut: &NoiseStrengthLut<T>,
        residual: &mut Vec<T>,
        start: usize,
        end: usize,
    )
        requires
            self.wf(),
            self.num_bins >= 1,
            1 <= lut.points.len() <= old(residual).len(),
        ensures
            are_residuals_updated(
                self.eqns.x@,
                self.num_bins,
                lut.points@,
                old(residual)@,
                start as int,
                end as int,
                final(residual)@,
            ),
    {
        let num_bins = self.num_bins;
        let ghost x = self.eqns.x@;
        let dx = Term::count(255).over(&Term::count(num_bins));
        let stop = if end < lut.points.len() - 1 {
            end
        } else {
            lut.points.len() - 1
        };
        let mut i = if start > 1 {
            start
        } else {
            1
        };
        while i < stop
            invariant
                self.wf(),
                num_bins == self.num_bins,
                num_bins >= 1,
                x == self.eqns.x@,
                dx@ == over(count::<T>(255), count(num_bins)),
                1 <= i,
                start <= i,
                stop <= end,
                stop <= lut.points.len() - 1,
                lut.points.len() <= residual.len(),
                residual.len() == old(residual).len(),
                forall|k: int|
                    0 <= k < residual.len() ==> if 1 <= k && start <= k < stop && k < i {
                        is_residual(
                            x,
                            num_bins,
                            lut.points@[k - 1],
                            lut.points@[k + 1],
                            #[trigger] residual@[k],
                        )
                    } else {
                        residual@[k] == old(residual)@[k]
                    },
            decreases stop - i,
        {
            let lo = lut.points[i - 1];
            let hi = lut.points[i + 1];
            let lower = self.get_bin_index(&Term::of(lo[0])).floor().to_index();
            let ceiling = self.get_bin_index(&Term::of(hi[0])).ceil().to_index();
            let upper = if ceiling <= num_bins - 1 {
                ceiling
            } else {
                num_bins - 1
            };
            let mut r = Term::count(0);
            let mut j = lower;
            while j <= upper
                invariant
                    self.wf(),
                    num_bins == self.num_bins,
                    num_bins >= 1,
                    x == self.eqns.x@,
                    upper <= num_bins - 1,
                    lower <= j,
                    j <= upper + 1 || j == lower,
                    is_deviation_sum(x, num_bins, lo, hi, lower as int, j as int, r@),
                decreases upper + 1 - j,
            {
                let ghost g = r@;
                let center = self.get_center(j);
                let outside = center.below(&Term::of(lo[0])) || center.at_least(
                    &Term::of(hi[0]),
                );
                assert(is_inside(num_bins, j as int, lo, hi, !outside));
                if !outside {
                    let y = Term::of(self.eqns.x[j]);
                    let a = center.minus(&Term::of(lo[0])).over(
                        &Term::of(hi[0]).minus(&Term::of(lo[0])),
                    );
                    let estimate_y = Term::of(lo[1]).mul_add(
                        &Term::count(1).minus(&a),
                        &Term::of(hi[1]).times(&a),
                    );
                    r = r.plus(&y.minus(&estimate_y).absolute());
                }
                assert(deviation_step(x, num_bins, lo, hi, j + 1, g, !outside, r@));
                j = j + 1;
            }
            assert(is_deviation_sum(
                x,
                num_bins,
                lo,
                hi,
                lower as int,
                at_most(ceiling as int, num_bins - 1) + 1,
                r@,
            ));
            residual[i] = r.times(&dx).get();
            assert(is_residual(x, num_bins, lo, hi, residual@[i as int]));
            i = i + 1;
        }
    }
}

} // verus!
