//! How a strength curve is simplified, if the number type calculates exactly.
use crate::curve::{
    are_residuals_updated, deviation, deviation_step, is_deviation_sum, is_fit, is_full_curve,
    is_least, is_point_of_bin, is_residual, least_step, removal_step, simplifies_to,
    stops_at,
};
use crate::exact::{
    is_defined, is_exact, is_floor, law_worth, lemma_one_floor, magnitude, worth,
};
use crate::precise::{at_least_gives, has_order, has_rounding, lemma_operand};
use crate::reals::{
    lemma_above, lemma_between, lemma_even, lemma_nothing, lemma_on_line, lemma_order, lemma_part,
    lemma_units,
};
use crate::report_laws::lemma_below;
use crate::scalar::{
    count, denotes, index_gives, is_at_least, is_below, is_index, is_zero, minus, mul_add, over,
    plus, ratio, times, unary, value, Formula, Scalar, UnaryOp,
};
use crate::strength::{at_most, bin_center, bin_position, StrengthSolver};
use crate::strength_laws::{lemma_position, position};
use vstd::prelude::*;

verus! {

/// The strength in bin `j` on the straight line through the strengths in bins `a` and `b`.
pub open spec fn straight<T>(x: Seq<T>, v: spec_fn(T) -> real, a: int, b: int, j: int) -> real {
    ((b - j) as real * v(x[a]) + (j - a) as real * v(x[b])) / (b - a) as real
}

/// The sum of how far the strengths in the bins from `a` up to, but not at, `to` lie from the
/// straight line through those in bins `a` and `b`.
pub open spec fn bulge<T>(x: Seq<T>, v: spec_fn(T) -> real, a: int, b: int, to: int) -> real
    decreases to - a,
{
    if to <= a {
        0real
    } else {
        bulge(x, v, a, b, to - 1) + magnitude(v(x[to - 1]) - straight(x, v, a, b, to - 1))
    }
}

/// Where the centre of bin `j` lies.
spec fn centre(num_bins: usize, j: int) -> real {
    (j as real / (num_bins - 1) as real) * 255real
}

/// What the centre of a bin is worth.
proof fn lemma_centre<T: Scalar>(num_bins: usize, v: spec_fn(T) -> real, j: int)
    requires
        num_bins >= 2,
        0 <= j < num_bins,
    ensures
        is_defined(bin_center::<T>(num_bins, j), v),
        worth(bin_center::<T>(num_bins, j), v) == centre(num_bins, j),
        0real <= centre(num_bins, j),
        centre(num_bins, j) <= 255real,
        position(num_bins, centre(num_bins, j)) == j as real,
{
    reveal_with_fuel(worth, 4);
    reveal_with_fuel(is_defined, 4);
    let (x, m) = (j as real, (num_bins - 1) as real);
    lemma_part(x, m);
}

/// Centres are ordered as the bins are, and lie at even distances.
proof fn lemma_centres(num_bins: usize, a: int, b: int, j: int)
    requires
        num_bins >= 2,
        a < b,
    ensures
        centre(num_bins, j) < centre(num_bins, a) <==> j < a,
        centre(num_bins, j) >= centre(num_bins, b) <==> j >= b,
        centre(num_bins, b) - centre(num_bins, a) > 0real,
        (centre(num_bins, j) - centre(num_bins, a)) / (centre(num_bins, b) - centre(num_bins, a))
            == (j - a) as real / (b - a) as real,
{
    let m = (num_bins - 1) as real;
    let u = 255real / m;
    let (x, y, z) = (a as real, b as real, j as real);
    lemma_units(x, m);
    lemma_units(y, m);
    lemma_units(z, m);
    lemma_even(u, x, y, z);
    assert((j - a) as real == z - x && (b - a) as real == y - x);
}

/// A comparison of formulas compares what they are worth.
proof fn lemma_at_least<T: Scalar>(
    v: spec_fn(T) -> real,
    f: Formula<T>,
    g: Formula<T>,
    c: bool,
)
    requires
        is_exact(v),
        has_order(v),
        is_defined(f, v),
        is_defined(g, v),
        is_at_least(f, g, c),
    ensures
        c == (worth(f, v) >= worth(g, v)),
{
    let (x, y) = choose|x: T, y: T| #[trigger]
        denotes(f, x) && #[trigger] denotes(g, y) && call_ensures(T::at_least, (x, y), c);
    law_worth(f, v, x);
    law_worth(g, v, y);
    assert(at_least_gives(x, y, c));
}

/// The bins that are looked at.
proof fn lemma_range<T: Scalar>(
    num_bins: usize,
    v: spec_fn(T) -> real,
    p: T,
    op: UnaryOp,
    j: int,
    k: usize,
)
    requires
        is_exact(v),
        has_rounding(v),
        num_bins >= 2,
        0 <= j < num_bins,
        v(p) == centre(num_bins, j),
        op == UnaryOp::Floor || op == UnaryOp::Ceil,
        is_index(unary(op, bin_position(num_bins, value(p))), k),
    ensures
        k == j,
{
    let f = bin_position(num_bins, value(p));
    let x = choose|x: T| #[trigger] denotes(unary(op, f), x) && call_ensures(
        T::to_index,
        (x,),
        k,
    );
    let y = lemma_operand(op, f, x);
    lemma_position(num_bins, v, p);
    lemma_centre(num_bins, v, j);
    law_worth(f, v, y);
    assert(v(y) == j as real);
    if op == UnaryOp::Floor {
        let i = choose|i: int| #[trigger] is_floor(v(y), i) && v(x) == i as real;
        lemma_one_floor(v(y), i, j);
    } else {
        let i = choose|i: int| #[trigger] is_floor(-v(y), -i) && v(x) == i as real;
        assert(is_floor(-v(y), -j));
        lemma_one_floor(-v(y), -i, -j);
    }
    assert(index_gives(x, k));
    assert(is_floor(v(x), k as int));
    lemma_one_floor(v(x), k as int, j);
}

/// What the deviation in a bin is worth.
proof fn lemma_deviation<T: Scalar>(
    s: StrengthSolver<T>,
    v: spec_fn(T) -> real,
    a: int,
    b: int,
    j: int,
    lo: [T; 2],
    hi: [T; 2],
)
    requires
        s.num_bins >= 2,
        0 <= a < b < s.num_bins,
        0 <= j < s.num_bins,
        v(lo[0]) == centre(s.num_bins, a),
        lo[1] == s.eqns.x@[a],
        v(hi[0]) == centre(s.num_bins, b),
        hi[1] == s.eqns.x@[b],
    ensures
        is_defined(deviation(s.eqns.x@, s.num_bins, j, lo, hi), v),
        worth(deviation(s.eqns.x@, s.num_bins, j, lo, hi), v) == magnitude(
            v(s.eqns.x@[j]) - straight(s.eqns.x@, v, a, b, j),
        ),
{
    let x = s.eqns.x@;
    let c = bin_center::<T>(s.num_bins, j);
    lemma_centre(s.num_bins, v, j);
    lemma_centres(s.num_bins, a, b, j);
    let above = minus(c, value(lo[0]));
    let all = minus(value(hi[0]), value(lo[0]));
    let t = (j - a) as real / (b - a) as real;
    assert(is_defined(above, v) && worth(above, v) == centre(s.num_bins, j) - v(lo[0])) by {
        reveal_with_fuel(worth, 2);
        reveal_with_fuel(is_defined, 2);
    }
    assert(is_defined(all, v) && worth(all, v) == v(hi[0]) - v(lo[0])) by {
        reveal_with_fuel(worth, 2);
        reveal_with_fuel(is_defined, 2);
    }
    let f = over(above, all);
    assert(is_defined(f, v) && worth(f, v) == t);
    let one = minus(count(1), f);
    assert(is_defined(one, v) && worth(one, v) == 1real - t) by {
        reveal_with_fuel(worth, 2);
        reveal_with_fuel(is_defined, 2);
    }
    let part = times(value(hi[1]), f);
    assert(is_defined(part, v) && worth(part, v) == v(x[b]) * t) by {
        reveal_with_fuel(worth, 2);
        reveal_with_fuel(is_defined, 2);
    }
    let line = mul_add(value(lo[1]), one, part);
    assert(is_defined(line, v) && worth(line, v) == v(x[a]) * (1real - t) + v(x[b]) * t) by {
        reveal_with_fuel(worth, 2);
        reveal_with_fuel(is_defined, 2);
    }
    let (p, q) = (v(x[a]), v(x[b]));
    let (e, d, r) = ((j - a) as real, (b - a) as real, (b - j) as real);
    assert(r == d - e);
    lemma_between(p, q, e, d);
    let gap = minus(value(x[j]), line);
    assert(is_defined(gap, v) && worth(gap, v) == v(x[j]) - straight(x, v, a, b, j)) by {
        reveal_with_fuel(worth, 2);
        reveal_with_fuel(is_defined, 2);
    }
    assert(deviation(x, s.num_bins, j, lo, hi) == unary(UnaryOp::Absolute, gap));
}

/// What the sum of the deviations is worth.
proof fn lemma_deviations<T: Scalar>(
    s: StrengthSolver<T>,
    v: spec_fn(T) -> real,
    a: int,
    b: int,
    lo: [T; 2],
    hi: [T; 2],
    to: int,
    f: Formula<T>,
)
    requires
        is_exact(v),
        has_order(v),
        s.num_bins >= 2,
        0 <= a < b < s.num_bins,
        a <= to <= b + 1,
        v(lo[0]) == centre(s.num_bins, a),
        lo[1] == s.eqns.x@[a],
        v(hi[0]) == centre(s.num_bins, b),
        hi[1] == s.eqns.x@[b],
        is_deviation_sum(s.eqns.x@, s.num_bins, lo, hi, a, to, f),
    ensures
        is_defined(f, v),
        worth(f, v) == bulge(s.eqns.x@, v, a, b, at_most(to, b)),
    decreases to - a,
{
    let x = s.eqns.x@;
    if to > a {
        let (g, inside) = choose|g: Formula<T>, inside: bool|
            {
                &&& is_deviation_sum(x, s.num_bins, lo, hi, a, to - 1, g)
                &&& #[trigger] deviation_step(x, s.num_bins, lo, hi, to, g, inside, f)
            };
        lemma_deviations(s, v, a, b, lo, hi, to - 1, g);
        let j = to - 1;
        let c = bin_center::<T>(s.num_bins, j);
        let left = choose|left: bool|
            {
                &&& #[trigger] is_below(c, value(lo[0]), left)
                &&& left ==> !inside
                &&& !left ==> is_at_least(c, value(hi[0]), !inside)
            };
        lemma_centre(s.num_bins, v, j);
        lemma_centres(s.num_bins, a, b, j);
        lemma_below(v, c, value(lo[0]), left);
        assert(!left);
        lemma_at_least(v, c, value(hi[0]), !inside);
        assert(inside == (j < b));
        if inside {
            lemma_deviation(s, v, a, b, j, lo, hi);
            let e = deviation(x, s.num_bins, j, lo, hi);
            assert(f == plus(g, e));
        }
    }
}

/// The error of replacing the curve between two bins by a straight line is the sum of how far
/// the strengths of the bins lie from the line, times the width of a bin.
pub proof fn law_residual<T: Scalar>(
    s: StrengthSolver<T>,
    v: spec_fn(T) -> real,
    a: int,
    b: int,
    lo: [T; 2],
    hi: [T; 2],
    r: T,
)
    requires
        is_exact(v),
        has_order(v),
        has_rounding(v),
        s.num_bins >= 2,
        a < b,
        is_point_of_bin(s, a, lo),
        is_point_of_bin(s, b, hi),
        is_residual(s.eqns.x@, s.num_bins, lo, hi, r),
    ensures
        v(r) == bulge(s.eqns.x@, v, a, b, b) * (255real / s.num_bins as real),
{
    let x = s.eqns.x@;
    let n = s.num_bins;
    lemma_centre(n, v, a);
    lemma_centre(n, v, b);
    law_worth(bin_center(n, a), v, lo[0]);
    law_worth(bin_center(n, b), v, hi[0]);
    let (first, k, f) = choose|first: usize, k: usize, f: Formula<T>|
        {
            &&& is_index(unary(UnaryOp::Floor, bin_position(n, value(lo[0]))), first)
            &&& is_index(unary(UnaryOp::Ceil, bin_position(n, value(hi[0]))), k)
            &&& #[trigger] is_deviation_sum(
                x,
                n,
                lo,
                hi,
                first as int,
                at_most(k as int, n - 1) + 1,
                f,
            )
            &&& denotes(times(f, over(count(255), count(n))), r)
        };
    lemma_range(n, v, lo[0], UnaryOp::Floor, a, first);
    lemma_range(n, v, hi[0], UnaryOp::Ceil, b, k);
    lemma_deviations(s, v, a, b, lo, hi, b + 1, f);
    let width = over::<T>(count(255), count(n));
    assert(is_defined(width, v) && worth(width, v) == 255real / n as real) by {
        reveal_with_fuel(worth, 2);
        reveal_with_fuel(is_defined, 2);
    }
    let g = times(f, width);
    assert(is_defined(g, v));
    law_worth(g, v, r);
}

/// The least residual is found.
proof fn lemma_least<T: Scalar>(residual: Seq<T>, v: spec_fn(T) -> real, end: int, m: int)
    requires
        is_exact(v),
        1 < end,
        is_least(residual, end, m),
    ensures
        1 <= m < end,
        forall|i: int| 1 <= i < end ==> v(residual[m]) <= v(#[trigger] residual[i]),
        forall|i: int| 1 <= i < m ==> v(residual[m]) < v(#[trigger] residual[i]),
    decreases end,
{
    let (p, less) = choose|p: int, less: bool|
        {
            &&& is_least(residual, end - 1, p)
            &&& #[trigger] least_step(residual, end, p, less, m)
        };
    lemma_below(v, value(residual[end - 1]), value(residual[p]), less);
    if end > 2 {
        lemma_least(residual, v, end - 1, p);
    }
}

/// In each round the first inner point with the least residual is picked. It is removed unless
/// there are few enough points and its residual, for each unit of intensity between the points
/// beside it, is above the tolerance.
pub proof fn law_removal<T: Scalar>(
    s: StrengthSolver<T>,
    v: spec_fn(T) -> real,
    max: int,
    points: Seq<[T; 2]>,
    residual: Seq<T>,
    m: int,
    stop: bool,
    next: Seq<T>,
)
    requires
        is_exact(v),
        points.len() > 2,
        v(points[m - 1][0]) < v(points[m + 1][0]),
        removal_step(s.eqns.x@, s.num_bins, max, points, residual, m, stop, next),
    ensures
        1 <= m < points.len() - 1,
        forall|i: int| 1 <= i < points.len() - 1 ==> v(residual[m]) <= v(#[trigger] residual[i]),
        forall|i: int| 1 <= i < m ==> v(residual[m]) < v(#[trigger] residual[i]),
        stop <==> points.len() <= max && v(residual[m]) > (625real / 100_000real) * (v(
            points[m + 1][0],
        ) - v(points[m - 1][0])),
{
    lemma_least(residual, v, points.len() - 1, m);
    if points.len() <= max {
        let gap = minus(value(points[m + 1][0]), value(points[m - 1][0]));
        let (hi, lo) = (v(points[m + 1][0]), v(points[m - 1][0]));
        assert(is_defined(gap, v) && worth(gap, v) == hi - lo) by {
            reveal_with_fuel(worth, 2);
            reveal_with_fuel(is_defined, 2);
        }
        let each = over(value(residual[m]), gap);
        let e = v(residual[m]);
        assert(is_defined(each, v) && worth(each, v) == e / (hi - lo)) by {
            reveal_with_fuel(worth, 2);
            reveal_with_fuel(is_defined, 2);
        }
        let least: Formula<T> = ratio(625, 100_000);
        let t = 625real / 100_000real;
        assert(is_defined(least, v) && worth(least, v) == t) by {
            assert(625i64 as real == 625real && 100_000i64 as real == 100_000real);
        }
        assert(stops_at(points, residual, m, max, stop));
        lemma_below(v, least, each, stop);
        let d = hi - lo;
        lemma_above(t, e, d);
    }
}

/// Whether the points are those of the given bins, in order.
pub open spec fn are_points_of<T: Scalar>(
    s: StrengthSolver<T>,
    points: Seq<[T; 2]>,
    bins: Seq<int>,
) -> bool {
    &&& bins.len() == points.len()
    &&& forall|i: int|
        0 <= i < points.len() ==> is_point_of_bin(s, #[trigger] bins[i], points[i])
    &&& forall|i: int, j: int|
        0 <= i < j < points.len() ==> #[trigger] bins[i] < #[trigger] bins[j]
}

/// When a point is removed, the residuals of the points that were beside it are those of the
/// lines that leave them out. The other residuals stay at their places.
pub proof fn law_residuals_after_removal<T: Scalar>(
    s: StrengthSolver<T>,
    v: spec_fn(T) -> real,
    max: int,
    points: Seq<[T; 2]>,
    bins: Seq<int>,
    residual: Seq<T>,
    m: int,
    next: Seq<T>,
    i: int,
)
    requires
        is_exact(v),
        has_order(v),
        has_rounding(v),
        s.num_bins >= 2,
        are_points_of(s, points, bins),
        residual.len() >= points.len(),
        1 <= m < points.len() - 1,
        removal_step(s.eqns.x@, s.num_bins, max, points, residual, m, false, next),
        1 <= i < points.len() - 2,
    ensures
        i == m - 1 ==> v(next[i]) == bulge(s.eqns.x@, v, bins[m - 2], bins[m + 1], bins[m + 1]) * (
        255real / s.num_bins as real),
        i == m ==> v(next[i]) == bulge(s.eqns.x@, v, bins[m - 1], bins[m + 2], bins[m + 2]) * (
        255real / s.num_bins as real),
        i < m - 1 || i > m ==> next[i] == residual[i],
{
    let fewer = points.remove(m);
    assert(fewer.len() == points.len() - 1);
    if i == m - 1 {
        assert(is_point_of_bin(s, bins[m - 2], points[m - 2]));
        assert(is_point_of_bin(s, bins[m + 1], points[m + 1]));
        assert(fewer[i - 1] == points[m - 2] && fewer[i + 1] == points[m + 1]);
        law_residual(
            s,
            v,
            bins[m - 2],
            bins[m + 1],
            points[m - 2],
            points[m + 1],
            next[i],
        );
    } else if i == m {
        assert(is_point_of_bin(s, bins[m - 1], points[m - 1]));
        assert(is_point_of_bin(s, bins[m + 2], points[m + 2]));
        assert(fewer[i - 1] == points[m - 1] && fewer[i + 1] == points[m + 2]);
        law_residual(
            s,
            v,
            bins[m - 1],
            bins[m + 2],
            points[m - 1],
            points[m + 2],
            next[i],
        );
    }
}

/// Whether the strengths of the bins lie on a straight line.
pub open spec fn is_straight<T>(
    s: StrengthSolver<T>,
    v: spec_fn(T) -> real,
    level: real,
    slope: real,
) -> bool {
    forall|j: int|
        0 <= j < s.num_bins ==> v(#[trigger] s.eqns.x@[j]) == level + slope * j as real
}

/// A straight line does not bulge.
proof fn lemma_no_bulge<T>(
    s: StrengthSolver<T>,
    v: spec_fn(T) -> real,
    level: real,
    slope: real,
    a: int,
    b: int,
    to: int,
)
    requires
        is_straight(s, v, level, slope),
        0 <= a < b < s.num_bins,
        to <= b,
    ensures
        bulge(s.eqns.x@, v, a, b, to) == 0real,
    decreases to - a,
{
    if to > a {
        lemma_no_bulge(s, v, level, slope, a, b, to - 1);
        let j = to - 1;
        let (x, y, z) = (a as real, b as real, j as real);
        let (p, q) = (v(s.eqns.x@[a]), v(s.eqns.x@[b]));
        assert(v(s.eqns.x@[j]) == level + slope * z);
        assert((b - j) as real == y - z && (j - a) as real == z - x && (b - a) as real == y - x);
        lemma_on_line(level, slope, x, y, z);
    }
}

/// A residual on a straight line.
proof fn lemma_no_residual<T: Scalar>(
    s: StrengthSolver<T>,
    v: spec_fn(T) -> real,
    level: real,
    slope: real,
    a: int,
    b: int,
    lo: [T; 2],
    hi: [T; 2],
    r: T,
)
    requires
        is_exact(v),
        has_order(v),
        has_rounding(v),
        s.num_bins >= 2,
        is_straight(s, v, level, slope),
        a < b,
        is_point_of_bin(s, a, lo),
        is_point_of_bin(s, b, hi),
        is_residual(s.eqns.x@, s.num_bins, lo, hi, r),
    ensures
        v(r) == 0real,
{
    law_residual(s, v, a, b, lo, hi, r);
    lemma_no_bulge(s, v, level, slope, a, b, b);
    let w = 255real / s.num_bins as real;
    lemma_nothing(w);
}

/// Simplifying a straight line leaves its ends.
proof fn lemma_only_ends<T: Scalar>(
    s: StrengthSolver<T>,
    v: spec_fn(T) -> real,
    level: real,
    slope: real,
    max: int,
    points: Seq<[T; 2]>,
    bins: Seq<int>,
    residual: Seq<T>,
    result: Seq<[T; 2]>,
)
    requires
        is_exact(v),
        has_order(v),
        has_rounding(v),
        s.num_bins >= 2,
        is_straight(s, v, level, slope),
        are_points_of(s, points, bins),
        points.len() >= 2,
        residual.len() >= points.len(),
        forall|i: int| 1 <= i < points.len() - 1 ==> v(#[trigger] residual[i]) == 0real,
        simplifies_to(s.eqns.x@, s.num_bins, max, points, residual, result),
    ensures
        result.len() == 2,
    decreases points.len(),
{
    let x = s.eqns.x@;
    let n = s.num_bins;
    if points.len() > 2 {
        let (m, stop, next) = choose|m: int, stop: bool, next: Seq<T>|
            {
                &&& 1 <= m < points.len() - 1
                &&& #[trigger] removal_step(x, n, max, points, residual, m, stop, next)
                &&& if stop {
                    result == points
                } else {
                    simplifies_to(x, n, max, points.remove(m), next, result)
                }
            };
        let (a, b) = (bins[m - 1], bins[m + 1]);
        assert(is_point_of_bin(s, a, points[m - 1]) && is_point_of_bin(s, b, points[m + 1]));
        lemma_centre(n, v, a);
        lemma_centre(n, v, b);
        lemma_centres(n, a, b, a);
        law_worth(bin_center(n, a), v, points[m - 1][0]);
        law_worth(bin_center(n, b), v, points[m + 1][0]);
        law_removal(s, v, max, points, residual, m, stop, next);
        let d = v(points[m + 1][0]) - v(points[m - 1][0]);
        let t = 625real / 100_000real;
        lemma_order(t, 0real, d);
        lemma_nothing(t);
        assert(v(residual[m]) == 0real);
        assert(!stop);
        let fewer = points.remove(m);
        let left = bins.remove(m);
        assert(are_points_of(s, fewer, left)) by {
            assert forall|i: int| 0 <= i < fewer.len() implies is_point_of_bin(
                s,
                #[trigger] left[i],
                fewer[i],
            ) by {
                if i < m {
                    assert(left[i] == bins[i]);
                } else {
                    assert(left[i] == bins[i + 1]);
                }
            }
        }
        assert(are_residuals_updated(x, n, fewer, residual, m - 1, m + 1, next));
        assert forall|i: int| 1 <= i < fewer.len() - 1 implies v(#[trigger] next[i]) == 0real by {
            if m - 1 <= i < m + 1 {
                assert(is_point_of_bin(s, left[i - 1], fewer[i - 1]));
                assert(is_point_of_bin(s, left[i + 1], fewer[i + 1]));
                lemma_no_residual(
                    s,
                    v,
                    level,
                    slope,
                    left[i - 1],
                    left[i + 1],
                    fewer[i - 1],
                    fewer[i + 1],
                    next[i],
                );
            } else {
                assert(next[i] == residual[i]);
            }
        }
        lemma_only_ends(s, v, level, slope, max, fewer, left, next, result);
    }
}

/// Where the strengths lie on a straight line, the curve is fitted by its two ends.
pub proof fn law_straight_curve<T: Scalar>(
    s: StrengthSolver<T>,
    v: spec_fn(T) -> real,
    level: real,
    slope: real,
    max: int,
    result: Seq<[T; 2]>,
)
    requires
        is_exact(v),
        has_order(v),
        has_rounding(v),
        s.num_bins >= 2,
        is_straight(s, v, level, slope),
        is_fit(s, max, result),
    ensures
        result.len() == 2,
{
    let x = s.eqns.x@;
    let n = s.num_bins;
    let (points, blank, residual) = choose|points: Seq<[T; 2]>, blank: Seq<T>, residual: Seq<T>|
        {
            &&& is_full_curve(x, n, points)
            &&& blank.len() == n
            &&& forall|i: int| 0 <= i < blank.len() ==> is_zero(#[trigger] blank[i])
            &&& #[trigger] are_residuals_updated(x, n, points, blank, 0, n as int, residual)
            &&& #[trigger] simplifies_to(x, n, max, points, residual, result)
        };
    let bins = Seq::new(n as nat, |i: int| i);
    assert(are_points_of(s, points, bins)) by {
        assert forall|i: int| 0 <= i < points.len() implies is_point_of_bin(
            s,
            #[trigger] bins[i],
            points[i],
        ) by {
            assert(points[i][1] == x[i]);
        }
    }
    assert forall|i: int| 1 <= i < points.len() - 1 implies v(#[trigger] residual[i]) == 0real by {
        assert(is_point_of_bin(s, bins[i - 1], points[i - 1]));
        assert(is_point_of_bin(s, bins[i + 1], points[i + 1]));
        lemma_no_residual(
            s,
            v,
            level,
            slope,
            i - 1,
            i + 1,
            points[i - 1],
            points[i + 1],
            residual[i],
        );
    }
    lemma_only_ends(s, v, level, slope, max, points, bins, residual, result);
}

} // verus!
