//! When two estimates of the noise are told apart, if the number type calculates exactly.
use crate::exact::{
    is_defined, is_exact, is_root, law_worth, lemma_one_root, lemma_worth_total, magnitude, root,
    worth,
};
use crate::kernels::{correlation_gives, Kernels};
use crate::noise_laws::{are_weights_defined, whole_weight};
use crate::precise::{lemma_operand, lemma_operands};
use crate::scalar::{
    below_gives, count, denotes, is_below, minus, over, ratio, times, total, unary, value,
    BinaryOp, Scalar, UnaryOp,
};
use crate::state::{
    column_terms, column_weight, differs, strength_distance, weighted_distances, weights,
    NoiseModelState,
};
use crate::strength::StrengthSolver;
use vstd::prelude::*;

verus! {

/// How far the strengths of two estimates are apart in bin `j`.
pub open spec fn gap<T>(
    latest: StrengthSolver<T>,
    combined: StrengthSolver<T>,
    v: spec_fn(T) -> real,
    j: int,
) -> real {
    magnitude(v(latest.eqns.x@[j]) - v(combined.eqns.x@[j]))
}

/// Whether the strengths of the first estimate have weight.
pub open spec fn has_weight<T>(s: StrengthSolver<T>, v: spec_fn(T) -> real) -> bool {
    &&& s.wf()
    &&& s.num_bins >= 1
    &&& are_weights_defined(s, v)
    &&& worth(whole_weight(s), v) != 0real
}

/// Whether the coefficients of two estimates are found to point in one direction.
pub open spec fn correlates<T: Kernels>(
    latest: NoiseModelState<T>,
    combined: NoiseModelState<T>,
    v: spec_fn(T) -> real,
) -> bool {
    forall|corr: T| #[trigger]
        correlation_gives(latest.eqns.x@, combined.eqns.x@, combined.eqns.n, corr) ==> v(corr)
            >= 9real / 10real
}

/// The weights of the bins are roots.
proof fn lemma_weights<T: Scalar>(s: StrengthSolver<T>, v: spec_fn(T) -> real, k: int, q: T)
    requires
        is_exact(v),
        are_weights_defined(s, v),
        0 <= k <= s.eqns.n,
        denotes(total(count(0), weights(s.eqns, k)), q),
    ensures
        is_defined(total(count(0), weights(s.eqns, k)), v),
        worth(total(count(0), weights(s.eqns, k)), v) >= 0real,
        forall|j: int| 0 <= j < k ==> worth(#[trigger] column_weight(s.eqns, j), v) >= 0real,
    decreases k,
{
    let terms = weights(s.eqns, k);
    lemma_worth_total(terms, v);
    if k > 0 {
        assert(terms.drop_last() =~= weights(s.eqns, k - 1));
        let last = column_weight(s.eqns, k - 1);
        assert(terms.last() == last);
        let (a, b) = lemma_operands(BinaryOp::Plus, total(count(0), terms.drop_last()), last, q);
        lemma_weights(s, v, k - 1, a);
        let inner = total(count(0), column_terms(s.eqns, k - 1, s.eqns.n as int));
        let t = lemma_operand(UnaryOp::SquareRoot, inner, b);
        assert(is_defined(last, v));
        law_worth(inner, v, t);
        assert(is_root(v(t), v(b)));
        lemma_one_root(v(t), v(b), root(v(t)));
        assert(worth(last, v) == root(v(t)));
    }
}

/// A sum of weighted gaps between two bounds.
proof fn lemma_bounded_sum<T: Scalar>(
    p: StrengthSolver<T>,
    q: StrengthSolver<T>,
    v: spec_fn(T) -> real,
    lo: real,
    hi: real,
    k: int,
)
    requires
        are_weights_defined(p, v),
        0 <= k <= p.eqns.n,
        forall|j: int| 0 <= j < k ==> worth(#[trigger] column_weight(p.eqns, j), v) >= 0real,
        forall|j: int| 0 <= j < k ==> lo <= #[trigger] gap(p, q, v, j) <= hi,
    ensures
        is_defined(total(count(0), weighted_distances(p.eqns, q.eqns, k)), v),
        lo * worth(total(count(0), weights(p.eqns, k)), v) <= worth(
            total(count(0), weighted_distances(p.eqns, q.eqns, k)),
            v,
        ),
        worth(total(count(0), weighted_distances(p.eqns, q.eqns, k)), v) <= hi * worth(
            total(count(0), weights(p.eqns, k)),
            v,
        ),
    decreases k,
{
    let terms = weighted_distances(p.eqns, q.eqns, k);
    let ws = weights(p.eqns, k);
    lemma_worth_total(terms, v);
    lemma_worth_total(ws, v);
    if k > 0 {
        lemma_bounded_sum(p, q, v, lo, hi, k - 1);
        let j = k - 1;
        assert(terms.drop_last() =~= weighted_distances(p.eqns, q.eqns, k - 1));
        assert(ws.drop_last() =~= weights(p.eqns, k - 1));
        let wf = column_weight(p.eqns, j);
        let gf = unary(UnaryOp::Absolute, minus(value(p.eqns.x@[j]), value(q.eqns.x@[j])));
        assert(terms.last() == times(wf, gf));
        assert(ws.last() == wf);
        assert(is_defined(wf, v));
        let g = gap(p, q, v, j);
        assert(is_defined(gf, v) && worth(gf, v) == g) by {
            reveal_with_fuel(worth, 3);
            reveal_with_fuel(is_defined, 3);
        }
        let w = worth(wf, v);
        assert(is_defined(terms.last(), v) && worth(terms.last(), v) == w * g);
        let before = worth(total(count(0), ws.drop_last()), v);
        assert(lo * (before + w) == lo * before + lo * w) by (nonlinear_arith);
        assert(hi * (before + w) == hi * before + hi * w) by (nonlinear_arith);
        assert(lo * w <= w * g && w * g <= hi * w) by (nonlinear_arith)
            requires
                w >= 0real,
                lo <= g,
                g <= hi,
        ;
    } else {
        assert(lo * 0real == 0real) by (nonlinear_arith);
        assert(hi * 0real == 0real) by (nonlinear_arith);
    }
}

/// What the distance that is compared with the threshold is worth.
proof fn lemma_distance<T: Scalar>(
    p: StrengthSolver<T>,
    q: StrengthSolver<T>,
    v: spec_fn(T) -> real,
    lo: real,
    hi: real,
    y: T,
)
    requires
        is_exact(v),
        has_weight(p, v),
        forall|j: int| 0 <= j < p.num_bins ==> lo <= #[trigger] gap(p, q, v, j) <= hi,
        denotes(strength_distance(p, q), y),
    ensures
        lo / p.num_bins as real <= v(y) <= hi / p.num_bins as real,
        is_defined(strength_distance(p, q), v),
        v(y) == worth(strength_distance(p, q), v),
{
    let n = p.eqns.n as int;
    let sum = total(count(0), weighted_distances(p.eqns, q.eqns, n));
    let dx = over::<T>(count(1), count(p.num_bins));
    let above = times(sum, dx);
    let whole = whole_weight(p);
    let (a, b) = lemma_operands(BinaryOp::Over, above, whole, y);
    lemma_weights(p, v, n, b);
    lemma_bounded_sum(p, q, v, lo, hi, n);
    assert(is_defined(dx, v) && worth(dx, v) == 1real / p.num_bins as real) by {
        reveal_with_fuel(worth, 3);
        reveal_with_fuel(is_defined, 3);
    }
    let f = strength_distance(p, q);
    let s = worth(sum, v);
    let w = worth(whole, v);
    let m = p.num_bins as real;
    assert(f == over(above, whole));
    assert(is_defined(above, v) && worth(above, v) == s * (1real / m));
    assert(is_defined(f, v) && worth(f, v) == (s * (1real / m)) / w);
    law_worth(f, v, y);
    lemma_quotient_bounds(lo, hi, s, w, m);
}

/// The bounds of a mean.
proof fn lemma_quotient_bounds(lo: real, hi: real, s: real, w: real, m: real)
    requires
        w > 0real,
        m >= 1real,
        lo * w <= s,
        s <= hi * w,
    ensures
        lo / m <= (s * (1real / m)) / w,
        (s * (1real / m)) / w <= hi / m,
{
    let t = s / w;
    assert(t * w == s) by (nonlinear_arith)
        requires
            t == s / w,
            w > 0real,
    ;
    assert(lo <= t && t <= hi) by (nonlinear_arith)
        requires
            lo * w <= s,
            s <= hi * w,
            t * w == s,
            w > 0real,
    ;
    let i = 1real / m;
    assert(i * m == 1real) by (nonlinear_arith)
        requires
            i == 1real / m,
            m >= 1real,
    ;
    assert(i > 0real) by (nonlinear_arith)
        requires
            i * m == 1real,
            m >= 1real,
    ;
    let u = (s * i) / w;
    assert(u == t * i) by (nonlinear_arith)
        requires
            u == (s * i) / w,
            t * w == s,
            w > 0real,
    ;
    assert(lo / m == lo * i) by (nonlinear_arith)
        requires
            i == 1real / m,
            m >= 1real,
    ;
    assert(hi / m == hi * i) by (nonlinear_arith)
        requires
            i == 1real / m,
            m >= 1real,
    ;
    assert(lo * i <= t * i && t * i <= hi * i) by (nonlinear_arith)
        requires
            lo <= t,
            t <= hi,
            i > 0real,
    ;
}

/// What a verdict rests on.
proof fn lemma_verdict<T: Kernels>(
    latest: NoiseModelState<T>,
    combined: NoiseModelState<T>,
    different: bool,
    v: spec_fn(T) -> real,
) -> (r: (T, T))
    requires
        is_exact(v),
        correlates(latest, combined, v),
        differs(latest, combined, different),
    ensures
        denotes(strength_distance(latest.strength_solver, combined.strength_solver), r.1),
        v(r.0) == 5real / 1_000real,
        different == (v(r.0) < v(r.1)),
{
    let distance = strength_distance(latest.strength_solver, combined.strength_solver);
    let (corr, low) = choose|corr: T, low: bool|
        {
            &&& #[trigger] correlation_gives(
                latest.eqns.x@,
                combined.eqns.x@,
                combined.eqns.n,
                corr,
            )
            &&& #[trigger] is_below(value(corr), ratio(9, 10), low)
            &&& if low {
                different
            } else {
                is_below(ratio(5, 1_000), distance, different)
            }
        };
    lemma_low(v, corr, low);
    let (t, y) = choose|t: T, y: T| #[trigger]
        denotes(ratio(5, 1_000), t) && #[trigger] denotes(distance, y) && call_ensures(
            T::below,
            (t, y),
            different,
        );
    assert(below_gives(t, y, different));
    reveal_with_fuel(is_defined, 2);
    law_worth(ratio(5, 1_000), v, t);
    assert(worth(ratio::<T>(5, 1_000), v) == 5real / 1_000real);
    (t, y)
}

/// A correlation is low if it is below nine tenths.
proof fn lemma_low<T: Scalar>(v: spec_fn(T) -> real, corr: T, low: bool)
    requires
        is_exact(v),
        is_below(value(corr), ratio(9, 10), low),
    ensures
        low == (v(corr) < 9real / 10real),
{
    let (x, t) = choose|x: T, t: T| #[trigger]
        denotes(value(corr), x) && #[trigger] denotes(ratio(9, 10), t) && call_ensures(
            T::below,
            (x, t),
            low,
        );
    assert(below_gives(x, t, low));
    reveal_with_fuel(is_defined, 2);
    law_worth(ratio(9, 10), v, t);
    assert(worth(ratio::<T>(9, 10), v) == 9real / 10real);
}

/// Estimates whose coefficients point in other directions are different, whatever the
/// strengths are.
pub proof fn law_other_direction_is_different<T: Kernels>(
    latest: NoiseModelState<T>,
    combined: NoiseModelState<T>,
    different: bool,
    v: spec_fn(T) -> real,
)
    requires
        is_exact(v),
        forall|corr: T| #[trigger]
            correlation_gives(latest.eqns.x@, combined.eqns.x@, combined.eqns.n, corr) ==> v(corr)
                < 9real / 10real,
        differs(latest, combined, different),
    ensures
        different,
{
    let (corr, low) = choose|corr: T, low: bool|
        {
            &&& #[trigger] correlation_gives(
                latest.eqns.x@,
                combined.eqns.x@,
                combined.eqns.n,
                corr,
            )
            &&& #[trigger] is_below(value(corr), ratio(9, 10), low)
            &&& if low {
                different
            } else {
                is_below(
                    ratio(5, 1_000),
                    strength_distance(latest.strength_solver, combined.strength_solver),
                    different,
                )
            }
        };
    lemma_low(v, corr, low);
}

/// Estimates whose strengths are far apart in every bin are different, and estimates whose
/// strengths are close in every bin are not, whichever of the two is the stronger: the
/// threshold for the gap is five thousandths for each bin.
pub proof fn law_gaps_decide<T: Kernels>(
    latest: NoiseModelState<T>,
    combined: NoiseModelState<T>,
    different: bool,
    v: spec_fn(T) -> real,
    c: real,
)
    requires
        is_exact(v),
        has_weight(latest.strength_solver, v),
        correlates(latest, combined, v),
        differs(latest, combined, different),
    ensures
        c / latest.strength_solver.num_bins as real > 5real / 1_000real && (forall|j: int|
            0 <= j < latest.strength_solver.num_bins ==> #[trigger] gap(
                latest.strength_solver,
                combined.strength_solver,
                v,
                j,
            ) >= c) ==> different,
        c / latest.strength_solver.num_bins as real <= 5real / 1_000real && (forall|j: int|
            0 <= j < latest.strength_solver.num_bins ==> #[trigger] gap(
                latest.strength_solver,
                combined.strength_solver,
                v,
                j,
            ) <= c) ==> !different,
{
    let p = latest.strength_solver;
    let q = combined.strength_solver;
    let n = p.num_bins as int;
    let (t, y) = lemma_verdict(latest, combined, different, v);
    let (lo, hi) = lemma_extremes(p, q, v, n);
    lemma_distance(p, q, v, lo, hi, y);
    let m = p.num_bins as real;
    if forall|j: int| 0 <= j < n ==> #[trigger] gap(p, q, v, j) >= c {
        lemma_distance(p, q, v, c, hi + magnitude(c), y);
    }
    if forall|j: int| 0 <= j < n ==> #[trigger] gap(p, q, v, j) <= c {
        lemma_distance(p, q, v, lo, c, y);
    }
}

/// The gaps have bounds.
proof fn lemma_extremes<T>(
    p: StrengthSolver<T>,
    q: StrengthSolver<T>,
    v: spec_fn(T) -> real,
    k: int,
) -> (r: (real, real))
    requires
        0 <= k,
    ensures
        forall|j: int| 0 <= j < k ==> r.0 <= #[trigger] gap(p, q, v, j) <= r.1,
    decreases k,
{
    if k == 0 {
        (0real, 0real)
    } else {
        let (lo, hi) = lemma_extremes(p, q, v, k - 1);
        let g = gap(p, q, v, k - 1);
        (
            if lo <= g {
                lo
            } else {
                g
            },
            if hi >= g {
                hi
            } else {
                g
            },
        )
    }
}

/// Exchanging the strengths of two estimates, with the same weights, leaves the verdict as it
/// is: a frame with less noise is told apart like one with more.
pub proof fn law_exchange_keeps_verdict<T: Kernels>(
    a: NoiseModelState<T>,
    b: NoiseModelState<T>,
    c: NoiseModelState<T>,
    d: NoiseModelState<T>,
    ab: bool,
    cd: bool,
    v: spec_fn(T) -> real,
)
    requires
        is_exact(v),
        has_weight(a.strength_solver, v),
        has_weight(c.strength_solver, v),
        c.strength_solver.num_bins == a.strength_solver.num_bins,
        c.strength_solver.eqns.a@ == a.strength_solver.eqns.a@,
        c.strength_solver.eqns.x@ == b.strength_solver.eqns.x@,
        d.strength_solver.eqns.x@ == a.strength_solver.eqns.x@,
        correlates(a, b, v),
        correlates(c, d, v),
        differs(a, b, ab),
        differs(c, d, cd),
    ensures
        ab == cd,
{
    let p = a.strength_solver;
    let q = b.strength_solver;
    let r = c.strength_solver;
    let s = d.strength_solver;
    let n = p.num_bins as int;
    let (t1, y1) = lemma_verdict(a, b, ab, v);
    let (t2, y2) = lemma_verdict(c, d, cd, v);
    let (lo1, hi1) = lemma_extremes(p, q, v, n);
    let (lo2, hi2) = lemma_extremes(r, s, v, n);
    lemma_distance(p, q, v, lo1, hi1, y1);
    lemma_distance(r, s, v, lo2, hi2, y2);
    assert forall|j: int| #[trigger] column_weight(p.eqns, j) == column_weight(r.eqns, j) by {
        assert(column_terms(p.eqns, j, n) =~= column_terms(r.eqns, j, n));
    }
    assert(weights(p.eqns, n) =~= weights(r.eqns, n));
    lemma_exchanged_sum(p, q, r, s, v, n);
    reveal_with_fuel(worth, 3);
}

/// The sums of the weighted gaps are the same.
proof fn lemma_exchanged_sum<T: Scalar>(
    p: StrengthSolver<T>,
    q: StrengthSolver<T>,
    r: StrengthSolver<T>,
    s: StrengthSolver<T>,
    v: spec_fn(T) -> real,
    k: int,
)
    requires
        0 <= k,
        r.eqns.x@ == q.eqns.x@,
        s.eqns.x@ == p.eqns.x@,
        forall|j: int| #[trigger] column_weight(p.eqns, j) == column_weight(r.eqns, j),
    ensures
        worth(total(count(0), weighted_distances(p.eqns, q.eqns, k)), v) == worth(
            total(count(0), weighted_distances(r.eqns, s.eqns, k)),
            v,
        ),
    decreases k,
{
    let terms = weighted_distances(p.eqns, q.eqns, k);
    let other = weighted_distances(r.eqns, s.eqns, k);
    if k > 0 {
        lemma_exchanged_sum(p, q, r, s, v, k - 1);
        let j = k - 1;
        assert(terms.drop_last() =~= weighted_distances(p.eqns, q.eqns, k - 1));
        assert(other.drop_last() =~= weighted_distances(r.eqns, s.eqns, k - 1));
        let f = unary(UnaryOp::Absolute, minus(value(p.eqns.x@[j]), value(q.eqns.x@[j])));
        let g = unary(UnaryOp::Absolute, minus(value(r.eqns.x@[j]), value(s.eqns.x@[j])));
        assert(column_weight(p.eqns, j) == column_weight(r.eqns, j));
        assert(terms.last() == times(column_weight(p.eqns, j), f));
        assert(other.last() == times(column_weight(r.eqns, j), g));
        assert(worth(f, v) == worth(g, v)) by {
            reveal_with_fuel(worth, 3);
        }
        assert(worth(terms.last(), v) == worth(other.last(), v));
        lemma_worth_total(terms, v);
        lemma_worth_total(other, v);
    }
}

/// The sum of the first `k` entries of column `j`: how much was measured in bin `j`.
pub open spec fn measured_in<T>(
    s: StrengthSolver<T>,
    v: spec_fn(T) -> real,
    j: int,
    k: int,
) -> real
    decreases k,
{
    if k <= 0 {
        0real
    } else {
        measured_in(s, v, j, k - 1) + v(s.eqns.entry(k - 1, j))
    }
}

/// The sum of the first `k` numbers.
pub open spec fn sum_up(r: spec_fn(int) -> real, k: int) -> real
    decreases k,
{
    if k <= 0 {
        0real
    } else {
        sum_up(r, k - 1) + r(k - 1)
    }
}

/// The sum of the gaps in the first `k` bins, each times its weight.
pub open spec fn weighted_gaps<T>(
    latest: StrengthSolver<T>,
    combined: StrengthSolver<T>,
    v: spec_fn(T) -> real,
    r: spec_fn(int) -> real,
    k: int,
) -> real
    decreases k,
{
    if k <= 0 {
        0real
    } else {
        weighted_gaps(latest, combined, v, r, k - 1) + r(k - 1) * gap(latest, combined, v, k - 1)
    }
}

/// What a column is worth.
proof fn lemma_measured_in<T>(s: StrengthSolver<T>, v: spec_fn(T) -> real, j: int, k: int)
    requires
        0 <= k,
    ensures
        is_defined(total(count(0), column_terms(s.eqns, j, k)), v),
        worth(total(count(0), column_terms(s.eqns, j, k)), v) == measured_in(s, v, j, k),
    decreases k,
{
    let terms = column_terms(s.eqns, j, k);
    lemma_worth_total(terms, v);
    if k > 0 {
        lemma_measured_in(s, v, j, k - 1);
        assert(terms.drop_last() =~= column_terms(s.eqns, j, k - 1));
        assert(terms.last() == value(s.eqns.entry(k - 1, j)));
    }
}

/// The sums of the weights and of the weighted gaps, in real numbers.
proof fn lemma_real_sums<T: Scalar>(
    p: StrengthSolver<T>,
    q: StrengthSolver<T>,
    v: spec_fn(T) -> real,
    r: spec_fn(int) -> real,
    k: int,
)
    requires
        0 <= k,
        forall|j: int|
            0 <= j < k ==> is_root(measured_in(p, v, j, p.eqns.n as int), #[trigger] r(j)),
    ensures
        is_defined(total(count(0), weights(p.eqns, k)), v),
        is_defined(total(count(0), weighted_distances(p.eqns, q.eqns, k)), v),
        worth(total(count(0), weights(p.eqns, k)), v) == sum_up(r, k),
        worth(total(count(0), weighted_distances(p.eqns, q.eqns, k)), v) == weighted_gaps(
            p,
            q,
            v,
            r,
            k,
        ),
    decreases k,
{
    let terms = weighted_distances(p.eqns, q.eqns, k);
    let ws = weights(p.eqns, k);
    lemma_worth_total(terms, v);
    lemma_worth_total(ws, v);
    if k > 0 {
        lemma_real_sums(p, q, v, r, k - 1);
        let j = k - 1;
        let n = p.eqns.n as int;
        assert(terms.drop_last() =~= weighted_distances(p.eqns, q.eqns, k - 1));
        assert(ws.drop_last() =~= weights(p.eqns, k - 1));
        let wf = column_weight(p.eqns, j);
        let gf = unary(UnaryOp::Absolute, minus(value(p.eqns.x@[j]), value(q.eqns.x@[j])));
        assert(terms.last() == times(wf, gf));
        assert(ws.last() == wf);
        let m = measured_in(p, v, j, n);
        let x = r(j);
        assert(is_root(m, x));
        assert(m >= 0real) by (nonlinear_arith)
            requires
                x * x == m,
        ;
        lemma_measured_in(p, v, j, n);
        lemma_one_root(m, x, root(m));
        assert(is_defined(wf, v) && worth(wf, v) == x);
        assert(is_defined(gf, v) && worth(gf, v) == gap(p, q, v, j)) by {
            reveal_with_fuel(worth, 3);
            reveal_with_fuel(is_defined, 3);
        }
        assert(is_defined(terms.last(), v) && worth(terms.last(), v) == x * gap(p, q, v, j));
    }
}

/// With coefficients in one direction, the estimates are different if the mean of the gaps,
/// divided by the number of bins, is above five thousandths. A bin counts in the mean by the
/// root of how much was measured in it.
pub proof fn law_verdict<T: Kernels>(
    latest: NoiseModelState<T>,
    combined: NoiseModelState<T>,
    different: bool,
    v: spec_fn(T) -> real,
    r: spec_fn(int) -> real,
)
    requires
        is_exact(v),
        latest.strength_solver.wf(),
        latest.strength_solver.num_bins >= 1,
        forall|j: int|
            0 <= j < latest.strength_solver.num_bins ==> is_root(
                measured_in(
                    latest.strength_solver,
                    v,
                    j,
                    latest.strength_solver.num_bins as int,
                ),
                #[trigger] r(j),
            ),
        sum_up(r, latest.strength_solver.num_bins as int) > 0real,
        correlates(latest, combined, v),
        differs(latest, combined, different),
    ensures
        different <==> (weighted_gaps(
            latest.strength_solver,
            combined.strength_solver,
            v,
            r,
            latest.strength_solver.num_bins as int,
        ) / sum_up(r, latest.strength_solver.num_bins as int))
            / latest.strength_solver.num_bins as real > 5real / 1_000real,
{
    let p = latest.strength_solver;
    let q = combined.strength_solver;
    let n = p.num_bins as int;
    let (t, y) = lemma_verdict(latest, combined, different, v);
    lemma_real_sums(p, q, v, r, n);
    let sum = total(count(0), weighted_distances(p.eqns, q.eqns, n));
    let dx = over::<T>(count(1), count(p.num_bins));
    let above = times(sum, dx);
    let whole = whole_weight(p);
    assert(is_defined(dx, v) && worth(dx, v) == 1real / p.num_bins as real) by {
        reveal_with_fuel(worth, 3);
        reveal_with_fuel(is_defined, 3);
    }
    let f = strength_distance(p, q);
    let s = worth(sum, v);
    let w = worth(whole, v);
    let m = p.num_bins as real;
    assert(f == over(above, whole));
    assert(is_defined(above, v) && worth(above, v) == s * (1real / m));
    assert(is_defined(f, v) && worth(f, v) == (s * (1real / m)) / w);
    law_worth(f, v, y);
    lemma_mean(s, w, m);
}

/// The order of two divisions does not matter.
proof fn lemma_mean(s: real, w: real, m: real)
    requires
        w > 0real,
        m >= 1real,
    ensures
        (s * (1real / m)) / w == (s / w) / m,
{
    let t = s / w;
    assert(t * w == s) by (nonlinear_arith)
        requires
            t == s / w,
            w > 0real,
    ;
    let i = 1real / m;
    assert(t / m == t * i) by (nonlinear_arith)
        requires
            i == 1real / m,
            m >= 1real,
    ;
    let u = (s * i) / w;
    assert(u == t * i) by (nonlinear_arith)
        requires
            u == (s * i) / w,
            t * w == s,
            w > 0real,
    ;
}

} // verus!
