//! What holds of measured and compared noise when the number type calculates exactly.
use crate::exact::{is_defined, is_exact, is_root, larger, law_worth, lemma_one_root, root, worth};
use crate::kernels::{correlation_gives, Kernels};
use crate::measurement_laws::{is_balanced, lemma_zero, matrix_sum, row_sum};
use crate::measurements::{
    block_mean_gives, correlation, holds_measurements, is_luma_strength, is_taken_in,
    noise_var_gives, uncorrelated_std, LumaNoise,
};
use crate::model::luma_noise;
use crate::observations::ChannelSurvey;
use crate::plane::Plane;
use crate::scalar::{
    below_gives, binary_gives, count, denotes, is_below, maximum, minus, mul_add, over, plus, ratio,
    ratio_gives, times, total, unary, unary_gives, value, BinaryOp, Formula, Scalar, UnaryOp,
};
use crate::state::{
    column_terms, column_weight, differs, strength_distance, weighted_distances, weights,
    NoiseModelState,
};
use crate::strength::{is_strength_at, StrengthSolver};
use crate::update::is_state_saved;
use vstd::prelude::*;

verus! {

/// The square of what is not correlated with luma, in real numbers.
pub open spec fn uncorrelated_var(var: real, part: real) -> real {
    larger(var / 16real, part * (-part) + var)
}

/// What the measured strength is, in real numbers.
proof fn lemma_strength<T: Scalar>(
    v: spec_fn(T) -> real,
    var: T,
    corr: T,
    f: Formula<T>,
    gain: T,
    strength: T,
)
    requires
        is_exact(v),
        is_defined(f, v),
        v(var) >= 0real,
        v(gain) > 0real,
        denotes(
            over(uncorrelated_std(value(var), value(corr), f), value(gain)),
            strength,
        ),
    ensures
        ({
            let w = uncorrelated_var(v(var), v(corr) * worth(f, v));
            &&& w >= 0real
            &&& is_root(w, root(w))
            &&& v(strength) == root(w) / v(gain)
        }),
{
    let c = value(corr);
    let part = times(c, f);
    let inner = maximum(
        over(value(var), count(16)),
        mul_add(part, unary(UnaryOp::Negated, part), value(var)),
    );
    let std = unary(UnaryOp::SquareRoot, inner);
    let p = v(corr) * worth(f, v);
    assert(is_defined(part, v) && worth(part, v) == p) by {
        reveal_with_fuel(worth, 2);
        reveal_with_fuel(is_defined, 2);
    }
    assert(is_defined(inner, v) && worth(inner, v) == uncorrelated_var(v(var), p)) by {
        reveal_with_fuel(worth, 4);
        reveal_with_fuel(is_defined, 4);
    }
    let w = uncorrelated_var(v(var), p);
    assert(w >= 0real) by {
        assert(v(var) / 16real >= 0real) by (nonlinear_arith)
            requires
                v(var) >= 0real,
        ;
    }
    assert(is_defined(std, v));
    assert(worth(std, v) == root(w));
    let whole_formula = over(std, value(gain));
    assert(uncorrelated_std(value(var), c, f) == std);
    let (x, y) = choose|x: T, y: T|
        denotes(std, x) && denotes(value(gain), y) && #[trigger] binary_gives(
            BinaryOp::Over,
            x,
            y,
            strength,
        );
    let z = choose|z: T| denotes(inner, z) && #[trigger] unary_gives(UnaryOp::SquareRoot, z, x);
    law_worth(inner, v, z);
    assert(is_root(w, v(x)));
    lemma_one_root(w, v(x), root(w));
}

/// A larger number has a larger root.
proof fn lemma_root_order(x: real, y: real, r: real, s: real)
    requires
        is_root(x, r),
        is_root(y, s),
        x <= y,
    ensures
        r <= s,
{
    assert(r <= s) by (nonlinear_arith)
        requires
            r >= 0real,
            s >= 0real,
            r * r <= s * s,
    ;
}

/// Whether reading a block has one outcome, and the variance of the noise is not negative.
pub open spec fn has_one_reading<T: Kernels>(v: spec_fn(T) -> real) -> bool {
    &&& forall|p: Plane<u8>, dims: (usize, usize), x: usize, y: usize, r: T, q: T| #[trigger]
        block_mean_gives(p, dims, x, y, r) && #[trigger] block_mean_gives(p, dims, x, y, q) ==> r
            == q
    &&& forall|
        s: Plane<u8>,
        d: Plane<u8>,
        dims: (usize, usize),
        x: usize,
        y: usize,
        block: (usize, usize),
        r: T,
        q: T,
    | #[trigger]
        noise_var_gives(s, d, dims, x, y, block, r) && #[trigger] noise_var_gives(
            s,
            d,
            dims,
            x,
            y,
            block,
            q,
        ) ==> r == q
    &&& forall|
        s: Plane<u8>,
        d: Plane<u8>,
        dims: (usize, usize),
        x: usize,
        y: usize,
        block: (usize, usize),
        r: T,
    | #[trigger]
        noise_var_gives(s, d, dims, x, y, block, r) ==> v(r) >= 0real
}

/// Taking the luma noise into account makes a block's strength smaller, but not smaller than
/// a quarter.
pub proof fn law_luma_noise_in_block<T: Kernels>(
    survey: ChannelSurvey,
    v: spec_fn(T) -> real,
    noise_gain: T,
    without: LumaNoise<T>,
    with: LumaNoise<T>,
    index: int,
    m0: Option<(T, T)>,
    m1: Option<(T, T)>,
)
    requires
        is_exact(v),
        has_one_reading(v),
        v(noise_gain) > 0real,
        with.corr == without.corr,
        v(without.gain) == 0real,
        survey.is_measurement(noise_gain, Some(without), index, m0),
        survey.is_measurement(noise_gain, Some(with), index, m1),
    ensures
        m0 is Some <==> m1 is Some,
        m0 is Some ==> {
            let (mean0, strength0) = m0->0;
            let (mean1, strength1) = m1->0;
            &&& mean0 == mean1
            &&& v(strength0) / 4real <= v(strength1)
            &&& v(strength1) <= v(strength0)
        },
{
    if m0 is Some {
        let (mean0, strength0) = m0->0;
        let (mean1, strength1) = m1->0;
        let g = survey.source.geometry;
        let x_o = survey.x_origin(index) as usize;
        let y_o = survey.y_origin(index) as usize;
        let block = (survey.block_w() as usize, survey.block_h() as usize);
        let dims = (g.width, g.height);
        let (var0, f0) = choose|var: T, f: Formula<T>|
            {
                &&& #[trigger] noise_var_gives(
                    *survey.source,
                    *survey.denoised,
                    dims,
                    x_o,
                    y_o,
                    block,
                    var,
                )
                &&& #[trigger] is_luma_strength(Some(without), mean0, f)
                &&& denotes(
                    over(
                        uncorrelated_std(value(var), correlation(Some(without)), f),
                        value(noise_gain),
                    ),
                    strength0,
                )
            };
        let (var1, f1) = choose|var: T, f: Formula<T>|
            {
                &&& #[trigger] noise_var_gives(
                    *survey.source,
                    *survey.denoised,
                    dims,
                    x_o,
                    y_o,
                    block,
                    var,
                )
                &&& #[trigger] is_luma_strength(Some(with), mean1, f)
                &&& denotes(
                    over(
                        uncorrelated_std(value(var), correlation(Some(with)), f),
                        value(noise_gain),
                    ),
                    strength1,
                )
            };
        let s0 = choose|s: T| #[trigger]
            is_strength_at(*without.solver, mean0, s) && f0 == times(
                value(without.gain),
                value(s),
            );
        let s1 = choose|s: T| #[trigger]
            is_strength_at(*with.solver, mean1, s) && f1 == times(value(with.gain), value(s));
        reveal_with_fuel(worth, 3);
        reveal_with_fuel(is_defined, 3);
        assert(is_defined(f0, v) && is_defined(f1, v));
        assert(worth(f0, v) == 0real) by (nonlinear_arith)
            requires
                worth(f0, v) == v(without.gain) * v(s0),
                v(without.gain) == 0real,
        ;
        lemma_strength(v, var0, without.corr, f0, noise_gain, strength0);
        lemma_strength(v, var1, with.corr, f1, noise_gain, strength1);
        lemma_tamed(
            v(var0),
            v(without.corr) * worth(f0, v),
            v(with.corr) * worth(f1, v),
            v(noise_gain),
            v(without.corr),
        );
    }
}

/// The bounds on the strength, in real numbers.
proof fn lemma_tamed(var: real, p0: real, p1: real, gain: real, corr: real)
    requires
        var >= 0real,
        gain > 0real,
        p0 == corr * 0real,
        is_root(uncorrelated_var(var, p0), root(uncorrelated_var(var, p0))),
        is_root(uncorrelated_var(var, p1), root(uncorrelated_var(var, p1))),
    ensures
        ({
            let r0 = root(uncorrelated_var(var, p0));
            let r1 = root(uncorrelated_var(var, p1));
            &&& (r0 / gain) / 4real <= r1 / gain
            &&& r1 / gain <= r0 / gain
        }),
{
    let w0 = uncorrelated_var(var, p0);
    let w1 = uncorrelated_var(var, p1);
    let r0 = root(w0);
    let r1 = root(w1);
    assert(p0 == 0real) by (nonlinear_arith)
        requires
            p0 == corr * 0real,
    ;
    assert(p0 * (-p0) == 0real) by (nonlinear_arith)
        requires
            p0 == 0real,
    ;
    assert(p1 * (-p1) <= 0real) by (nonlinear_arith);
    assert(var / 16real <= var) by (nonlinear_arith)
        requires
            var >= 0real,
    ;
    assert(w0 == var);
    assert(w1 <= var);
    assert(w1 >= var / 16real);
    lemma_root_order(w1, w0, r1, r0);
    assert(is_root(var / 16real, r0 / 4real)) by {
        assert((r0 / 4real) * (r0 / 4real) == var / 16real) by (nonlinear_arith)
            requires
                r0 * r0 == var,
        ;
    }
    lemma_root_order(var / 16real, w1, r0 / 4real, r1);
    assert((r0 / gain) / 4real <= r1 / gain && r1 / gain <= r0 / gain) by (nonlinear_arith)
        requires
            gain > 0real,
            r0 / 4real <= r1,
            r1 <= r0,
    ;
}

/// Taking the luma noise into account makes the sum of the strengths smaller, but not
/// smaller than a quarter, and leaves the number of measurements as it is.
pub proof fn law_luma_noise_is_removed<T: Kernels>(
    survey: ChannelSurvey,
    indices: Seq<usize>,
    v: spec_fn(T) -> real,
    noise_gain: T,
    without: LumaNoise<T>,
    with: LumaNoise<T>,
    num_bins: usize,
    k: int,
    s0: StrengthSolver<T>,
    s1: StrengthSolver<T>,
)
    requires
        is_exact(v),
        has_one_reading(v),
        v(noise_gain) > 0real,
        with.corr == without.corr,
        v(without.gain) == 0real,
        survey.are_measured(indices, noise_gain, Some(without), num_bins, k, s0),
        survey.are_measured(indices, noise_gain, Some(with), num_bins, k, s1),
    ensures
        v(s0.total) / 4real <= v(s1.total),
        v(s1.total) <= v(s0.total),
        s0.num_equations == s1.num_equations,
    decreases k,
{
    if k <= 0 {
        lemma_zero(v, s0.total);
        lemma_zero(v, s1.total);
    } else {
        let (mid0, m0) = choose|mid: StrengthSolver<T>, m: Option<(T, T)>|
            {
                &&& survey.are_measured(
                    indices,
                    noise_gain,
                    Some(without),
                    num_bins,
                    k - 1,
                    mid,
                )
                &&& #[trigger] survey.measurement_step(
                    indices,
                    noise_gain,
                    Some(without),
                    k,
                    mid,
                    m,
                    s0,
                )
            };
        let (mid1, m1) = choose|mid: StrengthSolver<T>, m: Option<(T, T)>|
            {
                &&& survey.are_measured(indices, noise_gain, Some(with), num_bins, k - 1, mid)
                &&& #[trigger] survey.measurement_step(
                    indices,
                    noise_gain,
                    Some(with),
                    k,
                    mid,
                    m,
                    s1,
                )
            };
        law_luma_noise_is_removed(
            survey,
            indices,
            v,
            noise_gain,
            without,
            with,
            num_bins,
            k - 1,
            mid0,
            mid1,
        );
        law_luma_noise_in_block(
            survey,
            v,
            noise_gain,
            without,
            with,
            indices[k - 1] as int,
            m0,
            m1,
        );
        if m0 is Some {
            let (mean0, d0) = m0->0;
            let (mean1, d1) = m1->0;
            reveal_with_fuel(worth, 3);
            reveal_with_fuel(is_defined, 3);
            law_worth(plus(value(mid0.total), value(d0)), v, s0.total);
            law_worth(plus(value(mid1.total), value(d1)), v, s1.total);
        }
    }
}

/// What a solver holds of some measurements does not depend on those behind them.
proof fn lemma_prefix<T: Scalar>(
    num_bins: usize,
    ms: Seq<Option<(T, T)>>,
    more: Seq<Option<(T, T)>>,
    k: int,
    s: StrengthSolver<T>,
)
    requires
        k <= ms.len() <= more.len(),
        forall|i: int| 0 <= i < ms.len() ==> #[trigger] more[i] == ms[i],
        holds_measurements(num_bins, ms, k, s),
    ensures
        holds_measurements(num_bins, more, k, s),
    decreases k,
{
    if k > 0 {
        let mid = choose|mid: StrengthSolver<T>|
            {
                &&& holds_measurements(num_bins, ms, k - 1, mid)
                &&& #[trigger] is_taken_in(ms, k, mid, s)
            };
        lemma_prefix(num_bins, ms, more, k - 1, mid);
        assert(more[k - 1] == ms[k - 1]);
        assert(is_taken_in(more, k, mid, s));
    }
}

/// A solver that blocks were measured for holds one measurement, or none, of each block.
pub proof fn law_measured_blocks<T: Kernels>(
    survey: ChannelSurvey,
    indices: Seq<usize>,
    noise_gain: T,
    luma: Option<LumaNoise<T>>,
    num_bins: usize,
    k: int,
    s: StrengthSolver<T>,
)
    requires
        0 <= k <= indices.len(),
        survey.are_measured(indices, noise_gain, luma, num_bins, k, s),
    ensures
        exists|ms: Seq<Option<(T, T)>>|
            {
                &&& ms.len() == k
                &&& survey.are_measurements(indices, noise_gain, luma, ms)
                &&& #[trigger] holds_measurements(num_bins, ms, k, s)
            },
    decreases k,
{
    if k <= 0 {
        let ms = Seq::<Option<(T, T)>>::empty();
        assert(survey.are_measurements(indices, noise_gain, luma, ms));
        assert(holds_measurements(num_bins, ms, k, s));
    } else {
        let (mid, m) = choose|mid: StrengthSolver<T>, m: Option<(T, T)>|
            {
                &&& survey.are_measured(indices, noise_gain, luma, num_bins, k - 1, mid)
                &&& #[trigger] survey.measurement_step(indices, noise_gain, luma, k, mid, m, s)
            };
        law_measured_blocks(survey, indices, noise_gain, luma, num_bins, k - 1, mid);
        let ms = choose|ms: Seq<Option<(T, T)>>|
            {
                &&& ms.len() == k - 1
                &&& survey.are_measurements(indices, noise_gain, luma, ms)
                &&& #[trigger] holds_measurements(num_bins, ms, k - 1, mid)
            };
        let more = ms.push(m);
        lemma_prefix(num_bins, ms, more, k - 1, mid);
        assert(is_taken_in(more, k, mid, s));
        assert forall|i: int| 0 <= i < more.len() implies survey.is_measurement(
            noise_gain,
            luma,
            indices[i] as int,
            #[trigger] more[i],
        ) by {
            if i < k - 1 {
                assert(more[i] == ms[i]);
            }
        }
        assert(survey.are_measurements(indices, noise_gain, luma, more));
        assert(holds_measurements(num_bins, more, k, s));
    }
}

/// The luma plane is measured the same whatever the luma noise is said to be.
pub proof fn law_luma_plane_ignores_luma_noise<T>(
    a: Option<&NoiseModelState<T>>,
    b: Option<&NoiseModelState<T>>,
    s: NoiseModelState<T>,
    num_coords: usize,
)
    ensures
        luma_noise(0, a, s, num_coords) == luma_noise(0, b, s, num_coords),
        luma_noise(0, a, s, num_coords) is None,
{
}

/// Whether the weights of the bins stand for real numbers.
pub open spec fn are_weights_defined<T>(s: StrengthSolver<T>, v: spec_fn(T) -> real) -> bool {
    forall|j: int| 0 <= j < s.eqns.n ==> is_defined(#[trigger] column_weight(s.eqns, j), v)
}

/// The weights of all bins together.
pub open spec fn whole_weight<T>(s: StrengthSolver<T>) -> Formula<T> {
    total(count(0), weights(s.eqns, s.eqns.n as int))
}

/// Whether nothing divided by nothing is not found to be above the threshold for distances.
pub open spec fn is_void_near<T: Scalar>(v: spec_fn(T) -> real) -> bool {
    forall|x: T, y: T, r: T, t: T, c: bool|
        {
            &&& #[trigger] binary_gives(BinaryOp::Over, x, y, r)
            &&& v(x) == 0real
            &&& v(y) == 0real
            &&& #[trigger] ratio_gives(5, 1_000, t)
            &&& #[trigger] below_gives(t, r, c)
        } ==> !c
}

/// Terms that are worth nothing add up to nothing.
proof fn lemma_total_of_nothing<T>(terms: Seq<Formula<T>>, v: spec_fn(T) -> real)
    requires
        forall|i: int| 0 <= i < terms.len() ==> is_defined(#[trigger] terms[i], v),
        forall|i: int| 0 <= i < terms.len() ==> worth(#[trigger] terms[i], v) == 0real,
    ensures
        is_defined(total(count(0), terms), v),
        worth(total(count(0), terms), v) == 0real,
    decreases terms.len(),
{
    if terms.len() > 0 {
        lemma_total_of_nothing(terms.drop_last(), v);
        assert(terms.last() == terms[terms.len() - 1]);
    }
}

/// Terms that stand for real numbers have a sum that does.
proof fn lemma_total_defined<T>(terms: Seq<Formula<T>>, v: spec_fn(T) -> real)
    requires
        forall|i: int| 0 <= i < terms.len() ==> is_defined(#[trigger] terms[i], v),
    ensures
        is_defined(total(count(0), terms), v),
    decreases terms.len(),
{
    if terms.len() > 0 {
        lemma_total_defined(terms.drop_last(), v);
        assert(terms.last() == terms[terms.len() - 1]);
    }
}

/// Whether the correlation of a state's coefficients with themselves is not found to be low.
pub open spec fn correlates_with_itself<T: Kernels>(s: NoiseModelState<T>) -> bool {
    forall|corr: T, low: bool| #[trigger]
        correlation_gives(s.eqns.x@, s.eqns.x@, s.eqns.n, corr) && #[trigger] is_below(
            value(corr),
            ratio(9, 10),
            low,
        ) ==> !low
}

/// The strengths of a saved state are compared, and their distance is worked out from a
/// difference that is worth nothing.
proof fn lemma_saved_distance<T: Kernels>(
    pre: NoiseModelState<T>,
    latest: NoiseModelState<T>,
    post: NoiseModelState<T>,
    different: bool,
    v: spec_fn(T) -> real,
) -> (r: (T, T, T, T))
    requires
        is_exact(v),
        is_state_saved(pre, latest, post),
        latest.strength_solver.num_bins >= 1,
        are_weights_defined(latest.strength_solver, v),
        correlates_with_itself(latest),
        differs(latest, post, different),
    ensures
        denotes(ratio(5, 1_000), r.0),
        v(r.1) == 0real,
        denotes(whole_weight(latest.strength_solver), r.2),
        v(r.2) == worth(whole_weight(latest.strength_solver), v),
        binary_gives(BinaryOp::Over, r.1, r.2, r.3),
        below_gives(r.0, r.3, different),
{
    let (corr, low) = choose|corr: T, low: bool|
        {
            &&& #[trigger] correlation_gives(latest.eqns.x@, post.eqns.x@, post.eqns.n, corr)
            &&& #[trigger] is_below(value(corr), ratio(9, 10), low)
            &&& if low {
                different
            } else {
                is_below(
                    ratio(5, 1_000),
                    strength_distance(latest.strength_solver, post.strength_solver),
                    different,
                )
            }
        };
    assert(correlation_gives(latest.eqns.x@, latest.eqns.x@, latest.eqns.n, corr));
    assert(!low);
    let le = latest.strength_solver.eqns;
    let pe = post.strength_solver.eqns;
    let n = le.n as int;
    let distances = weighted_distances(le, pe, n);
    assert forall|j: int| 0 <= j < n implies is_defined(#[trigger] distances[j], v) && worth(
        distances[j],
        v,
    ) == 0real by {
        let w = column_weight(le, j);
        let gap = unary(UnaryOp::Absolute, minus(value(le.x@[j]), value(pe.x@[j])));
        assert(is_defined(w, v));
        assert(distances[j] == times(w, gap));
        assert(is_defined(gap, v) && worth(gap, v) == 0real) by {
            reveal_with_fuel(worth, 3);
            reveal_with_fuel(is_defined, 3);
        }
        assert(worth(w, v) * worth(gap, v) == 0real) by (nonlinear_arith)
            requires
                worth(gap, v) == 0real,
        ;
    }
    lemma_total_of_nothing(distances, v);
    assert forall|j: int| 0 <= j < n implies is_defined(#[trigger] weights(le, n)[j], v) by {
        assert(is_defined(column_weight(le, j), v));
    }
    lemma_total_defined(weights(le, n), v);
    let sum = total(count(0), distances);
    let dx = over::<T>(count(1), count(latest.strength_solver.num_bins));
    let above = times(sum, dx);
    let whole = whole_weight(latest.strength_solver);
    let distance = strength_distance(latest.strength_solver, post.strength_solver);
    assert(is_defined(dx, v)) by {
        reveal_with_fuel(worth, 3);
        reveal_with_fuel(is_defined, 3);
    }
    assert(distance == over(above, whole));
    assert(is_defined(above, v));
    assert(worth(above, v) == 0real) by {
        assert(worth(sum, v) * worth(dx, v) == 0real) by (nonlinear_arith)
            requires
                worth(sum, v) == 0real,
        ;
    }
    let (t, y) = choose|t: T, y: T| #[trigger]
        denotes(ratio(5, 1_000), t) && #[trigger] denotes(distance, y) && call_ensures(
            T::below,
            (t, y),
            different,
        );
    assert(below_gives(t, y, different));
    let (p, q) = choose|p: T, q: T|
        denotes(above, p) && denotes(whole, q) && #[trigger] binary_gives(BinaryOp::Over, p, q, y);
    law_worth(above, v, p);
    law_worth(whole, v, q);
    (t, p, q, y)
}

/// A model does not differ from the estimate that was just saved in it, if the
/// correlation of the coefficients with themselves is not found to be low. Where the
/// strengths have no weight, this rests on nothing divided by nothing not being above the
/// threshold.
pub proof fn law_saved_state_is_not_different<T: Kernels>(
    pre: NoiseModelState<T>,
    latest: NoiseModelState<T>,
    post: NoiseModelState<T>,
    different: bool,
    v: spec_fn(T) -> real,
)
    requires
        is_exact(v),
        is_state_saved(pre, latest, post),
        latest.strength_solver.num_bins >= 1,
        are_weights_defined(latest.strength_solver, v),
        correlates_with_itself(latest),
        worth(whole_weight(latest.strength_solver), v) != 0real || is_void_near(v),
        differs(latest, post, different),
    ensures
        !different,
{
    let (t, p, q, y) = lemma_saved_distance(pre, latest, post, different, v);
    let w = v(q);
    assert(ratio_gives(5, 1_000, t));
    if w != 0real {
        assert(v(y) == 0real) by {
            assert(0real / w == 0real) by (nonlinear_arith)
                requires
                    w != 0real,
            ;
        }
        assert(v(t) > 0real) by {
            reveal_with_fuel(is_defined, 2);
            law_worth(ratio(5, 1_000), v, t);
            assert(worth(ratio::<T>(5, 1_000), v) == 5real / 1_000real);
            assert(5real / 1_000real > 0real) by (nonlinear_arith);
        }
    }
}

/// What a column is worth where the matrix is symmetric.
proof fn lemma_column_worth<T>(
    s: StrengthSolver<T>,
    v: spec_fn(T) -> real,
    j: int,
    k: int,
)
    requires
        s.wf(),
        is_balanced(s, v),
        0 <= j < s.num_bins,
        0 <= k <= s.num_bins,
    ensures
        is_defined(total(count(0), column_terms(s.eqns, j, k)), v),
        worth(total(count(0), column_terms(s.eqns, j, k)), v) == row_sum(s.eqns, v, j, k),
        row_sum(s.eqns, v, j, k) >= 0real,
    decreases k,
{
    let terms = column_terms(s.eqns, j, k);
    reveal_with_fuel(worth, 3);
    reveal_with_fuel(is_defined, 3);
    if k > 0 {
        lemma_column_worth(s, v, j, k - 1);
        assert(terms.drop_last() =~= column_terms(s.eqns, j, k - 1));
        assert(terms.last() == value(s.eqns.entry(k - 1, j)));
        assert(v(s.eqns.entry(k - 1, j)) == v(s.eqns.entry(j, k - 1)));
        assert(v(s.eqns.entry(j, k - 1)) >= 0real);
    }
}

/// Weights that add up to nothing are those of empty rows.
proof fn lemma_whole_weight<T: Scalar>(
    s: StrengthSolver<T>,
    v: spec_fn(T) -> real,
    k: int,
    q: T,
)
    requires
        is_exact(v),
        s.wf(),
        is_balanced(s, v),
        0 <= k <= s.num_bins,
        denotes(total(count(0), weights(s.eqns, k)), q),
    ensures
        v(q) >= 0real,
        v(q) == 0real ==> forall|j: int|
            0 <= j < k ==> #[trigger] row_sum(s.eqns, v, j, s.num_bins as int) == 0real,
    decreases k,
{
    let terms = weights(s.eqns, k);
    let n = s.num_bins as int;
    if k > 0 {
        assert(terms.drop_last() =~= weights(s.eqns, k - 1));
        let inner = total(count(0), column_terms(s.eqns, k - 1, n));
        let last = column_weight(s.eqns, k - 1);
        assert(terms.last() == last);
        let (a, b) = choose|a: T, b: T|
            denotes(total(count(0), terms.drop_last()), a) && denotes(last, b)
                && #[trigger] binary_gives(BinaryOp::Plus, a, b, q);
        lemma_whole_weight(s, v, k - 1, a);
        let t = choose|t: T| denotes(inner, t) && #[trigger] unary_gives(UnaryOp::SquareRoot, t, b);
        lemma_column_worth(s, v, k - 1, n);
        law_worth(inner, v, t);
        let r = v(b);
        assert(r == 0real ==> r * r == 0real) by (nonlinear_arith);
    } else {
        reveal_with_fuel(is_defined, 2);
        law_worth(count(0), v, q);
    }
}

/// Rows that add up to nothing make a matrix that does.
proof fn lemma_empty_rows<T>(s: StrengthSolver<T>, v: spec_fn(T) -> real, k: int)
    requires
        s.wf(),
        0 <= k <= s.num_bins,
        forall|j: int|
            0 <= j < s.num_bins ==> #[trigger] row_sum(s.eqns, v, j, s.num_bins as int) == 0real,
    ensures
        matrix_sum(s.eqns, v, k) == 0real,
    decreases k,
{
    if k > 0 {
        lemma_empty_rows(s, v, k - 1);
        assert(row_sum(s.eqns, v, k - 1, s.num_bins as int) == 0real);
    }
}

/// A model does not differ from the measurements that were just saved in it, if the
/// correlation of the coefficients with themselves is not found to be low. Where there are no
/// measurements, this rests on nothing divided by nothing not being above the threshold.
pub proof fn law_saved_measurements_are_not_different<T: Kernels>(
    pre: NoiseModelState<T>,
    latest: NoiseModelState<T>,
    post: NoiseModelState<T>,
    different: bool,
    v: spec_fn(T) -> real,
)
    requires
        is_exact(v),
        latest.wf(),
        is_state_saved(pre, latest, post),
        is_balanced(latest.strength_solver, v),
        correlates_with_itself(latest),
        latest.strength_solver.num_equations == 0 ==> is_void_near(v),
        differs(latest, post, different),
    ensures
        !different,
{
    let s = latest.strength_solver;
    let n = s.num_bins as int;
    assert forall|j: int| 0 <= j < n implies is_defined(#[trigger] column_weight(s.eqns, j), v) by {
        lemma_column_worth(s, v, j, n);
    }
    let (t, p, q, y) = lemma_saved_distance(pre, latest, post, different, v);
    lemma_whole_weight(s, v, n, q);
    if v(q) == 0real {
        lemma_empty_rows(s, v, n);
    }
    law_saved_state_is_not_different(pre, latest, post, different, v);
}

} // verus!
