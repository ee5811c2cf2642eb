//! The strengths that are found fit the measurements best, if the number type calculates
//! exactly.
use crate::constant_laws::is_regularised;
use crate::exact::{is_defined, is_exact, law_worth, worth};
use crate::kernels::{linsolve_gives, Kernels};
use crate::measurement_laws::{
    law_measured_sums, lemma_cleared_sums, num_measured, strength_total,
};
use crate::measurements::{holds_measurements, is_taken_in};
use crate::scalar::{count, denotes_all, over, plus, value, values, Scalar};
use crate::solution_laws::{
    bend_at, below, is_solution, is_sound, lemma_cleared_product, lemma_measured_product,
    lemma_regularised_product, product, shared,
};
use crate::strength::{
    at_most, damped, is_strength_solved, mean_strength, smoothed, smoothing_weight,
    StrengthSolver,
};
use crate::strength_laws::{law_measurement, share};
use vstd::prelude::*;

verus! {

/// The squares of what the strengths `z`, interpolated, miss in the first `k` measurements.
pub open spec fn misses<T>(
    num_bins: usize,
    ms: Seq<Option<(T, T)>>,
    v: spec_fn(T) -> real,
    z: spec_fn(int) -> real,
    k: int,
) -> real
    decreases k,
{
    if k <= 0 {
        0real
    } else {
        misses(num_bins, ms, v, z, k - 1) + match ms[k - 1] {
            Some((mean, strength)) => squared(
                shared(num_bins, v(mean), z, num_bins as int) - v(strength),
            ),
            None => 0real,
        }
    }
}

/// The square of a number.
pub open spec fn squared(x: real) -> real {
    x * x
}

/// The squares of the steps between the first `r` strengths and the ones behind them.
pub open spec fn steps(z: spec_fn(int) -> real, r: int) -> real
    decreases r,
{
    if r <= 0 {
        0real
    } else {
        steps(z, r - 1) + squared(z(r - 1) - z(r))
    }
}

/// The squares of how far the first `r` strengths lie from `c`.
pub open spec fn spread_around(z: spec_fn(int) -> real, c: real, r: int) -> real
    decreases r,
{
    if r <= 0 {
        0real
    } else {
        spread_around(z, c, r - 1) + squared(z(r - 1) - c)
    }
}

/// How badly the strengths `z` fit the measurements: what they miss, how rough they are, and,
/// much less, how far they lie from the mean of the measured strengths.
pub open spec fn misfit<T>(
    num_bins: usize,
    ms: Seq<Option<(T, T)>>,
    v: spec_fn(T) -> real,
    z: spec_fn(int) -> real,
) -> real {
    let k = ms.len() as int;
    let n = num_bins as int;
    let mean = strength_total(ms, v, k) / num_measured(ms, k) as real;
    misses(num_bins, ms, v, z, k) + ((2real * num_measured(ms, k) as real) / num_bins as real)
        * steps(z, n - 1) + (1real / 8192real) * spread_around(z, mean, n)
}

/// What the interpolations of `z` miss, each times that of `d`.
spec fn crossed<T>(
    num_bins: usize,
    ms: Seq<Option<(T, T)>>,
    v: spec_fn(T) -> real,
    z: spec_fn(int) -> real,
    d: spec_fn(int) -> real,
    k: int,
) -> real
    decreases k,
{
    if k <= 0 {
        0real
    } else {
        crossed(num_bins, ms, v, z, d, k - 1) + match ms[k - 1] {
            Some((mean, strength)) => shared(num_bins, v(mean), d, num_bins as int) * (shared(
                num_bins,
                v(mean),
                z,
                num_bins as int,
            ) - v(strength)),
            None => 0real,
        }
    }
}

/// What the first `r` equations leave of `z`, each times the entry of `d`.
spec fn left_over<T>(
    a: Seq<T>,
    b: Seq<T>,
    n: int,
    v: spec_fn(T) -> real,
    z: spec_fn(int) -> real,
    d: spec_fn(int) -> real,
    r: int,
) -> real
    decreases r,
{
    if r <= 0 {
        0real
    } else {
        left_over(a, b, n, v, z, d, r - 1) + d(r - 1) * (product(a, n, v, z, r - 1, n) - v(
            b[r - 1],
        ))
    }
}

/// What a measurement adds to what is left over.
proof fn lemma_measured_left<T: Scalar>(
    pre: StrengthSolver<T>,
    post: StrengthSolver<T>,
    v: spec_fn(T) -> real,
    z: spec_fn(int) -> real,
    d: spec_fn(int) -> real,
    x: real,
    y: real,
    r: int,
)
    requires
        pre.wf(),
        post.wf(),
        post.num_bins == pre.num_bins,
        0 <= r <= pre.num_bins,
        forall|p: int, q: int|
            0 <= p < pre.num_bins && 0 <= q < pre.num_bins ==> v(#[trigger] post.eqns.entry(p, q))
                == v(pre.eqns.entry(p, q)) + share(pre.num_bins, x, p) * share(pre.num_bins, x, q),
        forall|p: int|
            0 <= p < pre.num_bins ==> v(#[trigger] post.eqns.b@[p]) == v(pre.eqns.b@[p]) + share(
                pre.num_bins,
                x,
                p,
            ) * y,
    ensures
        left_over(post.eqns.a@, post.eqns.b@, pre.num_bins as int, v, z, d, r) == left_over(
            pre.eqns.a@,
            pre.eqns.b@,
            pre.num_bins as int,
            v,
            z,
            d,
            r,
        ) + shared(pre.num_bins, x, d, r) * (shared(pre.num_bins, x, z, pre.num_bins as int) - y),
    decreases r,
{
    let n = pre.num_bins as int;
    let t = shared(pre.num_bins, x, z, n) - y;
    if r > 0 {
        lemma_measured_left(pre, post, v, z, d, x, y, r - 1);
        lemma_measured_product(pre, post, v, z, x, r - 1, n);
        let s = share(pre.num_bins, x, r - 1);
        let all = shared(pre.num_bins, x, z, n);
        let p = product(pre.eqns.a@, n, v, z, r - 1, n);
        let b = v(pre.eqns.b@[r - 1]);
        let w = d(r - 1);
        let rest = shared(pre.num_bins, x, d, r - 1);
        assert(v(post.eqns.b@[r - 1]) == b + s * y);
        assert((p + s * all) - (b + s * y) == (p - b) + s * (all - y)) by (nonlinear_arith);
        let q = p - b;
        assert(w * (q + s * t) == w * q + (s * w) * t) by (nonlinear_arith);
        let sw = s * w;
        assert((rest + sw) * t == rest * t + sw * t) by (nonlinear_arith);
    } else {
        assert(0real * t == 0real) by (nonlinear_arith);
    }
}

/// Nothing is left over where there are only zeros.
proof fn lemma_cleared_left<T: Scalar>(
    s: StrengthSolver<T>,
    v: spec_fn(T) -> real,
    z: spec_fn(int) -> real,
    d: spec_fn(int) -> real,
    r: int,
)
    requires
        s.wf(),
        0 <= r <= s.num_bins,
        forall|p: int, q: int|
            0 <= p < s.num_bins && 0 <= q < s.num_bins ==> v(#[trigger] s.eqns.entry(p, q))
                == 0real,
        forall|p: int| 0 <= p < s.num_bins ==> v(#[trigger] s.eqns.b@[p]) == 0real,
    ensures
        left_over(s.eqns.a@, s.eqns.b@, s.num_bins as int, v, z, d, r) == 0real,
    decreases r,
{
    if r > 0 {
        lemma_cleared_left(s, v, z, d, r - 1);
        lemma_cleared_product(s, v, z, r - 1, s.num_bins as int);
        assert(v(s.eqns.b@[r - 1]) == 0real);
        let w = d(r - 1);
        assert(w * (0real - 0real) == 0real) by (nonlinear_arith);
    }
}

/// What the equations of measurements leave over is what the measurements are missed by.
proof fn lemma_crossed<T: Scalar>(
    num_bins: usize,
    ms: Seq<Option<(T, T)>>,
    k: int,
    s: StrengthSolver<T>,
    v: spec_fn(T) -> real,
    z: spec_fn(int) -> real,
    d: spec_fn(int) -> real,
)
    requires
        is_exact(v),
        num_bins >= 1,
        0 <= k <= ms.len(),
        holds_measurements(num_bins, ms, k, s),
    ensures
        s.wf(),
        s.num_bins == num_bins,
        left_over(s.eqns.a@, s.eqns.b@, num_bins as int, v, z, d, num_bins as int) == crossed(
            num_bins,
            ms,
            v,
            z,
            d,
            k,
        ),
    decreases k,
{
    let n = num_bins as int;
    if k <= 0 {
        lemma_cleared_sums(s.eqns, v);
        lemma_cleared_left(s, v, z, d, n);
    } else {
        let mid = choose|mid: StrengthSolver<T>|
            {
                &&& holds_measurements(num_bins, ms, k - 1, mid)
                &&& #[trigger] is_taken_in(ms, k, mid, s)
            };
        lemma_crossed(num_bins, ms, k - 1, mid, v, z, d);
        match ms[k - 1] {
            Some((mean, strength)) => {
                law_measurement(mid, v, mean, strength, s);
                lemma_measured_left(mid, s, v, z, d, v(mean), v(strength), n);
            },
            None => {},
        }
    }
}

/// The first `r` bends of `z`, each times the entry of `d`.
spec fn crossed_bends(z: spec_fn(int) -> real, d: spec_fn(int) -> real, n: int, r: int) -> real
    decreases r,
{
    if r <= 0 {
        0real
    } else {
        crossed_bends(z, d, n, r - 1) + d(r - 1) * bend_at(z, n, r - 1)
    }
}

/// The first `r` steps of `z`, each times that of `d`.
spec fn crossed_steps(z: spec_fn(int) -> real, d: spec_fn(int) -> real, r: int) -> real
    decreases r,
{
    if r <= 0 {
        0real
    } else {
        crossed_steps(z, d, r - 1) + (d(r - 1) - d(r)) * (z(r - 1) - z(r))
    }
}

/// Bends add up to steps, but for what the last one looks ahead.
proof fn lemma_bends_are_steps(
    z: spec_fn(int) -> real,
    d: spec_fn(int) -> real,
    n: int,
    r: int,
)
    requires
        1 <= r <= n,
    ensures
        crossed_bends(z, d, n, r) == crossed_steps(z, d, r - 1) + d(r - 1) * (z(r - 1) - z(
            at_most(r, n - 1),
        )),
    decreases r,
{
    let z1 = z(r - 1);
    let z2 = z(at_most(r, n - 1));
    let d1 = d(r - 1);
    if r > 1 {
        lemma_bends_are_steps(z, d, n, r - 1);
        let z0 = z(r - 2);
        let d0 = d(r - 2);
        assert(at_most(r - 1, n - 1) == r - 1);
        assert(below(r - 1) == r - 2);
        assert(d0 * (z0 - z1) + d1 * (2real * z1 - z0 - z2) == (d0 - d1) * (z0 - z1) + d1 * (z1
            - z2)) by (nonlinear_arith);
    } else {
        assert(crossed_bends(z, d, n, 0) == 0real);
        assert(crossed_steps(z, d, 0) == 0real);
        assert(d1 * (2real * z1 - z1 - z2) == d1 * (z1 - z2)) by (nonlinear_arith);
    }
}

/// How far the first `r` entries of `z` lie from `c`, each times the entry of `d`.
spec fn crossed_spread(z: spec_fn(int) -> real, d: spec_fn(int) -> real, c: real, r: int) -> real
    decreases r,
{
    if r <= 0 {
        0real
    } else {
        crossed_spread(z, d, c, r - 1) + d(r - 1) * (z(r - 1) - c)
    }
}

/// What the system that is solved leaves over, in parts.
proof fn lemma_regularised_left<T>(
    g: Seq<T>,
    h: Seq<T>,
    a: Seq<T>,
    b: Seq<T>,
    n: int,
    v: spec_fn(T) -> real,
    z: spec_fn(int) -> real,
    d: spec_fn(int) -> real,
    w: real,
    c: real,
    r: int,
)
    requires
        0 <= r <= n,
        forall|p: int|
            0 <= p < n ==> #[trigger] product(a, n, v, z, p, n) == product(g, n, v, z, p, n) + w
                * bend_at(z, n, p) + (1real / 8192real) * z(p),
        forall|p: int| 0 <= p < n ==> v(#[trigger] b[p]) == v(h[p]) + c / 8192real,
    ensures
        left_over(a, b, n, v, z, d, r) == left_over(g, h, n, v, z, d, r) + w * crossed_bends(
            z,
            d,
            n,
            r,
        ) + (1real / 8192real) * crossed_spread(z, d, c, r),
    decreases r,
{
    if r > 0 {
        lemma_regularised_left(g, h, a, b, n, v, z, d, w, c, r - 1);
        let p = product(g, n, v, z, r - 1, n);
        let e = bend_at(z, n, r - 1);
        let u = z(r - 1);
        let x = d(r - 1);
        let y = v(h[r - 1]);
        let bs = crossed_bends(z, d, n, r - 1);
        let sp = crossed_spread(z, d, c, r - 1);
        assert(product(a, n, v, z, r - 1, n) == p + w * e + (1real / 8192real) * u);
        assert(v(b[r - 1]) == y + c / 8192real);
        let q = p - y;
        let o = u - c;
        assert((p + w * e + (1real / 8192real) * u) - (y + c / 8192real) == q + w * e + (1real
            / 8192real) * o);
        let we = w * e;
        assert(x * (q + we + (1real / 8192real) * o) == x * q + x * we + (1real / 8192real) * (x
            * o)) by (nonlinear_arith);
        assert(x * (w * e) == w * (x * e)) by (nonlinear_arith);
        let xe = x * e;
        let xo = x * o;
        assert(w * (bs + xe) == w * bs + w * xe) by (nonlinear_arith);
        assert((1real / 8192real) * (sp + xo) == (1real / 8192real) * sp + (1real / 8192real)
            * xo);
    } else {
        assert(w * 0real == 0real) by (nonlinear_arith);
    }
}

/// A solution leaves nothing over.
proof fn lemma_nothing_left<T>(
    a: Seq<T>,
    b: Seq<T>,
    n: int,
    v: spec_fn(T) -> real,
    z: spec_fn(int) -> real,
    d: spec_fn(int) -> real,
    r: int,
)
    requires
        0 <= r <= n,
        is_solution(a, n, b, v, z),
    ensures
        left_over(a, b, n, v, z, d, r) == 0real,
    decreases r,
{
    if r > 0 {
        lemma_nothing_left(a, b, n, v, z, d, r - 1);
        let y = v(b[r - 1]);
        let w = d(r - 1);
        assert(product(a, n, v, z, r - 1, n) == y);
        assert(w * (y - y) == 0real) by (nonlinear_arith);
    }
}

/// The square of a sum.
proof fn lemma_squared_sum(x: real, y: real)
    ensures
        squared(x + y) == squared(x) + 2real * (y * x) + squared(y),
        squared(y) >= 0real,
{
    assert((x + y) * (x + y) == x * x + 2real * (y * x) + y * y) by (nonlinear_arith);
    assert(y * y >= 0real) by (nonlinear_arith);
}

/// Interpolation of a sum.
proof fn lemma_shared_sum(
    num_bins: usize,
    x: real,
    z: spec_fn(int) -> real,
    d: spec_fn(int) -> real,
    y: spec_fn(int) -> real,
    k: int,
)
    requires
        0 <= k <= num_bins,
        forall|i: int| 0 <= i < num_bins ==> #[trigger] y(i) == z(i) + d(i),
    ensures
        shared(num_bins, x, y, k) == shared(num_bins, x, z, k) + shared(num_bins, x, d, k),
    decreases k,
{
    if k > 0 {
        lemma_shared_sum(num_bins, x, z, d, y, k - 1);
        let s = share(num_bins, x, k - 1);
        let (a, b) = (z(k - 1), d(k - 1));
        assert(y(k - 1) == a + b);
        assert(s * (a + b) == s * a + s * b) by (nonlinear_arith);
    }
}

/// How the parts of the misfit grow away from `z`.
proof fn lemma_misses_grow<T>(
    num_bins: usize,
    ms: Seq<Option<(T, T)>>,
    v: spec_fn(T) -> real,
    z: spec_fn(int) -> real,
    d: spec_fn(int) -> real,
    y: spec_fn(int) -> real,
    k: int,
)
    requires
        forall|i: int| 0 <= i < num_bins ==> #[trigger] y(i) == z(i) + d(i),
    ensures
        misses(num_bins, ms, v, y, k) >= misses(num_bins, ms, v, z, k) + 2real * crossed(
            num_bins,
            ms,
            v,
            z,
            d,
            k,
        ),
    decreases k,
{
    if k > 0 {
        lemma_misses_grow(num_bins, ms, v, z, d, y, k - 1);
        match ms[k - 1] {
            Some((mean, strength)) => {
                let n = num_bins as int;
                lemma_shared_sum(num_bins, v(mean), z, d, y, n);
                let a = shared(num_bins, v(mean), z, n) - v(strength);
                let b = shared(num_bins, v(mean), d, n);
                lemma_squared_sum(a, b);
                assert(shared(num_bins, v(mean), y, n) - v(strength) == a + b);
            },
            None => {},
        }
    }
}

/// How the steps grow away from `z`.
proof fn lemma_steps_grow(
    n: int,
    z: spec_fn(int) -> real,
    d: spec_fn(int) -> real,
    y: spec_fn(int) -> real,
    r: int,
)
    requires
        r < n,
        forall|i: int| 0 <= i < n ==> #[trigger] y(i) == z(i) + d(i),
    ensures
        steps(y, r) >= steps(z, r) + 2real * crossed_steps(z, d, r),
    decreases r,
{
    if r > 0 {
        lemma_steps_grow(n, z, d, y, r - 1);
        let a = z(r - 1) - z(r);
        let b = d(r - 1) - d(r);
        lemma_squared_sum(a, b);
        assert(y(r - 1) - y(r) == a + b);
    }
}

/// How the distances from `c` grow away from `z`.
proof fn lemma_spread_grows(
    n: int,
    z: spec_fn(int) -> real,
    d: spec_fn(int) -> real,
    y: spec_fn(int) -> real,
    c: real,
    r: int,
)
    requires
        r <= n,
        forall|i: int| 0 <= i < n ==> #[trigger] y(i) == z(i) + d(i),
    ensures
        spread_around(y, c, r) >= spread_around(z, c, r) + 2real * crossed_spread(z, d, c, r),
    decreases r,
{
    if r > 0 {
        lemma_spread_grows(n, z, d, y, c, r - 1);
        let a = z(r - 1) - c;
        let b = d(r - 1);
        lemma_squared_sum(a, b);
        assert(y(r - 1) - c == a + b);
    }
}

/// No strengths fit the measurements better than those that are found: what they miss, each
/// measurement interpolated and squared, and, weighed by twice the number of measurements per
/// bin, the squares of the steps from bin to bin, and an 8192nd of the squares of how far they
/// lie from the mean measured strength, add up to no less for any others.
pub proof fn law_strengths_fit_best<T: Kernels>(
    num_bins: usize,
    ms: Seq<Option<(T, T)>>,
    pre: StrengthSolver<T>,
    post: StrengthSolver<T>,
    v: spec_fn(T) -> real,
    others: spec_fn(int) -> real,
)
    requires
        is_exact(v),
        is_sound(v),
        num_bins >= 1,
        holds_measurements(num_bins, ms, ms.len() as int, pre),
        num_measured(ms, ms.len() as int) >= 1,
        is_strength_solved(pre, post, true),
    ensures
        misfit(num_bins, ms, v, |i: int| v(post.eqns.x@[i])) <= misfit(num_bins, ms, v, others),
{
    let n = num_bins as int;
    let k = ms.len() as int;
    law_measured_sums(num_bins, ms, k, pre, v);
    let (a, x) = choose|a: Seq<T>, x: Seq<T>|
        {
            &&& denotes_all(
                damped(
                    smoothed(
                        values(pre.eqns.a@),
                        n,
                        smoothing_weight(pre.num_equations, pre.num_bins),
                        n,
                    ),
                    n,
                    n,
                ),
                a,
            )
            &&& #[trigger] linsolve_gives(num_bins, a, post.eqns.b@, pre.eqns.x@, x, true)
            &&& post.eqns.x@ == if x.len() == n {
                x
            } else {
                pre.eqns.x@
            }
        };
    assert(is_regularised(pre, a));
    let z = |i: int| v(post.eqns.x@[i]);
    let found = |i: int| v(x[i]);
    assert(is_solution(a, n, post.eqns.b@, v, found));
    assert(post.eqns.x@ == x);
    assert(z =~= found);
    let d = |i: int| others(i) - z(i);
    let w = (2real * pre.num_equations as real) / num_bins as real;
    let e = pre.num_equations as real;
    let mean = v(pre.total) / e;
    lemma_crossed(num_bins, ms, k, pre, v, z, d);
    lemma_regularised_product(pre, a, v, z);
    assert forall|p: int| 0 <= p < n implies v(#[trigger] post.eqns.b@[p]) == v(pre.eqns.b@[p])
        + mean / 8192real by {
        let f = plus(value(pre.eqns.b@[p]), over(mean_strength(pre), count(8192)));
        let m = mean_strength(pre);
        assert(is_defined(m, v) && worth(m, v) == mean) by {
            reveal_with_fuel(worth, 3);
            reveal_with_fuel(is_defined, 3);
        }
        let q = over(m, count(8192));
        assert(is_defined(q, v) && worth(q, v) == mean / 8192real) by {
            reveal_with_fuel(worth, 2);
            reveal_with_fuel(is_defined, 2);
        }
        assert(is_defined(f, v) && worth(f, v) == v(pre.eqns.b@[p]) + mean / 8192real) by {
            reveal_with_fuel(worth, 2);
            reveal_with_fuel(is_defined, 2);
        }
        law_worth(f, v, post.eqns.b@[p]);
    }
    lemma_regularised_left(
        pre.eqns.a@,
        pre.eqns.b@,
        a,
        post.eqns.b@,
        n,
        v,
        z,
        d,
        w,
        mean,
        n,
    );
    lemma_nothing_left(a, post.eqns.b@, n, v, z, d, n);
    lemma_bends_are_steps(z, d, n, n);
    let (dl, zl) = (d(n - 1), z(n - 1));
    assert(dl * (zl - zl) == 0real) by (nonlinear_arith);
    assert forall|i: int| 0 <= i < n implies #[trigger] others(i) == z(i) + d(i) by {}
    lemma_misses_grow(num_bins, ms, v, z, d, others, k);
    lemma_steps_grow(n, z, d, others, n - 1);
    lemma_spread_grows(n, z, d, others, mean, n);
    assert(w >= 0real) by (nonlinear_arith)
        requires
            w == (2real * e) / num_bins as real,
            e >= 0real,
            num_bins as real >= 1real,
    ;
    let cs = crossed_steps(z, d, n - 1);
    let (s0, s1) = (steps(z, n - 1), steps(others, n - 1));
    assert(w * s1 >= w * s0 + 2real * (w * cs)) by (nonlinear_arith)
        requires
            w >= 0real,
            s1 >= s0 + 2real * cs,
    ;
}

} // verus!
