//! The strengths that solve the equations of a solver, when the number type calculates
//! exactly.
use crate::constant_laws::{
    all_defined, are_constant, is_regularised, is_solved_by_constant, law_constant_strength,
    weight_sum,
};
use crate::exact::{is_defined, is_exact, law_worth, worth};
use crate::kernels::{linsolve_gives, Kernels};
use crate::matrix::{cell, lemma_cell_bound, lemma_cell_injective};
use crate::measurement_laws::lemma_cleared_sums;
use crate::measurements::{holds_measurements, is_taken_in};
use crate::scalar::{count, denotes_all, over, times, value, values, Formula, Scalar};
use crate::strength::{
    at_most, damped, is_strength_at, is_strength_solved, lowered, raised, smoothed,
    smoothing_weight, StrengthSolver,
};
use crate::strength_laws::{law_interpolation_bounds, law_measurement, share};
use vstd::prelude::*;

verus! {

/// The first `k` terms of the product of row `p` of a matrix and a vector.
pub open spec fn product<T>(
    a: Seq<T>,
    n: int,
    v: spec_fn(T) -> real,
    z: spec_fn(int) -> real,
    p: int,
    k: int,
) -> real
    decreases k,
{
    if k <= 0 {
        0real
    } else {
        product(a, n, v, z, p, k - 1) + v(a[cell(n, p, k - 1)]) * z(k - 1)
    }
}

/// Whether the vector `z` solves `a * z = b`.
pub open spec fn is_solution<T>(
    a: Seq<T>,
    n: int,
    b: Seq<T>,
    v: spec_fn(T) -> real,
    z: spec_fn(int) -> real,
) -> bool {
    forall|p: int| 0 <= p < n ==> product(a, n, v, z, p, n) == v(#[trigger] b[p])
}

/// The products of the first `r` rows, each times the entry of the vector.
spec fn form<T>(
    a: Seq<T>,
    n: int,
    v: spec_fn(T) -> real,
    z: spec_fn(int) -> real,
    r: int,
) -> real
    decreases r,
{
    if r <= 0 {
        0real
    } else {
        form(a, n, v, z, r - 1) + z(r - 1) * product(a, n, v, z, r - 1, n)
    }
}

/// The sum of the shares of the first `k` bins, each times the entry of the vector.
pub open spec fn shared(num_bins: usize, x: real, z: spec_fn(int) -> real, k: int) -> real
    decreases k,
{
    if k <= 0 {
        0real
    } else {
        shared(num_bins, x, z, k - 1) + share(num_bins, x, k - 1) * z(k - 1)
    }
}

/// What a measurement adds to a product.
pub(crate) proof fn lemma_measured_product<T: Scalar>(
    pre: StrengthSolver<T>,
    post: StrengthSolver<T>,
    v: spec_fn(T) -> real,
    z: spec_fn(int) -> real,
    x: real,
    p: int,
    k: int,
)
    requires
        pre.wf(),
        post.wf(),
        post.num_bins == pre.num_bins,
        0 <= p < pre.num_bins,
        0 <= k <= pre.num_bins,
        forall|p: int, q: int|
            0 <= p < pre.num_bins && 0 <= q < pre.num_bins ==> v(#[trigger] post.eqns.entry(p, q))
                == v(pre.eqns.entry(p, q)) + share(pre.num_bins, x, p) * share(pre.num_bins, x, q),
    ensures
        product(post.eqns.a@, pre.num_bins as int, v, z, p, k) == product(
            pre.eqns.a@,
            pre.num_bins as int,
            v,
            z,
            p,
            k,
        ) + share(pre.num_bins, x, p) * shared(pre.num_bins, x, z, k),
    decreases k,
{
    let n = pre.num_bins as int;
    let s = share(pre.num_bins, x, p);
    if k > 0 {
        lemma_measured_product(pre, post, v, z, x, p, k - 1);
        let e = v(pre.eqns.entry(p, k - 1));
        let t = share(pre.num_bins, x, k - 1);
        let w = z(k - 1);
        let rest = shared(pre.num_bins, x, z, k - 1);
        assert(v(post.eqns.entry(p, k - 1)) == e + s * t);
        assert((e + s * t) * w == e * w + s * (t * w)) by (nonlinear_arith);
        assert(s * (rest + t * w) == s * rest + s * (t * w)) by (nonlinear_arith);
    } else {
        assert(s * 0real == 0real) by (nonlinear_arith);
    }
}

/// What a measurement adds to the form.
proof fn lemma_measured_rows<T: Scalar>(
    pre: StrengthSolver<T>,
    post: StrengthSolver<T>,
    v: spec_fn(T) -> real,
    z: spec_fn(int) -> real,
    x: real,
    r: int,
)
    requires
        pre.wf(),
        post.wf(),
        post.num_bins == pre.num_bins,
        0 <= r <= pre.num_bins,
        forall|p: int, q: int|
            0 <= p < pre.num_bins && 0 <= q < pre.num_bins ==> v(#[trigger] post.eqns.entry(p, q))
                == v(pre.eqns.entry(p, q)) + share(pre.num_bins, x, p) * share(pre.num_bins, x, q),
    ensures
        ({
            let n = pre.num_bins as int;
            form(post.eqns.a@, n, v, z, r) == form(pre.eqns.a@, n, v, z, r) + shared(
                pre.num_bins,
                x,
                z,
                r,
            ) * shared(pre.num_bins, x, z, n)
        }),
    decreases r,
{
    let n = pre.num_bins as int;
    let all = shared(pre.num_bins, x, z, n);
    if r > 0 {
        lemma_measured_rows(pre, post, v, z, x, r - 1);
        lemma_measured_product(pre, post, v, z, x, r - 1, n);
        let d = product(pre.eqns.a@, n, v, z, r - 1, n);
        let s = share(pre.num_bins, x, r - 1);
        let w = z(r - 1);
        let rest = shared(pre.num_bins, x, z, r - 1);
        assert(w * (d + s * all) == w * d + (s * w) * all) by (nonlinear_arith);
        assert((rest + s * w) * all == rest * all + (s * w) * all) by (nonlinear_arith);
    } else {
        assert(0real * all == 0real) by (nonlinear_arith);
    }
}

/// The products with a matrix of nothing but zeros are zero.
pub(crate) proof fn lemma_cleared_product<T: Scalar>(
    s: StrengthSolver<T>,
    v: spec_fn(T) -> real,
    z: spec_fn(int) -> real,
    p: int,
    k: int,
)
    requires
        s.wf(),
        0 <= p < s.num_bins,
        0 <= k <= s.num_bins,
        forall|p: int, q: int|
            0 <= p < s.num_bins && 0 <= q < s.num_bins ==> v(#[trigger] s.eqns.entry(p, q))
                == 0real,
    ensures
        product(s.eqns.a@, s.num_bins as int, v, z, p, k) == 0real,
    decreases k,
{
    if k > 0 {
        lemma_cleared_product(s, v, z, p, k - 1);
        assert(v(s.eqns.entry(p, k - 1)) == 0real);
        let w = z(k - 1);
        assert(0real * w == 0real) by (nonlinear_arith);
    }
}

/// A matrix of nothing but zeros has a form of zero.
proof fn lemma_cleared_form<T: Scalar>(
    s: StrengthSolver<T>,
    v: spec_fn(T) -> real,
    z: spec_fn(int) -> real,
    r: int,
)
    requires
        s.wf(),
        0 <= r <= s.num_bins,
        forall|p: int, q: int|
            0 <= p < s.num_bins && 0 <= q < s.num_bins ==> v(#[trigger] s.eqns.entry(p, q))
                == 0real,
    ensures
        form(s.eqns.a@, s.num_bins as int, v, z, r) == 0real,
    decreases r,
{
    if r > 0 {
        lemma_cleared_form(s, v, z, r - 1);
        lemma_cleared_product(s, v, z, r - 1, s.num_bins as int);
        let w = z(r - 1);
        assert(w * 0real == 0real) by (nonlinear_arith);
    }
}

/// The form of measurements is a sum of squares.
proof fn lemma_measured_form<T: Scalar>(
    num_bins: usize,
    ms: Seq<Option<(T, T)>>,
    k: int,
    s: StrengthSolver<T>,
    v: spec_fn(T) -> real,
    z: spec_fn(int) -> real,
)
    requires
        is_exact(v),
        num_bins >= 1,
        0 <= k <= ms.len(),
        holds_measurements(num_bins, ms, k, s),
    ensures
        s.wf(),
        s.num_bins == num_bins,
        form(s.eqns.a@, num_bins as int, v, z, num_bins as int) >= 0real,
    decreases k,
{
    let n = num_bins as int;
    if k <= 0 {
        lemma_cleared_sums(s.eqns, v);
        lemma_cleared_form(s, v, z, n);
    } else {
        let mid = choose|mid: StrengthSolver<T>|
            {
                &&& holds_measurements(num_bins, ms, k - 1, mid)
                &&& #[trigger] is_taken_in(ms, k, mid, s)
            };
        lemma_measured_form(num_bins, ms, k - 1, mid, v, z);
        match ms[k - 1] {
            Some((mean, strength)) => {
                law_measurement(mid, v, mean, strength, s);
                lemma_measured_rows(mid, s, v, z, v(mean), n);
                let all = shared(num_bins, v(mean), z, n);
                assert(all * all >= 0real) by (nonlinear_arith);
            },
            None => {},
        }
    }
}

/// What the first `k` terms of the product of row `p` and a vector are worth.
spec fn weighed<T>(
    m: Seq<Formula<T>>,
    n: int,
    v: spec_fn(T) -> real,
    z: spec_fn(int) -> real,
    p: int,
    k: int,
) -> real
    decreases k,
{
    if k <= 0 {
        0real
    } else {
        weighed(m, n, v, z, p, k - 1) + worth(m[cell(n, p, k - 1)], v) * z(k - 1)
    }
}

/// A term that is added or subtracted in row `r` counts in that row.
proof fn lemma_weighed_raised<T>(
    m: Seq<Formula<T>>,
    n: int,
    r: int,
    q: int,
    t: Formula<T>,
    v: spec_fn(T) -> real,
    z: spec_fn(int) -> real,
    p: int,
    k: int,
)
    requires
        m.len() == n * n,
        0 <= r < n,
        0 <= q < n,
        0 <= p < n,
        0 <= k <= n,
        all_defined(m, v),
        is_defined(t, v),
    ensures
        weighed(raised(m, cell(n, r, q), t), n, v, z, p, k) == weighed(m, n, v, z, p, k) + if p == r
            && q < k {
            worth(t, v) * z(q)
        } else {
            0real
        },
        weighed(lowered(m, cell(n, r, q), t), n, v, z, p, k) == weighed(m, n, v, z, p, k) - if p
            == r && q < k {
            worth(t, v) * z(q)
        } else {
            0real
        },
        all_defined(raised(m, cell(n, r, q), t), v),
        all_defined(lowered(m, cell(n, r, q), t), v),
        raised(m, cell(n, r, q), t).len() == m.len(),
        lowered(m, cell(n, r, q), t).len() == m.len(),
    decreases k,
{
    let c = cell(n, r, q);
    lemma_cell_bound(n, n, r, q);
    if k > 0 {
        lemma_weighed_raised(m, n, r, q, t, v, z, p, k - 1);
        lemma_cell_bound(n, n, p, k - 1);
        if cell(n, p, k - 1) == c {
            lemma_cell_injective(n, p, k - 1, r, q);
            let e = worth(m[c], v);
            let f = worth(t, v);
            let w = z(q);
            assert((e + f) * w == e * w + f * w) by (nonlinear_arith);
            assert((e - f) * w == e * w - f * w) by (nonlinear_arith);
        }
    }
}

/// The bin below bin `i`; there is none below the first.
pub open spec fn below(i: int) -> int {
    if i > 0 {
        i - 1
    } else {
        0
    }
}

/// How far a vector bends at place `p`.
pub open spec fn bend_at(z: spec_fn(int) -> real, n: int, p: int) -> real {
    2real * z(p) - z(below(p)) - z(at_most(p + 1, n - 1))
}

/// What the smoothness constraint adds to a product.
proof fn lemma_smoothed_product<T>(
    m: Seq<Formula<T>>,
    n: int,
    alpha: Formula<T>,
    v: spec_fn(T) -> real,
    z: spec_fn(int) -> real,
    rows: int,
    p: int,
)
    requires
        m.len() == n * n,
        0 <= rows <= n,
        0 <= p < n,
        all_defined(m, v),
        is_defined(alpha, v),
    ensures
        weighed(smoothed(m, n, alpha, rows), n, v, z, p, n) == weighed(m, n, v, z, p, n) + if p
            < rows {
            worth(alpha, v) * bend_at(z, n, p)
        } else {
            0real
        },
        all_defined(smoothed(m, n, alpha, rows), v),
        smoothed(m, n, alpha, rows).len() == m.len(),
    decreases rows,
{
    if rows > 0 {
        let i = rows - 1;
        let above = at_most(i + 1, n - 1);
        lemma_smoothed_product(m, n, alpha, v, z, i, p);
        let m0 = smoothed(m, n, alpha, i);
        let twice = times(count(2), alpha);
        let w = worth(alpha, v);
        assert(is_defined(twice, v) && worth(twice, v) == 2real * w) by {
            reveal_with_fuel(worth, 3);
            reveal_with_fuel(is_defined, 3);
        }
        lemma_weighed_raised(m0, n, i, below(i), alpha, v, z, p, n);
        let m1 = lowered(m0, cell(n, i, below(i)), alpha);
        lemma_weighed_raised(m1, n, i, i, twice, v, z, p, n);
        let m2 = raised(m1, cell(n, i, i), twice);
        lemma_weighed_raised(m2, n, i, above, alpha, v, z, p, n);
        let z0 = z(below(i));
        let z1 = z(i);
        let z2 = z(above);
        assert(w * (2real * z1 - z0 - z2) == (2real * w) * z1 - w * z0 - w * z2)
            by (nonlinear_arith);
    }
}

/// What the pull towards the mean adds to a product.
proof fn lemma_damped_product<T>(
    m: Seq<Formula<T>>,
    n: int,
    v: spec_fn(T) -> real,
    z: spec_fn(int) -> real,
    rows: int,
    p: int,
)
    requires
        m.len() == n * n,
        0 <= rows <= n,
        0 <= p < n,
        all_defined(m, v),
    ensures
        weighed(damped(m, n, rows), n, v, z, p, n) == weighed(m, n, v, z, p, n) + if p < rows {
            (1real / 8192real) * z(p)
        } else {
            0real
        },
        all_defined(damped(m, n, rows), v),
        damped(m, n, rows).len() == m.len(),
    decreases rows,
{
    if rows > 0 {
        lemma_damped_product(m, n, v, z, rows - 1, p);
        let t = over::<T>(count(1), count(8192));
        assert(is_defined(t, v) && worth(t, v) == 1real / 8192real) by {
            reveal_with_fuel(worth, 3);
            reveal_with_fuel(is_defined, 3);
        }
        lemma_weighed_raised(damped(m, n, rows - 1), n, rows - 1, rows - 1, t, v, z, p, n);
    }
}

/// The product with the outcomes is what the product with the formulas is worth.
proof fn lemma_product_outcome<T: Scalar>(
    m: Seq<Formula<T>>,
    a: Seq<T>,
    n: int,
    v: spec_fn(T) -> real,
    z: spec_fn(int) -> real,
    p: int,
    k: int,
)
    requires
        is_exact(v),
        all_defined(m, v),
        denotes_all(m, a),
        m.len() == n * n,
        0 <= p < n,
        0 <= k <= n,
    ensures
        product(a, n, v, z, p, k) == weighed(m, n, v, z, p, k),
    decreases k,
{
    if k > 0 {
        lemma_product_outcome(m, a, n, v, z, p, k - 1);
        lemma_cell_bound(n, n, p, k - 1);
        let c = cell(n, p, k - 1);
        law_worth(m[c], v, a[c]);
    }
}

/// What the formulas of a matrix are worth is what its entries are worth.
proof fn lemma_product_values<T: Scalar>(
    a: Seq<T>,
    n: int,
    v: spec_fn(T) -> real,
    z: spec_fn(int) -> real,
    p: int,
    k: int,
)
    requires
        a.len() == n * n,
        0 <= p < n,
        0 <= k <= n,
    ensures
        weighed(values(a), n, v, z, p, k) == product(a, n, v, z, p, k),
    decreases k,
{
    if k > 0 {
        lemma_product_values(a, n, v, z, p, k - 1);
        lemma_cell_bound(n, n, p, k - 1);
        let c = cell(n, p, k - 1);
        assert(values(a)[c] == value(a[c]));
    }
}

/// The sum of the first `r` bends, each times the entry of the vector.
spec fn bends(z: spec_fn(int) -> real, n: int, r: int) -> real
    decreases r,
{
    if r <= 0 {
        0real
    } else {
        bends(z, n, r - 1) + z(r - 1) * bend_at(z, n, r - 1)
    }
}

/// The sum of the bends is a sum of squares, but for what the last one looks ahead.
proof fn lemma_bends(z: spec_fn(int) -> real, n: int, r: int)
    requires
        1 <= r <= n,
    ensures
        bends(z, n, r) >= z(r - 1) * (z(r - 1) - z(at_most(r, n - 1))),
    decreases r,
{
    let z1 = z(r - 1);
    let z2 = z(at_most(r, n - 1));
    if r > 1 {
        lemma_bends(z, n, r - 1);
        let z0 = z(r - 2);
        assert(at_most(r - 1, n - 1) == r - 1);
        assert(z0 * (z0 - z1) + z1 * (2real * z1 - z0 - z2) >= z1 * (z1 - z2))
            by (nonlinear_arith);
    } else {
        assert(bends(z, n, 0) == 0real);
        assert(z1 * (2real * z1 - z1 - z2) >= z1 * (z1 - z2)) by (nonlinear_arith);
    }
}

/// The sum of the squares of the first `r` entries.
spec fn squares(z: spec_fn(int) -> real, r: int) -> real
    decreases r,
{
    if r <= 0 {
        0real
    } else {
        squares(z, r - 1) + z(r - 1) * z(r - 1)
    }
}

/// Squares that do not add up to more than nothing are those of zeros.
proof fn lemma_squares(z: spec_fn(int) -> real, r: int)
    requires
        0 <= r,
    ensures
        squares(z, r) >= 0real,
        squares(z, r) <= 0real ==> forall|p: int| 0 <= p < r ==> #[trigger] z(p) == 0real,
    decreases r,
{
    if r > 0 {
        lemma_squares(z, r - 1);
        let w = z(r - 1);
        assert(w * w >= 0real) by (nonlinear_arith);
        assert(w * w <= 0real ==> w == 0real) by (nonlinear_arith);
    }
}

/// The form of the regularised matrix `a`, in parts.
proof fn lemma_regularised_form<T>(
    g: Seq<T>,
    a: Seq<T>,
    n: int,
    v: spec_fn(T) -> real,
    z: spec_fn(int) -> real,
    w: real,
    r: int,
)
    requires
        0 <= r <= n,
        forall|p: int|
            0 <= p < n ==> #[trigger] product(a, n, v, z, p, n) == product(g, n, v, z, p, n) + w
                * bend_at(z, n, p) + (1real / 8192real) * z(p),
    ensures
        form(a, n, v, z, r) == form(g, n, v, z, r) + w * bends(z, n, r) + (1real / 8192real)
            * squares(z, r),
    decreases r,
{
    if r > 0 {
        lemma_regularised_form(g, a, n, v, z, w, r - 1);
        let d = product(g, n, v, z, r - 1, n);
        let b = bend_at(z, n, r - 1);
        let u = z(r - 1);
        let bs = bends(z, n, r - 1);
        let sq = squares(z, r - 1);
        assert(product(a, n, v, z, r - 1, n) == d + w * b + (1real / 8192real) * u);
        assert(u * (d + w * b + (1real / 8192real) * u) == u * d + w * (u * b) + (1real / 8192real)
            * (u * u)) by (nonlinear_arith);
        assert(w * (bs + u * b) == w * bs + w * (u * b)) by (nonlinear_arith);
        assert((1real / 8192real) * (sq + u * u) == (1real / 8192real) * sq + (1real / 8192real) * (
        u * u)) by (nonlinear_arith);
    } else {
        assert(w * 0real == 0real) by (nonlinear_arith);
    }
}

/// A vector that every row sends to zero has a form of zero.
proof fn lemma_kernel_form<T>(
    a: Seq<T>,
    n: int,
    v: spec_fn(T) -> real,
    z: spec_fn(int) -> real,
    r: int,
)
    requires
        0 <= r <= n,
        forall|p: int| 0 <= p < n ==> #[trigger] product(a, n, v, z, p, n) == 0real,
    ensures
        form(a, n, v, z, r) == 0real,
    decreases r,
{
    if r > 0 {
        lemma_kernel_form(a, n, v, z, r - 1);
        assert(product(a, n, v, z, r - 1, n) == 0real);
        let w = z(r - 1);
        assert(w * 0real == 0real) by (nonlinear_arith);
    }
}

/// The product with a difference is the difference of the products.
proof fn lemma_product_difference<T>(
    a: Seq<T>,
    n: int,
    v: spec_fn(T) -> real,
    x: spec_fn(int) -> real,
    y: spec_fn(int) -> real,
    p: int,
    k: int,
)
    ensures
        product(a, n, v, |i: int| x(i) - y(i), p, k) == product(a, n, v, x, p, k) - product(
            a,
            n,
            v,
            y,
            p,
            k,
        ),
    decreases k,
{
    if k > 0 {
        lemma_product_difference(a, n, v, x, y, p, k - 1);
        let e = v(a[cell(n, p, k - 1)]);
        let s = x(k - 1);
        let t = y(k - 1);
        assert(e * (s - t) == e * s - e * t) by (nonlinear_arith);
    }
}

/// What the smoothness constraint and the pull towards the mean add to the products.
pub(crate) proof fn lemma_regularised_product<T: Scalar>(
    s: StrengthSolver<T>,
    a: Seq<T>,
    v: spec_fn(T) -> real,
    z: spec_fn(int) -> real,
)
    requires
        is_exact(v),
        s.wf(),
        s.num_bins >= 1,
        is_regularised(s, a),
    ensures
        forall|p: int|
            0 <= p < s.num_bins ==> #[trigger] product(a, s.num_bins as int, v, z, p, s.num_bins as int)
                == product(s.eqns.a@, s.num_bins as int, v, z, p, s.num_bins as int) + ((2real
                * s.num_equations as real) / s.num_bins as real) * bend_at(
                z,
                s.num_bins as int,
                p,
            ) + (1real / 8192real) * z(p),
{
    let n = s.num_bins as int;
    let alpha = smoothing_weight(s.num_equations, s.num_bins);
    let m = values(s.eqns.a@);
    let m1 = smoothed(m, n, alpha, n);
    let md = damped(m1, n, n);
    let e = s.num_equations as real;
    let d = n as real;
    let w = worth(alpha, v);
    assert(is_defined(alpha, v) && w == (2real * e) / d) by {
        reveal_with_fuel(worth, 4);
        reveal_with_fuel(is_defined, 4);
    }
    assert(all_defined(m, v));
    assert forall|p: int| 0 <= p < n implies #[trigger] product(a, n, v, z, p, n) == product(
        s.eqns.a@,
        n,
        v,
        z,
        p,
        n,
    ) + w * bend_at(z, n, p) + (1real / 8192real) * z(p) by {
        lemma_smoothed_product(m, n, alpha, v, z, n, p);
        lemma_damped_product(m1, n, v, z, n, p);
        lemma_product_outcome(md, a, n, v, z, p, n);
        lemma_product_values(s.eqns.a@, n, v, z, p, n);
    }
}

/// The system that is handed to the solver has one solution at most, whatever was measured.
pub proof fn law_one_solution<T: Scalar>(
    num_bins: usize,
    ms: Seq<Option<(T, T)>>,
    s: StrengthSolver<T>,
    a: Seq<T>,
    b: Seq<T>,
    v: spec_fn(T) -> real,
    x: spec_fn(int) -> real,
    y: spec_fn(int) -> real,
)
    requires
        is_exact(v),
        num_bins >= 1,
        holds_measurements(num_bins, ms, ms.len() as int, s),
        is_regularised(s, a),
        b.len() == num_bins,
        is_solution(a, num_bins as int, b, v, x),
        is_solution(a, num_bins as int, b, v, y),
    ensures
        forall|k: int| 0 <= k < num_bins ==> #[trigger] x(k) == y(k),
{
    let n = num_bins as int;
    let z = |i: int| x(i) - y(i);
    lemma_measured_form(num_bins, ms, ms.len() as int, s, v, z);
    let e = s.num_equations as real;
    let d = n as real;
    let w = (2real * e) / d;
    assert(w >= 0real) by (nonlinear_arith)
        requires
            w == (2real * e) / d,
            e >= 0real,
            d >= 1real,
    ;
    lemma_regularised_product(s, a, v, z);
    lemma_regularised_form(s.eqns.a@, a, n, v, z, w, n);
    assert forall|p: int| 0 <= p < n implies #[trigger] product(a, n, v, z, p, n) == 0real by {
        lemma_product_difference(a, n, v, x, y, p, n);
        assert(product(a, n, v, x, p, n) == v(b[p]));
        assert(product(a, n, v, y, p, n) == v(b[p]));
    }
    lemma_kernel_form(a, n, v, z, n);
    lemma_bends(z, n, n);
    lemma_squares(z, n);
    let last = z(n - 1);
    assert(last * (last - last) == 0real) by (nonlinear_arith);
    let bs = bends(z, n, n);
    assert(w * bs >= 0real) by (nonlinear_arith)
        requires
            w >= 0real,
            bs >= 0real,
    ;
    assert forall|k: int| 0 <= k < n implies #[trigger] x(k) == y(k) by {
        assert(z(k) == 0real);
    }
}

/// Whether a solver that says that it found a solution did find one.
pub open spec fn is_sound<T: Kernels>(v: spec_fn(T) -> real) -> bool {
    forall|n: usize, a: Seq<T>, b: Seq<T>, x: Seq<T>, y: Seq<T>| #[trigger]
        linsolve_gives(n, a, b, x, y, true) ==> y.len() == n && is_solution(
            a,
            n as int,
            b,
            v,
            |k: int| v(y[k]),
        )
}

/// A constant vector solves what it was said to solve.
proof fn lemma_constant_product<T>(a: Seq<T>, n: int, v: spec_fn(T) -> real, c: real, p: int, k: int)
    ensures
        product(a, n, v, |i: int| c, p, k) == weight_sum(a, n, v, p, k) * c,
    decreases k,
{
    if k > 0 {
        lemma_constant_product(a, n, v, c, p, k - 1);
        let e = v(a[cell(n, p, k - 1)]);
        let rest = weight_sum(a, n, v, p, k - 1);
        assert((rest + e) * c == rest * c + e * c) by (nonlinear_arith);
    } else {
        assert(0real * c == 0real) by (nonlinear_arith);
    }
}

/// Where all measurements found one strength, this strength is found in all bins, and at
/// every intensity.
pub proof fn law_constant_strength_is_found<T: Kernels>(
    num_bins: usize,
    ms: Seq<Option<(T, T)>>,
    pre: StrengthSolver<T>,
    post: StrengthSolver<T>,
    v: spec_fn(T) -> real,
    c: real,
    x: T,
    r: T,
)
    requires
        is_exact(v),
        is_sound(v),
        num_bins >= 1,
        holds_measurements(num_bins, ms, ms.len() as int, pre),
        are_constant(ms, v, c, ms.len() as int),
        pre.num_equations >= 1,
        is_strength_solved(pre, post, true),
        is_strength_at(post, x, r),
    ensures
        forall|k: int| 0 <= k < num_bins ==> v(#[trigger] post.eqns.x@[k]) == c,
        v(r) == c,
{
    let n = num_bins as int;
    lemma_measured_form(num_bins, ms, ms.len() as int, pre, v, |i: int| 0real);
    law_constant_strength(num_bins, ms, pre, post, true, v, c);
    let (a, y) = choose|a: Seq<T>, y: Seq<T>|
        {
            &&& is_regularised(pre, a)
            &&& is_solved_by_constant(a, n, post.eqns.b@, v, c)
            &&& #[trigger] linsolve_gives(num_bins, a, post.eqns.b@, pre.eqns.x@, y, true)
            &&& post.eqns.x@ == if y.len() == num_bins {
                y
            } else {
                pre.eqns.x@
            }
        };
    let found = |k: int| v(y[k]);
    let constant = |k: int| c;
    assert(is_solution(a, n, post.eqns.b@, v, found));
    assert forall|p: int| 0 <= p < n implies product(a, n, v, constant, p, n) == v(
        #[trigger] post.eqns.b@[p],
    ) by {
        lemma_constant_product(a, n, v, c, p, n);
    }
    law_one_solution(num_bins, ms, pre, a, post.eqns.b@, v, found, constant);
    assert forall|k: int| 0 <= k < n implies v(#[trigger] post.eqns.x@[k]) == c by {
        assert(found(k) == constant(k));
    }
    law_interpolation_bounds(post, v, x, r, c, c);
}

} // verus!
