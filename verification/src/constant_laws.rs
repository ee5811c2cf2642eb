//! Noise of one strength everywhere, when the number type calculates exactly.
use crate::exact::{is_defined, is_exact, law_worth, worth};
use crate::kernels::{linsolve_gives, Kernels};
use crate::matrix::{cell, lemma_cell_bound, lemma_cell_injective};
use crate::measurement_laws::{lemma_cleared_sums, lemma_row_sum, lemma_zero, row_sum};
use crate::measurements::{holds_measurements, is_taken_in};
use crate::scalar::{count, denotes_all, over, plus, times, value, values, Formula, Scalar};
use crate::strength::{
    at_most, damped, is_strength_solved, lowered, mean_strength, raised, smoothed, smoothing_weight,
    StrengthSolver,
};
use crate::strength_laws::{law_measurement, share};
use vstd::prelude::*;

verus! {

/// Whether the first `k` measurements all found the strength `c`.
pub open spec fn are_constant<T>(
    ms: Seq<Option<(T, T)>>,
    v: spec_fn(T) -> real,
    c: real,
    k: int,
) -> bool {
    forall|i: int| 0 <= i < k ==> ((#[trigger] ms[i]) matches Some((x, d)) ==> v(d) == c)
}

/// The sum of the first `k` entries of row `p` of a matrix.
pub open spec fn weight_sum<T>(a: Seq<T>, n: int, v: spec_fn(T) -> real, p: int, k: int) -> real
    decreases k,
{
    if k <= 0 {
        0real
    } else {
        weight_sum(a, n, v, p, k - 1) + v(a[cell(n, p, k - 1)])
    }
}

/// Whether a vector of nothing but `c` solves `a * x = b`.
pub open spec fn is_solved_by_constant<T>(
    a: Seq<T>,
    n: int,
    b: Seq<T>,
    v: spec_fn(T) -> real,
    c: real,
) -> bool {
    forall|p: int| 0 <= p < n ==> weight_sum(a, n, v, p, n) * c == v(#[trigger] b[p])
}

/// Measurements of one strength give equations that this strength solves.
proof fn lemma_constant_rows<T: Scalar>(
    num_bins: usize,
    ms: Seq<Option<(T, T)>>,
    k: int,
    s: StrengthSolver<T>,
    v: spec_fn(T) -> real,
    c: real,
)
    requires
        is_exact(v),
        num_bins >= 1,
        0 <= k <= ms.len(),
        holds_measurements(num_bins, ms, k, s),
        are_constant(ms, v, c, k),
    ensures
        s.wf(),
        s.num_bins == num_bins,
        forall|p: int|
            0 <= p < num_bins ==> row_sum(s.eqns, v, p, num_bins as int) * c == v(
                #[trigger] s.eqns.b@[p],
            ),
        v(s.total) == s.num_equations as real * c,
    decreases k,
{
    let n = num_bins as int;
    if k <= 0 {
        lemma_cleared_sums(s.eqns, v);
        lemma_zero(v, s.total);
        assert(0real * c == 0real) by (nonlinear_arith);
        assert forall|p: int| 0 <= p < n implies row_sum(s.eqns, v, p, n) * c == v(
            #[trigger] s.eqns.b@[p],
        ) by {
            assert(row_sum(s.eqns, v, p, n) == 0real);
        }
    } else {
        let mid = choose|mid: StrengthSolver<T>|
            {
                &&& holds_measurements(num_bins, ms, k - 1, mid)
                &&& #[trigger] is_taken_in(ms, k, mid, s)
            };
        lemma_constant_rows(num_bins, ms, k - 1, mid, v, c);
        match ms[k - 1] {
            Some((mean, strength)) => {
                law_measurement(mid, v, mean, strength, s);
                assert(v(strength) == c);
                assert forall|p: int| 0 <= p < n implies row_sum(s.eqns, v, p, n) * c == v(
                    #[trigger] s.eqns.b@[p],
                ) by {
                    lemma_row_sum(mid, v, mean, strength, s, p, n);
                    let row = row_sum(mid.eqns, v, p, n);
                    let sh = share(num_bins, v(mean), p);
                    assert(row * c == v(mid.eqns.b@[p]));
                    assert((row + sh) * c == row * c + sh * c) by (nonlinear_arith);
                }
                let m = mid.num_equations as real;
                assert((m + 1real) * c == m * c + c) by (nonlinear_arith);
            },
            None => {},
        }
    }
}

/// What the first `k` places of row `p` are worth.
spec fn row_worth<T>(
    m: Seq<Formula<T>>,
    n: int,
    v: spec_fn(T) -> real,
    p: int,
    k: int,
) -> real
    decreases k,
{
    if k <= 0 {
        0real
    } else {
        row_worth(m, n, v, p, k - 1) + worth(m[cell(n, p, k - 1)], v)
    }
}

/// Whether all places of a matrix stand for real numbers.
pub open spec fn all_defined<T>(m: Seq<Formula<T>>, v: spec_fn(T) -> real) -> bool {
    forall|i: int| 0 <= i < m.len() ==> is_defined(#[trigger] m[i], v)
}

/// A term that is added in row `r` counts in that row.
proof fn lemma_row_raised<T>(
    m: Seq<Formula<T>>,
    n: int,
    r: int,
    q: int,
    t: Formula<T>,
    v: spec_fn(T) -> real,
    p: int,
    k: int,
)
    requires
        m.len() == n * n,
        0 <= r < n,
        0 <= q < n,
        0 <= p < n,
        0 <= k <= n,
        all_defined(m, v),
        is_defined(t, v),
    ensures
        row_worth(raised(m, cell(n, r, q), t), n, v, p, k) == row_worth(m, n, v, p, k) + if p == r
            && q < k {
            worth(t, v)
        } else {
            0real
        },
        row_worth(lowered(m, cell(n, r, q), t), n, v, p, k) == row_worth(m, n, v, p, k) - if p == r
            && q < k {
            worth(t, v)
        } else {
            0real
        },
        all_defined(raised(m, cell(n, r, q), t), v),
        all_defined(lowered(m, cell(n, r, q), t), v),
        raised(m, cell(n, r, q), t).len() == m.len(),
        lowered(m, cell(n, r, q), t).len() == m.len(),
    decreases k,
{
    let c = cell(n, r, q);
    lemma_cell_bound(n, n, r, q);
    if k > 0 {
        lemma_row_raised(m, n, r, q, t, v, p, k - 1);
        lemma_cell_bound(n, n, p, k - 1);
        if cell(n, p, k - 1) == c {
            lemma_cell_injective(n, p, k - 1, r, q);
        }
    }
}

/// The smoothness constraint leaves the sums of the rows as they are.
proof fn lemma_smoothed_rows<T>(
    m: Seq<Formula<T>>,
    n: int,
    alpha: Formula<T>,
    v: spec_fn(T) -> real,
    rows: int,
    p: int,
)
    requires
        m.len() == n * n,
        0 <= rows <= n,
        0 <= p < n,
        all_defined(m, v),
        is_defined(alpha, v),
    ensures
        row_worth(smoothed(m, n, alpha, rows), n, v, p, n) == row_worth(m, n, v, p, n),
        all_defined(smoothed(m, n, alpha, rows), v),
        smoothed(m, n, alpha, rows).len() == m.len(),
    decreases rows,
{
    if rows > 0 {
        let i = rows - 1;
        let below = if i > 0 {
            i - 1
        } else {
            0
        };
        let above = at_most(i + 1, n - 1);
        lemma_smoothed_rows(m, n, alpha, v, i, p);
        let m0 = smoothed(m, n, alpha, i);
        let twice = times(count(2), alpha);
        assert(is_defined(twice, v) && worth(twice, v) == 2real * worth(alpha, v)) by {
            reveal_with_fuel(worth, 3);
            reveal_with_fuel(is_defined, 3);
        }
        lemma_row_raised(m0, n, i, below, alpha, v, p, n);
        let m1 = lowered(m0, cell(n, i, below), alpha);
        lemma_row_raised(m1, n, i, i, twice, v, p, n);
        let m2 = raised(m1, cell(n, i, i), twice);
        lemma_row_raised(m2, n, i, above, alpha, v, p, n);
    }
}

/// The pull towards the mean adds one term to each of the first rows.
proof fn lemma_damped_rows<T>(
    m: Seq<Formula<T>>,
    n: int,
    v: spec_fn(T) -> real,
    rows: int,
    p: int,
)
    requires
        m.len() == n * n,
        0 <= rows <= n,
        0 <= p < n,
        all_defined(m, v),
    ensures
        row_worth(damped(m, n, rows), n, v, p, n) == row_worth(m, n, v, p, n) + if p < rows {
            1real / 8192real
        } else {
            0real
        },
        all_defined(damped(m, n, rows), v),
        damped(m, n, rows).len() == m.len(),
    decreases rows,
{
    if rows > 0 {
        lemma_damped_rows(m, n, v, rows - 1, p);
        let t = over::<T>(count(1), count(8192));
        assert(is_defined(t, v) && worth(t, v) == 1real / 8192real) by {
            reveal_with_fuel(worth, 3);
            reveal_with_fuel(is_defined, 3);
        }
        lemma_row_raised(damped(m, n, rows - 1), n, rows - 1, rows - 1, t, v, p, n);
    }
}

/// What the places of a row are worth is what their outcomes are worth.
proof fn lemma_row_outcome<T: Scalar>(
    m: Seq<Formula<T>>,
    a: Seq<T>,
    n: int,
    v: spec_fn(T) -> real,
    p: int,
    k: int,
)
    requires
        is_exact(v),
        all_defined(m, v),
        denotes_all(m, a),
        m.len() == n * n,
        0 <= p < n,
        0 <= k <= n,
    ensures
        weight_sum(a, n, v, p, k) == row_worth(m, n, v, p, k),
    decreases k,
{
    if k > 0 {
        lemma_row_outcome(m, a, n, v, p, k - 1);
        lemma_cell_bound(n, n, p, k - 1);
        let c = cell(n, p, k - 1);
        law_worth(m[c], v, a[c]);
    }
}

/// What the formulas of a row are worth is what its entries are worth.
proof fn lemma_row_values<T: Scalar>(
    s: StrengthSolver<T>,
    v: spec_fn(T) -> real,
    p: int,
    k: int,
)
    requires
        s.wf(),
        0 <= p < s.num_bins,
        0 <= k <= s.num_bins,
    ensures
        row_worth(values(s.eqns.a@), s.num_bins as int, v, p, k) == row_sum(s.eqns, v, p, k),
    decreases k,
{
    if k > 0 {
        let n = s.num_bins as int;
        lemma_row_values(s, v, p, k - 1);
        lemma_cell_bound(n, n, p, k - 1);
        let c = cell(n, p, k - 1);
        assert(values(s.eqns.a@)[c] == value(s.eqns.a@[c]));
    }
}

/// Whether `a` is the matrix that is handed to the solver: that of the measurements, with
/// the smoothness constraint and the pull towards the mean.
pub open spec fn is_regularised<T: Scalar>(s: StrengthSolver<T>, a: Seq<T>) -> bool {
    let n = s.num_bins as int;
    denotes_all(
        damped(
            smoothed(values(s.eqns.a@), n, smoothing_weight(s.num_equations, s.num_bins), n),
            n,
            n,
        ),
        a,
    )
}

/// Where all measurements found one strength, this strength in all bins solves the system
/// that is handed to the solver: the smoothness constraint and the pull towards the mean
/// leave it alone.
pub proof fn law_constant_strength<T: Kernels>(
    num_bins: usize,
    ms: Seq<Option<(T, T)>>,
    pre: StrengthSolver<T>,
    post: StrengthSolver<T>,
    ok: bool,
    v: spec_fn(T) -> real,
    c: real,
)
    requires
        is_exact(v),
        num_bins >= 1,
        holds_measurements(num_bins, ms, ms.len() as int, pre),
        are_constant(ms, v, c, ms.len() as int),
        pre.num_equations >= 1,
        is_strength_solved(pre, post, ok),
    ensures
        exists|a: Seq<T>, y: Seq<T>|
            {
                &&& is_regularised(pre, a)
                &&& is_solved_by_constant(a, num_bins as int, post.eqns.b@, v, c)
                &&& #[trigger] linsolve_gives(
                    num_bins,
                    a,
                    post.eqns.b@,
                    pre.eqns.x@,
                    y,
                    ok,
                )
                &&& post.eqns.x@ == if y.len() == num_bins {
                    y
                } else {
                    pre.eqns.x@
                }
            },
{
    lemma_constant_rows(num_bins, ms, ms.len() as int, pre, v, c);
    let n = num_bins as int;
    let alpha = smoothing_weight(pre.num_equations, pre.num_bins);
    let m = values(pre.eqns.a@);
    let ms1 = smoothed(m, n, alpha, n);
    let md = damped(ms1, n, n);
    let (a, y) = choose|a: Seq<T>, y: Seq<T>|
        {
            &&& denotes_all(md, a)
            &&& #[trigger] linsolve_gives(pre.num_bins, a, post.eqns.b@, pre.eqns.x@, y, ok)
            &&& post.eqns.x@ == if y.len() == n {
                y
            } else {
                pre.eqns.x@
            }
        };
    assert(is_defined(alpha, v)) by {
        reveal_with_fuel(worth, 4);
        reveal_with_fuel(is_defined, 4);
    }
    assert(all_defined(m, v));
    let e = pre.num_equations as real;
    let mean = mean_strength(pre);
    assert(is_defined(mean, v) && worth(mean, v) == v(pre.total) / e) by {
        reveal_with_fuel(worth, 3);
        reveal_with_fuel(is_defined, 3);
    }
    assert(v(pre.total) / e == c) by (nonlinear_arith)
        requires
            v(pre.total) == e * c,
            e >= 1real,
    ;
    assert forall|p: int| 0 <= p < n implies weight_sum(a, n, v, p, n) * c == v(
        #[trigger] post.eqns.b@[p],
    ) by {
        lemma_smoothed_rows(m, n, alpha, v, n, p);
        lemma_damped_rows(ms1, n, v, n, p);
        lemma_row_outcome(md, a, n, v, p, n);
        lemma_row_values(pre, v, p, n);
        let row = row_sum(pre.eqns, v, p, n);
        let side = plus(value(pre.eqns.b@[p]), over(mean, count(8192)));
        assert(is_defined(side, v) && worth(side, v) == v(pre.eqns.b@[p]) + c / 8192real) by {
            reveal_with_fuel(worth, 3);
            reveal_with_fuel(is_defined, 3);
        }
        law_worth(side, v, post.eqns.b@[p]);
        assert(row * c == v(pre.eqns.b@[p]));
        assert((row + 1real / 8192real) * c == row * c + c / 8192real) by (nonlinear_arith);
    }
    assert(is_regularised(pre, a));
    assert(linsolve_gives(num_bins, a, post.eqns.b@, pre.eqns.x@, y, ok));
    assert(is_solved_by_constant(a, n, post.eqns.b@, v, c));
}

} // verus!
