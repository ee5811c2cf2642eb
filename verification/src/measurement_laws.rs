//! What holds of lists of measurements when the number type calculates exactly.
use crate::equations::{is_cleared, EquationSystem};
use crate::exact::{is_defined, is_exact, is_floor, law_worth, whole, within, worth};
use crate::matrix::{cell, lemma_cell_bound};
use crate::measurements::{holds_measurements, is_taken_in};
use crate::scalar::{count, is_zero, plus, value, Scalar};
use crate::strength::{at_most, is_measured, is_strength_sum, StrengthSolver};
use crate::strength_laws::{law_measurement, position, share};
use vstd::prelude::*;

verus! {

/// A real number that is not negative has a floor.
pub proof fn lemma_floor_exists(x: real, bound: int)
    requires
        0real <= x,
        x < bound as real,
        0 <= bound,
    ensures
        is_floor(x, whole(x)),
        0 <= whole(x) < bound,
    decreases bound,
{
    if bound > 0 {
        let i = bound - 1;
        if x >= i as real {
            assert(is_floor(x, i));
        } else {
            lemma_floor_exists(x, i);
        }
        lemma_whole_range(x, bound);
    }
}

proof fn lemma_whole_range(x: real, bound: int)
    requires
        0real <= x,
        x < bound as real,
        exists|i: int| is_floor(x, i),
    ensures
        is_floor(x, whole(x)),
        0 <= whole(x) < bound,
{
    let w = whole(x);
    if w < 0 {
        assert((w + 1) as real <= 0real);
    }
    if w >= bound {
        assert(bound as real <= w as real);
    }
}

/// Where a measurement goes.
proof fn lemma_share(num_bins: usize, x: real, k: int)
    requires
        num_bins >= 1,
    ensures
        ({
            let p = position(num_bins, x);
            let i = whole(p);
            let j = at_most(i + 1, num_bins - 1);
            let a = p - i as real;
            &&& 0 <= i <= j < num_bins
            &&& j <= i + 1
            &&& 0real <= a
            &&& a <= 1real
            &&& i == j ==> a == 0real
        }),
        0real <= share(num_bins, x, k),
{
    let m = (num_bins - 1) as real;
    let w = within(x, 0real, 255real);
    let p = position(num_bins, x);
    assert(0real <= m * w && m * w <= m * 255real) by (nonlinear_arith)
        requires
            0real <= m,
            0real <= w,
            w <= 255real,
    ;
    lemma_floor_exists(p, num_bins as int);
}

/// The shares of the first `k` bins, added up.
pub open spec fn share_sum(num_bins: usize, x: real, k: int) -> real
    decreases k,
{
    if k <= 0 {
        0real
    } else {
        share_sum(num_bins, x, k - 1) + share(num_bins, x, k - 1)
    }
}

/// The shares of all bins add up to one.
proof fn lemma_share_sum(num_bins: usize, x: real, k: int)
    requires
        num_bins >= 1,
        0 <= k <= num_bins,
    ensures
        ({
            let p = position(num_bins, x);
            let i = whole(p);
            let j = at_most(i + 1, num_bins - 1);
            let a = p - i as real;
            share_sum(num_bins, x, k) == (if i < k {
                1real - a
            } else {
                0real
            }) + (if j < k {
                a
            } else {
                0real
            })
        }),
        k == num_bins ==> share_sum(num_bins, x, k) == 1real,
    decreases k,
{
    lemma_share(num_bins, x, k);
    if k > 0 {
        lemma_share_sum(num_bins, x, k - 1);
    }
}

/// The sum of the first `k` entries of row `p`.
pub open spec fn row_sum<T>(e: EquationSystem<T>, v: spec_fn(T) -> real, p: int, k: int) -> real
    decreases k,
{
    if k <= 0 {
        0real
    } else {
        row_sum(e, v, p, k - 1) + v(e.entry(p, k - 1))
    }
}

/// The sum of the entries of the first `k` rows.
pub open spec fn matrix_sum<T>(e: EquationSystem<T>, v: spec_fn(T) -> real, k: int) -> real
    decreases k,
{
    if k <= 0 {
        0real
    } else {
        matrix_sum(e, v, k - 1) + row_sum(e, v, k - 1, e.n as int)
    }
}

/// The sum of the first `k` entries of the right-hand side.
pub open spec fn side_sum<T>(e: EquationSystem<T>, v: spec_fn(T) -> real, k: int) -> real
    decreases k,
{
    if k <= 0 {
        0real
    } else {
        side_sum(e, v, k - 1) + v(e.b@[k - 1])
    }
}

/// Whether the matrix is symmetric, has no negative entries, and none away from the diagonal
/// and its neighbours; and whether the entries add up to the number of measurements, and
/// those of the right-hand side to the sum of the strengths.
pub open spec fn is_balanced<T>(s: StrengthSolver<T>, v: spec_fn(T) -> real) -> bool {
    let n = s.num_bins as int;
    &&& forall|p: int, q: int|
        0 <= p < n && 0 <= q < n ==> v(#[trigger] s.eqns.entry(p, q)) == v(s.eqns.entry(q, p))
    &&& forall|p: int, q: int|
        0 <= p < n && 0 <= q < n ==> v(#[trigger] s.eqns.entry(p, q)) >= 0real
    &&& forall|p: int, q: int|
        0 <= p < n && 0 <= q < n && (p + 1 < q || q + 1 < p) ==> v(#[trigger] s.eqns.entry(p, q))
            == 0real
    &&& matrix_sum(s.eqns, v, n) == s.num_equations as real
    &&& side_sum(s.eqns, v, n) == v(s.total)
}

/// What a measurement adds to the sum of a row.
pub(crate) proof fn lemma_row_sum<T: Scalar>(
    pre: StrengthSolver<T>,
    v: spec_fn(T) -> real,
    block_mean: T,
    noise_std: T,
    post: StrengthSolver<T>,
    p: int,
    k: int,
)
    requires
        is_exact(v),
        pre.wf(),
        pre.num_bins >= 1,
        is_measured(pre, block_mean, noise_std, post),
        0 <= p < pre.num_bins,
        0 <= k <= pre.num_bins,
    ensures
        row_sum(post.eqns, v, p, k) == row_sum(pre.eqns, v, p, k) + share(
            pre.num_bins,
            v(block_mean),
            p,
        ) * share_sum(pre.num_bins, v(block_mean), k),
        k == pre.num_bins ==> row_sum(post.eqns, v, p, k) == row_sum(pre.eqns, v, p, k) + share(
            pre.num_bins,
            v(block_mean),
            p,
        ),
    decreases k,
{
    let x = v(block_mean);
    let a = share(pre.num_bins, x, p);
    let b = share_sum(pre.num_bins, x, k);
    if k > 0 {
        lemma_row_sum(pre, v, block_mean, noise_std, post, p, k - 1);
        law_measurement(pre, v, block_mean, noise_std, post);
        let c = share_sum(pre.num_bins, x, k - 1);
        let d = share(pre.num_bins, x, k - 1);
        assert(v(post.eqns.entry(p, k - 1)) == v(pre.eqns.entry(p, k - 1)) + a * d);
        assert(a * b == a * c + a * d) by (nonlinear_arith)
            requires
                b == c + d,
        ;
    } else {
        assert(a * b == 0real) by (nonlinear_arith)
            requires
                b == 0real,
        ;
    }
    if k == pre.num_bins {
        lemma_share_sum(pre.num_bins, x, k);
        assert(a * b == a) by (nonlinear_arith)
            requires
                b == 1real,
        ;
    }
}

/// What a measurement adds to the sum of all entries, and to that of the right-hand side.
proof fn lemma_matrix_sum<T: Scalar>(
    pre: StrengthSolver<T>,
    v: spec_fn(T) -> real,
    block_mean: T,
    noise_std: T,
    post: StrengthSolver<T>,
    k: int,
)
    requires
        is_exact(v),
        pre.wf(),
        pre.num_bins >= 1,
        is_measured(pre, block_mean, noise_std, post),
        0 <= k <= pre.num_bins,
    ensures
        matrix_sum(post.eqns, v, k) == matrix_sum(pre.eqns, v, k) + share_sum(
            pre.num_bins,
            v(block_mean),
            k,
        ),
        side_sum(post.eqns, v, k) == side_sum(pre.eqns, v, k) + share_sum(
            pre.num_bins,
            v(block_mean),
            k,
        ) * v(noise_std),
    decreases k,
{
    let x = v(block_mean);
    let d = v(noise_std);
    let b = share_sum(pre.num_bins, x, k);
    if k > 0 {
        lemma_matrix_sum(pre, v, block_mean, noise_std, post, k - 1);
        lemma_row_sum(pre, v, block_mean, noise_std, post, k - 1, pre.num_bins as int);
        law_measurement(pre, v, block_mean, noise_std, post);
        let c = share_sum(pre.num_bins, x, k - 1);
        let a = share(pre.num_bins, x, k - 1);
        assert(v(post.eqns.b@[k - 1]) == v(pre.eqns.b@[k - 1]) + a * d);
        assert(b * d == c * d + a * d) by (nonlinear_arith)
            requires
                b == c + a,
        ;
    } else {
        assert(b * d == 0real) by (nonlinear_arith)
            requires
                b == 0real,
        ;
    }
}

/// A measurement keeps the balance.
pub proof fn law_measurement_keeps_balance<T: Scalar>(
    pre: StrengthSolver<T>,
    v: spec_fn(T) -> real,
    block_mean: T,
    noise_std: T,
    post: StrengthSolver<T>,
)
    requires
        is_exact(v),
        pre.wf(),
        pre.num_bins >= 1,
        is_balanced(pre, v),
        is_measured(pre, block_mean, noise_std, post),
    ensures
        is_balanced(post, v),
        post.eqns.x@ == pre.eqns.x@,
        post.num_bins == pre.num_bins,
{
    let n = pre.num_bins as int;
    let x = v(block_mean);
    law_measurement(pre, v, block_mean, noise_std, post);
    lemma_matrix_sum(pre, v, block_mean, noise_std, post, n);
    lemma_share_sum(pre.num_bins, x, n);
    let d = v(noise_std);
    assert(share_sum(pre.num_bins, x, n) * d == d) by (nonlinear_arith)
        requires
            share_sum(pre.num_bins, x, n) == 1real,
    ;
    assert forall|p: int, q: int| 0 <= p < n && 0 <= q < n implies v(
        #[trigger] post.eqns.entry(p, q),
    ) == v(post.eqns.entry(q, p)) && v(post.eqns.entry(p, q)) >= 0real && ((p + 1 < q || q + 1 < p)
        ==> v(post.eqns.entry(p, q)) == 0real) by {
        let a = share(pre.num_bins, x, p);
        let b = share(pre.num_bins, x, q);
        lemma_share(pre.num_bins, x, p);
        lemma_share(pre.num_bins, x, q);
        assert(v(post.eqns.entry(p, q)) == v(pre.eqns.entry(p, q)) + a * b);
        assert(v(post.eqns.entry(q, p)) == v(pre.eqns.entry(q, p)) + b * a);
        assert(a * b == b * a && a * b >= 0real) by (nonlinear_arith)
            requires
                a >= 0real,
                b >= 0real,
        ;
        assert(v(pre.eqns.entry(p, q)) == v(pre.eqns.entry(q, p)));
        assert(v(pre.eqns.entry(p, q)) >= 0real);
        if p + 1 < q || q + 1 < p {
            assert(v(pre.eqns.entry(p, q)) == 0real);
            assert(a * b == 0real) by (nonlinear_arith)
                requires
                    a == 0real || b == 0real,
            ;
        }
    }
}

/// What is zero is worth nothing.
pub(crate) proof fn lemma_zero<T: Scalar>(v: spec_fn(T) -> real, x: T)
    requires
        is_exact(v),
        is_zero(x),
    ensures
        v(x) == 0real,
{
    law_worth(count(0), v, x);
}

/// Sums of an empty system.
pub(crate) proof fn lemma_cleared_sums<T: Scalar>(e: EquationSystem<T>, v: spec_fn(T) -> real)
    requires
        is_exact(v),
        is_cleared(e),
    ensures
        forall|p: int, q: int|
            0 <= p < e.n && 0 <= q < e.n ==> v(#[trigger] e.entry(p, q)) == 0real,
        forall|k: int| 0 <= k < e.n ==> v(#[trigger] e.b@[k]) == 0real,
        forall|p: int, k: int|
            0 <= p < e.n && 0 <= k <= e.n ==> #[trigger] row_sum(e, v, p, k) == 0real,
        matrix_sum(e, v, e.n as int) == 0real,
        side_sum(e, v, e.n as int) == 0real,
{
    let n = e.n as int;
    assert forall|p: int, q: int| 0 <= p < n && 0 <= q < n implies v(#[trigger] e.entry(p, q))
        == 0real by {
        lemma_cell_bound(n, n, p, q);
        lemma_zero(v, e.a@[cell(n, p, q)]);
    }
    assert forall|k: int| 0 <= k < n implies v(#[trigger] e.b@[k]) == 0real by {
        lemma_zero(v, e.b@[k]);
    }
    assert forall|p: int, k: int| 0 <= p < n && 0 <= k <= n implies #[trigger] row_sum(e, v, p, k)
        == 0real by {
        lemma_zero_row(e, v, p, k);
    }
    lemma_zero_matrix(e, v, n);
}

proof fn lemma_zero_row<T>(e: EquationSystem<T>, v: spec_fn(T) -> real, p: int, k: int)
    requires
        forall|q: int| 0 <= q < e.n ==> v(#[trigger] e.entry(p, q)) == 0real,
        0 <= k <= e.n,
    ensures
        row_sum(e, v, p, k) == 0real,
    decreases k,
{
    if k > 0 {
        lemma_zero_row(e, v, p, k - 1);
        assert(v(e.entry(p, k - 1)) == 0real);
    }
}

proof fn lemma_zero_matrix<T>(e: EquationSystem<T>, v: spec_fn(T) -> real, k: int)
    requires
        forall|p: int, j: int|
            0 <= p < e.n && 0 <= j <= e.n ==> #[trigger] row_sum(e, v, p, j) == 0real,
        forall|i: int| 0 <= i < e.n ==> v(#[trigger] e.b@[i]) == 0real,
        0 <= k <= e.n,
    ensures
        matrix_sum(e, v, k) == 0real,
        side_sum(e, v, k) == 0real,
    decreases k,
{
    if k > 0 {
        lemma_zero_matrix(e, v, k - 1);
        assert(row_sum(e, v, k - 1, e.n as int) == 0real);
        assert(v(e.b@[k - 1]) == 0real);
    }
}

/// A solver that holds measurements and nothing else is balanced.
pub proof fn law_measured_balance<T: Scalar>(
    num_bins: usize,
    ms: Seq<Option<(T, T)>>,
    k: int,
    s: StrengthSolver<T>,
    v: spec_fn(T) -> real,
)
    requires
        is_exact(v),
        num_bins >= 1,
        0 <= k <= ms.len(),
        holds_measurements(num_bins, ms, k, s),
    ensures
        s.wf(),
        s.num_bins == num_bins,
        is_balanced(s, v),
    decreases k,
{
    if k <= 0 {
        lemma_cleared_sums(s.eqns, v);
        lemma_zero(v, s.total);
    } else {
        let mid = choose|mid: StrengthSolver<T>|
            {
                &&& holds_measurements(num_bins, ms, k - 1, mid)
                &&& #[trigger] is_taken_in(ms, k, mid, s)
            };
        law_measured_balance(num_bins, ms, k - 1, mid, v);
        match ms[k - 1] {
            Some((mean, strength)) => {
                law_measurement_keeps_balance(mid, v, mean, strength, s);
            },
            None => {},
        }
    }
}

/// What the first `k` measurements add to the cell in row `p`, column `q`.
pub open spec fn cell_total<T>(
    num_bins: usize,
    ms: Seq<Option<(T, T)>>,
    v: spec_fn(T) -> real,
    p: int,
    q: int,
    k: int,
) -> real
    decreases k,
{
    if k <= 0 {
        0real
    } else {
        cell_total(num_bins, ms, v, p, q, k - 1) + match ms[k - 1] {
            Some((x, d)) => share(num_bins, v(x), p) * share(num_bins, v(x), q),
            None => 0real,
        }
    }
}

/// What the first `k` measurements add to entry `p` of the right-hand side.
pub open spec fn side_total<T>(
    num_bins: usize,
    ms: Seq<Option<(T, T)>>,
    v: spec_fn(T) -> real,
    p: int,
    k: int,
) -> real
    decreases k,
{
    if k <= 0 {
        0real
    } else {
        side_total(num_bins, ms, v, p, k - 1) + match ms[k - 1] {
            Some((x, d)) => share(num_bins, v(x), p) * v(d),
            None => 0real,
        }
    }
}

/// The sum of the first `k` measured strengths.
pub open spec fn strength_total<T>(
    ms: Seq<Option<(T, T)>>,
    v: spec_fn(T) -> real,
    k: int,
) -> real
    decreases k,
{
    if k <= 0 {
        0real
    } else {
        strength_total(ms, v, k - 1) + match ms[k - 1] {
            Some((x, d)) => v(d),
            None => 0real,
        }
    }
}

/// How many of the first `k` blocks were measured.
pub open spec fn num_measured<T>(ms: Seq<Option<(T, T)>>, k: int) -> int
    decreases k,
{
    if k <= 0 {
        0
    } else {
        num_measured(ms, k - 1) + if ms[k - 1] is Some {
            1int
        } else {
            0
        }
    }
}

/// A solver holds the sums of what its measurements add.
pub proof fn law_measured_sums<T: Scalar>(
    num_bins: usize,
    ms: Seq<Option<(T, T)>>,
    k: int,
    s: StrengthSolver<T>,
    v: spec_fn(T) -> real,
)
    requires
        is_exact(v),
        num_bins >= 1,
        0 <= k <= ms.len(),
        holds_measurements(num_bins, ms, k, s),
    ensures
        s.wf(),
        s.num_bins == num_bins,
        forall|p: int, q: int|
            0 <= p < num_bins && 0 <= q < num_bins ==> v(#[trigger] s.eqns.entry(p, q))
                == cell_total(num_bins, ms, v, p, q, k),
        forall|p: int|
            0 <= p < num_bins ==> v(#[trigger] s.eqns.b@[p]) == side_total(num_bins, ms, v, p, k),
        v(s.total) == strength_total(ms, v, k),
        s.num_equations == num_measured(ms, k),
    decreases k,
{
    if k <= 0 {
        lemma_cleared_sums(s.eqns, v);
        lemma_zero(v, s.total);
    } else {
        let mid = choose|mid: StrengthSolver<T>|
            {
                &&& holds_measurements(num_bins, ms, k - 1, mid)
                &&& #[trigger] is_taken_in(ms, k, mid, s)
            };
        law_measured_sums(num_bins, ms, k - 1, mid, v);
        match ms[k - 1] {
            Some((mean, strength)) => {
                law_measurement(mid, v, mean, strength, s);
                assert forall|p: int, q: int| 0 <= p < num_bins && 0 <= q < num_bins implies v(
                    #[trigger] s.eqns.entry(p, q),
                ) == cell_total(num_bins, ms, v, p, q, k) by {
                    assert(v(mid.eqns.entry(p, q)) == cell_total(num_bins, ms, v, p, q, k - 1));
                }
                assert forall|p: int| 0 <= p < num_bins implies v(#[trigger] s.eqns.b@[p])
                    == side_total(num_bins, ms, v, p, k) by {
                    assert(v(mid.eqns.b@[p]) == side_total(num_bins, ms, v, p, k - 1));
                }
            },
            None => {},
        }
    }
}

/// The sums over two lists one after the other.
proof fn lemma_totals_of_both<T>(
    num_bins: usize,
    l1: Seq<Option<(T, T)>>,
    l2: Seq<Option<(T, T)>>,
    v: spec_fn(T) -> real,
    p: int,
    q: int,
    k: int,
)
    requires
        0 <= k <= l2.len(),
    ensures
        cell_total(num_bins, l1 + l2, v, p, q, l1.len() + k) == cell_total(
            num_bins,
            l1,
            v,
            p,
            q,
            l1.len() as int,
        ) + cell_total(num_bins, l2, v, p, q, k),
        side_total(num_bins, l1 + l2, v, p, l1.len() + k) == side_total(
            num_bins,
            l1,
            v,
            p,
            l1.len() as int,
        ) + side_total(num_bins, l2, v, p, k),
        strength_total(l1 + l2, v, l1.len() + k) == strength_total(l1, v, l1.len() as int)
            + strength_total(l2, v, k),
        num_measured(l1 + l2, l1.len() + k) == num_measured(l1, l1.len() as int) + num_measured(
            l2,
            k,
        ),
    decreases k,
{
    if k == 0 {
        lemma_totals_of_first(num_bins, l1, l2, v, p, q, l1.len() as int);
    } else {
        lemma_totals_of_both(num_bins, l1, l2, v, p, q, k - 1);
        assert((l1 + l2)[l1.len() + k - 1] == l2[k - 1]);
    }
}

proof fn lemma_totals_of_first<T>(
    num_bins: usize,
    l1: Seq<Option<(T, T)>>,
    l2: Seq<Option<(T, T)>>,
    v: spec_fn(T) -> real,
    p: int,
    q: int,
    k: int,
)
    requires
        0 <= k <= l1.len(),
    ensures
        cell_total(num_bins, l1 + l2, v, p, q, k) == cell_total(num_bins, l1, v, p, q, k),
        side_total(num_bins, l1 + l2, v, p, k) == side_total(num_bins, l1, v, p, k),
        strength_total(l1 + l2, v, k) == strength_total(l1, v, k),
        num_measured(l1 + l2, k) == num_measured(l1, k),
    decreases k,
{
    if k > 0 {
        lemma_totals_of_first(num_bins, l1, l2, v, p, q, k - 1);
        assert((l1 + l2)[k - 1] == l1[k - 1]);
    }
}

/// Adding a solver to another comes to the same as taking in both lists of measurements, one
/// after the other. The strengths found before are kept.
pub proof fn law_adding_is_measuring_both<T: Scalar>(
    num_bins: usize,
    l1: Seq<Option<(T, T)>>,
    l2: Seq<Option<(T, T)>>,
    s1: StrengthSolver<T>,
    s2: StrengthSolver<T>,
    both: StrengthSolver<T>,
    sum: StrengthSolver<T>,
    v: spec_fn(T) -> real,
)
    requires
        is_exact(v),
        num_bins >= 1,
        holds_measurements(num_bins, l1, l1.len() as int, s1),
        holds_measurements(num_bins, l2, l2.len() as int, s2),
        holds_measurements(num_bins, l1 + l2, (l1 + l2).len() as int, both),
        is_strength_sum(s1, s2, sum),
    ensures
        forall|p: int, q: int|
            0 <= p < num_bins && 0 <= q < num_bins ==> v(#[trigger] sum.eqns.entry(p, q)) == v(
                both.eqns.entry(p, q),
            ),
        forall|p: int|
            0 <= p < num_bins ==> v(#[trigger] sum.eqns.b@[p]) == v(both.eqns.b@[p]),
        v(sum.total) == v(both.total),
        sum.num_equations == both.num_equations,
        sum.eqns.x@ == s1.eqns.x@,
        sum.num_bins == s1.num_bins,
{
    let n = num_bins as int;
    law_measured_sums(num_bins, l1, l1.len() as int, s1, v);
    law_measured_sums(num_bins, l2, l2.len() as int, s2, v);
    law_measured_sums(num_bins, l1 + l2, (l1 + l2).len() as int, both, v);
    reveal_with_fuel(worth, 3);
    reveal_with_fuel(is_defined, 3);
    assert forall|p: int, q: int| 0 <= p < n && 0 <= q < n implies v(
        #[trigger] sum.eqns.entry(p, q),
    ) == v(both.eqns.entry(p, q)) by {
        lemma_totals_of_both(num_bins, l1, l2, v, p, q, l2.len() as int);
        lemma_cell_bound(n, n, p, q);
        let c = cell(n, p, q);
        law_worth(plus(value(s1.eqns.a@[c]), value(s2.eqns.a@[c])), v, sum.eqns.a@[c]);
        assert(v(s1.eqns.entry(p, q)) + v(s2.eqns.entry(p, q)) == v(both.eqns.entry(p, q)));
    }
    assert forall|p: int| 0 <= p < n implies v(#[trigger] sum.eqns.b@[p]) == v(both.eqns.b@[p]) by {
        lemma_totals_of_both(num_bins, l1, l2, v, p, 0, l2.len() as int);
        law_worth(plus(value(s1.eqns.b@[p]), value(s2.eqns.b@[p])), v, sum.eqns.b@[p]);
    }
    lemma_totals_of_both(num_bins, l1, l2, v, 0, 0, l2.len() as int);
    law_worth(plus(value(s1.total), value(s2.total)), v, sum.total);
}

} // verus!
