//! What holds of noise strengths when the number type calculates exactly.
use crate::exact::{
    is_defined, is_exact, is_floor, law_worth, lemma_one_floor, whole, within, worth,
};
use crate::matrix::{cell, lemma_cell_bound, lemma_cell_injective};
use crate::scalar::{
    count, denotes, denotes_all, index_gives, is_index, minus, mul_add, plus, times, unary,
    unary_gives, value, values, Formula, Scalar, UnaryOp,
};
use crate::strength::{
    at_most, bin_offset, bin_position, is_bin, is_measured, is_strength_at, measured_matrix,
    lowered, measured_vector, raised, StrengthSolver,
};
use vstd::prelude::*;

verus! {

/// Where the intensity `x` lies, measured in bins.
pub open spec fn position(num_bins: usize, x: real) -> real {
    ((num_bins - 1) as real * within(x, 0real, 255real)) / 255real
}

/// What the position of an intensity in the bins is worth.
pub(crate) proof fn lemma_position<T: Scalar>(num_bins: usize, v: spec_fn(T) -> real, x: T)
    requires
        num_bins >= 1,
    ensures
        is_defined(bin_position(num_bins, value(x)), v),
        worth(bin_position(num_bins, value(x)), v) == position(num_bins, v(x)),
        0real <= position(num_bins, v(x)),
        position(num_bins, v(x)) <= (num_bins - 1) as real,
{
    reveal_with_fuel(worth, 6);
    reveal_with_fuel(is_defined, 6);
    let m = (num_bins - 1) as real;
    let w = within(v(x), 0real, 255real);
    assert(0real <= m * w && m * w <= m * 255real) by (nonlinear_arith)
        requires
            0real <= m,
            0real <= w,
            w <= 255real,
    ;
}

/// The bin at or below an intensity is the whole part of its position.
proof fn lemma_bin<T: Scalar>(num_bins: usize, v: spec_fn(T) -> real, x: T, i: int)
    requires
        num_bins >= 1,
        is_exact(v),
        is_bin(num_bins, value(x), i),
    ensures
        is_floor(position(num_bins, v(x)), i),
        0 <= i < num_bins,
        i == whole(position(num_bins, v(x))),
{
    let f = bin_position(num_bins, value(x));
    let p = position(num_bins, v(x));
    lemma_position(num_bins, v, x);
    let k = choose|k: usize|
        {
            &&& #[trigger] is_index(unary(UnaryOp::Floor, f), k)
            &&& i == at_most(k as int, num_bins - 1)
        };
    let y = choose|y: T| #[trigger]
        denotes(unary(UnaryOp::Floor, f), y) && call_ensures(T::to_index, (y,), k);
    let z = choose|z: T| denotes(f, z) && #[trigger] unary_gives(UnaryOp::Floor, z, y);
    law_worth(f, v, z);
    let j = choose|j: int| #[trigger] is_floor(v(z), j) && v(y) == j as real;
    assert(index_gives(y, k));
    assert(0 <= j <= num_bins - 1) by {
        if j < 0 {
            assert(j as real + 1real <= 0real);
        }
        if j > num_bins - 1 {
            assert(j as real >= (num_bins - 1) as real + 1real);
        }
    }
    assert(is_floor(v(y), k as int));
    lemma_one_floor(v(y), k as int, j);
    lemma_one_floor(p, i, whole(p));
}

/// The strength at an intensity lies on the line through the strengths of the bins below
/// and above it.
pub proof fn law_interpolation<T: Scalar>(
    s: StrengthSolver<T>,
    v: spec_fn(T) -> real,
    x: T,
    r: T,
)
    requires
        is_exact(v),
        s.wf(),
        s.num_bins >= 1,
        is_strength_at(s, x, r),
    ensures
        ({
            let p = position(s.num_bins, v(x));
            let i = whole(p);
            let j = at_most(i + 1, s.num_bins - 1);
            let a = p - i as real;
            &&& 0 <= i < s.num_bins
            &&& is_floor(p, i)
            &&& v(r) == (1real - a) * v(s.eqns.x@[i]) + a * v(s.eqns.x@[j])
        }),
{
    let n = s.num_bins;
    let p = position(n, v(x));
    let i = choose|i: int|
        {
            let j = at_most(i + 1, n - 1);
            let f = bin_offset(n, value(x), i);
            &&& #[trigger] is_bin(n, value(x), i)
            &&& denotes(
                mul_add(
                    minus(count(1), f),
                    value(s.eqns.x@[i]),
                    times(f, value(s.eqns.x@[j])),
                ),
                r,
            )
        };
    let j = at_most(i + 1, n - 1);
    let f = bin_offset(n, value(x), i);
    let g = mul_add(minus(count(1), f), value(s.eqns.x@[i]), times(f, value(s.eqns.x@[j])));
    lemma_bin(n, v, x, i);
    lemma_offset(n, v, x, i);
    assert(is_defined(g, v) && worth(g, v) == (1real - (p - i as real)) * v(s.eqns.x@[i]) + (p
        - i as real) * v(s.eqns.x@[j])) by {
        reveal_with_fuel(worth, 4);
        reveal_with_fuel(is_defined, 4);
    }
    law_worth(g, v, r);
}

/// What the distance of an intensity from a bin is worth.
proof fn lemma_offset<T: Scalar>(n: usize, v: spec_fn(T) -> real, x: T, i: int)
    requires
        n >= 1,
        0 <= i < n,
    ensures
        is_defined(bin_offset(n, value(x), i), v),
        worth(bin_offset(n, value(x), i), v) == position(n, v(x)) - i as real,
{
    lemma_position(n, v, x);
    reveal_with_fuel(worth, 3);
    reveal_with_fuel(is_defined, 3);
}

/// The strength at an intensity is never outside the strengths of the bins.
pub proof fn law_interpolation_bounds<T: Scalar>(
    s: StrengthSolver<T>,
    v: spec_fn(T) -> real,
    x: T,
    r: T,
    low: real,
    high: real,
)
    requires
        is_exact(v),
        s.wf(),
        s.num_bins >= 1,
        is_strength_at(s, x, r),
        forall|k: int|
            0 <= k < s.num_bins ==> low <= v(#[trigger] s.eqns.x@[k]) && v(s.eqns.x@[k]) <= high,
    ensures
        low <= v(r) <= high,
{
    law_interpolation(s, v, x, r);
    let p = position(s.num_bins, v(x));
    let i = whole(p);
    let j = at_most(i + 1, s.num_bins - 1);
    let a = p - i as real;
    let b = v(s.eqns.x@[i]);
    let c = v(s.eqns.x@[j]);
    assert(low <= (1real - a) * b + a * c && (1real - a) * b + a * c <= high) by (nonlinear_arith)
        requires
            0real <= a,
            a <= 1real,
            low <= b,
            b <= high,
            low <= c,
            c <= high,
    ;
}

/// At the centre of a bin the strength is that of the bin. Below the first centre it is that
/// of the first bin, and above the last centre that of the last.
pub proof fn law_interpolation_at_centres<T: Scalar>(
    s: StrengthSolver<T>,
    v: spec_fn(T) -> real,
    x: T,
    r: T,
    k: int,
)
    requires
        is_exact(v),
        s.wf(),
        s.num_bins >= 1,
        is_strength_at(s, x, r),
        0 <= k < s.num_bins,
    ensures
        0real <= v(x) <= 255real && (s.num_bins - 1) as real * v(x) == k as real * 255real ==> v(r)
            == v(s.eqns.x@[k]),
        v(x) <= 0real ==> v(r) == v(s.eqns.x@[0]),
        v(x) >= 255real ==> v(r) == v(s.eqns.x@[s.num_bins - 1]),
{
    law_interpolation(s, v, x, r);
    let n = s.num_bins;
    let p = position(n, v(x));
    let m = (n - 1) as real;
    let i = whole(p);
    if 0real <= v(x) && v(x) <= 255real && m * v(x) == k as real * 255real {
        assert(p == k as real) by (nonlinear_arith)
            requires
                p == (m * v(x)) / 255real,
                m * v(x) == k as real * 255real,
        ;
        lemma_at_whole(s, v, r, p, i, k);
    }
    if v(x) <= 0real {
        assert(p == 0real) by (nonlinear_arith)
            requires
                p == (m * 0real) / 255real,
        ;
        lemma_at_whole(s, v, r, p, i, 0);
    }
    if v(x) >= 255real {
        assert(p == m) by (nonlinear_arith)
            requires
                p == (m * 255real) / 255real,
        ;
        lemma_at_whole(s, v, r, p, i, n - 1);
    }
}

proof fn lemma_at_whole<T: Scalar>(
    s: StrengthSolver<T>,
    v: spec_fn(T) -> real,
    r: T,
    p: real,
    i: int,
    k: int,
)
    requires
        is_floor(p, i),
        p == k as real,
        ({
            let j = at_most(i + 1, s.num_bins - 1);
            let a = p - i as real;
            v(r) == (1real - a) * v(s.eqns.x@[i]) + a * v(s.eqns.x@[j])
        }),
    ensures
        v(r) == v(s.eqns.x@[k]),
{
    lemma_one_floor(p, i, k);
    let j = at_most(i + 1, s.num_bins - 1);
    let b = v(s.eqns.x@[i]);
    let c = v(s.eqns.x@[j]);
    let a = p - i as real;
    assert((1real - a) * b + a * c == b) by (nonlinear_arith)
        requires
            a == 0real,
    ;
}

/// The share of a measurement at the intensity `x` that bin `k` gets.
pub open spec fn share(num_bins: usize, x: real, k: int) -> real {
    let p = position(num_bins, x);
    let i = whole(p);
    let j = at_most(i + 1, num_bins - 1);
    let a = p - i as real;
    (if k == i {
        1real - a
    } else {
        0real
    }) + (if k == j {
        a
    } else {
        0real
    })
}

/// What adding a term at one place does to what a place is worth.
proof fn lemma_raised<T>(
    m: Seq<Formula<T>>,
    k: int,
    t: Formula<T>,
    v: spec_fn(T) -> real,
    c: int,
)
    requires
        0 <= k < m.len(),
        0 <= c < m.len(),
        is_defined(m[c], v),
        is_defined(t, v),
    ensures
        is_defined(raised(m, k, t)[c], v),
        worth(raised(m, k, t)[c], v) == worth(m[c], v) + if c == k {
            worth(t, v)
        } else {
            0real
        },
        raised(m, k, t).len() == m.len(),
{
}

/// What subtracting a term at one place does to what a place is worth.
proof fn lemma_lowered<T>(
    m: Seq<Formula<T>>,
    k: int,
    t: Formula<T>,
    v: spec_fn(T) -> real,
    c: int,
)
    requires
        0 <= k < m.len(),
        0 <= c < m.len(),
        is_defined(m[c], v),
        is_defined(t, v),
    ensures
        is_defined(lowered(m, k, t)[c], v),
        worth(lowered(m, k, t)[c], v) == worth(m[c], v) - if c == k {
            worth(t, v)
        } else {
            0real
        },
        lowered(m, k, t).len() == m.len(),
{
}

/// What is added to a cell is the product of the shares of its row and its column.
proof fn lemma_shares(p: int, q: int, i: int, j: int, a: real)
    requires
        i == j ==> a == 0real,
    ensures
        ({
            let sp = (if p == i { 1real - a } else { 0real }) + (if p == j { a } else { 0real });
            let sq = (if q == i { 1real - a } else { 0real }) + (if q == j { a } else { 0real });
            sp * sq == (if p == i && q == i { (1real - a) * (1real - a) } else { 0real }) + (
            if p == j && q == i { a * (1real - a) } else { 0real }) + (if p == j && q == j { a * a }
            else { 0real }) + (if p == i && q == j { (1real - a) * a } else { 0real })
        }),
{
    let sp = (if p == i { 1real - a } else { 0real }) + (if p == j { a } else { 0real });
    let sq = (if q == i { 1real - a } else { 0real }) + (if q == j { a } else { 0real });
    if p == i || p == j {
        if q == i || q == j {
            if i == j {
                assert(sp * sq == 1real) by (nonlinear_arith)
                    requires
                        sp == 1real,
                        sq == 1real,
                ;
                assert((1real - a) * (1real - a) == 1real && a * (1real - a) == 0real && a * a
                    == 0real && (1real - a) * a == 0real) by (nonlinear_arith)
                    requires
                        a == 0real,
                ;
            }
        } else {
            assert(sp * sq == 0real) by (nonlinear_arith)
                requires
                    sq == 0real,
            ;
        }
    } else {
        assert(sp * sq == 0real) by (nonlinear_arith)
            requires
                sp == 0real,
        ;
    }
}

/// What a measurement adds.
pub proof fn law_measurement<T: Scalar>(
    pre: StrengthSolver<T>,
    v: spec_fn(T) -> real,
    block_mean: T,
    noise_std: T,
    post: StrengthSolver<T>,
)
    requires
        is_exact(v),
        pre.wf(),
        pre.num_bins >= 1,
        is_measured(pre, block_mean, noise_std, post),
    ensures
        forall|p: int, q: int|
            0 <= p < pre.num_bins && 0 <= q < pre.num_bins ==> v(#[trigger] post.eqns.entry(p, q))
                == v(pre.eqns.entry(p, q)) + share(pre.num_bins, v(block_mean), p) * share(
                pre.num_bins,
                v(block_mean),
                q,
            ),
        forall|k: int|
            0 <= k < pre.num_bins ==> v(#[trigger] post.eqns.b@[k]) == v(pre.eqns.b@[k]) + share(
                pre.num_bins,
                v(block_mean),
                k,
            ) * v(noise_std),
        v(post.total) == v(pre.total) + v(noise_std),
        post.num_equations == pre.num_equations + 1,
{
    let num_bins = pre.num_bins;
    let n = num_bins as int;
    let i = choose|i: int|
        {
            let j = at_most(i + 1, n - 1);
            let f = bin_offset(num_bins, value(block_mean), i);
            &&& #[trigger] is_bin(num_bins, value(block_mean), i)
            &&& denotes_all(measured_matrix(values(pre.eqns.a@), n, i, j, f), post.eqns.a@)
            &&& denotes_all(
                measured_vector(values(pre.eqns.b@), i, j, f, value(noise_std)),
                post.eqns.b@,
            )
        };
    let j = at_most(i + 1, n - 1);
    let f = bin_offset(num_bins, value(block_mean), i);
    let pos = position(num_bins, v(block_mean));
    let a = pos - i as real;
    lemma_position(num_bins, v, block_mean);
    lemma_bin(num_bins, v, block_mean, i);
    lemma_offset(num_bins, v, block_mean, i);
    assert(i == j ==> a == 0real);
    assert forall|p: int, q: int| 0 <= p < n && 0 <= q < n implies v(
        #[trigger] post.eqns.entry(p, q),
    ) == v(pre.eqns.entry(p, q)) + share(num_bins, v(block_mean), p) * share(
        num_bins,
        v(block_mean),
        q,
    ) by {
        lemma_cell_bound(n, n, p, q);
        let c = cell(n, p, q);
        assert(values(pre.eqns.a@)[c] == value(pre.eqns.a@[c]));
        lemma_measured_cell(values(pre.eqns.a@), n, i, j, f, v, p, q);
        let m = measured_matrix(values(pre.eqns.a@), n, i, j, f);
        assert(denotes(m[c], post.eqns.a@[c]));
        law_worth(m[c], v, post.eqns.a@[c]);
        lemma_shares(p, q, i, j, a);
    }
    assert forall|k: int| 0 <= k < n implies v(#[trigger] post.eqns.b@[k]) == v(pre.eqns.b@[k])
        + share(num_bins, v(block_mean), k) * v(noise_std) by {
        assert(values(pre.eqns.b@)[k] == value(pre.eqns.b@[k]));
        lemma_measured_entry(values(pre.eqns.b@), i, j, f, value(noise_std), v, k);
        let m = measured_vector(values(pre.eqns.b@), i, j, f, value(noise_std));
        assert(denotes(m[k], post.eqns.b@[k]));
        law_worth(m[k], v, post.eqns.b@[k]);
        let d = v(noise_std);
        let sk = share(num_bins, v(block_mean), k);
        assert(sk * d == (if k == i { (1real - a) * d } else { 0real }) + (if k == j { a * d }
        else { 0real })) by {
            if k == i && k == j {
                assert(sk * d == (1real - a) * d + a * d) by (nonlinear_arith)
                    requires
                        sk == (1real - a) + a,
                ;
            } else if k != i && k != j {
                assert(sk * d == 0real) by (nonlinear_arith)
                    requires
                        sk == 0real,
                ;
            }
        }
    }
    reveal_with_fuel(worth, 3);
    reveal_with_fuel(is_defined, 3);
    law_worth(plus(value(pre.total), value(noise_std)), v, post.total);
}

/// What a cell of the matrix is worth after a measurement.
proof fn lemma_measured_cell<T>(
    m: Seq<Formula<T>>,
    n: int,
    i: int,
    j: int,
    f: Formula<T>,
    v: spec_fn(T) -> real,
    p: int,
    q: int,
)
    requires
        m.len() == n * n,
        0 <= i < n,
        0 <= j < n,
        0 <= p < n,
        0 <= q < n,
        is_defined(m[cell(n, p, q)], v),
        is_defined(f, v),
    ensures
        ({
            let c = cell(n, p, q);
            let a = worth(f, v);
            let r = measured_matrix(m, n, i, j, f);
            &&& is_defined(r[c], v)
            &&& worth(r[c], v) == worth(m[c], v) + (if p == i && q == i { (1real - a) * (1real - a) }
            else { 0real }) + (if p == j && q == i { a * (1real - a) } else { 0real }) + (if p == j
                && q == j { a * a } else { 0real }) + (if p == i && q == j { (1real - a) * a }
            else { 0real })
        }),
{
    let c = cell(n, p, q);
    let g = minus(count(1), f);
    lemma_cell_bound(n, n, p, q);
    lemma_cell_bound(n, n, i, i);
    lemma_cell_bound(n, n, j, i);
    lemma_cell_bound(n, n, j, j);
    lemma_cell_bound(n, n, i, j);
    if c == cell(n, i, i) {
        lemma_cell_injective(n, p, q, i, i);
    }
    if c == cell(n, j, i) {
        lemma_cell_injective(n, p, q, j, i);
    }
    if c == cell(n, j, j) {
        lemma_cell_injective(n, p, q, j, j);
    }
    if c == cell(n, i, j) {
        lemma_cell_injective(n, p, q, i, j);
    }
    let t1 = unary(UnaryOp::Squared, g);
    let t2 = times(f, g);
    let t3 = unary(UnaryOp::Squared, f);
    let t4 = times(g, f);
    assert(is_defined(t1, v) && is_defined(t2, v) && is_defined(t3, v) && is_defined(t4, v)) by {
        reveal_with_fuel(is_defined, 4);
    }
    let a = worth(f, v);
    assert(worth(t1, v) == (1real - a) * (1real - a) && worth(t2, v) == a * (1real - a) && worth(
        t3,
        v,
    ) == a * a && worth(t4, v) == (1real - a) * a) by {
        reveal_with_fuel(worth, 4);
    }
    let m1 = raised(m, cell(n, i, i), t1);
    let m2 = raised(m1, cell(n, j, i), t2);
    let m3 = raised(m2, cell(n, j, j), t3);
    lemma_raised(m, cell(n, i, i), t1, v, c);
    lemma_raised(m1, cell(n, j, i), t2, v, c);
    lemma_raised(m2, cell(n, j, j), t3, v, c);
    lemma_raised(m3, cell(n, i, j), t4, v, c);
}

/// What an entry of the right-hand side is worth after a measurement.
proof fn lemma_measured_entry<T>(
    m: Seq<Formula<T>>,
    i: int,
    j: int,
    f: Formula<T>,
    s: Formula<T>,
    v: spec_fn(T) -> real,
    k: int,
)
    requires
        0 <= i < m.len(),
        0 <= j < m.len(),
        0 <= k < m.len(),
        is_defined(m[k], v),
        is_defined(f, v),
        is_defined(s, v),
    ensures
        ({
            let a = worth(f, v);
            let d = worth(s, v);
            let r = measured_vector(m, i, j, f, s);
            &&& is_defined(r[k], v)
            &&& worth(r[k], v) == worth(m[k], v) + (if k == i { (1real - a) * d } else { 0real })
                + (if k == j { a * d } else { 0real })
        }),
{
    let t1 = times(minus(count(1), f), s);
    let t2 = times(f, s);
    assert(is_defined(t1, v) && is_defined(t2, v)) by {
        reveal_with_fuel(is_defined, 4);
    }
    assert(worth(t1, v) == (1real - worth(f, v)) * worth(s, v) && worth(t2, v) == worth(f, v)
        * worth(s, v)) by {
        reveal_with_fuel(worth, 4);
    }
    lemma_raised(m, i, t1, v, k);
    lemma_raised(raised(m, i, t1), j, t2, v, k);
}

} // verus!
