//! What the gain of an auto-regressive filter says of the noise, if the number type calculates
//! exactly.
use crate::difference_laws::sum_up;
use crate::equations::EquationSystem;
use crate::exact::{
    is_defined, is_exact, is_root, larger, law_worth, lemma_worth_total, worth,
};
use crate::kernels::Kernels;
use crate::precise::{lemma_operand, lemma_operands};
use crate::reals::{
    lemma_divided_twice, lemma_exchange, lemma_root_of_one, lemma_sizes, lemma_split_quotient,
};
use crate::scalar::{
    count, maximum, minus, over, ratio, times, total, unary, value, BinaryOp, Formula, Scalar,
    UnaryOp,
};
use crate::state::{
    adjusted_rhs, covariance_terms, diagonal_mean, diagonal_terms, filter_gain, is_gain_solved,
    NoiseModelState,
};
use vstd::prelude::*;

verus! {

/// The diagonal entries of a system.
pub open spec fn diagonal<T>(s: EquationSystem<T>, v: spec_fn(T) -> real) -> spec_fn(int) -> real {
    |i: int| v(s.a@[i * s.n + i])
}

/// How much of the noise each coefficient explains; what the noise shares with that of the
/// luma plane, whose coefficient is the last of a chroma plane, is left out.
pub open spec fn explained_by<T>(
    s: EquationSystem<T>,
    v: spec_fn(T) -> real,
    is_chroma: bool,
) -> spec_fn(int) -> real {
    |i: int|
        v(s.x@[i]) * if is_chroma {
            v(s.b@[i]) - v(s.a@[i * s.n + (s.n - 1)]) * v(s.x@[s.n - 1])
        } else {
            v(s.b@[i])
        }
}

/// The number of neighbours that the model looks at.
pub open spec fn num_neighbours<T>(s: EquationSystem<T>, is_chroma: bool) -> int {
    if is_chroma {
        s.n - 1
    } else {
        s.n as int
    }
}

/// The power of the noise: the mean over the neighbours, per observed pixel.
pub open spec fn power<T>(
    s: EquationSystem<T>,
    v: spec_fn(T) -> real,
    num_observations: usize,
    is_chroma: bool,
) -> real {
    let m = num_neighbours(s, is_chroma);
    sum_up(diagonal(s, v), m) / (num_observations as real * m as real)
}

/// The part of the power that the model explains.
pub open spec fn explained_power<T>(
    s: EquationSystem<T>,
    v: spec_fn(T) -> real,
    num_observations: usize,
    is_chroma: bool,
) -> real {
    sum_up(explained_by(s, v, is_chroma), num_neighbours(s, is_chroma)) / num_observations as real
}

/// What the sums are worth.
proof fn lemma_sums<T: Scalar>(
    s: EquationSystem<T>,
    v: spec_fn(T) -> real,
    num_observations: usize,
    is_chroma: bool,
    k: int,
)
    requires
        0 <= k <= num_neighbours(s, is_chroma),
        num_observations >= 1,
    ensures
        is_defined(total(count(0), diagonal_terms(s, num_observations, k)), v),
        worth(total(count(0), diagonal_terms(s, num_observations, k)), v) == sum_up(
            diagonal(s, v),
            k,
        ) / num_observations as real,
        is_defined(
            total(
                count(0),
                covariance_terms(
                    s,
                    num_observations,
                    is_chroma,
                    num_neighbours(s, is_chroma),
                    k,
                ),
            ),
            v,
        ),
        worth(
            total(
                count(0),
                covariance_terms(
                    s,
                    num_observations,
                    is_chroma,
                    num_neighbours(s, is_chroma),
                    k,
                ),
            ),
            v,
        ) == sum_up(explained_by(s, v, is_chroma), k) / num_observations as real,
    decreases k,
{
    let m = num_neighbours(s, is_chroma);
    let n = num_observations as real;
    let ds = diagonal_terms(s, num_observations, k);
    let cs = covariance_terms(s, num_observations, is_chroma, m, k);
    lemma_worth_total(ds, v);
    lemma_worth_total(cs, v);
    if k == 0 {
        lemma_sizes(0real, n);
    } else {
        lemma_sums(s, v, num_observations, is_chroma, k - 1);
        assert(ds.drop_last() =~= diagonal_terms(s, num_observations, k - 1));
        assert(cs.drop_last() =~= covariance_terms(s, num_observations, is_chroma, m, k - 1));
        let i = k - 1;
        let d = diagonal(s, v)(i);
        let e = explained_by(s, v, is_chroma)(i);
        let num: Formula<T> = count(num_observations);
        assert(is_defined(num, v) && worth(num, v) == n) by {
            reveal_with_fuel(worth, 1);
        }
        let x = value(s.x@[i]);
        assert(is_defined(x, v) && worth(x, v) == v(s.x@[i])) by {
            reveal_with_fuel(worth, 1);
        }
        let f = value(s.entry(i, i));
        assert(is_defined(f, v) && worth(f, v) == d) by {
            reveal_with_fuel(worth, 1);
        }
        assert(ds.last() == over(f, num));
        assert(is_defined(ds.last(), v) && worth(ds.last(), v) == d / n);
        let b = adjusted_rhs(s, is_chroma, m, i);
        let right = if is_chroma {
            v(s.b@[i]) - v(s.a@[i * s.n + (s.n - 1)]) * v(s.x@[s.n - 1])
        } else {
            v(s.b@[i])
        };
        assert(is_defined(b, v) && worth(b, v) == right) by {
            reveal_with_fuel(worth, 4);
            reveal_with_fuel(is_defined, 4);
        }
        let p = times(b, x);
        assert(is_defined(p, v) && worth(p, v) == right * v(s.x@[i]));
        lemma_exchange(right, v(s.x@[i]), 1real);
        assert(worth(p, v) == e);
        assert(cs.last() == over(p, num));
        assert(is_defined(cs.last(), v) && worth(cs.last(), v) == e / n);
        let (d0, e0) = (
            sum_up(diagonal(s, v), k - 1),
            sum_up(explained_by(s, v, is_chroma), k - 1),
        );
        lemma_split_quotient(d0, d, n);
        lemma_split_quotient(e0, e, n);
    }
}

/// The gain of a filter is never less than one.
pub proof fn law_gain_is_no_loss<T: Kernels>(
    pre: NoiseModelState<T>,
    is_chroma: bool,
    post: NoiseModelState<T>,
    ok: bool,
    v: spec_fn(T) -> real,
)
    requires
        is_exact(v),
        is_gain_solved(pre, is_chroma, post, ok),
    ensures
        v(post.ar_gain) >= 1real,
{
    let one: Formula<T> = count(1);
    assert(is_defined(one, v) && worth(one, v) == 1real);
    if ok {
        let f = filter_gain(post.eqns, pre.num_observations, is_chroma);
        let rooted = *f->Binary_2;
        assert(f == maximum(one, rooted));
        let (a, r) = lemma_operands(BinaryOp::Maximum, one, rooted, post.ar_gain);
        law_worth(one, v, a);
    } else {
        law_worth(one, v, post.ar_gain);
    }
}

/// Whether the gain of a filter is one at least and, if it is larger, its square is the power
/// of the noise, measured by the power that the model leaves unexplained.
pub open spec fn has_gain<T>(
    s: NoiseModelState<T>,
    v: spec_fn(T) -> real,
    is_chroma: bool,
) -> bool {
    let whole = power(s.eqns, v, s.num_observations, is_chroma);
    let explained = explained_power(s.eqns, v, s.num_observations, is_chroma);
    let rest = larger(whole - explained, 1real / 1_000_000real);
    &&& v(s.ar_gain) >= 1real
    &&& whole <= rest ==> v(s.ar_gain) == 1real
    &&& whole >= rest ==> v(s.ar_gain) * v(s.ar_gain) * rest == whole
}

/// The gain of a filter that was solved for is that of the noise. So noise of which the model
/// explains nothing has a gain of one. The gain is one too if the system cannot be solved.
pub proof fn law_gain<T: Kernels>(
    pre: NoiseModelState<T>,
    is_chroma: bool,
    post: NoiseModelState<T>,
    ok: bool,
    v: spec_fn(T) -> real,
)
    requires
        is_exact(v),
        is_gain_solved(pre, is_chroma, post, ok),
        pre.num_observations >= 1,
        num_neighbours(post.eqns, is_chroma) >= 1,
    ensures
        !ok ==> v(post.ar_gain) == 1real,
        ok ==> has_gain(post, v, is_chroma),
{
    if !ok {
        reveal_with_fuel(worth, 1);
        law_worth(count(1), v, post.ar_gain);
    } else {
        let s = post.eqns;
        let num = pre.num_observations;
        let m = num_neighbours(s, is_chroma);
        lemma_sums(s, v, num, is_chroma, m);
        let whole = power(s, v, num, is_chroma);
        let explained = explained_power(s, v, num, is_chroma);
        let var = diagonal_mean(s, num, m as usize);
        let sum = total(count(0), diagonal_terms(s, num, m));
        let covar = total(count(0), covariance_terms(s, num, is_chroma, m, m));
        let many: Formula<T> = count(m as usize);
        let least: Formula<T> = ratio(1, 1_000_000);
        let one: Formula<T> = count(1);
        reveal_with_fuel(worth, 1);
        assert(is_defined(many, v) && worth(many, v) == m as real);
        assert(is_defined(least, v) && worth(least, v) == 1real / 1_000_000real) by {
            assert(1i64 as real == 1real && 1_000_000i64 as real == 1_000_000real);
        }
        assert(is_defined(one, v) && worth(one, v) == 1real);
        assert(var == over(sum, many));
        assert(is_defined(var, v) && worth(var, v) == whole) by {
            let (a, n, k) = (sum_up(diagonal(s, v), m), num as real, m as real);
            lemma_divided_twice(a, n, k);
        }
        let left = minus(var, covar);
        assert(is_defined(left, v) && worth(left, v) == whole - explained);
        let noise_var = maximum(left, least);
        let rest = larger(whole - explained, 1real / 1_000_000real);
        assert(is_defined(noise_var, v) && worth(noise_var, v) == rest);
        let share = over(var, noise_var);
        assert(is_defined(share, v) && worth(share, v) == whole / rest);
        let inner = maximum(share, least);
        let z = larger(whole / rest, 1real / 1_000_000real);
        assert(is_defined(inner, v) && worth(inner, v) == z);
        let rooted = unary(UnaryOp::SquareRoot, inner);
        assert(filter_gain(s, num, is_chroma) == maximum(one, rooted));
        let (a, r) = lemma_operands(BinaryOp::Maximum, one, rooted, post.ar_gain);
        let y = lemma_operand(UnaryOp::SquareRoot, inner, r);
        law_worth(one, v, a);
        law_worth(inner, v, y);
        let (q, g) = (v(r), v(post.ar_gain));
        assert(is_root(z, q));
        assert(g == larger(1real, q));
        if whole <= rest {
            lemma_sizes(whole, rest);
            lemma_root_of_one(q);
        }
        if whole >= rest {
            lemma_sizes(whole, rest);
            lemma_root_of_one(q);
            assert(q * q == whole / rest);
        }
    }
}

} // verus!
