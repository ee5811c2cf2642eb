//! What the scaling functions and the correlations in a segment stand for, if the number type
//! calculates exactly.
use crate::difference_laws::sum_up;
use crate::equations::EquationSystem;
use crate::exact::{
    is_defined, is_exact, is_floor, is_root, law_worth, lemma_one_floor, lemma_one_root,
    lemma_worth_total, root, worth,
};
use crate::grain::{
    are_scaling_points, bounded, heights, is_average_strength, is_largest, is_max_strength,
    is_scaled_segment, is_scaling_point, is_strength_width, is_unscaled_correlation, power,
    row_terms, row_weight, row_weights, weighted_strengths,
};
use crate::measurement_laws::row_sum;
use crate::precise::{
    has_logarithm, has_rounding, is_cut, is_nearest, lemma_operand, lemma_operands, signed_gives,
    two_to,
};
use crate::report_laws::{is_upper, lemma_below, lemma_largest, lemma_powers};
use crate::scalar::{
    byte_gives, count, denotes, is_below, is_byte, is_signed, mul_add, over, plus, ratio, times,
    total, unary, value, BinaryOp, Formula, Scalar, UnaryOp,
};
use crate::segment::{chroma_points, luma_points, GrainTableSegment};
use crate::state::NoiseModelState;
use vstd::prelude::*;

verus! {

/// Whether the byte `q` with `shift` fractional bits stands for the strength `h`: it is the
/// nearest there is.
pub open spec fn byte_stands_for(q: int, shift: int, h: real) -> bool {
    let y = h * two_to(shift);
    if y >= 255real {
        q == 255
    } else if y <= 0real {
        q == 0
    } else {
        is_nearest(y, q)
    }
}

/// Whether the strengths at the points of a curve have room in a byte with `shift` fractional
/// bits.
pub open spec fn strengths_have_room<T>(
    points: Seq<[T; 2]>,
    v: spec_fn(T) -> real,
    shift: int,
) -> bool {
    forall|i: int| 0 <= i < points.len() ==> v((#[trigger] points[i])[1]) * two_to(shift) < 256real
}

/// Whether the scaling points stand for the points of a curve.
pub open spec fn points_stand_for<T>(
    qs: Seq<[u8; 2]>,
    shift: int,
    points: Seq<[T; 2]>,
    v: spec_fn(T) -> real,
) -> bool {
    &&& qs.len() == points.len()
    &&& forall|i: int|
        0 <= i < qs.len() ==> byte_stands_for((#[trigger] qs[i])[1] as int, shift, v(points[i][1]))
}

/// A scaling point stands for a point of a curve.
proof fn lemma_height<T: Scalar>(v: spec_fn(T) -> real, shift: int, p: [T; 2], q: [u8; 2])
    requires
        is_exact(v),
        has_rounding(v),
        3 <= shift <= 6,
        is_scaling_point(shift, p, q),
    ensures
        byte_stands_for(q[1] as int, shift, v(p[1])),
{
    let scale: Formula<T> = count(power(shift) as usize);
    let f = mul_add(scale, value(p[1]), ratio(1, 2));
    let s = choose|s: i32|
        {
            &&& #[trigger] is_signed(f, s)
            &&& q[1] == bounded(s as int, 0, 255)
        };
    let x = choose|x: T| #[trigger] denotes(f, x) && call_ensures(T::to_signed, (x,), s);
    assert(signed_gives(x, s));
    lemma_powers();
    let w = v(p[1]);
    let t = two_to(shift);
    let half: Formula<T> = ratio(1, 2);
    assert(is_defined(half, v) && worth(half, v) == 1real / 2real);
    assert(is_defined(f, v) && worth(f, v) == t * w + 1real / 2real) by {
        reveal_with_fuel(worth, 3);
        reveal_with_fuel(is_defined, 3);
    }
    law_worth(f, v, x);
    assert(t * w == w * t) by (nonlinear_arith);
    let y = w * t;
    assert(is_cut(y + 1real / 2real, i32::MIN as int, i32::MAX as int, s as int));
    if y >= 255real {
        if s < 255 {
            assert(s as int as real <= 254real);
        }
    } else if y <= 0real {
        if s > 0 {
            assert(s as int as real >= 1real);
        }
    } else {
        assert(s >= 0) by {
            if s < 0 {
                assert(s as int as real <= -1real);
            }
        }
        assert(s <= 255) by {
            if s > 255 {
                assert(s as int as real >= 256real);
            }
        }
    }
}

/// The largest strength of the three curves.
proof fn lemma_max_strength<T: Scalar>(
    y: Seq<[T; 2]>,
    cb: Seq<[T; 2]>,
    cr: Seq<[T; 2]>,
    v: spec_fn(T) -> real,
    f: Formula<T>,
    shift: int,
)
    requires
        is_exact(v),
        3 <= shift <= 6,
        is_max_strength(y, cb, cr, f),
    ensures
        is_defined(f, v),
        worth(f, v) > 0real,
        worth(f, v) < two_to(8 - shift) <==> strengths_have_room(y, v, shift)
            && strengths_have_room(cb, v, shift) && strengths_have_room(cr, v, shift),
{
    let start: Formula<T> = ratio(1, 10_000);
    assert(is_defined(start, v) && worth(start, v) == 1real / 10_000real);
    let (f1, f2) = choose|f1: Formula<T>, f2: Formula<T>|
        {
            &&& #[trigger] is_largest(ratio(1, 10_000), heights(y), y.len() as int, f1)
            &&& #[trigger] is_largest(f1, heights(cb), cb.len() as int, f2)
            &&& is_largest(f2, heights(cr), cr.len() as int, f)
        };
    lemma_largest(start, heights(y), v, y.len() as int, f1);
    lemma_largest(f1, heights(cb), v, cb.len() as int, f2);
    lemma_largest(f2, heights(cr), v, cr.len() as int, f);
    lemma_powers();
    lemma_room_of(y, v, worth(start, v), worth(f1, v), shift);
    lemma_room_of(cb, v, worth(f1, v), worth(f2, v), shift);
    lemma_room_of(cr, v, worth(f2, v), worth(f, v), shift);
}

/// Whether a strength has room, by the number of bits before the point.
proof fn lemma_strength_room(h: real, shift: int)
    requires
        3 <= shift <= 6,
    ensures
        h * two_to(shift) < 256real <==> h < two_to(8 - shift),
{
    lemma_powers();
}

/// A curve has room below a power of two if its largest strength has.
proof fn lemma_room_of<T>(
    points: Seq<[T; 2]>,
    v: spec_fn(T) -> real,
    start: real,
    top: real,
    shift: int,
)
    requires
        3 <= shift <= 6,
        is_upper(start, heights(points), v, points.len() as int, top),
    ensures
        top < two_to(8 - shift) <==> start < two_to(8 - shift) && strengths_have_room(
            points,
            v,
            shift,
        ),
{
    lemma_powers();
    let hs = heights(points);
    let t = two_to(8 - shift);
    if top < t {
        assert forall|i: int| 0 <= i < points.len() implies v((#[trigger] points[i])[1]) * two_to(
            shift,
        ) < 256real by {
            assert(hs[i] == points[i][1]);
            assert(v(hs[i]) <= top);
            lemma_strength_room(v(points[i][1]), shift);
        }
    }
    if start < t && strengths_have_room(points, v, shift) && top != start {
        let i = choose|i: int| 0 <= i < points.len() && v(#[trigger] hs[i]) == top;
        assert(hs[i] == points[i][1]);
        assert(v(points[i][1]) * two_to(shift) < 256real);
        lemma_strength_room(v(points[i][1]), shift);
    }
}

/// The number of bits before the point.
proof fn lemma_width<T: Scalar>(v: spec_fn(T) -> real, f: Formula<T>, b: u8, w: int)
    requires
        is_exact(v),
        has_rounding(v),
        has_logarithm(v),
        is_defined(f, v),
        worth(f, v) > 0real,
        0 <= w <= 5,
        is_byte(unary(UnaryOp::Floor, plus(unary(UnaryOp::Log2, f), count(1))), b),
    ensures
        b <= w <==> worth(f, v) < two_to(w),
{
    let inner = plus(unary(UnaryOp::Log2, f), count(1));
    let x = choose|x: T| #[trigger]
        denotes(unary(UnaryOp::Floor, inner), x) && call_ensures(T::to_byte, (x,), b);
    assert(byte_gives(x, b));
    let y = lemma_operand(UnaryOp::Floor, inner, x);
    let (l, one) = lemma_operands(BinaryOp::Plus, unary(UnaryOp::Log2, f), count(1), y);
    let m = lemma_operand(UnaryOp::Log2, f, l);
    law_worth(f, v, m);
    law_worth(count(1), v, one);
    lemma_powers();
    let i = choose|i: int| #[trigger] is_floor(v(y), i) && v(x) == i as real;
    assert(i <= w <==> v(l) < w as real) by {
        if i <= w {
            assert((i + 1) as real <= (w + 1) as real);
        } else {
            assert((w + 1) as real <= i as real);
        }
    }
    if i < 0 {
        assert(i as real <= 0real);
        assert(b == 0);
    } else if i >= 255 {
        assert(i as real >= 255real);
    } else if i == 0 {
        assert(b == 0);
    } else {
        assert((i as real) < 255real && (i as real) > 0real);
        lemma_one_floor(i as real, i, b as int);
    }
}

/// The scaling shift is the largest from 8 to 11 with which all strengths have room in a byte;
/// it is 8 if they have none. The bytes of the scaling points are the nearest to the
/// strengths.
pub proof fn law_scaling<T: Scalar>(
    y: Seq<[T; 2]>,
    cb: Seq<[T; 2]>,
    cr: Seq<[T; 2]>,
    v: spec_fn(T) -> real,
    g: GrainTableSegment,
)
    requires
        is_exact(v),
        has_rounding(v),
        has_logarithm(v),
        is_scaled_segment(y, cb, cr, g),
    ensures
        8 <= g.scaling_shift <= 11,
        g.scaling_shift > 8 ==> strengths_have_room(y, v, g.scaling_shift - 5)
            && strengths_have_room(cb, v, g.scaling_shift - 5) && strengths_have_room(
            cr,
            v,
            g.scaling_shift - 5,
        ),
        forall|k: int|
            g.scaling_shift - 5 < k <= 6 ==> !(#[trigger] strengths_have_room(y, v, k)
                && strengths_have_room(cb, v, k) && strengths_have_room(cr, v, k)),
        points_stand_for(luma_points(g.scaling_points_y), g.scaling_shift - 5, y, v),
        points_stand_for(chroma_points(g.scaling_points_cb), g.scaling_shift - 5, cb, v),
        points_stand_for(chroma_points(g.scaling_points_cr), g.scaling_shift - 5, cr, v),
{
    let (f, k) = choose|f: Formula<T>, k: int|
        {
            &&& is_max_strength(y, cb, cr, f)
            &&& #[trigger] is_strength_width(f, k)
            &&& g.scaling_shift == 5 + (8 - k)
            &&& are_scaling_points(8 - k, y, luma_points(g.scaling_points_y))
            &&& are_scaling_points(8 - k, cb, chroma_points(g.scaling_points_cb))
            &&& are_scaling_points(8 - k, cr, chroma_points(g.scaling_points_cr))
        };
    let b = choose|b: u8|
        {
            &&& #[trigger] is_byte(
                unary(UnaryOp::Floor, plus(unary(UnaryOp::Log2, f), count(1))),
                b,
            )
            &&& k == bounded(b as int, 2, 5)
        };
    let shift = 8 - k;
    lemma_max_strength(y, cb, cr, v, f, shift);
    lemma_width(v, f, b, k);
    assert forall|j: int| shift < j <= 6 implies !(#[trigger] strengths_have_room(y, v, j)
        && strengths_have_room(cb, v, j) && strengths_have_room(cr, v, j)) by {
        lemma_max_strength(y, cb, cr, v, f, j);
        lemma_width(v, f, b, 8 - j);
    }
    lemma_points(v, shift, y, luma_points(g.scaling_points_y));
    lemma_points(v, shift, cb, chroma_points(g.scaling_points_cb));
    lemma_points(v, shift, cr, chroma_points(g.scaling_points_cr));
}

/// The scaling points of a curve stand for its points.
proof fn lemma_points<T: Scalar>(
    v: spec_fn(T) -> real,
    shift: int,
    points: Seq<[T; 2]>,
    qs: Seq<[u8; 2]>,
)
    requires
        is_exact(v),
        has_rounding(v),
        3 <= shift <= 6,
        are_scaling_points(shift, points, qs),
    ensures
        points_stand_for(qs, shift, points, v),
{
    assert forall|i: int| 0 <= i < qs.len() implies byte_stands_for(
        (#[trigger] qs[i])[1] as int,
        shift,
        v(points[i][1]),
    ) by {
        lemma_height(v, shift, points[i], qs[i]);
    }
}

/// The sum of the first `k` strengths, each times its weight.
pub open spec fn weighed_strengths<T>(
    e: EquationSystem<T>,
    v: spec_fn(T) -> real,
    r: spec_fn(int) -> real,
    k: int,
) -> real
    decreases k,
{
    if k <= 0 {
        0real
    } else {
        weighed_strengths(e, v, r, k - 1) + v(e.x@[k - 1]) * r(k - 1)
    }
}

/// Whether `r` are the weights of the bins: the roots of how much was measured in them.
pub open spec fn are_bin_weights<T>(
    e: EquationSystem<T>,
    v: spec_fn(T) -> real,
    r: spec_fn(int) -> real,
) -> bool {
    forall|i: int| 0 <= i < e.n ==> is_root(row_sum(e, v, i, e.n as int), #[trigger] r(i))
}

/// What a row is worth.
proof fn lemma_row_terms<T>(e: EquationSystem<T>, v: spec_fn(T) -> real, i: int, k: int)
    requires
        0 <= k,
    ensures
        is_defined(total(count(0), row_terms(e, i, k)), v),
        worth(total(count(0), row_terms(e, i, k)), v) == row_sum(e, v, i, k),
    decreases k,
{
    let terms = row_terms(e, i, k);
    lemma_worth_total(terms, v);
    if k > 0 {
        lemma_row_terms(e, v, i, k - 1);
        assert(terms.drop_last() =~= row_terms(e, i, k - 1));
        assert(terms.last() == value(e.entry(i, k - 1)));
    }
}

/// The sums of the weights and of the weighted strengths.
proof fn lemma_average_sums<T: Scalar>(
    e: EquationSystem<T>,
    v: spec_fn(T) -> real,
    r: spec_fn(int) -> real,
    k: int,
)
    requires
        0 <= k <= e.n,
        are_bin_weights(e, v, r),
    ensures
        is_defined(total(count(0), row_weights(e, k)), v),
        is_defined(total(count(0), weighted_strengths(e, k)), v),
        worth(total(count(0), row_weights(e, k)), v) == sum_up(r, k),
        worth(total(count(0), weighted_strengths(e, k)), v) == weighed_strengths(e, v, r, k),
        sum_up(r, k) >= 0real,
    decreases k,
{
    let ws = row_weights(e, k);
    let terms = weighted_strengths(e, k);
    lemma_worth_total(ws, v);
    lemma_worth_total(terms, v);
    if k > 0 {
        lemma_average_sums(e, v, r, k - 1);
        let i = k - 1;
        let n = e.n as int;
        assert(ws.drop_last() =~= row_weights(e, k - 1));
        assert(terms.drop_last() =~= weighted_strengths(e, k - 1));
        let wf = row_weight(e, i);
        assert(ws.last() == wf);
        assert(terms.last() == times(value(e.x@[i]), wf));
        let m = row_sum(e, v, i, n);
        let x = r(i);
        assert(is_root(m, x));
        assert(m >= 0real) by (nonlinear_arith)
            requires
                x * x == m,
        ;
        lemma_row_terms(e, v, i, n);
        lemma_one_root(m, x, root(m));
        assert(is_defined(wf, v) && worth(wf, v) == x);
        let xf = value(e.x@[i]);
        assert(is_defined(xf, v) && worth(xf, v) == v(e.x@[i]));
        assert(is_defined(terms.last(), v) && worth(terms.last(), v) == v(e.x@[i]) * x);
    }
}

/// The average strength is the mean of the strengths of the bins, each with its weight; it is
/// one where there is hardly any weight.
pub proof fn law_average_strength<T: Scalar>(
    e: EquationSystem<T>,
    v: spec_fn(T) -> real,
    r: spec_fn(int) -> real,
    avg: T,
)
    requires
        is_exact(v),
        are_bin_weights(e, v, r),
        is_average_strength(e, avg),
    ensures
        sum_up(r, e.n as int) >= 1real / 4_503_599_627_370_496real ==> v(avg) * sum_up(
            r,
            e.n as int,
        ) == weighed_strengths(e, v, r, e.n as int),
        sum_up(r, e.n as int) < 1real / 4_503_599_627_370_496real ==> v(avg) == 1real,
{
    let n = e.n as int;
    let weight = total(count(0), row_weights(e, n));
    let sum = total(count(0), weighted_strengths(e, n));
    let size = unary(UnaryOp::Absolute, weight);
    let small: Formula<T> = ratio(1, 4_503_599_627_370_496);
    let void = choose|void: bool|
        {
            &&& #[trigger] is_below(size, small, void)
            &&& denotes(
                if void {
                    count(1)
                } else {
                    over(sum, weight)
                },
                avg,
            )
        };
    lemma_average_sums(e, v, r, n);
    let w = sum_up(r, n);
    let s = weighed_strengths(e, v, r, n);
    assert(is_defined(size, v) && worth(size, v) == w);
    assert(is_defined(small, v) && worth(small, v) == 1real / 4_503_599_627_370_496real);
    assert(1real / 4_503_599_627_370_496real > 0real) by (nonlinear_arith);
    lemma_below(v, size, small, void);
    if void {
        law_worth(count(1), v, avg);
    } else {
        let f = over(sum, weight);
        assert(is_defined(f, v) && worth(f, v) == s / w);
        law_worth(f, v, avg);
        let a = v(avg);
        assert(a * w == s) by (nonlinear_arith)
            requires
                a == s / w,
                w > 0real,
        ;
    }
}

/// The correlation of a chroma plane that is reported is the one that was found, from strength
/// to strength: it turns luma noise of the average luma strength into as much chroma noise
/// of the average chroma strength as was found at strengths of one.
pub proof fn law_correlation_is_unscaled<T: Scalar>(
    luma: NoiseModelState<T>,
    s: NoiseModelState<T>,
    v: spec_fn(T) -> real,
    corr: T,
)
    requires
        is_exact(v),
        is_unscaled_correlation(luma, s, corr),
    ensures
        exists|avg_luma: T, avg: T|
            {
                &&& #[trigger] is_average_strength(luma.strength_solver.eqns, avg_luma)
                &&& #[trigger] is_average_strength(s.strength_solver.eqns, avg)
                &&& v(avg) != 0real ==> v(corr) * v(avg) == v(s.eqns.x@[luma.eqns.n as int]) * v(
                    avg_luma,
                )
            },
{
    let x = s.eqns.x@[luma.eqns.n as int];
    let (avg_luma, avg) = choose|avg_luma: T, avg: T|
        {
            &&& #[trigger] is_average_strength(luma.strength_solver.eqns, avg_luma)
            &&& #[trigger] is_average_strength(s.strength_solver.eqns, avg)
            &&& denotes(over(times(value(avg_luma), value(x)), value(avg)), corr)
        };
    let (a, b, c, d) = (v(avg_luma), v(x), v(avg), v(corr));
    if c != 0real {
        let f = over(times(value(avg_luma), value(x)), value(avg));
        assert(is_defined(f, v) && worth(f, v) == (a * b) / c) by {
            reveal_with_fuel(worth, 3);
            reveal_with_fuel(is_defined, 3);
        }
        law_worth(f, v, corr);
        assert(d * c == b * a) by (nonlinear_arith)
            requires
                d == (a * b) / c,
                c != 0real,
        ;
    }
}

} // verus!
