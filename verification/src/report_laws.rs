//! What the numbers in a segment of a film grain table stand for, if the number type
//! calculates exactly.
use crate::exact::{
    is_defined, is_exact, is_floor, larger, law_worth, lemma_one_floor, smaller, worth,
};
use crate::grain::{
    bounded, is_chroma_filter, is_coeff_shift, is_filter_segment, is_largest,
    is_luma_filter, is_max_coeff, is_min_coeff, is_quantized, is_smallest, is_unscaled_correlation,
    largest_step, power, smallest_step,
};
use crate::model::ChannelStates;
use crate::precise::{
    has_logarithm, has_rounding, is_cut, is_nearest, lemma_operand, lemma_operands, signed_gives,
    two_to,
};
use crate::scalar::{
    below_gives, count, denotes, is_below, is_signed, maximum, minimum, plus, ratio, times, unary,
    value, BinaryOp, Formula, Scalar, UnaryOp,
};
use crate::segment::{chroma_coeffs, luma_coeffs, GrainTableSegment};
use vstd::prelude::*;

verus! {

/// Whether a coefficient has room in a signed byte with `shift` fractional bits.
pub open spec fn has_room(x: real, shift: int) -> bool {
    -128real <= x * two_to(shift) && x * two_to(shift) < 128real
}

/// Whether the byte `q` with `shift` fractional bits stands for the coefficient `x`: it is the
/// nearest there is.
pub open spec fn stands_for(q: int, shift: int, x: real) -> bool {
    let y = x * two_to(shift);
    if y >= 127real {
        q == 127
    } else if y <= -128real {
        q == -128
    } else {
        is_nearest(y, q)
    }
}

/// Whether all first `n` numbers have room.
pub open spec fn have_room<T>(x: Seq<T>, v: spec_fn(T) -> real, n: int, shift: int) -> bool {
    forall|i: int| 0 <= i < n ==> has_room(v(#[trigger] x[i]), shift)
}

/// Whether all coefficients of the three planes and both correlations have room.
pub open spec fn all_have_room<T>(
    s: ChannelStates<T>,
    corr_cb: T,
    corr_cr: T,
    v: spec_fn(T) -> real,
    shift: int,
) -> bool {
    let n = s.y.eqns.n as int;
    &&& have_room(s.y.eqns.x@, v, n, shift)
    &&& have_room(s.cb.eqns.x@, v, n, shift)
    &&& have_room(s.cr.eqns.x@, v, n, shift)
    &&& has_room(v(corr_cb), shift)
    &&& has_room(v(corr_cr), shift)
}

/// Whether `top` is the largest of `start` and the first `n` numbers.
pub open spec fn is_upper<T>(start: real, x: Seq<T>, v: spec_fn(T) -> real, n: int, top: real) -> bool {
    &&& top >= start
    &&& forall|i: int| 0 <= i < n ==> v(#[trigger] x[i]) <= top
    &&& top == start || exists|i: int| 0 <= i < n && v(#[trigger] x[i]) == top
}

/// Whether `low` is the smallest of `start` and the first `n` numbers.
spec fn is_lower<T>(start: real, x: Seq<T>, v: spec_fn(T) -> real, n: int, low: real) -> bool {
    &&& low <= start
    &&& forall|i: int| 0 <= i < n ==> v(#[trigger] x[i]) >= low
    &&& low == start || exists|i: int| 0 <= i < n && v(#[trigger] x[i]) == low
}

/// A comparison of formulas compares what they are worth.
pub(crate) proof fn lemma_below<T: Scalar>(
    v: spec_fn(T) -> real,
    f: Formula<T>,
    g: Formula<T>,
    c: bool,
)
    requires
        is_exact(v),
        is_defined(f, v),
        is_defined(g, v),
        is_below(f, g, c),
    ensures
        c == (worth(f, v) < worth(g, v)),
{
    let (x, y) = choose|x: T, y: T| #[trigger]
        denotes(f, x) && #[trigger] denotes(g, y) && call_ensures(T::below, (x, y), c);
    law_worth(f, v, x);
    law_worth(g, v, y);
    assert(below_gives(x, y, c));
}

/// The largest number is found.
pub(crate) proof fn lemma_largest<T: Scalar>(
    start: Formula<T>,
    x: Seq<T>,
    v: spec_fn(T) -> real,
    n: int,
    f: Formula<T>,
)
    requires
        is_exact(v),
        is_defined(start, v),
        0 <= n,
        is_largest(start, x, n, f),
    ensures
        is_defined(f, v),
        is_upper(worth(start, v), x, v, n, worth(f, v)),
    decreases n,
{
    if n > 0 {
        let (g, more) = choose|g: Formula<T>, more: bool|
            {
                &&& is_largest(start, x, n - 1, g)
                &&& #[trigger] largest_step(x, n, g, more, f)
            };
        lemma_largest(start, x, v, n - 1, g);
        lemma_below(v, g, value(x[n - 1]), more);
        if more {
            assert(v(x[n - 1]) == worth(f, v));
        } else if worth(g, v) != worth(start, v) {
            let i = choose|i: int| 0 <= i < n - 1 && v(#[trigger] x[i]) == worth(g, v);
            assert(v(x[i]) == worth(f, v));
        }
    }
}

/// The smallest number is found.
proof fn lemma_smallest<T: Scalar>(
    start: Formula<T>,
    x: Seq<T>,
    v: spec_fn(T) -> real,
    n: int,
    f: Formula<T>,
)
    requires
        is_exact(v),
        is_defined(start, v),
        0 <= n,
        is_smallest(start, x, n, f),
    ensures
        is_defined(f, v),
        is_lower(worth(start, v), x, v, n, worth(f, v)),
    decreases n,
{
    if n > 0 {
        let (g, less) = choose|g: Formula<T>, less: bool|
            {
                &&& is_smallest(start, x, n - 1, g)
                &&& #[trigger] smallest_step(x, n, g, less, f)
            };
        lemma_smallest(start, x, v, n - 1, g);
        lemma_below(v, value(x[n - 1]), g, less);
        if less {
            assert(v(x[n - 1]) == worth(f, v));
        } else if worth(g, v) != worth(start, v) {
            let i = choose|i: int| 0 <= i < n - 1 && v(#[trigger] x[i]) == worth(g, v);
            assert(v(x[i]) == worth(f, v));
        }
    }
}

/// Powers of two that are needed.
pub(crate) proof fn lemma_powers()
    ensures
        two_to(-4) == 1real / 16real,
        two_to(-3) == 1real / 8real,
        two_to(-2) == 1real / 4real,
        two_to(-1) == 1real / 2real,
        two_to(0) == 1real,
        two_to(1) == 2real,
        two_to(2) == 4real,
        two_to(3) == 8real,
        two_to(4) == 16real,
        two_to(5) == 32real,
        two_to(6) == 64real,
        two_to(7) == 128real,
        two_to(8) == 256real,
        two_to(9) == 512real,
        power(3) == 8,
        power(4) == 16,
        power(5) == 32,
        power(6) == 64,
        power(7) == 128,
        power(8) == 256,
        power(9) == 512,
{
    reveal_with_fuel(two_to, 11);
    vstd::arithmetic::power2::lemma2_to64();
}

/// Whether a number has room, by the number of bits before the point.
proof fn lemma_room(x: real, shift: int)
    requires
        6 <= shift <= 9,
    ensures
        has_room(x, shift) <==> -two_to(7 - shift) <= x && x < two_to(7 - shift),
{
    lemma_powers();
}

/// Everything has room if the largest and the smallest number have.
proof fn lemma_all_room<T: Scalar>(
    s: ChannelStates<T>,
    corr_cb: T,
    corr_cr: T,
    v: spec_fn(T) -> real,
    max: Formula<T>,
    min: Formula<T>,
    shift: int,
)
    requires
        is_exact(v),
        6 <= shift <= 9,
        is_max_coeff(s, corr_cb, corr_cr, max),
        is_min_coeff(s, corr_cb, corr_cr, min),
    ensures
        is_defined(max, v),
        is_defined(min, v),
        worth(max, v) > 0real,
        all_have_room(s, corr_cb, corr_cr, v, shift) <==> worth(max, v) < two_to(7 - shift)
            && worth(min, v) >= -two_to(7 - shift),
{
    let n = s.y.eqns.n as int;
    let (y, cb, cr) = choose|y: Formula<T>, cb: Formula<T>, cr: Formula<T>|
        {
            &&& #[trigger] is_largest(ratio(1, 10_000), s.y.eqns.x@, n, y)
            &&& #[trigger] is_largest(y, s.cb.eqns.x@, n, cb)
            &&& #[trigger] is_largest(maximum(cb, value(corr_cb)), s.cr.eqns.x@, n, cr)
            &&& max == maximum(cr, value(corr_cr))
        };
    let start: Formula<T> = ratio(1, 10_000);
    assert(is_defined(start, v) && worth(start, v) == 1real / 10_000real);
    lemma_largest(start, s.y.eqns.x@, v, n, y);
    lemma_largest(y, s.cb.eqns.x@, v, n, cb);
    let in_cb = value(corr_cb);
    let in_cr = value(corr_cr);
    assert(is_defined(in_cb, v) && worth(in_cb, v) == v(corr_cb));
    assert(is_defined(in_cr, v) && worth(in_cr, v) == v(corr_cr));
    let mid = maximum(cb, value(corr_cb));
    assert(is_defined(mid, v) && worth(mid, v) == larger(worth(cb, v), v(corr_cb)));
    lemma_largest(mid, s.cr.eqns.x@, v, n, cr);
    assert(is_defined(max, v) && worth(max, v) == larger(worth(cr, v), v(corr_cr)));
    let (y2, cb2, cr2) = choose|y: Formula<T>, cb: Formula<T>, cr: Formula<T>|
        {
            &&& #[trigger] is_smallest(ratio(1, 10_000), s.y.eqns.x@, n, y)
            &&& #[trigger] is_smallest(y, s.cb.eqns.x@, n, cb)
            &&& #[trigger] is_smallest(minimum(cb, value(corr_cb)), s.cr.eqns.x@, n, cr)
            &&& min == minimum(cr, value(corr_cr))
        };
    lemma_smallest(start, s.y.eqns.x@, v, n, y2);
    lemma_smallest(y2, s.cb.eqns.x@, v, n, cb2);
    let mid2 = minimum(cb2, value(corr_cb));
    assert(is_defined(mid2, v) && worth(mid2, v) == smaller(worth(cb2, v), v(corr_cb)));
    lemma_smallest(mid2, s.cr.eqns.x@, v, n, cr2);
    assert(is_defined(min, v) && worth(min, v) == smaller(worth(cr2, v), v(corr_cr)));
    lemma_powers();
    let t = two_to(7 - shift);
    assert(1real / 10_000real < t && 1real / 4real <= t);
    if worth(max, v) < t && worth(min, v) >= -t {
        assert forall|i: int| 0 <= i < n implies has_room(v(#[trigger] s.y.eqns.x@[i]), shift) by {
            lemma_room(v(s.y.eqns.x@[i]), shift);
        }
        assert forall|i: int| 0 <= i < n implies has_room(v(#[trigger] s.cb.eqns.x@[i]), shift) by {
            lemma_room(v(s.cb.eqns.x@[i]), shift);
        }
        assert forall|i: int| 0 <= i < n implies has_room(v(#[trigger] s.cr.eqns.x@[i]), shift) by {
            lemma_room(v(s.cr.eqns.x@[i]), shift);
        }
        lemma_room(v(corr_cb), shift);
        lemma_room(v(corr_cr), shift);
    }
    if all_have_room(s, corr_cb, corr_cr, v, shift) {
        assert forall|i: int| 0 <= i < n implies -t <= v(#[trigger] s.y.eqns.x@[i]) && v(
            s.y.eqns.x@[i],
        ) < t by {
            lemma_room(v(s.y.eqns.x@[i]), shift);
        }
        assert forall|i: int| 0 <= i < n implies -t <= v(#[trigger] s.cb.eqns.x@[i]) && v(
            s.cb.eqns.x@[i],
        ) < t by {
            lemma_room(v(s.cb.eqns.x@[i]), shift);
        }
        assert forall|i: int| 0 <= i < n implies -t <= v(#[trigger] s.cr.eqns.x@[i]) && v(
            s.cr.eqns.x@[i],
        ) < t by {
            lemma_room(v(s.cr.eqns.x@[i]), shift);
        }
        lemma_room(v(corr_cb), shift);
        lemma_room(v(corr_cr), shift);
    }
}

/// The exponent that the shift is worked out from.
proof fn lemma_exponent<T: Scalar>(
    v: spec_fn(T) -> real,
    max: Formula<T>,
    min: Formula<T>,
    e: i32,
    k: int,
)
    requires
        is_exact(v),
        has_rounding(v),
        has_logarithm(v),
        is_defined(max, v),
        is_defined(min, v),
        worth(max, v) > 0real,
        -4 <= k <= 4,
        is_signed(
            maximum(
                plus(count(1), unary(UnaryOp::Floor, unary(UnaryOp::Log2, max))),
                unary(UnaryOp::Ceil, unary(UnaryOp::Log2, unary(UnaryOp::Negated, min))),
            ),
            e,
        ),
    ensures
        e <= k <==> worth(max, v) < two_to(k) && worth(min, v) >= -two_to(k),
{
    let above = plus(count(1), unary(UnaryOp::Floor, unary(UnaryOp::Log2, max)));
    let under = unary(UnaryOp::Ceil, unary(UnaryOp::Log2, unary(UnaryOp::Negated, min)));
    let f = maximum(above, under);
    let x = choose|x: T| #[trigger] denotes(f, x) && call_ensures(T::to_signed, (x,), e);
    assert(signed_gives(x, e));
    let (a, b) = lemma_operands(BinaryOp::Maximum, above, under, x);
    let (one, fl) = lemma_operands(
        BinaryOp::Plus,
        count(1),
        unary(UnaryOp::Floor, unary(UnaryOp::Log2, max)),
        a,
    );
    let l = lemma_operand(UnaryOp::Floor, unary(UnaryOp::Log2, max), fl);
    let m = lemma_operand(UnaryOp::Log2, max, l);
    let ln = lemma_operand(UnaryOp::Ceil, unary(UnaryOp::Log2, unary(UnaryOp::Negated, min)), b);
    let neg = lemma_operand(UnaryOp::Log2, unary(UnaryOp::Negated, min), ln);
    let mn = lemma_operand(UnaryOp::Negated, min, neg);
    law_worth(max, v, m);
    law_worth(min, v, mn);
    law_worth(count(1), v, one);
    lemma_powers();
    let i = choose|i: int| #[trigger] is_floor(v(l), i) && v(fl) == i as real;
    let j = choose|j: int| #[trigger] is_floor(-v(ln), -j) && v(b) == j as real;
    let top = if 1 + i >= j {
        1 + i
    } else {
        j
    };
    assert(v(a) == (1 + i) as real);
    assert(v(x) == top as real);
    assert(two_to(k) > 0real);
    assert(i < k <==> v(l) < k as real) by {
        if i < k {
            assert((i + 1) as real <= k as real);
        } else {
            assert(k as real <= i as real);
        }
    }
    assert(j <= k <==> v(ln) <= k as real) by {
        if j <= k {
            assert(j as real <= k as real);
        } else {
            assert((k + 1) as real <= j as real);
        }
    }
    lemma_cut_of_whole(top, i32::MIN as int, i32::MAX as int, e as int);
}

/// A whole number is cut off to itself, or to the end of the range.
proof fn lemma_cut_of_whole(x: int, low: int, high: int, i: int)
    requires
        low < 0 < high,
        is_cut(x as real, low, high, i),
    ensures
        i == bounded(x, low, high),
{
    if x as real >= high as real {
        assert(x >= high);
    } else if x as real <= low as real {
        assert(x <= low);
    } else if x >= 0 {
        lemma_one_floor(x as real, x, i);
    } else {
        assert(-(x as real) == (-x) as real);
        lemma_one_floor((-x) as real, -x, -i);
    }
}

/// A quantized number stands for the number.
proof fn lemma_quantized<T: Scalar>(v: spec_fn(T) -> real, shift: int, x: T, q: i8)
    requires
        is_exact(v),
        has_rounding(v),
        6 <= shift <= 9,
        is_quantized(count(power(shift) as usize), x, q),
    ensures
        stands_for(q as int, shift, v(x)),
{
    let scale: Formula<T> = count(power(shift) as usize);
    let s = choose|s: i32|
        {
            &&& #[trigger] is_signed(unary(UnaryOp::Round, times(scale, value(x))), s)
            &&& q == bounded(s as int, -128, 127)
        };
    let f = unary(UnaryOp::Round, times(scale, value(x)));
    let y = choose|y: T| #[trigger] denotes(f, y) && call_ensures(T::to_signed, (y,), s);
    assert(signed_gives(y, s));
    let z = lemma_operand(UnaryOp::Round, times(scale, value(x)), y);
    lemma_powers();
    reveal_with_fuel(worth, 3);
    reveal_with_fuel(is_defined, 3);
    law_worth(times(scale, value(x)), v, z);
    let p = two_to(shift);
    let w = v(x);
    assert(p * w == w * p) by (nonlinear_arith);
    assert(v(z) == w * p);
    let i = choose|i: int| #[trigger] is_nearest(v(z), i) && v(y) == i as real;
    lemma_cut_of_whole(i, i32::MIN as int, i32::MAX as int, s as int);
    if v(z) >= 127real {
        assert(i >= 127) by {
            if i <= 126 {
                assert(i as real <= 126real);
            }
        }
    } else if v(z) <= -128real {
        assert(i <= -128) by {
            if i >= -127 {
                assert(i as real >= -127real);
            }
        }
    } else {
        assert(-128 <= i <= 127) by {
            if i >= 128 {
                assert(i as real >= 128real);
            }
            if i <= -129 {
                assert(i as real <= -129real);
            }
        }
    }
}

/// Whether the bytes stand for the first `n` numbers.
pub open spec fn all_stand_for<T>(
    qs: Seq<i8>,
    shift: int,
    x: Seq<T>,
    v: spec_fn(T) -> real,
    n: int,
) -> bool {
    forall|i: int| 0 <= i < n ==> stands_for(#[trigger] qs[i] as int, shift, v(x[i]))
}

/// The number of fractional bits is the largest from 6 to 9 with which all coefficients and
/// correlations, negative or not, have room; it is 6 if they have none. The bytes of the
/// segment are the nearest to the coefficients; the last ones of the chroma planes are those
/// of the correlations with luma.
pub proof fn law_coefficients<T: Scalar>(
    s: ChannelStates<T>,
    v: spec_fn(T) -> real,
    g: GrainTableSegment,
)
    requires
        is_exact(v),
        has_rounding(v),
        has_logarithm(v),
        s.wf(),
        is_filter_segment(s, g),
    ensures
        exists|corr_cb: T, corr_cr: T|
            {
                let n = s.y.eqns.n as int;
                let shift = g.ar_coeff_shift as int;
                &&& #[trigger] is_unscaled_correlation(s.y, s.cb, corr_cb)
                &&& #[trigger] is_unscaled_correlation(s.y, s.cr, corr_cr)
                &&& 6 <= shift <= 9
                &&& shift > 6 ==> all_have_room(s, corr_cb, corr_cr, v, shift)
                &&& forall|k: int|
                    shift < k <= 9 ==> !#[trigger] all_have_room(s, corr_cb, corr_cr, v, k)
                &&& all_stand_for(luma_coeffs(g.ar_coeffs_y), shift, s.y.eqns.x@, v, n)
                &&& all_stand_for(chroma_coeffs(g.ar_coeffs_cb), shift, s.cb.eqns.x@, v, n)
                &&& all_stand_for(chroma_coeffs(g.ar_coeffs_cr), shift, s.cr.eqns.x@, v, n)
                &&& stands_for(chroma_coeffs(g.ar_coeffs_cb)[n] as int, shift, v(corr_cb))
                &&& stands_for(chroma_coeffs(g.ar_coeffs_cr)[n] as int, shift, v(corr_cr))
            },
{
    let n = s.y.eqns.n as int;
    let shift = g.ar_coeff_shift as int;
    let scale = count(power(shift) as usize);
    let (corr_cb, corr_cr, max, min) = choose|
        corr_cb: T,
        corr_cr: T,
        max: Formula<T>,
        min: Formula<T>,
    |
        {
            &&& is_unscaled_correlation(s.y, s.cb, corr_cb)
            &&& is_unscaled_correlation(s.y, s.cr, corr_cr)
            &&& #[trigger] is_max_coeff(s, corr_cb, corr_cr, max)
            &&& #[trigger] is_min_coeff(s, corr_cb, corr_cr, min)
            &&& is_coeff_shift(max, min, shift)
            &&& is_luma_filter(s.y, n, scale, luma_coeffs(g.ar_coeffs_y))
            &&& is_chroma_filter(s.cb, n, scale, corr_cb, chroma_coeffs(g.ar_coeffs_cb))
            &&& is_chroma_filter(s.cr, n, scale, corr_cr, chroma_coeffs(g.ar_coeffs_cr))
        };
    let e = choose|e: i32|
        {
            &&& #[trigger] is_signed(
                maximum(
                    plus(count(1), unary(UnaryOp::Floor, unary(UnaryOp::Log2, max))),
                    unary(UnaryOp::Ceil, unary(UnaryOp::Log2, unary(UnaryOp::Negated, min))),
                ),
                e,
            )
            &&& shift == bounded(7 - e, 6, 9)
        };
    lemma_all_room(s, corr_cb, corr_cr, v, max, min, shift);
    lemma_exponent(v, max, min, e, 7 - shift);
    assert forall|k: int| shift < k <= 9 implies !#[trigger] all_have_room(
        s,
        corr_cb,
        corr_cr,
        v,
        k,
    ) by {
        lemma_all_room(s, corr_cb, corr_cr, v, max, min, k);
        lemma_exponent(v, max, min, e, 7 - k);
    }
    let qy = luma_coeffs(g.ar_coeffs_y);
    let qb = chroma_coeffs(g.ar_coeffs_cb);
    let qr = chroma_coeffs(g.ar_coeffs_cr);
    assert forall|i: int| 0 <= i < n implies stands_for(
        #[trigger] qy[i] as int,
        shift,
        v(s.y.eqns.x@[i]),
    ) by {
        lemma_quantized(v, shift, s.y.eqns.x@[i], qy[i]);
    }
    assert forall|i: int| 0 <= i < n implies stands_for(
        #[trigger] qb[i] as int,
        shift,
        v(s.cb.eqns.x@[i]),
    ) by {
        lemma_quantized(v, shift, s.cb.eqns.x@[i], qb[i]);
    }
    assert forall|i: int| 0 <= i < n implies stands_for(
        #[trigger] qr[i] as int,
        shift,
        v(s.cr.eqns.x@[i]),
    ) by {
        lemma_quantized(v, shift, s.cr.eqns.x@[i], qr[i]);
    }
    lemma_quantized(v, shift, corr_cb, qb[n]);
    lemma_quantized(v, shift, corr_cr, qr[n]);
}

} // verus!
