//! The noise model as a segment of a film grain table.
use crate::curve::{is_fit, law_fit};
use crate::equations::EquationSystem;
use crate::matrix::lemma_cell_bound;
use crate::model::{ChannelStates, NoiseModel};
use crate::scalar::{
    count, denotes, is_below, is_byte, is_signed, lemma_total_push, maximum, minimum, mul_add, over,
    plus, ratio, times, total, unary, value, Formula, Scalar, Term, UnaryOp,
};
use crate::segment::{
    chroma_coeffs, chroma_points, collect_chroma_points, collect_luma_points, luma_coeffs,
    luma_points, new_chroma_coeffs, new_luma_coeffs, push_chroma_coeff, push_luma_coeff,
    GrainTableSegment,
};
use crate::state::NoiseModelState;
use crate::strength::NoiseStrengthLut;
use crate::{
    DEFAULT_GRAIN_SEED, NOISE_MODEL_LAG, NUM_UV_COEFFS, NUM_UV_POINTS, NUM_Y_COEFFS, NUM_Y_POINTS,
};
use arrayvec::ArrayVec;
use vstd::prelude::*;

verus! {

/// Whether comparing the largest number `g` so far with entry `n - 1` can come out as
/// `larger` and leave `f` as the largest.
pub open spec fn largest_step<T: Scalar>(
    s: Seq<T>,
    n: int,
    g: Formula<T>,
    larger: bool,
    f: Formula<T>,
) -> bool {
    &&& is_below(g, value(s[n - 1]), larger)
    &&& f == if larger {
        value(s[n - 1])
    } else {
        g
    }
}

/// Whether `f` is found to be the largest of `start` and the first `n` entries of `s`.
pub open spec fn is_largest<T: Scalar>(
    start: Formula<T>,
    s: Seq<T>,
    n: int,
    f: Formula<T>,
) -> bool
    decreases n,
{
    if n <= 0 {
        f == start
    } else {
        exists|g: Formula<T>, larger: bool|
            {
                &&& is_largest(start, s, n - 1, g)
                &&& #[trigger] largest_step(s, n, g, larger, f)
            }
    }
}

/// Whether comparing the smallest number `g` so far with entry `n - 1` can come out as
/// `smaller` and leave `f` as the smallest.
pub open spec fn smallest_step<T: Scalar>(
    s: Seq<T>,
    n: int,
    g: Formula<T>,
    smaller: bool,
    f: Formula<T>,
) -> bool {
    &&& is_below(value(s[n - 1]), g, smaller)
    &&& f == if smaller {
        value(s[n - 1])
    } else {
        g
    }
}

/// Whether `f` is found to be the smallest of `start` and the first `n` entries of `s`.
pub open spec fn is_smallest<T: Scalar>(
    start: Formula<T>,
    s: Seq<T>,
    n: int,
    f: Formula<T>,
) -> bool
    decreases n,
{
    if n <= 0 {
        f == start
    } else {
        exists|g: Formula<T>, smaller: bool|
            {
                &&& is_smallest(start, s, n - 1, g)
                &&& #[trigger] smallest_step(s, n, g, smaller, f)
            }
    }
}

/// The strengths at the points of a curve.
pub open spec fn heights<T>(points: Seq<[T; 2]>) -> Seq<T> {
    points.map_values(|p: [T; 2]| p[1])
}

/// Whether `f` is found to be the largest strength at the points of the three curves, and
/// at least a small number.
pub open spec fn is_max_strength<T: Scalar>(
    y: Seq<[T; 2]>,
    cb: Seq<[T; 2]>,
    cr: Seq<[T; 2]>,
    f: Formula<T>,
) -> bool {
    exists|f1: Formula<T>, f2: Formula<T>|
        {
            &&& #[trigger] is_largest(ratio(1, 10_000), heights(y), y.len() as int, f1)
            &&& #[trigger] is_largest(f1, heights(cb), cb.len() as int, f2)
            &&& is_largest(f2, heights(cr), cr.len() as int, f)
        }
}

/// `i`, moved into the range from `low` to `high`.
pub open spec fn bounded(i: int, low: int, high: int) -> int {
    if i < low {
        low
    } else if i > high {
        high
    } else {
        i
    }
}

/// Whether `k` is the number of bits of the integer part of the strength `f`, kept between
/// 2 and 5.
pub open spec fn is_strength_width<T: Scalar>(f: Formula<T>, k: int) -> bool {
    exists|b: u8|
        {
            &&& #[trigger] is_byte(
                unary(UnaryOp::Floor, plus(unary(UnaryOp::Log2, f), count(1))),
                b,
            )
            &&& k == bounded(b as int, 2, 5)
        }
}

/// Two to the power of `k`.
pub open spec fn power(k: int) -> int {
    vstd::arithmetic::power2::pow2(k as nat) as int
}

/// Whether `q` is the scaling point for the point `p` of a curve, when strengths are scaled
/// by two to the power of `shift`.
pub open spec fn is_scaling_point<T: Scalar>(shift: int, p: [T; 2], q: [u8; 2]) -> bool {
    &&& is_byte(plus(value(p[0]), ratio(1, 2)), q[0])
    &&& exists|s: i32|
        {
            &&& #[trigger] is_signed(
                mul_add(count(power(shift) as usize), value(p[1]), ratio(1, 2)),
                s,
            )
            &&& q[1] == bounded(s as int, 0, 255)
        }
}

/// Whether `qs` are the scaling points for the points of a curve.
pub open spec fn are_scaling_points<T: Scalar>(
    shift: int,
    points: Seq<[T; 2]>,
    qs: Seq<[u8; 2]>,
) -> bool {
    &&& qs.len() == points.len()
    &&& forall|i: int|
        0 <= i < points.len() ==> is_scaling_point(shift, points[i], #[trigger] qs[i])
}

/// The weight of bin `i`: the root of the sum of row `i`.
pub open spec fn row_weight<T>(s: EquationSystem<T>, i: int) -> Formula<T> {
    unary(UnaryOp::SquareRoot, total(count(0), row_terms(s, i, s.n as int)))
}

/// The first `k` entries of row `i`.
pub open spec fn row_terms<T>(s: EquationSystem<T>, i: int, k: int) -> Seq<Formula<T>> {
    Seq::new(k as nat, |j: int| value(s.entry(i, j)))
}

/// The weights of the first `k` bins.
pub open spec fn row_weights<T>(s: EquationSystem<T>, k: int) -> Seq<Formula<T>> {
    Seq::new(k as nat, |i: int| row_weight(s, i))
}

/// The weighted strengths in the first `k` bins.
pub open spec fn weighted_strengths<T>(s: EquationSystem<T>, k: int) -> Seq<Formula<T>> {
    Seq::new(k as nat, |i: int| times(value(s.x@[i]), row_weight(s, i)))
}

/// Whether `avg` is the weighted average of the strengths in the bins; one if the weights
/// add up to nothing.
pub open spec fn is_average_strength<T: Scalar>(s: EquationSystem<T>, avg: T) -> bool {
    let n = s.n as int;
    let weight = total(count(0), row_weights(s, n));
    exists|void: bool|
        {
            &&& #[trigger] is_below(
                unary(UnaryOp::Absolute, weight),
                ratio(1, 4_503_599_627_370_496),
                void,
            )
            &&& denotes(
                if void {
                    count(1)
                } else {
                    over(total(count(0), weighted_strengths(s, n)), weight)
                },
                avg,
            )
        }
}

/// Whether `corr` is the correlation with luma of a chroma plane of the state `s`, in terms
/// of the noise as it is before scaling.
pub open spec fn is_unscaled_correlation<T: Scalar>(
    luma: NoiseModelState<T>,
    s: NoiseModelState<T>,
    corr: T,
) -> bool {
    exists|avg_luma: T, avg: T|
        {
            &&& #[trigger] is_average_strength(luma.strength_solver.eqns, avg_luma)
            &&& #[trigger] is_average_strength(s.strength_solver.eqns, avg)
            &&& denotes(
                over(
                    times(value(avg_luma), value(s.eqns.x@[luma.eqns.n as int])),
                    value(avg),
                ),
                corr,
            )
        }
}

/// Whether `f` is found to be the largest of the coefficients and correlations of all
/// planes, and at least a small number.
pub open spec fn is_max_coeff<T: Scalar>(
    s: ChannelStates<T>,
    corr_cb: T,
    corr_cr: T,
    f: Formula<T>,
) -> bool {
    let n = s.y.eqns.n as int;
    exists|y: Formula<T>, cb: Formula<T>, cr: Formula<T>|
        {
            &&& #[trigger] is_largest(ratio(1, 10_000), s.y.eqns.x@, n, y)
            &&& #[trigger] is_largest(y, s.cb.eqns.x@, n, cb)
            &&& #[trigger] is_largest(maximum(cb, value(corr_cb)), s.cr.eqns.x@, n, cr)
            &&& f == maximum(cr, value(corr_cr))
        }
}

/// Whether `f` is found to be the smallest of the coefficients and correlations of all
/// planes, and at most a small number.
pub open spec fn is_min_coeff<T: Scalar>(
    s: ChannelStates<T>,
    corr_cb: T,
    corr_cr: T,
    f: Formula<T>,
) -> bool {
    let n = s.y.eqns.n as int;
    exists|y: Formula<T>, cb: Formula<T>, cr: Formula<T>|
        {
            &&& #[trigger] is_smallest(ratio(1, 10_000), s.y.eqns.x@, n, y)
            &&& #[trigger] is_smallest(y, s.cb.eqns.x@, n, cb)
            &&& #[trigger] is_smallest(minimum(cb, value(corr_cb)), s.cr.eqns.x@, n, cr)
            &&& f == minimum(cr, value(corr_cr))
        }
}

/// Whether `shift` is the number of fractional bits that leaves room for coefficients from
/// `min` to `max`, kept between 6 and 9.
pub open spec fn is_coeff_shift<T: Scalar>(max: Formula<T>, min: Formula<T>, shift: int) -> bool {
    exists|e: i32|
        {
            &&& #[trigger] is_signed(
                maximum(
                    plus(count(1), unary(UnaryOp::Floor, unary(UnaryOp::Log2, max))),
                    unary(UnaryOp::Ceil, unary(UnaryOp::Log2, unary(UnaryOp::Negated, min))),
                ),
                e,
            )
            &&& shift == bounded(7 - e, 6, 9)
        }
}

/// Whether `q` is the number `x`, scaled by `scale` and rounded to a signed byte.
pub open spec fn is_quantized<T: Scalar>(scale: Formula<T>, x: T, q: i8) -> bool {
    exists|s: i32|
        {
            &&& #[trigger] is_signed(unary(UnaryOp::Round, times(scale, value(x))), s)
            &&& q == bounded(s as int, -128, 127)
        }
}

/// Whether `qs` are the first `n` entries of `x`, scaled and rounded.
pub open spec fn are_quantized<T: Scalar>(
    scale: Formula<T>,
    x: Seq<T>,
    n: int,
    qs: Seq<i8>,
) -> bool {
    forall|i: int| 0 <= i < n ==> is_quantized(scale, x[i], #[trigger] qs[i])
}

/// Whether `qs` are the coefficients of the luma plane, scaled and rounded.
pub open spec fn is_luma_filter<T: Scalar>(
    s: NoiseModelState<T>,
    n: int,
    scale: Formula<T>,
    qs: Seq<i8>,
) -> bool {
    qs.len() == n && are_quantized(scale, s.eqns.x@, n, qs)
}

/// Whether `qs` are the coefficients of a chroma plane, and at the end the correlation with
/// luma, scaled and rounded.
pub open spec fn is_chroma_filter<T: Scalar>(
    s: NoiseModelState<T>,
    n: int,
    scale: Formula<T>,
    corr: T,
    qs: Seq<i8>,
) -> bool {
    &&& qs.len() == n + 1
    &&& are_quantized(scale, s.eqns.x@, n, qs)
    &&& is_quantized(scale, corr, qs[n])
}

/// Whether the scaling functions of the segment go through the given points.
pub open spec fn is_scaled_segment<T: Scalar>(
    y: Seq<[T; 2]>,
    cb: Seq<[T; 2]>,
    cr: Seq<[T; 2]>,
    g: GrainTableSegment,
) -> bool {
    exists|f: Formula<T>, k: int|
        {
            &&& is_max_strength(y, cb, cr, f)
            &&& #[trigger] is_strength_width(f, k)
            &&& g.scaling_shift == 5 + (8 - k)
            &&& are_scaling_points(8 - k, y, luma_points(g.scaling_points_y))
            &&& are_scaling_points(8 - k, cb, chroma_points(g.scaling_points_cb))
            &&& are_scaling_points(8 - k, cr, chroma_points(g.scaling_points_cr))
        }
}

/// Whether the filters of the segment are those of the states.
pub open spec fn is_filter_segment<T: Scalar>(s: ChannelStates<T>, g: GrainTableSegment) -> bool {
    let n = s.y.eqns.n as int;
    let scale = count(power(g.ar_coeff_shift as int) as usize);
    exists|corr_cb: T, corr_cr: T, max: Formula<T>, min: Formula<T>|
        {
            &&& is_unscaled_correlation(s.y, s.cb, corr_cb)
            &&& is_unscaled_correlation(s.y, s.cr, corr_cr)
            &&& #[trigger] is_max_coeff(s, corr_cb, corr_cr, max)
            &&& #[trigger] is_min_coeff(s, corr_cb, corr_cr, min)
            &&& is_coeff_shift(max, min, g.ar_coeff_shift as int)
            &&& is_luma_filter(s.y, n, scale, luma_coeffs(g.ar_coeffs_y))
            &&& is_chroma_filter(s.cb, n, scale, corr_cb, chroma_coeffs(g.ar_coeffs_cb))
            &&& is_chroma_filter(s.cr, n, scale, corr_cr, chroma_coeffs(g.ar_coeffs_cr))
        }
}

/// Whether the rest of the segment is as it is for every model.
pub open spec fn has_fixed_fields(start_ts: u64, end_ts: u64, g: GrainTableSegment) -> bool {
    &&& g.random_seed == if start_ts == 0 {
        DEFAULT_GRAIN_SEED
    } else {
        0
    }
    &&& g.start_time == start_ts
    &&& g.end_time == end_ts
    &&& g.ar_coeff_lag == NOISE_MODEL_LAG
    &&& g.cb_mult == 128
    &&& g.cb_luma_mult == 192
    &&& g.cb_offset == 256
    &&& g.cr_mult == 128
    &&& g.cr_luma_mult == 192
    &&& g.cr_offset == 256
    &&& !g.chroma_scaling_from_luma
    &&& g.grain_scale_shift == 0
    &&& g.overlap_flag
}

/// Whether `g` is the segment for the states, when the strength curves go through the given
/// points.
pub open spec fn is_segment_of<T: Scalar>(
    s: ChannelStates<T>,
    y: Seq<[T; 2]>,
    cb: Seq<[T; 2]>,
    cr: Seq<[T; 2]>,
    start_ts: u64,
    end_ts: u64,
    g: GrainTableSegment,
) -> bool {
    &&& is_scaled_segment(y, cb, cr, g)
    &&& is_filter_segment(s, g)
    &&& has_fixed_fields(start_ts, end_ts, g)
}

/// Whether `g` is the segment for the states, with curves that fit the strengths.
pub open spec fn is_grain_of<T: Scalar>(
    s: ChannelStates<T>,
    start_ts: u64,
    end_ts: u64,
    g: GrainTableSegment,
) -> bool {
    exists|y: Seq<[T; 2]>, cb: Seq<[T; 2]>, cr: Seq<[T; 2]>|
        {
            &&& is_fit(s.y.strength_solver, NUM_Y_POINTS as int, y)
            &&& is_fit(s.cb.strength_solver, NUM_UV_POINTS as int, cb)
            &&& is_fit(s.cr.strength_solver, NUM_UV_POINTS as int, cr)
            &&& #[trigger] is_segment_of(s, y, cb, cr, start_ts, end_ts, g)
        }
}

/// The shifts of a segment lie in the ranges that a film grain table allows, the scaling
/// functions and filters have as many points and coefficients as it has room for, and the
/// scaling points do not outnumber those of the curves.
pub proof fn law_segment_ranges<T: Scalar>(
    s: ChannelStates<T>,
    start_ts: u64,
    end_ts: u64,
    g: GrainTableSegment,
)
    requires
        s.wf(),
        is_grain_of(s, start_ts, end_ts, g),
    ensures
        8 <= g.scaling_shift <= 11,
        6 <= g.ar_coeff_shift <= 9,
        2 <= luma_points(g.scaling_points_y).len() <= NUM_Y_POINTS,
        2 <= chroma_points(g.scaling_points_cb).len() <= NUM_UV_POINTS,
        2 <= chroma_points(g.scaling_points_cr).len() <= NUM_UV_POINTS,
        luma_coeffs(g.ar_coeffs_y).len() == NUM_Y_COEFFS,
        chroma_coeffs(g.ar_coeffs_cb).len() == NUM_UV_COEFFS,
        chroma_coeffs(g.ar_coeffs_cr).len() == NUM_UV_COEFFS,
{
    let (y, cb, cr) = choose|y: Seq<[T; 2]>, cb: Seq<[T; 2]>, cr: Seq<[T; 2]>|
        {
            &&& is_fit(s.y.strength_solver, NUM_Y_POINTS as int, y)
            &&& is_fit(s.cb.strength_solver, NUM_UV_POINTS as int, cb)
            &&& is_fit(s.cr.strength_solver, NUM_UV_POINTS as int, cr)
            &&& #[trigger] is_segment_of(s, y, cb, cr, start_ts, end_ts, g)
        };
    law_fit(s.y.strength_solver, NUM_Y_POINTS as int, y);
    law_fit(s.cb.strength_solver, NUM_UV_POINTS as int, cb);
    law_fit(s.cr.strength_solver, NUM_UV_POINTS as int, cr);
}

/// Only the segment that starts at time zero has a random seed of its own.
pub proof fn law_seed<T: Scalar>(
    s: ChannelStates<T>,
    start_ts: u64,
    end_ts: u64,
    g: GrainTableSegment,
)
    requires
        is_grain_of(s, start_ts, end_ts, g),
    ensures
        g.random_seed != 0 <==> start_ts == 0,
        g.start_time == start_ts,
        g.end_time == end_ts,
{
}

/// Two to the power of `k`.
fn power_of_two(k: u8) -> (p: usize)
    requires
        k < 10,
    ensures
        p == power(k as int),
{
    proof {
        vstd::arithmetic::power2::lemma2_to64();
    }
    let table: [usize; 10] = [1, 2, 4, 8, 16, 32, 64, 128, 256, 512];
    table[k as usize]
}

/// The largest of `start` and the first `n` entries of `s`.
fn largest<T: Scalar>(start: Term<T>, s: &Vec<T>, n: usize) -> (f: Term<T>)
    requires
        n <= s.len(),
    ensures
        is_largest(start@, s@, n as int, f@),
{
    let ghost first = start@;
    let mut f = start;
    let mut i: usize = 0;
    while i < n
        invariant
            i <= n <= s.len(),
            is_largest(first, s@, i as int, f@),
        decreases n - i,
    {
        let ghost g = f@;
        let x = Term::of(s[i]);
        let larger = f.below(&x);
        if larger {
            f = x;
        }
        assert(largest_step(s@, i + 1, g, larger, f@));
        i = i + 1;
    }
    f
}

/// The smallest of `start` and the first `n` entries of `s`.
fn smallest<T: Scalar>(start: Term<T>, s: &Vec<T>, n: usize) -> (f: Term<T>)
    requires
        n <= s.len(),
    ensures
        is_smallest(start@, s@, n as int, f@),
{
    let ghost first = start@;
    let mut f = start;
    let mut i: usize = 0;
    while i < n
        invariant
            i <= n <= s.len(),
            is_smallest(first, s@, i as int, f@),
        decreases n - i,
    {
        let ghost g = f@;
        let x = Term::of(s[i]);
        let smaller = x.below(&f);
        if smaller {
            f = x;
        }
        assert(smallest_step(s@, i + 1, g, smaller, f@));
        i = i + 1;
    }
    f
}

/// The strengths at the points of a curve.
fn heights_of<T: Copy>(points: &Vec<[T; 2]>) -> (r: Vec<T>)
    ensures
        r@ == heights(points@),
{
    let mut r: Vec<T> = Vec::new();
    let mut i: usize = 0;
    while i < points.len()
        invariant
            i <= points.len(),
            r.len() == i,
            forall|k: int| 0 <= k < i ==> r@[k] == points@[k][1],
        decreases points.len() - i,
    {
        r.push(points[i][1]);
        i = i + 1;
    }
    assert(r@ =~= heights(points@));
    r
}

/// The number of bits of the integer part of the largest strength, kept between 2 and 5.
fn strength_width<T: Scalar>(
    y: &Vec<[T; 2]>,
    cb: &Vec<[T; 2]>,
    cr: &Vec<[T; 2]>,
) -> (k: u8)
    ensures
        2 <= k <= 5,
        exists|f: Formula<T>|
            is_max_strength(y@, cb@, cr@, f) && #[trigger] is_strength_width(f, k as int),
{
    let f1 = largest(Term::ratio(1, 10_000), &heights_of(y), y.len());
    let ghost g1 = f1@;
    assert(is_largest(ratio(1, 10_000), heights(y@), y.len() as int, g1));
    let f2 = largest(f1, &heights_of(cb), cb.len());
    let ghost g2 = f2@;
    assert(is_largest(g1, heights(cb@), cb.len() as int, g2));
    let max = largest(f2, &heights_of(cr), cr.len());
    assert(is_max_strength(y@, cb@, cr@, max@));
    let b = max.log2().plus(&Term::count(1)).floor().to_byte();
    let k = if b < 2 {
        2
    } else if b > 5 {
        5
    } else {
        b
    };
    assert(is_strength_width(max@, k as int));
    k
}

/// The scaling points for the points of a curve.
fn scaling_points<T: Scalar>(shift: u8, points: &Vec<[T; 2]>) -> (qs: Vec<[u8; 2]>)
    requires
        shift < 10,
    ensures
        are_scaling_points(shift as int, points@, qs@),
{
    let scale_factor = Term::count(power_of_two(shift));
    let half = Term::ratio(1, 2);
    let mut qs: Vec<[u8; 2]> = Vec::new();
    let mut i: usize = 0;
    while i < points.len()
        invariant
            i <= points.len(),
            qs.len() == i,
            scale_factor@ == count::<T>(power(shift as int) as usize),
            half@ == ratio::<T>(1, 2),
            forall|k: int|
                0 <= k < i ==> is_scaling_point(shift as int, points@[k], #[trigger] qs@[k]),
        decreases points.len() - i,
    {
        let p = points[i];
        let x = Term::of(p[0]).plus(&half).to_byte();
        let s = scale_factor.mul_add(&Term::of(p[1]), &half).to_signed();
        let y = if s < 0 {
            0
        } else if s > 255 {
            255
        } else {
            s as u8
        };
        let q = [x, y];
        assert(is_scaling_point(shift as int, p, q));
        qs.push(q);
        i = i + 1;
    }
    qs
}

/// The weighted average of the strengths in the bins.
fn average_strength<T: Scalar>(s: &EquationSystem<T>) -> (avg: T)
    requires
        s.wf(),
    ensures
        is_average_strength(*s, avg),
{
    let n = s.n;
    let ghost eqns = *s;
    let mut average = Term::count(0);
    let mut total_weight = Term::count(0);
    let mut i: usize = 0;
    while i < n
        invariant
            i <= n,
            n == s.n,
            s.wf(),
            eqns == *s,
            average@ == total(count(0), weighted_strengths(eqns, i as int)),
            total_weight@ == total(count(0), row_weights(eqns, i as int)),
        decreases n - i,
    {
        let mut sum = Term::count(0);
        let mut j: usize = 0;
        while j < n
            invariant
                j <= n,
                i < n,
                n == s.n,
                s.wf(),
                eqns == *s,
                sum@ == total(count(0), row_terms(eqns, i as int, j as int)),
            decreases n - j,
        {
            proof {
                lemma_cell_bound(n as int, n as int, i as int, j as int);
            }
            let term = Term::of(s.a[i * n + j]);
            proof {
                let terms = row_terms(eqns, i as int, j as int);
                assert(terms.push(term@) =~= row_terms(eqns, i as int, j + 1));
                lemma_total_push(count(0), terms, term@);
            }
            sum = sum.plus(&term);
            j = j + 1;
        }
        let w = sum.square_root();
        let weighted = Term::of(s.x[i]).times(&w);
        proof {
            let ts = weighted_strengths(eqns, i as int);
            assert(ts.push(weighted@) =~= weighted_strengths(eqns, i + 1));
            lemma_total_push(count(0), ts, weighted@);
            let ws = row_weights(eqns, i as int);
            assert(ws.push(w@) =~= row_weights(eqns, i + 1));
            lemma_total_push(count(0), ws, w@);
        }
        average = average.plus(&weighted);
        total_weight = total_weight.plus(&w);
        i = i + 1;
    }
    let void = total_weight.absolute().below(&Term::ratio(1, 4_503_599_627_370_496));
    assert(is_below(
        unary(UnaryOp::Absolute, total(count(0), row_weights(eqns, n as int))),
        ratio(1, 4_503_599_627_370_496),
        void,
    ));
    if void {
        Term::count(1).get()
    } else {
        average.over(&total_weight).get()
    }
}

/// The correlation with luma of a chroma plane, in terms of the noise before scaling.
fn unscaled_correlation<T: Scalar>(luma: &NoiseModelState<T>, s: &NoiseModelState<T>) -> (corr: T)
    requires
        luma.wf(),
        s.wf(),
        luma.eqns.n < s.eqns.n,
    ensures
        is_unscaled_correlation(*luma, *s, corr),
{
    let avg_luma = average_strength(&luma.strength_solver.eqns);
    let avg = average_strength(&s.strength_solver.eqns);
    assert(is_average_strength(luma.strength_solver.eqns, avg_luma));
    assert(is_average_strength(s.strength_solver.eqns, avg));
    Term::of(avg_luma).times(&Term::of(s.eqns.x[luma.eqns.n])).over(&Term::of(avg)).get()
}

/// A number, scaled and rounded to a signed byte.
fn quantize<T: Scalar>(scale: &Term<T>, x: T) -> (q: i8)
    ensures
        is_quantized(scale@, x, q),
{
    let s = scale.times(&Term::of(x)).round().to_signed();
    if s < -128 {
        -128
    } else if s > 127 {
        127
    } else {
        s as i8
    }
}

/// The number of fractional bits that leaves room for all coefficients.
fn coeff_shift<T: Scalar>(s: &ChannelStates<T>, corr_cb: T, corr_cr: T) -> (shift: u8)
    requires
        s.wf(),
    ensures
        6 <= shift <= 9,
        exists|max: Formula<T>, min: Formula<T>|
            {
                &&& #[trigger] is_max_coeff(*s, corr_cb, corr_cr, max)
                &&& #[trigger] is_min_coeff(*s, corr_cb, corr_cr, min)
                &&& is_coeff_shift(max, min, shift as int)
            },
{
    let n = s.y.eqns.n;
    let corr_cb_term = Term::of(corr_cb);
    let corr_cr_term = Term::of(corr_cr);
    let max_y = largest(Term::ratio(1, 10_000), &s.y.eqns.x, n);
    let ghost gy = max_y@;
    let max_cb = largest(max_y, &s.cb.eqns.x, n);
    let max_cr = largest(max_cb.maximum(&corr_cb_term), &s.cr.eqns.x, n);
    let max = max_cr.maximum(&corr_cr_term);
    proof {
        assert(is_largest(ratio(1, 10_000), s.y.eqns.x@, n as int, gy));
        assert(is_largest(gy, s.cb.eqns.x@, n as int, max_cb@));
        assert(is_largest(
            maximum(max_cb@, value(corr_cb)),
            s.cr.eqns.x@,
            n as int,
            max_cr@,
        ));
        assert(is_max_coeff(*s, corr_cb, corr_cr, max@));
    }
    let min_y = smallest(Term::ratio(1, 10_000), &s.y.eqns.x, n);
    let ghost hy = min_y@;
    let min_cb = smallest(min_y, &s.cb.eqns.x, n);
    let min_cr = smallest(min_cb.minimum(&corr_cb_term), &s.cr.eqns.x, n);
    let min = min_cr.minimum(&corr_cr_term);
    proof {
        assert(is_smallest(ratio(1, 10_000), s.y.eqns.x@, n as int, hy));
        assert(is_smallest(hy, s.cb.eqns.x@, n as int, min_cb@));
        assert(is_smallest(
            minimum(min_cb@, value(corr_cb)),
            s.cr.eqns.x@,
            n as int,
            min_cr@,
        ));
        assert(is_min_coeff(*s, corr_cb, corr_cr, min@));
    }
    let e = Term::count(1).plus(&max.log2().floor()).maximum(
        &min.negated().log2().ceil(),
    ).to_signed();
    let shift: u8 = if e > 1 {
        6
    } else if e < -2 {
        9
    } else {
        (7 - e) as u8
    };
    assert(is_coeff_shift(max@, min@, shift as int));
    shift
}

impl<T: Scalar> NoiseModel<T> {
    /// The segment of a film grain table that describes the noise from `start_ts` to
    /// `end_ts`.
    pub fn get_grain_parameters(&self, start_ts: u64, end_ts: u64) -> (g: GrainTableSegment)
        requires
            self.wf(),
        ensures
            is_grain_of(self.combined_state, start_ts, end_ts, g),
    {
        let y = self.combined_state.y.strength_solver.fit_piecewise(NUM_Y_POINTS);
        let cb = self.combined_state.cb.strength_solver.fit_piecewise(NUM_UV_POINTS);
        let cr = self.combined_state.cr.strength_solver.fit_piecewise(NUM_UV_POINTS);
        proof {
            law_fit(self.combined_state.y.strength_solver, NUM_Y_POINTS as int, y.points@);
            law_fit(self.combined_state.cb.strength_solver, NUM_UV_POINTS as int, cb.points@);
            law_fit(self.combined_state.cr.strength_solver, NUM_UV_POINTS as int, cr.points@);
        }
        self.grain_segment(&y, &cb, &cr, start_ts, end_ts)
    }

    /// The segment for strength curves that have been fitted already.
    pub fn grain_segment(
        &self,
        y: &NoiseStrengthLut<T>,
        cb: &NoiseStrengthLut<T>,
        cr: &NoiseStrengthLut<T>,
        start_ts: u64,
        end_ts: u64,
    ) -> (g: GrainTableSegment)
        requires
            self.wf(),
            y.points.len() <= NUM_Y_POINTS,
            cb.points.len() <= NUM_UV_POINTS,
            cr.points.len() <= NUM_UV_POINTS,
        ensures
            is_segment_of(
                self.combined_state,
                y.points@,
                cb.points@,
                cr.points@,
                start_ts,
                end_ts,
                g,
            ),
    {
        let s = &self.combined_state;
        let width = strength_width(&y.points, &cb.points, &cr.points);
        let scaling_points_y = collect_luma_points(scaling_points(8 - width, &y.points));
        let scaling_points_cb = collect_chroma_points(scaling_points(8 - width, &cb.points));
        let scaling_points_cr = collect_chroma_points(scaling_points(8 - width, &cr.points));
        let n_coeff = s.y.eqns.n;
        let corr_cb = unscaled_correlation(&s.y, &s.cb);
        let corr_cr = unscaled_correlation(&s.y, &s.cr);
        let ar_coeff_shift = coeff_shift(s, corr_cb, corr_cr);
        let scale_ar_coeff = Term::count(power_of_two(ar_coeff_shift));
        let ar_coeffs_y = self.get_ar_coeffs_y(n_coeff, &scale_ar_coeff);
        let ar_coeffs_cb = Self::get_ar_coeffs_uv(&s.cb, n_coeff, &scale_ar_coeff, corr_cb);
        let ar_coeffs_cr = Self::get_ar_coeffs_uv(&s.cr, n_coeff, &scale_ar_coeff, corr_cr);
        let g = GrainTableSegment {
            random_seed: if start_ts == 0 {
                DEFAULT_GRAIN_SEED
            } else {
                0
            },
            start_time: start_ts,
            end_time: end_ts,
            ar_coeff_lag: NOISE_MODEL_LAG as u8,
            scaling_points_y,
            scaling_points_cb,
            scaling_points_cr,
            scaling_shift: 5 + (8 - width),
            ar_coeff_shift,
            ar_coeffs_y,
            ar_coeffs_cb,
            ar_coeffs_cr,
            cb_mult: 128,
            cb_luma_mult: 192,
            cb_offset: 256,
            cr_mult: 128,
            cr_luma_mult: 192,
            cr_offset: 256,
            chroma_scaling_from_luma: false,
            grain_scale_shift: 0,
            overlap_flag: true,
        };
        assert(is_scaled_segment(y.points@, cb.points@, cr.points@, g));
        assert(is_filter_segment(*s, g));
        g
    }

    /// The coefficients of the luma plane, scaled and rounded.
    fn get_ar_coeffs_y(&self, n_coeff: usize, scale: &Term<T>) -> (coeffs: ArrayVec<
        i8,
        NUM_Y_COEFFS,
    >)
        requires
            n_coeff <= NUM_Y_COEFFS,
            n_coeff <= self.combined_state.y.eqns.x.len(),
        ensures
            is_luma_filter(
                self.combined_state.y,
                n_coeff as int,
                scale@,
                luma_coeffs(coeffs),
            ),
    {
        let x = &self.combined_state.y.eqns.x;
        let mut coeffs = new_luma_coeffs();
        let mut i: usize = 0;
        while i < n_coeff
            invariant
                i <= n_coeff <= NUM_Y_COEFFS,
                n_coeff <= x.len(),
                luma_coeffs(coeffs).len() == i,
                are_quantized(scale@, x@, i as int, luma_coeffs(coeffs)),
            decreases n_coeff - i,
        {
            push_luma_coeff(&mut coeffs, quantize(scale, x[i]));
            i = i + 1;
        }
        coeffs
    }

    /// The coefficients of a chroma plane and its correlation with luma, scaled and rounded.
    fn get_ar_coeffs_uv(
        state: &NoiseModelState<T>,
        n_coeff: usize,
        scale: &Term<T>,
        y_corr: T,
    ) -> (coeffs: ArrayVec<i8, NUM_UV_COEFFS>)
        requires
            n_coeff <= NUM_Y_COEFFS,
            n_coeff <= state.eqns.x.len(),
        ensures
            is_chroma_filter(*state, n_coeff as int, scale@, y_corr, chroma_coeffs(coeffs)),
    {
        let x = &state.eqns.x;
        let mut coeffs = new_chroma_coeffs();
        let mut i: usize = 0;
        while i < n_coeff
            invariant
                i <= n_coeff <= NUM_Y_COEFFS,
                n_coeff <= x.len(),
                chroma_coeffs(coeffs).len() == i,
                are_quantized(scale@, x@, i as int, chroma_coeffs(coeffs)),
            decreases n_coeff - i,
        {
            push_chroma_coeff(&mut coeffs, quantize(scale, x[i]));
            i = i + 1;
        }
        push_chroma_coeff(&mut coeffs, quantize(scale, y_corr));
        coeffs
    }
}

} // verus!
