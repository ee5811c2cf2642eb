//! Where the scaling functions of a segment have their points, when the number type
//! calculates exactly.
use crate::curve::{
    are_residuals_updated, is_fit, is_full_curve, is_point_of_bin, keeps, law_simplification,
    simplifies_to,
};
use crate::exact::{is_defined, is_exact, is_floor, law_worth, worth};
use crate::grain::{
    are_scaling_points, is_grain_of, is_max_strength, is_scaling_point, is_segment_of,
    is_strength_width, law_segment_ranges,
};
use crate::model::ChannelStates;
use crate::scalar::{byte_gives, denotes, is_zero, plus, ratio, value, Formula, Scalar};
use crate::segment::{chroma_points, luma_coeffs, luma_points, GrainTableSegment};
use crate::strength::{bin_center, StrengthSolver};
use crate::{NUM_UV_POINTS, NUM_Y_POINTS};
use vstd::prelude::*;

verus! {

/// Whether the points of a curve are those of the bins `bins`, which increase from the
/// first to the last.
pub open spec fn goes_through<T: Scalar>(
    s: StrengthSolver<T>,
    bins: Seq<int>,
    curve: Seq<[T; 2]>,
) -> bool {
    &&& bins.len() == curve.len()
    &&& bins.len() >= 2
    &&& bins.first() == 0
    &&& bins.last() == s.num_bins - 1
    &&& forall|i: int, j: int| 0 <= i < j < bins.len() ==> #[trigger] bins[i] < #[trigger] bins[j]
    &&& forall|i: int|
        0 <= i < bins.len() ==> is_point_of_bin(s, bins[i], #[trigger] curve[i])
}

/// The points of a fitted curve are those of bins in increasing order, from the first to
/// the last.
pub proof fn law_fit_goes_through_bins<T: Scalar>(
    s: StrengthSolver<T>,
    max: int,
    curve: Seq<[T; 2]>,
)
    requires
        s.num_bins >= 2,
        is_fit(s, max, curve),
    ensures
        exists|bins: Seq<int>| goes_through(s, bins, curve),
{
    let (points, blank, residual) = choose|points: Seq<[T; 2]>, blank: Seq<T>, residual: Seq<T>|
        {
            &&& is_full_curve(s.eqns.x@, s.num_bins, points)
            &&& blank.len() == s.num_bins
            &&& forall|i: int| 0 <= i < blank.len() ==> is_zero(#[trigger] blank[i])
            &&& #[trigger] are_residuals_updated(
                s.eqns.x@,
                s.num_bins,
                points,
                blank,
                0,
                s.num_bins as int,
                residual,
            )
            &&& #[trigger] simplifies_to(s.eqns.x@, s.num_bins, max, points, residual, curve)
        };
    law_simplification(s.eqns.x@, s.num_bins, max, points, residual, curve);
    let bins = choose|bins: Seq<int>| keeps(points, bins, curve);
    assert forall|i: int| 0 <= i < bins.len() implies is_point_of_bin(
        s,
        bins[i],
        #[trigger] curve[i],
    ) by {
        assert(curve[i] == points[bins[i]]);
    }
    assert(goes_through(s, bins, curve));
}

/// What the centre of a bin is worth.
proof fn lemma_centre<T: Scalar>(v: spec_fn(T) -> real, num_bins: usize, k: int, c: T)
    requires
        is_exact(v),
        2 <= num_bins,
        0 <= k < num_bins,
        denotes(bin_center(num_bins, k), c),
    ensures
        v(c) == (k as real / (num_bins - 1) as real) * 255real,
{
    let f: Formula<T> = bin_center(num_bins, k);
    reveal_with_fuel(worth, 4);
    reveal_with_fuel(is_defined, 4);
    assert(is_defined(f, v));
    law_worth(f, v, c);
}

/// Whether `q` is the centre of bin `k` among `num_bins`, rounded to a whole number.
pub open spec fn is_rounded_centre(num_bins: usize, k: int, q: u8) -> bool {
    is_floor((k as real / (num_bins - 1) as real) * 255real + 1real / 2real, q as int)
}

/// The rounded centres of bins increase from 0 to 255.
proof fn lemma_rounded_centres(num_bins: usize, k: int, l: int, q: u8, r: u8)
    requires
        2 <= num_bins <= 256,
        0 <= k < l < num_bins,
        is_rounded_centre(num_bins, k, q),
        is_rounded_centre(num_bins, l, r),
    ensures
        q < r,
        k == 0 ==> q == 0,
        l == num_bins - 1 ==> r == 255,
{
    let d = (num_bins - 1) as real;
    let a = k as real;
    let b = l as real;
    let x = (a / d) * 255real + 1real / 2real;
    let y = (b / d) * 255real + 1real / 2real;
    assert((k + 1) as real <= b);
    assert(1real <= d && d <= 255real);
    assert(y >= x + 1real) by (nonlinear_arith)
        requires
            x == (a / d) * 255real + 1real / 2real,
            y == (b / d) * 255real + 1real / 2real,
            a + 1real <= b,
            1real <= d,
            d <= 255real,
    ;
    if r <= q {
        assert((r as int) as real <= (q as int) as real);
    }
    if k == 0 {
        assert(x == 1real / 2real) by (nonlinear_arith)
            requires
                x == (a / d) * 255real + 1real / 2real,
                a == 0real,
                1real <= d,
        ;
    }
    if l == num_bins - 1 {
        assert(y == 255real + 1real / 2real) by (nonlinear_arith)
            requires
                y == (b / d) * 255real + 1real / 2real,
                b == d,
                1real <= d,
        ;
    }
}

/// The scaling point of a bin stands at its rounded centre.
pub(crate) proof fn lemma_scaling_point<T: Scalar>(
    v: spec_fn(T) -> real,
    s: StrengthSolver<T>,
    shift: int,
    k: int,
    p: [T; 2],
    q: [u8; 2],
)
    requires
        is_exact(v),
        2 <= s.num_bins,
        is_point_of_bin(s, k, p),
        is_scaling_point(shift, p, q),
    ensures
        is_rounded_centre(s.num_bins, k, q[0]),
{
    lemma_centre(v, s.num_bins, k, p[0]);
    let f: Formula<T> = plus(value(p[0]), ratio(1, 2));
    let x = choose|x: T| #[trigger] denotes(f, x) && call_ensures(T::to_byte, (x,), q[0]);
    reveal_with_fuel(worth, 3);
    reveal_with_fuel(is_defined, 3);
    law_worth(f, v, x);
    assert(byte_gives(x, q[0]));
    let c = v(p[0]);
    let a = k as real;
    let d = (s.num_bins - 1) as real;
    assert(0real <= c && c <= 255real) by (nonlinear_arith)
        requires
            c == (a / d) * 255real,
            0real <= a,
            a <= d,
            1real <= d,
    ;
    assert(worth(ratio::<T>(1, 2), v) == 1real / 2real);
}

/// Whether the points of a scaling function increase from 0 to 255.
pub open spec fn spans_all(qs: Seq<[u8; 2]>) -> bool {
    &&& qs.len() >= 2
    &&& qs.first()[0] == 0
    &&& qs.last()[0] == 255
    &&& forall|i: int, j: int|
        0 <= i < j < qs.len() ==> (#[trigger] qs[i])[0] < (#[trigger] qs[j])[0]
}

/// The scaling points of a fitted curve increase from 0 to 255.
pub proof fn law_scaling_points_increase<T: Scalar>(
    s: StrengthSolver<T>,
    v: spec_fn(T) -> real,
    max: int,
    curve: Seq<[T; 2]>,
    shift: int,
    qs: Seq<[u8; 2]>,
)
    requires
        is_exact(v),
        2 <= s.num_bins <= 256,
        is_fit(s, max, curve),
        are_scaling_points(shift, curve, qs),
    ensures
        spans_all(qs),
{
    law_fit_goes_through_bins(s, max, curve);
    let bins = choose|bins: Seq<int>| goes_through(s, bins, curve);
    assert forall|i: int| 0 <= i < qs.len() implies is_rounded_centre(
        s.num_bins,
        bins[i],
        (#[trigger] qs[i])[0],
    ) by {
        assert(is_point_of_bin(s, bins[i], curve[i]));
        lemma_scaling_point(v, s, shift, bins[i], curve[i], qs[i]);
    }
    assert forall|i: int, j: int| 0 <= i < j < qs.len() implies (#[trigger] qs[i])[0] < (
    #[trigger] qs[j])[0] by {
        assert(is_point_of_bin(s, bins[i], curve[i]));
        assert(is_point_of_bin(s, bins[j], curve[j]));
        lemma_rounded_centres(s.num_bins, bins[i], bins[j], qs[i][0], qs[j][0]);
    }
    let last = qs.len() - 1;
    assert(is_point_of_bin(s, bins[0], curve[0]));
    assert(is_point_of_bin(s, bins[last], curve[last]));
    assert(bins[0] < bins[last]);
    lemma_rounded_centres(s.num_bins, bins[0], bins[last], qs[0][0], qs[last][0]);
}

/// The points of all three scaling functions of a segment increase from 0 to 255.
pub proof fn law_segment_points_increase<T: Scalar>(
    s: ChannelStates<T>,
    v: spec_fn(T) -> real,
    start_ts: u64,
    end_ts: u64,
    g: GrainTableSegment,
)
    requires
        is_exact(v),
        s.wf(),
        is_grain_of(s, start_ts, end_ts, g),
    ensures
        spans_all(luma_points(g.scaling_points_y)),
        spans_all(chroma_points(g.scaling_points_cb)),
        spans_all(chroma_points(g.scaling_points_cr)),
{
    let (y, cb, cr) = choose|y: Seq<[T; 2]>, cb: Seq<[T; 2]>, cr: Seq<[T; 2]>|
        {
            &&& is_fit(s.y.strength_solver, NUM_Y_POINTS as int, y)
            &&& is_fit(s.cb.strength_solver, NUM_UV_POINTS as int, cb)
            &&& is_fit(s.cr.strength_solver, NUM_UV_POINTS as int, cr)
            &&& #[trigger] is_segment_of(s, y, cb, cr, start_ts, end_ts, g)
        };
    let (f, k) = choose|f: Formula<T>, k: int|
        {
            &&& is_max_strength(y, cb, cr, f)
            &&& #[trigger] is_strength_width(f, k)
            &&& g.scaling_shift == 5 + (8 - k)
            &&& are_scaling_points(8 - k, y, luma_points(g.scaling_points_y))
            &&& are_scaling_points(8 - k, cb, chroma_points(g.scaling_points_cb))
            &&& are_scaling_points(8 - k, cr, chroma_points(g.scaling_points_cr))
        };
    law_scaling_points_increase(
        s.y.strength_solver,
        v,
        NUM_Y_POINTS as int,
        y,
        8 - k,
        luma_points(g.scaling_points_y),
    );
    law_scaling_points_increase(
        s.cb.strength_solver,
        v,
        NUM_UV_POINTS as int,
        cb,
        8 - k,
        chroma_points(g.scaling_points_cb),
    );
    law_scaling_points_increase(
        s.cr.strength_solver,
        v,
        NUM_UV_POINTS as int,
        cr,
        8 - k,
        chroma_points(g.scaling_points_cr),
    );
}

/// The intensity by which the noise of a chroma pixel is scaled, for the luma intensity behind
/// it and its own, when the table gives the two multipliers and the offset.
pub open spec fn scaling_index(
    luma: int,
    chroma: int,
    luma_mult: u8,
    mult: u8,
    offset: u16,
) -> int {
    (luma * (luma_mult - 128) + chroma * (mult - 128)) / 64 + (offset - 256)
}

/// The noise of the chroma planes is scaled by the luma intensity, whatever that of the chroma
/// pixel is, and not by the curve of the luma plane. The filter looks at as many neighbours as
/// there are luma coefficients.
pub proof fn law_chroma_is_scaled_by_luma<T: Scalar>(
    s: ChannelStates<T>,
    start_ts: u64,
    end_ts: u64,
    g: GrainTableSegment,
    luma: int,
    chroma: int,
)
    requires
        s.wf(),
        is_grain_of(s, start_ts, end_ts, g),
    ensures
        scaling_index(luma, chroma, g.cb_luma_mult, g.cb_mult, g.cb_offset) == luma,
        scaling_index(luma, chroma, g.cr_luma_mult, g.cr_mult, g.cr_offset) == luma,
        !g.chroma_scaling_from_luma,
        2 * g.ar_coeff_lag * (g.ar_coeff_lag + 1) == luma_coeffs(g.ar_coeffs_y).len(),
{
    let (y, cb, cr) = choose|y: Seq<[T; 2]>, cb: Seq<[T; 2]>, cr: Seq<[T; 2]>|
        {
            &&& is_fit(s.y.strength_solver, NUM_Y_POINTS as int, y)
            &&& is_fit(s.cb.strength_solver, NUM_UV_POINTS as int, cb)
            &&& is_fit(s.cr.strength_solver, NUM_UV_POINTS as int, cr)
            &&& #[trigger] is_segment_of(s, y, cb, cr, start_ts, end_ts, g)
        };
    law_segment_ranges(s, start_ts, end_ts, g);
    assert(g.ar_coeff_lag == 3);
    assert(chroma * 0 == 0);
    assert((luma * 64) / 64 == luma);
}

} // verus!
