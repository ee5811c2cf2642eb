//! What a segment of a film grain table shows of the noise, if the number type calculates
//! exactly.
use crate::curve::{is_fit, is_point_of_bin};
use crate::curve_laws::{is_straight, law_straight_curve};
use crate::exact::is_exact;
use crate::grain::{
    are_scaling_points, is_grain_of, is_max_strength, is_segment_of, is_strength_width,
};
use crate::grain_laws::{
    goes_through, is_rounded_centre, law_fit_goes_through_bins, lemma_scaling_point,
};
use crate::model::ChannelStates;
use crate::precise::{has_logarithm, has_order, has_rounding};
use crate::report_laws::{all_stand_for, law_coefficients};
use crate::scalar::{Formula, Scalar};
use crate::scaling_laws::{byte_stands_for, law_scaling, points_stand_for};
use crate::segment::{
    chroma_coeffs, chroma_points, luma_coeffs, luma_points, GrainTableSegment,
};
use crate::strength::StrengthSolver;
use crate::{NUM_UV_POINTS, NUM_Y_POINTS};
use vstd::prelude::*;

verus! {

/// Whether the points of a scaling function are those of the given bins, each at the rounded
/// centre of the bin, with the byte that is nearest to the strength there.
pub open spec fn are_bins_shown<T>(
    qs: Seq<[u8; 2]>,
    shift: int,
    s: StrengthSolver<T>,
    v: spec_fn(T) -> real,
    bins: Seq<int>,
) -> bool {
    &&& bins.len() == qs.len()
    &&& bins.len() >= 2
    &&& bins.first() == 0
    &&& bins.last() == s.num_bins - 1
    &&& forall|i: int, j: int| 0 <= i < j < bins.len() ==> #[trigger] bins[i] < #[trigger] bins[j]
    &&& forall|i: int|
        0 <= i < bins.len() ==> {
            &&& 0 <= #[trigger] bins[i] < s.num_bins
            &&& is_rounded_centre(s.num_bins, bins[i], qs[i][0])
            &&& byte_stands_for(qs[i][1] as int, shift, v(s.eqns.x@[bins[i]]))
        }
}

/// Whether a scaling function shows the strengths of a solver: through some of its bins, the
/// first and the last among them, and through these alone if all strengths lie on a straight
/// line.
pub open spec fn shows_strengths<T>(
    qs: Seq<[u8; 2]>,
    shift: int,
    s: StrengthSolver<T>,
    v: spec_fn(T) -> real,
) -> bool {
    &&& exists|bins: Seq<int>| are_bins_shown(qs, shift, s, v, bins)
    &&& forall|level: real, slope: real| #[trigger]
        is_straight(s, v, level, slope) ==> qs.len() == 2
}

/// The scaling function of a curve.
proof fn lemma_shown<T: Scalar>(
    s: StrengthSolver<T>,
    max: int,
    curve: Seq<[T; 2]>,
    qs: Seq<[u8; 2]>,
    shift: int,
    v: spec_fn(T) -> real,
)
    requires
        is_exact(v),
        has_rounding(v),
        has_order(v),
        s.num_bins >= 2,
        is_fit(s, max, curve),
        are_scaling_points(shift, curve, qs),
        points_stand_for(qs, shift, curve, v),
    ensures
        shows_strengths(qs, shift, s, v),
{
    law_fit_goes_through_bins(s, max, curve);
    let bins = choose|bins: Seq<int>| goes_through(s, bins, curve);
    assert forall|i: int| 0 <= i < bins.len() implies {
        &&& 0 <= #[trigger] bins[i] < s.num_bins
        &&& is_rounded_centre(s.num_bins, bins[i], qs[i][0])
        &&& byte_stands_for(qs[i][1] as int, shift, v(s.eqns.x@[bins[i]]))
    } by {
        assert(is_point_of_bin(s, bins[i], curve[i]));
        lemma_scaling_point(v, s, shift, bins[i], curve[i], qs[i]);
        assert(byte_stands_for(qs[i][1] as int, shift, v(curve[i][1])));
    }
    assert(are_bins_shown(qs, shift, s, v, bins));
    assert forall|level: real, slope: real| #[trigger]
        is_straight(s, v, level, slope) implies qs.len() == 2 by {
        law_straight_curve(s, v, level, slope, max, curve);
    }
}

/// A segment shows, for each plane, the strengths and the coefficients of that plane.
pub proof fn law_segment_shows_noise<T: Scalar>(
    s: ChannelStates<T>,
    v: spec_fn(T) -> real,
    start_ts: u64,
    end_ts: u64,
    g: GrainTableSegment,
)
    requires
        is_exact(v),
        has_rounding(v),
        has_logarithm(v),
        has_order(v),
        s.wf(),
        is_grain_of(s, start_ts, end_ts, g),
    ensures
        shows_strengths(
            luma_points(g.scaling_points_y),
            g.scaling_shift - 5,
            s.y.strength_solver,
            v,
        ),
        shows_strengths(
            chroma_points(g.scaling_points_cb),
            g.scaling_shift - 5,
            s.cb.strength_solver,
            v,
        ),
        shows_strengths(
            chroma_points(g.scaling_points_cr),
            g.scaling_shift - 5,
            s.cr.strength_solver,
            v,
        ),
        all_stand_for(luma_coeffs(g.ar_coeffs_y), g.ar_coeff_shift as int, s.y.eqns.x@, v, 24),
        all_stand_for(chroma_coeffs(g.ar_coeffs_cb), g.ar_coeff_shift as int, s.cb.eqns.x@, v, 24),
        all_stand_for(chroma_coeffs(g.ar_coeffs_cr), g.ar_coeff_shift as int, s.cr.eqns.x@, v, 24),
{
    let (y, cb, cr) = choose|y: Seq<[T; 2]>, cb: Seq<[T; 2]>, cr: Seq<[T; 2]>|
        {
            &&& is_fit(s.y.strength_solver, NUM_Y_POINTS as int, y)
            &&& is_fit(s.cb.strength_solver, NUM_UV_POINTS as int, cb)
            &&& is_fit(s.cr.strength_solver, NUM_UV_POINTS as int, cr)
            &&& #[trigger] is_segment_of(s, y, cb, cr, start_ts, end_ts, g)
        };
    let (f, k) = choose|f: Formula<T>, k: int|
        {
            &&& is_max_strength(y, cb, cr, f)
            &&& #[trigger] is_strength_width(f, k)
            &&& g.scaling_shift == 5 + (8 - k)
            &&& are_scaling_points(8 - k, y, luma_points(g.scaling_points_y))
            &&& are_scaling_points(8 - k, cb, chroma_points(g.scaling_points_cb))
            &&& are_scaling_points(8 - k, cr, chroma_points(g.scaling_points_cr))
        };
    law_scaling(y, cb, cr, v, g);
    law_coefficients(s, v, g);
    let shift = 8 - k;
    lemma_shown(
        s.y.strength_solver,
        NUM_Y_POINTS as int,
        y,
        luma_points(g.scaling_points_y),
        shift,
        v,
    );
    lemma_shown(
        s.cb.strength_solver,
        NUM_UV_POINTS as int,
        cb,
        chroma_points(g.scaling_points_cb),
        shift,
        v,
    );
    lemma_shown(
        s.cr.strength_solver,
        NUM_UV_POINTS as int,
        cr,
        chroma_points(g.scaling_points_cr),
        shift,
        v,
    );
}

} // verus!
