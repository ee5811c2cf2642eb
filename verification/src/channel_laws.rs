//! What taking in a frame shows of its noise, if the number type calculates exactly and the
//! noise is read as it is.
use crate::block_laws::{is_block_reading, law_block_strength, reads_blocks};
use crate::equations::is_chroma_fallback;
use crate::exact::is_exact;
use crate::fit_laws::{law_strengths_fit_best, misfit};
use crate::frame_laws::lemma_planes;
use crate::gain_laws::law_gain_is_no_loss;
use crate::kernels::Kernels;
use crate::measurement_laws::{law_measured_sums, num_measured};
use crate::measurements::{holds_measurements, LumaNoise};
use crate::merge_laws::{is_modelled, lemma_modelled};
use crate::model::{
    are_coefficients_found, are_strengths_found, causal_coords, is_channel_updated,
    is_chroma_channel, is_state_measured, is_state_observed, is_strength_updated, luma_noise,
    NoiseError, NoiseModel, NoiseStatus,
};
use crate::noise_laws::law_measured_blocks;
use crate::plane::{ChromaSubsampling, Frame, Plane};
use crate::recovery_laws::{is_laid_out_alike, reads_noise};
use crate::solution_laws::is_sound;
use crate::state::{is_gain_solved, NoiseModelState};
use crate::steps::state_of;
use crate::sum_laws::{law_observed_count, law_observed_sums, noise_sum, pixel_sum};
use crate::update::{all_flat_indices, is_observable, is_updated, plane_survey};
use crate::{NUM_UV_COEFFS, NUM_Y_COEFFS};
use vstd::prelude::*;

verus! {

/// What a chroma plane shares with the luma plane: its last coefficient says how much of the
/// luma noise, whose strength comes from the state of the luma plane.
pub open spec fn shared_with<'a, T>(
    luma: Option<&'a NoiseModelState<T>>,
    s: NoiseModelState<T>,
) -> Option<LumaNoise<'a, T>> {
    match luma {
        Some(y) => Some(
            LumaNoise { corr: s.eqns.x@[24], gain: y.ar_gain, solver: &y.strength_solver },
        ),
        None => None,
    }
}

/// Whether `ms` are the readings of the given blocks, and the strengths in the state fit them
/// best.
pub open spec fn are_fitted_to<T: Kernels>(
    source: Frame<u8>,
    denoised: Frame<u8>,
    channel: int,
    v: spec_fn(T) -> real,
    mean_at: spec_fn(Plane<u8>, int, int) -> real,
    spread: spec_fn(Plane<u8>, Plane<u8>, int, int, int, int) -> real,
    luma: Option<&NoiseModelState<T>>,
    indices: Seq<usize>,
    s: NoiseModelState<T>,
    ms: Seq<Option<(T, T)>>,
) -> bool {
    &&& ms.len() == indices.len()
    &&& forall|k: int|
        0 <= k < ms.len() ==> is_block_reading(
            source,
            denoised,
            channel,
            v,
            mean_at,
            spread,
            v(s.ar_gain),
            shared_with(luma, s),
            indices[k] as int,
            #[trigger] ms[k],
        )
    &&& s.strength_solver.num_equations == num_measured(ms, ms.len() as int)
    &&& num_measured(ms, ms.len() as int) >= 1 ==> forall|others: spec_fn(int) -> real|
        misfit(20, ms, v, |i: int| v(s.strength_solver.eqns.x@[i])) <= #[trigger] misfit(
            20,
            ms,
            v,
            others,
        )
}

/// What is measured in a plane.
proof fn lemma_channel_strengths<T: Kernels>(
    source: &Frame<u8>,
    denoised: &Frame<u8>,
    flat_blocks: &[u8],
    channel: int,
    luma: Option<&NoiseModelState<T>>,
    coords: Seq<[isize; 2]>,
    pre: NoiseModelState<T>,
    post: NoiseModelState<T>,
    v: spec_fn(T) -> real,
    mean_at: spec_fn(Plane<u8>, int, int) -> real,
    spread: spec_fn(Plane<u8>, Plane<u8>, int, int, int, int) -> real,
)
    requires
        is_exact(v),
        is_sound(v),
        reads_blocks(v, mean_at, spread),
        0 <= channel < 3,
        luma is Some <==> channel > 0,
        source.wf(),
        channel > 0 ==> source.u_plane is Some,
        source.y_plane.geometry.width + 31 <= usize::MAX,
        pre.strength_solver.num_bins == 20,
        forall|k: int|
            0 <= k < all_flat_indices(flat_blocks@).len() ==> 32 * (#[trigger] all_flat_indices(
                flat_blocks@,
            )[k] as int / ((source.y_plane.geometry.width + 31) / 32))
                <= source.y_plane.geometry.height,
        is_channel_updated(
            plane_survey(source, denoised, flat_blocks, channel),
            all_flat_indices(flat_blocks@),
            coords,
            24,
            channel,
            luma,
            pre,
            post,
            Ok(()),
        ),
    ensures
        exists|ms: Seq<Option<(T, T)>>|
            are_fitted_to(
                *source,
                *denoised,
                channel,
                v,
                mean_at,
                spread,
                luma,
                all_flat_indices(flat_blocks@),
                post,
                ms,
            ),
{
    let survey = plane_survey(source, denoised, flat_blocks, channel);
    let indices = all_flat_indices(flat_blocks@);
    let is_chroma = is_chroma_channel(channel);
    let r: Result<(), NoiseError> = Ok(());
    let (s1, s2, found) = choose|s1: NoiseModelState<T>, s2: NoiseModelState<T>, found: bool|
        {
            &&& is_state_observed(survey, indices, coords, 24, pre, s1)
            &&& #[trigger] are_coefficients_found(s1, is_chroma, s2, found)
            &&& if found {
                is_strength_updated(
                    survey,
                    indices,
                    luma_noise(channel, luma, s2, 24),
                    s2,
                    post,
                    r,
                )
            } else {
                post == s2 && r == Err::<(), NoiseError>(NoiseError::LatestSystemUnsolved)
            }
        };
    let (solved_state, solved) = choose|mid: NoiseModelState<T>, solved: bool|
        {
            &&& #[trigger] is_gain_solved(s1, is_chroma, mid, solved)
            &&& found == (solved || is_chroma)
            &&& if solved || !is_chroma {
                s2 == mid
            } else {
                &&& is_chroma_fallback(mid.eqns, s2.eqns)
                &&& s2.ar_gain == mid.ar_gain
                &&& s2.num_observations == mid.num_observations
                &&& s2.strength_solver == mid.strength_solver
            }
        };
    law_gain_is_no_loss(s1, is_chroma, solved_state, solved, v);
    let shared = luma_noise(channel, luma, s2, 24);
    let (mid, ok) = choose|mid: NoiseModelState<T>, ok: bool|
        {
            &&& is_state_measured(survey, indices, shared, s2, mid)
            &&& #[trigger] are_strengths_found(mid, post, ok)
            &&& r == if ok {
                Ok(())
            } else {
                Err(NoiseError::LatestStrengthUnsolved)
            }
        };
    assert(shared == shared_with(luma, post));
    let k = indices.len() as int;
    law_measured_blocks(survey, indices, s2.ar_gain, shared, 20, k, mid.strength_solver);
    let ms = choose|ms: Seq<Option<(T, T)>>|
        {
            &&& ms.len() == k
            &&& survey.are_measurements(indices, s2.ar_gain, shared, ms)
            &&& #[trigger] holds_measurements(20, ms, k, mid.strength_solver)
        };
    assert forall|i: int| 0 <= i < ms.len() implies is_block_reading(
        *source,
        *denoised,
        channel,
        v,
        mean_at,
        spread,
        v(post.ar_gain),
        shared_with(luma, post),
        indices[i] as int,
        #[trigger] ms[i],
    ) by {
        law_block_strength(
            source,
            denoised,
            flat_blocks,
            channel,
            v,
            mean_at,
            spread,
            s2.ar_gain,
            shared,
            indices[i] as int,
            ms[i],
        );
    }
    law_measured_sums(20, ms, k, mid.strength_solver, v);
    if num_measured(ms, k) >= 1 {
        assert forall|others: spec_fn(int) -> real|
            misfit(20, ms, v, |i: int| v(post.strength_solver.eqns.x@[i])) <= #[trigger] misfit(
            20,
            ms,
            v,
            others,
        ) by {
            law_strengths_fit_best(
                20,
                ms,
                mid.strength_solver,
                post.strength_solver,
                v,
                others,
            );
        }
    }
    assert(are_fitted_to(
        *source,
        *denoised,
        channel,
        v,
        mean_at,
        spread,
        luma,
        indices,
        post,
        ms,
    ));
}

/// After a frame has been taken in, or found to be different, the latest strengths of each
/// plane are those that fit the readings of the flat blocks of this plane best. In a chroma
/// plane, what it shares with the luma plane of the same frame is left out of the readings.
pub proof fn law_frame_shows_its_strengths<'a, T: Kernels>(
    pre: NoiseModel<T>,
    source: &'a Frame<u8>,
    denoised: &'a Frame<u8>,
    flat_blocks: &'a [u8],
    post: NoiseModel<T>,
    status: NoiseStatus,
    v: spec_fn(T) -> real,
    mean_at: spec_fn(Plane<u8>, int, int) -> real,
    spread: spec_fn(Plane<u8>, Plane<u8>, int, int, int, int) -> real,
)
    requires
        is_exact(v),
        is_sound(v),
        reads_blocks(v, mean_at, spread),
        pre.wf(),
        source.y_plane.geometry.width + 31 <= usize::MAX,
        is_observable(source, denoised, flat_blocks),
        is_updated(pre, source, denoised, flat_blocks, post, status),
        status == NoiseStatus::Updated || status == NoiseStatus::DifferentType,
    ensures
        exists|ms: Seq<Option<(T, T)>>|
            are_fitted_to(
                *source,
                *denoised,
                0,
                v,
                mean_at,
                spread,
                None,
                all_flat_indices(flat_blocks@),
                post.latest_state.y,
                ms,
            ),
        source.subsampling != ChromaSubsampling::Monochrome ==> {
            &&& exists|ms: Seq<Option<(T, T)>>|
                are_fitted_to(
                    *source,
                    *denoised,
                    1,
                    v,
                    mean_at,
                    spread,
                    Some(&post.latest_state.y),
                    all_flat_indices(flat_blocks@),
                    post.latest_state.cb,
                    ms,
                )
            &&& exists|ms: Seq<Option<(T, T)>>|
                are_fitted_to(
                    *source,
                    *denoised,
                    2,
                    v,
                    mean_at,
                    spread,
                    Some(&post.latest_state.y),
                    all_flat_indices(flat_blocks@),
                    post.latest_state.cr,
                    ms,
                )
        },
{
    let indices = all_flat_indices(flat_blocks@);
    let s = post.latest_state;
    assert(indices.len() > 1);
    let (cleared, luma, rb, rr) = lemma_planes(pre, source, denoised, flat_blocks, post, status);
    let survey = plane_survey(source, denoised, flat_blocks, 0);
    assert(survey.wf(indices));
    assert forall|k: int| 0 <= k < indices.len() implies 32 * (#[trigger] indices[k] as int / ((
    source.y_plane.geometry.width + 31) / 32)) <= source.y_plane.geometry.height by {
        assert(survey.is_readable(indices[k] as int));
    }
    lemma_channel_strengths(
        source,
        denoised,
        flat_blocks,
        0,
        None,
        pre.coords@,
        cleared.y,
        s.y,
        v,
        mean_at,
        spread,
    );
    if source.subsampling != ChromaSubsampling::Monochrome {
        lemma_channel_strengths(
            source,
            denoised,
            flat_blocks,
            1,
            Some(&s.y),
            pre.coords@,
            cleared.cb,
            s.cb,
            v,
            mean_at,
            spread,
        );
        lemma_channel_strengths(
            source,
            denoised,
            flat_blocks,
            2,
            Some(&s.y),
            pre.coords@,
            cleared.cr,
            s.cr,
            v,
            mean_at,
            spread,
        );
    }
}

/// What is found in a plane.
proof fn lemma_channel_model<T: Kernels>(
    source: &Frame<u8>,
    denoised: &Frame<u8>,
    flat_blocks: &[u8],
    channel: int,
    luma: Option<&NoiseModelState<T>>,
    pre: NoiseModelState<T>,
    post: NoiseModelState<T>,
    v: spec_fn(T) -> real,
)
    requires
        is_exact(v),
        is_sound(v),
        reads_noise(v),
        0 <= channel < 3,
        is_laid_out_alike(*source, *denoised, channel),
        plane_survey(source, denoised, flat_blocks, channel).wf(all_flat_indices(flat_blocks@)),
        pre.eqns.n == if channel == 0 {
            NUM_Y_COEFFS
        } else {
            NUM_UV_COEFFS
        },
        is_channel_updated(
            plane_survey(source, denoised, flat_blocks, channel),
            all_flat_indices(flat_blocks@),
            causal_coords(),
            NUM_Y_COEFFS,
            channel,
            luma,
            pre,
            post,
            Ok(()),
        ),
    ensures
        is_modelled(post, v, channel > 0),
        holds_noise(source, denoised, flat_blocks, channel, v, post),
{
    let survey = plane_survey(source, denoised, flat_blocks, channel);
    let indices = all_flat_indices(flat_blocks@);
    let is_chroma = is_chroma_channel(channel);
    let r: Result<(), NoiseError> = Ok(());
    let (s1, s2, found) = choose|s1: NoiseModelState<T>, s2: NoiseModelState<T>, found: bool|
        {
            &&& is_state_observed(survey, indices, causal_coords(), NUM_Y_COEFFS, pre, s1)
            &&& #[trigger] are_coefficients_found(s1, is_chroma, s2, found)
            &&& if found {
                is_strength_updated(
                    survey,
                    indices,
                    luma_noise(channel, luma, s2, NUM_Y_COEFFS),
                    s2,
                    post,
                    r,
                )
            } else {
                post == s2 && r == Err::<(), NoiseError>(NoiseError::LatestSystemUnsolved)
            }
        };
    lemma_modelled(s1, is_chroma, s2, found, v);
    assert(post.eqns == s2.eqns);
    assert(post.ar_gain == s2.ar_gain);
    assert(post.num_observations == s2.num_observations);
    assert(is_modelled(s2, v, is_chroma));
    assert(is_modelled(post, v, is_chroma)) by {
        let x = |k: int| v(s2.eqns.x@[k]);
        let y = |k: int| v(post.eqns.x@[k]);
        assert(x =~= y);
    }
    law_observed_count(survey, indices, causal_coords(), NUM_Y_COEFFS, pre, s1);
    assert forall|i: int, j: int| 0 <= i <= j < post.eqns.n implies v(
        #[trigger] post.eqns.entry(i, j),
    ) == noise_sum(*source, *denoised, channel, survey, indices, i, j, indices.len() as int) / (
    255real * 255real) by {
        law_observed_sums(source, denoised, flat_blocks, indices, channel, v, pre, s1, i, j);
        assert(post.eqns.entry(i, j) == s1.eqns.entry(i, j));
    }
    assert forall|i: int| 0 <= i < post.eqns.n implies v(#[trigger] post.eqns.b@[i]) == noise_sum(
        *source,
        *denoised,
        channel,
        survey,
        indices,
        i,
        -1,
        indices.len() as int,
    ) / (255real * 255real) by {
        law_observed_sums(source, denoised, flat_blocks, indices, channel, v, pre, s1, i, i);
    }
}

/// Whether the equations of a state add up the products of the noise that is looked at from
/// the observed pixels of the flat blocks, and the number of those pixels is kept.
pub open spec fn holds_noise<T>(
    source: &Frame<u8>,
    denoised: &Frame<u8>,
    flat_blocks: &[u8],
    channel: int,
    v: spec_fn(T) -> real,
    s: NoiseModelState<T>,
) -> bool {
    let survey = plane_survey(source, denoised, flat_blocks, channel);
    let indices = all_flat_indices(flat_blocks@);
    let k = indices.len() as int;
    &&& s.num_observations as real == pixel_sum(survey, indices, k)
    &&& forall|i: int, j: int|
        0 <= i <= j < s.eqns.n ==> v(#[trigger] s.eqns.entry(i, j)) == noise_sum(
            *source,
            *denoised,
            channel,
            survey,
            indices,
            i,
            j,
            k,
        ) / (255real * 255real)
    &&& forall|i: int|
        0 <= i < s.eqns.n ==> v(#[trigger] s.eqns.b@[i]) == noise_sum(
            *source,
            *denoised,
            channel,
            survey,
            indices,
            i,
            -1,
            k,
        ) / (255real * 255real)
}

/// After a frame has been taken in, or found to be different, the latest state of each plane
/// holds the noise that was observed in it, and models it.
pub proof fn law_frame_is_modelled<'a, T: Kernels>(
    pre: NoiseModel<T>,
    source: &'a Frame<u8>,
    denoised: &'a Frame<u8>,
    flat_blocks: &'a [u8],
    post: NoiseModel<T>,
    status: NoiseStatus,
    v: spec_fn(T) -> real,
    channel: int,
)
    requires
        is_exact(v),
        is_sound(v),
        reads_noise(v),
        pre.wf(),
        is_observable(source, denoised, flat_blocks),
        is_updated(pre, source, denoised, flat_blocks, post, status),
        status == NoiseStatus::Updated || status == NoiseStatus::DifferentType,
        channel == 0 || (1 <= channel <= 2 && source.subsampling != ChromaSubsampling::Monochrome),
        is_laid_out_alike(*source, *denoised, channel),
    ensures
        is_modelled(state_of(post.latest_state, channel), v, channel > 0),
        holds_noise(
            source,
            denoised,
            flat_blocks,
            channel,
            v,
            state_of(post.latest_state, channel),
        ),
{
    let s = post.latest_state;
    assert(all_flat_indices(flat_blocks@).len() > 1);
    let (cleared, luma, rb, rr) = lemma_planes(pre, source, denoised, flat_blocks, post, status);
    if channel == 0 {
        lemma_channel_model(source, denoised, flat_blocks, 0, None, cleared.y, s.y, v);
    } else if channel == 1 {
        lemma_channel_model(source, denoised, flat_blocks, 1, Some(&s.y), cleared.cb, s.cb, v);
    } else {
        lemma_channel_model(source, denoised, flat_blocks, 2, Some(&s.y), cleared.cr, s.cr, v);
    }
}

} // verus!
