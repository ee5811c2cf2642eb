//! What taking in a frame shows of its noise, if the number type calculates exactly and the
//! noise is read as it is.
use crate::equations::is_chroma_fallback;
use crate::exact::is_exact;
use crate::kernels::Kernels;
use crate::model::{
    are_coefficients_found, causal_coords, is_channel_updated, is_chroma_channel,
    is_state_observed, is_strength_updated, luma_noise,
    ChannelStates, NoiseError, NoiseModel, NoiseStatus,
};
use crate::plane::{ChromaSubsampling, Frame};
use crate::recovery_laws::{
    follows_model, is_laid_out_alike, is_solved_by, law_model_is_recovered, reads_noise,
};
use crate::solution_laws::product;
use crate::state::{is_gain_solved, NoiseModelState};
use crate::update::{
    all_flat_indices, are_combined, are_states_cleared, chroma_survey, first_error,
    is_chroma_updated, is_frame_taken_in, is_latest_updated, is_observable, is_updated, luma_survey,
    plane_survey, status_of,
};
use crate::{NUM_UV_COEFFS, NUM_Y_COEFFS};
use vstd::prelude::*;

verus! {

/// The equations that were observed are kept when they are solved.
proof fn lemma_channel<T: Kernels>(
    source: &Frame<u8>,
    denoised: &Frame<u8>,
    flat_blocks: &[u8],
    channel: int,
    luma: Option<&NoiseModelState<T>>,
    pre: NoiseModelState<T>,
    post: NoiseModelState<T>,
    r: Result<(), NoiseError>,
    v: spec_fn(T) -> real,
    w: spec_fn(int) -> real,
)
    requires
        is_exact(v),
        reads_noise(v),
        0 <= channel < 3,
        is_laid_out_alike(*source, *denoised, channel),
        plane_survey(source, denoised, flat_blocks, channel).wf(all_flat_indices(flat_blocks@)),
        pre.eqns.n == if channel == 0 {
            NUM_Y_COEFFS
        } else {
            NUM_UV_COEFFS
        },
        is_channel_updated(
            plane_survey(source, denoised, flat_blocks, channel),
            all_flat_indices(flat_blocks@),
            causal_coords(),
            NUM_Y_COEFFS,
            channel,
            luma,
            pre,
            post,
            r,
        ),
        follows_model(*source, *denoised, channel, w),
    ensures
        is_solved_by(post.eqns, v, w),
{
    let survey = plane_survey(source, denoised, flat_blocks, channel);
    let indices = all_flat_indices(flat_blocks@);
    let is_chroma = is_chroma_channel(channel);
    let (s1, s2, found) = choose|s1: NoiseModelState<T>, s2: NoiseModelState<T>, found: bool|
        {
            &&& is_state_observed(survey, indices, causal_coords(), NUM_Y_COEFFS, pre, s1)
            &&& #[trigger] are_coefficients_found(s1, is_chroma, s2, found)
            &&& if found {
                is_strength_updated(
                    survey,
                    indices,
                    luma_noise(channel, luma, s2, NUM_Y_COEFFS),
                    s2,
                    post,
                    r,
                )
            } else {
                post == s2 && r == Err::<(), NoiseError>(NoiseError::LatestSystemUnsolved)
            }
        };
    law_model_is_recovered(source, denoised, flat_blocks, indices, channel, v, w, pre, s1);
    let (mid, solved) = choose|mid: NoiseModelState<T>, solved: bool|
        {
            &&& #[trigger] is_gain_solved(s1, is_chroma, mid, solved)
            &&& found == (solved || is_chroma)
            &&& if solved || !is_chroma {
                s2 == mid
            } else {
                &&& is_chroma_fallback(mid.eqns, s2.eqns)
                &&& s2.ar_gain == mid.ar_gain
                &&& s2.num_observations == mid.num_observations
                &&& s2.strength_solver == mid.strength_solver
            }
        };
    assert(s2.eqns.a@ == s1.eqns.a@ && s2.eqns.b@ == s1.eqns.b@ && s2.eqns.n == s1.eqns.n);
    assert(s2.eqns.wf());
    if found {
        assert(post.eqns == s2.eqns);
    }
    let n = s1.eqns.n as int;
    assert forall|i: int| 0 <= i < n implies product(post.eqns.a@, n, v, w, i, n) == v(
        #[trigger] post.eqns.b@[i],
    ) by {
        assert(product(s1.eqns.a@, n, v, w, i, n) == v(s1.eqns.b@[i]));
    }
}

/// What became of the planes of a frame.
pub(crate) proof fn lemma_planes<'a, T: Kernels>(
    pre: NoiseModel<T>,
    source: &'a Frame<u8>,
    denoised: &'a Frame<u8>,
    flat_blocks: &'a [u8],
    post: NoiseModel<T>,
    status: NoiseStatus,
) -> (steps: (
    ChannelStates<T>,
    Result<(), NoiseError>,
    Result<(), NoiseError>,
    Result<(), NoiseError>,
))
    requires
        all_flat_indices(flat_blocks@).len() > 1,
        is_updated(pre, source, denoised, flat_blocks, post, status),
    ensures
        are_states_cleared(pre.latest_state, steps.0),
        is_channel_updated(
            plane_survey(source, denoised, flat_blocks, 0),
            all_flat_indices(flat_blocks@),
            pre.coords@,
            pre.n,
            0,
            None,
            steps.0.y,
            post.latest_state.y,
            steps.1,
        ),
        status == NoiseStatus::Updated || status == NoiseStatus::DifferentType ==> {
            &&& steps.1 is Ok
            &&& are_combined(
                pre.combined_state,
                post.latest_state,
                source.subsampling == ChromaSubsampling::Monochrome,
                post.combined_state,
                status,
            )
        },
        source.subsampling != ChromaSubsampling::Monochrome && (status == NoiseStatus::Updated
            || status == NoiseStatus::DifferentType) ==> {
            &&& steps.2 is Ok
            &&& steps.3 is Ok
            &&& is_channel_updated(
                plane_survey(source, denoised, flat_blocks, 1),
                all_flat_indices(flat_blocks@),
                pre.coords@,
                pre.n,
                1,
                Some(&post.latest_state.y),
                steps.0.cb,
                post.latest_state.cb,
                steps.2,
            )
            &&& is_channel_updated(
                plane_survey(source, denoised, flat_blocks, 2),
                all_flat_indices(flat_blocks@),
                pre.coords@,
                pre.n,
                2,
                Some(&post.latest_state.y),
                steps.0.cr,
                post.latest_state.cr,
                steps.3,
            )
        },
{
    let indices = all_flat_indices(flat_blocks@);
    let monochrome = source.subsampling == ChromaSubsampling::Monochrome;
    let cleared = choose|cleared: ChannelStates<T>|
        {
            &&& #[trigger] are_states_cleared(pre.latest_state, cleared)
            &&& is_frame_taken_in(pre, source, denoised, flat_blocks, cleared, post, status)
        };
    let r = choose|r: Result<(), NoiseError>|
        {
            &&& #[trigger] is_latest_updated(
                pre.coords@,
                pre.n,
                source,
                denoised,
                flat_blocks,
                cleared,
                post.latest_state,
                r,
            )
            &&& if r is Err {
                post.combined_state == pre.combined_state && status == status_of(r)
            } else {
                are_combined(
                    pre.combined_state,
                    post.latest_state,
                    monochrome,
                    post.combined_state,
                    status,
                )
            }
        };
    let s = post.latest_state;
    let luma = choose|luma: Result<(), NoiseError>|
        {
            &&& #[trigger] is_channel_updated(
                luma_survey(source, denoised, flat_blocks),
                indices,
                pre.coords@,
                pre.n,
                0,
                None,
                cleared.y,
                s.y,
                luma,
            )
            &&& if luma is Err || monochrome {
                r == luma && s.cb == cleared.cb && s.cr == cleared.cr
            } else {
                is_chroma_updated(
                    pre.coords@,
                    pre.n,
                    source,
                    denoised,
                    flat_blocks,
                    cleared,
                    s,
                    r,
                )
            }
        };
    if !monochrome && (status == NoiseStatus::Updated || status == NoiseStatus::DifferentType) {
        assert(r is Ok);
        assert(luma is Ok);
        let (rb, rr) = choose|rb: Result<(), NoiseError>, rr: Result<(), NoiseError>|
            {
                &&& #[trigger] is_channel_updated(
                    chroma_survey(
                        source,
                        denoised,
                        &source.u_plane->0,
                        &denoised.u_plane->0,
                        flat_blocks,
                    ),
                    indices,
                    pre.coords@,
                    pre.n,
                    1,
                    Some(&s.y),
                    cleared.cb,
                    s.cb,
                    rb,
                )
                &&& #[trigger] is_channel_updated(
                    chroma_survey(
                        source,
                        denoised,
                        &source.v_plane->0,
                        &denoised.v_plane->0,
                        flat_blocks,
                    ),
                    indices,
                    pre.coords@,
                    pre.n,
                    2,
                    Some(&s.y),
                    cleared.cr,
                    s.cr,
                    rr,
                )
                &&& r == first_error(rb, rr)
            };
        (cleared, luma, rb, rr)
    } else {
        if status == NoiseStatus::Updated || status == NoiseStatus::DifferentType {
            assert(r is Ok);
            assert(luma is Ok);
        }
        (cleared, luma, luma, luma)
    }
}

/// After a frame has been taken in, the equations for its planes are solved by the models that
/// the noise in them follows: those for the luma plane in any case, and those for the chroma
/// planes if the luma plane could be updated. Each plane of the source is held against the
/// same plane of the denoised frame, and chroma against luma.
pub proof fn law_frame_shows_its_models<'a, T: Kernels>(
    pre: NoiseModel<T>,
    source: &'a Frame<u8>,
    denoised: &'a Frame<u8>,
    flat_blocks: &'a [u8],
    post: NoiseModel<T>,
    status: NoiseStatus,
    v: spec_fn(T) -> real,
    y: spec_fn(int) -> real,
    cb: spec_fn(int) -> real,
    cr: spec_fn(int) -> real,
)
    requires
        is_exact(v),
        reads_noise(v),
        pre.wf(),
        all_flat_indices(flat_blocks@).len() > 1,
        is_observable(source, denoised, flat_blocks),
        is_laid_out_alike(*source, *denoised, 0),
        is_updated(pre, source, denoised, flat_blocks, post, status),
        follows_model(*source, *denoised, 0, y),
    ensures
        is_solved_by(post.latest_state.y.eqns, v, y),
        source.subsampling != ChromaSubsampling::Monochrome && (status == NoiseStatus::Updated
            || status == NoiseStatus::DifferentType) ==> {
            &&& is_laid_out_alike(*source, *denoised, 1) && follows_model(*source, *denoised, 1, cb)
                ==> is_solved_by(post.latest_state.cb.eqns, v, cb)
            &&& is_laid_out_alike(*source, *denoised, 2) && follows_model(*source, *denoised, 2, cr)
                ==> is_solved_by(post.latest_state.cr.eqns, v, cr)
        },
{
    let monochrome = source.subsampling == ChromaSubsampling::Monochrome;
    let s = post.latest_state;
    let (cleared, luma, rb, rr) = lemma_planes(pre, source, denoised, flat_blocks, post, status);
    lemma_channel(
        source,
        denoised,
        flat_blocks,
        0,
        None,
        cleared.y,
        s.y,
        luma,
        v,
        y,
    );
    if !monochrome && (status == NoiseStatus::Updated || status == NoiseStatus::DifferentType) {
        let luma_state = Some(&s.y);
        if is_laid_out_alike(*source, *denoised, 1) && follows_model(*source, *denoised, 1, cb) {
            lemma_channel(
                source,
                denoised,
                flat_blocks,
                1,
                luma_state,
                cleared.cb,
                s.cb,
                rb,
                v,
                cb,
            );
        }
        if is_laid_out_alike(*source, *denoised, 2) && follows_model(*source, *denoised, 2, cr) {
            lemma_channel(
                source,
                denoised,
                flat_blocks,
                2,
                luma_state,
                cleared.cr,
                s.cr,
                rr,
                v,
                cr,
            );
        }
    }
}

} // verus!
