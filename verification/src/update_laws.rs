//! What holds of every update of the noise model.
use crate::kernels::Kernels;
use crate::model::{
    are_blank, are_coefficients_found, is_channel_updated, is_chroma_channel, is_state_observed, is_strength_updated, luma_noise, ChannelStates, NoiseError, NoiseModel,
    NoiseStatus,
};
use crate::observations::ChannelSurvey;
use crate::plane::{ChromaSubsampling, Frame};
use crate::state::{differs, weighted_distances, NoiseModelState};
use crate::update::{
    all_flat_indices, are_combined, are_merged, are_observations_added,
    are_states_cleared, chroma_survey, first_error, is_chroma_merged, is_chroma_updated,
    is_frame_taken_in, is_latest_updated, is_merged, is_state_saved, is_strength_merged, is_updated, luma_survey,
    status_of,
};
use vstd::prelude::*;

verus! {

/// Whether the error comes from the state of the latest frame.
pub open spec fn is_latest_error(e: NoiseError) -> bool {
    e == NoiseError::LatestSystemUnsolved || e == NoiseError::LatestStrengthUnsolved
}

/// Whether the error comes from the combined state.
pub open spec fn is_combined_error(e: NoiseError) -> bool {
    e == NoiseError::CombinedSystemUnsolved || e == NoiseError::CombinedStrengthUnsolved
}

/// Updating the latest state of a plane can only fail to solve one of its two systems. For
/// a chroma plane the first of them cannot fail, since there is a fallback.
pub proof fn law_channel_errors<T: Kernels>(
    survey: ChannelSurvey,
    indices: Seq<usize>,
    coords: Seq<[isize; 2]>,
    num_coords: usize,
    channel: int,
    luma: Option<&NoiseModelState<T>>,
    pre: NoiseModelState<T>,
    post: NoiseModelState<T>,
    r: Result<(), NoiseError>,
)
    requires
        is_channel_updated(
            survey,
            indices,
            coords,
            num_coords,
            channel,
            luma,
            pre,
            post,
            r,
        ),
    ensures
        r matches Err(e) ==> is_latest_error(e),
        channel > 0 ==> r != Err::<(), NoiseError>(NoiseError::LatestSystemUnsolved),
        post.num_observations == survey.num_observations(indices, 0, indices.len() as int),
{
    let (s1, s2, found) = choose|s1: NoiseModelState<T>, s2: NoiseModelState<T>, found: bool|
        {
            &&& is_state_observed(survey, indices, coords, num_coords, pre, s1)
            &&& #[trigger] are_coefficients_found(s1, is_chroma_channel(channel), s2, found)
            &&& if found {
                is_strength_updated(
                    survey,
                    indices,
                    luma_noise(channel, luma, s2, num_coords),
                    s2,
                    post,
                    r,
                )
            } else {
                post == s2 && r == Err::<(), NoiseError>(NoiseError::LatestSystemUnsolved)
            }
        };
    assert(s2.num_observations == s1.num_observations);
}

/// Adding the latest state of a plane to the combined one adds up the numbers of
/// observations, and of measurements too unless it fails before. It can only fail to solve
/// one of the two systems; for a chroma plane the first of them cannot fail.
pub proof fn law_merge<T: Kernels>(
    pre: NoiseModelState<T>,
    latest: NoiseModelState<T>,
    is_chroma: bool,
    post: NoiseModelState<T>,
    r: Result<(), NoiseError>,
)
    requires
        is_merged(pre, latest, is_chroma, post, r),
    ensures
        r matches Err(e) ==> is_combined_error(e),
        is_chroma ==> r != Err::<(), NoiseError>(NoiseError::CombinedSystemUnsolved),
        post.num_observations == pre.num_observations + latest.num_observations,
        r is Ok ==> post.strength_solver.num_equations == pre.strength_solver.num_equations
            + latest.strength_solver.num_equations,
{
    let (s1, s2, found) = choose|s1: NoiseModelState<T>, s2: NoiseModelState<T>, found: bool|
        {
            &&& are_observations_added(pre, latest, s1)
            &&& #[trigger] are_coefficients_found(s1, is_chroma, s2, found)
            &&& if found {
                is_strength_merged(s2, latest, post, r)
            } else {
                post == s2 && r == Err::<(), NoiseError>(NoiseError::CombinedSystemUnsolved)
            }
        };
    assert(s2.num_observations == s1.num_observations);
    assert(s2.strength_solver == s1.strength_solver);
}

/// An error in the latest states is one of their own.
proof fn lemma_latest_errors<'a, T: Kernels>(
    coords: Seq<[isize; 2]>,
    num_coords: usize,
    source: &'a Frame<u8>,
    denoised: &'a Frame<u8>,
    flat_blocks: &'a [u8],
    pre: ChannelStates<T>,
    post: ChannelStates<T>,
    r: Result<(), NoiseError>,
)
    requires
        is_latest_updated(coords, num_coords, source, denoised, flat_blocks, pre, post, r),
    ensures
        r matches Err(e) ==> is_latest_error(e),
{
    let indices = all_flat_indices(flat_blocks@);
    let survey = luma_survey(source, denoised, flat_blocks);
    let luma = choose|luma: Result<(), NoiseError>|
        {
            &&& #[trigger] is_channel_updated(
                survey,
                indices,
                coords,
                num_coords,
                0,
                None,
                pre.y,
                post.y,
                luma,
            )
            &&& if luma is Err || source.subsampling == ChromaSubsampling::Monochrome {
                r == luma && post.cb == pre.cb && post.cr == pre.cr
            } else {
                is_chroma_updated(coords, num_coords, source, denoised, flat_blocks, pre, post, r)
            }
        };
    law_channel_errors(survey, indices, coords, num_coords, 0, None, pre.y, post.y, luma);
    if !(luma is Err || source.subsampling == ChromaSubsampling::Monochrome) {
        let u = chroma_survey(
            source,
            denoised,
            &source.u_plane->0,
            &denoised.u_plane->0,
            flat_blocks,
        );
        let v = chroma_survey(
            source,
            denoised,
            &source.v_plane->0,
            &denoised.v_plane->0,
            flat_blocks,
        );
        let y = Some(&post.y);
        let (cb, cr) = choose|cb: Result<(), NoiseError>, cr: Result<(), NoiseError>|
            {
                &&& #[trigger] is_channel_updated(
                    u,
                    indices,
                    coords,
                    num_coords,
                    1,
                    y,
                    pre.cb,
                    post.cb,
                    cb,
                )
                &&& #[trigger] is_channel_updated(
                    v,
                    indices,
                    coords,
                    num_coords,
                    2,
                    y,
                    pre.cr,
                    post.cr,
                    cr,
                )
                &&& r == first_error(cb, cr)
            };
        law_channel_errors(u, indices, coords, num_coords, 1, y, pre.cb, post.cb, cb);
        law_channel_errors(v, indices, coords, num_coords, 2, y, pre.cr, post.cr, cr);
    }
}

/// What adding up the states of all planes does.
proof fn lemma_merged<T: Kernels>(
    pre: ChannelStates<T>,
    latest: ChannelStates<T>,
    monochrome: bool,
    post: ChannelStates<T>,
    r: Result<(), NoiseError>,
)
    requires
        are_merged(pre, latest, monochrome, post, r),
    ensures
        r matches Err(e) ==> is_combined_error(e),
        monochrome ==> post.cb == pre.cb && post.cr == pre.cr,
        r is Ok ==> is_added(pre.y, latest.y, post.y),
        r is Ok && !monochrome ==> is_added(pre.cb, latest.cb, post.cb) && is_added(
            pre.cr,
            latest.cr,
            post.cr,
        ),
{
    let luma = choose|luma: Result<(), NoiseError>|
        {
            &&& #[trigger] is_merged(pre.y, latest.y, false, post.y, luma)
            &&& if luma is Err || monochrome {
                r == luma && post.cb == pre.cb && post.cr == pre.cr
            } else {
                is_chroma_merged(pre, latest, post, r)
            }
        };
    law_merge(pre.y, latest.y, false, post.y, luma);
    if !(luma is Err || monochrome) {
        let cb = choose|cb: Result<(), NoiseError>|
            {
                &&& #[trigger] is_merged(pre.cb, latest.cb, true, post.cb, cb)
                &&& if cb is Err {
                    r == cb && post.cr == pre.cr
                } else {
                    is_merged(pre.cr, latest.cr, true, post.cr, r)
                }
            };
        law_merge(pre.cb, latest.cb, true, post.cb, cb);
        if cb is Ok {
            law_merge(pre.cr, latest.cr, true, post.cr, r);
        }
    }
}

/// Whether the observations and measurements of `post` number those of both other states.
pub open spec fn is_added<T>(
    pre: NoiseModelState<T>,
    latest: NoiseModelState<T>,
    post: NoiseModelState<T>,
) -> bool {
    &&& post.num_observations == pre.num_observations + latest.num_observations
    &&& post.strength_solver.num_equations == pre.strength_solver.num_equations
        + latest.strength_solver.num_equations
}

/// A frame is refused for want of flat blocks exactly if it has less than two. The latest
/// states are then cleared.
pub proof fn law_refused_frame<'a, T: Kernels>(
    pre: NoiseModel<T>,
    source: &'a Frame<u8>,
    denoised: &'a Frame<u8>,
    flat_blocks: &'a [u8],
    post: NoiseModel<T>,
    status: NoiseStatus,
)
    requires
        is_updated(pre, source, denoised, flat_blocks, post, status),
    ensures
        status == NoiseStatus::Error(NoiseError::NotEnoughFlatBlocks) <==> all_flat_indices(
            flat_blocks@,
        ).len() <= 1,
        status == NoiseStatus::Error(NoiseError::NotEnoughFlatBlocks) ==> are_states_cleared(
            pre.latest_state,
            post.latest_state,
        ),
{
    lemma_update_cases(pre, source, denoised, flat_blocks, post, status);
}

/// The combined states change only if the frame is taken in, or if it is the combined
/// systems that cannot be solved.
pub proof fn law_combined_is_kept<'a, T: Kernels>(
    pre: NoiseModel<T>,
    source: &'a Frame<u8>,
    denoised: &'a Frame<u8>,
    flat_blocks: &'a [u8],
    post: NoiseModel<T>,
    status: NoiseStatus,
)
    requires
        is_updated(pre, source, denoised, flat_blocks, post, status),
    ensures
        post.combined_state == pre.combined_state || status == NoiseStatus::Updated || (status
            matches NoiseStatus::Error(e) && is_combined_error(e)),
{
    lemma_update_cases(pre, source, denoised, flat_blocks, post, status);
}

/// The noise of a frame is called different only if something is known of the noise of
/// other frames, and the comparison with it says so. It is never called different by a
/// model that has not seen any other frame.
pub proof fn law_different_type<'a, T: Kernels>(
    pre: NoiseModel<T>,
    source: &'a Frame<u8>,
    denoised: &'a Frame<u8>,
    flat_blocks: &'a [u8],
    post: NoiseModel<T>,
    status: NoiseStatus,
)
    requires
        is_updated(pre, source, denoised, flat_blocks, post, status),
    ensures
        status == NoiseStatus::DifferentType ==> {
            &&& pre.combined_state.y.strength_solver.num_equations > 0
            &&& differs(post.latest_state.y, pre.combined_state.y, true)
            &&& post.combined_state == pre.combined_state
        },
        are_blank(pre.combined_state) ==> status != NoiseStatus::DifferentType,
{
    lemma_update_cases(pre, source, denoised, flat_blocks, post, status);
}

/// When a frame is taken in, its observations and measurements are counted in.
pub proof fn law_taken_in<'a, T: Kernels>(
    pre: NoiseModel<T>,
    source: &'a Frame<u8>,
    denoised: &'a Frame<u8>,
    flat_blocks: &'a [u8],
    post: NoiseModel<T>,
    status: NoiseStatus,
)
    requires
        is_updated(pre, source, denoised, flat_blocks, post, status),
        status == NoiseStatus::Updated,
    ensures
        is_added(pre.combined_state.y, post.latest_state.y, post.combined_state.y),
        source.subsampling != ChromaSubsampling::Monochrome ==> {
            &&& is_added(pre.combined_state.cb, post.latest_state.cb, post.combined_state.cb)
            &&& is_added(pre.combined_state.cr, post.latest_state.cr, post.combined_state.cr)
        },
{
    lemma_update_cases(pre, source, denoised, flat_blocks, post, status);
}

/// A monochrome frame leaves the combined chroma states as they were.
pub proof fn law_monochrome<'a, T: Kernels>(
    pre: NoiseModel<T>,
    source: &'a Frame<u8>,
    denoised: &'a Frame<u8>,
    flat_blocks: &'a [u8],
    post: NoiseModel<T>,
    status: NoiseStatus,
)
    requires
        is_updated(pre, source, denoised, flat_blocks, post, status),
        source.subsampling == ChromaSubsampling::Monochrome,
    ensures
        post.combined_state.cb == pre.combined_state.cb,
        post.combined_state.cr == pre.combined_state.cr,
{
    lemma_update_cases(pre, source, denoised, flat_blocks, post, status);
}

/// The ways in which an update can end.
proof fn lemma_update_cases<'a, T: Kernels>(
    pre: NoiseModel<T>,
    source: &'a Frame<u8>,
    denoised: &'a Frame<u8>,
    flat_blocks: &'a [u8],
    post: NoiseModel<T>,
    status: NoiseStatus,
)
    requires
        is_updated(pre, source, denoised, flat_blocks, post, status),
    ensures
        all_flat_indices(flat_blocks@).len() <= 1 ==> {
            &&& status == NoiseStatus::Error(NoiseError::NotEnoughFlatBlocks)
            &&& post.combined_state == pre.combined_state
            &&& are_states_cleared(pre.latest_state, post.latest_state)
        },
        all_flat_indices(flat_blocks@).len() > 1 ==> {
            ||| status matches NoiseStatus::Error(e) && is_latest_error(e) && post.combined_state
                == pre.combined_state
            ||| {
                &&& status == NoiseStatus::DifferentType
                &&& pre.combined_state.y.strength_solver.num_equations > 0
                &&& differs(post.latest_state.y, pre.combined_state.y, true)
                &&& post.combined_state == pre.combined_state
            }
            ||| {
                &&& status == NoiseStatus::Updated
                &&& is_added(pre.combined_state.y, post.latest_state.y, post.combined_state.y)
                &&& source.subsampling == ChromaSubsampling::Monochrome || {
                    &&& is_added(pre.combined_state.cb, post.latest_state.cb, post.combined_state.cb)
                    &&& is_added(pre.combined_state.cr, post.latest_state.cr, post.combined_state.cr)
                }
            }
            ||| status matches NoiseStatus::Error(e) && is_combined_error(e)
        },
        source.subsampling == ChromaSubsampling::Monochrome ==> post.combined_state.cb
            == pre.combined_state.cb && post.combined_state.cr == pre.combined_state.cr,
{
    let before = pre.combined_state;
    let new = post.combined_state;
    let latest = post.latest_state;
    let monochrome = source.subsampling == ChromaSubsampling::Monochrome;
    let cleared = choose|cleared: ChannelStates<T>|
        {
            &&& #[trigger] are_states_cleared(pre.latest_state, cleared)
            &&& if all_flat_indices(flat_blocks@).len() <= 1 {
                &&& latest == cleared
                &&& new == before
                &&& status == NoiseStatus::Error(NoiseError::NotEnoughFlatBlocks)
            } else {
                is_frame_taken_in(pre, source, denoised, flat_blocks, cleared, post, status)
            }
        };
    if all_flat_indices(flat_blocks@).len() > 1 {
        let r = choose|r: Result<(), NoiseError>|
            {
                &&& #[trigger] is_latest_updated(
                    pre.coords@,
                    pre.n,
                    source,
                    denoised,
                    flat_blocks,
                    cleared,
                    latest,
                    r,
                )
                &&& if r is Err {
                    new == before && status == status_of(r)
                } else {
                    are_combined(before, latest, monochrome, new, status)
                }
            };
        lemma_latest_errors(
            pre.coords@,
            pre.n,
            source,
            denoised,
            flat_blocks,
            cleared,
            latest,
            r,
        );
        if r is Ok && status != NoiseStatus::DifferentType {
            let m = choose|m: Result<(), NoiseError>|
                {
                    &&& #[trigger] are_merged(before, latest, monochrome, new, m)
                    &&& status == status_of(m)
                };
            lemma_merged(before, latest, monochrome, new, m);
        }
    }
}

/// When the latest state has been saved, it is compared with what it was saved as in just
/// the same way as with itself.
pub proof fn law_saved_state_is_the_same<T: Kernels>(
    pre: NoiseModelState<T>,
    latest: NoiseModelState<T>,
    post: NoiseModelState<T>,
    different: bool,
)
    requires
        is_state_saved(pre, latest, post),
    ensures
        differs(latest, post, different) <==> differs(latest, latest, different),
{
    let n = latest.strength_solver.eqns.n as int;
    assert(weighted_distances(latest.strength_solver.eqns, post.strength_solver.eqns, n)
        =~= weighted_distances(latest.strength_solver.eqns, latest.strength_solver.eqns, n));
}

} // verus!
