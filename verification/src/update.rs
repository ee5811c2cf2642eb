//! How the noise model takes in a frame.
use crate::equations::{is_cleared, is_same_system, is_sum};
use crate::kernels::Kernels;
use crate::model::{
    are_coefficients_found, are_strengths_found, find_coefficients, is_channel_updated,
    lemma_causal_coords_are_near, update_latest_channel, ChannelStates, NoiseError, NoiseModel,
    NoiseStatus,
};
use crate::observations::ChannelSurvey;
use crate::plane::{ChromaSubsampling, Frame, Plane};
use crate::scalar::{is_zero, Scalar};
use crate::state::{differs, is_different, NoiseModelState};
use crate::strength::is_strength_sum;
use crate::{BLOCK_SIZE, BLOCK_SIZE_SQUARED};
use vstd::prelude::*;

verus! {

/// The places of the flat blocks among the first `n` blocks, in order.
pub open spec fn flat_indices(flat_blocks: Seq<u8>, n: int) -> Seq<usize>
    decreases n,
{
    if n <= 0 {
        Seq::empty()
    } else {
        let before = flat_indices(flat_blocks, n - 1);
        if flat_blocks[n - 1] > 0 {
            before.push((n - 1) as usize)
        } else {
            before
        }
    }
}

/// The places of all flat blocks.
pub open spec fn all_flat_indices(flat_blocks: Seq<u8>) -> Seq<usize> {
    flat_indices(flat_blocks, flat_blocks.len() as int)
}

/// The list of flat blocks is complete, ordered, and lists nothing else.
pub proof fn law_flat_indices(flat_blocks: Seq<u8>, n: int)
    requires
        0 <= n <= flat_blocks.len() <= usize::MAX,
    ensures
        flat_indices(flat_blocks, n).len() <= n,
        forall|k: int|
            0 <= k < flat_indices(flat_blocks, n).len() ==> (#[trigger] flat_indices(
                flat_blocks,
                n,
            )[k]) < n && flat_blocks[flat_indices(flat_blocks, n)[k] as int] > 0,
        forall|j: int, k: int|
            0 <= j < k < flat_indices(flat_blocks, n).len() ==> (#[trigger] flat_indices(
                flat_blocks,
                n,
            )[j]) < #[trigger] flat_indices(flat_blocks, n)[k],
        forall|i: usize|
            i < n && flat_blocks[i as int] > 0 ==> #[trigger] flat_indices(
                flat_blocks,
                n,
            ).contains(i),
    decreases n,
{
    if n > 0 {
        law_flat_indices(flat_blocks, n - 1);
        let before = flat_indices(flat_blocks, n - 1);
        let all = flat_indices(flat_blocks, n);
        assert forall|k: int| 0 <= k < all.len() implies (#[trigger] all[k]) < n
            && flat_blocks[all[k] as int] > 0 by {
            if k < before.len() {
                assert(all[k] == before[k]);
            }
        }
        assert forall|j: int, k: int| 0 <= j < k < all.len() implies (#[trigger] all[j])
            < #[trigger] all[k] by {
            assert(all[j] == before[j]);
            if k < before.len() {
                assert(all[k] == before[k]);
            }
        }
        assert forall|i: usize| i < n && flat_blocks[i as int] > 0 implies #[trigger] all.contains(
            i,
        ) by {
            if i == n - 1 {
                assert(all.last() == i);
            } else {
                assert(before.contains(i));
                let k = choose|k: int| 0 <= k < before.len() && before[k] == i;
                assert(all[k] == i);
            }
        }
    }
}

/// The places of the flat blocks.
fn flat_block_indices(flat_blocks: &[u8]) -> (r: Vec<usize>)
    ensures
        r@ == all_flat_indices(flat_blocks@),
{
    let mut r: Vec<usize> = Vec::new();
    let mut i: usize = 0;
    while i < flat_blocks.len()
        invariant
            i <= flat_blocks.len(),
            r@ == flat_indices(flat_blocks@, i as int),
        decreases flat_blocks.len() - i,
    {
        if flat_blocks[i] > 0 {
            r.push(i);
        }
        i = i + 1;
    }
    r
}

/// The number of blocks in a row of a frame.
pub open spec fn blocks_across(width: usize) -> int {
    (width + BLOCK_SIZE - 1) / (BLOCK_SIZE as int)
}

/// What is to be observed in the luma plane of a frame.
pub open spec fn luma_survey<'a>(
    source: &'a Frame<u8>,
    denoised: &'a Frame<u8>,
    flat_blocks: &'a [u8],
) -> ChannelSurvey<'a> {
    let g = source.y_plane.geometry;
    ChannelSurvey {
        source: &source.y_plane,
        denoised: &denoised.y_plane,
        alt: None,
        frame_dims: (g.width, g.height),
        flat_blocks,
        num_blocks_w: blocks_across(g.width) as usize,
    }
}

/// What is to be observed in a chroma plane of a frame.
pub open spec fn chroma_survey<'a>(
    source: &'a Frame<u8>,
    denoised: &'a Frame<u8>,
    plane: &'a Plane<u8>,
    denoised_plane: &'a Plane<u8>,
    flat_blocks: &'a [u8],
) -> ChannelSurvey<'a> {
    let g = source.y_plane.geometry;
    ChannelSurvey {
        source: plane,
        denoised: denoised_plane,
        alt: Some((&source.y_plane, &denoised.y_plane)),
        frame_dims: (g.width, g.height),
        flat_blocks,
        num_blocks_w: blocks_across(g.width) as usize,
    }
}

/// What is to be observed in a plane of a frame: the luma plane, or one of the two chroma
/// planes.
pub open spec fn plane_survey<'a>(
    source: &'a Frame<u8>,
    denoised: &'a Frame<u8>,
    flat_blocks: &'a [u8],
    channel: int,
) -> ChannelSurvey<'a> {
    if channel == 0 {
        luma_survey(source, denoised, flat_blocks)
    } else if channel == 1 {
        chroma_survey(
            source,
            denoised,
            &source.u_plane->0,
            &denoised.u_plane->0,
            flat_blocks,
        )
    } else {
        chroma_survey(
            source,
            denoised,
            &source.v_plane->0,
            &denoised.v_plane->0,
            flat_blocks,
        )
    }
}

/// Sets up what is to be observed in a plane of a frame.
pub fn survey_plane<'a>(
    source: &'a Frame<u8>,
    denoised: &'a Frame<u8>,
    flat_blocks: &'a [u8],
    channel: usize,
) -> (survey: ChannelSurvey<'a>)
    requires
        source.y_plane.geometry.width >= 1,
        channel == 1 ==> source.u_plane is Some && denoised.u_plane is Some,
        channel > 1 ==> source.v_plane is Some && denoised.v_plane is Some,
    ensures
        survey == plane_survey(source, denoised, flat_blocks, channel as int),
{
    let g = source.y_plane.geometry;
    let frame_dims = (g.width, g.height);
    let num_blocks_w = (g.width - 1) / BLOCK_SIZE + 1;
    if channel == 0 {
        return ChannelSurvey {
            source: &source.y_plane,
            denoised: &denoised.y_plane,
            alt: None,
            frame_dims,
            flat_blocks,
            num_blocks_w,
        };
    }
    let (plane, denoised_plane) = if channel == 1 {
        (source.u_plane.as_ref().unwrap(), denoised.u_plane.as_ref().unwrap())
    } else {
        (source.v_plane.as_ref().unwrap(), denoised.v_plane.as_ref().unwrap())
    };
    ChannelSurvey {
        source: plane,
        denoised: denoised_plane,
        alt: Some((&source.y_plane, &denoised.y_plane)),
        frame_dims,
        flat_blocks,
        num_blocks_w,
    }
}

/// Whether a frame and its denoised counterpart can be observed in the given blocks: the
/// planes have the same sizes, and every flat block can be read in every plane.
pub open spec fn is_observable<'a>(
    source: &'a Frame<u8>,
    denoised: &'a Frame<u8>,
    flat_blocks: &'a [u8],
) -> bool {
    let indices = all_flat_indices(flat_blocks@);
    &&& source.wf()
    &&& flat_blocks.len() * BLOCK_SIZE_SQUARED <= usize::MAX
    &&& luma_survey(source, denoised, flat_blocks).wf(indices)
    &&& source.subsampling != ChromaSubsampling::Monochrome ==> {
        &&& denoised.u_plane is Some
        &&& denoised.v_plane is Some
        &&& chroma_survey(
            source,
            denoised,
            &source.u_plane->0,
            &denoised.u_plane->0,
            flat_blocks,
        ).wf(indices)
        &&& chroma_survey(
            source,
            denoised,
            &source.v_plane->0,
            &denoised.v_plane->0,
            flat_blocks,
        ).wf(indices)
    }
}

/// Whether `post` is `pre` without any observation; the gain is kept.
pub open spec fn is_state_cleared<T: Scalar>(
    pre: NoiseModelState<T>,
    post: NoiseModelState<T>,
) -> bool {
    &&& post.wf()
    &&& is_cleared(post.eqns)
    &&& post.eqns.n == pre.eqns.n
    &&& post.ar_gain == pre.ar_gain
    &&& post.num_observations == 0
    &&& is_cleared(post.strength_solver.eqns)
    &&& post.strength_solver.num_equations == 0
    &&& is_zero(post.strength_solver.total)
}

/// Whether all three states are cleared.
pub open spec fn are_states_cleared<T: Scalar>(
    pre: ChannelStates<T>,
    post: ChannelStates<T>,
) -> bool {
    &&& is_state_cleared(pre.y, post.y)
    &&& is_state_cleared(pre.cb, post.cb)
    &&& is_state_cleared(pre.cr, post.cr)
}

/// The first of two results that is an error.
pub open spec fn first_error(
    a: Result<(), NoiseError>,
    b: Result<(), NoiseError>,
) -> Result<(), NoiseError> {
    if a is Err {
        a
    } else {
        b
    }
}

/// Whether updating the latest states of the chroma planes can lead from `pre` to `post`
/// and `r`. Both planes are updated in any case.
pub open spec fn is_chroma_updated<'a, T: Kernels>(
    coords: Seq<[isize; 2]>,
    num_coords: usize,
    source: &'a Frame<u8>,
    denoised: &'a Frame<u8>,
    flat_blocks: &'a [u8],
    pre: ChannelStates<T>,
    post: ChannelStates<T>,
    r: Result<(), NoiseError>,
) -> bool {
    let indices = all_flat_indices(flat_blocks@);
    exists|cb: Result<(), NoiseError>, cr: Result<(), NoiseError>|
        {
            &&& #[trigger] is_channel_updated(
                chroma_survey(
                    source,
                    denoised,
                    &source.u_plane->0,
                    &denoised.u_plane->0,
                    flat_blocks,
                ),
                indices,
                coords,
                num_coords,
                1,
                Some(&post.y),
                pre.cb,
                post.cb,
                cb,
            )
            &&& #[trigger] is_channel_updated(
                chroma_survey(
                    source,
                    denoised,
                    &source.v_plane->0,
                    &denoised.v_plane->0,
                    flat_blocks,
                ),
                indices,
                coords,
                num_coords,
                2,
                Some(&post.y),
                pre.cr,
                post.cr,
                cr,
            )
            &&& r == first_error(cb, cr)
        }
}

/// Whether updating the latest states can lead from `pre` to `post` and `r`. The chroma
/// planes, if there are any, come after the luma plane, and only if that went well.
pub open spec fn is_latest_updated<'a, T: Kernels>(
    coords: Seq<[isize; 2]>,
    num_coords: usize,
    source: &'a Frame<u8>,
    denoised: &'a Frame<u8>,
    flat_blocks: &'a [u8],
    pre: ChannelStates<T>,
    post: ChannelStates<T>,
    r: Result<(), NoiseError>,
) -> bool {
    exists|luma: Result<(), NoiseError>|
        {
            &&& #[trigger] is_channel_updated(
                luma_survey(source, denoised, flat_blocks),
                all_flat_indices(flat_blocks@),
                coords,
                num_coords,
                0,
                None,
                pre.y,
                post.y,
                luma,
            )
            &&& if luma is Err || source.subsampling == ChromaSubsampling::Monochrome {
                r == luma && post.cb == pre.cb && post.cr == pre.cr
            } else {
                is_chroma_updated(coords, num_coords, source, denoised, flat_blocks, pre, post, r)
            }
        }
}

/// Whether `post` is `pre` with the observations of `latest` added; the coefficients and
/// strengths are not found yet.
pub open spec fn are_observations_added<T: Scalar>(
    pre: NoiseModelState<T>,
    latest: NoiseModelState<T>,
    post: NoiseModelState<T>,
) -> bool {
    &&& post.num_observations == pre.num_observations + latest.num_observations
    &&& is_sum(pre.eqns, latest.eqns, post.eqns)
    &&& post.ar_gain == pre.ar_gain
    &&& post.strength_solver == pre.strength_solver
}

/// Whether `post` is `pre` with the measurements of `latest` added.
pub open spec fn are_measurements_added<T: Scalar>(
    pre: NoiseModelState<T>,
    latest: NoiseModelState<T>,
    post: NoiseModelState<T>,
) -> bool {
    &&& post.eqns == pre.eqns
    &&& post.ar_gain == pre.ar_gain
    &&& post.num_observations == pre.num_observations
    &&& is_strength_sum(pre.strength_solver, latest.strength_solver, post.strength_solver)
}

/// Whether adding the latest state of a plane to the combined one can lead from `pre` to
/// `post` and `r`.
pub open spec fn is_merged<T: Kernels>(
    pre: NoiseModelState<T>,
    latest: NoiseModelState<T>,
    is_chroma: bool,
    post: NoiseModelState<T>,
    r: Result<(), NoiseError>,
) -> bool {
    exists|s1: NoiseModelState<T>, s2: NoiseModelState<T>, found: bool|
        {
            &&& are_observations_added(pre, latest, s1)
            &&& #[trigger] are_coefficients_found(s1, is_chroma, s2, found)
            &&& if found {
                is_strength_merged(s2, latest, post, r)
            } else {
                post == s2 && r == Err::<(), NoiseError>(NoiseError::CombinedSystemUnsolved)
            }
        }
}

/// Whether adding the latest strengths of a plane to the combined ones can lead from
/// `pre` to `post` and `r`.
pub open spec fn is_strength_merged<T: Kernels>(
    pre: NoiseModelState<T>,
    latest: NoiseModelState<T>,
    post: NoiseModelState<T>,
    r: Result<(), NoiseError>,
) -> bool {
    exists|mid: NoiseModelState<T>, ok: bool|
        {
            &&& are_measurements_added(pre, latest, mid)
            &&& #[trigger] are_strengths_found(mid, post, ok)
            &&& r == if ok {
                Ok(())
            } else {
                Err(NoiseError::CombinedStrengthUnsolved)
            }
        }
}

/// Whether adding the latest states of all planes to the combined ones can lead from `pre`
/// to `post` and `r`. The planes are taken one after the other; at the first error the
/// rest is left as it was.
pub open spec fn are_merged<T: Kernels>(
    pre: ChannelStates<T>,
    latest: ChannelStates<T>,
    monochrome: bool,
    post: ChannelStates<T>,
    r: Result<(), NoiseError>,
) -> bool {
    exists|luma: Result<(), NoiseError>|
        {
            &&& #[trigger] is_merged(pre.y, latest.y, false, post.y, luma)
            &&& if luma is Err || monochrome {
                r == luma && post.cb == pre.cb && post.cr == pre.cr
            } else {
                is_chroma_merged(pre, latest, post, r)
            }
        }
}

/// `are_merged` for the chroma planes.
pub open spec fn is_chroma_merged<T: Kernels>(
    pre: ChannelStates<T>,
    latest: ChannelStates<T>,
    post: ChannelStates<T>,
    r: Result<(), NoiseError>,
) -> bool {
    exists|cb: Result<(), NoiseError>|
        {
            &&& #[trigger] is_merged(pre.cb, latest.cb, true, post.cb, cb)
            &&& if cb is Err {
                r == cb && post.cr == pre.cr
            } else {
                is_merged(pre.cr, latest.cr, true, post.cr, r)
            }
        }
}

/// Whether combining the latest states with the combined ones can lead from `pre` to
/// `post` and `status`. The latest luma noise is compared with the combined one first, if
/// there is one; if they are too different, nothing is combined.
pub open spec fn are_combined<T: Kernels>(
    pre: ChannelStates<T>,
    latest: ChannelStates<T>,
    monochrome: bool,
    post: ChannelStates<T>,
    status: NoiseStatus,
) -> bool {
    exists|different: bool|
        {
            &&& #[trigger] differs(latest.y, pre.y, different)
            &&& if different && pre.y.strength_solver.num_equations > 0 {
                post == pre && status == NoiseStatus::DifferentType
            } else {
                exists|r: Result<(), NoiseError>|
                    {
                        &&& #[trigger] are_merged(pre, latest, monochrome, post, r)
                        &&& status == status_of(r)
                    }
            }
        }
}

/// The status that goes with a result.
pub open spec fn status_of(r: Result<(), NoiseError>) -> NoiseStatus {
    match r {
        Ok(_) => NoiseStatus::Updated,
        Err(e) => NoiseStatus::Error(e),
    }
}

/// Whether taking in a frame can lead from `pre` to `post` and `status`.
pub open spec fn is_updated<'a, T: Kernels>(
    pre: NoiseModel<T>,
    source: &'a Frame<u8>,
    denoised: &'a Frame<u8>,
    flat_blocks: &'a [u8],
    post: NoiseModel<T>,
    status: NoiseStatus,
) -> bool {
    &&& post.n == pre.n
    &&& post.coords@ == pre.coords@
    &&& exists|cleared: ChannelStates<T>|
        {
            &&& #[trigger] are_states_cleared(pre.latest_state, cleared)
            &&& if all_flat_indices(flat_blocks@).len() <= 1 {
                &&& post.latest_state == cleared
                &&& post.combined_state == pre.combined_state
                &&& status == NoiseStatus::Error(NoiseError::NotEnoughFlatBlocks)
            } else {
                is_frame_taken_in(pre, source, denoised, flat_blocks, cleared, post, status)
            }
        }
}

/// `is_updated` for a frame with enough flat blocks, once the latest states are `cleared`.
pub open spec fn is_frame_taken_in<'a, T: Kernels>(
    pre: NoiseModel<T>,
    source: &'a Frame<u8>,
    denoised: &'a Frame<u8>,
    flat_blocks: &'a [u8],
    cleared: ChannelStates<T>,
    post: NoiseModel<T>,
    status: NoiseStatus,
) -> bool {
    exists|r: Result<(), NoiseError>|
        {
            &&& #[trigger] is_latest_updated(
                pre.coords@,
                pre.n,
                source,
                denoised,
                flat_blocks,
                cleared,
                post.latest_state,
                r,
            )
            &&& if r is Err {
                post.combined_state == pre.combined_state && status == status_of(r)
            } else {
                are_combined(
                    pre.combined_state,
                    post.latest_state,
                    source.subsampling == ChromaSubsampling::Monochrome,
                    post.combined_state,
                    status,
                )
            }
        }
}

/// Forgets the observations of a state.
fn clear_state<T: Scalar>(state: &mut NoiseModelState<T>)
    requires
        old(state).wf(),
    ensures
        is_state_cleared(*old(state), *final(state)),
{
    state.eqns.clear();
    state.num_observations = 0;
    state.strength_solver.clear();
}

/// Adds the latest state of a plane to the combined one.
fn merge_state<T: Kernels>(
    combined: &mut NoiseModelState<T>,
    latest: &NoiseModelState<T>,
    is_chroma: bool,
) -> (r: Result<(), NoiseError>)
    requires
        old(combined).wf(),
        latest.wf(),
        old(combined).eqns.n == latest.eqns.n,
        latest.eqns.n >= 1,
        old(combined).num_observations + latest.num_observations <= usize::MAX,
        old(combined).strength_solver.num_equations + latest.strength_solver.num_equations
            <= usize::MAX,
    ensures
        final(combined).wf(),
        final(combined).eqns.n == old(combined).eqns.n,
        is_merged(*old(combined), *latest, is_chroma, *final(combined), r),
{
    combined.num_observations = combined.num_observations + latest.num_observations;
    combined.eqns.add_assign(&latest.eqns);
    let ghost s1 = *combined;
    assert(are_observations_added(*old(combined), *latest, s1));
    let found = find_coefficients(combined, is_chroma);
    let ghost s2 = *combined;
    assert(are_coefficients_found(s1, is_chroma, s2, found));
    if !found {
        return Err(NoiseError::CombinedSystemUnsolved);
    }
    combined.strength_solver.add_assign(&latest.strength_solver);
    let ghost s3 = *combined;
    assert(are_measurements_added(s2, *latest, s3));
    let ok = combined.strength_solver.solve();
    assert(are_strengths_found(s3, *combined, ok));
    if !ok {
        return Err(NoiseError::CombinedStrengthUnsolved);
    }
    Ok(())
}

impl<T: Kernels> NoiseModel<T> {
    /// Takes in a frame, given its denoised counterpart and its flat blocks.
    pub fn update(
        &mut self,
        source: &Frame<u8>,
        denoised: &Frame<u8>,
        flat_blocks: &[u8],
    ) -> (status: NoiseStatus)
        requires
            old(self).wf(),
            all_flat_indices(flat_blocks@).len() > 1 ==> is_observable(
                source,
                denoised,
                flat_blocks,
            ) && old(self).combined_state.has_room(flat_blocks.len() as int),
        ensures
            final(self).wf(),
            is_updated(*old(self), source, denoised, flat_blocks, *final(self), status),
    {
        let indices = match self.begin_update(flat_blocks) {
            Err(e) => {
                return NoiseStatus::Error(e);
            },
            Ok(indices) => indices,
        };
        let ghost cleared = self.latest_state;
        let updated = self.update_latest(source, denoised, flat_blocks, &indices);
        assert(is_latest_updated(
            self.coords@,
            self.n,
            source,
            denoised,
            flat_blocks,
            cleared,
            self.latest_state,
            updated,
        ));
        match updated {
            Err(e) => {
                return NoiseStatus::Error(e);
            },
            Ok(_) => {},
        }
        proof {
            law_flat_indices(flat_blocks@, flat_blocks.len() as int);
        }
        let monochrome = source.subsampling == ChromaSubsampling::Monochrome;
        self.combine(monochrome)
    }

    /// Clears the latest states and lists the flat blocks; a frame with less than two is
    /// refused.
    pub fn begin_update(&mut self, flat_blocks: &[u8]) -> (r: Result<Vec<usize>, NoiseError>)
        requires
            old(self).wf(),
        ensures
            final(self).wf(),
            final(self).n == old(self).n,
            final(self).coords@ == old(self).coords@,
            final(self).combined_state == old(self).combined_state,
            are_states_cleared(old(self).latest_state, final(self).latest_state),
            all_flat_indices(flat_blocks@).len() <= 1 <==> r is Err,
            r matches Err(e) ==> e == NoiseError::NotEnoughFlatBlocks,
            r matches Ok(indices) ==> indices@ == all_flat_indices(flat_blocks@),
    {
        clear_state(&mut self.latest_state.y);
        clear_state(&mut self.latest_state.cb);
        clear_state(&mut self.latest_state.cr);
        let indices = flat_block_indices(flat_blocks);
        if indices.len() <= 1 {
            return Err(NoiseError::NotEnoughFlatBlocks);
        }
        Ok(indices)
    }

    /// Replaces the latest states by what the frame shows.
    fn update_latest(
        &mut self,
        source: &Frame<u8>,
        denoised: &Frame<u8>,
        flat_blocks: &[u8],
        indices: &Vec<usize>,
    ) -> (r: Result<(), NoiseError>)
        requires
            old(self).wf(),
            is_observable(source, denoised, flat_blocks),
            indices@ == all_flat_indices(flat_blocks@),
        ensures
            final(self).wf(),
            final(self).n == old(self).n,
            final(self).coords@ == old(self).coords@,
            final(self).combined_state == old(self).combined_state,
            is_latest_updated(
                old(self).coords@,
                old(self).n,
                source,
                denoised,
                flat_blocks,
                old(self).latest_state,
                final(self).latest_state,
                r,
            ),
            r is Ok ==> is_counted(final(self).latest_state.y, indices.len() as int),
            r is Ok && source.subsampling != ChromaSubsampling::Monochrome ==> {
                &&& is_counted(final(self).latest_state.cb, indices.len() as int)
                &&& is_counted(final(self).latest_state.cr, indices.len() as int)
            },
    {
        proof {
            lemma_causal_coords_are_near();
        }
        let survey = survey_plane(source, denoised, flat_blocks, 0);
        let luma = update_latest_channel(
            0,
            self.n,
            &self.coords,
            &mut self.latest_state.y,
            &survey,
            indices,
            None,
        );
        assert(is_channel_updated(
            luma_survey(source, denoised, flat_blocks),
            all_flat_indices(flat_blocks@),
            self.coords@,
            self.n,
            0,
            None,
            old(self).latest_state.y,
            self.latest_state.y,
            luma,
        ));
        if luma.is_err() || source.subsampling == ChromaSubsampling::Monochrome {
            return luma;
        }
        let u_survey = survey_plane(source, denoised, flat_blocks, 1);
        let v_survey = survey_plane(source, denoised, flat_blocks, 2);
        let cb = update_latest_channel(
            1,
            self.n,
            &self.coords,
            &mut self.latest_state.cb,
            &u_survey,
            indices,
            Some(&self.latest_state.y),
        );
        let cr = update_latest_channel(
            2,
            self.n,
            &self.coords,
            &mut self.latest_state.cr,
            &v_survey,
            indices,
            Some(&self.latest_state.y),
        );
        let r = if cb.is_err() {
            cb
        } else {
            cr
        };
        assert(is_channel_updated(
            chroma_survey(
                source,
                denoised,
                &source.u_plane->0,
                &denoised.u_plane->0,
                flat_blocks,
            ),
            all_flat_indices(flat_blocks@),
            self.coords@,
            self.n,
            1,
            Some(&self.latest_state.y),
            old(self).latest_state.cb,
            self.latest_state.cb,
            cb,
        ));
        assert(is_channel_updated(
            chroma_survey(
                source,
                denoised,
                &source.v_plane->0,
                &denoised.v_plane->0,
                flat_blocks,
            ),
            all_flat_indices(flat_blocks@),
            self.coords@,
            self.n,
            2,
            Some(&self.latest_state.y),
            old(self).latest_state.cr,
            self.latest_state.cr,
            cr,
        ));
        assert(is_chroma_updated(
            old(self).coords@,
            old(self).n,
            source,
            denoised,
            flat_blocks,
            old(self).latest_state,
            self.latest_state,
            r,
        ));
        r
    }

    /// Adds the latest states to the combined ones, unless the noise is too different.
    pub fn combine(&mut self, monochrome: bool) -> (status: NoiseStatus)
        requires
            old(self).wf(),
            fits_in(old(self).latest_state.y, old(self).combined_state.y),
            !monochrome ==> fits_in(old(self).latest_state.cb, old(self).combined_state.cb),
            !monochrome ==> fits_in(old(self).latest_state.cr, old(self).combined_state.cr),
        ensures
            final(self).wf(),
            final(self).n == old(self).n,
            final(self).coords@ == old(self).coords@,
            final(self).latest_state == old(self).latest_state,
            are_combined(
                old(self).combined_state,
                old(self).latest_state,
                monochrome,
                final(self).combined_state,
                status,
            ),
    {
        let different = is_different(&self.latest_state.y, &self.combined_state.y);
        if self.combined_state.y.strength_solver.num_equations > 0 && different {
            return NoiseStatus::DifferentType;
        }
        let r = self.merge(monochrome);
        assert(are_merged(
            old(self).combined_state,
            old(self).latest_state,
            monochrome,
            self.combined_state,
            r,
        ));
        match r {
            Err(e) => NoiseStatus::Error(e),
            Ok(_) => NoiseStatus::Updated,
        }
    }

    /// Adds the latest states to the combined ones, plane by plane.
    fn merge(&mut self, monochrome: bool) -> (r: Result<(), NoiseError>)
        requires
            old(self).wf(),
            fits_in(old(self).latest_state.y, old(self).combined_state.y),
            !monochrome ==> fits_in(old(self).latest_state.cb, old(self).combined_state.cb),
            !monochrome ==> fits_in(old(self).latest_state.cr, old(self).combined_state.cr),
        ensures
            final(self).wf(),
            final(self).n == old(self).n,
            final(self).coords@ == old(self).coords@,
            final(self).latest_state == old(self).latest_state,
            are_merged(
                old(self).combined_state,
                old(self).latest_state,
                monochrome,
                final(self).combined_state,
                r,
            ),
    {
        let luma = merge_state(&mut self.combined_state.y, &self.latest_state.y, false);
        assert(is_merged(
            old(self).combined_state.y,
            old(self).latest_state.y,
            false,
            self.combined_state.y,
            luma,
        ));
        if luma.is_err() || monochrome {
            return luma;
        }
        let cb = merge_state(&mut self.combined_state.cb, &self.latest_state.cb, true);
        assert(is_merged(
            old(self).combined_state.cb,
            old(self).latest_state.cb,
            true,
            self.combined_state.cb,
            cb,
        ));
        if cb.is_err() {
            return cb;
        }
        merge_state(&mut self.combined_state.cr, &self.latest_state.cr, true)
    }
}

impl<T: Scalar> NoiseModel<T> {
    /// Starts the model anew from what the latest frame shows.
    pub fn save_latest(&mut self)
        requires
            old(self).wf(),
        ensures
            final(self).wf(),
            final(self).n == old(self).n,
            final(self).coords@ == old(self).coords@,
            final(self).latest_state == old(self).latest_state,
            is_state_saved(
                old(self).combined_state.y,
                old(self).latest_state.y,
                final(self).combined_state.y,
            ),
            is_state_saved(
                old(self).combined_state.cb,
                old(self).latest_state.cb,
                final(self).combined_state.cb,
            ),
            is_state_saved(
                old(self).combined_state.cr,
                old(self).latest_state.cr,
                final(self).combined_state.cr,
            ),
    {
        save_state(&mut self.combined_state.y, &self.latest_state.y);
        save_state(&mut self.combined_state.cb, &self.latest_state.cb);
        save_state(&mut self.combined_state.cr, &self.latest_state.cr);
    }
}

/// Whether `post` is `latest`, but for the sum of the measured strengths, which is that of
/// `pre`.
pub open spec fn is_state_saved<T>(
    pre: NoiseModelState<T>,
    latest: NoiseModelState<T>,
    post: NoiseModelState<T>,
) -> bool {
    &&& is_same_system(latest.eqns, post.eqns)
    &&& is_same_system(latest.strength_solver.eqns, post.strength_solver.eqns)
    &&& post.strength_solver.num_equations == latest.strength_solver.num_equations
    &&& post.strength_solver.num_bins == pre.strength_solver.num_bins
    &&& post.strength_solver.total == pre.strength_solver.total
    &&& post.num_observations == latest.num_observations
    &&& post.ar_gain == latest.ar_gain
}

/// Takes over the latest state of a plane.
fn save_state<T: Scalar>(combined: &mut NoiseModelState<T>, latest: &NoiseModelState<T>)
    requires
        old(combined).wf(),
        latest.wf(),
        old(combined).eqns.n == latest.eqns.n,
    ensures
        final(combined).wf(),
        is_state_saved(*old(combined), *latest, *final(combined)),
{
    combined.eqns.copy_from(&latest.eqns);
    combined.strength_solver.eqns.copy_from(&latest.strength_solver.eqns);
    combined.strength_solver.num_equations = latest.strength_solver.num_equations;
    combined.num_observations = latest.num_observations;
    combined.ar_gain = latest.ar_gain;
}

/// Whether a state counts the observations and measurements of at most `blocks` blocks.
pub open spec fn is_counted<T>(s: NoiseModelState<T>, blocks: int) -> bool {
    &&& s.num_observations <= blocks * BLOCK_SIZE_SQUARED
    &&& s.strength_solver.num_equations <= blocks
}

/// Whether the observations and measurements of both states can be counted together.
pub open spec fn fits_in<T>(latest: NoiseModelState<T>, combined: NoiseModelState<T>) -> bool {
    &&& combined.num_observations + latest.num_observations <= usize::MAX
    &&& combined.strength_solver.num_equations + latest.strength_solver.num_equations
        <= usize::MAX
}

} // verus!
