//! Taking in a frame step by step is taking it in.
//!
//! Each step that is done as it is asked for leads on in an update, and the last one ends it.
use crate::equations::EquationSystem;
use crate::kernels::Kernels;
use crate::model::{
    are_coefficients_found, are_strengths_found, is_channel_updated, is_chroma_channel,
    is_state_measured, is_state_observed, is_strength_updated, luma_noise, ChannelStates,
    NoiseError, NoiseModel, NoiseStatus,
};
use crate::observations::{offsets_of, ChannelSurvey, BLOCKS_PER_CHUNK};
use crate::plane::{ChromaSubsampling, Frame};
use crate::state::NoiseModelState;
use crate::steps::{
    are_chunks_summed, are_chunks_taken, are_measurements_taken, is_measuring_step,
    is_observation_step, is_solver_filled, result_of, state_of, step_after, UpdateStep,
};
use crate::update::{
    all_flat_indices, are_combined, are_states_cleared, first_error, is_chroma_updated,
    is_frame_taken_in, is_latest_updated, is_updated, plane_survey, status_of,
};
use vstd::prelude::*;

verus! {

/// The luma state that a plane is updated with: none for the luma plane itself.
pub open spec fn luma_for<'a, T>(
    s: &'a ChannelStates<T>,
    channel: int,
) -> Option<&'a NoiseModelState<T>> {
    if channel == 0 {
        None
    } else {
        Some(&s.y)
    }
}

/// An update under way: the model it started from, the latest states once they were cleared,
/// and the frame.
pub ghost struct Run<'a, T> {
    pub pre: NoiseModel<T>,
    pub cleared: ChannelStates<T>,
    pub source: &'a Frame<u8>,
    pub denoised: &'a Frame<u8>,
    pub flat_blocks: &'a [u8],
}

impl<'a, T: Kernels> Run<'a, T> {
    /// Whether the frame has no chroma planes.
    pub open spec fn is_monochrome(self) -> bool {
        self.source.subsampling == ChromaSubsampling::Monochrome
    }

    /// The places of the flat blocks.
    pub open spec fn indices(self) -> Seq<usize> {
        all_flat_indices(self.flat_blocks@)
    }

    /// What is to be observed in a plane.
    pub open spec fn survey(self, channel: int) -> ChannelSurvey<'a> {
        plane_survey(self.source, self.denoised, self.flat_blocks, channel)
    }

    /// Whether the model is in the middle of the update: the combined states are those from
    /// before it.
    pub open spec fn is_begun(self, cur: NoiseModel<T>) -> bool {
        &&& cur.n == self.pre.n
        &&& cur.coords@ == self.pre.coords@
        &&& cur.combined_state == self.pre.combined_state
        &&& are_states_cleared(self.pre.latest_state, self.cleared)
        &&& self.indices().len() > 1
    }

    /// Whether a plane has been updated, with the result `r`.
    pub open spec fn is_plane_done(
        self,
        cur: ChannelStates<T>,
        channel: int,
        r: Result<(), NoiseError>,
    ) -> bool {
        is_channel_updated(
            self.survey(channel),
            self.indices(),
            self.pre.coords@,
            self.pre.n,
            channel,
            luma_for(&cur, channel),
            state_of(self.cleared, channel),
            state_of(cur, channel),
            r,
        )
    }

    /// Whether a plane has been observed, and coefficients were found.
    pub open spec fn is_plane_observed(self, cur: ChannelStates<T>, channel: int) -> bool {
        exists|s: NoiseModelState<T>|
            {
                &&& is_state_observed(
                    self.survey(channel),
                    self.indices(),
                    self.pre.coords@,
                    self.pre.n,
                    state_of(self.cleared, channel),
                    s,
                )
                &&& #[trigger] are_coefficients_found(
                    s,
                    is_chroma_channel(channel),
                    state_of(cur, channel),
                    true,
                )
            }
    }

    /// Whether the planes before a plane have been updated, and those from `rest` on have
    /// not.
    pub open spec fn are_planes_done(
        self,
        cur: ChannelStates<T>,
        channel: int,
        failed: Option<NoiseError>,
        rest: int,
    ) -> bool {
        &&& 0 <= channel < 3
        &&& channel > 0 ==> !self.is_monochrome() && self.is_plane_done(cur, 0, Ok(()))
        &&& channel == 2 ==> self.is_plane_done(cur, 1, result_of(failed))
        &&& rest <= 0 ==> cur.y == self.cleared.y
        &&& rest <= 1 ==> cur.cb == self.cleared.cb
        &&& rest <= 2 ==> cur.cr == self.cleared.cr
    }

    /// Whether the update can have come as far as the model `cur`, with `step` to be done
    /// next.
    pub open spec fn is_reached(self, cur: NoiseModel<T>, step: UpdateStep) -> bool {
        match step {
            UpdateStep::Observe { channel, failed } => {
                &&& self.is_begun(cur)
                &&& self.are_planes_done(
                    cur.latest_state,
                    channel as int,
                    failed,
                    channel as int,
                )
            },
            UpdateStep::Measure { channel, failed } => {
                &&& self.is_begun(cur)
                &&& self.are_planes_done(
                    cur.latest_state,
                    channel as int,
                    failed,
                    channel + 1,
                )
                &&& self.is_plane_observed(cur.latest_state, channel as int)
            },
            UpdateStep::Combine => {
                &&& self.is_begun(cur)
                &&& is_latest_updated(
                    self.pre.coords@,
                    self.pre.n,
                    self.source,
                    self.denoised,
                    self.flat_blocks,
                    self.cleared,
                    cur.latest_state,
                    Ok(()),
                )
            },
            UpdateStep::Done(status) => is_updated(
                self.pre,
                self.source,
                self.denoised,
                self.flat_blocks,
                cur,
                status,
            ),
        }
    }

    /// An update whose latest states are finished with an error is done.
    proof fn lemma_error(self, cur: NoiseModel<T>, e: NoiseError)
        requires
            self.is_begun(cur),
            is_latest_updated(
                self.pre.coords@,
                self.pre.n,
                self.source,
                self.denoised,
                self.flat_blocks,
                self.cleared,
                cur.latest_state,
                Err(e),
            ),
        ensures
            self.is_reached(cur, UpdateStep::Done(NoiseStatus::Error(e))),
    {
        let r = Err::<(), NoiseError>(e);
        assert(is_frame_taken_in(
            self.pre,
            self.source,
            self.denoised,
            self.flat_blocks,
            self.cleared,
            cur,
            status_of(r),
        ));
    }

    /// When a plane is done, the step after it is reached.
    proof fn lemma_plane_ends(
        self,
        cur: NoiseModel<T>,
        channel: int,
        failed: Option<NoiseError>,
        r: Result<(), NoiseError>,
    )
        requires
            self.is_begun(cur),
            self.are_planes_done(cur.latest_state, channel, failed, channel + 1),
            self.is_plane_done(cur.latest_state, channel, r),
        ensures
            self.is_reached(cur, step_after(channel, failed, r, self.is_monochrome())),
    {
        let s = cur.latest_state;
        assert(r is Ok ==> r == Ok::<(), NoiseError>(()));
        if channel == 0 {
            if r is Err || self.is_monochrome() {
                assert(is_latest_updated(
                    self.pre.coords@,
                    self.pre.n,
                    self.source,
                    self.denoised,
                    self.flat_blocks,
                    self.cleared,
                    s,
                    r,
                ));
                if r is Err {
                    self.lemma_error(cur, r->Err_0);
                }
            }
        } else if channel == 2 {
            let cb = result_of(failed);
            let all = first_error(cb, r);
            assert(self.is_plane_done(s, 1, cb));
            assert(is_chroma_updated(
                self.pre.coords@,
                self.pre.n,
                self.source,
                self.denoised,
                self.flat_blocks,
                self.cleared,
                s,
                all,
            ));
            assert(self.is_plane_done(s, 0, Ok(())));
            assert(is_latest_updated(
                self.pre.coords@,
                self.pre.n,
                self.source,
                self.denoised,
                self.flat_blocks,
                self.cleared,
                s,
                all,
            ));
            if all is Err {
                self.lemma_error(cur, all->Err_0);
            }
        }
    }

    /// Whether `chunks` are what the chunks of blocks of a plane show.
    pub open spec fn are_faithful(
        self,
        channel: int,
        chunks: Seq<(EquationSystem<T>, usize)>,
    ) -> bool {
        let survey = self.survey(channel);
        &&& chunks.len() == survey.num_chunks(self.indices())
        &&& survey.are_chunks(
            self.indices(),
            offsets_of(self.pre.coords@, self.pre.n, survey.source.geometry.stride),
            self.pre.n,
            state_of(self.cleared, channel).eqns.n,
            chunks,
        )
    }

    /// The chunks of a plane show what its blocks show.
    proof fn lemma_observed(
        self,
        channel: int,
        chunks: Seq<(EquationSystem<T>, usize)>,
        s: NoiseModelState<T>,
    )
        requires
            self.survey(channel).wf(self.indices()),
            self.are_faithful(channel, chunks),
            are_chunks_summed(state_of(self.cleared, channel), chunks, s),
        ensures
            is_state_observed(
                self.survey(channel),
                self.indices(),
                self.pre.coords@,
                self.pre.n,
                state_of(self.cleared, channel),
                s,
            ),
    {
        let survey = self.survey(channel);
        let indices = self.indices();
        let offsets = offsets_of(self.pre.coords@, self.pre.n, survey.source.geometry.stride);
        let n = state_of(self.cleared, channel).eqns.n;
        let c = chunks.len() as int;
        survey.lemma_chunk_count(indices, offsets, self.pre.n, n, chunks, c);
        survey.lemma_chunk_total(indices, offsets, self.pre.n, n, chunks, c, s.eqns);
        assert(c * BLOCKS_PER_CHUNK >= indices.len());
        assert(survey.chunk_start(indices, c) == indices.len());
    }
}

/// An update begins with the observation of the luma plane, once the latest states are
/// cleared.
pub proof fn law_first_step<'a, T: Kernels>(run: Run<'a, T>, cur: NoiseModel<T>)
    requires
        run.is_begun(cur),
        cur.latest_state == run.cleared,
    ensures
        run.is_reached(cur, UpdateStep::Observe { channel: 0, failed: None }),
{
}

/// Handing in what the chunks of blocks of a plane show leads on in the update.
pub proof fn law_observation_leads_on<'a, T: Kernels>(
    run: Run<'a, T>,
    cur: NoiseModel<T>,
    channel: usize,
    failed: Option<NoiseError>,
    chunks: Seq<(EquationSystem<T>, usize)>,
    next: NoiseModel<T>,
    step: UpdateStep,
)
    requires
        run.is_reached(cur, UpdateStep::Observe { channel, failed }),
        run.survey(channel as int).wf(run.indices()),
        run.are_faithful(channel as int, chunks),
        next.n == cur.n,
        next.coords@ == cur.coords@,
        next.combined_state == cur.combined_state,
        is_observation_step(
            cur.latest_state,
            channel as int,
            failed,
            chunks,
            run.is_monochrome(),
            next.latest_state,
            step,
        ),
    ensures
        run.is_reached(next, step),
{
    let c = channel as int;
    let pre = state_of(cur.latest_state, c);
    let post = state_of(next.latest_state, c);
    let found = choose|found: bool|
        {
            &&& #[trigger] are_chunks_taken(pre, c, chunks, post, found)
            &&& step == if found {
                UpdateStep::Measure { channel, failed }
            } else {
                step_after(c, failed, Err(NoiseError::LatestSystemUnsolved), run.is_monochrome())
            }
        };
    let s = choose|s: NoiseModelState<T>|
        {
            &&& are_chunks_summed(pre, chunks, s)
            &&& #[trigger] are_coefficients_found(s, is_chroma_channel(c), post, found)
        };
    assert(pre == state_of(run.cleared, c));
    run.lemma_observed(c, chunks, s);
    assert(luma_for(&next.latest_state, 1) == luma_for(&cur.latest_state, 1) || c == 0);
    if found {
        assert(run.is_plane_observed(next.latest_state, c));
    } else {
        let r = Err::<(), NoiseError>(NoiseError::LatestSystemUnsolved);
        assert(run.is_plane_done(next.latest_state, c, r));
        run.lemma_plane_ends(next, c, failed, r);
    }
}

/// Handing in the measurements of the blocks of a plane leads on in the update.
pub proof fn law_measuring_leads_on<'a, T: Kernels>(
    run: Run<'a, T>,
    cur: NoiseModel<T>,
    channel: usize,
    failed: Option<NoiseError>,
    ms: Seq<Option<(T, T)>>,
    next: NoiseModel<T>,
    step: UpdateStep,
)
    requires
        run.is_reached(cur, UpdateStep::Measure { channel, failed }),
        ms.len() == run.indices().len(),
        run.survey(channel as int).are_measurements(
            run.indices(),
            state_of(cur.latest_state, channel as int).ar_gain,
            luma_noise(
                channel as int,
                luma_for(&cur.latest_state, channel as int),
                state_of(cur.latest_state, channel as int),
                cur.n,
            ),
            ms,
        ),
        next.n == cur.n,
        next.coords@ == cur.coords@,
        next.combined_state == cur.combined_state,
        is_measuring_step(
            cur.latest_state,
            channel as int,
            failed,
            ms,
            run.is_monochrome(),
            next.latest_state,
            step,
        ),
    ensures
        run.is_reached(next, step),
{
    let c = channel as int;
    let survey = run.survey(c);
    let indices = run.indices();
    let pre = state_of(cur.latest_state, c);
    let post = state_of(next.latest_state, c);
    let ok = choose|ok: bool|
        {
            &&& #[trigger] are_measurements_taken(pre, ms, post, ok)
            &&& step == step_after(
                c,
                failed,
                if ok {
                    Ok(())
                } else {
                    Err(NoiseError::LatestStrengthUnsolved)
                },
                run.is_monochrome(),
            )
        };
    let r: Result<(), NoiseError> = if ok {
        Ok(())
    } else {
        Err(NoiseError::LatestStrengthUnsolved)
    };
    let mid = choose|s: NoiseModelState<T>|
        {
            &&& is_solver_filled(pre, ms, s)
            &&& #[trigger] are_strengths_found(s, post, ok)
        };
    let luma = luma_noise(c, luma_for(&cur.latest_state, c), pre, run.pre.n);
    survey.lemma_all_measured(
        indices,
        pre.ar_gain,
        luma,
        pre.strength_solver.num_bins,
        ms,
        ms.len() as int,
        mid.strength_solver,
    );
    assert(is_state_measured(survey, indices, luma, pre, mid));
    assert(is_strength_updated(survey, indices, luma, pre, post, r));
    assert(c > 0 ==> next.latest_state.y == cur.latest_state.y);
    assert(luma_for(&next.latest_state, c) == luma_for(&cur.latest_state, c));
    assert(run.is_plane_done(next.latest_state, c, r));
    run.lemma_plane_ends(next, c, failed, r);
}

/// Combining the states ends the update.
pub proof fn law_combining_ends<'a, T: Kernels>(
    run: Run<'a, T>,
    cur: NoiseModel<T>,
    next: NoiseModel<T>,
    status: NoiseStatus,
)
    requires
        run.is_reached(cur, UpdateStep::Combine),
        next.n == cur.n,
        next.coords@ == cur.coords@,
        next.latest_state == cur.latest_state,
        are_combined(
            cur.combined_state,
            cur.latest_state,
            run.is_monochrome(),
            next.combined_state,
            status,
        ),
    ensures
        is_updated(run.pre, run.source, run.denoised, run.flat_blocks, next, status),
{
    assert(is_frame_taken_in(
        run.pre,
        run.source,
        run.denoised,
        run.flat_blocks,
        run.cleared,
        next,
        status,
    ));
}

} // verus!
