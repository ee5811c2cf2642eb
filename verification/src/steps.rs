//! Taking in a frame step by step, for callers that do the work on the blocks themselves.
//!
//! The model says what is to be done next, the caller does it and hands in what came of it.
use crate::equations::EquationSystem;
use crate::kernels::Kernels;
use crate::measurements::{holds_measurements, solver_of};
use crate::model::{
    are_coefficients_found, are_strengths_found, is_chroma_channel, latest_coefficients,
    latest_strengths, ChannelStates, NoiseError, NoiseModel, NoiseStatus,
};
use crate::observations::{is_chunk_total, num_in_chunks, sum_chunks};
use crate::state::{NoiseModelState, NUM_BINS};
use vstd::prelude::*;

verus! {

/// What is to be done next. `failed` is why the first chroma plane could not be updated, if
/// it could not.
#[derive(Clone, Copy, Debug, PartialEq, Eq)]
pub enum UpdateStep {
    /// The flat blocks of a plane are to be observed, chunk by chunk.
    Observe { channel: usize, failed: Option<NoiseError> },
    /// The noise in the flat blocks of a plane is to be measured.
    Measure { channel: usize, failed: Option<NoiseError> },
    /// The latest states are to be combined with those before.
    Combine,
    /// The frame is taken in, or cannot be.
    Done(NoiseStatus),
}

/// The result that goes with a possible error.
pub open spec fn result_of(failed: Option<NoiseError>) -> Result<(), NoiseError> {
    match failed {
        Some(e) => Err(e),
        None => Ok(()),
    }
}

/// The step after a plane with the result `r`. A chroma plane is updated even if the one
/// before it could not be.
pub open spec fn step_after(
    channel: int,
    failed: Option<NoiseError>,
    r: Result<(), NoiseError>,
    monochrome: bool,
) -> UpdateStep {
    if channel == 0 {
        match r {
            Err(e) => UpdateStep::Done(NoiseStatus::Error(e)),
            Ok(_) => if monochrome {
                UpdateStep::Combine
            } else {
                UpdateStep::Observe { channel: 1, failed: None }
            },
        }
    } else if channel == 1 {
        UpdateStep::Observe {
            channel: 2,
            failed: match r {
                Err(e) => Some(e),
                Ok(_) => None,
            },
        }
    } else {
        match failed {
            Some(e) => UpdateStep::Done(NoiseStatus::Error(e)),
            None => match r {
                Err(e) => UpdateStep::Done(NoiseStatus::Error(e)),
                Ok(_) => UpdateStep::Combine,
            },
        }
    }
}

fn next_step(
    channel: usize,
    failed: Option<NoiseError>,
    r: Result<(), NoiseError>,
    monochrome: bool,
) -> (step: UpdateStep)
    ensures
        step == step_after(channel as int, failed, r, monochrome),
{
    if channel == 0 {
        match r {
            Err(e) => UpdateStep::Done(NoiseStatus::Error(e)),
            Ok(_) => if monochrome {
                UpdateStep::Combine
            } else {
                UpdateStep::Observe { channel: 1, failed: None }
            },
        }
    } else if channel == 1 {
        UpdateStep::Observe { channel: 2, failed: r.err() }
    } else {
        match failed {
            Some(e) => UpdateStep::Done(NoiseStatus::Error(e)),
            None => match r {
                Err(e) => UpdateStep::Done(NoiseStatus::Error(e)),
                Ok(_) => UpdateStep::Combine,
            },
        }
    }
}

/// The state of a plane.
pub open spec fn state_of<T>(s: ChannelStates<T>, channel: int) -> NoiseModelState<T> {
    if channel == 0 {
        s.y
    } else if channel == 1 {
        s.cb
    } else {
        s.cr
    }
}

/// Whether two sets of states differ in one plane at most.
pub open spec fn is_only_changed<T>(
    pre: ChannelStates<T>,
    channel: int,
    post: ChannelStates<T>,
) -> bool {
    &&& channel != 0 ==> post.y == pre.y
    &&& channel != 1 ==> post.cb == pre.cb
    &&& channel == 0 || channel == 1 ==> post.cr == pre.cr
}

/// Whether `post` is `pre` with the system replaced by the sum of the chunks.
pub open spec fn are_chunks_summed<T: Kernels>(
    pre: NoiseModelState<T>,
    chunks: Seq<(EquationSystem<T>, usize)>,
    post: NoiseModelState<T>,
) -> bool {
    &&& post.eqns.wf()
    &&& post.eqns.n == pre.eqns.n
    &&& is_chunk_total(chunks, pre.eqns.n, chunks.len() as int, post.eqns)
    &&& post.num_observations == num_in_chunks(chunks, chunks.len() as int)
    &&& post.ar_gain == pre.ar_gain
    &&& post.strength_solver == pre.strength_solver
}

/// Whether taking the chunks of a plane can lead from `pre` to `post`, with coefficients
/// `found` or not.
pub open spec fn are_chunks_taken<T: Kernels>(
    pre: NoiseModelState<T>,
    channel: int,
    chunks: Seq<(EquationSystem<T>, usize)>,
    post: NoiseModelState<T>,
    found: bool,
) -> bool {
    exists|s: NoiseModelState<T>|
        {
            &&& are_chunks_summed(pre, chunks, s)
            &&& #[trigger] are_coefficients_found(s, is_chroma_channel(channel), post, found)
        }
}

/// Whether `post` is `pre` with the strength solver replaced by one for the measurements.
pub open spec fn is_solver_filled<T: Kernels>(
    pre: NoiseModelState<T>,
    ms: Seq<Option<(T, T)>>,
    post: NoiseModelState<T>,
) -> bool {
    &&& post.eqns == pre.eqns
    &&& post.ar_gain == pre.ar_gain
    &&& post.num_observations == pre.num_observations
    &&& holds_measurements(
        pre.strength_solver.num_bins,
        ms,
        ms.len() as int,
        post.strength_solver,
    )
}

/// Whether taking the measurements of a plane can lead from `pre` to `post`, with strengths
/// found, `ok`, or not.
pub open spec fn are_measurements_taken<T: Kernels>(
    pre: NoiseModelState<T>,
    ms: Seq<Option<(T, T)>>,
    post: NoiseModelState<T>,
    ok: bool,
) -> bool {
    exists|s: NoiseModelState<T>|
        {
            &&& is_solver_filled(pre, ms, s)
            &&& #[trigger] are_strengths_found(s, post, ok)
        }
}

/// Whether taking the chunks of a plane can lead from `pre` to `post` and `step`.
pub open spec fn is_observation_step<T: Kernels>(
    pre: ChannelStates<T>,
    channel: int,
    failed: Option<NoiseError>,
    chunks: Seq<(EquationSystem<T>, usize)>,
    monochrome: bool,
    post: ChannelStates<T>,
    step: UpdateStep,
) -> bool {
    &&& is_only_changed(pre, channel, post)
    &&& exists|found: bool|
        {
            &&& #[trigger] are_chunks_taken(
                state_of(pre, channel),
                channel,
                chunks,
                state_of(post, channel),
                found,
            )
            &&& step == if found {
                UpdateStep::Measure { channel: channel as usize, failed }
            } else {
                step_after(channel, failed, Err(NoiseError::LatestSystemUnsolved), monochrome)
            }
        }
}

/// Whether taking the measurements of a plane can lead from `pre` to `post` and `step`.
pub open spec fn is_measuring_step<T: Kernels>(
    pre: ChannelStates<T>,
    channel: int,
    failed: Option<NoiseError>,
    ms: Seq<Option<(T, T)>>,
    monochrome: bool,
    post: ChannelStates<T>,
    step: UpdateStep,
) -> bool {
    &&& is_only_changed(pre, channel, post)
    &&& exists|ok: bool|
        {
            &&& #[trigger] are_measurements_taken(
                state_of(pre, channel),
                ms,
                state_of(post, channel),
                ok,
            )
            &&& step == step_after(
                channel,
                failed,
                if ok {
                    Ok(())
                } else {
                    Err(NoiseError::LatestStrengthUnsolved)
                },
                monochrome,
            )
        }
}

/// Replaces the system of a state by the sum of the chunks, and finds the coefficients.
fn take_chunks<T: Kernels>(
    channel: usize,
    state: &mut NoiseModelState<T>,
    chunks: &Vec<(EquationSystem<T>, usize)>,
) -> (r: Result<(), NoiseError>)
    requires
        old(state).wf(),
        1 <= old(state).eqns.n <= 25,
        forall|c: int|
            0 <= c < chunks.len() ==> (#[trigger] chunks@[c]).0.wf() && chunks@[c].0.n == old(
                state,
            ).eqns.n,
        num_in_chunks(chunks@, chunks.len() as int) <= usize::MAX,
    ensures
        final(state).wf(),
        final(state).eqns.n == old(state).eqns.n,
        are_chunks_taken(*old(state), channel as int, chunks@, *final(state), r is Ok),
        r matches Err(e) ==> e == NoiseError::LatestSystemUnsolved,
{
    let n = state.eqns.n;
    assert(n * n <= 625) by (nonlinear_arith)
        requires
            n <= 25,
    ;
    let (eqns, num_observations) = sum_chunks(n, chunks);
    state.eqns = eqns;
    state.num_observations = num_observations;
    let ghost s = *state;
    let r = latest_coefficients(channel, state);
    let ghost found = r is Ok;
    assert(are_chunks_summed(*old(state), chunks@, s));
    assert(are_coefficients_found(s, is_chroma_channel(channel as int), *state, found));
    r
}

/// Replaces the strength solver of a state by one for the measurements, and finds the
/// strengths.
fn fill_solver<T: Kernels>(
    state: &mut NoiseModelState<T>,
    measurements: &Vec<Option<(T, T)>>,
) -> (r: Result<(), NoiseError>)
    requires
        old(state).wf(),
    ensures
        final(state).wf(),
        final(state).eqns == old(state).eqns,
        are_measurements_taken(*old(state), measurements@, *final(state), r is Ok),
        r matches Err(e) ==> e == NoiseError::LatestStrengthUnsolved,
{
    state.strength_solver = solver_of(NUM_BINS, measurements);
    let ghost s = *state;
    let r = latest_strengths(state);
    let ghost ok = r is Ok;
    assert(is_solver_filled(*old(state), measurements@, s));
    assert(are_strengths_found(s, *state, ok));
    r
}

impl<T: Kernels> NoiseModel<T> {
    /// Takes in what the chunks of blocks of a plane show, and says what is to be done next.
    pub fn take_observations(
        &mut self,
        channel: usize,
        failed: Option<NoiseError>,
        chunks: &Vec<(EquationSystem<T>, usize)>,
        monochrome: bool,
    ) -> (step: UpdateStep)
        requires
            old(self).wf(),
            channel < 3,
            forall|c: int|
                0 <= c < chunks.len() ==> (#[trigger] chunks@[c]).0.wf() && chunks@[c].0.n
                    == state_of(old(self).latest_state, channel as int).eqns.n,
            num_in_chunks(chunks@, chunks.len() as int) <= usize::MAX,
        ensures
            final(self).wf(),
            final(self).n == old(self).n,
            final(self).coords@ == old(self).coords@,
            final(self).combined_state == old(self).combined_state,
            is_observation_step(
                old(self).latest_state,
                channel as int,
                failed,
                chunks@,
                monochrome,
                final(self).latest_state,
                step,
            ),
    {
        let r = if channel == 0 {
            take_chunks(channel, &mut self.latest_state.y, chunks)
        } else if channel == 1 {
            take_chunks(channel, &mut self.latest_state.cb, chunks)
        } else {
            take_chunks(channel, &mut self.latest_state.cr, chunks)
        };
        let ghost found = r is Ok;
        assert(are_chunks_taken(
            state_of(old(self).latest_state, channel as int),
            channel as int,
            chunks@,
            state_of(self.latest_state, channel as int),
            found,
        ));
        match r {
            Ok(_) => UpdateStep::Measure { channel, failed },
            Err(e) => next_step(channel, failed, Err(e), monochrome),
        }
    }

    /// Takes in the measurements of the blocks of a plane, and says what is to be done next.
    pub fn take_measurements(
        &mut self,
        channel: usize,
        failed: Option<NoiseError>,
        measurements: &Vec<Option<(T, T)>>,
        monochrome: bool,
    ) -> (step: UpdateStep)
        requires
            old(self).wf(),
            channel < 3,
        ensures
            final(self).wf(),
            final(self).n == old(self).n,
            final(self).coords@ == old(self).coords@,
            final(self).combined_state == old(self).combined_state,
            is_measuring_step(
                old(self).latest_state,
                channel as int,
                failed,
                measurements@,
                monochrome,
                final(self).latest_state,
                step,
            ),
    {
        let r = if channel == 0 {
            fill_solver(&mut self.latest_state.y, measurements)
        } else if channel == 1 {
            fill_solver(&mut self.latest_state.cb, measurements)
        } else {
            fill_solver(&mut self.latest_state.cr, measurements)
        };
        let ghost ok = r is Ok;
        assert(are_measurements_taken(
            state_of(old(self).latest_state, channel as int),
            measurements@,
            state_of(self.latest_state, channel as int),
            ok,
        ));
        assert(ok ==> r->Ok_0 == ());
        next_step(channel, failed, r, monochrome)
    }
}

} // verus!
