//! The noise model of a frame.
use crate::equations::is_chroma_fallback;
use crate::kernels::Kernels;
use crate::matrix::copied;
use crate::measurements::LumaNoise;
use crate::observations::{are_near, offsets_of, ChannelSurvey};
use crate::scalar::Scalar;
use crate::state::{is_blank_state, is_gain_solved, is_same_state, NoiseModelState};
use crate::strength::is_strength_solved;
use crate::{BLOCK_SIZE_SQUARED, NOISE_MODEL_LAG, NUM_UV_COEFFS, NUM_Y_COEFFS};
use vstd::prelude::*;

verus! {

/// Why the model could not be updated.
#[derive(Clone, Copy, Debug, PartialEq, Eq, Structural)]
pub enum NoiseError {
    NotEnoughFlatBlocks,
    LatestSystemUnsolved,
    CombinedSystemUnsolved,
    LatestStrengthUnsolved,
    CombinedStrengthUnsolved,
}

/// The words in which an error is reported.
pub open spec fn error_message(e: NoiseError) -> &'static str {
    match e {
        NoiseError::NotEnoughFlatBlocks => "Not enough flat blocks to update noise estimate",
        NoiseError::LatestSystemUnsolved => {
            "Solving latest noise equation system failed on plane 0"
        },
        NoiseError::CombinedSystemUnsolved => {
            "Solving combined noise equation system failed on plane 0"
        },
        NoiseError::LatestStrengthUnsolved => "Failed to solve strength solver for latest state",
        NoiseError::CombinedStrengthUnsolved => {
            "Failed to solve strength solver for combined state"
        },
    }
}

impl NoiseError {
    /// The words in which the error is reported. The equations of a chroma plane have a
    /// fallback solution, so only plane 0 can be left without one.
    pub fn message(&self) -> (m: &'static str)
        ensures
            m == error_message(*self),
    {
        match self {
            NoiseError::NotEnoughFlatBlocks => "Not enough flat blocks to update noise estimate",
            NoiseError::LatestSystemUnsolved => {
                "Solving latest noise equation system failed on plane 0"
            },
            NoiseError::CombinedSystemUnsolved => {
                "Solving combined noise equation system failed on plane 0"
            },
            NoiseError::LatestStrengthUnsolved => {
                "Failed to solve strength solver for latest state"
            },
            NoiseError::CombinedStrengthUnsolved => {
                "Failed to solve strength solver for combined state"
            },
        }
    }
}

/// What came of an update of the model.
#[derive(Clone, Copy, Debug, PartialEq, Eq, Structural)]
pub enum NoiseStatus {
    /// The frame was added to the model.
    Updated,
    /// The noise of the frame is too different; the model was left as it was.
    DifferentType,
    /// The model could not be updated.
    Error(NoiseError),
}

/// Whether the planes of channel number `channel` hold chroma.
pub open spec fn is_chroma_channel(channel: int) -> bool {
    channel > 0
}

/// Whether `post` is `pre` with the system replaced by the observations of the blocks.
pub open spec fn is_state_observed<T: Kernels>(
    survey: ChannelSurvey,
    indices: Seq<usize>,
    coords: Seq<[isize; 2]>,
    num_coords: usize,
    pre: NoiseModelState<T>,
    post: NoiseModelState<T>,
) -> bool {
    &&& post.eqns.wf()
    &&& post.eqns.n == pre.eqns.n
    &&& survey.is_total(
        indices,
        offsets_of(coords, num_coords, survey.source.geometry.stride),
        num_coords,
        pre.eqns.n,
        survey.num_chunks(indices),
        post.eqns,
    )
    &&& post.num_observations == survey.num_observations(indices, 0, indices.len() as int)
    &&& post.ar_gain == pre.ar_gain
    &&& post.strength_solver == pre.strength_solver
}

/// Whether `post` is `pre` after an attempt to find the coefficients that came out as
/// `ok`. For a chroma plane it always succeeds: there is a fallback solution.
pub open spec fn are_coefficients_found<T: Kernels>(
    pre: NoiseModelState<T>,
    is_chroma: bool,
    post: NoiseModelState<T>,
    ok: bool,
) -> bool {
    exists|mid: NoiseModelState<T>, solved: bool|
        {
            &&& #[trigger] is_gain_solved(pre, is_chroma, mid, solved)
            &&& ok == (solved || is_chroma)
            &&& if solved || !is_chroma {
                post == mid
            } else {
                &&& is_chroma_fallback(mid.eqns, post.eqns)
                &&& post.ar_gain == mid.ar_gain
                &&& post.num_observations == mid.num_observations
                &&& post.strength_solver == mid.strength_solver
            }
        }
}

/// What is known of the luma noise, for a chroma plane with the state `s`.
pub open spec fn luma_noise<'a, T>(
    channel: int,
    luma: Option<&'a NoiseModelState<T>>,
    s: NoiseModelState<T>,
    num_coords: usize,
) -> Option<LumaNoise<'a, T>> {
    if channel > 0 {
        Some(
            LumaNoise {
                corr: s.eqns.x@[num_coords as int],
                gain: luma->0.ar_gain,
                solver: &luma->0.strength_solver,
            },
        )
    } else {
        None
    }
}

/// Whether `post` is `pre` with the strength solver replaced by the measurements of the
/// blocks.
pub open spec fn is_state_measured<T: Kernels>(
    survey: ChannelSurvey,
    indices: Seq<usize>,
    luma: Option<LumaNoise<T>>,
    pre: NoiseModelState<T>,
    post: NoiseModelState<T>,
) -> bool {
    &&& post.eqns == pre.eqns
    &&& post.ar_gain == pre.ar_gain
    &&& post.num_observations == pre.num_observations
    &&& survey.are_measured(
        indices,
        pre.ar_gain,
        luma,
        pre.strength_solver.num_bins,
        indices.len() as int,
        post.strength_solver,
    )
}

/// Whether `post` is `pre` after an attempt to find the strengths that came out as `ok`.
pub open spec fn are_strengths_found<T: Kernels>(
    pre: NoiseModelState<T>,
    post: NoiseModelState<T>,
    ok: bool,
) -> bool {
    &&& post.eqns == pre.eqns
    &&& post.ar_gain == pre.ar_gain
    &&& post.num_observations == pre.num_observations
    &&& is_strength_solved(pre.strength_solver, post.strength_solver, ok)
}

/// Whether updating the latest state of a plane can lead from `pre` to `post` and `r`.
pub open spec fn is_channel_updated<T: Kernels>(
    survey: ChannelSurvey,
    indices: Seq<usize>,
    coords: Seq<[isize; 2]>,
    num_coords: usize,
    channel: int,
    luma: Option<&NoiseModelState<T>>,
    pre: NoiseModelState<T>,
    post: NoiseModelState<T>,
    r: Result<(), NoiseError>,
) -> bool {
    exists|s1: NoiseModelState<T>, s2: NoiseModelState<T>, found: bool|
        {
            &&& is_state_observed(survey, indices, coords, num_coords, pre, s1)
            &&& #[trigger] are_coefficients_found(s1, is_chroma_channel(channel), s2, found)
            &&& if found {
                is_strength_updated(
                    survey,
                    indices,
                    luma_noise(channel, luma, s2, num_coords),
                    s2,
                    post,
                    r,
                )
            } else {
                post == s2 && r == Err::<(), NoiseError>(NoiseError::LatestSystemUnsolved)
            }
        }
}

/// Whether updating the strengths in the latest state of a plane can lead from `pre` to
/// `post` and `r`.
pub open spec fn is_strength_updated<T: Kernels>(
    survey: ChannelSurvey,
    indices: Seq<usize>,
    luma: Option<LumaNoise<T>>,
    pre: NoiseModelState<T>,
    post: NoiseModelState<T>,
    r: Result<(), NoiseError>,
) -> bool {
    exists|mid: NoiseModelState<T>, ok: bool|
        {
            &&& is_state_measured(survey, indices, luma, pre, mid)
            &&& #[trigger] are_strengths_found(mid, post, ok)
            &&& r == if ok {
                Ok(())
            } else {
                Err(NoiseError::LatestStrengthUnsolved)
            }
        }
}

/// Finds the auto-regressive coefficients, and says whether there are any.
pub(crate) fn find_coefficients<T: Kernels>(state: &mut NoiseModelState<T>, is_chroma: bool) -> (ok: bool)
    requires
        old(state).wf(),
        is_chroma ==> old(state).eqns.n >= 1,
    ensures
        final(state).wf(),
        final(state).eqns.n == old(state).eqns.n,
        final(state).num_observations == old(state).num_observations,
        final(state).strength_solver == old(state).strength_solver,
        are_coefficients_found(*old(state), is_chroma, *final(state), ok),
        is_chroma ==> ok,
{
    let solved = state.ar_equation_system_solve(is_chroma);
    assert(is_gain_solved(*old(state), is_chroma, *state, solved));
    if !solved && is_chroma {
        state.eqns.set_chroma_coefficient_fallback_solution();
    }
    solved || is_chroma
}

/// Replaces the system of a state by the observations of the blocks.
fn add_block_observations<T: Kernels>(
    model_n: usize,
    coords: &Vec<[isize; 2]>,
    state: &mut NoiseModelState<T>,
    survey: &ChannelSurvey,
    indices: &Vec<usize>,
)
    requires
        old(state).wf(),
        survey.wf(indices@),
        are_near(coords@),
        model_n <= NUM_Y_COEFFS,
        old(state).eqns.n == NUM_Y_COEFFS || old(state).eqns.n == NUM_UV_COEFFS,
    ensures
        is_state_observed(*survey, indices@, coords@, model_n, *old(state), *final(state)),
        final(state).num_observations <= indices.len() * BLOCK_SIZE_SQUARED,
{
    let (eqns, num_observations) = survey.block_observations::<T>(
        coords,
        model_n,
        state.eqns.n,
        indices,
    );
    state.eqns = eqns;
    state.num_observations = num_observations;
}

/// What is known of the luma noise, for a plane with the given state: nothing for the luma
/// plane itself.
pub fn luma_noise_of<'a, T: Copy>(
    channel: usize,
    model_n: usize,
    state: &NoiseModelState<T>,
    luma: Option<&'a NoiseModelState<T>>,
) -> (noise: Option<LumaNoise<'a, T>>)
    requires
        channel > 0 ==> model_n < state.eqns.x.len() && luma is Some,
    ensures
        noise == luma_noise(channel as int, luma, *state, model_n),
{
    if channel > 0 {
        let y_state = luma.unwrap();
        Some(
            LumaNoise {
                corr: state.eqns.x[model_n],
                gain: y_state.ar_gain,
                solver: &y_state.strength_solver,
            },
        )
    } else {
        None
    }
}

/// Replaces the strength solver of a state by the measurements of the blocks.
fn add_noise_std_observations<T: Kernels>(
    channel: usize,
    model_n: usize,
    state: &mut NoiseModelState<T>,
    survey: &ChannelSurvey,
    indices: &Vec<usize>,
    luma: Option<&NoiseModelState<T>>,
)
    requires
        old(state).wf(),
        survey.is_measurable(indices@),
        channel > 0 ==> model_n < old(state).eqns.n && luma is Some && luma->0.wf(),
    ensures
        final(state).wf(),
        is_state_measured(
            *survey,
            indices@,
            luma_noise(channel as int, luma, *old(state), model_n),
            *old(state),
            *final(state),
        ),
        final(state).strength_solver.num_equations <= indices.len(),
{
    let luma_noise = luma_noise_of(channel, model_n, state, luma);
    let strength_solver = survey.measure_strength(
        state.ar_gain,
        &luma_noise,
        state.strength_solver.num_bins,
        indices,
    );
    state.strength_solver = strength_solver;
}

/// Finds the auto-regressive coefficients of the latest state of a plane.
pub fn latest_coefficients<T: Kernels>(channel: usize, state: &mut NoiseModelState<T>) -> (r:
    Result<(), NoiseError>)
    requires
        old(state).wf(),
        channel > 0 ==> old(state).eqns.n >= 1,
    ensures
        final(state).wf(),
        final(state).eqns.n == old(state).eqns.n,
        final(state).num_observations == old(state).num_observations,
        final(state).strength_solver == old(state).strength_solver,
        are_coefficients_found(
            *old(state),
            is_chroma_channel(channel as int),
            *final(state),
            r is Ok,
        ),
        r matches Err(e) ==> e == NoiseError::LatestSystemUnsolved,
        channel > 0 ==> r is Ok,
{
    if find_coefficients(state, channel > 0) {
        Ok(())
    } else {
        Err(NoiseError::LatestSystemUnsolved)
    }
}

/// Finds the strengths of the latest state of a plane.
pub fn latest_strengths<T: Kernels>(state: &mut NoiseModelState<T>) -> (r: Result<
    (),
    NoiseError,
>)
    requires
        old(state).wf(),
    ensures
        final(state).wf(),
        are_strengths_found(*old(state), *final(state), r is Ok),
        r matches Err(e) ==> e == NoiseError::LatestStrengthUnsolved,
{
    if state.strength_solver.solve() {
        Ok(())
    } else {
        Err(NoiseError::LatestStrengthUnsolved)
    }
}

/// Replaces the latest state of a plane by what its blocks show. `luma` is the state of the
/// luma plane, which must have been updated before, for a chroma plane.
pub fn update_latest_channel<T: Kernels>(
    channel: usize,
    model_n: usize,
    coords: &Vec<[isize; 2]>,
    state: &mut NoiseModelState<T>,
    survey: &ChannelSurvey,
    indices: &Vec<usize>,
    luma: Option<&NoiseModelState<T>>,
) -> (r: Result<(), NoiseError>)
    requires
        old(state).wf(),
        survey.wf(indices@),
        are_near(coords@),
        model_n == NUM_Y_COEFFS,
        old(state).eqns.n == if channel > 0 {
            NUM_UV_COEFFS
        } else {
            NUM_Y_COEFFS
        },
        channel > 0 ==> luma is Some && luma->0.wf(),
    ensures
        final(state).wf(),
        final(state).eqns.n == old(state).eqns.n,
        is_channel_updated(
            *survey,
            indices@,
            coords@,
            model_n,
            channel as int,
            luma,
            *old(state),
            *final(state),
            r,
        ),
        final(state).num_observations <= indices.len() * BLOCK_SIZE_SQUARED,
        r is Ok ==> final(state).strength_solver.num_equations <= indices.len(),
{
    add_block_observations(model_n, coords, state, survey, indices);
    let ghost s1 = *state;
    let found = latest_coefficients(channel, state);
    let ghost verdict = found is Ok;
    assert(are_coefficients_found(s1, is_chroma_channel(channel as int), *state, verdict));
    if found.is_err() {
        return found;
    }
    let ghost s2 = *state;
    add_noise_std_observations(channel, model_n, state, survey, indices, luma);
    let ghost s3 = *state;
    let ok = latest_strengths(state);
    proof {
        let verdict = ok is Ok;
        assert(are_strengths_found(s3, *state, verdict));
        assert(verdict ==> ok->Ok_0 == ());
        assert(is_strength_updated(
            *survey,
            indices@,
            luma_noise(channel as int, luma, s2, model_n),
            s2,
            *state,
            ok,
        ));
    }
    ok
}

/// The states of the three planes of a frame.
#[derive(Debug)]
pub struct ChannelStates<T> {
    pub y: NoiseModelState<T>,
    pub cb: NoiseModelState<T>,
    pub cr: NoiseModelState<T>,
}

impl<T> ChannelStates<T> {
    /// The luma state has one coefficient less than those of the chroma planes.
    pub open spec fn wf(self) -> bool {
        &&& self.y.wf()
        &&& self.cb.wf()
        &&& self.cr.wf()
        &&& self.y.eqns.n == NUM_Y_COEFFS
        &&& self.cb.eqns.n == NUM_UV_COEFFS
        &&& self.cr.eqns.n == NUM_UV_COEFFS
    }

    /// Whether `blocks` more blocks can be counted.
    pub open spec fn has_room(self, blocks: int) -> bool {
        &&& has_room_for(self.y, blocks)
        &&& has_room_for(self.cb, blocks)
        &&& has_room_for(self.cr, blocks)
    }
}

/// Whether the observations and measurements of `blocks` more blocks can be counted.
pub open spec fn has_room_for<T>(s: NoiseModelState<T>, blocks: int) -> bool {
    &&& s.num_observations + blocks * BLOCK_SIZE_SQUARED <= usize::MAX
    &&& s.strength_solver.num_equations + blocks <= usize::MAX
}

/// Whether the same is known of all planes.
pub open spec fn are_same_states<T>(a: ChannelStates<T>, b: ChannelStates<T>) -> bool {
    &&& is_same_state(a.y, b.y)
    &&& is_same_state(a.cb, b.cb)
    &&& is_same_state(a.cr, b.cr)
}

impl<T: Copy> Clone for ChannelStates<T> {
    /// States in which the same is known of all planes.
    fn clone(&self) -> (s: Self)
        ensures
            are_same_states(*self, s),
    {
        ChannelStates { y: self.y.clone(), cb: self.cb.clone(), cr: self.cr.clone() }
    }
}

/// A model of the noise in a sequence of frames.
#[derive(Debug)]
pub struct NoiseModel<T> {
    /// What all frames so far show.
    pub combined_state: ChannelStates<T>,
    /// What the latest frame shows.
    pub latest_state: ChannelStates<T>,
    /// The number of coefficients of the luma plane.
    pub n: usize,
    /// The positions that the model looks at, as columns and rows from a pixel.
    pub coords: Vec<[isize; 2]>,
}

/// The number of pixels in a row of the causal neighbourhood.
pub const NEIGHBOURHOOD_WIDTH: usize = 7;

/// The positions that the model looks at: in reading order, all that are at most the lag
/// away, up to the pixel itself.
pub open spec fn causal_coords() -> Seq<[isize; 2]> {
    Seq::new(
        NUM_Y_COEFFS as nat,
        |i: int|
            [
                (i % (NEIGHBOURHOOD_WIDTH as int) - NOISE_MODEL_LAG) as isize,
                (i / (NEIGHBOURHOOD_WIDTH as int) - NOISE_MODEL_LAG) as isize,
            ],
    )
}

impl<T> NoiseModel<T> {
    /// The states and the positions fit together.
    pub open spec fn wf(self) -> bool {
        &&& self.combined_state.wf()
        &&& self.latest_state.wf()
        &&& self.n == NUM_Y_COEFFS
        &&& self.coords@ == causal_coords()
    }
}

impl<T: Copy> Clone for NoiseModel<T> {
    /// A model that knows the same.
    fn clone(&self) -> (m: Self)
        ensures
            are_same_states(self.combined_state, m.combined_state),
            are_same_states(self.latest_state, m.latest_state),
            m.n == self.n,
            m.coords@ == self.coords@,
    {
        NoiseModel {
            combined_state: self.combined_state.clone(),
            latest_state: self.latest_state.clone(),
            n: self.n,
            coords: copied(&self.coords),
        }
    }
}

/// Whether the position `dx` columns and `dy` rows away is at most the lag away and comes
/// before the pixel itself in reading order.
pub open spec fn is_causal(dx: int, dy: int) -> bool {
    &&& -NOISE_MODEL_LAG <= dx <= NOISE_MODEL_LAG
    &&& -NOISE_MODEL_LAG <= dy <= 0
    &&& dy < 0 || dx < 0
}

/// The model looks at exactly the positions that are at most the lag away and come before
/// the pixel in reading order, and at each of them once.
pub proof fn law_coords_are_causal(dx: isize, dy: isize)
    ensures
        is_causal(dx as int, dy as int) <==> exists|i: int|
            0 <= i < causal_coords().len() && #[trigger] causal_coords()[i] == [dx, dy],
        forall|i: int, j: int|
            0 <= i < j < causal_coords().len() ==> #[trigger] causal_coords()[i]
                != #[trigger] causal_coords()[j],
{
    if is_causal(dx as int, dy as int) {
        let i = (dy + 3) * 7 + (dx + 3);
        assert(0 <= i < 24 && i / 7 == dy + 3 && i % 7 == dx + 3);
        assert(causal_coords()[i]@ =~= [dx, dy]@);
    }
    if exists|i: int| 0 <= i < causal_coords().len() && #[trigger] causal_coords()[i] == [dx, dy] {
        let i = choose|i: int|
            0 <= i < causal_coords().len() && #[trigger] causal_coords()[i] == [dx, dy];
        assert(causal_coords()[i][0] == dx && causal_coords()[i][1] == dy);
        assert(i == 7 * (i / 7) + i % 7);
    }
    assert forall|i: int, j: int| 0 <= i < j < causal_coords().len() implies #[trigger] causal_coords()[i]
        != #[trigger] causal_coords()[j] by {
        let a = causal_coords()[i];
        let b = causal_coords()[j];
        assert(a[0] == i % 7 - 3 && a[1] == i / 7 - 3);
        assert(b[0] == j % 7 - 3 && b[1] == j / 7 - 3);
        assert(i == 7 * (i / 7) + i % 7);
        assert(j == 7 * (j / 7) + j % 7);
    }
}

/// All positions that the model looks at are near.
pub(crate) proof fn lemma_causal_coords_are_near()
    ensures
        are_near(causal_coords()),
{
    assert forall|i: int| 0 <= i < causal_coords().len() implies {
        &&& -NOISE_MODEL_LAG <= (#[trigger] causal_coords()[i])[0] <= NOISE_MODEL_LAG
        &&& -NOISE_MODEL_LAG <= causal_coords()[i][1] <= 0
    } by {
        assert(0 <= i % 7 <= 6);
        assert(0 <= i / 7 <= 3);
    }
}

impl<T: Scalar> ChannelStates<T> {
    fn new() -> (s: Self)
        ensures
            s.wf(),
            are_blank(s),
    {
        ChannelStates {
            y: NoiseModelState::new(NUM_Y_COEFFS),
            cb: NoiseModelState::new(NUM_UV_COEFFS),
            cr: NoiseModelState::new(NUM_UV_COEFFS),
        }
    }
}

/// Whether nothing has been observed in any plane.
pub open spec fn are_blank<T: Scalar>(s: ChannelStates<T>) -> bool {
    &&& is_blank_state(s.y, NUM_Y_COEFFS)
    &&& is_blank_state(s.cb, NUM_UV_COEFFS)
    &&& is_blank_state(s.cr, NUM_UV_COEFFS)
}

impl<T: Scalar> NoiseModel<T> {
    /// A model that has not seen any frame.
    pub fn new() -> (m: Self)
        ensures
            m.wf(),
            are_blank(m.combined_state),
            are_blank(m.latest_state),
    {
        let n = Self::num_coeffs();
        let lag: isize = NOISE_MODEL_LAG as isize;
        let mut coords: Vec<[isize; 2]> = Vec::new();
        let mut y: isize = -lag;
        while y <= 0
            invariant
                lag == NOISE_MODEL_LAG,
                -lag <= y <= 1,
                coords.len() == if y <= 0 {
                    (y + lag) * 7
                } else {
                    NUM_Y_COEFFS as int
                },
                forall|k: int| 0 <= k < coords.len() ==> #[trigger] coords@[k] == causal_coords()[k],
            decreases 1 - y,
        {
            let max_x = if y == 0 {
                -1
            } else {
                lag
            };
            let mut x: isize = -lag;
            while x <= max_x
                invariant
                    lag == NOISE_MODEL_LAG,
                    -lag <= y <= 0,
                    max_x == if y == 0 {
                        -1
                    } else {
                        lag as int
                    },
                    -lag <= x <= max_x + 1,
                    coords.len() == (y + lag) * 7 + (x + lag),
                    forall|k: int|
                        0 <= k < coords.len() ==> #[trigger] coords@[k] == causal_coords()[k],
                decreases max_x + 1 - x,
            {
                proof {
                    let k = coords.len() as int;
                    assert(k == (y + 3) * 7 + (x + 3));
                    assert(k / 7 == y + 3 && k % 7 == x + 3);
                }
                let coord = [x, y];
                coords.push(coord);
                assert(coord@ =~= causal_coords()[coords.len() - 1]@);
                x = x + 1;
            }
            y = y + 1;
        }
        assert(coords@ =~= causal_coords());
        NoiseModel { combined_state: ChannelStates::new(), latest_state: ChannelStates::new(), n, coords }
    }

    /// The number of coefficients of the luma plane: half of the neighbourhood of a pixel.
    fn num_coeffs() -> (n: usize)
        ensures
            n == NUM_Y_COEFFS,
    {
        let n = 2 * NOISE_MODEL_LAG + 1;
        (n * n) / 2
    }
}

} // verus!
