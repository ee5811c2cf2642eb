//! How the noise of frames is put together, if the number type calculates exactly.
use crate::difference_laws::{
    correlates, law_other_direction_is_different, law_verdict, measured_in, sum_up, weighted_gaps,
};
use crate::equations::{is_chroma_fallback, is_cleared, is_solved, is_sum, EquationSystem};
use crate::exact::{is_defined, is_exact, is_root, law_worth, magnitude, worth};
use crate::frame_laws::lemma_planes;
use crate::gain_laws::{has_gain, law_gain};
use crate::kernels::{correlation_gives, linsolve_gives, Kernels};
use crate::measurement_laws::lemma_zero;
use crate::model::{
    are_coefficients_found, are_strengths_found, is_channel_updated, ChannelStates, NoiseError,
    NoiseModel, NoiseStatus,
};
use crate::plane::{ChromaSubsampling, Frame};
use crate::reals::lemma_quotient;
use crate::report_laws::lemma_below;
use crate::scalar::{
    count, denotes, is_below, is_zero, over, plus, ratio, unary, value, Formula, Scalar, UnaryOp,
};
use crate::solution_laws::{is_solution, is_sound};
use crate::state::{differs, is_blank_state, is_gain_solved, NoiseModelState};
use crate::strength::{is_strength_at, mean_strength};
use crate::update::{
    all_flat_indices, are_combined, are_measurements_added, are_merged, are_observations_added,
    are_states_cleared, chroma_survey, first_error, is_chroma_merged, is_chroma_updated,
    is_frame_taken_in, is_latest_updated, is_merged, is_state_saved, is_strength_merged,
    is_updated, luma_survey, status_of,
};
use crate::update_laws::{law_channel_errors, law_merge};
use vstd::prelude::*;

verus! {

/// Whether the entries of a system are the sums of those of two others.
pub open spec fn are_sums<T>(
    a: EquationSystem<T>,
    b: EquationSystem<T>,
    v: spec_fn(T) -> real,
    s: EquationSystem<T>,
) -> bool {
    &&& forall|k: int|
        0 <= k < a.a.len() ==> v(#[trigger] s.a@[k]) == v(a.a@[k]) + v(b.a@[k])
    &&& forall|k: int|
        0 <= k < a.b.len() ==> v(#[trigger] s.b@[k]) == v(a.b@[k]) + v(b.b@[k])
}

/// A sum of systems has the sums of their entries.
proof fn lemma_sums<T: Scalar>(
    a: EquationSystem<T>,
    b: EquationSystem<T>,
    s: EquationSystem<T>,
    v: spec_fn(T) -> real,
)
    requires
        is_exact(v),
        is_sum(a, b, s),
    ensures
        are_sums(a, b, v, s),
{
    reveal_with_fuel(worth, 2);
    reveal_with_fuel(is_defined, 2);
    assert forall|k: int| 0 <= k < a.a.len() implies v(#[trigger] s.a@[k]) == v(a.a@[k]) + v(
        b.a@[k],
    ) by {
        law_worth(plus(value(a.a@[k]), value(b.a@[k])), v, s.a@[k]);
    }
    assert forall|k: int| 0 <= k < a.b.len() implies v(#[trigger] s.b@[k]) == v(a.b@[k]) + v(
        b.b@[k],
    ) by {
        law_worth(plus(value(a.b@[k]), value(b.b@[k])), v, s.b@[k]);
    }
}

/// Whether `post` holds what was observed and measured in both `pre` and `latest`: all sums and
/// numbers are added up. The right-hand side for the strengths is drawn towards the mean of all
/// the measured strengths besides.
pub open spec fn holds_both<T>(
    pre: NoiseModelState<T>,
    latest: NoiseModelState<T>,
    v: spec_fn(T) -> real,
    post: NoiseModelState<T>,
) -> bool {
    let (p, q, s) = (pre.strength_solver, latest.strength_solver, post.strength_solver);
    &&& are_sums(pre.eqns, latest.eqns, v, post.eqns)
    &&& post.num_observations == pre.num_observations + latest.num_observations
    &&& v(s.total) == v(p.total) + v(q.total)
    &&& s.num_equations == p.num_equations + q.num_equations
    &&& forall|k: int|
        0 <= k < p.eqns.a.len() ==> v(#[trigger] s.eqns.a@[k]) == v(p.eqns.a@[k]) + v(q.eqns.a@[k])
    &&& s.num_equations >= 1 ==> forall|k: int|
        0 <= k < p.num_bins ==> v(#[trigger] s.eqns.b@[k]) == v(p.eqns.b@[k]) + v(q.eqns.b@[k]) + (v(
            s.total,
        ) / s.num_equations as real) / 8192real
}

/// Whether the coefficients solve the equations, and the gain is that of the noise; or, for a
/// chroma plane, all but the last are zero, the last alone solves its own equation, if that has
/// a factor that is not too small, and the gain is one.
pub open spec fn is_modelled<T>(
    s: NoiseModelState<T>,
    v: spec_fn(T) -> real,
    is_chroma: bool,
) -> bool {
    ||| {
        &&& is_solution(s.eqns.a@, s.eqns.n as int, s.eqns.b@, v, |k: int| v(s.eqns.x@[k]))
        &&& s.num_observations >= 1 ==> has_gain(s, v, is_chroma)
    }
    ||| is_chroma && is_left_to_luma(s.eqns, v) && v(s.ar_gain) == 1real
}

/// Whether all coefficients but the last are zero, and that is the quotient of the two sides of
/// its own equation, or zero if the factor there is too small.
pub open spec fn is_left_to_luma<T>(s: EquationSystem<T>, v: spec_fn(T) -> real) -> bool {
    let last = s.n - 1;
    let factor = v(s.a@[last * s.n + last]);
    &&& forall|k: int| 0 <= k < last ==> v(#[trigger] s.x@[k]) == 0real
    &&& magnitude(factor) > 1real / 1_000_000real ==> v(s.x@[last]) * factor == v(s.b@[last])
    &&& magnitude(factor) <= 1real / 1_000_000real ==> v(s.x@[last]) == 0real
}

/// The fallback for a chroma plane leaves the noise to luma.
pub proof fn law_fallback<T: Scalar>(
    pre: EquationSystem<T>,
    post: EquationSystem<T>,
    v: spec_fn(T) -> real,
)
    requires
        is_exact(v),
        pre.n >= 1,
        is_chroma_fallback(pre, post),
    ensures
        is_left_to_luma(post, v),
{
    let last = pre.n - 1;
    let e = pre.entry(last, last);
    let least: Formula<T> = ratio(1, 1_000_000);
    let size = unary(UnaryOp::Absolute, value(e));
    let large = choose|large: bool|
        {
            &&& #[trigger] is_below(least, size, large)
            &&& large ==> denotes(
                over(value(pre.b@[last]), value(e)),
                post.x@[last],
            )
            &&& !large ==> is_zero(post.x@[last])
        };
    reveal_with_fuel(worth, 2);
    reveal_with_fuel(is_defined, 2);
    assert(is_defined(least, v) && worth(least, v) == 1real / 1_000_000real) by {
        assert(1i64 as real == 1real && 1_000_000i64 as real == 1_000_000real);
    }
    assert(is_defined(size, v) && worth(size, v) == magnitude(v(e)));
    lemma_below(v, least, size, large);
    let zero: Formula<T> = count(0);
    assert(is_defined(zero, v) && worth(zero, v) == 0real);
    assert forall|k: int| 0 <= k < last implies v(#[trigger] post.x@[k]) == 0real by {
        law_worth(zero, v, post.x@[k]);
    }
    if large {
        let q = over(value(pre.b@[last]), value(e));
        law_worth(q, v, post.x@[last]);
        let (x, f, b) = (v(post.x@[last]), v(e), v(pre.b@[last]));
        lemma_quotient(b, f);
        assert(x * f == b);
    } else {
        law_worth(zero, v, post.x@[last]);
    }
}

/// The coefficients that are found model the noise.
pub(crate) proof fn lemma_modelled<T: Kernels>(
    pre: NoiseModelState<T>,
    is_chroma: bool,
    post: NoiseModelState<T>,
    found: bool,
    v: spec_fn(T) -> real,
)
    requires
        is_exact(v),
        is_sound(v),
        pre.eqns.n >= 2,
        are_coefficients_found(pre, is_chroma, post, found),
        found,
    ensures
        is_modelled(post, v, is_chroma),
        post.num_observations == pre.num_observations,
        post.strength_solver == pre.strength_solver,
        post.eqns.n == pre.eqns.n,
        post.eqns.a@ == pre.eqns.a@,
        post.eqns.b@ == pre.eqns.b@,
{
    let (mid, solved) = choose|mid: NoiseModelState<T>, solved: bool|
        {
            &&& #[trigger] is_gain_solved(pre, is_chroma, mid, solved)
            &&& found == (solved || is_chroma)
            &&& if solved || !is_chroma {
                post == mid
            } else {
                &&& is_chroma_fallback(mid.eqns, post.eqns)
                &&& post.ar_gain == mid.ar_gain
                &&& post.num_observations == mid.num_observations
                &&& post.strength_solver == mid.strength_solver
            }
        };
    if solved {
        assert(is_solved(pre.eqns, mid.eqns, true));
        let y = choose|y: Seq<T>|
            {
                &&& #[trigger] linsolve_gives(
                    pre.eqns.n,
                    pre.eqns.a@,
                    pre.eqns.b@,
                    pre.eqns.x@,
                    y,
                    true,
                )
                &&& mid.eqns.x@ == if y.len() == pre.eqns.n {
                    y
                } else {
                    pre.eqns.x@
                }
            };
        let z = |k: int| v(y[k]);
        let x = |k: int| v(post.eqns.x@[k]);
        assert(is_solution(pre.eqns.a@, pre.eqns.n as int, pre.eqns.b@, v, z));
        assert(x =~= z);
        if pre.num_observations >= 1 {
            law_gain(pre, is_chroma, mid, solved, v);
        }
    } else {
        law_fallback(mid.eqns, post.eqns, v);
        let one: Formula<T> = count(1);
        assert(is_defined(one, v) && worth(one, v) == 1real);
        law_worth(one, v, post.ar_gain);
    }
}

/// Adding the latest state of a plane to the combined one leaves a state that holds both, and
/// in it coefficients for all that was observed.
pub proof fn law_merged_state<T: Kernels>(
    pre: NoiseModelState<T>,
    latest: NoiseModelState<T>,
    is_chroma: bool,
    post: NoiseModelState<T>,
    v: spec_fn(T) -> real,
)
    requires
        is_exact(v),
        is_sound(v),
        pre.wf(),
        pre.eqns.n >= 2,
        is_merged(pre, latest, is_chroma, post, Ok(())),
    ensures
        holds_both(pre, latest, v, post),
        is_modelled(post, v, is_chroma),
{
    let r: Result<(), NoiseError> = Ok(());
    let (s1, s2, found) = choose|s1: NoiseModelState<T>, s2: NoiseModelState<T>, found: bool|
        {
            &&& are_observations_added(pre, latest, s1)
            &&& #[trigger] are_coefficients_found(s1, is_chroma, s2, found)
            &&& if found {
                is_strength_merged(s2, latest, post, r)
            } else {
                post == s2 && r == Err::<(), NoiseError>(NoiseError::CombinedSystemUnsolved)
            }
        };
    lemma_sums(pre.eqns, latest.eqns, s1.eqns, v);
    lemma_modelled(s1, is_chroma, s2, found, v);
    let (sum, ok) = choose|sum: NoiseModelState<T>, ok: bool|
        {
            &&& are_measurements_added(s2, latest, sum)
            &&& #[trigger] are_strengths_found(sum, post, ok)
            &&& r == if ok {
                Ok(())
            } else {
                Err(NoiseError::CombinedStrengthUnsolved)
            }
        };
    assert(post.eqns == s2.eqns);
    let p = pre.strength_solver;
    let q = latest.strength_solver;
    let t = sum.strength_solver;
    let s = post.strength_solver;
    lemma_sums(p.eqns, q.eqns, t.eqns, v);
    let f = plus(value(p.total), value(q.total));
    assert(is_defined(f, v) && worth(f, v) == v(p.total) + v(q.total)) by {
        reveal_with_fuel(worth, 2);
        reveal_with_fuel(is_defined, 2);
    }
    law_worth(f, v, t.total);
    if s.num_equations >= 1 {
        let mean = v(s.total) / s.num_equations as real;
        assert forall|k: int| 0 <= k < p.num_bins implies v(#[trigger] s.eqns.b@[k]) == v(
            p.eqns.b@[k],
        ) + v(q.eqns.b@[k]) + mean / 8192real by {
            let m = mean_strength(t);
            assert(is_defined(m, v) && worth(m, v) == mean) by {
                reveal_with_fuel(worth, 3);
                reveal_with_fuel(is_defined, 3);
            }
            let d = over(m, count(8192));
            assert(is_defined(d, v) && worth(d, v) == mean / 8192real) by {
                reveal_with_fuel(worth, 2);
                reveal_with_fuel(is_defined, 2);
            }
            let g = plus(value(t.eqns.b@[k]), d);
            assert(is_defined(g, v) && worth(g, v) == v(t.eqns.b@[k]) + mean / 8192real) by {
                reveal_with_fuel(worth, 2);
                reveal_with_fuel(is_defined, 2);
            }
            law_worth(g, v, s.eqns.b@[k]);
        }
    }
}

/// A frame that is taken in is added to the frames before it, plane by plane.
pub proof fn law_frame_is_added<'a, T: Kernels>(
    pre: NoiseModel<T>,
    source: &'a Frame<u8>,
    denoised: &'a Frame<u8>,
    flat_blocks: &'a [u8],
    post: NoiseModel<T>,
    v: spec_fn(T) -> real,
)
    requires
        is_exact(v),
        is_sound(v),
        pre.wf(),
        is_updated(pre, source, denoised, flat_blocks, post, NoiseStatus::Updated),
    ensures
        holds_both(pre.combined_state.y, post.latest_state.y, v, post.combined_state.y),
        is_modelled(post.combined_state.y, v, false),
        source.subsampling != ChromaSubsampling::Monochrome ==> {
            &&& holds_both(pre.combined_state.cb, post.latest_state.cb, v, post.combined_state.cb)
            &&& is_modelled(post.combined_state.cb, v, true)
            &&& holds_both(pre.combined_state.cr, post.latest_state.cr, v, post.combined_state.cr)
            &&& is_modelled(post.combined_state.cr, v, true)
        },
{
    assert(all_flat_indices(flat_blocks@).len() > 1);
    let status = NoiseStatus::Updated;
    let (cleared, luma, rb, rr) = lemma_planes(pre, source, denoised, flat_blocks, post, status);
    let monochrome = source.subsampling == ChromaSubsampling::Monochrome;
    let (before, latest, new) = (pre.combined_state, post.latest_state, post.combined_state);
    let r = choose|r: Result<(), NoiseError>|
        {
            &&& #[trigger] are_merged(before, latest, monochrome, new, r)
            &&& status == status_of(r)
        };
    let ok: Result<(), NoiseError> = Ok(());
    assert(r == ok);
    assert(is_merged(before.y, latest.y, false, new.y, ok));
    law_merged_state(before.y, latest.y, false, new.y, v);
    if !monochrome {
        assert(is_chroma_merged(before, latest, new, ok));
        assert(is_merged(before.cb, latest.cb, true, new.cb, ok));
        law_merged_state(before.cb, latest.cb, true, new.cb, v);
        law_merged_state(before.cr, latest.cr, true, new.cr, v);
    }
}

/// A frame that can be solved for, and whose coefficients lie in the direction of those of the
/// frames before it, is refused as different exactly if there are such frames and the weighted
/// mean of the gaps between the strengths, divided by the number of bins, is above five
/// thousandths.
pub proof fn law_frames_are_told_apart<T: Kernels>(
    pre: ChannelStates<T>,
    latest: ChannelStates<T>,
    monochrome: bool,
    post: ChannelStates<T>,
    status: NoiseStatus,
    v: spec_fn(T) -> real,
    r: spec_fn(int) -> real,
)
    requires
        is_exact(v),
        latest.y.wf(),
        forall|j: int|
            0 <= j < 20 ==> is_root(
                measured_in(latest.y.strength_solver, v, j, 20),
                #[trigger] r(j),
            ),
        sum_up(r, 20) > 0real,
        correlates(latest.y, pre.y, v),
        are_combined(pre, latest, monochrome, post, status),
    ensures
        status == NoiseStatus::DifferentType <==> {
            &&& pre.y.strength_solver.num_equations > 0
            &&& (weighted_gaps(latest.y.strength_solver, pre.y.strength_solver, v, r, 20) / sum_up(
                r,
                20,
            )) / 20real > 5real / 1_000real
        },
        status == NoiseStatus::DifferentType ==> post == pre,
{
    let different = choose|different: bool|
        {
            &&& #[trigger] differs(latest.y, pre.y, different)
            &&& if different && pre.y.strength_solver.num_equations > 0 {
                post == pre && status == NoiseStatus::DifferentType
            } else {
                exists|r: Result<(), NoiseError>|
                    {
                        &&& #[trigger] are_merged(pre, latest, monochrome, post, r)
                        &&& status == status_of(r)
                    }
            }
        };
    law_verdict(latest.y, pre.y, different, v, r);
}

/// Starting anew from the latest frame keeps its strengths, at every intensity, its
/// coefficients, its gain, and all sums and numbers, but for the sum of the strengths: that is
/// still the one of the frames before.
pub proof fn law_saved_noise_is_the_latest<T: Kernels>(
    pre: NoiseModelState<T>,
    latest: NoiseModelState<T>,
    post: NoiseModelState<T>,
    x: T,
    r: T,
)
    requires
        pre.strength_solver.num_bins == latest.strength_solver.num_bins,
        is_state_saved(pre, latest, post),
    ensures
        is_strength_at(post.strength_solver, x, r) <==> is_strength_at(
            latest.strength_solver,
            x,
            r,
        ),
        post.eqns.x@ == latest.eqns.x@,
        post.eqns.a@ == latest.eqns.a@,
        post.eqns.b@ == latest.eqns.b@,
        post.ar_gain == latest.ar_gain,
        post.num_observations == latest.num_observations,
        post.strength_solver.eqns.a@ == latest.strength_solver.eqns.a@,
        post.strength_solver.eqns.b@ == latest.strength_solver.eqns.b@,
        post.strength_solver.num_equations == latest.strength_solver.num_equations,
        post.strength_solver.total == pre.strength_solver.total,
{
    assert(post.strength_solver.eqns.x@ == latest.strength_solver.eqns.x@);
}

/// When the noise of a plane cannot be solved for together with that of the frames before, the
/// planes after it are left as they were.
pub proof fn law_failure_stops<T: Kernels>(
    pre: ChannelStates<T>,
    latest: ChannelStates<T>,
    monochrome: bool,
    post: ChannelStates<T>,
    e: NoiseError,
)
    requires
        are_combined(pre, latest, monochrome, post, NoiseStatus::Error(e)),
    ensures
        post.cr == pre.cr || (is_merged(pre.y, latest.y, false, post.y, Ok(())) && is_merged(
            pre.cb,
            latest.cb,
            true,
            post.cb,
            Ok(()),
        )),
        post.cb == pre.cb || is_merged(pre.y, latest.y, false, post.y, Ok(())),
{
    let r = choose|r: Result<(), NoiseError>|
        {
            &&& #[trigger] are_merged(pre, latest, monochrome, post, r)
            &&& NoiseStatus::Error(e) == status_of(r)
        };
    let luma = choose|luma: Result<(), NoiseError>|
        {
            &&& #[trigger] is_merged(pre.y, latest.y, false, post.y, luma)
            &&& if luma is Err || monochrome {
                r == luma && post.cb == pre.cb && post.cr == pre.cr
            } else {
                is_chroma_merged(pre, latest, post, r)
            }
        };
    if luma is Ok && !monochrome {
        assert(luma == Ok::<(), NoiseError>(()));
        let cb = choose|cb: Result<(), NoiseError>|
            {
                &&& #[trigger] is_merged(pre.cb, latest.cb, true, post.cb, cb)
                &&& if cb is Err {
                    r == cb && post.cr == pre.cr
                } else {
                    is_merged(pre.cr, latest.cr, true, post.cr, r)
                }
            };
        if cb is Ok {
            assert(cb == Ok::<(), NoiseError>(()));
        }
    }
}

/// Whether nothing is known in a state.
pub open spec fn knows_nothing<T>(s: NoiseModelState<T>, v: spec_fn(T) -> real) -> bool {
    &&& is_all_zero(s.eqns, v)
    &&& s.num_observations == 0
    &&& is_all_zero(s.strength_solver.eqns, v)
    &&& s.strength_solver.num_equations == 0
    &&& v(s.strength_solver.total) == 0real
}

/// Whether a system holds nothing but zeros.
pub open spec fn is_all_zero<T>(s: EquationSystem<T>, v: spec_fn(T) -> real) -> bool {
    &&& forall|k: int| 0 <= k < s.a.len() ==> v(#[trigger] s.a@[k]) == 0real
    &&& forall|k: int| 0 <= k < s.b.len() ==> v(#[trigger] s.b@[k]) == 0real
    &&& forall|k: int| 0 <= k < s.x.len() ==> v(#[trigger] s.x@[k]) == 0real
}

/// A cleared system holds nothing but zeros.
proof fn lemma_all_zero<T: Scalar>(s: EquationSystem<T>, v: spec_fn(T) -> real)
    requires
        is_exact(v),
        is_cleared(s),
    ensures
        is_all_zero(s, v),
{
    assert forall|k: int| 0 <= k < s.a.len() implies v(#[trigger] s.a@[k]) == 0real by {
        lemma_zero(v, s.a@[k]);
    }
    assert forall|k: int| 0 <= k < s.b.len() implies v(#[trigger] s.b@[k]) == 0real by {
        lemma_zero(v, s.b@[k]);
    }
    assert forall|k: int| 0 <= k < s.x.len() implies v(#[trigger] s.x@[k]) == 0real by {
        lemma_zero(v, s.x@[k]);
    }
}

/// In a new state nothing is known, the gain is one, and there are twenty bins.
pub proof fn law_new_state<T: Scalar>(s: NoiseModelState<T>, n: usize, v: spec_fn(T) -> real)
    requires
        is_exact(v),
        is_blank_state(s, n),
    ensures
        knows_nothing(s, v),
        v(s.ar_gain) == 1real,
        s.eqns.x.len() == n,
        s.strength_solver.eqns.x.len() == 20,
{
    lemma_all_zero(s.eqns, v);
    lemma_all_zero(s.strength_solver.eqns, v);
    lemma_zero(v, s.strength_solver.total);
    let one: Formula<T> = count(1);
    assert(is_defined(one, v) && worth(one, v) == 1real);
    law_worth(one, v, s.ar_gain);
}

/// A frame with less than two flat blocks leaves states in which nothing is known but the gain
/// of the frame before.
pub proof fn law_refused_frame_is_forgotten<'a, T: Kernels>(
    pre: NoiseModel<T>,
    source: &'a Frame<u8>,
    denoised: &'a Frame<u8>,
    flat_blocks: &'a [u8],
    post: NoiseModel<T>,
    status: NoiseStatus,
    v: spec_fn(T) -> real,
)
    requires
        is_exact(v),
        is_updated(pre, source, denoised, flat_blocks, post, status),
        all_flat_indices(flat_blocks@).len() <= 1,
    ensures
        status == NoiseStatus::Error(NoiseError::NotEnoughFlatBlocks),
        post.combined_state == pre.combined_state,
        knows_nothing(post.latest_state.y, v),
        knows_nothing(post.latest_state.cb, v),
        knows_nothing(post.latest_state.cr, v),
        post.latest_state.y.ar_gain == pre.latest_state.y.ar_gain,
        post.latest_state.cb.ar_gain == pre.latest_state.cb.ar_gain,
        post.latest_state.cr.ar_gain == pre.latest_state.cr.ar_gain,
{
    let s = post.latest_state;
    assert(are_states_cleared(pre.latest_state, s));
    lemma_all_zero(s.y.eqns, v);
    lemma_all_zero(s.y.strength_solver.eqns, v);
    lemma_zero(v, s.y.strength_solver.total);
    lemma_all_zero(s.cb.eqns, v);
    lemma_all_zero(s.cb.strength_solver.eqns, v);
    lemma_zero(v, s.cb.strength_solver.total);
    lemma_all_zero(s.cr.eqns, v);
    lemma_all_zero(s.cr.strength_solver.eqns, v);
    lemma_zero(v, s.cr.strength_solver.total);
}

/// Whether an attempt to solve a system can come out as `ok`.
pub open spec fn can_end<T: Kernels>(s: EquationSystem<T>, ok: bool) -> bool {
    exists|y: Seq<T>| linsolve_gives(s.n, s.a@, s.b@, s.x@, y, ok)
}

/// Equations that cannot fail to be solved are solved, for chroma too. Those that cannot be
/// solved are an error for luma; for chroma the noise is then left to luma.
pub proof fn law_fallback_is_last_resort<T: Kernels>(
    pre: NoiseModelState<T>,
    is_chroma: bool,
    post: NoiseModelState<T>,
    found: bool,
    v: spec_fn(T) -> real,
)
    requires
        is_exact(v),
        is_sound(v),
        pre.eqns.n >= 2,
        are_coefficients_found(pre, is_chroma, post, found),
    ensures
        !can_end(pre.eqns, false) ==> found && is_solution(
            pre.eqns.a@,
            pre.eqns.n as int,
            pre.eqns.b@,
            v,
            |k: int| v(post.eqns.x@[k]),
        ),
        !can_end(pre.eqns, true) ==> found == is_chroma && v(post.ar_gain) == 1real,
        !can_end(pre.eqns, true) && is_chroma ==> is_left_to_luma(post.eqns, v),
{
    let (mid, solved) = choose|mid: NoiseModelState<T>, solved: bool|
        {
            &&& #[trigger] is_gain_solved(pre, is_chroma, mid, solved)
            &&& found == (solved || is_chroma)
            &&& if solved || !is_chroma {
                post == mid
            } else {
                &&& is_chroma_fallback(mid.eqns, post.eqns)
                &&& post.ar_gain == mid.ar_gain
                &&& post.num_observations == mid.num_observations
                &&& post.strength_solver == mid.strength_solver
            }
        };
    let y = choose|y: Seq<T>|
        {
            &&& #[trigger] linsolve_gives(
                pre.eqns.n,
                pre.eqns.a@,
                pre.eqns.b@,
                pre.eqns.x@,
                y,
                solved,
            )
            &&& mid.eqns.x@ == if y.len() == pre.eqns.n {
                y
            } else {
                pre.eqns.x@
            }
        };
    assert(can_end(pre.eqns, solved));
    if solved {
        let z = |k: int| v(y[k]);
        let x = |k: int| v(post.eqns.x@[k]);
        assert(is_solution(pre.eqns.a@, pre.eqns.n as int, pre.eqns.b@, v, z));
        assert(x =~= z);
    } else {
        let one: Formula<T> = count(1);
        assert(is_defined(one, v) && worth(one, v) == 1real);
        law_worth(one, v, post.ar_gain);
        if is_chroma {
            law_fallback(mid.eqns, post.eqns, v);
        }
    }
}

/// A frame whose coefficients do not lie in the direction of those of the frames before it is
/// refused as different, if there are such frames.
pub proof fn law_other_direction_is_refused<T: Kernels>(
    pre: ChannelStates<T>,
    latest: ChannelStates<T>,
    monochrome: bool,
    post: ChannelStates<T>,
    status: NoiseStatus,
    v: spec_fn(T) -> real,
)
    requires
        is_exact(v),
        forall|corr: T| #[trigger]
            correlation_gives(latest.y.eqns.x@, pre.y.eqns.x@, pre.y.eqns.n, corr) ==> v(corr)
                < 9real / 10real,
        are_combined(pre, latest, monochrome, post, status),
    ensures
        status == NoiseStatus::DifferentType <==> pre.y.strength_solver.num_equations > 0,
{
    let different = choose|different: bool|
        {
            &&& #[trigger] differs(latest.y, pre.y, different)
            &&& if different && pre.y.strength_solver.num_equations > 0 {
                post == pre && status == NoiseStatus::DifferentType
            } else {
                exists|r: Result<(), NoiseError>|
                    {
                        &&& #[trigger] are_merged(pre, latest, monochrome, post, r)
                        &&& status == status_of(r)
                    }
            }
        };
    law_other_direction_is_different(latest.y, pre.y, different, v);
}

/// Nothing is known of the chroma planes of a monochrome frame, or of one whose luma plane
/// cannot be solved for.
pub proof fn law_chroma_comes_after_luma<'a, T: Kernels>(
    pre: NoiseModel<T>,
    source: &'a Frame<u8>,
    denoised: &'a Frame<u8>,
    flat_blocks: &'a [u8],
    post: NoiseModel<T>,
    status: NoiseStatus,
    v: spec_fn(T) -> real,
)
    requires
        is_exact(v),
        is_updated(pre, source, denoised, flat_blocks, post, status),
        source.subsampling == ChromaSubsampling::Monochrome || status == NoiseStatus::Error(
            NoiseError::LatestSystemUnsolved,
        ),
    ensures
        knows_nothing(post.latest_state.cb, v),
        knows_nothing(post.latest_state.cr, v),
{
    let s = post.latest_state;
    let monochrome = source.subsampling == ChromaSubsampling::Monochrome;
    let indices = all_flat_indices(flat_blocks@);
    let cleared = choose|cleared: ChannelStates<T>|
        {
            &&& #[trigger] are_states_cleared(pre.latest_state, cleared)
            &&& if indices.len() <= 1 {
                &&& s == cleared
                &&& post.combined_state == pre.combined_state
                &&& status == NoiseStatus::Error(NoiseError::NotEnoughFlatBlocks)
            } else {
                is_frame_taken_in(pre, source, denoised, flat_blocks, cleared, post, status)
            }
        };
    lemma_all_zero(cleared.cb.eqns, v);
    lemma_all_zero(cleared.cb.strength_solver.eqns, v);
    lemma_zero(v, cleared.cb.strength_solver.total);
    lemma_all_zero(cleared.cr.eqns, v);
    lemma_all_zero(cleared.cr.strength_solver.eqns, v);
    lemma_zero(v, cleared.cr.strength_solver.total);
    if indices.len() > 1 {
        let r = choose|r: Result<(), NoiseError>|
            {
                &&& #[trigger] is_latest_updated(
                    pre.coords@,
                    pre.n,
                    source,
                    denoised,
                    flat_blocks,
                    cleared,
                    s,
                    r,
                )
                &&& if r is Err {
                    post.combined_state == pre.combined_state && status == status_of(r)
                } else {
                    are_combined(
                        pre.combined_state,
                        s,
                        monochrome,
                        post.combined_state,
                        status,
                    )
                }
            };
        if !monochrome {
            if r is Ok {
                lemma_combined_status(pre.combined_state, s, monochrome, post.combined_state, status);
            }
            let luma = choose|luma: Result<(), NoiseError>|
                {
                    &&& #[trigger] is_channel_updated(
                        luma_survey(source, denoised, flat_blocks),
                        indices,
                        pre.coords@,
                        pre.n,
                        0,
                        None,
                        cleared.y,
                        s.y,
                        luma,
                    )
                    &&& if luma is Err || monochrome {
                        r == luma && s.cb == cleared.cb && s.cr == cleared.cr
                    } else {
                        is_chroma_updated(
                            pre.coords@,
                            pre.n,
                            source,
                            denoised,
                            flat_blocks,
                            cleared,
                            s,
                            r,
                        )
                    }
                };
            if luma is Ok {
                lemma_chroma_error(pre, source, denoised, flat_blocks, cleared, s, r);
            }
        }
    }
}

/// An error in the combined states is not one of the latest states.
proof fn lemma_combined_status<T: Kernels>(
    pre: ChannelStates<T>,
    latest: ChannelStates<T>,
    monochrome: bool,
    post: ChannelStates<T>,
    status: NoiseStatus,
)
    requires
        are_combined(pre, latest, monochrome, post, status),
    ensures
        status != NoiseStatus::Error(NoiseError::LatestSystemUnsolved),
{
    if status is Error {
        let r = choose|r: Result<(), NoiseError>|
            {
                &&& #[trigger] are_merged(pre, latest, monochrome, post, r)
                &&& status == status_of(r)
            };
        let luma = choose|luma: Result<(), NoiseError>|
            {
                &&& #[trigger] is_merged(pre.y, latest.y, false, post.y, luma)
                &&& if luma is Err || monochrome {
                    r == luma && post.cb == pre.cb && post.cr == pre.cr
                } else {
                    is_chroma_merged(pre, latest, post, r)
                }
            };
        law_merge(pre.y, latest.y, false, post.y, luma);
        if luma is Ok && !monochrome {
            let cb = choose|cb: Result<(), NoiseError>|
                {
                    &&& #[trigger] is_merged(pre.cb, latest.cb, true, post.cb, cb)
                    &&& if cb is Err {
                        r == cb && post.cr == pre.cr
                    } else {
                        is_merged(pre.cr, latest.cr, true, post.cr, r)
                    }
                };
            law_merge(pre.cb, latest.cb, true, post.cb, cb);
            if cb is Ok {
                law_merge(pre.cr, latest.cr, true, post.cr, r);
            }
        }
    }
}

/// The equations of a chroma plane never remain unsolved.
proof fn lemma_chroma_error<'a, T: Kernels>(
    pre: NoiseModel<T>,
    source: &'a Frame<u8>,
    denoised: &'a Frame<u8>,
    flat_blocks: &'a [u8],
    cleared: ChannelStates<T>,
    s: ChannelStates<T>,
    r: Result<(), NoiseError>,
)
    requires
        is_chroma_updated(pre.coords@, pre.n, source, denoised, flat_blocks, cleared, s, r),
    ensures
        r != Err::<(), NoiseError>(NoiseError::LatestSystemUnsolved),
{
    let indices = all_flat_indices(flat_blocks@);
    let u = chroma_survey(
        source,
        denoised,
        &source.u_plane->0,
        &denoised.u_plane->0,
        flat_blocks,
    );
    let w = chroma_survey(
        source,
        denoised,
        &source.v_plane->0,
        &denoised.v_plane->0,
        flat_blocks,
    );
    let luma = Some(&s.y);
    let (rb, rr) = choose|rb: Result<(), NoiseError>, rr: Result<(), NoiseError>|
        {
            &&& #[trigger] is_channel_updated(
                u,
                indices,
                pre.coords@,
                pre.n,
                1,
                luma,
                cleared.cb,
                s.cb,
                rb,
            )
            &&& #[trigger] is_channel_updated(
                w,
                indices,
                pre.coords@,
                pre.n,
                2,
                luma,
                cleared.cr,
                s.cr,
                rr,
            )
            &&& r == first_error(rb, rr)
        };
    law_channel_errors(u, indices, pre.coords@, pre.n, 1, luma, cleared.cb, s.cb, rb);
    law_channel_errors(w, indices, pre.coords@, pre.n, 2, luma, cleared.cr, s.cr, rr);
}

} // verus!
