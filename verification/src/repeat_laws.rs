//! Taking in a frame has one outcome, if every operation, test and routine of the number
//! type has.
use crate::equations::{is_chroma_fallback, is_same_system, is_solved, EquationSystem};
use crate::kernels::{correlation_gives, linsolve_gives, Kernels};
use crate::mark_laws::{are_same_marks, law_only_zero_marks_matter};
use crate::model::{
    are_coefficients_found, are_same_states, are_strengths_found, is_channel_updated,
    is_chroma_channel, is_state_measured, is_state_observed, is_strength_updated, luma_noise,
    ChannelStates, NoiseError, NoiseModel, NoiseStatus,
};
use crate::observations::{offsets_of, ChannelSurvey};
use crate::outcome_laws::{
    is_repeatable, is_same_luma, lemma_one_cleared, lemma_one_list, lemma_one_measuring,
    lemma_one_sum, lemma_one_total,
};
use crate::plane::{ChromaSubsampling, Frame};
use crate::scalar::{
    count, denotes, denotes_all, is_below, is_zero, law_one_outcome, law_one_verdict, over, plus,
    ratio, unary, value, values, UnaryOp,
};
use crate::state::{
    column_terms, column_weight, covariance_terms, diagonal_terms, differs, filter_gain,
    is_gain_solved, is_same_state, strength_distance, weighted_distances, weights, NoiseModelState,
};
use crate::strength::{
    damped, is_same_solver, is_strength_solved, mean_strength, smoothed, smoothing_weight,
    StrengthSolver,
};
use crate::update::{
    all_flat_indices, are_combined, are_measurements_added, are_merged, are_observations_added,
    are_states_cleared, chroma_survey, first_error, is_chroma_merged, is_chroma_updated,
    is_frame_taken_in, is_latest_updated, is_merged, is_observable, is_state_cleared,
    is_strength_merged, is_updated, luma_survey, status_of,
};
use vstd::prelude::*;

verus! {

/// A system has one solution.
proof fn lemma_one_solution<T: Kernels>(
    p: EquationSystem<T>,
    q: EquationSystem<T>,
    s: EquationSystem<T>,
    t: EquationSystem<T>,
    c: bool,
    d: bool,
)
    requires
        is_repeatable::<T>(),
        is_same_system(p, q),
        is_solved(p, s, c),
        is_solved(q, t, d),
    ensures
        is_same_system(s, t),
        c == d,
{
    let y = choose|y: Seq<T>|
        {
            &&& #[trigger] linsolve_gives(p.n, p.a@, p.b@, p.x@, y, c)
            &&& s.x@ == if y.len() == p.n {
                y
            } else {
                p.x@
            }
        };
    let z = choose|y: Seq<T>|
        {
            &&& #[trigger] linsolve_gives(q.n, q.a@, q.b@, q.x@, y, d)
            &&& t.x@ == if y.len() == q.n {
                y
            } else {
                q.x@
            }
        };
    assert(linsolve_gives(p.n, p.a@, p.b@, p.x@, z, d));
}

/// The gain is worked out the same way from the same system.
proof fn lemma_same_gain<T: Kernels>(
    s: EquationSystem<T>,
    t: EquationSystem<T>,
    num_observations: usize,
    is_chroma: bool,
)
    requires
        is_same_system(s, t),
    ensures
        filter_gain(s, num_observations, is_chroma) == filter_gain(t, num_observations, is_chroma),
{
    let m = if is_chroma {
        (s.n - 1) as usize
    } else {
        s.n
    };
    assert(diagonal_terms(s, num_observations, m as int) =~= diagonal_terms(
        t,
        num_observations,
        m as int,
    ));
    assert(covariance_terms(s, num_observations, is_chroma, m as int, m as int)
        =~= covariance_terms(t, num_observations, is_chroma, m as int, m as int));
}

/// There is one fallback solution.
proof fn lemma_one_fallback<T: Kernels>(
    p: EquationSystem<T>,
    q: EquationSystem<T>,
    s: EquationSystem<T>,
    t: EquationSystem<T>,
)
    requires
        is_repeatable::<T>(),
        is_same_system(p, q),
        is_chroma_fallback(p, s),
        is_chroma_fallback(q, t),
    ensures
        is_same_system(s, t),
{
    let last = p.n - 1;
    let small = ratio(1, 1_000_000);
    let f = unary(UnaryOp::Absolute, value(p.entry(last, last)));
    let over_last = over(value(p.b@[last]), value(p.entry(last, last)));
    assert(p.entry(last, last) == q.entry(last, last));
    law_one_verdict(small, f);
    assert forall|k: int| 0 <= k < s.x@.len() implies s.x@[k] == t.x@[k] by {
        if k < last {
            law_one_outcome(count(0), s.x@[k], t.x@[k]);
        } else {
            let large = choose|large: bool|
                {
                    &&& #[trigger] is_below(small, f, large)
                    &&& large ==> denotes(over_last, s.x@[last])
                    &&& !large ==> is_zero(s.x@[last])
                };
            let other = choose|large: bool|
                {
                    &&& #[trigger] is_below(small, f, large)
                    &&& large ==> denotes(over_last, t.x@[last])
                    &&& !large ==> is_zero(t.x@[last])
                };
            assert(large == other);
            if large {
                law_one_outcome(over_last, s.x@[last], t.x@[last]);
            } else {
                law_one_outcome(count(0), s.x@[last], t.x@[last]);
            }
        }
    }
    assert(s.x@ =~= t.x@);
}

/// There is one set of coefficients.
proof fn lemma_one_coefficients<T: Kernels>(
    p: NoiseModelState<T>,
    q: NoiseModelState<T>,
    is_chroma: bool,
    s: NoiseModelState<T>,
    t: NoiseModelState<T>,
    c: bool,
    d: bool,
)
    requires
        is_repeatable::<T>(),
        is_same_state(p, q),
        are_coefficients_found(p, is_chroma, s, c),
        are_coefficients_found(q, is_chroma, t, d),
    ensures
        is_same_state(s, t),
        s.eqns.wf(),
        s.strength_solver == p.strength_solver,
        t.strength_solver == q.strength_solver,
        c == d,
{
    let (mid1, solved1) = choose|mid: NoiseModelState<T>, solved: bool|
        {
            &&& #[trigger] is_gain_solved(p, is_chroma, mid, solved)
            &&& c == (solved || is_chroma)
            &&& if solved || !is_chroma {
                s == mid
            } else {
                &&& is_chroma_fallback(mid.eqns, s.eqns)
                &&& s.ar_gain == mid.ar_gain
                &&& s.num_observations == mid.num_observations
                &&& s.strength_solver == mid.strength_solver
            }
        };
    let (mid2, solved2) = choose|mid: NoiseModelState<T>, solved: bool|
        {
            &&& #[trigger] is_gain_solved(q, is_chroma, mid, solved)
            &&& d == (solved || is_chroma)
            &&& if solved || !is_chroma {
                t == mid
            } else {
                &&& is_chroma_fallback(mid.eqns, t.eqns)
                &&& t.ar_gain == mid.ar_gain
                &&& t.num_observations == mid.num_observations
                &&& t.strength_solver == mid.strength_solver
            }
        };
    lemma_one_solution(p.eqns, q.eqns, mid1.eqns, mid2.eqns, solved1, solved2);
    if solved1 {
        lemma_same_gain(mid1.eqns, mid2.eqns, p.num_observations, is_chroma);
        law_one_outcome(
            filter_gain(mid1.eqns, p.num_observations, is_chroma),
            mid1.ar_gain,
            mid2.ar_gain,
        );
    } else {
        law_one_outcome(count(1), mid1.ar_gain, mid2.ar_gain);
        if is_chroma {
            lemma_one_fallback(mid1.eqns, mid2.eqns, s.eqns, t.eqns);
        }
    }
}

/// There is one set of strengths.
proof fn lemma_one_strengths<T: Kernels>(
    p: StrengthSolver<T>,
    q: StrengthSolver<T>,
    s: StrengthSolver<T>,
    t: StrengthSolver<T>,
    c: bool,
    d: bool,
)
    requires
        is_repeatable::<T>(),
        is_same_solver(p, q),
        is_strength_solved(p, s, c),
        is_strength_solved(q, t, d),
    ensures
        is_same_solver(s, t),
        c == d,
{
    let n = p.num_bins as int;
    let alpha = smoothing_weight(p.num_equations, p.num_bins);
    assert forall|i: int| 0 <= i < s.eqns.b@.len() implies s.eqns.b@[i] == t.eqns.b@[i] by {
        law_one_outcome(
            plus(value(p.eqns.b@[i]), over(mean_strength(p), count(8192))),
            s.eqns.b@[i],
            t.eqns.b@[i],
        );
    }
    assert(s.eqns.b@ =~= t.eqns.b@);
    let m = damped(smoothed(values(p.eqns.a@), n, alpha, n), n, n);
    let (a, y) = choose|a: Seq<T>, y: Seq<T>|
        {
            &&& denotes_all(m, a)
            &&& #[trigger] linsolve_gives(p.num_bins, a, s.eqns.b@, p.eqns.x@, y, c)
            &&& s.eqns.x@ == if y.len() == n {
                y
            } else {
                p.eqns.x@
            }
        };
    let (b, z) = choose|a: Seq<T>, y: Seq<T>|
        {
            &&& denotes_all(m, a)
            &&& #[trigger] linsolve_gives(q.num_bins, a, t.eqns.b@, q.eqns.x@, y, d)
            &&& t.eqns.x@ == if y.len() == n {
                y
            } else {
                q.eqns.x@
            }
        };
    lemma_one_list(m, a, b);
    assert(linsolve_gives(p.num_bins, a, s.eqns.b@, p.eqns.x@, z, d));
}

/// A plane has one latest state.
proof fn lemma_one_channel<T: Kernels>(
    survey: ChannelSurvey,
    indices: Seq<usize>,
    coords: Seq<[isize; 2]>,
    num_coords: usize,
    channel: int,
    luma1: Option<&NoiseModelState<T>>,
    luma2: Option<&NoiseModelState<T>>,
    p: NoiseModelState<T>,
    q: NoiseModelState<T>,
    s: NoiseModelState<T>,
    t: NoiseModelState<T>,
    c: Result<(), NoiseError>,
    d: Result<(), NoiseError>,
)
    requires
        is_repeatable::<T>(),
        is_same_state(p, q),
        channel > 0 ==> luma1 is Some && luma2 is Some && is_same_state(*luma1->0, *luma2->0),
        is_channel_updated(survey, indices, coords, num_coords, channel, luma1, p, s, c),
        is_channel_updated(survey, indices, coords, num_coords, channel, luma2, q, t, d),
    ensures
        is_same_state(s, t),
        c == d,
{
    let is_chroma = is_chroma_channel(channel);
    let (s1, s2, found1) = choose|s1: NoiseModelState<T>, s2: NoiseModelState<T>, found: bool|
        {
            &&& is_state_observed(survey, indices, coords, num_coords, p, s1)
            &&& #[trigger] are_coefficients_found(s1, is_chroma, s2, found)
            &&& if found {
                is_strength_updated(
                    survey,
                    indices,
                    luma_noise(channel, luma1, s2, num_coords),
                    s2,
                    s,
                    c,
                )
            } else {
                s == s2 && c == Err::<(), NoiseError>(NoiseError::LatestSystemUnsolved)
            }
        };
    let (t1, t2, found2) = choose|s1: NoiseModelState<T>, s2: NoiseModelState<T>, found: bool|
        {
            &&& is_state_observed(survey, indices, coords, num_coords, q, s1)
            &&& #[trigger] are_coefficients_found(s1, is_chroma, s2, found)
            &&& if found {
                is_strength_updated(
                    survey,
                    indices,
                    luma_noise(channel, luma2, s2, num_coords),
                    s2,
                    t,
                    d,
                )
            } else {
                t == s2 && d == Err::<(), NoiseError>(NoiseError::LatestSystemUnsolved)
            }
        };
    lemma_one_total(
        survey,
        indices,
        offsets_of(coords, num_coords, survey.source.geometry.stride),
        num_coords,
        p.eqns.n,
        survey.num_chunks(indices),
        s1.eqns,
        t1.eqns,
    );
    lemma_one_coefficients(s1, t1, is_chroma, s2, t2, found1, found2);
    if found1 {
        let l = luma_noise(channel, luma1, s2, num_coords);
        let o = luma_noise(channel, luma2, t2, num_coords);
        assert(is_same_luma(l, o));
        let (mid1, ok1) = choose|mid: NoiseModelState<T>, ok: bool|
            {
                &&& is_state_measured(survey, indices, l, s2, mid)
                &&& #[trigger] are_strengths_found(mid, s, ok)
                &&& c == if ok {
                    Ok(())
                } else {
                    Err(NoiseError::LatestStrengthUnsolved)
                }
            };
        let (mid2, ok2) = choose|mid: NoiseModelState<T>, ok: bool|
            {
                &&& is_state_measured(survey, indices, o, t2, mid)
                &&& #[trigger] are_strengths_found(mid, t, ok)
                &&& d == if ok {
                    Ok(())
                } else {
                    Err(NoiseError::LatestStrengthUnsolved)
                }
            };
        lemma_one_measuring(
            survey,
            indices,
            s2.ar_gain,
            l,
            o,
            s2.strength_solver.num_bins,
            indices.len() as int,
            mid1.strength_solver,
            mid2.strength_solver,
        );
        lemma_one_strengths(
            mid1.strength_solver,
            mid2.strength_solver,
            s.strength_solver,
            t.strength_solver,
            ok1,
            ok2,
        );
    }
}

/// A frame gives one set of latest states.
proof fn lemma_one_latest<'a, T: Kernels>(
    coords: Seq<[isize; 2]>,
    num_coords: usize,
    source: &'a Frame<u8>,
    denoised: &'a Frame<u8>,
    flat_blocks: &'a [u8],
    p: ChannelStates<T>,
    q: ChannelStates<T>,
    s: ChannelStates<T>,
    t: ChannelStates<T>,
    c: Result<(), NoiseError>,
    d: Result<(), NoiseError>,
)
    requires
        is_repeatable::<T>(),
        are_same_states(p, q),
        is_latest_updated(coords, num_coords, source, denoised, flat_blocks, p, s, c),
        is_latest_updated(coords, num_coords, source, denoised, flat_blocks, q, t, d),
    ensures
        are_same_states(s, t),
        c == d,
{
    let indices = all_flat_indices(flat_blocks@);
    let survey = luma_survey(source, denoised, flat_blocks);
    let monochrome = source.subsampling == ChromaSubsampling::Monochrome;
    let luma1 = choose|luma: Result<(), NoiseError>|
        {
            &&& #[trigger] is_channel_updated(
                survey,
                indices,
                coords,
                num_coords,
                0,
                None,
                p.y,
                s.y,
                luma,
            )
            &&& if luma is Err || monochrome {
                c == luma && s.cb == p.cb && s.cr == p.cr
            } else {
                is_chroma_updated(coords, num_coords, source, denoised, flat_blocks, p, s, c)
            }
        };
    let luma2 = choose|luma: Result<(), NoiseError>|
        {
            &&& #[trigger] is_channel_updated(
                survey,
                indices,
                coords,
                num_coords,
                0,
                None,
                q.y,
                t.y,
                luma,
            )
            &&& if luma is Err || monochrome {
                d == luma && t.cb == q.cb && t.cr == q.cr
            } else {
                is_chroma_updated(coords, num_coords, source, denoised, flat_blocks, q, t, d)
            }
        };
    lemma_one_channel(
        survey,
        indices,
        coords,
        num_coords,
        0,
        None,
        None,
        p.y,
        q.y,
        s.y,
        t.y,
        luma1,
        luma2,
    );
    if !(luma1 is Err || monochrome) {
        lemma_one_chroma(
            coords,
            num_coords,
            source,
            denoised,
            flat_blocks,
            p,
            q,
            s,
            t,
            c,
            d,
        );
    }
}

/// A frame gives one pair of latest chroma states.
proof fn lemma_one_chroma<'a, T: Kernels>(
    coords: Seq<[isize; 2]>,
    num_coords: usize,
    source: &'a Frame<u8>,
    denoised: &'a Frame<u8>,
    flat_blocks: &'a [u8],
    p: ChannelStates<T>,
    q: ChannelStates<T>,
    s: ChannelStates<T>,
    t: ChannelStates<T>,
    c: Result<(), NoiseError>,
    d: Result<(), NoiseError>,
)
    requires
        is_repeatable::<T>(),
        are_same_states(p, q),
        is_same_state(s.y, t.y),
        is_chroma_updated(coords, num_coords, source, denoised, flat_blocks, p, s, c),
        is_chroma_updated(coords, num_coords, source, denoised, flat_blocks, q, t, d),
    ensures
        are_same_states(s, t),
        c == d,
{
    let indices = all_flat_indices(flat_blocks@);
    let u = chroma_survey(
        source,
        denoised,
        &source.u_plane->0,
        &denoised.u_plane->0,
        flat_blocks,
    );
    let v = chroma_survey(
        source,
        denoised,
        &source.v_plane->0,
        &denoised.v_plane->0,
        flat_blocks,
    );
    let (cb1, cr1) = choose|cb: Result<(), NoiseError>, cr: Result<(), NoiseError>|
        {
            &&& #[trigger] is_channel_updated(
                u,
                indices,
                coords,
                num_coords,
                1,
                Some(&s.y),
                p.cb,
                s.cb,
                cb,
            )
            &&& #[trigger] is_channel_updated(
                v,
                indices,
                coords,
                num_coords,
                2,
                Some(&s.y),
                p.cr,
                s.cr,
                cr,
            )
            &&& c == first_error(cb, cr)
        };
    let (cb2, cr2) = choose|cb: Result<(), NoiseError>, cr: Result<(), NoiseError>|
        {
            &&& #[trigger] is_channel_updated(
                u,
                indices,
                coords,
                num_coords,
                1,
                Some(&t.y),
                q.cb,
                t.cb,
                cb,
            )
            &&& #[trigger] is_channel_updated(
                v,
                indices,
                coords,
                num_coords,
                2,
                Some(&t.y),
                q.cr,
                t.cr,
                cr,
            )
            &&& d == first_error(cb, cr)
        };
    lemma_one_channel(
        u,
        indices,
        coords,
        num_coords,
        1,
        Some(&s.y),
        Some(&t.y),
        p.cb,
        q.cb,
        s.cb,
        t.cb,
        cb1,
        cb2,
    );
    lemma_one_channel(
        v,
        indices,
        coords,
        num_coords,
        2,
        Some(&s.y),
        Some(&t.y),
        p.cr,
        q.cr,
        s.cr,
        t.cr,
        cr1,
        cr2,
    );
}

/// Two estimates have one distance.
proof fn lemma_same_distance<T: Kernels>(
    p: StrengthSolver<T>,
    q: StrengthSolver<T>,
    s: StrengthSolver<T>,
    t: StrengthSolver<T>,
)
    requires
        is_same_solver(p, q),
        is_same_solver(s, t),
    ensures
        strength_distance(p, s) == strength_distance(q, t),
{
    let n = p.eqns.n as int;
    assert forall|j: int| #[trigger] column_weight(p.eqns, j) == column_weight(q.eqns, j) by {
        assert(column_terms(p.eqns, j, n) =~= column_terms(q.eqns, j, n));
    }
    assert(weights(p.eqns, n) =~= weights(q.eqns, n));
    assert(weighted_distances(p.eqns, s.eqns, n) =~= weighted_distances(q.eqns, t.eqns, n));
}

/// Comparing two estimates has one outcome.
proof fn lemma_one_difference<T: Kernels>(
    p: NoiseModelState<T>,
    q: NoiseModelState<T>,
    s: NoiseModelState<T>,
    t: NoiseModelState<T>,
    c: bool,
    d: bool,
)
    requires
        is_repeatable::<T>(),
        is_same_state(p, q),
        is_same_state(s, t),
        differs(p, s, c),
        differs(q, t, d),
    ensures
        c == d,
{
    let distance = strength_distance(p.strength_solver, s.strength_solver);
    lemma_same_distance(
        p.strength_solver,
        q.strength_solver,
        s.strength_solver,
        t.strength_solver,
    );
    let (corr1, low1) = choose|corr: T, low: bool|
        {
            &&& #[trigger] correlation_gives(p.eqns.x@, s.eqns.x@, s.eqns.n, corr)
            &&& #[trigger] is_below(value(corr), ratio(9, 10), low)
            &&& if low {
                c
            } else {
                is_below(ratio(5, 1_000), distance, c)
            }
        };
    let (corr2, low2) = choose|corr: T, low: bool|
        {
            &&& #[trigger] correlation_gives(q.eqns.x@, t.eqns.x@, t.eqns.n, corr)
            &&& #[trigger] is_below(value(corr), ratio(9, 10), low)
            &&& if low {
                d
            } else {
                is_below(ratio(5, 1_000), distance, d)
            }
        };
    assert(correlation_gives(p.eqns.x@, s.eqns.x@, s.eqns.n, corr2));
    assert(corr1 == corr2);
    law_one_verdict(value(corr1), ratio(9, 10));
    assert(low1 == low2);
    law_one_verdict(ratio(5, 1_000), distance);
}

/// Merging two states has one outcome.
proof fn lemma_one_merge<T: Kernels>(
    p: NoiseModelState<T>,
    q: NoiseModelState<T>,
    latest1: NoiseModelState<T>,
    latest2: NoiseModelState<T>,
    is_chroma: bool,
    s: NoiseModelState<T>,
    t: NoiseModelState<T>,
    c: Result<(), NoiseError>,
    d: Result<(), NoiseError>,
)
    requires
        is_repeatable::<T>(),
        p.wf(),
        is_same_state(p, q),
        is_same_state(latest1, latest2),
        is_merged(p, latest1, is_chroma, s, c),
        is_merged(q, latest2, is_chroma, t, d),
    ensures
        is_same_state(s, t),
        c == d,
{
    let (s1, s2, found1) = choose|s1: NoiseModelState<T>, s2: NoiseModelState<T>, found: bool|
        {
            &&& are_observations_added(p, latest1, s1)
            &&& #[trigger] are_coefficients_found(s1, is_chroma, s2, found)
            &&& if found {
                is_strength_merged(s2, latest1, s, c)
            } else {
                s == s2 && c == Err::<(), NoiseError>(NoiseError::CombinedSystemUnsolved)
            }
        };
    let (t1, t2, found2) = choose|s1: NoiseModelState<T>, s2: NoiseModelState<T>, found: bool|
        {
            &&& are_observations_added(q, latest2, s1)
            &&& #[trigger] are_coefficients_found(s1, is_chroma, s2, found)
            &&& if found {
                is_strength_merged(s2, latest2, t, d)
            } else {
                t == s2 && d == Err::<(), NoiseError>(NoiseError::CombinedSystemUnsolved)
            }
        };
    lemma_one_sum(p.eqns, q.eqns, latest1.eqns, latest2.eqns, s1.eqns, t1.eqns);
    lemma_one_coefficients(s1, t1, is_chroma, s2, t2, found1, found2);
    if found1 {
        let (mid1, ok1) = choose|mid: NoiseModelState<T>, ok: bool|
            {
                &&& are_measurements_added(s2, latest1, mid)
                &&& #[trigger] are_strengths_found(mid, s, ok)
                &&& c == if ok {
                    Ok(())
                } else {
                    Err(NoiseError::CombinedStrengthUnsolved)
                }
            };
        let (mid2, ok2) = choose|mid: NoiseModelState<T>, ok: bool|
            {
                &&& are_measurements_added(t2, latest2, mid)
                &&& #[trigger] are_strengths_found(mid, t, ok)
                &&& d == if ok {
                    Ok(())
                } else {
                    Err(NoiseError::CombinedStrengthUnsolved)
                }
            };
        lemma_one_sum(
            s2.strength_solver.eqns,
            t2.strength_solver.eqns,
            latest1.strength_solver.eqns,
            latest2.strength_solver.eqns,
            mid1.strength_solver.eqns,
            mid2.strength_solver.eqns,
        );
        law_one_outcome(
            plus(value(s2.strength_solver.total), value(latest1.strength_solver.total)),
            mid1.strength_solver.total,
            mid2.strength_solver.total,
        );
        lemma_one_strengths(
            mid1.strength_solver,
            mid2.strength_solver,
            s.strength_solver,
            t.strength_solver,
            ok1,
            ok2,
        );
    }
}

/// Merging all states has one outcome.
proof fn lemma_one_merging<T: Kernels>(
    p: ChannelStates<T>,
    q: ChannelStates<T>,
    latest1: ChannelStates<T>,
    latest2: ChannelStates<T>,
    monochrome: bool,
    s: ChannelStates<T>,
    t: ChannelStates<T>,
    c: Result<(), NoiseError>,
    d: Result<(), NoiseError>,
)
    requires
        is_repeatable::<T>(),
        p.wf(),
        are_same_states(p, q),
        are_same_states(latest1, latest2),
        are_merged(p, latest1, monochrome, s, c),
        are_merged(q, latest2, monochrome, t, d),
    ensures
        are_same_states(s, t),
        c == d,
{
    let luma1 = choose|luma: Result<(), NoiseError>|
        {
            &&& #[trigger] is_merged(p.y, latest1.y, false, s.y, luma)
            &&& if luma is Err || monochrome {
                c == luma && s.cb == p.cb && s.cr == p.cr
            } else {
                is_chroma_merged(p, latest1, s, c)
            }
        };
    let luma2 = choose|luma: Result<(), NoiseError>|
        {
            &&& #[trigger] is_merged(q.y, latest2.y, false, t.y, luma)
            &&& if luma is Err || monochrome {
                d == luma && t.cb == q.cb && t.cr == q.cr
            } else {
                is_chroma_merged(q, latest2, t, d)
            }
        };
    lemma_one_merge(p.y, q.y, latest1.y, latest2.y, false, s.y, t.y, luma1, luma2);
    if !(luma1 is Err || monochrome) {
        let cb1 = choose|cb: Result<(), NoiseError>|
            {
                &&& #[trigger] is_merged(p.cb, latest1.cb, true, s.cb, cb)
                &&& if cb is Err {
                    c == cb && s.cr == p.cr
                } else {
                    is_merged(p.cr, latest1.cr, true, s.cr, c)
                }
            };
        let cb2 = choose|cb: Result<(), NoiseError>|
            {
                &&& #[trigger] is_merged(q.cb, latest2.cb, true, t.cb, cb)
                &&& if cb is Err {
                    d == cb && t.cr == q.cr
                } else {
                    is_merged(q.cr, latest2.cr, true, t.cr, d)
                }
            };
        lemma_one_merge(p.cb, q.cb, latest1.cb, latest2.cb, true, s.cb, t.cb, cb1, cb2);
        if !(cb1 is Err) {
            lemma_one_merge(p.cr, q.cr, latest1.cr, latest2.cr, true, s.cr, t.cr, c, d);
        }
    }
}

/// Combining all states has one outcome.
proof fn lemma_one_combination<T: Kernels>(
    p: ChannelStates<T>,
    q: ChannelStates<T>,
    latest1: ChannelStates<T>,
    latest2: ChannelStates<T>,
    monochrome: bool,
    s: ChannelStates<T>,
    t: ChannelStates<T>,
    c: NoiseStatus,
    d: NoiseStatus,
)
    requires
        is_repeatable::<T>(),
        p.wf(),
        are_same_states(p, q),
        are_same_states(latest1, latest2),
        are_combined(p, latest1, monochrome, s, c),
        are_combined(q, latest2, monochrome, t, d),
    ensures
        are_same_states(s, t),
        c == d,
{
    let different1 = choose|different: bool|
        {
            &&& #[trigger] differs(latest1.y, p.y, different)
            &&& if different && p.y.strength_solver.num_equations > 0 {
                s == p && c == NoiseStatus::DifferentType
            } else {
                exists|r: Result<(), NoiseError>|
                    {
                        &&& #[trigger] are_merged(p, latest1, monochrome, s, r)
                        &&& c == status_of(r)
                    }
            }
        };
    let different2 = choose|different: bool|
        {
            &&& #[trigger] differs(latest2.y, q.y, different)
            &&& if different && q.y.strength_solver.num_equations > 0 {
                t == q && d == NoiseStatus::DifferentType
            } else {
                exists|r: Result<(), NoiseError>|
                    {
                        &&& #[trigger] are_merged(q, latest2, monochrome, t, r)
                        &&& d == status_of(r)
                    }
            }
        };
    lemma_one_difference(latest1.y, latest2.y, p.y, q.y, different1, different2);
    if !(different1 && p.y.strength_solver.num_equations > 0) {
        let r1 = choose|r: Result<(), NoiseError>|
            {
                &&& #[trigger] are_merged(p, latest1, monochrome, s, r)
                &&& c == status_of(r)
            };
        let r2 = choose|r: Result<(), NoiseError>|
            {
                &&& #[trigger] are_merged(q, latest2, monochrome, t, r)
                &&& d == status_of(r)
            };
        lemma_one_merging(p, q, latest1, latest2, monochrome, s, t, r1, r2);
    }
}

/// Clearing a state has one outcome.
proof fn lemma_one_clearing<T: Kernels>(
    p: NoiseModelState<T>,
    q: NoiseModelState<T>,
    s: NoiseModelState<T>,
    t: NoiseModelState<T>,
)
    requires
        is_repeatable::<T>(),
        is_same_state(p, q),
        is_state_cleared(p, s),
        is_state_cleared(q, t),
    ensures
        is_same_state(s, t),
{
    lemma_one_cleared(s.eqns, t.eqns);
    lemma_one_cleared(s.strength_solver.eqns, t.strength_solver.eqns);
    law_one_outcome(count(0), s.strength_solver.total, t.strength_solver.total);
}

/// Whether two models know the same.
pub open spec fn is_same_model<T>(a: NoiseModel<T>, b: NoiseModel<T>) -> bool {
    &&& a.n == b.n
    &&& a.coords@ == b.coords@
    &&& are_same_states(a.latest_state, b.latest_state)
    &&& are_same_states(a.combined_state, b.combined_state)
}

/// Two models that know the same and take in the same frame come to the same status and know
/// the same afterwards, if every operation, test and routine has one outcome.
pub proof fn law_update_has_one_outcome<'a, T: Kernels>(
    p: NoiseModel<T>,
    q: NoiseModel<T>,
    source: &'a Frame<u8>,
    denoised: &'a Frame<u8>,
    flat_blocks: &'a [u8],
    s: NoiseModel<T>,
    t: NoiseModel<T>,
    c: NoiseStatus,
    d: NoiseStatus,
)
    requires
        is_repeatable::<T>(),
        p.wf(),
        is_same_model(p, q),
        is_updated(p, source, denoised, flat_blocks, s, c),
        is_updated(q, source, denoised, flat_blocks, t, d),
    ensures
        is_same_model(s, t),
        c == d,
{
    let few = all_flat_indices(flat_blocks@).len() <= 1;
    let cleared1 = choose|cleared: ChannelStates<T>|
        {
            &&& #[trigger] are_states_cleared(p.latest_state, cleared)
            &&& if few {
                &&& s.latest_state == cleared
                &&& s.combined_state == p.combined_state
                &&& c == NoiseStatus::Error(NoiseError::NotEnoughFlatBlocks)
            } else {
                is_frame_taken_in(p, source, denoised, flat_blocks, cleared, s, c)
            }
        };
    let cleared2 = choose|cleared: ChannelStates<T>|
        {
            &&& #[trigger] are_states_cleared(q.latest_state, cleared)
            &&& if few {
                &&& t.latest_state == cleared
                &&& t.combined_state == q.combined_state
                &&& d == NoiseStatus::Error(NoiseError::NotEnoughFlatBlocks)
            } else {
                is_frame_taken_in(q, source, denoised, flat_blocks, cleared, t, d)
            }
        };
    lemma_one_clearing(p.latest_state.y, q.latest_state.y, cleared1.y, cleared2.y);
    lemma_one_clearing(p.latest_state.cb, q.latest_state.cb, cleared1.cb, cleared2.cb);
    lemma_one_clearing(p.latest_state.cr, q.latest_state.cr, cleared1.cr, cleared2.cr);
    if !few {
        let monochrome = source.subsampling == ChromaSubsampling::Monochrome;
        let r1 = choose|r: Result<(), NoiseError>|
            {
                &&& #[trigger] is_latest_updated(
                    p.coords@,
                    p.n,
                    source,
                    denoised,
                    flat_blocks,
                    cleared1,
                    s.latest_state,
                    r,
                )
                &&& if r is Err {
                    s.combined_state == p.combined_state && c == status_of(r)
                } else {
                    are_combined(
                        p.combined_state,
                        s.latest_state,
                        monochrome,
                        s.combined_state,
                        c,
                    )
                }
            };
        let r2 = choose|r: Result<(), NoiseError>|
            {
                &&& #[trigger] is_latest_updated(
                    q.coords@,
                    q.n,
                    source,
                    denoised,
                    flat_blocks,
                    cleared2,
                    t.latest_state,
                    r,
                )
                &&& if r is Err {
                    t.combined_state == q.combined_state && d == status_of(r)
                } else {
                    are_combined(
                        q.combined_state,
                        t.latest_state,
                        monochrome,
                        t.combined_state,
                        d,
                    )
                }
            };
        lemma_one_latest(
            p.coords@,
            p.n,
            source,
            denoised,
            flat_blocks,
            cleared1,
            cleared2,
            s.latest_state,
            t.latest_state,
            r1,
            r2,
        );
        if r1 is Ok {
            lemma_one_combination(
                p.combined_state,
                q.combined_state,
                s.latest_state,
                t.latest_state,
                monochrome,
                s.combined_state,
                t.combined_state,
                c,
                d,
            );
        }
    }
}

/// Two models that know the same, and take in the same frame with marks that are zero at the
/// same places, come to the same status and know the same afterwards, if every operation,
/// test and routine has one outcome.
pub proof fn law_same_marks_same_update<'a, T: Kernels>(
    p: NoiseModel<T>,
    q: NoiseModel<T>,
    source: &'a Frame<u8>,
    denoised: &'a Frame<u8>,
    f: &'a [u8],
    g: &'a [u8],
    s: NoiseModel<T>,
    t: NoiseModel<T>,
    c: NoiseStatus,
    d: NoiseStatus,
)
    requires
        is_repeatable::<T>(),
        p.wf(),
        is_same_model(p, q),
        are_same_marks(f@, g@),
        all_flat_indices(f@).len() > 1 ==> is_observable(source, denoised, f),
        is_updated(p, source, denoised, f, s, c),
        is_updated(q, source, denoised, g, t, d),
    ensures
        is_same_model(s, t),
        c == d,
{
    law_only_zero_marks_matter(q, source, denoised, f, g, t, d);
    law_update_has_one_outcome(p, q, source, denoised, f, s, t, c, d);
}

} // verus!
