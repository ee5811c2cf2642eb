//! Number types whose operations and routines have one outcome.
//!
//! What the blocks of a frame show is then one system of equations and one set of
//! measurements.
use crate::equations::{
    is_cleared, is_mirrored, is_observed, is_same_system, is_scaled, is_sum, EquationSystem,
};
use crate::kernels::{correlation_gives, linsolve_gives, row_gives, row_with_alt_gives, Kernels};
use crate::matrix::lemma_cell_split;
use crate::measurements::{
    block_mean_gives, correlation, is_luma_strength, noise_var_gives, uncorrelated_std, LumaNoise,
};
use crate::observations::ChannelSurvey;
use crate::plane::Plane;
use crate::scalar::{
    count, denotes, denotes_all, has_one_outcome, has_one_verdict, is_index, law_one_outcome,
    law_one_verdict, minus, mul_add, over, plus, ratio, times, unary, value, values, Formula,
    Scalar, UnaryOp,
};
use crate::strength::{
    at_most, bin_offset, bin_position, is_bin, is_measured, is_same_solver, is_strength_at,
    measured_matrix, measured_vector, StrengthSolver,
};
use vstd::prelude::*;

verus! {

/// Whether every numeric routine has one outcome.
pub open spec fn has_one_result<T: Kernels>() -> bool {
    &&& forall|
        n: usize,
        a: Seq<T>,
        b: Seq<T>,
        x: Seq<T>,
        y: Seq<T>,
        z: Seq<T>,
        c: bool,
        d: bool,
    | #[trigger]
        linsolve_gives(n, a, b, x, y, c) && #[trigger] linsolve_gives(n, a, b, x, z, d) ==> y == z
            && c == d
    &&& forall|a: Seq<T>, b: Seq<T>, n: usize, r: T, q: T| #[trigger]
        correlation_gives(a, b, n, r) && #[trigger] correlation_gives(a, b, n, q) ==> r == q
    &&& forall|
        o: Seq<isize>,
        n: usize,
        s: Plane<u8>,
        d: Plane<u8>,
        base: usize,
        x: Seq<T>,
        y: Seq<T>,
        r: T,
        q: T,
    | #[trigger]
        row_gives(o, n, s, d, base, x, r) && #[trigger] row_gives(o, n, s, d, base, y, q) ==> x
            == y && r == q
    &&& forall|
        o: Seq<isize>,
        n: usize,
        s: Plane<u8>,
        d: Plane<u8>,
        base: usize,
        dec: (usize, usize),
        alt: (Plane<u8>, Plane<u8>),
        at: (usize, usize),
        x: Seq<T>,
        y: Seq<T>,
        r: T,
        q: T,
    | #[trigger]
        row_with_alt_gives(o, n, s, d, base, dec, alt, at, x, r) && #[trigger] row_with_alt_gives(
            o,
            n,
            s,
            d,
            base,
            dec,
            alt,
            at,
            y,
            q,
        ) ==> x == y && r == q
    &&& forall|p: Plane<u8>, dims: (usize, usize), x: usize, y: usize, r: T, q: T| #[trigger]
        block_mean_gives(p, dims, x, y, r) && #[trigger] block_mean_gives(p, dims, x, y, q) ==> r
            == q
    &&& forall|
        s: Plane<u8>,
        d: Plane<u8>,
        dims: (usize, usize),
        x: usize,
        y: usize,
        block: (usize, usize),
        r: T,
        q: T,
    | #[trigger]
        noise_var_gives(s, d, dims, x, y, block, r) && #[trigger] noise_var_gives(
            s,
            d,
            dims,
            x,
            y,
            block,
            q,
        ) ==> r == q
}

/// Whether every operation, test and routine has one outcome.
pub open spec fn is_repeatable<T: Kernels>() -> bool {
    &&& has_one_outcome::<T>()
    &&& has_one_verdict::<T>()
    &&& has_one_result::<T>()
}

/// Formulas have one list of outcomes.
pub(crate) proof fn lemma_one_list<T: Scalar>(m: Seq<Formula<T>>, s: Seq<T>, t: Seq<T>)
    requires
        has_one_outcome::<T>(),
        denotes_all(m, s),
        denotes_all(m, t),
    ensures
        s == t,
{
    assert forall|k: int| 0 <= k < s.len() implies #[trigger] s[k] == t[k] by {
        law_one_outcome(m[k], s[k], t[k]);
    }
    assert(s =~= t);
}

/// There is one cleared system of a size.
pub(crate) proof fn lemma_one_cleared<T: Scalar>(s: EquationSystem<T>, t: EquationSystem<T>)
    requires
        has_one_outcome::<T>(),
        is_cleared(s),
        is_cleared(t),
        s.n == t.n,
    ensures
        is_same_system(s, t),
{
    assert forall|k: int| 0 <= k < s.a@.len() implies s.a@[k] == t.a@[k] by {
        law_one_outcome(count(0), s.a@[k], t.a@[k]);
    }
    assert forall|k: int| 0 <= k < s.b@.len() implies s.b@[k] == t.b@[k] by {
        law_one_outcome(count(0), s.b@[k], t.b@[k]);
    }
    assert forall|k: int| 0 <= k < s.x@.len() implies s.x@[k] == t.x@[k] by {
        law_one_outcome(count(0), s.x@[k], t.x@[k]);
    }
    assert(s.a@ =~= t.a@);
    assert(s.b@ =~= t.b@);
    assert(s.x@ =~= t.x@);
}

/// Two systems have one sum.
pub(crate) proof fn lemma_one_sum<T: Scalar>(
    p: EquationSystem<T>,
    q: EquationSystem<T>,
    e: EquationSystem<T>,
    f: EquationSystem<T>,
    s: EquationSystem<T>,
    t: EquationSystem<T>,
)
    requires
        has_one_outcome::<T>(),
        p.wf(),
        is_same_system(p, q),
        is_same_system(e, f),
        is_sum(p, e, s),
        is_sum(q, f, t),
    ensures
        is_same_system(s, t),
{
    assert forall|k: int| 0 <= k < s.a@.len() implies s.a@[k] == t.a@[k] by {
        law_one_outcome(plus(value(p.a@[k]), value(e.a@[k])), s.a@[k], t.a@[k]);
    }
    assert forall|k: int| 0 <= k < s.b@.len() implies s.b@[k] == t.b@[k] by {
        law_one_outcome(plus(value(p.b@[k]), value(e.b@[k])), s.b@[k], t.b@[k]);
    }
    assert(s.a@ =~= t.a@);
    assert(s.b@ =~= t.b@);
}

/// Systems with the same entries have the same matrix.
proof fn lemma_same_entries<T>(s: EquationSystem<T>, t: EquationSystem<T>)
    requires
        s.wf(),
        t.wf(),
        s.n == t.n,
        forall|i: int, j: int|
            0 <= i < s.n && 0 <= j < s.n ==> #[trigger] s.entry(i, j) == t.entry(i, j),
    ensures
        s.a@ == t.a@,
{
    let n = s.n as int;
    assert forall|k: int| 0 <= k < s.a@.len() implies s.a@[k] == t.a@[k] by {
        assert(n > 0) by (nonlinear_arith)
            requires
                0 <= k < n * n,
                n >= 0,
        ;
        lemma_cell_split(n, n, k);
        assert(s.entry(k / n, k % n) == t.entry(k / n, k % n));
    }
    assert(s.a@ =~= t.a@);
}

/// A row has one effect on a system.
proof fn lemma_one_observed<T: Scalar>(
    p: EquationSystem<T>,
    q: EquationSystem<T>,
    row: Seq<T>,
    val: T,
    s: EquationSystem<T>,
    t: EquationSystem<T>,
)
    requires
        has_one_outcome::<T>(),
        is_same_system(p, q),
        is_observed(p, row, val, s),
        is_observed(q, row, val, t),
    ensures
        is_same_system(s, t),
{
    assert forall|i: int, j: int| 0 <= i < s.n && 0 <= j < s.n implies #[trigger] s.entry(i, j)
        == t.entry(i, j) by {
        if i <= j {
            law_one_outcome(
                plus(value(p.entry(i, j)), times(value(row[i]), value(row[j]))),
                s.entry(i, j),
                t.entry(i, j),
            );
        }
    }
    lemma_same_entries(s, t);
    assert forall|i: int| 0 <= i < s.b@.len() implies s.b@[i] == t.b@[i] by {
        law_one_outcome(
            plus(value(p.b@[i]), times(value(row[i]), value(val))),
            s.b@[i],
            t.b@[i],
        );
    }
    assert(s.b@ =~= t.b@);
}

/// A system has one scaled system.
proof fn lemma_one_scaled<T: Scalar>(
    p: EquationSystem<T>,
    q: EquationSystem<T>,
    scale: T,
    s: EquationSystem<T>,
    t: EquationSystem<T>,
)
    requires
        has_one_outcome::<T>(),
        p.wf(),
        is_same_system(p, q),
        is_scaled(p, scale, s),
        is_scaled(q, scale, t),
    ensures
        is_same_system(s, t),
{
    assert forall|k: int| 0 <= k < s.a@.len() implies s.a@[k] == t.a@[k] by {
        law_one_outcome(times(value(p.a@[k]), value(scale)), s.a@[k], t.a@[k]);
    }
    assert forall|k: int| 0 <= k < s.b@.len() implies s.b@[k] == t.b@[k] by {
        law_one_outcome(times(value(p.b@[k]), value(scale)), s.b@[k], t.b@[k]);
    }
    assert(s.a@ =~= t.a@);
    assert(s.b@ =~= t.b@);
}

/// A system has one mirrored system.
proof fn lemma_one_mirrored<T>(
    p: EquationSystem<T>,
    q: EquationSystem<T>,
    s: EquationSystem<T>,
    t: EquationSystem<T>,
)
    requires
        is_same_system(p, q),
        is_mirrored(p, s),
        is_mirrored(q, t),
    ensures
        is_same_system(s, t),
{
    lemma_same_entries(s, t);
}

/// The rows of a block have one effect on a system.
proof fn lemma_one_observed_up_to<T: Kernels>(
    survey: ChannelSurvey,
    offsets: Seq<isize>,
    num_coords: usize,
    index: int,
    start: EquationSystem<T>,
    other: EquationSystem<T>,
    x: int,
    y: int,
    s: EquationSystem<T>,
    t: EquationSystem<T>,
)
    requires
        is_repeatable::<T>(),
        start.wf(),
        is_same_system(start, other),
        survey.is_observed_up_to(offsets, num_coords, index, start, x, y, s),
        survey.is_observed_up_to(offsets, num_coords, index, other, x, y, t),
    ensures
        s.wf(),
        is_same_system(s, t),
    decreases y - survey.window(index).y_start, x - survey.window(index).x_start,
{
    let w = survey.window(index);
    if x > w.x_start {
        let (mid1, row1, val1) = choose|mid: EquationSystem<T>, row: Seq<T>, val: T|
            {
                &&& survey.is_observed_up_to(offsets, num_coords, index, start, x - 1, y, mid)
                &&& #[trigger] survey.observation_step(
                    offsets,
                    num_coords,
                    index,
                    x,
                    y,
                    mid,
                    row,
                    val,
                    s,
                )
            };
        let (mid2, row2, val2) = choose|mid: EquationSystem<T>, row: Seq<T>, val: T|
            {
                &&& survey.is_observed_up_to(offsets, num_coords, index, other, x - 1, y, mid)
                &&& #[trigger] survey.observation_step(
                    offsets,
                    num_coords,
                    index,
                    x,
                    y,
                    mid,
                    row,
                    val,
                    t,
                )
            };
        lemma_one_observed_up_to(
            survey,
            offsets,
            num_coords,
            index,
            start,
            other,
            x - 1,
            y,
            mid1,
            mid2,
        );
        assert(row1 == row2 && val1 == val2);
        lemma_one_observed(mid1, mid2, row1, val1, s, t);
    } else if y > w.y_start {
        lemma_one_observed_up_to(
            survey,
            offsets,
            num_coords,
            index,
            start,
            other,
            w.x_end as int,
            y - 1,
            s,
            t,
        );
    }
}

/// A block has one system.
proof fn lemma_one_block<T: Kernels>(
    survey: ChannelSurvey,
    offsets: Seq<isize>,
    num_coords: usize,
    n: usize,
    index: int,
    s: EquationSystem<T>,
    t: EquationSystem<T>,
)
    requires
        is_repeatable::<T>(),
        survey.is_block_system(offsets, num_coords, n, index, s),
        survey.is_block_system(offsets, num_coords, n, index, t),
    ensures
        is_same_system(s, t),
{
    let w = survey.window(index);
    let (raw1, scale1, scaled1) = choose|
        raw: EquationSystem<T>,
        scale: T,
        scaled: EquationSystem<T>,
    |
        {
            &&& survey.is_block_observed(offsets, num_coords, n, index, raw)
            &&& denotes(ratio(1, 65025), scale)
            &&& #[trigger] is_scaled(raw, scale, scaled)
            &&& #[trigger] is_mirrored(scaled, s)
        };
    let (raw2, scale2, scaled2) = choose|
        raw: EquationSystem<T>,
        scale: T,
        scaled: EquationSystem<T>,
    |
        {
            &&& survey.is_block_observed(offsets, num_coords, n, index, raw)
            &&& denotes(ratio(1, 65025), scale)
            &&& #[trigger] is_scaled(raw, scale, scaled)
            &&& #[trigger] is_mirrored(scaled, t)
        };
    let start1 = choose|start: EquationSystem<T>|
        {
            &&& is_cleared(start)
            &&& start.n == n
            &&& #[trigger] survey.is_observed_up_to(
                offsets,
                num_coords,
                index,
                start,
                w.x_start as int,
                w.bottom(),
                raw1,
            )
        };
    let start2 = choose|start: EquationSystem<T>|
        {
            &&& is_cleared(start)
            &&& start.n == n
            &&& #[trigger] survey.is_observed_up_to(
                offsets,
                num_coords,
                index,
                start,
                w.x_start as int,
                w.bottom(),
                raw2,
            )
        };
    lemma_one_cleared(start1, start2);
    lemma_one_observed_up_to(
        survey,
        offsets,
        num_coords,
        index,
        start1,
        start2,
        w.x_start as int,
        w.bottom(),
        raw1,
        raw2,
    );
    law_one_outcome(ratio(1, 65025), scale1, scale2);
    lemma_one_scaled(raw1, raw2, scale1, scaled1, scaled2);
    lemma_one_mirrored(scaled1, scaled2, s, t);
}

/// A chunk of blocks has one sum.
proof fn lemma_one_chunk<T: Kernels>(
    survey: ChannelSurvey,
    indices: Seq<usize>,
    offsets: Seq<isize>,
    num_coords: usize,
    n: usize,
    from: int,
    to: int,
    s: EquationSystem<T>,
    t: EquationSystem<T>,
)
    requires
        is_repeatable::<T>(),
        survey.is_chunk_sum(indices, offsets, num_coords, n, from, to, s),
        survey.is_chunk_sum(indices, offsets, num_coords, n, from, to, t),
    ensures
        s.wf(),
        is_same_system(s, t),
    decreases to - from,
{
    if to > from {
        let (mid1, block1) = choose|mid: EquationSystem<T>, block: EquationSystem<T>|
            {
                &&& survey.is_chunk_sum(indices, offsets, num_coords, n, from, to - 1, mid)
                &&& #[trigger] survey.chunk_step(
                    indices,
                    offsets,
                    num_coords,
                    n,
                    to,
                    mid,
                    block,
                    s,
                )
            };
        let (mid2, block2) = choose|mid: EquationSystem<T>, block: EquationSystem<T>|
            {
                &&& survey.is_chunk_sum(indices, offsets, num_coords, n, from, to - 1, mid)
                &&& #[trigger] survey.chunk_step(
                    indices,
                    offsets,
                    num_coords,
                    n,
                    to,
                    mid,
                    block,
                    t,
                )
            };
        lemma_one_chunk(survey, indices, offsets, num_coords, n, from, to - 1, mid1, mid2);
        let index = indices[to - 1] as int;
        if survey.window(index).area() > 0 {
            lemma_one_block(survey, offsets, num_coords, n, index, block1, block2);
            lemma_one_sum(mid1, mid2, block1, block2, s, t);
        }
    } else {
        lemma_one_cleared(s, t);
    }
}

/// The chunks have one total.
pub(crate) proof fn lemma_one_total<T: Kernels>(
    survey: ChannelSurvey,
    indices: Seq<usize>,
    offsets: Seq<isize>,
    num_coords: usize,
    n: usize,
    c: int,
    s: EquationSystem<T>,
    t: EquationSystem<T>,
)
    requires
        is_repeatable::<T>(),
        survey.is_total(indices, offsets, num_coords, n, c, s),
        survey.is_total(indices, offsets, num_coords, n, c, t),
    ensures
        s.wf(),
        is_same_system(s, t),
    decreases c,
{
    if c > 0 {
        let (mid1, chunk1) = choose|mid: EquationSystem<T>, chunk: EquationSystem<T>|
            {
                &&& survey.is_total(indices, offsets, num_coords, n, c - 1, mid)
                &&& #[trigger] survey.total_step(
                    indices,
                    offsets,
                    num_coords,
                    n,
                    c,
                    mid,
                    chunk,
                    s,
                )
            };
        let (mid2, chunk2) = choose|mid: EquationSystem<T>, chunk: EquationSystem<T>|
            {
                &&& survey.is_total(indices, offsets, num_coords, n, c - 1, mid)
                &&& #[trigger] survey.total_step(
                    indices,
                    offsets,
                    num_coords,
                    n,
                    c,
                    mid,
                    chunk,
                    t,
                )
            };
        lemma_one_total(survey, indices, offsets, num_coords, n, c - 1, mid1, mid2);
        lemma_one_chunk(
            survey,
            indices,
            offsets,
            num_coords,
            n,
            survey.chunk_start(indices, c - 1),
            survey.chunk_start(indices, c),
            chunk1,
            chunk2,
        );
        lemma_one_sum(mid1, mid2, chunk1, chunk2, s, t);
    } else {
        lemma_one_cleared(s, t);
    }
}

/// An intensity lies in one bin.
proof fn lemma_one_bin<T: Scalar>(num_bins: usize, x: Formula<T>, i: int, j: int)
    requires
        has_one_outcome::<T>(),
        has_one_verdict::<T>(),
        is_bin(num_bins, x, i),
        is_bin(num_bins, x, j),
    ensures
        i == j,
{
    let f = unary(UnaryOp::Floor, bin_position(num_bins, x));
    let k = choose|k: usize| #[trigger] is_index(f, k) && i == at_most(k as int, num_bins - 1);
    let l = choose|k: usize| #[trigger] is_index(f, k) && j == at_most(k as int, num_bins - 1);
    law_one_verdict(f, f);
}

/// There is one strength at an intensity.
proof fn lemma_one_strength<T: Scalar>(
    p: StrengthSolver<T>,
    q: StrengthSolver<T>,
    x: T,
    r: T,
    s: T,
)
    requires
        has_one_outcome::<T>(),
        has_one_verdict::<T>(),
        is_same_solver(p, q),
        is_strength_at(p, x, r),
        is_strength_at(q, x, s),
    ensures
        r == s,
{
    let n = p.num_bins;
    let i = choose|i: int|
        {
            let j = at_most(i + 1, n - 1);
            let f = bin_offset(n, value(x), i);
            &&& #[trigger] is_bin(n, value(x), i)
            &&& denotes(
                mul_add(
                    minus(count(1), f),
                    value(p.eqns.x@[i]),
                    times(f, value(p.eqns.x@[j])),
                ),
                r,
            )
        };
    let k = choose|i: int|
        {
            let j = at_most(i + 1, n - 1);
            let f = bin_offset(n, value(x), i);
            &&& #[trigger] is_bin(n, value(x), i)
            &&& denotes(
                mul_add(
                    minus(count(1), f),
                    value(q.eqns.x@[i]),
                    times(f, value(q.eqns.x@[j])),
                ),
                s,
            )
        };
    lemma_one_bin(n, value(x), i, k);
    let j = at_most(i + 1, n - 1);
    let f = bin_offset(n, value(x), i);
    law_one_outcome(
        mul_add(minus(count(1), f), value(p.eqns.x@[i]), times(f, value(p.eqns.x@[j]))),
        r,
        s,
    );
}

/// A measurement has one effect on a solver.
proof fn lemma_one_measured<T: Scalar>(
    p: StrengthSolver<T>,
    q: StrengthSolver<T>,
    mean: T,
    strength: T,
    s: StrengthSolver<T>,
    t: StrengthSolver<T>,
)
    requires
        has_one_outcome::<T>(),
        has_one_verdict::<T>(),
        is_same_solver(p, q),
        is_measured(p, mean, strength, s),
        is_measured(q, mean, strength, t),
    ensures
        is_same_solver(s, t),
{
    let n = p.num_bins as int;
    let x = value(mean);
    let d = value(strength);
    let i = choose|i: int|
        {
            let j = at_most(i + 1, n - 1);
            let f = bin_offset(p.num_bins, x, i);
            &&& #[trigger] is_bin(p.num_bins, x, i)
            &&& denotes_all(measured_matrix(values(p.eqns.a@), n, i, j, f), s.eqns.a@)
            &&& denotes_all(measured_vector(values(p.eqns.b@), i, j, f, d), s.eqns.b@)
        };
    let k = choose|i: int|
        {
            let j = at_most(i + 1, n - 1);
            let f = bin_offset(p.num_bins, x, i);
            &&& #[trigger] is_bin(p.num_bins, x, i)
            &&& denotes_all(measured_matrix(values(q.eqns.a@), n, i, j, f), t.eqns.a@)
            &&& denotes_all(measured_vector(values(q.eqns.b@), i, j, f, d), t.eqns.b@)
        };
    lemma_one_bin(p.num_bins, x, i, k);
    let j = at_most(i + 1, n - 1);
    let f = bin_offset(p.num_bins, x, i);
    lemma_one_list(measured_matrix(values(p.eqns.a@), n, i, j, f), s.eqns.a@, t.eqns.a@);
    lemma_one_list(measured_vector(values(p.eqns.b@), i, j, f, d), s.eqns.b@, t.eqns.b@);
    law_one_outcome(plus(value(p.total), d), s.total, t.total);
}

/// Whether the same is known of the luma noise.
pub open spec fn is_same_luma<T>(l: Option<LumaNoise<T>>, m: Option<LumaNoise<T>>) -> bool {
    match (l, m) {
        (Some(a), Some(b)) => a.corr == b.corr && a.gain == b.gain && is_same_solver(
            *a.solver,
            *b.solver,
        ),
        (None, None) => true,
        _ => false,
    }
}

/// A block has one measurement.
proof fn lemma_one_measurement<T: Kernels>(
    survey: ChannelSurvey,
    gain: T,
    l: Option<LumaNoise<T>>,
    o: Option<LumaNoise<T>>,
    index: int,
    a: Option<(T, T)>,
    b: Option<(T, T)>,
)
    requires
        is_repeatable::<T>(),
        is_same_luma(l, o),
        survey.is_measurement(gain, l, index, a),
        survey.is_measurement(gain, o, index, b),
    ensures
        a == b,
{
    if a is Some {
        let (mean1, strength1) = a->0;
        let (mean2, strength2) = b->0;
        let g = survey.source.geometry;
        let x_o = survey.x_origin(index) as usize;
        let y_o = survey.y_origin(index) as usize;
        let block = (survey.block_w() as usize, survey.block_h() as usize);
        let dims = (g.width, g.height);
        let (var1, f1) = choose|var: T, f: Formula<T>|
            {
                &&& #[trigger] noise_var_gives(
                    *survey.source,
                    *survey.denoised,
                    dims,
                    x_o,
                    y_o,
                    block,
                    var,
                )
                &&& #[trigger] is_luma_strength(l, mean1, f)
                &&& denotes(
                    over(uncorrelated_std(value(var), correlation(l), f), value(gain)),
                    strength1,
                )
            };
        let (var2, f2) = choose|var: T, f: Formula<T>|
            {
                &&& #[trigger] noise_var_gives(
                    *survey.source,
                    *survey.denoised,
                    dims,
                    x_o,
                    y_o,
                    block,
                    var,
                )
                &&& #[trigger] is_luma_strength(o, mean2, f)
                &&& denotes(
                    over(uncorrelated_std(value(var), correlation(o), f), value(gain)),
                    strength2,
                )
            };
        assert(mean1 == mean2);
        assert(var1 == var2);
        if l is Some {
            let m = l->0;
            let n = o->0;
            let s1 = choose|s: T| #[trigger]
                is_strength_at(*m.solver, mean1, s) && f1 == times(value(m.gain), value(s));
            let s2 = choose|s: T| #[trigger]
                is_strength_at(*n.solver, mean2, s) && f2 == times(value(n.gain), value(s));
            lemma_one_strength(*m.solver, *n.solver, mean1, s1, s2);
        }
        assert(f1 == f2);
        law_one_outcome(
            over(uncorrelated_std(value(var1), correlation(l), f1), value(gain)),
            strength1,
            strength2,
        );
    }
}

/// The blocks have one solver with their measurements.
pub(crate) proof fn lemma_one_measuring<T: Kernels>(
    survey: ChannelSurvey,
    indices: Seq<usize>,
    gain: T,
    l: Option<LumaNoise<T>>,
    o: Option<LumaNoise<T>>,
    num_bins: usize,
    k: int,
    s: StrengthSolver<T>,
    t: StrengthSolver<T>,
)
    requires
        is_repeatable::<T>(),
        is_same_luma(l, o),
        survey.are_measured(indices, gain, l, num_bins, k, s),
        survey.are_measured(indices, gain, o, num_bins, k, t),
    ensures
        s.wf(),
        is_same_solver(s, t),
    decreases k,
{
    if k <= 0 {
        lemma_one_cleared(s.eqns, t.eqns);
        law_one_outcome(count(0), s.total, t.total);
    } else {
        let (mid1, m1) = choose|mid: StrengthSolver<T>, m: Option<(T, T)>|
            {
                &&& survey.are_measured(indices, gain, l, num_bins, k - 1, mid)
                &&& #[trigger] survey.measurement_step(indices, gain, l, k, mid, m, s)
            };
        let (mid2, m2) = choose|mid: StrengthSolver<T>, m: Option<(T, T)>|
            {
                &&& survey.are_measured(indices, gain, o, num_bins, k - 1, mid)
                &&& #[trigger] survey.measurement_step(indices, gain, o, k, mid, m, t)
            };
        lemma_one_measuring(survey, indices, gain, l, o, num_bins, k - 1, mid1, mid2);
        lemma_one_measurement(survey, gain, l, o, indices[k - 1] as int, m1, m2);
        if m1 is Some {
            let (mean, strength) = m1->0;
            lemma_one_measured(mid1, mid2, mean, strength, s, t);
        }
    }
}

} // verus!
