//! What the equations for a plane add up, if the number type calculates exactly and the noise
//! is read as it is.
use crate::equations::{is_cleared, is_mirrored, is_observed, is_scaled, is_sum, EquationSystem};
use crate::exact::{is_defined, is_exact, law_worth, worth};
use crate::kernels::Kernels;
use crate::matrix::{cell, lemma_cell_bound};
use crate::model::{causal_coords, is_state_observed};
use crate::observations::{offsets_of, ChannelSurvey, Window};
use crate::plane::Frame;
use crate::recovery_laws::{
    is_laid_out_alike, law_row_shows_noise, neighbour_x, neighbour_y, noise_at, noise_under,
    plane_in, reads_noise,
};
use crate::scalar::{count, denotes, plus, ratio, times, value, Formula, Scalar};
use crate::state::NoiseModelState;
use crate::update::plane_survey;
use crate::{NUM_UV_COEFFS, NUM_Y_COEFFS};
use vstd::prelude::*;

verus! {

/// What is looked at from a pixel of a plane: the noise at neighbour number `i`, behind the
/// last neighbour the mean luma noise behind the pixel, and at -1 the noise at the pixel.
pub open spec fn noise_seen(
    source: Frame<u8>,
    denoised: Frame<u8>,
    channel: int,
    x: int,
    y: int,
    i: int,
) -> real {
    let s = plane_in(source, channel);
    let d = plane_in(denoised, channel);
    if i < 0 {
        noise_at(s, d, x, y)
    } else if i < 24 {
        noise_at(s, d, x + neighbour_x(i), y + neighbour_y(i))
    } else {
        noise_under(
            source.y_plane,
            denoised.y_plane,
            x,
            y,
            s.geometry.subsampling_x as int,
            s.geometry.subsampling_y as int,
        )
    }
}

/// The product of two of the things that are looked at from a pixel of a block, as a function
/// of its place in the block.
pub open spec fn products_seen(
    source: Frame<u8>,
    denoised: Frame<u8>,
    channel: int,
    x_origin: int,
    y_origin: int,
    i: int,
    j: int,
) -> spec_fn(int, int) -> real {
    |x: int, y: int|
        noise_seen(source, denoised, channel, x_origin + x, y_origin + y, i) * noise_seen(
            source,
            denoised,
            channel,
            x_origin + x,
            y_origin + y,
            j,
        )
}

/// The sum over the pixels of a window, row by row, up to that in column `x`, row `y`.
pub open spec fn sum_over(f: spec_fn(int, int) -> real, w: Window, x: int, y: int) -> real
    decreases y - w.y_start, x - w.x_start,
{
    if x > w.x_start {
        sum_over(f, w, x - 1, y) + f(x - 1, y)
    } else if y > w.y_start {
        sum_over(f, w, w.x_end as int, y - 1)
    } else {
        0real
    }
}

/// The sum over all observed pixels of the first `k` blocks of the products of two of the
/// things that are looked at.
pub open spec fn noise_sum(
    source: Frame<u8>,
    denoised: Frame<u8>,
    channel: int,
    survey: ChannelSurvey,
    indices: Seq<usize>,
    i: int,
    j: int,
    k: int,
) -> real
    decreases k,
{
    if k <= 0 {
        0real
    } else {
        let index = indices[k - 1] as int;
        let w = survey.window(index);
        noise_sum(source, denoised, channel, survey, indices, i, j, k - 1) + sum_over(
            products_seen(
                source,
                denoised,
                channel,
                survey.x_origin(index),
                survey.y_origin(index),
                i,
                j,
            ),
            w,
            w.x_start as int,
            w.bottom(),
        )
    }
}

/// An entry of a system, or, at -1, of its right-hand side.
spec fn held<T>(e: EquationSystem<T>, v: spec_fn(T) -> real, i: int, j: int) -> real {
    if j < 0 {
        v(e.b@[i])
    } else {
        v(e.entry(i, j))
    }
}

/// Whether a place is on the right-hand side, or not below the diagonal.
spec fn is_place(n: int, i: int, j: int) -> bool {
    0 <= i < n && (j == -1 || i <= j < n)
}

/// What an observation adds.
proof fn lemma_added<T: Scalar>(
    pre: EquationSystem<T>,
    row: Seq<T>,
    val: T,
    post: EquationSystem<T>,
    v: spec_fn(T) -> real,
    i: int,
    j: int,
)
    requires
        is_exact(v),
        is_place(pre.n as int, i, j),
        is_observed(pre, row, val, post),
    ensures
        held(post, v, i, j) == held(pre, v, i, j) + v(row[i]) * if j < 0 {
            v(val)
        } else {
            v(row[j])
        },
{
    let p = if j < 0 {
        pre.b@[i]
    } else {
        pre.entry(i, j)
    };
    let t = if j < 0 {
        val
    } else {
        row[j]
    };
    let q = if j < 0 {
        post.b@[i]
    } else {
        post.entry(i, j)
    };
    let f = plus(value(p), times(value(row[i]), value(t)));
    reveal_with_fuel(worth, 3);
    reveal_with_fuel(is_defined, 3);
    law_worth(f, v, q);
}

/// A cleared system holds zeros.
proof fn lemma_cleared<T: Scalar>(e: EquationSystem<T>, v: spec_fn(T) -> real, i: int, j: int)
    requires
        is_exact(v),
        is_place(e.n as int, i, j),
        is_cleared(e),
    ensures
        held(e, v, i, j) == 0real,
{
    let zero: Formula<T> = count(0);
    assert(is_defined(zero, v) && worth(zero, v) == 0real);
    if j < 0 {
        law_worth(zero, v, e.b@[i]);
    } else {
        let n = e.n as int;
        lemma_cell_bound(n, n, i, j);
        law_worth(zero, v, e.a@[cell(n, i, j)]);
    }
}

/// Sums of systems.
proof fn lemma_summed<T: Scalar>(
    a: EquationSystem<T>,
    b: EquationSystem<T>,
    e: EquationSystem<T>,
    v: spec_fn(T) -> real,
    i: int,
    j: int,
)
    requires
        is_exact(v),
        a.wf(),
        b.n == a.n,
        is_place(a.n as int, i, j),
        is_sum(a, b, e),
    ensures
        held(e, v, i, j) == held(a, v, i, j) + held(b, v, i, j),
{
    reveal_with_fuel(worth, 2);
    reveal_with_fuel(is_defined, 2);
    if j < 0 {
        law_worth(plus(value(a.b@[i]), value(b.b@[i])), v, e.b@[i]);
    } else {
        let n = a.n as int;
        lemma_cell_bound(n, n, i, j);
        let c = cell(n, i, j);
        law_worth(plus(value(a.a@[c]), value(b.a@[c])), v, e.a@[c]);
    }
}

/// The pixels of a block up to a place.
proof fn lemma_pixels<'a, T: Kernels>(
    source: &'a Frame<u8>,
    denoised: &'a Frame<u8>,
    flat_blocks: &'a [u8],
    channel: int,
    index: int,
    start: EquationSystem<T>,
    x: int,
    y: int,
    e: EquationSystem<T>,
    v: spec_fn(T) -> real,
    i: int,
    j: int,
)
    requires
        is_exact(v),
        reads_noise(v),
        0 <= channel < 3,
        is_laid_out_alike(*source, *denoised, channel),
        plane_survey(source, denoised, flat_blocks, channel).planes_fit(),
        plane_survey(source, denoised, flat_blocks, channel).num_blocks_w > 0,
        plane_survey(source, denoised, flat_blocks, channel).is_readable(index),
        start.n == if channel == 0 {
            NUM_Y_COEFFS
        } else {
            NUM_UV_COEFFS
        },
        start.wf(),
        is_place(start.n as int, i, j),
        ({
            let w = plane_survey(source, denoised, flat_blocks, channel).window(index);
            &&& w.x_start <= x
            &&& x > w.x_start ==> x <= w.x_end && y < w.y_end
            &&& w.y_start <= y
            &&& y > w.y_start ==> y <= w.y_end && w.x_start <= w.x_end
        }),
        plane_survey(source, denoised, flat_blocks, channel).is_observed_up_to(
            offsets_of(
                causal_coords(),
                NUM_Y_COEFFS,
                plane_in(*source, channel).geometry.stride,
            ),
            NUM_Y_COEFFS,
            index,
            start,
            x,
            y,
            e,
        ),
    ensures
        ({
            let survey = plane_survey(source, denoised, flat_blocks, channel);
            &&& e.wf()
            &&& e.n == start.n
            &&& held(e, v, i, j) == held(start, v, i, j) + sum_over(
                products_seen(
                    *source,
                    *denoised,
                    channel,
                    survey.x_origin(index),
                    survey.y_origin(index),
                    i,
                    j,
                ),
                survey.window(index),
                x,
                y,
            )
        }),
    decreases
            y - plane_survey(source, denoised, flat_blocks, channel).window(index).y_start,
            x - plane_survey(source, denoised, flat_blocks, channel).window(index).x_start,
{
    let survey = plane_survey(source, denoised, flat_blocks, channel);
    let w = survey.window(index);
    let offsets = offsets_of(
        causal_coords(),
        NUM_Y_COEFFS,
        plane_in(*source, channel).geometry.stride,
    );
    if x > w.x_start {
        let (mid, row, val) = choose|mid: EquationSystem<T>, row: Seq<T>, val: T|
            {
                &&& survey.is_observed_up_to(offsets, NUM_Y_COEFFS, index, start, x - 1, y, mid)
                &&& #[trigger] survey.observation_step(
                    offsets,
                    NUM_Y_COEFFS,
                    index,
                    x,
                    y,
                    mid,
                    row,
                    val,
                    e,
                )
            };
        lemma_pixels(
            source,
            denoised,
            flat_blocks,
            channel,
            index,
            start,
            x - 1,
            y,
            mid,
            v,
            i,
            j,
        );
        let px = survey.x_origin(index) + (x - 1);
        let py = survey.y_origin(index) + y;
        survey.law_window_inside(index, x - 1, y);
        assert(survey.is_ar_row(offsets, NUM_Y_COEFFS, px, py, row, val));
        law_row_shows_noise(source, denoised, flat_blocks, channel, v, px, py, row, val);
        lemma_added(mid, row, val, e, v, i, j);
        assert(v(row[i]) == noise_seen(*source, *denoised, channel, px, py, i));
    } else if y > w.y_start {
        lemma_pixels(
            source,
            denoised,
            flat_blocks,
            channel,
            index,
            start,
            w.x_end as int,
            y - 1,
            e,
            v,
            i,
            j,
        );
    }
}

/// A window without pixels.
proof fn lemma_no_pixels(f: spec_fn(int, int) -> real, w: Window, y: int)
    requires
        w.x_start >= w.x_end,
    ensures
        sum_over(f, w, w.x_start as int, y) == 0real,
        sum_over(f, w, w.x_end as int, y) == 0real,
    decreases y - w.y_start,
{
    if y > w.y_start {
        lemma_no_pixels(f, w, y - 1);
    }
}

/// The system of a block.
proof fn lemma_block<'a, T: Kernels>(
    source: &'a Frame<u8>,
    denoised: &'a Frame<u8>,
    flat_blocks: &'a [u8],
    channel: int,
    n: usize,
    index: int,
    e: EquationSystem<T>,
    v: spec_fn(T) -> real,
    i: int,
    j: int,
)
    requires
        is_exact(v),
        reads_noise(v),
        0 <= channel < 3,
        is_laid_out_alike(*source, *denoised, channel),
        plane_survey(source, denoised, flat_blocks, channel).planes_fit(),
        plane_survey(source, denoised, flat_blocks, channel).num_blocks_w > 0,
        plane_survey(source, denoised, flat_blocks, channel).is_readable(index),
        plane_survey(source, denoised, flat_blocks, channel).window(index).area() > 0,
        n == if channel == 0 {
            NUM_Y_COEFFS
        } else {
            NUM_UV_COEFFS
        },
        is_place(n as int, i, j),
        plane_survey(source, denoised, flat_blocks, channel).is_block_system(
            offsets_of(
                causal_coords(),
                NUM_Y_COEFFS,
                plane_in(*source, channel).geometry.stride,
            ),
            NUM_Y_COEFFS,
            n,
            index,
            e,
        ),
    ensures
        ({
            let survey = plane_survey(source, denoised, flat_blocks, channel);
            let w = survey.window(index);
            &&& e.n == n
            &&& e.wf()
            &&& held(e, v, i, j) == sum_over(
                products_seen(
                    *source,
                    *denoised,
                    channel,
                    survey.x_origin(index),
                    survey.y_origin(index),
                    i,
                    j,
                ),
                w,
                w.x_start as int,
                w.bottom(),
            ) / 65025real
        }),
{
    let survey = plane_survey(source, denoised, flat_blocks, channel);
    let w = survey.window(index);
    let offsets = offsets_of(
        causal_coords(),
        NUM_Y_COEFFS,
        plane_in(*source, channel).geometry.stride,
    );
    let (raw, scale, scaled) = choose|raw: EquationSystem<T>, scale: T, scaled: EquationSystem<T>|
        {
            &&& survey.is_block_observed(offsets, NUM_Y_COEFFS, n, index, raw)
            &&& denotes(ratio(1, 65025), scale)
            &&& #[trigger] is_scaled(raw, scale, scaled)
            &&& #[trigger] is_mirrored(scaled, e)
        };
    let start = choose|start: EquationSystem<T>|
        {
            &&& is_cleared(start)
            &&& start.n == n
            &&& #[trigger] survey.is_observed_up_to(
                offsets,
                NUM_Y_COEFFS,
                index,
                start,
                w.x_start as int,
                w.bottom(),
                raw,
            )
        };
    lemma_pixels(
        source,
        denoised,
        flat_blocks,
        channel,
        index,
        start,
        w.x_start as int,
        w.bottom(),
        raw,
        v,
        i,
        j,
    );
    lemma_cleared(start, v, i, j);
    let unit: Formula<T> = ratio(1, 65025);
    assert(is_defined(unit, v) && worth(unit, v) == 1real / 65025real) by {
        assert(1i64 as real == 1real && 65025i64 as real == 65025real);
    }
    law_worth(unit, v, scale);
    let h = held(raw, v, i, j);
    reveal_with_fuel(worth, 2);
    reveal_with_fuel(is_defined, 2);
    if j < 0 {
        law_worth(times(value(raw.b@[i]), value(scale)), v, scaled.b@[i]);
    } else {
        let c = cell(n as int, i, j);
        lemma_cell_bound(n as int, n as int, i, j);
        law_worth(times(value(raw.a@[c]), value(scale)), v, scaled.a@[c]);
        assert(e.entry(i, j) == scaled.entry(i, j));
    }
    assert(h * (1real / 65025real) == h / 65025real) by (nonlinear_arith);
}

/// The sum of a chunk.
proof fn lemma_chunk<'a, T: Kernels>(
    source: &'a Frame<u8>,
    denoised: &'a Frame<u8>,
    flat_blocks: &'a [u8],
    channel: int,
    indices: Seq<usize>,
    n: usize,
    from: int,
    to: int,
    e: EquationSystem<T>,
    v: spec_fn(T) -> real,
    i: int,
    j: int,
)
    requires
        is_exact(v),
        reads_noise(v),
        0 <= channel < 3,
        is_laid_out_alike(*source, *denoised, channel),
        plane_survey(source, denoised, flat_blocks, channel).wf(indices),
        n == if channel == 0 {
            NUM_Y_COEFFS
        } else {
            NUM_UV_COEFFS
        },
        is_place(n as int, i, j),
        0 <= from <= to <= indices.len(),
        plane_survey(source, denoised, flat_blocks, channel).is_chunk_sum(
            indices,
            offsets_of(
                causal_coords(),
                NUM_Y_COEFFS,
                plane_in(*source, channel).geometry.stride,
            ),
            NUM_Y_COEFFS,
            n,
            from,
            to,
            e,
        ),
    ensures
        ({
            let survey = plane_survey(source, denoised, flat_blocks, channel);
            &&& e.n == n
            &&& e.wf()
            &&& held(e, v, i, j) == (noise_sum(
                *source,
                *denoised,
                channel,
                survey,
                indices,
                i,
                j,
                to,
            ) - noise_sum(*source, *denoised, channel, survey, indices, i, j, from)) / 65025real
        }),
    decreases to - from,
{
    let survey = plane_survey(source, denoised, flat_blocks, channel);
    let offsets = offsets_of(
        causal_coords(),
        NUM_Y_COEFFS,
        plane_in(*source, channel).geometry.stride,
    );
    if to > from {
        let (mid, block) = choose|mid: EquationSystem<T>, block: EquationSystem<T>|
            {
                &&& survey.is_chunk_sum(indices, offsets, NUM_Y_COEFFS, n, from, to - 1, mid)
                &&& #[trigger] survey.chunk_step(
                    indices,
                    offsets,
                    NUM_Y_COEFFS,
                    n,
                    to,
                    mid,
                    block,
                    e,
                )
            };
        lemma_chunk(
            source,
            denoised,
            flat_blocks,
            channel,
            indices,
            n,
            from,
            to - 1,
            mid,
            v,
            i,
            j,
        );
        let index = indices[to - 1] as int;
        let w = survey.window(index);
        assert(survey.is_readable(index));
        if w.area() > 0 {
            lemma_block(source, denoised, flat_blocks, channel, n, index, block, v, i, j);
            lemma_summed(mid, block, e, v, i, j);
        } else {
            let f = products_seen(
                *source,
                *denoised,
                channel,
                survey.x_origin(index),
                survey.y_origin(index),
                i,
                j,
            );
            if w.x_start >= w.x_end {
                lemma_no_pixels(f, w, w.bottom());
            } else if w.y_start < w.y_end {
                assert((w.y_end - w.y_start) * (w.x_end - w.x_start) > 0) by (nonlinear_arith)
                    requires
                        w.y_start < w.y_end,
                        w.x_start < w.x_end,
                ;
            }
        }
    } else {
        lemma_cleared(e, v, i, j);
    }
}

/// The sum of the first chunks.
proof fn lemma_chunks<'a, T: Kernels>(
    source: &'a Frame<u8>,
    denoised: &'a Frame<u8>,
    flat_blocks: &'a [u8],
    channel: int,
    indices: Seq<usize>,
    n: usize,
    c: int,
    e: EquationSystem<T>,
    v: spec_fn(T) -> real,
    i: int,
    j: int,
)
    requires
        is_exact(v),
        reads_noise(v),
        0 <= channel < 3,
        is_laid_out_alike(*source, *denoised, channel),
        plane_survey(source, denoised, flat_blocks, channel).wf(indices),
        n == if channel == 0 {
            NUM_Y_COEFFS
        } else {
            NUM_UV_COEFFS
        },
        is_place(n as int, i, j),
        0 <= c,
        plane_survey(source, denoised, flat_blocks, channel).is_total(
            indices,
            offsets_of(
                causal_coords(),
                NUM_Y_COEFFS,
                plane_in(*source, channel).geometry.stride,
            ),
            NUM_Y_COEFFS,
            n,
            c,
            e,
        ),
    ensures
        ({
            let survey = plane_survey(source, denoised, flat_blocks, channel);
            &&& e.n == n
            &&& e.wf()
            &&& held(e, v, i, j) == noise_sum(
                *source,
                *denoised,
                channel,
                survey,
                indices,
                i,
                j,
                survey.chunk_start(indices, c),
            ) / 65025real
        }),
    decreases c,
{
    let survey = plane_survey(source, denoised, flat_blocks, channel);
    let offsets = offsets_of(
        causal_coords(),
        NUM_Y_COEFFS,
        plane_in(*source, channel).geometry.stride,
    );
    if c > 0 {
        let (mid, chunk) = choose|mid: EquationSystem<T>, chunk: EquationSystem<T>|
            {
                &&& survey.is_total(indices, offsets, NUM_Y_COEFFS, n, c - 1, mid)
                &&& #[trigger] survey.total_step(
                    indices,
                    offsets,
                    NUM_Y_COEFFS,
                    n,
                    c,
                    mid,
                    chunk,
                    e,
                )
            };
        lemma_chunks(source, denoised, flat_blocks, channel, indices, n, c - 1, mid, v, i, j);
        lemma_chunk(
            source,
            denoised,
            flat_blocks,
            channel,
            indices,
            n,
            survey.chunk_start(indices, c - 1),
            survey.chunk_start(indices, c),
            chunk,
            v,
            i,
            j,
        );
        lemma_summed(mid, chunk, e, v, i, j);
    } else {
        lemma_cleared(e, v, i, j);
    }
}

/// The equations for a plane hold, in each entry, the sum over all observed pixels of the flat
/// blocks of the product of the two things that are looked at from there, and on the right-hand
/// side the sum of the product with the noise at the pixel, for intensities from zero to one.
pub proof fn law_observed_sums<'a, T: Kernels>(
    source: &'a Frame<u8>,
    denoised: &'a Frame<u8>,
    flat_blocks: &'a [u8],
    indices: Seq<usize>,
    channel: int,
    v: spec_fn(T) -> real,
    pre: NoiseModelState<T>,
    post: NoiseModelState<T>,
    i: int,
    j: int,
)
    requires
        is_exact(v),
        reads_noise(v),
        0 <= channel < 3,
        is_laid_out_alike(*source, *denoised, channel),
        plane_survey(source, denoised, flat_blocks, channel).wf(indices),
        pre.eqns.n == if channel == 0 {
            NUM_Y_COEFFS
        } else {
            NUM_UV_COEFFS
        },
        is_state_observed(
            plane_survey(source, denoised, flat_blocks, channel),
            indices,
            causal_coords(),
            NUM_Y_COEFFS,
            pre,
            post,
        ),
        0 <= i <= j < pre.eqns.n,
    ensures
        ({
            let survey = plane_survey(source, denoised, flat_blocks, channel);
            let k = indices.len() as int;
            &&& v(post.eqns.entry(i, j)) == noise_sum(
                *source,
                *denoised,
                channel,
                survey,
                indices,
                i,
                j,
                k,
            ) / (255real * 255real)
            &&& v(post.eqns.b@[i]) == noise_sum(
                *source,
                *denoised,
                channel,
                survey,
                indices,
                i,
                -1,
                k,
            ) / (255real * 255real)
        }),
{
    let survey = plane_survey(source, denoised, flat_blocks, channel);
    let n = pre.eqns.n;
    let c = survey.num_chunks(indices);
    lemma_chunks(source, denoised, flat_blocks, channel, indices, n, c, post.eqns, v, i, j);
    lemma_chunks(source, denoised, flat_blocks, channel, indices, n, c, post.eqns, v, i, -1);
    assert(survey.chunk_start(indices, c) == indices.len());
}

/// The number of pixels of a window up to a place.
proof fn lemma_pixel_count(w: Window, x: int, y: int)
    requires
        w.x_start <= x,
        w.x_start < w.x_end,
        w.y_start <= y,
    ensures
        sum_over(|x: int, y: int| 1real, w, x, y) == ((y - w.y_start) * (w.x_end - w.x_start) + (x
            - w.x_start)) as real,
    decreases y - w.y_start, x - w.x_start,
{
    if x > w.x_start {
        lemma_pixel_count(w, x - 1, y);
    } else if y > w.y_start {
        lemma_pixel_count(w, w.x_end as int, y - 1);
        assert((y - 1 - w.y_start) * (w.x_end - w.x_start) + (w.x_end - w.x_start) == (y
            - w.y_start) * (w.x_end - w.x_start)) by (nonlinear_arith);
    } else {
        assert(0 * (w.x_end - w.x_start) == 0);
    }
}

/// The number of observed pixels in the first `k` blocks.
pub open spec fn pixel_sum(survey: ChannelSurvey, indices: Seq<usize>, k: int) -> real
    decreases k,
{
    if k <= 0 {
        0real
    } else {
        let w = survey.window(indices[k - 1] as int);
        pixel_sum(survey, indices, k - 1) + sum_over(
            |x: int, y: int| 1real,
            w,
            w.x_start as int,
            w.bottom(),
        )
    }
}

/// The number of observations is that of the observed pixels.
pub proof fn law_observed_count<T: Kernels>(
    survey: ChannelSurvey,
    indices: Seq<usize>,
    coords: Seq<[isize; 2]>,
    num_coords: usize,
    pre: NoiseModelState<T>,
    post: NoiseModelState<T>,
)
    requires
        is_state_observed(survey, indices, coords, num_coords, pre, post),
    ensures
        post.num_observations as real == pixel_sum(survey, indices, indices.len() as int),
{
    lemma_observed_count(survey, indices, indices.len() as int);
}

/// The number of observed pixels in the first `k` blocks.
proof fn lemma_observed_count(survey: ChannelSurvey, indices: Seq<usize>, k: int)
    requires
        0 <= k <= indices.len(),
    ensures
        survey.num_observations(indices, 0, k) as real == pixel_sum(survey, indices, k),
    decreases k,
{
    if k > 0 {
        lemma_observed_count(survey, indices, k - 1);
        let w = survey.window(indices[k - 1] as int);
        if w.x_start >= w.x_end {
            lemma_no_pixels(|x: int, y: int| 1real, w, w.bottom());
        } else {
            lemma_pixel_count(w, w.x_start as int, w.bottom());
            if w.y_start >= w.y_end {
                assert(0 * (w.x_end - w.x_start) == 0);
            }
        }
    }
}

} // verus!
