//! The equations of a plane are solved by the model that its noise follows, if the number type
//! calculates exactly and the noise is read as it is.
use crate::equations::{is_cleared, is_mirrored, is_observed, is_scaled, is_sum, EquationSystem};
use crate::exact::{is_defined, is_exact, law_worth, worth};
use crate::kernels::{row_gives, row_with_alt_gives, Kernels};
use crate::matrix::{cell, lemma_cell_bound};
use crate::measurement_laws::lemma_zero;
use crate::model::{causal_coords, is_state_observed};
use crate::observations::{offsets_of, ChannelSurvey};
use crate::plane::{lemma_place_bound, Frame, Plane};
use crate::scalar::{denotes, plus, ratio, times, value, Scalar};
use crate::solution_laws::{is_solution, product};
use crate::state::NoiseModelState;
use crate::update::plane_survey;
use crate::{NOISE_MODEL_LAG, NUM_UV_COEFFS, NUM_Y_COEFFS};
use vstd::prelude::*;

verus! {

/// The noise in column `x`, row `y`: what the source has more than the denoised plane.
pub open spec fn noise_at(source: Plane<u8>, denoised: Plane<u8>, x: int, y: int) -> real {
    source.pixel(x, y) as real - denoised.pixel(x, y) as real
}

/// The noise at the pixel that is counted as number `k` from the origins of the planes.
pub open spec fn noise_of(source: Plane<u8>, denoised: Plane<u8>, k: int) -> real {
    source.data@[source.geometry.origin() + k] as real - denoised.data@[denoised.geometry.origin()
        + k] as real
}

/// The sum of the noise in the first `n` columns from column `x` on, in row `y`.
pub open spec fn row_noise(
    source: Plane<u8>,
    denoised: Plane<u8>,
    x: int,
    y: int,
    n: int,
) -> real
    decreases n,
{
    if n <= 0 {
        0real
    } else {
        row_noise(source, denoised, x, y, n - 1) + noise_at(source, denoised, x + (n - 1), y)
    }
}

/// The sum of the noise in the `n` columns from column `x` on and the first `m` rows from row
/// `y` on.
pub open spec fn area_noise(
    source: Plane<u8>,
    denoised: Plane<u8>,
    x: int,
    y: int,
    n: int,
    m: int,
) -> real
    decreases m,
{
    if m <= 0 {
        0real
    } else {
        area_noise(source, denoised, x, y, n, m - 1) + row_noise(
            source,
            denoised,
            x,
            y + (m - 1),
            n,
        )
    }
}

/// The mean noise in the luma pixels that go with a chroma pixel, of which there are `n` in a
/// row and `m` in a column.
pub open spec fn noise_under(
    source: Plane<u8>,
    denoised: Plane<u8>,
    x: int,
    y: int,
    n: int,
    m: int,
) -> real {
    area_noise(source, denoised, x * n, y * m, n, m) / (n * m) as real
}

/// Whether noise is read as it is: the differences between the source and the denoised plane,
/// and for chroma the mean difference in the luma pixels behind them.
pub open spec fn reads_noise<T: Kernels>(v: spec_fn(T) -> real) -> bool {
    &&& forall|
        o: Seq<isize>,
        n: usize,
        s: Plane<u8>,
        d: Plane<u8>,
        base: usize,
        row: Seq<T>,
        val: T,
    | #[trigger]
        row_gives(o, n, s, d, base, row, val) ==> {
            &&& v(val) == noise_of(s, d, base as int)
            &&& forall|i: int| 0 <= i < n ==> v(#[trigger] row[i]) == noise_of(s, d, base + o[i])
        }
    &&& forall|
        o: Seq<isize>,
        n: usize,
        s: Plane<u8>,
        d: Plane<u8>,
        base: usize,
        dec: (usize, usize),
        alt: (Plane<u8>, Plane<u8>),
        at: (usize, usize),
        row: Seq<T>,
        val: T,
    | #[trigger]
        row_with_alt_gives(o, n, s, d, base, dec, alt, at, row, val) ==> {
            &&& v(val) == noise_of(s, d, base as int)
            &&& forall|i: int| 0 <= i < n ==> v(#[trigger] row[i]) == noise_of(s, d, base + o[i])
            &&& v(row[n as int]) == noise_under(
                alt.0,
                alt.1,
                at.0 as int,
                at.1 as int,
                dec.0 + 1,
                dec.1 + 1,
            )
        }
}

/// A plane of a frame.
pub open spec fn plane_in(f: Frame<u8>, channel: int) -> Plane<u8> {
    if channel == 0 {
        f.y_plane
    } else if channel == 1 {
        f.u_plane->0
    } else {
        f.v_plane->0
    }
}

/// How far to the right neighbour number `i` of a pixel lies: the neighbours are listed row by
/// row, from three rows above and three columns to the left.
pub open spec fn neighbour_x(i: int) -> int {
    i % 7 - 3
}

/// How far below neighbour number `i` of a pixel lies.
pub open spec fn neighbour_y(i: int) -> int {
    i / 7 - 3
}

/// Whether the planes of the two frames can be read alike.
pub open spec fn is_laid_out_alike(source: Frame<u8>, denoised: Frame<u8>, channel: int) -> bool {
    let g = plane_in(source, channel).geometry;
    &&& plane_in(denoised, channel).geometry.stride == g.stride
    &&& g.stride * NOISE_MODEL_LAG + NOISE_MODEL_LAG <= isize::MAX
}

/// A pixel of a plane is found where it is counted.
proof fn lemma_counted(s: Plane<u8>, d: Plane<u8>, x: int, y: int)
    requires
        s.wf(),
        d.wf(),
        d.geometry.stride == s.geometry.stride,
        0 <= x < s.geometry.width,
        0 <= y < s.geometry.height,
    ensures
        noise_of(s, d, y * s.geometry.stride + x) == noise_at(s, d, x, y),
        0 <= y * s.geometry.stride + x < s.data.len(),
{
    lemma_place_bound(s.geometry, x, y);
    let t = s.geometry.stride as int;
    assert(0 <= y * t) by (nonlinear_arith)
        requires
            0 <= y,
            0 <= t,
    ;
    let p = s.geometry.pad_top as int;
    assert(0 <= t * p) by (nonlinear_arith)
        requires
            0 <= p,
            0 <= t,
    ;
}

/// What is read at an observed pixel is the noise of the plane of the frames that were handed
/// in: at the pixel, at its neighbours, and for a chroma plane the mean luma noise behind it.
pub proof fn law_row_shows_noise<'a, T: Kernels>(
    source: &'a Frame<u8>,
    denoised: &'a Frame<u8>,
    flat_blocks: &'a [u8],
    channel: int,
    v: spec_fn(T) -> real,
    x: int,
    y: int,
    row: Seq<T>,
    val: T,
)
    requires
        reads_noise(v),
        0 <= channel < 3,
        is_laid_out_alike(*source, *denoised, channel),
        plane_survey(source, denoised, flat_blocks, channel).planes_fit(),
        NOISE_MODEL_LAG <= x,
        x + NOISE_MODEL_LAG < plane_in(*source, channel).geometry.width,
        NOISE_MODEL_LAG <= y < plane_in(*source, channel).geometry.height,
        plane_survey(source, denoised, flat_blocks, channel).is_ar_row(
            offsets_of(
                causal_coords(),
                NUM_Y_COEFFS,
                plane_in(*source, channel).geometry.stride,
            ),
            NUM_Y_COEFFS,
            x,
            y,
            row,
            val,
        ),
    ensures
        v(val) == noise_at(plane_in(*source, channel), plane_in(*denoised, channel), x, y),
        forall|i: int|
            0 <= i < NUM_Y_COEFFS ==> v(#[trigger] row[i]) == noise_at(
                plane_in(*source, channel),
                plane_in(*denoised, channel),
                x + neighbour_x(i),
                y + neighbour_y(i),
            ),
        channel > 0 ==> v(row[NUM_Y_COEFFS as int]) == noise_under(
            source.y_plane,
            denoised.y_plane,
            x,
            y,
            plane_in(*source, channel).geometry.subsampling_x as int,
            plane_in(*source, channel).geometry.subsampling_y as int,
        ),
{
    let s = plane_in(*source, channel);
    let d = plane_in(*denoised, channel);
    let t = s.geometry.stride as int;
    let o = offsets_of(causal_coords(), NUM_Y_COEFFS, s.geometry.stride);
    let base = (y * s.geometry.stride + x) as usize;
    lemma_counted(s, d, x, y);
    assert(base as int == y * t + x);
    assert forall|i: int| 0 <= i < NUM_Y_COEFFS implies v(#[trigger] row[i]) == noise_at(
        s,
        d,
        x + neighbour_x(i),
        y + neighbour_y(i),
    ) by {
        let dx = neighbour_x(i);
        let dy = neighbour_y(i);
        assert(-3 <= dx <= 3 && -3 <= dy <= 0);
        assert(causal_coords()[i][0] == dx && causal_coords()[i][1] == dy);
        assert(-3 * t <= dy * t <= 0) by (nonlinear_arith)
            requires
                -3 <= dy <= 0,
                0 <= t,
        ;
        assert(o[i] as int == dy * t + dx);
        lemma_counted(s, d, x + dx, y + dy);
        assert(base + o[i] == (y + dy) * t + (x + dx)) by (nonlinear_arith)
            requires
                base as int == y * t + x,
                o[i] as int == dy * t + dx,
        ;
    }
}

/// The first `k` entries of a row, each times its coefficient.
pub open spec fn predicted<T>(
    row: Seq<T>,
    v: spec_fn(T) -> real,
    w: spec_fn(int) -> real,
    k: int,
) -> real
    decreases k,
{
    if k <= 0 {
        0real
    } else {
        predicted(row, v, w, k - 1) + v(row[k - 1]) * w(k - 1)
    }
}

/// The entry of the upper triangle that stands for the entry in row `i`, column `j`.
spec fn upper<T>(e: EquationSystem<T>, i: int, j: int) -> T {
    if i <= j {
        e.entry(i, j)
    } else {
        e.entry(j, i)
    }
}

/// The first `k` terms of the product of row `i` and a vector, by the upper triangle.
spec fn upper_product<T>(
    e: EquationSystem<T>,
    v: spec_fn(T) -> real,
    w: spec_fn(int) -> real,
    i: int,
    k: int,
) -> real
    decreases k,
{
    if k <= 0 {
        0real
    } else {
        upper_product(e, v, w, i, k - 1) + v(upper(e, i, k - 1)) * w(k - 1)
    }
}

/// Whether a vector solves the equations, by the upper triangle.
spec fn is_upper_solution<T>(
    e: EquationSystem<T>,
    v: spec_fn(T) -> real,
    w: spec_fn(int) -> real,
) -> bool {
    &&& e.wf()
    &&& forall|i: int|
        0 <= i < e.n ==> upper_product(e, v, w, i, e.n as int) == v(#[trigger] e.b@[i])
}

/// What an observation adds to a product.
proof fn lemma_observed_product<T: Scalar>(
    pre: EquationSystem<T>,
    row: Seq<T>,
    val: T,
    post: EquationSystem<T>,
    v: spec_fn(T) -> real,
    w: spec_fn(int) -> real,
    i: int,
    k: int,
)
    requires
        is_exact(v),
        is_observed(pre, row, val, post),
        0 <= i < pre.n,
        0 <= k <= pre.n,
    ensures
        upper_product(post, v, w, i, k) == upper_product(pre, v, w, i, k) + v(row[i]) * predicted(
            row,
            v,
            w,
            k,
        ),
    decreases k,
{
    let r = v(row[i]);
    if k > 0 {
        lemma_observed_product(pre, row, val, post, v, w, i, k - 1);
        let j = k - 1;
        let (a, b) = if i <= j {
            (i, j)
        } else {
            (j, i)
        };
        let f = plus(value(pre.entry(a, b)), times(value(row[a]), value(row[b])));
        reveal_with_fuel(worth, 3);
        reveal_with_fuel(is_defined, 3);
        law_worth(f, v, post.entry(a, b));
        let s = v(row[j]);
        let e = v(upper(pre, i, j));
        let x = w(j);
        let p = predicted(row, v, w, k - 1);
        assert(v(row[a]) * v(row[b]) == r * s) by (nonlinear_arith)
            requires
                (v(row[a]) == r && v(row[b]) == s) || (v(row[a]) == s && v(row[b]) == r),
        ;
        assert(v(upper(post, i, j)) == e + r * s);
        assert((e + r * s) * x == e * x + r * (s * x)) by (nonlinear_arith);
        assert(r * (p + s * x) == r * p + r * (s * x)) by (nonlinear_arith);
    } else {
        assert(r * 0real == 0real) by (nonlinear_arith);
    }
}

/// An observation that follows the model keeps it as the solution.
proof fn lemma_observed_solution<T: Scalar>(
    pre: EquationSystem<T>,
    row: Seq<T>,
    val: T,
    post: EquationSystem<T>,
    v: spec_fn(T) -> real,
    w: spec_fn(int) -> real,
)
    requires
        is_exact(v),
        is_observed(pre, row, val, post),
        is_upper_solution(pre, v, w),
        v(val) == predicted(row, v, w, pre.n as int),
    ensures
        is_upper_solution(post, v, w),
{
    let n = pre.n as int;
    assert forall|i: int| 0 <= i < n implies upper_product(post, v, w, i, n) == v(
        #[trigger] post.b@[i],
    ) by {
        lemma_observed_product(pre, row, val, post, v, w, i, n);
        assert(upper_product(pre, v, w, i, n) == v(pre.b@[i]));
        let f = plus(value(pre.b@[i]), times(value(row[i]), value(val)));
        reveal_with_fuel(worth, 3);
        reveal_with_fuel(is_defined, 3);
        law_worth(f, v, post.b@[i]);
    }
}

/// A cleared system is solved by everything.
proof fn lemma_cleared_upper<T: Scalar>(
    e: EquationSystem<T>,
    v: spec_fn(T) -> real,
    w: spec_fn(int) -> real,
    i: int,
    k: int,
)
    requires
        is_exact(v),
        is_cleared(e),
        0 <= i < e.n,
        0 <= k <= e.n,
    ensures
        upper_product(e, v, w, i, k) == 0real,
        product(e.a@, e.n as int, v, w, i, k) == 0real,
    decreases k,
{
    if k > 0 {
        lemma_cleared_upper(e, v, w, i, k - 1);
        let n = e.n as int;
        let j = k - 1;
        lemma_cell_bound(n, n, i, j);
        lemma_cell_bound(n, n, j, i);
        lemma_zero(v, e.a@[cell(n, i, j)]);
        lemma_zero(v, e.a@[cell(n, j, i)]);
        let x = w(j);
        assert(0real * x == 0real) by (nonlinear_arith);
    }
}

/// A scaled and mirrored system has the same solutions.
proof fn lemma_block_product<T: Scalar>(
    raw: EquationSystem<T>,
    scale: T,
    scaled: EquationSystem<T>,
    e: EquationSystem<T>,
    v: spec_fn(T) -> real,
    w: spec_fn(int) -> real,
    i: int,
    k: int,
)
    requires
        is_exact(v),
        raw.wf(),
        is_scaled(raw, scale, scaled),
        is_mirrored(scaled, e),
        0 <= i < raw.n,
        0 <= k <= raw.n,
    ensures
        product(e.a@, e.n as int, v, w, i, k) == v(scale) * upper_product(raw, v, w, i, k),
    decreases k,
{
    let c = v(scale);
    if k > 0 {
        lemma_block_product(raw, scale, scaled, e, v, w, i, k - 1);
        let n = raw.n as int;
        let j = k - 1;
        let (a, b) = if i <= j {
            (i, j)
        } else {
            (j, i)
        };
        lemma_cell_bound(n, n, a, b);
        let p = cell(n, a, b);
        assert(e.entry(i, j) == scaled.entry(a, b));
        reveal_with_fuel(worth, 3);
        reveal_with_fuel(is_defined, 3);
        law_worth(times(value(raw.a@[p]), value(scale)), v, scaled.a@[p]);
        let u = v(upper(raw, i, j));
        let x = w(j);
        let rest = upper_product(raw, v, w, i, k - 1);
        assert(v(e.entry(i, j)) == u * c);
        assert((u * c) * x == c * (u * x)) by (nonlinear_arith);
        assert(c * (rest + u * x) == c * rest + c * (u * x)) by (nonlinear_arith);
    } else {
        assert(c * 0real == 0real) by (nonlinear_arith);
    }
}

/// The product with a sum is the sum of the products.
proof fn lemma_sum_product<T: Scalar>(
    p: EquationSystem<T>,
    q: EquationSystem<T>,
    s: EquationSystem<T>,
    v: spec_fn(T) -> real,
    w: spec_fn(int) -> real,
    i: int,
    k: int,
)
    requires
        is_exact(v),
        p.wf(),
        is_sum(p, q, s),
        0 <= i < p.n,
        0 <= k <= p.n,
    ensures
        product(s.a@, s.n as int, v, w, i, k) == product(p.a@, p.n as int, v, w, i, k) + product(
            q.a@,
            p.n as int,
            v,
            w,
            i,
            k,
        ),
    decreases k,
{
    if k > 0 {
        lemma_sum_product(p, q, s, v, w, i, k - 1);
        let n = p.n as int;
        lemma_cell_bound(n, n, i, k - 1);
        let c = cell(n, i, k - 1);
        reveal_with_fuel(worth, 3);
        reveal_with_fuel(is_defined, 3);
        law_worth(plus(value(p.a@[c]), value(q.a@[c])), v, s.a@[c]);
        let (a, b, x) = (v(p.a@[c]), v(q.a@[c]), w(k - 1));
        assert((a + b) * x == a * x + b * x) by (nonlinear_arith);
    }
}

/// Whether the equations of a system are solved by the vector.
pub open spec fn is_solved_by<T>(
    e: EquationSystem<T>,
    v: spec_fn(T) -> real,
    w: spec_fn(int) -> real,
) -> bool {
    e.wf() && is_solution(e.a@, e.n as int, e.b@, v, w)
}

/// The sum of two systems that a vector solves is solved by it.
proof fn lemma_sum_solution<T: Scalar>(
    p: EquationSystem<T>,
    q: EquationSystem<T>,
    s: EquationSystem<T>,
    v: spec_fn(T) -> real,
    w: spec_fn(int) -> real,
)
    requires
        is_exact(v),
        is_sum(p, q, s),
        p.n == q.n,
        is_solved_by(p, v, w),
        is_solved_by(q, v, w),
    ensures
        is_solved_by(s, v, w),
{
    let n = p.n as int;
    assert forall|i: int| 0 <= i < n implies product(s.a@, n, v, w, i, n) == v(
        #[trigger] s.b@[i],
    ) by {
        lemma_sum_product(p, q, s, v, w, i, n);
        assert(product(p.a@, n, v, w, i, n) == v(p.b@[i]));
        assert(product(q.a@, n, v, w, i, n) == v(q.b@[i]));
        reveal_with_fuel(worth, 3);
        reveal_with_fuel(is_defined, 3);
        law_worth(plus(value(p.b@[i]), value(q.b@[i])), v, s.b@[i]);
    }
}

/// Whether what is read at the pixels of a block follows the model.
pub open spec fn is_block_explained<T: Kernels>(
    survey: ChannelSurvey,
    offsets: Seq<isize>,
    num_coords: usize,
    n: int,
    index: int,
    v: spec_fn(T) -> real,
    w: spec_fn(int) -> real,
) -> bool {
    let win = survey.window(index);
    forall|x: int, y: int, row: Seq<T>, val: T|
        win.x_start <= x < win.x_end && win.y_start <= y < win.y_end && #[trigger] survey.is_ar_row(
            offsets,
            num_coords,
            survey.x_origin(index) + x,
            survey.y_origin(index) + y,
            row,
            val,
        ) ==> v(val) == predicted(row, v, w, n)
}

/// The pixels of a block keep the model as the solution.
proof fn lemma_observed_up_to<T: Kernels>(
    survey: ChannelSurvey,
    offsets: Seq<isize>,
    num_coords: usize,
    index: int,
    start: EquationSystem<T>,
    x: int,
    y: int,
    e: EquationSystem<T>,
    v: spec_fn(T) -> real,
    w: spec_fn(int) -> real,
)
    requires
        is_exact(v),
        is_upper_solution(start, v, w),
        is_block_explained(survey, offsets, num_coords, start.n as int, index, v, w),
        survey.window(index).x_start <= x,
        x > survey.window(index).x_start ==> x <= survey.window(index).x_end,
        survey.window(index).y_start <= y,
        x > survey.window(index).x_start ==> y < survey.window(index).y_end,
        y > survey.window(index).y_start ==> y <= survey.window(index).y_end
            && survey.window(index).x_start <= survey.window(index).x_end,
        survey.is_observed_up_to(offsets, num_coords, index, start, x, y, e),
    ensures
        is_upper_solution(e, v, w),
        e.n == start.n,
    decreases y - survey.window(index).y_start, x - survey.window(index).x_start,
{
    let win = survey.window(index);
    if x > win.x_start {
        let (mid, row, val) = choose|mid: EquationSystem<T>, row: Seq<T>, val: T|
            {
                &&& survey.is_observed_up_to(offsets, num_coords, index, start, x - 1, y, mid)
                &&& #[trigger] survey.observation_step(
                    offsets,
                    num_coords,
                    index,
                    x,
                    y,
                    mid,
                    row,
                    val,
                    e,
                )
            };
        lemma_observed_up_to(survey, offsets, num_coords, index, start, x - 1, y, mid, v, w);
        assert(survey.x_origin(index) + x - 1 == survey.x_origin(index) + (x - 1));
        assert(survey.is_ar_row(
            offsets,
            num_coords,
            survey.x_origin(index) + (x - 1),
            survey.y_origin(index) + y,
            row,
            val,
        ));
        assert(v(val) == predicted(row, v, w, start.n as int));
        lemma_observed_solution(mid, row, val, e, v, w);
    } else if y > win.y_start {
        lemma_observed_up_to(
            survey,
            offsets,
            num_coords,
            index,
            start,
            win.x_end as int,
            y - 1,
            e,
            v,
            w,
        );
    }
}

/// The system of a block is solved by the model.
proof fn lemma_block_solution<T: Kernels>(
    survey: ChannelSurvey,
    offsets: Seq<isize>,
    num_coords: usize,
    n: usize,
    index: int,
    e: EquationSystem<T>,
    v: spec_fn(T) -> real,
    w: spec_fn(int) -> real,
)
    requires
        is_exact(v),
        survey.window(index).area() > 0,
        is_block_explained(survey, offsets, num_coords, n as int, index, v, w),
        survey.is_block_system(offsets, num_coords, n, index, e),
    ensures
        is_solved_by(e, v, w),
        e.n == n,
{
    let win = survey.window(index);
    let (raw, scale, scaled) = choose|raw: EquationSystem<T>, scale: T, scaled: EquationSystem<T>|
        {
            &&& survey.is_block_observed(offsets, num_coords, n, index, raw)
            &&& denotes(ratio(1, 65025), scale)
            &&& #[trigger] is_scaled(raw, scale, scaled)
            &&& #[trigger] is_mirrored(scaled, e)
        };
    let start = choose|start: EquationSystem<T>|
        {
            &&& is_cleared(start)
            &&& start.n == n
            &&& #[trigger] survey.is_observed_up_to(
                offsets,
                num_coords,
                index,
                start,
                win.x_start as int,
                win.bottom(),
                raw,
            )
        };
    let k = n as int;
    assert forall|i: int| 0 <= i < k implies upper_product(start, v, w, i, k) == v(
        #[trigger] start.b@[i],
    ) by {
        lemma_cleared_upper(start, v, w, i, k);
        lemma_zero(v, start.b@[i]);
    }
    lemma_observed_up_to(
        survey,
        offsets,
        num_coords,
        index,
        start,
        win.x_start as int,
        win.bottom(),
        raw,
        v,
        w,
    );
    assert forall|i: int| 0 <= i < k implies product(e.a@, k, v, w, i, k) == v(
        #[trigger] e.b@[i],
    ) by {
        lemma_block_product(raw, scale, scaled, e, v, w, i, k);
        assert(upper_product(raw, v, w, i, k) == v(raw.b@[i]));
        reveal_with_fuel(worth, 3);
        reveal_with_fuel(is_defined, 3);
        law_worth(times(value(raw.b@[i]), value(scale)), v, scaled.b@[i]);
        let (c, b) = (v(scale), v(raw.b@[i]));
        assert(c * b == b * c) by (nonlinear_arith);
    }
}

/// A cleared system is solved by every vector.
proof fn lemma_cleared_solution<T: Scalar>(
    e: EquationSystem<T>,
    v: spec_fn(T) -> real,
    w: spec_fn(int) -> real,
)
    requires
        is_exact(v),
        is_cleared(e),
    ensures
        is_solved_by(e, v, w),
{
    let n = e.n as int;
    assert forall|i: int| 0 <= i < n implies product(e.a@, n, v, w, i, n) == v(
        #[trigger] e.b@[i],
    ) by {
        lemma_cleared_upper(e, v, w, i, n);
        lemma_zero(v, e.b@[i]);
    }
}

/// The sum of a chunk is solved by the model.
proof fn lemma_chunk_solution<T: Kernels>(
    survey: ChannelSurvey,
    indices: Seq<usize>,
    offsets: Seq<isize>,
    num_coords: usize,
    n: usize,
    from: int,
    to: int,
    e: EquationSystem<T>,
    v: spec_fn(T) -> real,
    w: spec_fn(int) -> real,
)
    requires
        is_exact(v),
        0 <= from,
        to <= indices.len(),
        forall|k: int|
            0 <= k < indices.len() ==> is_block_explained(
                survey,
                offsets,
                num_coords,
                n as int,
                #[trigger] indices[k] as int,
                v,
                w,
            ),
        survey.is_chunk_sum(indices, offsets, num_coords, n, from, to, e),
    ensures
        is_solved_by(e, v, w),
        e.n == n,
    decreases to - from,
{
    if to > from {
        let (mid, block) = choose|mid: EquationSystem<T>, block: EquationSystem<T>|
            {
                &&& survey.is_chunk_sum(indices, offsets, num_coords, n, from, to - 1, mid)
                &&& #[trigger] survey.chunk_step(indices, offsets, num_coords, n, to, mid, block, e)
            };
        lemma_chunk_solution(survey, indices, offsets, num_coords, n, from, to - 1, mid, v, w);
        let index = indices[to - 1] as int;
        if survey.window(index).area() > 0 {
            lemma_block_solution(survey, offsets, num_coords, n, index, block, v, w);
            lemma_sum_solution(mid, block, e, v, w);
        }
    } else {
        lemma_cleared_solution(e, v, w);
    }
}

/// The total is solved by the model.
proof fn lemma_total_solution<T: Kernels>(
    survey: ChannelSurvey,
    indices: Seq<usize>,
    offsets: Seq<isize>,
    num_coords: usize,
    n: usize,
    c: int,
    e: EquationSystem<T>,
    v: spec_fn(T) -> real,
    w: spec_fn(int) -> real,
)
    requires
        is_exact(v),
        forall|k: int|
            0 <= k < indices.len() ==> is_block_explained(
                survey,
                offsets,
                num_coords,
                n as int,
                #[trigger] indices[k] as int,
                v,
                w,
            ),
        survey.is_total(indices, offsets, num_coords, n, c, e),
    ensures
        is_solved_by(e, v, w),
        e.n == n,
    decreases c,
{
    if c > 0 {
        let (mid, chunk) = choose|mid: EquationSystem<T>, chunk: EquationSystem<T>|
            {
                &&& survey.is_total(indices, offsets, num_coords, n, c - 1, mid)
                &&& #[trigger] survey.total_step(indices, offsets, num_coords, n, c, mid, chunk, e)
            };
        lemma_total_solution(survey, indices, offsets, num_coords, n, c - 1, mid, v, w);
        lemma_chunk_solution(
            survey,
            indices,
            offsets,
            num_coords,
            n,
            survey.chunk_start(indices, c - 1),
            survey.chunk_start(indices, c),
            chunk,
            v,
            w,
        );
        lemma_sum_solution(mid, chunk, e, v, w);
    } else {
        lemma_cleared_solution(e, v, w);
    }
}

/// The noise at the first `k` neighbours of a pixel, each times its coefficient.
pub open spec fn noise_around(
    source: Plane<u8>,
    denoised: Plane<u8>,
    w: spec_fn(int) -> real,
    x: int,
    y: int,
    k: int,
) -> real
    decreases k,
{
    if k <= 0 {
        0real
    } else {
        noise_around(source, denoised, w, x, y, k - 1) + noise_at(
            source,
            denoised,
            x + neighbour_x(k - 1),
            y + neighbour_y(k - 1),
        ) * w(k - 1)
    }
}

/// The noise that the model with the coefficients `w` gives a pixel of a plane, from the noise
/// at its neighbours and, for chroma, from the luma noise behind it.
pub open spec fn modelled_noise(
    source: Frame<u8>,
    denoised: Frame<u8>,
    channel: int,
    w: spec_fn(int) -> real,
    x: int,
    y: int,
) -> real {
    let s = plane_in(source, channel);
    let d = plane_in(denoised, channel);
    noise_around(s, d, w, x, y, NUM_Y_COEFFS as int) + if channel == 0 {
        0real
    } else {
        noise_under(
            source.y_plane,
            denoised.y_plane,
            x,
            y,
            s.geometry.subsampling_x as int,
            s.geometry.subsampling_y as int,
        ) * w(NUM_Y_COEFFS as int)
    }
}

/// Whether the noise in a plane follows the model with the coefficients `w`.
pub open spec fn follows_model(
    source: Frame<u8>,
    denoised: Frame<u8>,
    channel: int,
    w: spec_fn(int) -> real,
) -> bool {
    let s = plane_in(source, channel);
    let d = plane_in(denoised, channel);
    forall|x: int, y: int|
        NOISE_MODEL_LAG <= x && x + NOISE_MODEL_LAG < s.geometry.width && NOISE_MODEL_LAG <= y
            < s.geometry.height ==> #[trigger] noise_at(s, d, x, y) == modelled_noise(
            source,
            denoised,
            channel,
            w,
            x,
            y,
        )
}

/// What is predicted from a row is what the model gives.
proof fn lemma_predicted<T>(
    source: Plane<u8>,
    denoised: Plane<u8>,
    row: Seq<T>,
    v: spec_fn(T) -> real,
    w: spec_fn(int) -> real,
    x: int,
    y: int,
    k: int,
)
    requires
        0 <= k <= NUM_Y_COEFFS,
        forall|i: int|
            0 <= i < NUM_Y_COEFFS ==> v(#[trigger] row[i]) == noise_at(
                source,
                denoised,
                x + neighbour_x(i),
                y + neighbour_y(i),
            ),
    ensures
        predicted(row, v, w, k) == noise_around(source, denoised, w, x, y, k),
    decreases k,
{
    if k > 0 {
        lemma_predicted(source, denoised, row, v, w, x, y, k - 1);
        assert(v(row[k - 1]) == noise_at(
            source,
            denoised,
            x + neighbour_x(k - 1),
            y + neighbour_y(k - 1),
        ));
    }
}

/// Where the noise of a plane follows a model, the equations for the plane are solved by the
/// coefficients of the model. For a chroma plane the last of them is how much of the luma noise
/// it holds, with its sign.
pub proof fn law_model_is_recovered<'a, T: Kernels>(
    source: &'a Frame<u8>,
    denoised: &'a Frame<u8>,
    flat_blocks: &'a [u8],
    indices: Seq<usize>,
    channel: int,
    v: spec_fn(T) -> real,
    w: spec_fn(int) -> real,
    pre: NoiseModelState<T>,
    post: NoiseModelState<T>,
)
    requires
        is_exact(v),
        reads_noise(v),
        0 <= channel < 3,
        is_laid_out_alike(*source, *denoised, channel),
        plane_survey(source, denoised, flat_blocks, channel).wf(indices),
        pre.eqns.n == if channel == 0 {
            NUM_Y_COEFFS
        } else {
            NUM_UV_COEFFS
        },
        is_state_observed(
            plane_survey(source, denoised, flat_blocks, channel),
            indices,
            causal_coords(),
            NUM_Y_COEFFS,
            pre,
            post,
        ),
        follows_model(*source, *denoised, channel, w),
    ensures
        is_solved_by(post.eqns, v, w),
{
    let survey = plane_survey(source, denoised, flat_blocks, channel);
    let s = plane_in(*source, channel);
    let d = plane_in(*denoised, channel);
    let offsets = offsets_of(causal_coords(), NUM_Y_COEFFS, s.geometry.stride);
    let n = pre.eqns.n;
    assert forall|k: int| 0 <= k < indices.len() implies is_block_explained(
        survey,
        offsets,
        NUM_Y_COEFFS,
        n as int,
        #[trigger] indices[k] as int,
        v,
        w,
    ) by {
        let index = indices[k] as int;
        let win = survey.window(index);
        assert(survey.is_readable(index));
        assert forall|x: int, y: int, row: Seq<T>, val: T|
            win.x_start <= x < win.x_end && win.y_start <= y < win.y_end
                && #[trigger] survey.is_ar_row(
                offsets,
                NUM_Y_COEFFS,
                survey.x_origin(index) + x,
                survey.y_origin(index) + y,
                row,
                val,
            ) implies v(val) == predicted(row, v, w, n as int) by {
            let px = survey.x_origin(index) + x;
            let py = survey.y_origin(index) + y;
            survey.law_window_inside(index, x, y);
            law_row_shows_noise(source, denoised, flat_blocks, channel, v, px, py, row, val);
            lemma_predicted(s, d, row, v, w, px, py, NUM_Y_COEFFS as int);
            assert(noise_at(s, d, px, py) == modelled_noise(*source, *denoised, channel, w, px, py));
        }
    }
    lemma_total_solution(
        survey,
        indices,
        offsets,
        NUM_Y_COEFFS,
        n,
        survey.num_chunks(indices),
        post.eqns,
        v,
        w,
    );
}

/// Where the noise of a chroma plane is `c` times the luma noise behind it, the equations for
/// the plane are solved by a correlation with luma of `c` and coefficients of zero.
pub proof fn law_correlation_is_recovered<'a, T: Kernels>(
    source: &'a Frame<u8>,
    denoised: &'a Frame<u8>,
    flat_blocks: &'a [u8],
    indices: Seq<usize>,
    channel: int,
    v: spec_fn(T) -> real,
    c: real,
    pre: NoiseModelState<T>,
    post: NoiseModelState<T>,
)
    requires
        is_exact(v),
        reads_noise(v),
        1 <= channel < 3,
        is_laid_out_alike(*source, *denoised, channel),
        plane_survey(source, denoised, flat_blocks, channel).wf(indices),
        pre.eqns.n == NUM_UV_COEFFS,
        is_state_observed(
            plane_survey(source, denoised, flat_blocks, channel),
            indices,
            causal_coords(),
            NUM_Y_COEFFS,
            pre,
            post,
        ),
        forall|x: int, y: int|
            0 <= x < plane_in(*source, channel).geometry.width && 0 <= y < plane_in(
                *source,
                channel,
            ).geometry.height ==> #[trigger] noise_at(
                plane_in(*source, channel),
                plane_in(*denoised, channel),
                x,
                y,
            ) == c * noise_under(
                source.y_plane,
                denoised.y_plane,
                x,
                y,
                plane_in(*source, channel).geometry.subsampling_x as int,
                plane_in(*source, channel).geometry.subsampling_y as int,
            ),
    ensures
        is_solved_by(
            post.eqns,
            v,
            |i: int|
                if i == 24 {
                    c
                } else {
                    0real
                },
        ),
{
    let w = |i: int|
        if i == 24 {
            c
        } else {
            0real
        };
    let s = plane_in(*source, channel);
    let d = plane_in(*denoised, channel);
    assert forall|x: int, y: int|
        NOISE_MODEL_LAG <= x && x + NOISE_MODEL_LAG < s.geometry.width && NOISE_MODEL_LAG <= y
            < s.geometry.height implies #[trigger] noise_at(s, d, x, y) == modelled_noise(
        *source,
        *denoised,
        channel,
        w,
        x,
        y,
    ) by {
        lemma_no_neighbours(s, d, w, x, y, 24);
        let u = noise_under(
            source.y_plane,
            denoised.y_plane,
            x,
            y,
            s.geometry.subsampling_x as int,
            s.geometry.subsampling_y as int,
        );
        assert(c * u == u * c) by (nonlinear_arith);
    }
    law_model_is_recovered(source, denoised, flat_blocks, indices, channel, v, w, pre, post);
}

/// Neighbours without a coefficient do not count.
proof fn lemma_no_neighbours(
    s: Plane<u8>,
    d: Plane<u8>,
    w: spec_fn(int) -> real,
    x: int,
    y: int,
    k: int,
)
    requires
        0 <= k <= 24,
        forall|i: int| 0 <= i < 24 ==> #[trigger] w(i) == 0real,
    ensures
        noise_around(s, d, w, x, y, k) == 0real,
    decreases k,
{
    if k > 0 {
        lemma_no_neighbours(s, d, w, x, y, k - 1);
        let u = noise_at(s, d, x + neighbour_x(k - 1), y + neighbour_y(k - 1));
        assert(w(k - 1) == 0real);
        assert(u * 0real == 0real) by (nonlinear_arith);
    }
}

} // verus!
