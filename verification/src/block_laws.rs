//! Which pixels of a block are observed, and what strength is measured in it, if the number
//! type calculates exactly and blocks are read as they are.
use crate::exact::{is_defined, is_exact, is_root, larger, law_worth, worth};
use crate::kernels::Kernels;
use crate::measurements::{
    block_mean_gives, correlation, is_luma_strength, noise_var_gives, uncorrelated_std, LumaNoise,
};
use crate::observations::ChannelSurvey;
use crate::plane::{Frame, Plane};
use crate::precise::{lemma_operand, lemma_operands};
use crate::reals::{lemma_nothing, lemma_opposite, lemma_sizes};
use crate::recovery_laws::plane_in;
use crate::scalar::{
    count, denotes, maximum, mul_add, over, times, unary, value, BinaryOp, Formula, Scalar,
    UnaryOp,
};
use crate::slope_laws::least;
use crate::strength::is_strength_at;
use crate::update::plane_survey;
use vstd::arithmetic::div_mod::{lemma_div_pos_is_pos, lemma_fundamental_div_mod};
use vstd::arithmetic::mul::{
    lemma_mul_inequality, lemma_mul_is_commutative, lemma_mul_is_distributive_sub_other_way,
    lemma_mul_nonnegative,
};
use vstd::prelude::*;

verus! {

/// Whether the pixel in column `x`, row `y` of the plane lies in a block that is flat.
pub open spec fn is_flat_at(survey: ChannelSurvey, x: int, y: int) -> bool {
    &&& 0 <= x
    &&& 0 <= y
    &&& x / survey.block_w() < survey.num_blocks_w
    &&& survey.flat_blocks@[(y / survey.block_h()) * survey.num_blocks_w + x / survey.block_w()]
        > 0
}

/// Whether a pixel of a block is observed, by its place in the plane.
pub open spec fn is_observed_at(survey: ChannelSurvey, index: int, x: int, y: int) -> bool {
    let w = survey.window(index);
    &&& w.x_start <= x - survey.x_origin(index) < w.x_end
    &&& w.y_start <= y - survey.y_origin(index) < w.y_end
}

/// In which block of a row of blocks a pixel lies.
proof fn lemma_block_of(c: int, b: int, x: int)
    requires
        0 <= c,
        b == 16 || b == 32,
    ensures
        0 <= x < b ==> (c * b + x) / b == c,
        -3 <= x < 0 ==> (c * b + x) / b == c - 1,
        b <= x < b + 3 ==> (c * b + x) / b == c + 1,
{
}

/// A pixel of a flat block is observed if and only if it is visible and the pixels three to
/// the left, three to the right and three above it lie in flat blocks, those to the right in
/// the plane too.
pub proof fn law_observed_pixels(survey: ChannelSurvey, index: int, x: int, y: int)
    requires
        survey.planes_match(),
        survey.num_blocks_w > 0,
        survey.is_readable(index),
        survey.flat_blocks@[index] > 0,
        survey.x_origin(index) <= x < survey.x_origin(index) + survey.block_w(),
        survey.y_origin(index) <= y < survey.y_origin(index) + survey.block_h(),
    ensures
        is_observed_at(survey, index, x, y) <==> {
            &&& y < survey.source.geometry.height
            &&& x + 3 < survey.source.geometry.width
            &&& is_flat_at(survey, x - 3, y)
            &&& is_flat_at(survey, x + 3, y)
            &&& is_flat_at(survey, x, y - 3)
        },
{
    let g = survey.source.geometry;
    let n = survey.num_blocks_w as int;
    let (bw, bh) = (survey.block_w(), survey.block_h());
    assert(g.subsampling_x == 1 || g.subsampling_x == 2);
    assert(g.subsampling_y == 1 || g.subsampling_y == 2);
    assert(bw == 32 || bw == 16);
    assert(bh == 32 || bh == 16);
    let (c, r) = (survey.column(index), survey.row(index));
    lemma_fundamental_div_mod(index, n);
    assert(0 <= c < n);
    lemma_div_pos_is_pos(index, n);
    lemma_mul_is_commutative(n, r);
    lemma_mul_is_distributive_sub_other_way(n, r, 1);
    let (dx, dy) = (x - survey.x_origin(index), y - survey.y_origin(index));
    lemma_mul_nonnegative(c, bw);
    lemma_mul_nonnegative(r, bh);
    lemma_block_of(c, bw, dx);
    lemma_block_of(c, bw, dx - 3);
    lemma_block_of(c, bw, dx + 3);
    lemma_block_of(r, bh, dy);
    lemma_block_of(r, bh, dy - 3);
    assert(r * n + c == index);
    assert((r - 1) * n + c == index - n);
    if c == 0 {
        assert(c * bw == 0);
    } else {
        lemma_mul_inequality(1, c, bw);
    }
    if r == 0 {
        assert(r * bh == 0);
    } else {
        lemma_mul_inequality(1, r, bh);
    }
}

/// Whether the mean intensity of a block of luma pixels is read as `mean_at` gives it for the
/// corner of the block, and the variance of the noise in a part of a plane as `spread` gives it
/// for the corner and the size of the part.
pub open spec fn reads_blocks<T: Kernels>(
    v: spec_fn(T) -> real,
    mean_at: spec_fn(Plane<u8>, int, int) -> real,
    spread: spec_fn(Plane<u8>, Plane<u8>, int, int, int, int) -> real,
) -> bool {
    &&& forall|p: Plane<u8>, x: usize, y: usize, mean: T|
        #![trigger block_mean_gives(p, (p.geometry.width, p.geometry.height), x, y, mean)]
        block_mean_gives(p, (p.geometry.width, p.geometry.height), x, y, mean) ==> v(mean)
            == mean_at(p, x as int, y as int)
    &&& forall|s: Plane<u8>, d: Plane<u8>, x: usize, y: usize, size: (usize, usize), var: T|
        #![trigger noise_var_gives(
            s,
            d,
            (s.geometry.width, s.geometry.height),
            x,
            y,
            size,
            var,
        )]
        noise_var_gives(s, d, (s.geometry.width, s.geometry.height), x, y, size, var) ==> {
            &&& v(var) == spread(s, d, x as int, y as int, size.0 as int, size.1 as int)
            &&& v(var) >= 0real
        }
}

/// Whether `part` is the standard deviation of the noise that a plane shares with the luma
/// plane at the intensity `mean`.
pub open spec fn is_shared_noise<T: Scalar>(
    luma: Option<LumaNoise<T>>,
    v: spec_fn(T) -> real,
    mean: T,
    part: real,
) -> bool {
    match luma {
        Some(l) => exists|s: T| #[trigger]
            is_strength_at(*l.solver, mean, s) && part == v(l.corr) * (v(l.gain) * v(s)),
        None => part == 0real,
    }
}

/// What the standard deviation of the uncorrelated part is.
proof fn lemma_uncorrelated<T: Scalar>(
    v: spec_fn(T) -> real,
    var: T,
    c: Formula<T>,
    f: Formula<T>,
    gain: T,
    strength: T,
)
    requires
        is_exact(v),
        v(var) >= 0real,
        v(gain) > 0real,
        is_defined(c, v),
        is_defined(f, v),
        denotes(over(uncorrelated_std(value(var), c, f), value(gain)), strength),
    ensures
        v(strength) >= 0real,
        ({
            let part = worth(c, v) * worth(f, v);
            (v(strength) * v(gain)) * (v(strength) * v(gain)) == larger(
                v(var) / 16real,
                v(var) - part * part,
            )
        }),
{
    let part = times(c, f);
    let p = worth(c, v) * worth(f, v);
    assert(is_defined(part, v) && worth(part, v) == p);
    let negated = unary(UnaryOp::Negated, part);
    assert(is_defined(negated, v) && worth(negated, v) == -p);
    let x = value(var);
    let g = value(gain);
    let n: Formula<T> = count(16);
    assert(is_defined(x, v) && worth(x, v) == v(var));
    assert(is_defined(g, v) && worth(g, v) == v(gain));
    assert(is_defined(n, v) && worth(n, v) == 16real);
    let low = over(x, n);
    assert(is_defined(low, v) && worth(low, v) == v(var) / 16real);
    let high = mul_add(part, negated, x);
    assert(is_defined(high, v) && worth(high, v) == p * (-p) + v(var));
    let inner = maximum(low, high);
    let z = larger(v(var) / 16real, v(var) - p * p);
    lemma_opposite(p);
    assert(is_defined(inner, v) && worth(inner, v) == z);
    let std = unary(UnaryOp::SquareRoot, inner);
    let (a, b) = lemma_operands(BinaryOp::Over, std, g, strength);
    let y = lemma_operand(UnaryOp::SquareRoot, inner, a);
    law_worth(inner, v, y);
    law_worth(g, v, b);
    let w = v(var);
    lemma_sizes(w, 16real);
    assert(is_root(z, v(a)));
    let (q, h, r) = (v(a), v(gain), v(strength));
    assert(r == q / h);
    lemma_sizes(q, h);
}

/// A block of a subsampled plane stands for a whole block of luma pixels.
proof fn lemma_luma_place(k: int, size: int, subsampling: int)
    requires
        0 <= k,
        subsampling == 1 && size == 32 || subsampling == 2 && size == 16,
    ensures
        k * size * subsampling == 32 * k,
        0 <= k * size <= 32 * k,
{
    if subsampling == 1 {
        assert(k * 32 * 1 == 32 * k) by (nonlinear_arith);
        assert(k * 32 == 32 * k);
    } else {
        assert(k * 16 * 2 == 32 * k) by (nonlinear_arith);
        assert(k * 16 == 16 * k);
    }
}

/// Whether `m` is what is measured in a block of a plane: nothing if 32 or fewer of its pixels
/// are visible. Else the intensity is the mean of the block of luma pixels, and the square of
/// the strength, times that of the gain of the filter, is the variance of the noise in the
/// block, of this plane, less the square of what the noise shares with luma, but not less than
/// a sixteenth of the variance.
pub open spec fn is_block_reading<T: Scalar>(
    source: Frame<u8>,
    denoised: Frame<u8>,
    channel: int,
    v: spec_fn(T) -> real,
    mean_at: spec_fn(Plane<u8>, int, int) -> real,
    spread: spec_fn(Plane<u8>, Plane<u8>, int, int, int, int) -> real,
    gain: real,
    luma: Option<LumaNoise<T>>,
    index: int,
    m: Option<(T, T)>,
) -> bool {
    let across = (source.y_plane.geometry.width + 31) / 32;
    let column = index % across;
    let row = index / across;
    let p = plane_in(source, channel);
    let q = plane_in(denoised, channel);
    let w = 32int / p.geometry.subsampling_x as int;
    let h = 32int / p.geometry.subsampling_y as int;
    let columns = least(w, p.geometry.width - column * w);
    let rows = least(h, p.geometry.height - row * h);
    &&& m is Some <==> columns * rows > 32
    &&& m matches Some((mean, strength)) ==> {
        let var = spread(p, q, column * w, row * h, w, h);
        &&& v(mean) == mean_at(source.y_plane, 32 * column, 32 * row)
        &&& v(strength) >= 0real
        &&& exists|part: real|
            {
                &&& #[trigger] is_shared_noise(luma, v, mean, part)
                &&& (v(strength) * gain) * (v(strength) * gain) == larger(
                    var / 16real,
                    var - part * part,
                )
            }
    }
}

/// The noise of a plane is measured in its blocks, which lie in rows over the frame.
pub proof fn law_block_strength<'a, T: Kernels>(
    source: &'a Frame<u8>,
    denoised: &'a Frame<u8>,
    flat_blocks: &'a [u8],
    channel: int,
    v: spec_fn(T) -> real,
    mean_at: spec_fn(Plane<u8>, int, int) -> real,
    spread: spec_fn(Plane<u8>, Plane<u8>, int, int, int, int) -> real,
    noise_gain: T,
    luma: Option<LumaNoise<T>>,
    index: int,
    m: Option<(T, T)>,
)
    requires
        is_exact(v),
        reads_blocks(v, mean_at, spread),
        v(noise_gain) > 0real,
        0 <= channel < 3,
        source.wf(),
        channel > 0 ==> source.u_plane is Some,
        0 <= index,
        32 * (index / ((source.y_plane.geometry.width + 31) / 32)) <= source.y_plane.geometry.height,
        source.y_plane.geometry.width + 31 <= usize::MAX,
        plane_survey(source, denoised, flat_blocks, channel).is_measurement(
            noise_gain,
            luma,
            index,
            m,
        ),
    ensures
        is_block_reading(
            *source,
            *denoised,
            channel,
            v,
            mean_at,
            spread,
            v(noise_gain),
            luma,
            index,
            m,
        ),
{
    let survey = plane_survey(source, denoised, flat_blocks, channel);
    let n = (source.y_plane.geometry.width + 31) / 32;
    let (column, row) = (index % n, index / n);
    let p = plane_in(*source, channel);
    let q = plane_in(*denoised, channel);
    assert(survey.num_blocks_w == n);
    assert(0 <= column < n);
    lemma_div_pos_is_pos(index, n);
    assert(32 * column < source.y_plane.geometry.width);
    assert(survey.column(index) == column && survey.row(index) == row);
    let g = p.geometry;
    assert(*survey.source == p);
    assert(*survey.denoised == q);
    assert(g.subsampling_x == 1 || g.subsampling_x == 2);
    assert(g.subsampling_y == 1 || g.subsampling_y == 2);
    let (w, h) = (survey.block_w(), survey.block_h());
    lemma_luma_place(column, w, g.subsampling_x as int);
    lemma_luma_place(row, h, g.subsampling_y as int);
    if let Some((mean, strength)) = m {
        assert(survey.luma() == source.y_plane);
        let (var, f) = choose|var: T, f: Formula<T>|
            {
                &&& #[trigger] noise_var_gives(
                    *survey.source,
                    *survey.denoised,
                    (g.width, g.height),
                    survey.x_origin(index) as usize,
                    survey.y_origin(index) as usize,
                    (survey.block_w() as usize, survey.block_h() as usize),
                    var,
                )
                &&& #[trigger] is_luma_strength(luma, mean, f)
                &&& denotes(
                    over(uncorrelated_std(value(var), correlation(luma), f), value(noise_gain)),
                    strength,
                )
            };
        let c = correlation(luma);
        reveal_with_fuel(worth, 3);
        reveal_with_fuel(is_defined, 3);
        assert(is_defined(c, v) && is_defined(f, v));
        lemma_uncorrelated(v, var, c, f, noise_gain, strength);
        let part = worth(c, v) * worth(f, v);
        if luma is None {
            lemma_nothing(0real);
        }
        assert(is_shared_noise(luma, v, mean, part));
    }
}

} // verus!
