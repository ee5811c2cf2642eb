//! Slopes are taken off a block before it is judged, if the number type and the routines
//! calculate exactly.
use crate::exact::{is_defined, is_exact, law_worth, worth};
use crate::flat_blocks::{
    are_intensities, are_marked, block_pixel, centered, is_block_scored, is_difference,
    is_extracted, is_flat_map, is_flat_verdict, is_plane_fit, is_plane_fitter,
    is_position_matrix, is_score, num_blocks, position_entry, FlatBlockFinder,
};
use crate::kernels::Kernels;
use crate::plane::Plane;
use crate::plane_laws::{
    are_products_exact, distance_from, height, is_invertible, law_fit_is_best, square_sum, worths,
};
use crate::ranking_laws::law_marked_blocks;
use crate::scalar::{count, minus, over, Formula, Scalar};
use crate::solution_laws::is_sound;
use crate::BLOCK_SIZE;
use vstd::arithmetic::div_mod::lemma_fundamental_div_mod_converse;
use vstd::arithmetic::mul::{
    lemma_mul_inequality, lemma_mul_is_commutative, lemma_mul_is_distributive_add_other_way,
    lemma_mul_nonnegative,
};
use vstd::prelude::*;

verus! {

/// What a position relative to the centre is worth.
proof fn lemma_centered<T: Scalar>(v: spec_fn(T) -> real, k: int)
    requires
        0 <= k < 32,
    ensures
        is_defined(centered::<T>(k), v),
        worth(centered::<T>(k), v) == (k as real - 16real) / 16real,
{
    let f: Formula<T> = minus(count(k as usize), count(16));
    let n: Formula<T> = count(16);
    reveal_with_fuel(worth, 3);
    reveal_with_fuel(is_defined, 3);
    assert(is_defined(f, v) && worth(f, v) == k as real - 16real);
    assert(is_defined(n, v) && worth(n, v) == 16real);
    assert(centered::<T>(k) == over(f, n));
}

/// The parameters of a position.
proof fn lemma_position<T: Scalar>(a: Seq<T>, v: spec_fn(T) -> real, k: int)
    requires
        is_exact(v),
        is_position_matrix(a),
        0 <= k < 1024,
    ensures
        v(a[3 * k]) == ((k / 32) as real - 16real) / 16real,
        v(a[3 * k + 1]) == ((k % 32) as real - 16real) / 16real,
        v(a[3 * k + 2]) == 1real,
{
    assert((3 * k) / 3 == k && (3 * k) % 3 == 0);
    assert((3 * k + 1) / 3 == k && (3 * k + 1) % 3 == 1);
    assert((3 * k + 2) / 3 == k && (3 * k + 2) % 3 == 2);
    lemma_centered::<T>(v, k / 32);
    lemma_centered::<T>(v, k % 32);
    law_worth(position_entry(3 * k), v, a[3 * k]);
    law_worth(position_entry(3 * k + 1), v, a[3 * k + 1]);
    law_worth(position_entry(3 * k + 2), v, a[3 * k + 2]);
}

/// A sum of squares of zeros.
proof fn lemma_no_squares(r: spec_fn(int) -> real, k: int)
    requires
        forall|q: int| 0 <= q < k ==> #[trigger] r(q) == 0real,
    ensures
        square_sum(r, k) == 0real,
    decreases k,
{
    if k > 0 {
        lemma_no_squares(r, k - 1);
        assert(r(k - 1) == 0real);
        assert(0real * 0real == 0real) by (nonlinear_arith);
    }
}

/// Squares that add up to nothing are those of zeros.
proof fn lemma_only_zeros(r: spec_fn(int) -> real, k: int)
    requires
        0 <= k,
    ensures
        square_sum(r, k) >= 0real,
        square_sum(r, k) <= 0real ==> forall|q: int| 0 <= q < k ==> #[trigger] r(q) == 0real,
    decreases k,
{
    if k > 0 {
        lemma_only_zeros(r, k - 1);
        let w = r(k - 1);
        assert(w * w >= 0real) by (nonlinear_arith);
        assert(w * w <= 0real ==> w == 0real) by (nonlinear_arith);
    }
}

/// Of a block whose intensity is a level and a slope along its rows and columns, nothing is
/// left when the fitted plane is taken off.
pub proof fn law_slope_leaves_nothing<T: Kernels>(
    f: FlatBlockFinder<T>,
    v: spec_fn(T) -> real,
    raw: Seq<T>,
    fit: Seq<T>,
    block: Seq<T>,
    level: real,
    along: real,
    down: real,
)
    requires
        is_exact(v),
        is_sound(v),
        are_products_exact(v),
        is_plane_fitter(f),
        is_invertible(f),
        is_plane_fit(f, raw, fit),
        is_difference(raw, fit, block),
        block.len() == 1024,
        forall|x: int, y: int|
            0 <= x < 32 && 0 <= y < 32 ==> v(#[trigger] raw[place_of(x, y)]) == level + along
                * x as real + down * y as real,
    ensures
        forall|k: int| 0 <= k < 1024 ==> v(#[trigger] block[k]) == 0real,
{
    let w0 = 16real * down;
    let w1 = 16real * along;
    let w2 = level + 16real * along + 16real * down;
    let w = (w0, w1, w2);
    let s = distance_from(f.a@, v, raw, w);
    assert forall|k: int| 0 <= k < 1024 implies #[trigger] s(k) == 0real by {
        let x = k % 32;
        let y = k / 32;
        assert(place_of(x, y) == k);
        assert(v(raw[place_of(x, y)]) == level + along * x as real + down * y as real);
        lemma_position(f.a@, v, k);
        let (a, b) = (x as real, y as real);
        assert(((b - 16real) / 16real) * (16real * down) == down * b - 16real * down)
            by (nonlinear_arith);
        assert(((a - 16real) / 16real) * (16real * along) == along * a - 16real * along)
            by (nonlinear_arith);
        assert(1real * w2 == w2) by (nonlinear_arith);
        assert(height(f.a@, v, w, k) == level + along * a + down * b);
    }
    lemma_no_squares(s, 1024);
    law_fit_is_best(f, v, raw, fit, block, w);
    let r = worths(block, v);
    lemma_only_zeros(r, 1024);
    assert forall|k: int| 0 <= k < 1024 implies v(#[trigger] block[k]) == 0real by {
        assert(r(k) == 0real);
    }
}

/// Where the pixel in column `x`, row `y` of a block stands.
pub open spec fn place_of(x: int, y: int) -> int {
    32 * y + x
}

/// The smaller of two integers.
pub open spec fn least(a: int, b: int) -> int {
    if a <= b {
        a
    } else {
        b
    }
}

/// The intensities of a block are those of the visible pixels from its corner on, as shares of
/// white; beyond the edges of the plane the last pixels are repeated.
pub proof fn law_intensities<T: Scalar>(
    plane: Plane<u8>,
    offset_x: int,
    offset_y: int,
    v: spec_fn(T) -> real,
    raw: Seq<T>,
    x: int,
    y: int,
)
    requires
        is_exact(v),
        are_intensities(plane, offset_x, offset_y, raw),
        0 <= x < 32,
        0 <= y < 32,
    ensures
        v(raw[place_of(x, y)]) * 255real == plane.pixel(
            least(offset_x + x, plane.geometry.width - 1),
            least(offset_y + y, plane.geometry.height - 1),
        ) as real,
{
    let k = place_of(x, y);
    assert(k % 32 == x && k / 32 == y);
    let p = block_pixel(plane, offset_x, offset_y, k);
    let f: Formula<T> = over(count(p as usize), count(255));
    reveal_with_fuel(worth, 3);
    reveal_with_fuel(is_defined, 3);
    assert(is_defined(f, v) && worth(f, v) == p as real / 255real);
    law_worth(f, v, raw[k]);
    let (a, b) = (v(raw[k]), p as real);
    assert(a * 255real == b) by (nonlinear_arith)
        requires
            a == b / 255real,
    ;
}

/// The block that a visible pixel belongs to, counted along the rows of blocks, is judged and
/// scored by what is left of intensities among which that of the pixel stands at its place.
pub proof fn law_pixel_counts_in_its_block<T: Kernels>(
    f: FlatBlockFinder<T>,
    plane: Plane<u8>,
    v: spec_fn(T) -> real,
    x: int,
    y: int,
    flat: bool,
    rank: u32,
) -> (parts: (Seq<T>, Seq<T>, Seq<T>))
    requires
        is_exact(v),
        0 <= x < plane.geometry.width,
        0 <= y < plane.geometry.height,
        is_block_scored(
            f,
            plane,
            (y / 32) * ((plane.geometry.width + 31) / 32) + x / 32,
            flat,
            rank,
        ),
    ensures
        v(parts.0[place_of(x % 32, y % 32)]) * 255real == plane.pixel(x, y) as real,
        is_plane_fit(f, parts.0, parts.1),
        is_difference(parts.0, parts.1, parts.2),
        is_flat_verdict(parts.2, flat),
        is_score(parts.2, rank),
{
    let across = (plane.geometry.width + 31) / 32;
    let index = (y / 32) * across + x / 32;
    assert(0 <= x / 32 < across);
    lemma_fundamental_div_mod_converse(index, across, y / 32, x / 32);
    let (ox, oy) = (x / 32 * 32, y / 32 * 32);
    let block = choose|block: Seq<T>|
        {
            &&& #[trigger] is_extracted(
                f,
                plane,
                (index % across) * BLOCK_SIZE,
                (index / across) * BLOCK_SIZE,
                block,
            )
            &&& is_flat_verdict(block, flat)
            &&& is_score(block, rank)
        };
    let (raw, fit) = choose|raw: Seq<T>, fit: Seq<T>|
        {
            &&& are_intensities(plane, ox, oy, raw)
            &&& #[trigger] is_plane_fit(f, raw, fit)
            &&& is_difference(raw, fit, block)
        };
    law_intensities(plane, ox, oy, v, raw, x % 32, y % 32);
    (raw, fit, block)
}

/// The map of a plane has a mark for the block of every visible pixel, and no other marks. All
/// bits of the mark are set exactly if the block is found to be flat.
pub proof fn law_map_covers_plane<T: Kernels>(
    f: FlatBlockFinder<T>,
    plane: Plane<u8>,
    marks: Seq<u8>,
    num_flat: int,
    x: int,
    y: int,
)
    requires
        is_flat_map(f, plane, marks, num_flat),
        0 <= x < plane.geometry.width,
        0 <= y < plane.geometry.height,
    ensures
        ({
            let index = (y / 32) * ((plane.geometry.width + 31) / 32) + x / 32;
            &&& 0 <= index < marks.len()
            &&& exists|flat: bool, rank: u32| #[trigger]
                is_block_scored(f, plane, index, flat, rank) && (flat <==> marks[index] == 255)
        }),
        marks.len() == ((plane.geometry.width + 31) / 32) * ((plane.geometry.height + 31) / 32),
{
    let across = (plane.geometry.width + 31) / 32;
    let down = (plane.geometry.height + 31) / 32;
    let index = (y / 32) * across + x / 32;
    let (r, c) = (y / 32, x / 32);
    lemma_mul_nonnegative(r, across);
    lemma_mul_inequality(r + 1, down, across);
    lemma_mul_is_distributive_add_other_way(across, r, 1);
    lemma_mul_is_commutative(across, down);
    let (flats, ranks) = choose|flats: Seq<bool>, ranks: Seq<u32>|
        {
            &&& flats.len() == num_blocks(plane)
            &&& ranks.len() == num_blocks(plane)
            &&& forall|i: int|
                0 <= i < flats.len() ==> is_block_scored(
                    f,
                    plane,
                    i,
                    #[trigger] flats[i],
                    ranks[i],
                )
            &&& #[trigger] are_marked(flats, ranks, marks, num_flat)
        };
    law_marked_blocks(flats, ranks, marks, num_flat, index);
    assert(is_block_scored(f, plane, index, flats[index], ranks[index]));
    assert(flats[index] == (marks[index] == 255));
}

} // verus!
