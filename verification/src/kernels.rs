//! The numeric routines that the solver is built on.
use crate::plane::{spans, Plane};
use crate::scalar::{is_zero, Scalar, Term};
use crate::{NUM_UV_COEFFS, NUM_Y_COEFFS};
use vstd::prelude::*;

verus! {

/// Numeric routines over a scalar type.
pub trait Kernels: Scalar {
    /// Solves `a * y = b` for `y`, where `a` has `n` rows of `stride` entries and
    /// `x` is what the solution vector held before. Gives the solution vector and
    /// whether the system could be solved.
    fn linsolve(
        n: usize,
        a: &Vec<Self>,
        stride: usize,
        b: &Vec<Self>,
        x: &Vec<Self>,
    ) -> (Vec<Self>, bool)
        requires
            a.len() == n * stride,
            stride == n,
            b.len() == n,
            x.len() == n,
    ;

    /// The product of a matrix of `rows` by `inner` entries and one of `inner` by
    /// `cols` entries.
    fn multiply_mat(
        m1: &Vec<Self>,
        m2: &Vec<Self>,
        rows: usize,
        inner: usize,
        cols: usize,
    ) -> Vec<Self>
        requires
            m1.len() == rows * inner,
            m2.len() == inner * cols,
    ;

    /// How well the first `n` entries of the two vectors point in one direction.
    fn normalized_cross_correlation(a: &Vec<Self>, b: &Vec<Self>, n: usize) -> Self
        requires
            n <= a.len(),
            n <= b.len(),
    ;

    /// The mean intensity of the part of a block at `x_o`, `y_o` that lies in a frame of
    /// size `frame_dims`.
    fn get_block_mean(
        source: &Plane<u8>,
        frame_dims: (usize, usize),
        x_o: usize,
        y_o: usize,
    ) -> Self
        requires
            source.wf(),
            x_o < frame_dims.0 <= source.geometry.width,
            y_o < frame_dims.1 <= source.geometry.height,
    ;

    /// The variance of the difference between the planes in the part of a block of
    /// `block_w` by `block_h` pixels at `x_o`, `y_o` that lies in a plane of size `dims`.
    fn get_noise_var(
        source: &Plane<u8>,
        denoised: &Plane<u8>,
        dims: (usize, usize),
        x_o: usize,
        y_o: usize,
        block_w: usize,
        block_h: usize,
    ) -> Self
        requires
            source.wf(),
            spans(*denoised, source.geometry),
            x_o < dims.0 <= source.geometry.width,
            y_o < dims.1 <= source.geometry.height,
            block_w > 0,
            block_h > 0,
    ;

    /// The noise at the `num_coords` pixels that lie `offsets` away from the pixel at
    /// `base_index`, counted from the origin of the planes, and the noise at that pixel.
    fn extract_ar_row(
        offsets: &Vec<isize>,
        num_coords: usize,
        source: &Plane<u8>,
        denoised: &Plane<u8>,
        base_index: usize,
    ) -> ([Self; NUM_UV_COEFFS], Self)
        requires
            reads_inside(offsets@, num_coords, *source, base_index),
            reads_inside(offsets@, num_coords, *denoised, base_index),
    ;

    /// As `extract_ar_row`, with one more entry: the mean noise of the luma pixels that
    /// go with the pixel in column `x`, row `y`. `dec` is how many bits the luma
    /// coordinates are longer.
    fn extract_ar_row_with_alt(
        offsets: &Vec<isize>,
        num_coords: usize,
        source: &Plane<u8>,
        denoised: &Plane<u8>,
        base_index: usize,
        dec: (usize, usize),
        alt_source: &Plane<u8>,
        alt_denoised: &Plane<u8>,
        x: usize,
        y: usize,
    ) -> ([Self; NUM_UV_COEFFS], Self)
        requires
            reads_inside(offsets@, num_coords, *source, base_index),
            reads_inside(offsets@, num_coords, *denoised, base_index),
            alt_source.wf(),
            spans(*alt_denoised, alt_source.geometry),
            dec.0 <= 1,
            dec.1 <= 1,
            (x + 1) * (dec.0 + 1) <= alt_source.geometry.width,
            (y + 1) * (dec.1 + 1) <= alt_source.geometry.height,
    ;
}

/// Whether `k` counts a pixel of the buffer, starting from its origin.
pub open spec fn counts_pixel(p: Plane<u8>, k: int) -> bool {
    0 <= k && p.geometry.origin() + k < p.data.len()
}

/// Whether the pixel at `base` and the first `num_coords` pixels that lie `offsets` away
/// from it are in the buffer.
pub open spec fn reads_inside(
    offsets: Seq<isize>,
    num_coords: usize,
    p: Plane<u8>,
    base: usize,
) -> bool {
    &&& p.wf()
    &&& num_coords <= NUM_Y_COEFFS
    &&& num_coords <= offsets.len()
    &&& counts_pixel(p, base as int)
    &&& forall|i: int| 0 <= i < num_coords ==> counts_pixel(p, base + #[trigger] offsets[i])
}

/// Whether solving the system of `n` equations can give the vector `y` and the
/// verdict `ok`.
pub open spec fn linsolve_gives<T: Kernels>(
    n: usize,
    a: Seq<T>,
    b: Seq<T>,
    x: Seq<T>,
    y: Seq<T>,
    ok: bool,
) -> bool {
    exists|va: Vec<T>, vb: Vec<T>, vx: Vec<T>, out: (Vec<T>, bool)|
        {
            &&& va@ == a
            &&& vb@ == b
            &&& vx@ == x
            &&& out.0@ == y
            &&& out.1 == ok
            &&& #[trigger] call_ensures(T::linsolve, (n, &va, n, &vb, &vx), out)
        }
}

/// Whether multiplying the matrices can give `r`, which has `rows * cols` entries: an
/// entry that the routine leaves out is zero.
pub open spec fn is_product<T: Kernels>(
    m1: Seq<T>,
    m2: Seq<T>,
    rows: usize,
    inner: usize,
    cols: usize,
    r: Seq<T>,
) -> bool {
    &&& r.len() == rows * cols
    &&& exists|v1: Vec<T>, v2: Vec<T>, out: Vec<T>|
        {
            &&& v1@ == m1
            &&& v2@ == m2
            &&& #[trigger] call_ensures(T::multiply_mat, (&v1, &v2, rows, inner, cols), out)
            &&& forall|k: int|
                0 <= k < r.len() ==> if k < out.len() {
                    #[trigger] r[k] == out@[k]
                } else {
                    is_zero(r[k])
                }
        }
}

/// The product of two matrices, with exactly `rows * cols` entries.
pub(crate) fn product<T: Kernels>(
    m1: &Vec<T>,
    m2: &Vec<T>,
    rows: usize,
    inner: usize,
    cols: usize,
) -> (r: Vec<T>)
    requires
        m1.len() == rows * inner,
        m2.len() == inner * cols,
        rows * cols <= usize::MAX,
    ensures
        is_product(m1@, m2@, rows, inner, cols, r@),
{
    let out = T::multiply_mat(m1, m2, rows, inner, cols);
    let mut r: Vec<T> = Vec::new();
    let len = rows * cols;
    let mut i: usize = 0;
    while i < len
        invariant
            i <= len,
            r.len() == i,
            forall|k: int|
                0 <= k < i ==> if k < out.len() {
                    #[trigger] r@[k] == out@[k]
                } else {
                    is_zero(r@[k])
                },
        decreases len - i,
    {
        if i < out.len() {
            r.push(out[i]);
        } else {
            r.push(Term::count(0).get());
        }
        i = i + 1;
    }
    r
}

/// Whether the correlation of the first `n` entries of `a` and `b` can come out as `r`.
pub open spec fn correlation_gives<T: Kernels>(a: Seq<T>, b: Seq<T>, n: usize, r: T) -> bool {
    exists|va: Vec<T>, vb: Vec<T>|
        {
            &&& va@ == a
            &&& vb@ == b
            &&& #[trigger] call_ensures(T::normalized_cross_correlation, (&va, &vb, n), r)
        }
}

/// Whether the noise around the pixel at `base` can come out as `row`, and that at the
/// pixel itself as `val`.
pub open spec fn row_gives<T: Kernels>(
    offsets: Seq<isize>,
    num_coords: usize,
    source: Plane<u8>,
    denoised: Plane<u8>,
    base: usize,
    row: Seq<T>,
    val: T,
) -> bool {
    exists|o: Vec<isize>, out: ([T; NUM_UV_COEFFS], T)|
        {
            &&& o@ == offsets
            &&& out.0@ == row
            &&& out.1 == val
            &&& #[trigger] call_ensures(
                T::extract_ar_row,
                (&o, num_coords, &source, &denoised, base),
                out,
            )
        }
}

/// As `row_gives`, with the luma noise at the pixel in column `x`, row `y`.
pub open spec fn row_with_alt_gives<T: Kernels>(
    offsets: Seq<isize>,
    num_coords: usize,
    source: Plane<u8>,
    denoised: Plane<u8>,
    base: usize,
    dec: (usize, usize),
    alt: (Plane<u8>, Plane<u8>),
    at: (usize, usize),
    row: Seq<T>,
    val: T,
) -> bool {
    exists|o: Vec<isize>, out: ([T; NUM_UV_COEFFS], T)|
        {
            &&& o@ == offsets
            &&& out.0@ == row
            &&& out.1 == val
            &&& #[trigger] call_ensures(
                T::extract_ar_row_with_alt,
                (
                    &o,
                    num_coords,
                    &source,
                    &denoised,
                    base,
                    dec,
                    &alt.0,
                    &alt.1,
                    at.0,
                    at.1,
                ),
                out,
            )
        }
}

} // verus!
