//! A segment of a film grain table.
use crate::{NUM_UV_COEFFS, NUM_UV_POINTS, NUM_Y_COEFFS, NUM_Y_POINTS};
use arrayvec::ArrayVec;
use vstd::prelude::*;

verus! {

/// A vector of bounded length from the `arrayvec` crate.
#[verifier::external_type_specification]
#[verifier::external_body]
#[verifier::reject_recursive_types(T)]
pub struct ExArrayVec<T, const CAP: usize>(ArrayVec<T, CAP>);

/// The elements of a vector of luma coefficients.
pub uninterp spec fn luma_coeffs(v: ArrayVec<i8, NUM_Y_COEFFS>) -> Seq<i8>;

/// The elements of a vector of chroma coefficients.
pub uninterp spec fn chroma_coeffs(v: ArrayVec<i8, NUM_UV_COEFFS>) -> Seq<i8>;

/// The elements of a vector of luma scaling points.
pub uninterp spec fn luma_points(v: ArrayVec<[u8; 2], NUM_Y_POINTS>) -> Seq<[u8; 2]>;

/// The elements of a vector of chroma scaling points.
pub uninterp spec fn chroma_points(v: ArrayVec<[u8; 2], NUM_UV_POINTS>) -> Seq<[u8; 2]>;

/// Calls `ArrayVec::new`, which gives a vector without elements.
#[verifier::external_body]
pub(crate) fn new_luma_coeffs() -> (v: ArrayVec<i8, NUM_Y_COEFFS>)
    ensures
        luma_coeffs(v) == Seq::<i8>::empty(),
{
    ArrayVec::new()
}

/// Calls `ArrayVec::push`, which puts an element behind the others. It would panic on a
/// vector that is full.
#[verifier::external_body]
pub(crate) fn push_luma_coeff(v: &mut ArrayVec<i8, NUM_Y_COEFFS>, c: i8)
    requires
        luma_coeffs(*old(v)).len() < NUM_Y_COEFFS,
    ensures
        luma_coeffs(*final(v)) == luma_coeffs(*old(v)).push(c),
{
    v.push(c)
}

/// Calls `ArrayVec::new`, which gives a vector without elements.
#[verifier::external_body]
pub(crate) fn new_chroma_coeffs() -> (v: ArrayVec<i8, NUM_UV_COEFFS>)
    ensures
        chroma_coeffs(v) == Seq::<i8>::empty(),
{
    ArrayVec::new()
}

/// Calls `ArrayVec::push`, which puts an element behind the others. It would panic on a
/// vector that is full.
#[verifier::external_body]
pub(crate) fn push_chroma_coeff(v: &mut ArrayVec<i8, NUM_UV_COEFFS>, c: i8)
    requires
        chroma_coeffs(*old(v)).len() < NUM_UV_COEFFS,
    ensures
        chroma_coeffs(*final(v)) == chroma_coeffs(*old(v)).push(c),
{
    v.push(c)
}

/// Calls `ArrayVec::from_iter`, which takes over the elements in their order. It would
/// panic on more elements than there is room for.
#[verifier::external_body]
pub(crate) fn collect_luma_points(points: Vec<[u8; 2]>) -> (v: ArrayVec<[u8; 2], NUM_Y_POINTS>)
    requires
        points.len() <= NUM_Y_POINTS,
    ensures
        luma_points(v) == points@,
{
    points.into_iter().collect()
}

/// Calls `ArrayVec::from_iter`, which takes over the elements in their order. It would
/// panic on more elements than there is room for.
#[verifier::external_body]
pub(crate) fn collect_chroma_points(points: Vec<[u8; 2]>) -> (v: ArrayVec<
    [u8; 2],
    NUM_UV_POINTS,
>)
    requires
        points.len() <= NUM_UV_POINTS,
    ensures
        chroma_points(v) == points@,
{
    points.into_iter().collect()
}

/// The film grain of a stretch of time.
pub struct GrainTableSegment {
    /// The start of the stretch.
    pub start_time: u64,
    /// The end of the stretch.
    pub end_time: u64,
    /// The points of the scaling function of the luma plane.
    pub scaling_points_y: ArrayVec<[u8; 2], NUM_Y_POINTS>,
    /// The points of the scaling function of the first chroma plane.
    pub scaling_points_cb: ArrayVec<[u8; 2], NUM_UV_POINTS>,
    /// The points of the scaling function of the second chroma plane.
    pub scaling_points_cr: ArrayVec<[u8; 2], NUM_UV_POINTS>,
    /// By how many bits the scaled noise is shifted.
    pub scaling_shift: u8,
    /// How far the auto-regressive filter looks back.
    pub ar_coeff_lag: u8,
    /// The coefficients of the filter of the luma plane.
    pub ar_coeffs_y: ArrayVec<i8, NUM_Y_COEFFS>,
    /// The coefficients of the filter of the first chroma plane.
    pub ar_coeffs_cb: ArrayVec<i8, NUM_UV_COEFFS>,
    /// The coefficients of the filter of the second chroma plane.
    pub ar_coeffs_cr: ArrayVec<i8, NUM_UV_COEFFS>,
    /// The number of fractional bits of the coefficients.
    pub ar_coeff_shift: u8,
    pub cb_mult: u8,
    pub cb_luma_mult: u8,
    pub cb_offset: u16,
    pub cr_mult: u8,
    pub cr_luma_mult: u8,
    pub cr_offset: u16,
    /// Whether neighbouring noise blocks overlap.
    pub overlap_flag: bool,
    /// Whether the chroma planes are scaled as the luma plane is.
    pub chroma_scaling_from_luma: bool,
    /// By how many bits the noise is scaled down.
    pub grain_scale_shift: u8,
    /// Where the noise generator starts.
    pub random_seed: u16,
}

} // verus!
