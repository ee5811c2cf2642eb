//! Checked access to slices and conversion of frames to eight bits.
use crate::plane::{
    lemma_place_bound, lemma_place_injective, ChromaSubsampling, Frame, Plane,
    PlaneGeometry,
};
use std::num::{NonZeroU8, NonZeroUsize};
use std::ops::Range;
use std::slice::SliceIndex;
use v_frame::chroma::ChromaSubsampling as Sampling;
use v_frame::frame::FrameBuilder;
use vstd::prelude::*;
use vstd::slice::SliceIndexSpec;

verus! {

/// What is at `index` in `arr`: an entry, or, for a range, the entries in it.
pub fn get_dbg<T, I: SliceIndex<[T]>>(arr: &[T], index: I) -> (r: &<I as SliceIndex<[T]>>::Output)
    requires
        index.index_req(arr),
    ensures
        call_ensures(<I as SliceIndex<[T]>>::index, (index, arr), r),
{
    &arr[index]
}

/// The entry of `arr` at `index`, to be changed in place.
pub fn get_dbg_mut<T>(arr: &mut [T], index: usize) -> (r: &mut T)
    requires
        index < old(arr).len(),
    ensures
        *r == old(arr)@[index as int],
        final(arr)@ == old(arr)@.update(index as int, *final(r)),
{
    &mut arr[index]
}

/// The entries of `arr` in a range, to be changed in place.
pub fn get_dbg_mut_range<T>(arr: &mut [T], range: Range<usize>) -> (r: &mut [T])
    requires
        range.start <= range.end <= old(arr).len(),
    ensures
        r@ == old(arr)@.subrange(range.start as int, range.end as int),
        final(arr)@ == old(arr)@.subrange(0, range.start as int) + final(r)@ + old(arr)@.subrange(
            range.end as int,
            old(arr).len() as int,
        ),
{
    let (_, rest) = arr.split_at_mut(range.start);
    let (inside, _) = rest.split_at_mut(range.end - range.start);
    inside
}

/// A frame with pixels of one byte or of two.
pub enum PixelFrame {
    OneByte(Frame<u8>),
    TwoBytes(Frame<u16>),
}

/// A frame with pixels of one byte: a given one, or a new one.
pub enum ByteFrame<'a> {
    Borrowed(&'a Frame<u8>),
    Owned(Frame<u8>),
}

/// A pixel without its lowest `shift` bits, cut off to a byte.
pub open spec fn narrowed(p: u16, shift: int) -> int {
    (p as int / vstd::arithmetic::power2::pow2(shift as nat) as int) % 256
}

/// Whether the visible pixels of `out` are those of `input`, narrowed by `shift` bits.
pub open spec fn is_narrowed_plane(input: Plane<u16>, out: Plane<u8>, shift: int) -> bool {
    &&& out.geometry.width == input.geometry.width
    &&& out.geometry.height == input.geometry.height
    &&& forall|x: int, y: int|
        0 <= x < input.geometry.width && 0 <= y < input.geometry.height ==> #[trigger] out.pixel(
            x,
            y,
        ) == narrowed(input.pixel(x, y), shift)
}

/// Whether `g` describes a plane without padding.
pub open spec fn is_unpadded(g: PlaneGeometry) -> bool {
    g.pad_left == 0 && g.pad_right == 0 && g.pad_top == 0 && g.pad_bottom == 0
}

/// Whether `out` is the frame `input` at eight bits, without padding.
pub open spec fn is_narrowed_frame(input: Frame<u16>, out: Frame<u8>, shift: int) -> bool {
    &&& out.wf()
    &&& out.subsampling == input.subsampling
    &&& out.bit_depth == 8
    &&& is_unpadded(out.y_plane.geometry)
    &&& is_narrowed_plane(input.y_plane, out.y_plane, shift)
    &&& out.subsampling != ChromaSubsampling::Monochrome ==> {
        &&& is_unpadded(out.u_plane->0.geometry)
        &&& is_narrowed_plane(input.u_plane->0, out.u_plane->0, shift)
        &&& is_unpadded(out.v_plane->0.geometry)
        &&& is_narrowed_plane(input.v_plane->0, out.v_plane->0, shift)
    }
}

/// The error that `v_frame` reports when a frame cannot be built.
#[verifier::external_type_specification]
#[verifier::external_body]
pub struct ExBuildError(v_frame::error::Error);

/// The buffers of the planes of a new eight-bit frame.
pub type Buffers = (Vec<u8>, Option<Vec<u8>>, Option<Vec<u8>>);

/// A buffer of `len` black pixels.
pub open spec fn is_blank(buffer: Seq<u8>, len: int) -> bool {
    buffer.len() == len && forall|k: int| 0 <= k < len ==> buffer[k] == 0
}

/// Calls `v_frame::frame::FrameBuilder::build` for an eight-bit frame without padding
/// and copies the plane buffers out of it. The call succeeds exactly when the luma size
/// can be divided as the subsampling asks; the rows of each buffer follow each other
/// without a gap, and all pixels are zero. The size limit is that of an allocation
/// aligned to 64 bytes.
#[verifier::external_body]
fn build_buffers(width: usize, height: usize, subsampling: ChromaSubsampling) -> (r: Result<
    Buffers,
    v_frame::error::Error,
>)
    requires
        width > 0,
        height > 0,
        width * height + 63 <= isize::MAX,
    ensures
        r is Ok <==> subsampling.divides(width as int, height as int),
        r matches Ok(b) ==> {
            let chroma = (width as int / subsampling.ratio_x()) * (height as int
                / subsampling.ratio_y());
            &&& is_blank(b.0@, width * height)
            &&& b.1 is Some <==> subsampling != ChromaSubsampling::Monochrome
            &&& b.1 matches Some(u) ==> is_blank(u@, chroma)
            &&& b.2 is Some <==> subsampling != ChromaSubsampling::Monochrome
            &&& b.2 matches Some(v) ==> is_blank(v@, chroma)
        },
{
    let sampling = match subsampling {
        ChromaSubsampling::Yuv420 => Sampling::Yuv420,
        ChromaSubsampling::Yuv422 => Sampling::Yuv422,
        ChromaSubsampling::Yuv444 => Sampling::Yuv444,
        ChromaSubsampling::Monochrome => Sampling::Monochrome,
    };
    let (w, h) = (NonZeroUsize::new(width).unwrap(), NonZeroUsize::new(height).unwrap());
    let built = FrameBuilder::new(w, h, sampling, NonZeroU8::new(8).unwrap()).build::<u8>()?;
    let u = built.u_plane.map(|p| p.data().to_vec());
    let v = built.v_plane.map(|p| p.data().to_vec());
    Ok((built.y_plane.data().to_vec(), u, v))
}

/// A plane without padding around `data`.
fn unpadded_plane(
    data: Vec<u8>,
    width: usize,
    height: usize,
    subsampling_x: u8,
    subsampling_y: u8,
) -> (p: Plane<u8>)
    requires
        width > 0,
        height > 0,
        data.len() == width * height,
        1 <= subsampling_x <= 2,
        1 <= subsampling_y <= 2,
    ensures
        p.wf(),
        is_unpadded(p.geometry),
        p.geometry.width == width,
        p.geometry.height == height,
        p.geometry.subsampling_x == subsampling_x,
        p.geometry.subsampling_y == subsampling_y,
{
    assert(width * height == height * width) by (nonlinear_arith);
    Plane {
        data,
        geometry: PlaneGeometry {
            width,
            height,
            stride: width,
            pad_left: 0,
            pad_right: 0,
            pad_top: 0,
            pad_bottom: 0,
            subsampling_x,
            subsampling_y,
        },
    }
}

/// The frame at eight bits: itself if it has eight bits already, else a new frame
/// whose pixels lack the lowest bits.
pub fn frame_into_u8<'a>(frame: &'a PixelFrame, bit_depth: usize) -> (r: ByteFrame<'a>)
    requires
        match *frame {
            PixelFrame::OneByte(f) => bit_depth == 8,
            PixelFrame::TwoBytes(f) => {
                &&& f.wf()
                &&& 8 < bit_depth <= 16
                &&& f.y_plane.geometry.width * f.y_plane.geometry.height + 63 <= isize::MAX
            },
        },
    ensures
        match *frame {
            PixelFrame::OneByte(f) => r == ByteFrame::Borrowed(&f),
            PixelFrame::TwoBytes(f) => r matches ByteFrame::Owned(out) && is_narrowed_frame(
                f,
                out,
                bit_depth - 8,
            ),
        },
{
    match frame {
        PixelFrame::OneByte(f) => ByteFrame::Borrowed(f),
        PixelFrame::TwoBytes(f) => {
            let width = f.y_plane.geometry.width;
            let height = f.y_plane.geometry.height;
            let shift = bit_depth - 8;
            assert(f.subsampling.divides(width as int, height as int));
            let (y, u, v) = build_buffers(width, height, f.subsampling).unwrap();
            let mut y_plane = unpadded_plane(y, width, height, 1, 1);
            convert_plane_to_u8(&f.y_plane, &mut y_plane, shift);
            let mut u_plane: Option<Plane<u8>> = None;
            let mut v_plane: Option<Plane<u8>> = None;
            match (&f.u_plane, &f.v_plane, u, v) {
                (Some(in_u), Some(in_v), Some(u), Some(v)) => {
                    let g = in_u.geometry;
                    let mut out_u = unpadded_plane(
                        u,
                        g.width,
                        g.height,
                        g.subsampling_x,
                        g.subsampling_y,
                    );
                    let mut out_v = unpadded_plane(
                        v,
                        g.width,
                        g.height,
                        g.subsampling_x,
                        g.subsampling_y,
                    );
                    convert_plane_to_u8(in_u, &mut out_u, shift);
                    convert_plane_to_u8(in_v, &mut out_v, shift);
                    u_plane = Some(out_u);
                    v_plane = Some(out_v);
                },
                _ => {},
            }
            ByteFrame::Owned(
                Frame { y_plane, u_plane, v_plane, subsampling: f.subsampling, bit_depth: 8 },
            )
        },
    }
}

/// Writes the visible pixels of `in_plane`, without their lowest `shift` bits, to
/// `out_plane`. The padding is left as it is.
pub fn convert_plane_to_u8(in_plane: &Plane<u16>, out_plane: &mut Plane<u8>, shift: usize)
    requires
        in_plane.wf(),
        old(out_plane).wf(),
        in_plane.geometry.width == old(out_plane).geometry.width,
        in_plane.geometry.height == old(out_plane).geometry.height,
        shift < 16,
    ensures
        final(out_plane).wf(),
        final(out_plane).geometry == old(out_plane).geometry,
        is_narrowed_plane(*in_plane, *final(out_plane), shift as int),
        forall|k: int|
            0 <= k < old(out_plane).data.len() && !old(out_plane).geometry.is_visible(k)
                ==> #[trigger] final(out_plane).data@[k] == old(out_plane).data@[k],
{
    let width = in_plane.geometry.width;
    let height = in_plane.geometry.height;
    let in_stride = in_plane.geometry.stride;
    let out_stride = out_plane.geometry.stride;
    let in_origin = in_plane.data_origin();
    let out_origin = out_plane.data_origin();
    let ghost g = out_plane.geometry;
    let mut y: usize = 0;
    while y < height
        invariant
            y <= height,
            shift < 16,
            in_plane.wf(),
            out_plane.wf(),
            old(out_plane).wf(),
            out_plane.geometry == g,
            out_plane.geometry == old(out_plane).geometry,
            width == in_plane.geometry.width,
            height == in_plane.geometry.height,
            in_stride == in_plane.geometry.stride,
            in_origin == in_plane.geometry.origin(),
            width == g.width,
            height == g.height,
            out_stride == g.stride,
            out_origin == g.origin(),
            forall|p: int, q: int|
                0 <= p < width && 0 <= q < y ==> #[trigger] out_plane.pixel(p, q) == narrowed(
                    in_plane.pixel(p, q),
                    shift as int,
                ),
            forall|k: int|
                0 <= k < old(out_plane).data.len() && !g.is_visible(k)
                    ==> #[trigger] out_plane.data@[k] == old(out_plane).data@[k],
        decreases height - y,
    {
        let mut x: usize = 0;
        while x < width
            invariant
                y < height,
                x <= width,
                shift < 16,
                in_plane.wf(),
                out_plane.wf(),
                old(out_plane).wf(),
                out_plane.geometry == g,
                out_plane.geometry == old(out_plane).geometry,
                width == in_plane.geometry.width,
                height == in_plane.geometry.height,
                in_stride == in_plane.geometry.stride,
                in_origin == in_plane.geometry.origin(),
                width == g.width,
                height == g.height,
                out_stride == g.stride,
                out_origin == g.origin(),
                forall|p: int, q: int|
                    0 <= p < width && (0 <= q < y || q == y && p < x) ==> #[trigger] out_plane.pixel(
                        p,
                        q,
                    ) == narrowed(in_plane.pixel(p, q), shift as int),
                forall|k: int|
                    0 <= k < old(out_plane).data.len() && !g.is_visible(k)
                        ==> #[trigger] out_plane.data@[k] == old(out_plane).data@[k],
            decreases width - x,
        {
            proof {
                lemma_place_bound(in_plane.geometry, x as int, y as int);
                lemma_place_bound(g, x as int, y as int);
            }
            let ghost before = *out_plane;
            let p = in_plane.data[in_origin + y * in_stride + x];
            let k = out_origin + y * out_stride + x;
            out_plane.data[k] = narrow(p, shift);
            proof {
                assert(k == g.place(x as int, y as int));
                assert(g.is_visible(k as int));
                assert forall|p: int, q: int|
                    0 <= p < width && 0 <= q < height && (p != x || q != y) implies #[trigger] out_plane.pixel(
                    p,
                    q,
                ) == before.pixel(p, q) by {
                    if g.place(p, q) == k {
                        lemma_place_injective(g, p, q, x as int, y as int);
                    }
                    lemma_place_bound(g, p, q);
                }
            }
            x = x + 1;
        }
        y = y + 1;
    }
}

/// A pixel without its lowest `shift` bits, cut off to a byte.
fn narrow(p: u16, shift: usize) -> (r: u8)
    requires
        shift < 16,
    ensures
        r == narrowed(p, shift as int),
{
    let q = p >> shift;
    proof {
        vstd::bits::lemma_u16_shr_is_div(p, shift as u16);
        assert(p >> shift == p >> (shift as u16)) by (bit_vector)
            requires
                shift < 16,
        ;
        assert(q as u8 == q % 256) by (bit_vector);
    }
    #[verifier::truncate]
    (q as u8)
}

/// A pixel that has at most eight bits more than are taken away keeps all its other bits.
pub proof fn law_narrowed_in_range(p: u16, shift: int)
    requires
        0 <= shift,
        p < vstd::arithmetic::power2::pow2((shift + 8) as nat),
    ensures
        narrowed(p, shift) == p as int / vstd::arithmetic::power2::pow2(shift as nat) as int,
        0 <= narrowed(p, shift) < 256,
{
    vstd::arithmetic::power2::lemma_pow2_adds(shift as nat, 8);
    vstd::arithmetic::power2::lemma2_to64();
    vstd::arithmetic::power2::lemma_pow2_pos(shift as nat);
    let d = vstd::arithmetic::power2::pow2(shift as nat) as int;
    assert(0 <= p as int / d < 256) by (nonlinear_arith)
        requires
            0 < d,
            0 <= p < d * 256,
    ;
}

/// Each pixel of a narrowed frame stands for the pixel at its place in the same plane: it is
/// the whole part of what that is, measured in units of the bits that were taken away.
pub proof fn law_narrowed_pixels(input: Frame<u16>, out: Frame<u8>, shift: int, x: int, y: int)
    requires
        0 <= shift,
        is_narrowed_frame(input, out, shift),
    ensures
        stands_for_pixel(input.y_plane, out.y_plane, shift, x, y),
        out.subsampling != ChromaSubsampling::Monochrome ==> {
            &&& stands_for_pixel(input.u_plane->0, out.u_plane->0, shift, x, y)
            &&& stands_for_pixel(input.v_plane->0, out.v_plane->0, shift, x, y)
        },
{
    lemma_narrowed_pixel(input.y_plane, out.y_plane, shift, x, y);
    if out.subsampling != ChromaSubsampling::Monochrome {
        lemma_narrowed_pixel(input.u_plane->0, out.u_plane->0, shift, x, y);
        lemma_narrowed_pixel(input.v_plane->0, out.v_plane->0, shift, x, y);
    }
}

/// Whether a visible pixel of `out` is the whole part of that of `input`, measured in units of
/// `shift` bits, if there are at most eight bits more.
pub open spec fn stands_for_pixel(
    input: Plane<u16>,
    out: Plane<u8>,
    shift: int,
    x: int,
    y: int,
) -> bool {
    let unit = vstd::arithmetic::power2::pow2(shift as nat);
    0 <= x < input.geometry.width && 0 <= y < input.geometry.height && input.pixel(x, y) < 256
        * unit ==> out.pixel(x, y) * unit <= input.pixel(x, y) < (out.pixel(x, y) + 1) * unit
}

/// What a narrowed pixel stands for.
proof fn lemma_narrowed_pixel(input: Plane<u16>, out: Plane<u8>, shift: int, x: int, y: int)
    requires
        0 <= shift,
        is_narrowed_plane(input, out, shift),
    ensures
        stands_for_pixel(input, out, shift, x, y),
{
    let d = vstd::arithmetic::power2::pow2(shift as nat) as int;
    vstd::arithmetic::power2::lemma_pow2_pos(shift as nat);
    if 0 <= x < input.geometry.width && 0 <= y < input.geometry.height && input.pixel(x, y) < 256
        * d {
        let p = input.pixel(x, y) as int;
        let q = out.pixel(x, y) as int;
        vstd::arithmetic::power2::lemma_pow2_adds(shift as nat, 8);
        vstd::arithmetic::power2::lemma2_to64();
        assert(d * 256 == 256 * d);
        law_narrowed_in_range(input.pixel(x, y), shift);
        assert(q == p / d);
        assert(q * d <= p < (q + 1) * d) by (nonlinear_arith)
            requires
                q == p / d,
                d > 0,
        ;
    }
}

} // verus!
