//! Frames and their planes.
use vstd::prelude::*;

verus! {

/// How the chroma planes of a frame are sampled.
#[derive(Clone, Copy, Debug, PartialEq, Eq, Structural)]
pub enum ChromaSubsampling {
    /// Chroma at half width and half height.
    Yuv420,
    /// Chroma at half width and full height.
    Yuv422,
    /// Chroma at full resolution.
    Yuv444,
    /// No chroma planes.
    Monochrome,
}

impl ChromaSubsampling {
    /// How many luma columns there are to a chroma column.
    pub open spec fn ratio_x(self) -> int {
        match self {
            ChromaSubsampling::Yuv420 => 2,
            ChromaSubsampling::Yuv422 => 2,
            _ => 1,
        }
    }

    /// How many luma rows there are to a chroma row.
    pub open spec fn ratio_y(self) -> int {
        match self {
            ChromaSubsampling::Yuv420 => 2,
            _ => 1,
        }
    }

    /// Whether a luma plane of this size has chroma planes of whole size.
    pub open spec fn divides(self, width: int, height: int) -> bool {
        width % self.ratio_x() == 0 && height % self.ratio_y() == 0
    }
}

/// The layout of a plane in its buffer.
#[derive(Clone, Copy, Debug, PartialEq, Eq, Structural)]
pub struct PlaneGeometry {
    /// The width of the visible area.
    pub width: usize,
    /// The height of the visible area.
    pub height: usize,
    /// The number of pixels from one row to the next.
    pub stride: usize,
    pub pad_left: usize,
    pub pad_right: usize,
    pub pad_top: usize,
    pub pad_bottom: usize,
    /// How many luma columns there are to a column of this plane.
    pub subsampling_x: u8,
    /// How many luma rows there are to a row of this plane.
    pub subsampling_y: u8,
}

impl PlaneGeometry {
    /// A non-empty visible area with the padding around it, sampled at full or at half
    /// resolution.
    pub open spec fn wf(self) -> bool {
        &&& self.width > 0
        &&& self.height > 0
        &&& self.stride == self.pad_left + self.width + self.pad_right
        &&& 1 <= self.subsampling_x <= 2
        &&& 1 <= self.subsampling_y <= 2
    }

    /// The number of pixels in the buffer.
    pub open spec fn size(self) -> int {
        (self.pad_top + self.height + self.pad_bottom) * self.stride
    }

    /// The place of the first visible pixel.
    pub open spec fn origin(self) -> int {
        self.stride * self.pad_top + self.pad_left
    }

    /// The place of the visible pixel in column `x`, row `y`.
    pub open spec fn place(self, x: int, y: int) -> int {
        self.origin() + y * self.stride + x
    }

    /// Whether `k` is the place of a visible pixel.
    pub open spec fn is_visible(self, k: int) -> bool {
        exists|x: int, y: int|
            0 <= x < self.width && 0 <= y < self.height && k == #[trigger] self.place(x, y)
    }
}

/// A plane of pixels.
pub struct Plane<P> {
    /// All pixels, row by row, padding included.
    pub data: Vec<P>,
    pub geometry: PlaneGeometry,
}

impl<P> Plane<P> {
    /// The buffer is as large as the geometry says.
    pub open spec fn wf(self) -> bool {
        &&& self.geometry.wf()
        &&& self.data.len() == self.geometry.size()
    }

    /// The visible pixel in column `x`, row `y`.
    pub open spec fn pixel(self, x: int, y: int) -> P {
        self.data@[self.geometry.place(x, y)]
    }

    /// The place of the first visible pixel.
    pub fn data_origin(&self) -> (k: usize)
        requires
            self.wf(),
        ensures
            k == self.geometry.origin(),
            k < self.data.len(),
    {
        proof {
            lemma_place_bound(self.geometry, 0, 0);
        }
        self.geometry.stride * self.geometry.pad_top + self.geometry.pad_left
    }
}

/// Every visible pixel lies inside the buffer.
pub proof fn lemma_place_bound(g: PlaneGeometry, x: int, y: int)
    requires
        g.wf(),
        0 <= x < g.width,
        0 <= y < g.height,
    ensures
        0 <= g.stride * g.pad_top <= g.origin() <= g.place(x, y) < g.size(),
        0 <= y * g.stride,
        y * g.stride + x < g.size() - g.origin(),
{
    assert(0 <= g.stride * g.pad_top) by (nonlinear_arith);
    assert(0 <= y * g.stride) by (nonlinear_arith)
        requires
            0 <= y,
    ;
    assert(g.stride * g.pad_top + g.pad_left + y * g.stride + x < (g.pad_top + g.height
        + g.pad_bottom) * g.stride) by (nonlinear_arith)
        requires
            g.pad_left + x < g.stride,
            0 <= y < g.height,
    ;
}

/// Different visible pixels have different places.
pub proof fn lemma_place_injective(g: PlaneGeometry, x: int, y: int, p: int, q: int)
    requires
        g.wf(),
        0 <= x < g.width,
        0 <= p < g.width,
        g.place(x, y) == g.place(p, q),
    ensures
        x == p,
        y == q,
{
    assert(y == q) by (nonlinear_arith)
        requires
            0 <= x < g.stride,
            0 <= p < g.stride,
            y * g.stride + x == q * g.stride + p,
    ;
}

/// Whether `p` has the visible size of `g`, and a buffer in which the visible pixels
/// can also be counted off with the stride of `g`.
pub open spec fn spans<P>(p: Plane<P>, g: PlaneGeometry) -> bool {
    &&& p.wf()
    &&& p.geometry.width == g.width
    &&& p.geometry.height == g.height
    &&& p.geometry.origin() + (g.height - 1) * g.stride + g.width <= p.data.len()
}

/// A frame: one luma plane and, unless it is monochrome, two chroma planes.
pub struct Frame<P> {
    pub y_plane: Plane<P>,
    pub u_plane: Option<Plane<P>>,
    pub v_plane: Option<Plane<P>>,
    pub subsampling: ChromaSubsampling,
    pub bit_depth: u8,
}

impl<P> Frame<P> {
    /// The planes have the sizes that the subsampling asks for.
    pub open spec fn wf(self) -> bool {
        &&& self.y_plane.wf()
        &&& self.y_plane.geometry.subsampling_x == 1
        &&& self.y_plane.geometry.subsampling_y == 1
        &&& if self.subsampling == ChromaSubsampling::Monochrome {
            self.u_plane is None && self.v_plane is None
        } else {
            &&& self.u_plane is Some
            &&& self.v_plane is Some
            &&& is_chroma_of(self.u_plane->0, self.y_plane, self.subsampling)
            &&& is_chroma_of(self.v_plane->0, self.y_plane, self.subsampling)
        }
    }
}

/// Whether `chroma` has the size of a chroma plane that goes with `luma`.
pub open spec fn is_chroma_of<P>(
    chroma: Plane<P>,
    luma: Plane<P>,
    subsampling: ChromaSubsampling,
) -> bool {
    &&& chroma.wf()
    &&& subsampling.divides(luma.geometry.width as int, luma.geometry.height as int)
    &&& chroma.geometry.width == luma.geometry.width as int / subsampling.ratio_x()
    &&& chroma.geometry.height == luma.geometry.height as int / subsampling.ratio_y()
    &&& chroma.geometry.subsampling_x == subsampling.ratio_x()
    &&& chroma.geometry.subsampling_y == subsampling.ratio_y()
}

} // verus!
