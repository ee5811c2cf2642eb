//! Observations of the noise in the flat blocks of a plane.
use crate::equations::{
    add_ar_observation, is_cleared, is_mirrored, is_observed, is_scaled, is_sum,
    mirror_upper_triangle, scale_equation_system, EquationSystem,
};
use crate::kernels::{counts_pixel, reads_inside, row_gives, row_with_alt_gives, Kernels};
use crate::plane::{lemma_place_bound, spans, Plane};
use crate::scalar::{denotes, ratio, Scalar, Term};
use crate::strength::at_most;
use crate::{BLOCK_SIZE, BLOCK_SIZE_SQUARED, NOISE_MODEL_LAG, NUM_UV_COEFFS, NUM_Y_COEFFS};
use vstd::prelude::*;

verus! {

/// The number of blocks whose observations are added up before they are added to the
/// total.
pub const BLOCKS_PER_CHUNK: usize = 8;

/// A plane that is to be observed, and the blocks in which it is flat.
pub struct ChannelSurvey<'a> {
    pub source: &'a Plane<u8>,
    pub denoised: &'a Plane<u8>,
    /// For a chroma plane, the luma planes of the source and of the denoised frame.
    pub alt: Option<(&'a Plane<u8>, &'a Plane<u8>)>,
    /// The size of the frame in luma pixels.
    pub frame_dims: (usize, usize),
    /// For each block of the frame, row by row, whether it is flat: zero if it is not.
    pub flat_blocks: &'a [u8],
    /// The number of blocks in a row.
    pub num_blocks_w: usize,
}

/// The pixels of a block that are observed, counted from the corner of the block.
pub struct Window {
    pub x_start: usize,
    pub x_end: usize,
    pub y_start: usize,
    pub y_end: usize,
}

impl Window {
    /// The row after the last.
    pub open spec fn bottom(self) -> int {
        if self.y_start <= self.y_end {
            self.y_end as int
        } else {
            self.y_start as int
        }
    }

    /// The number of pixels.
    pub open spec fn area(self) -> int {
        if self.x_start < self.x_end && self.y_start < self.y_end {
            (self.y_end - self.y_start) * (self.x_end - self.x_start)
        } else {
            0
        }
    }
}

impl<'a> ChannelSurvey<'a> {
    /// The plane whose intensity the noise is a function of.
    pub open spec fn luma(self) -> Plane<u8> {
        match self.alt {
            Some((s, d)) => *s,
            None => *self.source,
        }
    }

    /// The planes that the noise is measured in go together.
    pub open spec fn planes_match(self) -> bool {
        let g = self.source.geometry;
        &&& self.source.wf()
        &&& spans(*self.denoised, g)
        &&& self.luma().wf()
        &&& self.luma().geometry.width == self.frame_dims.0
        &&& self.luma().geometry.height == self.frame_dims.1
        &&& g.width == self.frame_dims.0 as int / g.subsampling_x as int
        &&& g.height == self.frame_dims.1 as int / g.subsampling_y as int
    }

    /// All planes go together.
    pub open spec fn planes_fit(self) -> bool {
        &&& self.planes_match()
        &&& self.alt matches Some((s, d)) ==> spans(*d, s.geometry)
    }

    /// The width of a block on this plane.
    pub open spec fn block_w(self) -> int {
        BLOCK_SIZE as int / self.source.geometry.subsampling_x as int
    }

    /// The height of a block on this plane.
    pub open spec fn block_h(self) -> int {
        BLOCK_SIZE as int / self.source.geometry.subsampling_y as int
    }

    /// The column of the blocks that a block is in.
    pub open spec fn column(self, index: int) -> int {
        index % self.num_blocks_w as int
    }

    /// The row of the blocks that a block is in.
    pub open spec fn row(self, index: int) -> int {
        index / self.num_blocks_w as int
    }

    /// The first column of pixels of a block.
    pub open spec fn x_origin(self, index: int) -> int {
        self.column(index) * self.block_w()
    }

    /// The first row of pixels of a block.
    pub open spec fn y_origin(self, index: int) -> int {
        self.row(index) * self.block_h()
    }

    /// Whether a block starts inside the plane or at its edge.
    pub open spec fn starts_inside(self, index: int) -> bool {
        &&& self.x_origin(index) <= self.source.geometry.width
        &&& self.y_origin(index) <= self.source.geometry.height
    }

    /// The noise in all of the blocks can be measured.
    pub open spec fn is_measurable(self, indices: Seq<usize>) -> bool {
        &&& self.planes_match()
        &&& self.num_blocks_w > 0
        &&& forall|k: int|
            0 <= k < indices.len() ==> self.starts_inside(#[trigger] indices[k] as int)
    }

    /// Whether a block starts inside the plane, with room for the pixels that the model
    /// looks at, and the neighbour on its right is on record.
    pub open spec fn is_readable(self, index: int) -> bool {
        &&& 0 <= index < self.flat_blocks.len()
        &&& self.y_origin(index) <= self.source.geometry.height
        &&& self.x_origin(index) + NOISE_MODEL_LAG <= self.source.geometry.width
        &&& self.column(index) + 1 < self.num_blocks_w ==> index + 1 < self.flat_blocks.len()
    }

    /// All blocks to observe can be read, and their pixels can be addressed and counted.
    pub open spec fn wf(self, indices: Seq<usize>) -> bool {
        &&& self.planes_fit()
        &&& self.source.geometry.stride * NOISE_MODEL_LAG + NOISE_MODEL_LAG <= isize::MAX
        &&& self.num_blocks_w > 0
        &&& forall|k: int|
            0 <= k < indices.len() ==> self.is_readable(#[trigger] indices[k] as int)
        &&& indices.len() * BLOCK_SIZE_SQUARED <= usize::MAX
    }

    /// The pixels of a block that are observed. The model looks at pixels above, to the
    /// left and to the right: where a neighbour is not flat, the pixels that look into
    /// it are left out.
    pub open spec fn window(self, index: int) -> Window {
        let lag = NOISE_MODEL_LAG as int;
        let above = self.row(index) > 0 && self.flat_blocks@[index - self.num_blocks_w] > 0;
        let left = self.column(index) > 0 && self.flat_blocks@[index - 1] > 0;
        let right = self.column(index) + 1 < self.num_blocks_w && self.flat_blocks@[index + 1] > 0;
        Window {
            x_start: if left {
                0
            } else {
                NOISE_MODEL_LAG
            },
            x_end: at_most(
                self.source.geometry.width - self.x_origin(index) - lag,
                if right {
                    self.block_w()
                } else {
                    self.block_w() - lag
                },
            ) as usize,
            y_start: if above {
                0
            } else {
                NOISE_MODEL_LAG
            },
            y_end: at_most(
                self.source.geometry.height - self.y_origin(index),
                self.block_h(),
            ) as usize,
        }
    }

    /// How many bits luma coordinates are longer than those of this plane.
    pub open spec fn dec(self) -> (usize, usize) {
        (
            (self.source.geometry.subsampling_x - 1) as usize,
            (self.source.geometry.subsampling_y - 1) as usize,
        )
    }

    /// Whether the noise around the pixel in column `x`, row `y` can come out as `row`
    /// and that at the pixel itself as `val`.
    pub open spec fn is_ar_row<T: Kernels>(
        self,
        offsets: Seq<isize>,
        num_coords: usize,
        x: int,
        y: int,
        row: Seq<T>,
        val: T,
    ) -> bool {
        let base = (y * self.source.geometry.stride + x) as usize;
        match self.alt {
            Some((s, d)) => row_with_alt_gives(
                offsets,
                num_coords,
                *self.source,
                *self.denoised,
                base,
                self.dec(),
                (*s, *d),
                (x as usize, y as usize),
                row,
                val,
            ),
            None => row_gives(
                offsets,
                num_coords,
                *self.source,
                *self.denoised,
                base,
                row,
                val,
            ),
        }
    }

    /// Whether `post` is `pre` with the observation of a pixel of the block: that before
    /// column `x` in row `y`, counted from the corner of the block.
    pub open spec fn observation_step<T: Kernels>(
        self,
        offsets: Seq<isize>,
        num_coords: usize,
        index: int,
        x: int,
        y: int,
        pre: EquationSystem<T>,
        row: Seq<T>,
        val: T,
        post: EquationSystem<T>,
    ) -> bool {
        &&& self.is_ar_row(
            offsets,
            num_coords,
            self.x_origin(index) + x - 1,
            self.y_origin(index) + y,
            row,
            val,
        )
        &&& is_observed(pre, row, val, post)
    }

    /// Whether `s` is `start` with the observations of a block added, row by row and
    /// from left to right, up to the pixel in column `x`, row `y`.
    pub open spec fn is_observed_up_to<T: Kernels>(
        self,
        offsets: Seq<isize>,
        num_coords: usize,
        index: int,
        start: EquationSystem<T>,
        x: int,
        y: int,
        s: EquationSystem<T>,
    ) -> bool
        decreases y - self.window(index).y_start, x - self.window(index).x_start,
    {
        if x > self.window(index).x_start {
            exists|mid: EquationSystem<T>, row: Seq<T>, val: T|
                {
                    &&& self.is_observed_up_to(offsets, num_coords, index, start, x - 1, y, mid)
                    &&& #[trigger] self.observation_step(
                        offsets,
                        num_coords,
                        index,
                        x,
                        y,
                        mid,
                        row,
                        val,
                        s,
                    )
                }
        } else if y > self.window(index).y_start {
            self.is_observed_up_to(
                offsets,
                num_coords,
                index,
                start,
                self.window(index).x_end as int,
                y - 1,
                s,
            )
        } else {
            s == start
        }
    }

    /// Whether `s` holds the observations of all pixels in the window of a block.
    pub open spec fn is_block_observed<T: Kernels>(
        self,
        offsets: Seq<isize>,
        num_coords: usize,
        n: usize,
        index: int,
        s: EquationSystem<T>,
    ) -> bool {
        let w = self.window(index);
        exists|start: EquationSystem<T>|
            {
                &&& is_cleared(start)
                &&& start.n == n
                &&& #[trigger] self.is_observed_up_to(
                    offsets,
                    num_coords,
                    index,
                    start,
                    w.x_start as int,
                    w.bottom(),
                    s,
                )
            }
    }

    /// Whether `s` holds the observations of a block, normalised to intensities from zero
    /// to one, with the matrix filled in below the diagonal.
    pub open spec fn is_block_system<T: Kernels>(
        self,
        offsets: Seq<isize>,
        num_coords: usize,
        n: usize,
        index: int,
        s: EquationSystem<T>,
    ) -> bool {
        exists|raw: EquationSystem<T>, scale: T, scaled: EquationSystem<T>|
            {
                &&& self.is_block_observed(offsets, num_coords, n, index, raw)
                &&& denotes(ratio(1, 65025), scale)
                &&& #[trigger] is_scaled(raw, scale, scaled)
                &&& #[trigger] is_mirrored(scaled, s)
            }
    }

    /// Whether `post` is `pre` with the system of the block before place `to` added, if
    /// anything was observed there.
    pub open spec fn chunk_step<T: Kernels>(
        self,
        indices: Seq<usize>,
        offsets: Seq<isize>,
        num_coords: usize,
        n: usize,
        to: int,
        pre: EquationSystem<T>,
        block: EquationSystem<T>,
        post: EquationSystem<T>,
    ) -> bool {
        let index = indices[to - 1] as int;
        if self.window(index).area() > 0 {
            &&& self.is_block_system(offsets, num_coords, n, index, block)
            &&& is_sum(pre, block, post)
        } else {
            post == pre
        }
    }

    /// Whether `s` is the sum of the systems of the blocks at the places from `from` up to,
    /// but not at, `to`.
    pub open spec fn is_chunk_sum<T: Kernels>(
        self,
        indices: Seq<usize>,
        offsets: Seq<isize>,
        num_coords: usize,
        n: usize,
        from: int,
        to: int,
        s: EquationSystem<T>,
    ) -> bool
        decreases to - from,
    {
        if to <= from {
            is_cleared(s) && s.n == n
        } else {
            exists|mid: EquationSystem<T>, block: EquationSystem<T>|
                {
                    &&& self.is_chunk_sum(indices, offsets, num_coords, n, from, to - 1, mid)
                    &&& #[trigger] self.chunk_step(indices, offsets, num_coords, n, to, mid, block, s)
                }
        }
    }

    /// Where chunk number `c` starts.
    pub open spec fn chunk_start(self, indices: Seq<usize>, c: int) -> int {
        at_most(c * BLOCKS_PER_CHUNK, indices.len() as int)
    }

    /// Whether `post` is `pre` with the chunk before chunk number `c` added.
    pub open spec fn total_step<T: Kernels>(
        self,
        indices: Seq<usize>,
        offsets: Seq<isize>,
        num_coords: usize,
        n: usize,
        c: int,
        pre: EquationSystem<T>,
        chunk: EquationSystem<T>,
        post: EquationSystem<T>,
    ) -> bool {
        &&& self.is_chunk_sum(
            indices,
            offsets,
            num_coords,
            n,
            self.chunk_start(indices, c - 1),
            self.chunk_start(indices, c),
            chunk,
        )
        &&& is_sum(pre, chunk, post)
    }

    /// Whether `s` is the sum of the first `c` chunks.
    pub open spec fn is_total<T: Kernels>(
        self,
        indices: Seq<usize>,
        offsets: Seq<isize>,
        num_coords: usize,
        n: usize,
        c: int,
        s: EquationSystem<T>,
    ) -> bool
        decreases c,
    {
        if c <= 0 {
            is_cleared(s) && s.n == n
        } else {
            exists|mid: EquationSystem<T>, chunk: EquationSystem<T>|
                {
                    &&& self.is_total(indices, offsets, num_coords, n, c - 1, mid)
                    &&& #[trigger] self.total_step(indices, offsets, num_coords, n, c, mid, chunk, s)
                }
        }
    }

    /// The number of chunks that the blocks make up.
    pub open spec fn num_chunks(self, indices: Seq<usize>) -> int {
        (indices.len() + BLOCKS_PER_CHUNK - 1) / (BLOCKS_PER_CHUNK as int)
    }

    /// The number of pixels that are observed in the blocks at the places from `from` up
    /// to, but not at, `to`.
    pub open spec fn num_observations(self, indices: Seq<usize>, from: int, to: int) -> int
        decreases to - from,
    {
        if to <= from {
            0
        } else {
            self.num_observations(indices, from, to - 1) + self.window(
                indices[to - 1] as int,
            ).area()
        }
    }
}

/// Whether all of `coords` are positions that the model may look at from a pixel: at most
/// the lag to the left or right, and at most the lag above, never below.
pub open spec fn are_near(coords: Seq<[isize; 2]>) -> bool {
    forall|i: int|
        0 <= i < coords.len() ==> {
            &&& -NOISE_MODEL_LAG <= (#[trigger] coords[i])[0] <= NOISE_MODEL_LAG
            &&& -NOISE_MODEL_LAG <= coords[i][1] <= 0
        }
}

/// The distances in a buffer of the given stride to the first `num_coords` of `coords`.
pub open spec fn offsets_of(
    coords: Seq<[isize; 2]>,
    num_coords: usize,
    stride: usize,
) -> Seq<isize> {
    Seq::new(
        NUM_Y_COEFFS as nat,
        |i: int|
            if i < coords.len() && i < num_coords {
                (coords[i][1] * stride + coords[i][0]) as isize
            } else {
                0
            },
    )
}

/// Whether `offset` leads to a position that the model may look at.
pub open spec fn is_near_offset(offset: int, stride: int) -> bool {
    exists|dx: int, dy: int|
        {
            &&& -NOISE_MODEL_LAG <= dx <= NOISE_MODEL_LAG
            &&& -NOISE_MODEL_LAG <= dy <= 0
            &&& offset == #[trigger] moved(dx, dy, stride)
        }
}

/// The distance in a buffer that goes with `dx` columns and `dy` rows.
pub open spec fn moved(dx: int, dy: int, stride: int) -> int {
    dy * stride + dx
}

/// Whether all of `offsets` lead to positions that the model may look at.
pub open spec fn are_near_offsets(offsets: Seq<isize>, stride: int) -> bool {
    &&& offsets.len() == NUM_Y_COEFFS
    &&& forall|i: int|
        0 <= i < offsets.len() ==> is_near_offset(#[trigger] offsets[i] as int, stride)
}

/// The distances to the first `num_coords` of `coords`.
pub fn coord_offsets(coords: &Vec<[isize; 2]>, num_coords: usize, stride: usize) -> (r: Vec<
    isize,
>)
    requires
        are_near(coords@),
        stride * NOISE_MODEL_LAG + NOISE_MODEL_LAG <= isize::MAX,
    ensures
        r@ == offsets_of(coords@, num_coords, stride),
        are_near_offsets(r@, stride as int),
{
    let mut r: Vec<isize> = Vec::new();
    let mut i: usize = 0;
    while i < NUM_Y_COEFFS
        invariant
            i <= NUM_Y_COEFFS,
            r.len() == i,
            are_near(coords@),
            stride * NOISE_MODEL_LAG + NOISE_MODEL_LAG <= isize::MAX,
            forall|k: int|
                0 <= k < i ==> #[trigger] r@[k] == offsets_of(coords@, num_coords, stride)[k],
            forall|k: int| 0 <= k < i ==> is_near_offset(#[trigger] r@[k] as int, stride as int),
        decreases NUM_Y_COEFFS - i,
    {
        if i < coords.len() && i < num_coords {
            let dx = coords[i][0];
            let dy = coords[i][1];
            assert(coords@[i as int][0] == dx);
            assert(-(stride * NOISE_MODEL_LAG) <= dy * stride <= 0) by (nonlinear_arith)
                requires
                    -NOISE_MODEL_LAG <= dy <= 0,
            ;
            r.push(dy * (stride as isize) + dx);
            assert(r@[i as int] == moved(dx as int, dy as int, stride as int));
        } else {
            r.push(0);
            assert(moved(0, 0, stride as int) == 0);
        }
        i = i + 1;
    }
    assert(r@ =~= offsets_of(coords@, num_coords, stride));
    r
}

impl<'a> ChannelSurvey<'a> {
    /// The row and the column of a block give back its place.
    pub(crate) proof fn lemma_block(self, index: int)
        requires
            self.num_blocks_w > 0,
            0 <= index,
        ensures
            index == self.row(index) * self.num_blocks_w + self.column(index),
            0 <= self.row(index) <= index,
            0 <= self.column(index) < self.num_blocks_w,
            self.row(index) > 0 ==> index >= self.num_blocks_w,
            self.column(index) > 0 ==> index >= 1,
    {
        let n = self.num_blocks_w as int;
        vstd::arithmetic::div_mod::lemma_fundamental_div_mod(index, n);
        assert(n * (index / n) == (index / n) * n) by (nonlinear_arith);
        assert(0 <= index / n <= index && (index / n > 0 ==> index >= n)) by (nonlinear_arith)
            requires
                0 < n,
                index == n * (index / n) + index % n,
                0 <= index % n < n,
                0 <= index,
        ;
    }

    /// A block has full or half size on the plane.
    pub(crate) proof fn lemma_block_size(self)
        requires
            self.source.geometry.wf(),
        ensures
            self.source.geometry.subsampling_x == 1 ==> self.block_w() == BLOCK_SIZE,
            self.source.geometry.subsampling_x == 2 ==> self.block_w() * 2 == BLOCK_SIZE,
            self.source.geometry.subsampling_y == 1 ==> self.block_h() == BLOCK_SIZE,
            self.source.geometry.subsampling_y == 2 ==> self.block_h() * 2 == BLOCK_SIZE,
    {
        assert(self.source.geometry.subsampling_x == 1 || self.source.geometry.subsampling_x == 2);
        assert(self.source.geometry.subsampling_y == 1 || self.source.geometry.subsampling_y == 2);
    }

    /// A block that is not in the first row or column starts at least one block away from
    /// the edge.
    pub(crate) proof fn lemma_origin(self, index: int)
        requires
            self.source.geometry.wf(),
            self.num_blocks_w > 0,
            0 <= index,
        ensures
            0 <= self.x_origin(index),
            self.column(index) > 0 ==> self.x_origin(index) >= self.block_w(),
            0 <= self.y_origin(index),
            self.row(index) > 0 ==> self.y_origin(index) >= self.block_h(),
    {
        self.lemma_block(index);
        self.lemma_block_size();
        assert(0 <= self.x_origin(index) && (self.column(index) > 0 ==> self.x_origin(index)
            >= self.block_w())) by (nonlinear_arith)
            requires
                0 <= self.column(index),
                self.block_w() >= 16,
                self.x_origin(index) == self.column(index) * self.block_w(),
        ;
        assert(0 <= self.y_origin(index) && (self.row(index) > 0 ==> self.y_origin(index)
            >= self.block_h())) by (nonlinear_arith)
            requires
                0 <= self.row(index),
                self.block_h() >= 16,
                self.y_origin(index) == self.row(index) * self.block_h(),
        ;
    }

    /// The pixels in the window of a block, and those that the model looks at from there,
    /// are pixels of the plane.
    pub proof fn law_window_inside(self, index: int, x: int, y: int)
        requires
            self.planes_fit(),
            self.num_blocks_w > 0,
            self.is_readable(index),
            self.window(index).x_start <= x < self.window(index).x_end,
            self.window(index).y_start <= y < self.window(index).y_end,
        ensures
            NOISE_MODEL_LAG <= self.x_origin(index) + x,
            self.x_origin(index) + x + NOISE_MODEL_LAG < self.source.geometry.width,
            NOISE_MODEL_LAG <= self.y_origin(index) + y < self.source.geometry.height,
    {
        self.lemma_block(index);
        self.lemma_block_size();
        self.lemma_origin(index);
    }

    /// From a pixel that is far enough from the edges, the model only looks at pixels of
    /// the planes.
    proof fn lemma_reads_inside(
        self,
        offsets: Seq<isize>,
        num_coords: usize,
        x: int,
        y: int,
        base: usize,
    )
        requires
            self.planes_fit(),
            are_near_offsets(offsets, self.source.geometry.stride as int),
            num_coords <= NUM_Y_COEFFS,
            NOISE_MODEL_LAG <= x,
            x + NOISE_MODEL_LAG < self.source.geometry.width,
            NOISE_MODEL_LAG <= y < self.source.geometry.height,
            base == y * self.source.geometry.stride + x,
        ensures
            reads_inside(offsets, num_coords, *self.source, base),
            reads_inside(offsets, num_coords, *self.denoised, base),
    {
        let g = self.source.geometry;
        let stride = g.stride as int;
        self.lemma_pixel(x, y);
        assert forall|i: int| 0 <= i < num_coords implies counts_pixel(
            *self.source,
            base + #[trigger] offsets[i],
        ) && counts_pixel(*self.denoised, base + offsets[i]) by {
            assert(is_near_offset(offsets[i] as int, stride));
            let (dx, dy) = choose|dx: int, dy: int|
                {
                    &&& -NOISE_MODEL_LAG <= dx <= NOISE_MODEL_LAG
                    &&& -NOISE_MODEL_LAG <= dy <= 0
                    &&& offsets[i] as int == #[trigger] moved(dx, dy, stride)
                };
            self.lemma_pixel(x + dx, y + dy);
            assert(base + offsets[i] == (y + dy) * stride + (x + dx)) by (nonlinear_arith)
                requires
                    base == y * stride + x,
                    offsets[i] == dy * stride + dx,
            ;
        }
    }

    /// A pixel of the plane is in both buffers.
    proof fn lemma_pixel(self, x: int, y: int)
        requires
            self.planes_fit(),
            0 <= x < self.source.geometry.width,
            0 <= y < self.source.geometry.height,
        ensures
            counts_pixel(*self.source, y * self.source.geometry.stride + x),
            counts_pixel(*self.denoised, y * self.source.geometry.stride + x),
            0 <= y * self.source.geometry.stride,
            y * self.source.geometry.stride + x <= usize::MAX,
    {
        let g = self.source.geometry;
        lemma_place_bound(g, x, y);
        assert(y * g.stride <= (g.height - 1) * g.stride) by (nonlinear_arith)
            requires
                y <= g.height - 1,
                0 <= g.stride,
        ;
    }

    /// The pixels of a block that are observed.
    fn block_window(&self, index: usize) -> (w: Window)
        requires
            self.planes_fit(),
            self.num_blocks_w > 0,
            self.is_readable(index as int),
        ensures
            w == self.window(index as int),
            w.x_end <= BLOCK_SIZE,
            w.y_end <= BLOCK_SIZE,
    {
        proof {
            self.lemma_block(index as int);
            self.lemma_block_size();
            self.lemma_origin(index as int);
        }
        let g = self.source.geometry;
        let block_w = BLOCK_SIZE / g.subsampling_x as usize;
        let block_h = BLOCK_SIZE / g.subsampling_y as usize;
        let by = index / self.num_blocks_w;
        let bx = index % self.num_blocks_w;
        let y_start = if by > 0 && self.flat_blocks[index - self.num_blocks_w] > 0 {
            0
        } else {
            NOISE_MODEL_LAG
        };
        let x_start = if bx > 0 && self.flat_blocks[index - 1] > 0 {
            0
        } else {
            NOISE_MODEL_LAG
        };
        let rows = g.height - by * block_h;
        let columns = g.width - bx * block_w - NOISE_MODEL_LAG;
        let reach = if bx + 1 < self.num_blocks_w && self.flat_blocks[index + 1] > 0 {
            block_w
        } else {
            block_w - NOISE_MODEL_LAG
        };
        Window {
            x_start,
            x_end: if columns <= reach {
                columns
            } else {
                reach
            },
            y_start,
            y_end: if rows <= block_h {
                rows
            } else {
                block_h
            },
        }
    }

    /// The noise around the pixel in column `x`, row `y`, and that at the pixel itself.
    fn ar_row<T: Kernels>(
        &self,
        offsets: &Vec<isize>,
        num_coords: usize,
        x: usize,
        y: usize,
    ) -> (r: ([T; NUM_UV_COEFFS], T))
        requires
            self.planes_fit(),
            are_near_offsets(offsets@, self.source.geometry.stride as int),
            num_coords <= NUM_Y_COEFFS,
            NOISE_MODEL_LAG <= x,
            x + NOISE_MODEL_LAG < self.source.geometry.width,
            NOISE_MODEL_LAG <= y < self.source.geometry.height,
        ensures
            self.is_ar_row(offsets@, num_coords, x as int, y as int, r.0@, r.1),
    {
        let g = self.source.geometry;
        proof {
            self.lemma_pixel(x as int, y as int);
        }
        let base_index = y * g.stride + x;
        proof {
            self.lemma_reads_inside(offsets@, num_coords, x as int, y as int, base_index);
        }
        match self.alt {
            Some((alt_source, alt_denoised)) => {
                let dec = ((g.subsampling_x - 1) as usize, (g.subsampling_y - 1) as usize);
                assert((x + 1) * (dec.0 + 1) <= alt_source.geometry.width) by (nonlinear_arith)
                    requires
                        dec.0 + 1 == g.subsampling_x,
                        1 <= g.subsampling_x <= 2,
                        x + 1 <= alt_source.geometry.width as int / g.subsampling_x as int,
                ;
                assert((y + 1) * (dec.1 + 1) <= alt_source.geometry.height) by (nonlinear_arith)
                    requires
                        dec.1 + 1 == g.subsampling_y,
                        1 <= g.subsampling_y <= 2,
                        y + 1 <= alt_source.geometry.height as int / g.subsampling_y as int,
                ;
                let r = T::extract_ar_row_with_alt(
                    offsets,
                    num_coords,
                    self.source,
                    self.denoised,
                    base_index,
                    dec,
                    alt_source,
                    alt_denoised,
                    x,
                    y,
                );
                assert(row_with_alt_gives(
                    offsets@,
                    num_coords,
                    *self.source,
                    *self.denoised,
                    base_index,
                    dec,
                    (*alt_source, *alt_denoised),
                    (x, y),
                    r.0@,
                    r.1,
                ));
                r
            },
            None => {
                let r = T::extract_ar_row(
                    offsets,
                    num_coords,
                    self.source,
                    self.denoised,
                    base_index,
                );
                assert(row_gives(
                    offsets@,
                    num_coords,
                    *self.source,
                    *self.denoised,
                    base_index,
                    r.0@,
                    r.1,
                ));
                r
            },
        }
    }

    /// Observes all pixels in the window of a block. Gives the system and the number of
    /// observations.
    fn observe_block<T: Kernels>(
        &self,
        offsets: &Vec<isize>,
        num_coords: usize,
        n: usize,
        index: usize,
    ) -> (r: (EquationSystem<T>, usize))
        requires
            self.planes_fit(),
            self.num_blocks_w > 0,
            self.is_readable(index as int),
            are_near_offsets(offsets@, self.source.geometry.stride as int),
            num_coords <= NUM_Y_COEFFS,
            n == NUM_Y_COEFFS || n == NUM_UV_COEFFS,
        ensures
            r.0.wf(),
            r.0.n == n,
            self.is_block_observed(offsets@, num_coords, n, index as int, r.0),
            r.1 == self.window(index as int).area(),
            r.1 <= BLOCK_SIZE_SQUARED,
    {
        assert(n * n <= 625) by (nonlinear_arith)
            requires
                n <= 25,
        ;
        let mut eqns: EquationSystem<T> = EquationSystem::new(n);
        let ghost start = eqns;
        let w = self.block_window(index);
        proof {
            self.lemma_block(index as int);
            self.lemma_block_size();
            self.lemma_origin(index as int);
        }
        let y_o = index / self.num_blocks_w * (BLOCK_SIZE / self.source.geometry.subsampling_y
            as usize);
        let x_o = index % self.num_blocks_w * (BLOCK_SIZE / self.source.geometry.subsampling_x
            as usize);
        let ghost across = if w.x_start <= w.x_end {
            w.x_end - w.x_start
        } else {
            0
        };
        let mut num_observations: usize = 0;
        let mut y = w.y_start;
        while y < w.y_end
            invariant
                self.planes_fit(),
                self.num_blocks_w > 0,
                self.is_readable(index as int),
                are_near_offsets(offsets@, self.source.geometry.stride as int),
                num_coords <= NUM_Y_COEFFS,
                n == NUM_Y_COEFFS || n == NUM_UV_COEFFS,
                w == self.window(index as int),
                w.x_end <= BLOCK_SIZE,
                w.y_end <= BLOCK_SIZE,
                x_o == self.x_origin(index as int),
                y_o == self.y_origin(index as int),
                0 <= across <= BLOCK_SIZE,
                w.x_start <= w.x_end ==> across == w.x_end - w.x_start,
                w.x_start > w.x_end ==> across == 0,
                w.y_start <= y,
                y <= w.bottom(),
                eqns.wf(),
                eqns.n == n,
                num_observations == (y - w.y_start) * across,
                self.is_observed_up_to(
                    offsets@,
                    num_coords,
                    index as int,
                    start,
                    w.x_start as int,
                    y as int,
                    eqns,
                ),
            decreases w.y_end - y,
        {
            let ghost counted = num_observations;
            proof {
                assert((y - w.y_start) * across + across == (y + 1 - w.y_start) * across
                    && (y + 1 - w.y_start) * across <= BLOCK_SIZE_SQUARED) by (nonlinear_arith)
                    requires
                        0 <= y + 1 - w.y_start <= BLOCK_SIZE,
                        0 <= across <= BLOCK_SIZE,
                ;
            }
            let mut x = w.x_start;
            while x < w.x_end
                invariant
                    self.planes_fit(),
                    self.num_blocks_w > 0,
                    self.is_readable(index as int),
                    are_near_offsets(offsets@, self.source.geometry.stride as int),
                    num_coords <= NUM_Y_COEFFS,
                    n == NUM_Y_COEFFS || n == NUM_UV_COEFFS,
                    w == self.window(index as int),
                    x_o == self.x_origin(index as int),
                    y_o == self.y_origin(index as int),
                    w.x_start <= w.x_end ==> across == w.x_end - w.x_start,
                    w.y_start <= y < w.y_end,
                    w.x_start <= x,
                    x <= w.x_end || x == w.x_start,
                    eqns.wf(),
                    eqns.n == n,
                    num_observations == counted + (x - w.x_start),
                    counted + across <= BLOCK_SIZE_SQUARED,
                    self.is_observed_up_to(
                        offsets@,
                        num_coords,
                        index as int,
                        start,
                        x as int,
                        y as int,
                        eqns,
                    ),
                decreases w.x_end - x,
            {
                proof {
                    self.law_window_inside(index as int, x as int, y as int);
                }
                let ghost before = eqns;
                let (row, val) = self.ar_row::<T>(offsets, num_coords, x_o + x, y_o + y);
                add_ar_observation(&mut eqns, row.as_slice(), val);
                assert(self.observation_step(
                    offsets@,
                    num_coords,
                    index as int,
                    x + 1,
                    y as int,
                    before,
                    row@,
                    val,
                    eqns,
                ));
                num_observations = num_observations + 1;
                x = x + 1;
            }
            assert(self.is_observed_up_to(
                offsets@,
                num_coords,
                index as int,
                start,
                w.x_end as int,
                y as int,
                eqns,
            ));
            y = y + 1;
        }
        proof {
            assert(w.bottom() == y);
            assert((y - w.y_start) * across == w.area() && (y - w.y_start) * across <= BLOCK_SIZE_SQUARED) by (nonlinear_arith)
                requires
                    y == w.bottom(),
                    w.x_end <= BLOCK_SIZE,
                    w.y_end <= BLOCK_SIZE,
                    w.x_start <= w.x_end ==> across == w.x_end - w.x_start,
                    w.x_start > w.x_end ==> across == 0,
            ;
        }
        (eqns, num_observations)
    }

    /// The system of a block, and the number of observations it is made of. The system is
    /// of no use where nothing was observed.
    fn block_system<T: Kernels>(
        &self,
        offsets: &Vec<isize>,
        num_coords: usize,
        n: usize,
        index: usize,
    ) -> (r: (EquationSystem<T>, usize))
        requires
            self.planes_fit(),
            self.num_blocks_w > 0,
            self.is_readable(index as int),
            are_near_offsets(offsets@, self.source.geometry.stride as int),
            num_coords <= NUM_Y_COEFFS,
            n == NUM_Y_COEFFS || n == NUM_UV_COEFFS,
        ensures
            r.0.wf(),
            r.0.n == n,
            r.1 == self.window(index as int).area(),
            r.1 <= BLOCK_SIZE_SQUARED,
            r.1 > 0 ==> self.is_block_system(offsets@, num_coords, n, index as int, r.0),
    {
        let (mut eqns, num_observations) = self.observe_block::<T>(offsets, num_coords, n, index);
        if num_observations > 0 {
            let ghost raw = eqns;
            let scale = Term::ratio(1, 65025).get();
            scale_equation_system(&mut eqns, scale);
            let ghost scaled = eqns;
            mirror_upper_triangle(&mut eqns);
            assert(is_scaled(raw, scale, scaled));
            assert(is_mirrored(scaled, eqns));
        }
        (eqns, num_observations)
    }

    /// The sum of the systems of the blocks at the places from `from` up to, but not at,
    /// `to`, and the number of observations it is made of.
    pub fn chunk_observations<T: Kernels>(
        &self,
        offsets: &Vec<isize>,
        num_coords: usize,
        n: usize,
        indices: &Vec<usize>,
        from: usize,
        to: usize,
    ) -> (r: (EquationSystem<T>, usize))
        requires
            self.wf(indices@),
            are_near_offsets(offsets@, self.source.geometry.stride as int),
            num_coords <= NUM_Y_COEFFS,
            n == NUM_Y_COEFFS || n == NUM_UV_COEFFS,
            from <= to <= indices.len(),
        ensures
            r.0.wf(),
            r.0.n == n,
            self.is_chunk_sum(indices@, offsets@, num_coords, n, from as int, to as int, r.0),
            r.1 == self.num_observations(indices@, from as int, to as int),
            r.1 <= (to - from) * BLOCK_SIZE_SQUARED,
    {
        assert(n * n <= 625) by (nonlinear_arith)
            requires
                n <= 25,
        ;
        let mut chunk_eqns: EquationSystem<T> = EquationSystem::new(n);
        let mut chunk_observations: usize = 0;
        let mut k = from;
        while k < to
            invariant
                self.wf(indices@),
                are_near_offsets(offsets@, self.source.geometry.stride as int),
                num_coords <= NUM_Y_COEFFS,
                n == NUM_Y_COEFFS || n == NUM_UV_COEFFS,
                from <= k <= to <= indices.len(),
                chunk_eqns.wf(),
                chunk_eqns.n == n,
                self.is_chunk_sum(indices@, offsets@, num_coords, n, from as int, k as int, chunk_eqns),
                chunk_observations == self.num_observations(indices@, from as int, k as int),
                chunk_observations <= (k - from) * BLOCK_SIZE_SQUARED,
            decreases to - k,
        {
            let index = indices[k];
            let (eqns, num_observations) = self.block_system::<T>(offsets, num_coords, n, index);
            let ghost before = chunk_eqns;
            if num_observations > 0 {
                chunk_eqns.add_assign(&eqns);
                chunk_observations = chunk_observations + num_observations;
            }
            assert(self.chunk_step(
                indices@,
                offsets@,
                num_coords,
                n,
                k + 1,
                before,
                eqns,
                chunk_eqns,
            ));
            k = k + 1;
        }
        (chunk_eqns, chunk_observations)
    }

    /// The number of observations in two stretches of blocks is that in both together.
    proof fn lemma_num_observations_split(self, indices: Seq<usize>, from: int, mid: int, to: int)
        requires
            from <= mid <= to,
        ensures
            self.num_observations(indices, from, to) == self.num_observations(indices, from, mid)
                + self.num_observations(indices, mid, to),
        decreases to - mid,
    {
        if mid < to {
            self.lemma_num_observations_split(indices, from, mid, to - 1);
        }
    }

    /// The sum of the systems of all blocks, added up chunk by chunk, and the number of
    /// observations it is made of.
    pub fn block_observations<T: Kernels>(
        &self,
        coords: &Vec<[isize; 2]>,
        num_coords: usize,
        n: usize,
        indices: &Vec<usize>,
    ) -> (r: (EquationSystem<T>, usize))
        requires
            self.wf(indices@),
            are_near(coords@),
            num_coords <= NUM_Y_COEFFS,
            n == NUM_Y_COEFFS || n == NUM_UV_COEFFS,
        ensures
            r.0.wf(),
            r.0.n == n,
            self.is_total(
                indices@,
                offsets_of(coords@, num_coords, self.source.geometry.stride),
                num_coords,
                n,
                self.num_chunks(indices@),
                r.0,
            ),
            r.1 == self.num_observations(indices@, 0, indices.len() as int),
            r.1 <= indices.len() * BLOCK_SIZE_SQUARED,
    {
        let offsets = coord_offsets(coords, num_coords, self.source.geometry.stride);
        let len = indices.len();
        let mut chunks: Vec<(EquationSystem<T>, usize)> = Vec::new();
        let mut from: usize = 0;
        while from < len
            invariant
                self.wf(indices@),
                are_near_offsets(offsets@, self.source.geometry.stride as int),
                num_coords <= NUM_Y_COEFFS,
                n == NUM_Y_COEFFS || n == NUM_UV_COEFFS,
                len == indices.len(),
                from == self.chunk_start(indices@, chunks.len() as int),
                chunks.len() <= self.num_chunks(indices@),
                from <= len,
                self.are_chunks(indices@, offsets@, num_coords, n, chunks@),
            decreases len - from,
        {
            let to = if len - from <= BLOCKS_PER_CHUNK {
                len
            } else {
                from + BLOCKS_PER_CHUNK
            };
            let chunk = self.chunk_observations::<T>(&offsets, num_coords, n, indices, from, to);
            chunks.push(chunk);
            from = to;
        }
        proof {
            self.lemma_chunk_count(indices@, offsets@, num_coords, n, chunks@, chunks.len() as int);
        }
        let (eqns, num_observations) = sum_chunks(n, &chunks);
        proof {
            self.lemma_chunk_total(
                indices@,
                offsets@,
                num_coords,
                n,
                chunks@,
                chunks.len() as int,
                eqns,
            );
        }
        (eqns, num_observations)
    }

    /// Whether `chunks` are the sums of the first chunks, with the numbers of observations
    /// they are made of.
    pub open spec fn are_chunks<T: Kernels>(
        self,
        indices: Seq<usize>,
        offsets: Seq<isize>,
        num_coords: usize,
        n: usize,
        chunks: Seq<(EquationSystem<T>, usize)>,
    ) -> bool {
        forall|c: int|
            0 <= c < chunks.len() ==> {
                &&& (#[trigger] chunks[c]).0.wf()
                &&& chunks[c].0.n == n
                &&& self.is_chunk_sum(
                    indices,
                    offsets,
                    num_coords,
                    n,
                    self.chunk_start(indices, c),
                    self.chunk_start(indices, c + 1),
                    chunks[c].0,
                )
                &&& chunks[c].1 == self.num_observations(
                    indices,
                    self.chunk_start(indices, c),
                    self.chunk_start(indices, c + 1),
                )
            }
    }

    /// The numbers of observations in the chunks add up to that in their blocks.
    pub(crate) proof fn lemma_chunk_count<T: Kernels>(
        self,
        indices: Seq<usize>,
        offsets: Seq<isize>,
        num_coords: usize,
        n: usize,
        chunks: Seq<(EquationSystem<T>, usize)>,
        c: int,
    )
        requires
            self.wf(indices),
            0 <= c <= chunks.len(),
            self.are_chunks(indices, offsets, num_coords, n, chunks),
        ensures
            num_in_chunks(chunks, c) == self.num_observations(
                indices,
                0,
                self.chunk_start(indices, c),
            ),
            0 <= num_in_chunks(chunks, c) <= self.chunk_start(indices, c) * BLOCK_SIZE_SQUARED
                <= usize::MAX,
        decreases c,
    {
        let end = self.chunk_start(indices, c);
        self.lemma_num_observations_bound(indices, end);
        if c > 0 {
            self.lemma_chunk_count(indices, offsets, num_coords, n, chunks, c - 1);
            let start = self.chunk_start(indices, c - 1);
            self.lemma_num_observations_split(indices, 0, start, end);
            assert(chunks[c - 1].1 == self.num_observations(indices, start, end));
        }
    }

    /// A block has at most as many observations as pixels.
    proof fn lemma_num_observations_bound(self, indices: Seq<usize>, to: int)
        requires
            self.wf(indices),
            0 <= to <= indices.len(),
        ensures
            0 <= self.num_observations(indices, 0, to) <= to * BLOCK_SIZE_SQUARED,
        decreases to,
    {
        if to > 0 {
            self.lemma_num_observations_bound(indices, to - 1);
            let index = indices[to - 1] as int;
            assert(self.is_readable(index));
            self.lemma_block(index);
            self.lemma_block_size();
            self.lemma_origin(index);
            let w = self.window(index);
            assert(0 <= w.area() <= BLOCK_SIZE_SQUARED) by (nonlinear_arith)
                requires
                    w.x_end <= BLOCK_SIZE,
                    w.y_end <= BLOCK_SIZE,
                    w.area() == if w.x_start < w.x_end && w.y_start < w.y_end {
                        (w.y_end - w.y_start) * (w.x_end - w.x_start)
                    } else {
                        0
                    },
            ;
        }
    }

    /// The sum of the chunks is the total.
    pub(crate) proof fn lemma_chunk_total<T: Kernels>(
        self,
        indices: Seq<usize>,
        offsets: Seq<isize>,
        num_coords: usize,
        n: usize,
        chunks: Seq<(EquationSystem<T>, usize)>,
        c: int,
        s: EquationSystem<T>,
    )
        requires
            0 <= c <= chunks.len(),
            self.are_chunks(indices, offsets, num_coords, n, chunks),
            is_chunk_total(chunks, n, c, s),
        ensures
            self.is_total(indices, offsets, num_coords, n, c, s),
        decreases c,
    {
        if c > 0 {
            let mid = choose|mid: EquationSystem<T>|
                {
                    &&& is_chunk_total(chunks, n, c - 1, mid)
                    &&& #[trigger] chunk_added(chunks, c, mid, s)
                };
            self.lemma_chunk_total(indices, offsets, num_coords, n, chunks, c - 1, mid);
            let chunk = chunks[c - 1].0;
            assert(self.total_step(indices, offsets, num_coords, n, c, mid, chunk, s));
        }
    }
}

/// Whether `post` is `pre` with chunk number `c - 1` added.
pub open spec fn chunk_added<T: Scalar>(
    chunks: Seq<(EquationSystem<T>, usize)>,
    c: int,
    pre: EquationSystem<T>,
    post: EquationSystem<T>,
) -> bool {
    is_sum(pre, chunks[c - 1].0, post)
}

/// Whether `s` is the sum of the first `c` chunks.
pub open spec fn is_chunk_total<T: Scalar>(
    chunks: Seq<(EquationSystem<T>, usize)>,
    n: usize,
    c: int,
    s: EquationSystem<T>,
) -> bool
    decreases c,
{
    if c <= 0 {
        is_cleared(s) && s.n == n
    } else {
        exists|mid: EquationSystem<T>|
            {
                &&& is_chunk_total(chunks, n, c - 1, mid)
                &&& #[trigger] chunk_added(chunks, c, mid, s)
            }
    }
}

/// The number of observations in the first `c` chunks.
pub open spec fn num_in_chunks<T>(chunks: Seq<(EquationSystem<T>, usize)>, c: int) -> int
    decreases c,
{
    if c <= 0 {
        0
    } else {
        num_in_chunks(chunks, c - 1) + chunks[c - 1].1
    }
}

/// A longer stretch of chunks has at least as many observations.
proof fn lemma_num_in_chunks<T>(chunks: Seq<(EquationSystem<T>, usize)>, c: int, d: int)
    requires
        c <= d,
    ensures
        0 <= num_in_chunks(chunks, c) <= num_in_chunks(chunks, d),
    decreases d,
{
    if d > 0 {
        if c == d {
            lemma_num_in_chunks(chunks, c - 1, d - 1);
        } else {
            lemma_num_in_chunks(chunks, c, d - 1);
        }
    }
}

/// The sum of all chunks, and the number of observations it is made of.
pub fn sum_chunks<T: Scalar>(n: usize, chunks: &Vec<(EquationSystem<T>, usize)>) -> (r: (
    EquationSystem<T>,
    usize,
))
    requires
        n * n <= usize::MAX,
        forall|c: int|
            0 <= c < chunks.len() ==> (#[trigger] chunks@[c]).0.wf() && chunks@[c].0.n == n,
        num_in_chunks(chunks@, chunks.len() as int) <= usize::MAX,
    ensures
        r.0.wf(),
        r.0.n == n,
        is_chunk_total(chunks@, n, chunks.len() as int, r.0),
        r.1 == num_in_chunks(chunks@, chunks.len() as int),
{
    let mut eqns: EquationSystem<T> = EquationSystem::new(n);
    let mut num_observations: usize = 0;
    let mut c: usize = 0;
    while c < chunks.len()
        invariant
            c <= chunks.len(),
            forall|i: int|
                0 <= i < chunks.len() ==> (#[trigger] chunks@[i]).0.wf() && chunks@[i].0.n == n,
            num_in_chunks(chunks@, chunks.len() as int) <= usize::MAX,
            eqns.wf(),
            eqns.n == n,
            is_chunk_total(chunks@, n, c as int, eqns),
            num_observations == num_in_chunks(chunks@, c as int),
        decreases chunks.len() - c,
    {
        let ghost before = eqns;
        eqns.add_assign(&chunks[c].0);
        assert(chunk_added(chunks@, c + 1, before, eqns));
        proof {
            lemma_num_in_chunks(chunks@, c + 1, chunks.len() as int);
        }
        num_observations = num_observations + chunks[c].1;
        c = c + 1;
    }
    (eqns, num_observations)
}

} // verus!
