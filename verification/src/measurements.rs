//! Measurements of the strength of the noise in the flat blocks of a plane.
use crate::equations::is_cleared;
use crate::kernels::Kernels;
use crate::observations::ChannelSurvey;
use crate::plane::Plane;
use crate::scalar::{
    count, denotes, is_zero, maximum, mul_add, over, times, unary, value, Formula, Scalar, Term,
    UnaryOp,
};
use crate::strength::{at_most, is_measured, is_strength_at, StrengthSolver};
use crate::{BLOCK_SIZE, BLOCK_SIZE_SQUARED};
use vstd::prelude::*;

verus! {

/// How the noise of a chroma plane depends on that of the luma plane.
pub struct LumaNoise<'a, T> {
    /// The correlation with the luma noise.
    pub corr: T,
    /// The gain of the auto-regressive filter of the luma plane.
    pub gain: T,
    /// The strength of the luma noise.
    pub solver: &'a StrengthSolver<T>,
}

/// Whether the mean intensity of a block can come out as `mean`.
pub open spec fn block_mean_gives<T: Kernels>(
    luma: Plane<u8>,
    frame_dims: (usize, usize),
    x_o: usize,
    y_o: usize,
    mean: T,
) -> bool {
    call_ensures(T::get_block_mean, (&luma, frame_dims, x_o, y_o), mean)
}

/// Whether the variance of the noise in a block can come out as `var`.
pub open spec fn noise_var_gives<T: Kernels>(
    source: Plane<u8>,
    denoised: Plane<u8>,
    dims: (usize, usize),
    x_o: usize,
    y_o: usize,
    block: (usize, usize),
    var: T,
) -> bool {
    call_ensures(
        T::get_noise_var,
        (&source, &denoised, dims, x_o, y_o, block.0, block.1),
        var,
    )
}

/// The correlation with luma: none for the luma plane itself.
pub open spec fn correlation<T>(luma: Option<LumaNoise<T>>) -> Formula<T> {
    match luma {
        Some(l) => value(l.corr),
        None => count(0),
    }
}

/// Whether `f` is the strength of the luma noise at the intensity `mean`: none for the
/// luma plane itself.
pub open spec fn is_luma_strength<T: Scalar>(
    luma: Option<LumaNoise<T>>,
    mean: T,
    f: Formula<T>,
) -> bool {
    match luma {
        Some(l) => exists|v: T| #[trigger]
            is_strength_at(*l.solver, mean, v) && f == times(value(l.gain), value(v)),
        None => f == count::<T>(0),
    }
}

/// The standard deviation of the part of the noise that is not correlated with luma: the
/// variance `var` less that of the correlated part, but at least a sixteenth of it.
pub open spec fn uncorrelated_std<T>(
    var: Formula<T>,
    corr: Formula<T>,
    luma_strength: Formula<T>,
) -> Formula<T> {
    let part = times(corr, luma_strength);
    unary(
        UnaryOp::SquareRoot,
        maximum(over(var, count(16)), mul_add(part, unary(UnaryOp::Negated, part), var)),
    )
}

/// A column of a subsampled plane stands for columns of the luma plane.
proof fn lemma_upscaled(x: int, width: int, subsampling: int)
    requires
        1 <= subsampling <= 2,
        0 <= x < width / subsampling,
    ensures
        0 <= x * subsampling < width,
{
    assert(subsampling == 1 || subsampling == 2);
    if subsampling == 1 {
        assert(x * 1 == x && width / 1 == width);
    } else {
        assert(x * 2 < width);
    }
}

impl<'a> ChannelSurvey<'a> {
    /// The number of columns of a block that lie in the plane.
    pub open spec fn samples_w(self, index: int) -> int {
        at_most(self.source.geometry.width - self.x_origin(index), self.block_w())
    }

    /// The number of rows of a block that lie in the plane.
    pub open spec fn samples_h(self, index: int) -> int {
        at_most(self.source.geometry.height - self.y_origin(index), self.block_h())
    }

    /// Whether the block is large enough, and the mean intensity and the strength of the
    /// noise in it can come out as `mean` and `strength`.
    pub open spec fn is_strength_in_block<T: Kernels>(
        self,
        noise_gain: T,
        luma: Option<LumaNoise<T>>,
        index: int,
        mean: T,
        strength: T,
    ) -> bool {
        let g = self.source.geometry;
        &&& block_mean_gives(
            self.luma(),
            self.frame_dims,
            (self.x_origin(index) * g.subsampling_x) as usize,
            (self.y_origin(index) * g.subsampling_y) as usize,
            mean,
        )
        &&& exists|var: T, f: Formula<T>|
            {
                &&& #[trigger] noise_var_gives(
                    *self.source,
                    *self.denoised,
                    (g.width, g.height),
                    self.x_origin(index) as usize,
                    self.y_origin(index) as usize,
                    (self.block_w() as usize, self.block_h() as usize),
                    var,
                )
                &&& #[trigger] is_luma_strength(luma, mean, f)
                &&& denotes(
                    over(uncorrelated_std(value(var), correlation(luma), f), value(noise_gain)),
                    strength,
                )
            }
    }

    /// Whether `m` is the mean intensity and the strength of the noise in a block; there
    /// is none for a block with too few samples.
    pub open spec fn is_measurement<T: Kernels>(
        self,
        noise_gain: T,
        luma: Option<LumaNoise<T>>,
        index: int,
        m: Option<(T, T)>,
    ) -> bool {
        if self.samples_w(index) * self.samples_h(index) <= BLOCK_SIZE {
            m is None
        } else {
            m matches Some((mean, strength)) && self.is_strength_in_block(
                noise_gain,
                luma,
                index,
                mean,
                strength,
            )
        }
    }

    /// Whether `post` is `pre` with the measurement of the block before place `k`, if
    /// there is one.
    pub open spec fn measurement_step<T: Kernels>(
        self,
        indices: Seq<usize>,
        noise_gain: T,
        luma: Option<LumaNoise<T>>,
        k: int,
        pre: StrengthSolver<T>,
        m: Option<(T, T)>,
        post: StrengthSolver<T>,
    ) -> bool {
        &&& self.is_measurement(noise_gain, luma, indices[k - 1] as int, m)
        &&& match m {
            Some((mean, strength)) => is_measured(pre, mean, strength, post),
            None => post == pre,
        }
    }

    /// Whether `s` is a solver for `num_bins` bins with the measurements of the first `k`
    /// blocks.
    pub open spec fn are_measured<T: Kernels>(
        self,
        indices: Seq<usize>,
        noise_gain: T,
        luma: Option<LumaNoise<T>>,
        num_bins: usize,
        k: int,
        s: StrengthSolver<T>,
    ) -> bool
        decreases k,
    {
        if k <= 0 {
            &&& s.wf()
            &&& s.num_bins == num_bins
            &&& is_cleared(s.eqns)
            &&& s.num_equations == 0
            &&& is_zero(s.total)
        } else {
            exists|mid: StrengthSolver<T>, m: Option<(T, T)>|
                {
                    &&& self.are_measured(indices, noise_gain, luma, num_bins, k - 1, mid)
                    &&& #[trigger] self.measurement_step(indices, noise_gain, luma, k, mid, m, s)
                }
        }
    }

    /// The mean intensity and the strength of the noise in a block, if there are enough
    /// samples.
    pub fn noise_measurement<T: Kernels>(
        &self,
        noise_gain: T,
        luma: &Option<LumaNoise<T>>,
        index: usize,
    ) -> (m: Option<(T, T)>)
        requires
            self.planes_match(),
            self.num_blocks_w > 0,
            self.starts_inside(index as int),
            luma matches Some(l) ==> l.solver.wf() && l.solver.num_bins >= 1,
        ensures
            self.is_measurement(noise_gain, *luma, index as int, m),
    {
        let g = self.source.geometry;
        let ss_x = g.subsampling_x as usize;
        let ss_y = g.subsampling_y as usize;
        let block_w = BLOCK_SIZE / ss_x;
        let block_h = BLOCK_SIZE / ss_y;
        proof {
            self.lemma_block(index as int);
            self.lemma_block_size();
            self.lemma_origin(index as int);
        }
        let y_o = index / self.num_blocks_w * block_h;
        let x_o = index % self.num_blocks_w * block_w;
        let num_samples_h = if g.height - y_o <= block_h {
            g.height - y_o
        } else {
            block_h
        };
        let num_samples_w = if g.width - x_o <= block_w {
            g.width - x_o
        } else {
            block_w
        };
        proof {
            assert(0 <= num_samples_w * num_samples_h <= BLOCK_SIZE_SQUARED) by (nonlinear_arith)
                requires
                    0 <= num_samples_w <= BLOCK_SIZE,
                    0 <= num_samples_h <= BLOCK_SIZE,
            ;
        }
        if num_samples_w * num_samples_h <= BLOCK_SIZE {
            return None;
        }
        proof {
            assert(num_samples_w > 0 && num_samples_h > 0) by (nonlinear_arith)
                requires
                    num_samples_w * num_samples_h > BLOCK_SIZE,
                    0 <= num_samples_w,
                    0 <= num_samples_h,
            ;
            lemma_upscaled(x_o as int, self.frame_dims.0 as int, g.subsampling_x as int);
            lemma_upscaled(y_o as int, self.frame_dims.1 as int, g.subsampling_y as int);
        }
        let block_mean = match self.alt {
            Some((alt_source, alt_denoised)) => T::get_block_mean(
                alt_source,
                self.frame_dims,
                x_o * ss_x,
                y_o * ss_y,
            ),
            None => T::get_block_mean(self.source, self.frame_dims, x_o * ss_x, y_o * ss_y),
        };
        let noise_var = T::get_noise_var(
            self.source,
            self.denoised,
            (g.width, g.height),
            x_o,
            y_o,
            block_w,
            block_h,
        );
        assert(noise_var_gives(
            *self.source,
            *self.denoised,
            (g.width, g.height),
            x_o,
            y_o,
            (block_w, block_h),
            noise_var,
        ));
        let (corr, luma_strength) = match luma {
            Some(l) => {
                let strength = l.solver.get_value(block_mean);
                assert(is_strength_at(*l.solver, block_mean, strength));
                (Term::of(l.corr), Term::of(l.gain).times(&Term::of(strength)))
            },
            None => (Term::count(0), Term::count(0)),
        };
        assert(is_luma_strength(*luma, block_mean, luma_strength@));
        let var = Term::of(noise_var);
        let part = corr.times(&luma_strength);
        let uncorr_std = var.over(&Term::count(16)).maximum(
            &part.mul_add(&part.negated(), &var),
        ).square_root();
        Some((block_mean, uncorr_std.over(&Term::of(noise_gain)).get()))
    }

    /// A solver for `num_bins` bins with the measurements of all blocks.
    pub fn measure_strength<T: Kernels>(
        &self,
        noise_gain: T,
        luma: &Option<LumaNoise<T>>,
        num_bins: usize,
        indices: &Vec<usize>,
    ) -> (s: StrengthSolver<T>)
        requires
            self.is_measurable(indices@),
            1 <= num_bins,
            num_bins * num_bins <= usize::MAX,
            luma matches Some(l) ==> l.solver.wf() && l.solver.num_bins >= 1,
        ensures
            s.wf(),
            s.num_bins == num_bins,
            s.num_equations <= indices.len(),
            self.are_measured(indices@, noise_gain, *luma, num_bins, indices.len() as int, s),
    {
        let mut measurements: Vec<Option<(T, T)>> = Vec::new();
        let mut k: usize = 0;
        while k < indices.len()
            invariant
                self.is_measurable(indices@),
                luma matches Some(l) ==> l.solver.wf() && l.solver.num_bins >= 1,
                k <= indices.len(),
                measurements.len() == k,
                self.are_measurements(indices@, noise_gain, *luma, measurements@),
            decreases indices.len() - k,
        {
            let m = self.noise_measurement(noise_gain, luma, indices[k]);
            measurements.push(m);
            k = k + 1;
        }
        let solver = solver_of(num_bins, &measurements);
        proof {
            self.lemma_all_measured(
                indices@,
                noise_gain,
                *luma,
                num_bins,
                measurements@,
                indices.len() as int,
                solver,
            );
        }
        solver
    }

    /// Whether `ms` are the measurements of the first blocks.
    pub open spec fn are_measurements<T: Kernels>(
        self,
        indices: Seq<usize>,
        noise_gain: T,
        luma: Option<LumaNoise<T>>,
        ms: Seq<Option<(T, T)>>,
    ) -> bool {
        forall|k: int|
            0 <= k < ms.len() ==> self.is_measurement(
                noise_gain,
                luma,
                indices[k] as int,
                #[trigger] ms[k],
            )
    }

    /// A solver with all measurements has those of all blocks.
    pub(crate) proof fn lemma_all_measured<T: Kernels>(
        self,
        indices: Seq<usize>,
        noise_gain: T,
        luma: Option<LumaNoise<T>>,
        num_bins: usize,
        ms: Seq<Option<(T, T)>>,
        k: int,
        s: StrengthSolver<T>,
    )
        requires
            0 <= k <= ms.len(),
            self.are_measurements(indices, noise_gain, luma, ms),
            holds_measurements(num_bins, ms, k, s),
        ensures
            self.are_measured(indices, noise_gain, luma, num_bins, k, s),
        decreases k,
    {
        if k > 0 {
            let mid = choose|mid: StrengthSolver<T>|
                {
                    &&& holds_measurements(num_bins, ms, k - 1, mid)
                    &&& #[trigger] is_taken_in(ms, k, mid, s)
                };
            self.lemma_all_measured(indices, noise_gain, luma, num_bins, ms, k - 1, mid);
            let m = ms[k - 1];
            assert(self.measurement_step(indices, noise_gain, luma, k, mid, m, s));
        }
    }
}

/// Whether `post` is `pre` with measurement number `k - 1`, if there is one.
pub open spec fn is_taken_in<T: Scalar>(
    ms: Seq<Option<(T, T)>>,
    k: int,
    pre: StrengthSolver<T>,
    post: StrengthSolver<T>,
) -> bool {
    match ms[k - 1] {
        Some((mean, strength)) => is_measured(pre, mean, strength, post),
        None => post == pre,
    }
}

/// Whether `s` is a solver for `num_bins` bins with the first `k` measurements.
pub open spec fn holds_measurements<T: Scalar>(
    num_bins: usize,
    ms: Seq<Option<(T, T)>>,
    k: int,
    s: StrengthSolver<T>,
) -> bool
    decreases k,
{
    if k <= 0 {
        &&& s.wf()
        &&& s.num_bins == num_bins
        &&& is_cleared(s.eqns)
        &&& s.num_equations == 0
        &&& is_zero(s.total)
    } else {
        exists|mid: StrengthSolver<T>|
            {
                &&& holds_measurements(num_bins, ms, k - 1, mid)
                &&& #[trigger] is_taken_in(ms, k, mid, s)
            }
    }
}

/// A solver for `num_bins` bins with the given measurements.
pub fn solver_of<T: Scalar>(num_bins: usize, measurements: &Vec<Option<(T, T)>>) -> (s:
    StrengthSolver<T>)
    requires
        1 <= num_bins,
        num_bins * num_bins <= usize::MAX,
    ensures
        s.wf(),
        s.num_bins == num_bins,
        s.num_equations <= measurements.len(),
        holds_measurements(num_bins, measurements@, measurements.len() as int, s),
{
    let mut solver: StrengthSolver<T> = StrengthSolver::new(num_bins);
    let mut k: usize = 0;
    while k < measurements.len()
        invariant
            k <= measurements.len(),
            1 <= num_bins,
            solver.wf(),
            solver.num_bins == num_bins,
            solver.num_equations <= k,
            holds_measurements(num_bins, measurements@, k as int, solver),
        decreases measurements.len() - k,
    {
        let ghost before = solver;
        match measurements[k] {
            Some((block_mean, strength)) => {
                solver.add_measurement(block_mean, strength);
            },
            None => {},
        }
        assert(is_taken_in(measurements@, k + 1, before, solver));
        k = k + 1;
    }
    solver
}

} // verus!
