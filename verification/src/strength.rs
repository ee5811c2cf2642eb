//! The strength of the noise as a function of intensity.
use crate::equations::{is_cleared, is_same_system, is_sum, EquationSystem};
use crate::kernels::{linsolve_gives, Kernels};
use crate::matrix::{cell, copied, filled, lemma_cell_bound};
use crate::scalar::{
    clamped, count, denotes, denotes_all, is_index, is_zero, minus, mul_add, over, plus, times, unary,
    value, values, Formula, Scalar, Term, UnaryOp,
};
use vstd::prelude::*;

verus! {

/// A piecewise linear curve, as a list of `(x, y)` points.
pub struct NoiseStrengthLut<T> {
    pub points: Vec<[T; 2]>,
}

impl<T: Scalar> NoiseStrengthLut<T> {
    /// A curve of `num_bins` points at the origin.
    pub fn new(num_bins: usize) -> (lut: Self)
        requires
            num_bins > 0,
        ensures
            lut.points.len() == num_bins,
            forall|i: int|
                0 <= i < num_bins ==> is_zero((#[trigger] lut.points@[i])[0]) && is_zero(
                    lut.points@[i][1],
                ),
    {
        let zero = Term::count(0).get();
        NoiseStrengthLut { points: filled(num_bins, [zero, zero]) }
    }
}

/// Fits the strength of the noise to measurements, in equally wide bins of intensity.
#[derive(Debug)]
pub struct StrengthSolver<T> {
    pub eqns: EquationSystem<T>,
    pub num_bins: usize,
    pub num_equations: usize,
    pub total: T,
}

impl<T> StrengthSolver<T> {
    /// There is one equation for each bin.
    pub open spec fn wf(self) -> bool {
        &&& self.eqns.wf()
        &&& self.eqns.n == self.num_bins
    }
}

/// Whether two solvers hold the same measurements and the same strengths.
pub open spec fn is_same_solver<T>(a: StrengthSolver<T>, b: StrengthSolver<T>) -> bool {
    &&& is_same_system(a.eqns, b.eqns)
    &&& a.num_bins == b.num_bins
    &&& a.num_equations == b.num_equations
    &&& a.total == b.total
}

impl<T: Copy> Clone for StrengthSolver<T> {
    /// A solver with the same measurements and the same strengths.
    fn clone(&self) -> (s: Self)
        ensures
            is_same_solver(*self, s),
    {
        StrengthSolver {
            eqns: self.eqns.clone(),
            num_bins: self.num_bins,
            num_equations: self.num_equations,
            total: self.total,
        }
    }
}

/// Where the intensity `v` lies, measured in bins.
pub open spec fn bin_position<T>(num_bins: usize, v: Formula<T>) -> Formula<T> {
    over(
        times(count((num_bins - 1) as usize), clamped(v, count(0), count(255))),
        count(255),
    )
}

/// Whether `i` is the bin at or below the intensity `v`.
pub open spec fn is_bin<T: Scalar>(num_bins: usize, v: Formula<T>, i: int) -> bool {
    exists|k: usize|
        {
            &&& #[trigger] is_index(unary(UnaryOp::Floor, bin_position(num_bins, v)), k)
            &&& i == at_most(k as int, num_bins - 1)
        }
}

/// The smaller of two integers.
pub open spec fn at_most(i: int, bound: int) -> int {
    if i <= bound {
        i
    } else {
        bound
    }
}

/// How far the intensity `v` lies above bin `i`, as a share of a bin.
pub open spec fn bin_offset<T>(num_bins: usize, v: Formula<T>, i: int) -> Formula<T> {
    minus(bin_position(num_bins, v), count(i as usize))
}

/// The intensity at the centre of bin `i`.
pub open spec fn bin_center<T>(num_bins: usize, i: int) -> Formula<T> {
    times(over(count(i as usize), count((num_bins - 1) as usize)), count(255))
}

/// The formulas `m` with `t` added at place `k`.
pub open spec fn raised<T>(m: Seq<Formula<T>>, k: int, t: Formula<T>) -> Seq<Formula<T>> {
    m.update(k, plus(m[k], t))
}

/// The formulas `m` with `t` subtracted at place `k`.
pub open spec fn lowered<T>(m: Seq<Formula<T>>, k: int, t: Formula<T>) -> Seq<Formula<T>> {
    m.update(k, minus(m[k], t))
}

/// The matrix after a measurement that lies the share `f` above bin `i`; `j` is the
/// bin above it.
pub open spec fn measured_matrix<T>(
    m: Seq<Formula<T>>,
    n: int,
    i: int,
    j: int,
    f: Formula<T>,
) -> Seq<Formula<T>> {
    let g = minus(count(1), f);
    let m1 = raised(m, cell(n, i, i), unary(UnaryOp::Squared, g));
    let m2 = raised(m1, cell(n, j, i), times(f, g));
    let m3 = raised(m2, cell(n, j, j), unary(UnaryOp::Squared, f));
    raised(m3, cell(n, i, j), times(g, f))
}

/// The right-hand side after such a measurement of the strength `s`.
pub open spec fn measured_vector<T>(
    m: Seq<Formula<T>>,
    i: int,
    j: int,
    f: Formula<T>,
    s: Formula<T>,
) -> Seq<Formula<T>> {
    let g = minus(count(1), f);
    raised(raised(m, i, times(g, s)), j, times(f, s))
}

/// Whether `post` is `pre` with a measurement of the strength `noise_std` at the
/// intensity `block_mean`, shared between the bins below and above it.
pub open spec fn is_measured<T: Scalar>(
    pre: StrengthSolver<T>,
    block_mean: T,
    noise_std: T,
    post: StrengthSolver<T>,
) -> bool {
    let n = pre.num_bins as int;
    &&& post.wf()
    &&& post.num_bins == pre.num_bins
    &&& post.eqns.x@ == pre.eqns.x@
    &&& post.num_equations == pre.num_equations + 1
    &&& denotes(plus(value(pre.total), value(noise_std)), post.total)
    &&& exists|i: int|
        {
            let j = at_most(i + 1, n - 1);
            let f = bin_offset(pre.num_bins, value(block_mean), i);
            &&& #[trigger] is_bin(pre.num_bins, value(block_mean), i)
            &&& denotes_all(measured_matrix(values(pre.eqns.a@), n, i, j, f), post.eqns.a@)
            &&& denotes_all(
                measured_vector(values(pre.eqns.b@), i, j, f, value(noise_std)),
                post.eqns.b@,
            )
        }
}

/// The weight of the smoothness constraint.
pub open spec fn smoothing_weight<T>(num_equations: usize, n: usize) -> Formula<T> {
    over(times(count(2), count(num_equations)), count(n))
}

/// The matrix with the smoothness constraint added to its first `rows` rows.
pub open spec fn smoothed<T>(
    m: Seq<Formula<T>>,
    n: int,
    alpha: Formula<T>,
    rows: int,
) -> Seq<Formula<T>>
    decreases rows,
{
    if rows <= 0 {
        m
    } else {
        let i = rows - 1;
        let below = if i > 0 {
            i - 1
        } else {
            0
        };
        let above = at_most(i + 1, n - 1);
        let m0 = smoothed(m, n, alpha, i);
        let m1 = lowered(m0, cell(n, i, below), alpha);
        let m2 = raised(m1, cell(n, i, i), times(count(2), alpha));
        lowered(m2, cell(n, i, above), alpha)
    }
}

/// The matrix with the pull towards the mean added to its first `rows` rows.
pub open spec fn damped<T>(m: Seq<Formula<T>>, n: int, rows: int) -> Seq<Formula<T>>
    decreases rows,
{
    if rows <= 0 {
        m
    } else {
        raised(damped(m, n, rows - 1), cell(n, rows - 1, rows - 1), over(count(1), count(8192)))
    }
}

/// The mean of the measured strengths.
pub open spec fn mean_strength<T>(s: StrengthSolver<T>) -> Formula<T> {
    over(value(s.total), count(s.num_equations))
}

/// Whether `post` is `pre` after an attempt to solve it that came out as `ok`. The
/// system that is solved has the smoothness constraint and a small pull towards the
/// mean strength added. The matrix is put back afterwards; the right-hand side keeps
/// its pull.
pub open spec fn is_strength_solved<T: Kernels>(
    pre: StrengthSolver<T>,
    post: StrengthSolver<T>,
    ok: bool,
) -> bool {
    let n = pre.num_bins as int;
    let alpha = smoothing_weight(pre.num_equations, pre.num_bins);
    &&& post.wf()
    &&& post.num_bins == pre.num_bins
    &&& post.num_equations == pre.num_equations
    &&& post.total == pre.total
    &&& post.eqns.a@ == pre.eqns.a@
    &&& forall|i: int|
        0 <= i < n ==> denotes(
            plus(value(pre.eqns.b@[i]), over(mean_strength(pre), count(8192))),
            #[trigger] post.eqns.b@[i],
        )
    &&& exists|a: Seq<T>, y: Seq<T>|
        {
            &&& denotes_all(damped(smoothed(values(pre.eqns.a@), n, alpha, n), n, n), a)
            &&& #[trigger] linsolve_gives(pre.num_bins, a, post.eqns.b@, pre.eqns.x@, y, ok)
            &&& post.eqns.x@ == if y.len() == n {
                y
            } else {
                pre.eqns.x@
            }
        }
}

/// Adds `t` to the entry at place `k`.
fn raise<T: Scalar>(v: &mut Vec<T>, k: usize, t: &Term<T>, Ghost(m): Ghost<Seq<Formula<T>>>)
    requires
        k < old(v).len(),
        denotes_all(m, old(v)@),
    ensures
        final(v).len() == old(v).len(),
        denotes_all(raised(m, k as int, t@), final(v)@),
{
    v[k] = Term::known(v[k], Ghost(m[k as int])).plus(t).get();
}

/// Subtracts `t` from the entry at place `k`.
fn lower<T: Scalar>(v: &mut Vec<T>, k: usize, t: &Term<T>, Ghost(m): Ghost<Seq<Formula<T>>>)
    requires
        k < old(v).len(),
        denotes_all(m, old(v)@),
    ensures
        final(v).len() == old(v).len(),
        denotes_all(lowered(m, k as int, t@), final(v)@),
{
    v[k] = Term::known(v[k], Ghost(m[k as int])).minus(t).get();
}

impl<T: Scalar> StrengthSolver<T> {
    /// A solver for `num_bins` bins without any measurement.
    pub fn new(num_bins: usize) -> (s: Self)
        requires
            num_bins * num_bins <= usize::MAX,
        ensures
            s.wf(),
            is_cleared(s.eqns),
            s.num_bins == num_bins,
            s.num_equations == 0,
            is_zero(s.total),
    {
        StrengthSolver {
            eqns: EquationSystem::new(num_bins),
            num_bins,
            num_equations: 0,
            total: Term::count(0).get(),
        }
    }

    /// Takes in that a block of mean intensity `block_mean` has noise of the strength
    /// `noise_std`.
    pub fn add_measurement(&mut self, block_mean: T, noise_std: T)
        requires
            old(self).wf(),
            old(self).num_bins >= 1,
            old(self).num_equations < usize::MAX,
        ensures
            is_measured(*old(self), block_mean, noise_std, *final(self)),
    {
        let n = self.num_bins;
        let bin = self.get_bin_index(&Term::of(block_mean));
        let bin_i0 = self.whole_bin(&bin);
        let bin_i1 = if bin_i0 < n - 1 {
            bin_i0 + 1
        } else {
            n - 1
        };
        let a = bin.minus(&Term::count(bin_i0));
        let rest = Term::count(1).minus(&a);
        let strength = Term::of(noise_std);
        let ghost i = bin_i0 as int;
        let ghost j = bin_i1 as int;
        proof {
            lemma_cell_bound(n as int, n as int, i, i);
            lemma_cell_bound(n as int, n as int, i, j);
            lemma_cell_bound(n as int, n as int, j, i);
            lemma_cell_bound(n as int, n as int, j, j);
        }
        let ghost m0 = values(self.eqns.a@);
        raise(&mut self.eqns.a, bin_i0 * n + bin_i0, &rest.squared(), Ghost(m0));
        let ghost m1 = raised(m0, cell(n as int, i, i), unary(UnaryOp::Squared, rest@));
        raise(&mut self.eqns.a, bin_i1 * n + bin_i0, &a.times(&rest), Ghost(m1));
        let ghost m2 = raised(m1, cell(n as int, j, i), times(a@, rest@));
        raise(&mut self.eqns.a, bin_i1 * n + bin_i1, &a.squared(), Ghost(m2));
        let ghost m3 = raised(m2, cell(n as int, j, j), unary(UnaryOp::Squared, a@));
        raise(&mut self.eqns.a, bin_i0 * n + bin_i1, &rest.times(&a), Ghost(m3));
        let ghost v0 = values(self.eqns.b@);
        raise(&mut self.eqns.b, bin_i0, &rest.times(&strength), Ghost(v0));
        let ghost v1 = raised(v0, i, times(rest@, strength@));
        raise(&mut self.eqns.b, bin_i1, &a.times(&strength), Ghost(v1));
        self.total = Term::of(self.total).plus(&strength).get();
        self.num_equations = self.num_equations + 1;
        assert(is_bin(n, value(block_mean), i));
    }

    /// The strength at the intensity `x`, interpolated between the bins around it.
    pub fn get_value(&self, x: T) -> (r: T)
        requires
            self.wf(),
            self.num_bins >= 1,
        ensures
            is_strength_at(*self, x, r),
    {
        let bin = self.get_bin_index(&Term::of(x));
        let bin_i0 = self.whole_bin(&bin);
        let bin_i1 = if bin_i0 < self.num_bins - 1 {
            bin_i0 + 1
        } else {
            self.num_bins - 1
        };
        let a = bin.minus(&Term::count(bin_i0));
        assert(is_bin(self.num_bins, value(x), bin_i0 as int));
        Term::count(1).minus(&a).mul_add(
            &Term::of(self.eqns.x[bin_i0]),
            &a.times(&Term::of(self.eqns.x[bin_i1])),
        ).get()
    }

    /// Forgets all measurements.
    pub fn clear(&mut self)
        requires
            old(self).wf(),
        ensures
            final(self).wf(),
            final(self).num_bins == old(self).num_bins,
            is_cleared(final(self).eqns),
            final(self).num_equations == 0,
            is_zero(final(self).total),
    {
        self.eqns.clear();
        self.num_equations = 0;
        self.total = Term::count(0).get();
    }

    /// This solver with the measurements of `addend` added.
    pub fn add(self, addend: &StrengthSolver<T>) -> (s: StrengthSolver<T>)
        requires
            self.wf(),
            addend.wf(),
            self.num_bins == addend.num_bins,
            self.num_equations + addend.num_equations <= usize::MAX,
        ensures
            is_strength_sum(self, *addend, s),
    {
        let mut s = self;
        s.add_assign(addend);
        s
    }

    /// Adds the measurements of `rhs`.
    pub fn add_assign(&mut self, rhs: &StrengthSolver<T>)
        requires
            old(self).wf(),
            rhs.wf(),
            old(self).num_bins == rhs.num_bins,
            old(self).num_equations + rhs.num_equations <= usize::MAX,
        ensures
            is_strength_sum(*old(self), *rhs, *final(self)),
    {
        self.eqns.add_assign(&rhs.eqns);
        self.num_equations = self.num_equations + rhs.num_equations;
        self.total = Term::of(self.total).plus(&Term::of(rhs.total)).get();
    }

    pub(crate) fn get_bin_index(&self, x: &Term<T>) -> (bin: Term<T>)
        requires
            self.num_bins >= 1,
        ensures
            bin@ == bin_position(self.num_bins, x@),
    {
        let max = Term::count(255);
        let val = x.clamped(&Term::count(0), &max);
        Term::count(self.num_bins - 1).times(&val).over(&max)
    }

    /// The whole number of bins in a position.
    fn whole_bin(&self, bin: &Term<T>) -> (i: usize)
        requires
            self.num_bins >= 1,
        ensures
            i < self.num_bins,
            exists|k: usize| #[trigger]
                is_index(unary(UnaryOp::Floor, bin@), k) && i == at_most(
                    k as int,
                    self.num_bins - 1,
                ),
    {
        let k = bin.floor().to_index();
        if k <= self.num_bins - 1 {
            k
        } else {
            self.num_bins - 1
        }
    }

    pub(crate) fn get_center(&self, i: usize) -> (c: Term<T>)
        requires
            self.num_bins >= 1,
        ensures
            c@ == bin_center::<T>(self.num_bins, i as int),
    {
        Term::count(i).over(&Term::count(self.num_bins - 1)).times(&Term::count(255))
    }
}

/// Whether `r` is the strength at the intensity `x`.
pub open spec fn is_strength_at<T: Scalar>(s: StrengthSolver<T>, x: T, r: T) -> bool {
    exists|i: int|
        {
            let j = at_most(i + 1, s.num_bins - 1);
            let f = bin_offset(s.num_bins, value(x), i);
            &&& #[trigger] is_bin(s.num_bins, value(x), i)
            &&& denotes(
                mul_add(
                    minus(count(1), f),
                    value(s.eqns.x@[i]),
                    times(f, value(s.eqns.x@[j])),
                ),
                r,
            )
        }
}

/// Whether `post` is `pre` with the measurements of `rhs` added.
pub open spec fn is_strength_sum<T: Scalar>(
    pre: StrengthSolver<T>,
    rhs: StrengthSolver<T>,
    post: StrengthSolver<T>,
) -> bool {
    &&& post.wf()
    &&& post.num_bins == pre.num_bins
    &&& is_sum(pre.eqns, rhs.eqns, post.eqns)
    &&& post.num_equations == pre.num_equations + rhs.num_equations
    &&& denotes(plus(value(pre.total), value(rhs.total)), post.total)
}

impl<T: Kernels> StrengthSolver<T> {
    /// Solves for the strength in each bin and says whether that was possible.
    pub fn solve(&mut self) -> (ok: bool)
        requires
            old(self).wf(),
        ensures
            is_strength_solved(*old(self), *final(self), ok),
    {
        let n = self.num_bins;
        let alpha = Term::count(2).times(&Term::count(self.num_equations)).over(&Term::count(n));
        let twice_alpha = Term::count(2).times(&alpha);
        let old_a = copied(&self.eqns.a);
        let ghost m = values(old_a@);
        let mut i: usize = 0;
        while i < n
            invariant
                i <= n,
                self.wf(),
                self.num_bins == n,
                self.num_bins == old(self).num_bins,
                self.num_equations == old(self).num_equations,
                self.total == old(self).total,
                self.eqns.b@ == old(self).eqns.b@,
                self.eqns.x@ == old(self).eqns.x@,
                twice_alpha@ == times(count(2), alpha@),
                denotes_all(smoothed(m, n as int, alpha@, i as int), self.eqns.a@),
            decreases n - i,
        {
            let i_lo = if i > 0 {
                i - 1
            } else {
                0
            };
            let i_hi = if i < n - 1 {
                i + 1
            } else {
                n - 1
            };
            proof {
                lemma_cell_bound(n as int, n as int, i as int, i_lo as int);
                lemma_cell_bound(n as int, n as int, i as int, i as int);
                lemma_cell_bound(n as int, n as int, i as int, i_hi as int);
            }
            let ghost m0 = smoothed(m, n as int, alpha@, i as int);
            lower(&mut self.eqns.a, i * n + i_lo, &alpha, Ghost(m0));
            let ghost m1 = lowered(m0, cell(n as int, i as int, i_lo as int), alpha@);
            raise(&mut self.eqns.a, i * n + i, &twice_alpha, Ghost(m1));
            let ghost m2 = raised(m1, cell(n as int, i as int, i as int), twice_alpha@);
            lower(&mut self.eqns.a, i * n + i_hi, &alpha, Ghost(m2));
            i = i + 1;
        }
        let mean = Term::of(self.total).over(&Term::count(self.num_equations));
        let ghost ms = smoothed(m, n as int, alpha@, n as int);
        let mut i: usize = 0;
        while i < n
            invariant
                i <= n,
                self.wf(),
                self.num_bins == n,
                self.num_bins == old(self).num_bins,
                self.num_equations == old(self).num_equations,
                self.total == old(self).total,
                self.eqns.x@ == old(self).eqns.x@,
                mean@ == mean_strength(*old(self)),
                denotes_all(damped(ms, n as int, i as int), self.eqns.a@),
                forall|k: int|
                    0 <= k < i ==> denotes(
                        plus(
                            value(old(self).eqns.b@[k]),
                            over(mean_strength(*old(self)), count(8192)),
                        ),
                        #[trigger] self.eqns.b@[k],
                    ),
                forall|k: int| i <= k < n ==> self.eqns.b@[k] == old(self).eqns.b@[k],
            decreases n - i,
        {
            proof {
                lemma_cell_bound(n as int, n as int, i as int, i as int);
            }
            let ghost m0 = damped(ms, n as int, i as int);
            raise(
                &mut self.eqns.a,
                i * n + i,
                &Term::count(1).over(&Term::count(8192)),
                Ghost(m0),
            );
            let pull = mean.over(&Term::count(8192));
            self.eqns.b[i] = Term::of(self.eqns.b[i]).plus(&pull).get();
            i = i + 1;
        }
        let ghost before = self.eqns;
        let result = self.eqns.solve();
        proof {
            let y = choose|y: Seq<T>|
                {
                    &&& #[trigger] linsolve_gives(before.n, before.a@, before.b@, before.x@, y, result)
                    &&& self.eqns.x@ == if y.len() == before.n {
                        y
                    } else {
                        before.x@
                    }
                };
            assert(linsolve_gives(n, before.a@, self.eqns.b@, old(self).eqns.x@, y, result));
        }
        self.eqns.a = old_a;
        result
    }
}

} // verus!
