//! What is known of the noise in one plane.
use crate::equations::{is_cleared, is_same_system, is_solved, EquationSystem};
use crate::kernels::{correlation_gives, Kernels};
use crate::matrix::lemma_cell_bound;
use crate::scalar::{
    count, denotes, is_below, is_zero, lemma_total_push, maximum, minus, over, ratio, times, total,
    unary, value, Formula, Scalar, Term, UnaryOp,
};
use crate::strength::{is_same_solver, StrengthSolver};
use vstd::prelude::*;

verus! {

/// The number of bins in which the strength of the noise is fitted.
pub const NUM_BINS: usize = 20;

/// The noise in one plane: an auto-regressive model and the strength.
#[derive(Debug)]
pub struct NoiseModelState<T> {
    pub eqns: EquationSystem<T>,
    pub ar_gain: T,
    pub num_observations: usize,
    pub strength_solver: StrengthSolver<T>,
}

impl<T> NoiseModelState<T> {
    /// Both systems are well-formed.
    pub open spec fn wf(self) -> bool {
        &&& self.eqns.wf()
        &&& self.strength_solver.wf()
        &&& self.strength_solver.num_bins == NUM_BINS
    }
}

/// Whether the same is known in two states.
pub open spec fn is_same_state<T>(a: NoiseModelState<T>, b: NoiseModelState<T>) -> bool {
    &&& is_same_system(a.eqns, b.eqns)
    &&& a.ar_gain == b.ar_gain
    &&& a.num_observations == b.num_observations
    &&& is_same_solver(a.strength_solver, b.strength_solver)
}

impl<T: Copy> Clone for NoiseModelState<T> {
    /// A state in which the same is known.
    fn clone(&self) -> (s: Self)
        ensures
            is_same_state(*self, s),
    {
        NoiseModelState {
            eqns: self.eqns.clone(),
            ar_gain: self.ar_gain,
            num_observations: self.num_observations,
            strength_solver: self.strength_solver.clone(),
        }
    }
}

/// Whether nothing has been observed yet.
pub open spec fn is_blank_state<T: Scalar>(s: NoiseModelState<T>, n: usize) -> bool {
    &&& s.wf()
    &&& s.eqns.n == n
    &&& is_cleared(s.eqns)
    &&& denotes(count(1), s.ar_gain)
    &&& s.num_observations == 0
    &&& is_cleared(s.strength_solver.eqns)
    &&& s.strength_solver.num_equations == 0
    &&& is_zero(s.strength_solver.total)
}

/// The mean of the first `m` diagonal entries, per observation.
pub open spec fn diagonal_mean<T>(
    s: EquationSystem<T>,
    num_observations: usize,
    m: usize,
) -> Formula<T> {
    over(
        total(count(0), diagonal_terms(s, num_observations, m as int)),
        count(m),
    )
}

/// The first `m` diagonal entries, per observation.
pub open spec fn diagonal_terms<T>(
    s: EquationSystem<T>,
    num_observations: usize,
    m: int,
) -> Seq<Formula<T>> {
    Seq::new(m as nat, |i: int| over(value(s.entry(i, i)), count(num_observations)))
}

/// The right-hand side of equation `i`, for a chroma plane without what the correlation
/// with luma, the last of the `m + 1` coefficients, explains.
pub open spec fn adjusted_rhs<T>(
    s: EquationSystem<T>,
    is_chroma: bool,
    m: int,
    i: int,
) -> Formula<T> {
    if is_chroma {
        minus(value(s.b@[i]), times(value(s.entry(i, m)), value(s.x@[m])))
    } else {
        value(s.b@[i])
    }
}

/// The products of the first `k` right-hand sides and coefficients, per observation.
pub open spec fn covariance_terms<T>(
    s: EquationSystem<T>,
    num_observations: usize,
    is_chroma: bool,
    m: int,
    k: int,
) -> Seq<Formula<T>> {
    Seq::new(
        k as nat,
        |i: int|
            over(
                times(adjusted_rhs(s, is_chroma, m, i), value(s.x@[i])),
                count(num_observations),
            ),
    )
}

/// The gain of the auto-regressive filter: the root of the share that the variance of the
/// noise has in what the model leaves unexplained, and at least one.
pub open spec fn filter_gain<T>(
    s: EquationSystem<T>,
    num_observations: usize,
    is_chroma: bool,
) -> Formula<T> {
    let m = if is_chroma {
        (s.n - 1) as usize
    } else {
        s.n
    };
    let var = diagonal_mean(s, num_observations, m);
    let sum_covar = total(
        count(0),
        covariance_terms(s, num_observations, is_chroma, m as int, m as int),
    );
    let noise_var = maximum(minus(var, sum_covar), ratio(1, 1_000_000));
    maximum(
        count(1),
        unary(UnaryOp::SquareRoot, maximum(over(var, noise_var), ratio(1, 1_000_000))),
    )
}

/// Whether `post` is `pre` after an attempt to solve for the auto-regressive coefficients
/// that came out as `ok`. The gain is one if that failed.
pub open spec fn is_gain_solved<T: Kernels>(
    pre: NoiseModelState<T>,
    is_chroma: bool,
    post: NoiseModelState<T>,
    ok: bool,
) -> bool {
    &&& post.eqns.wf()
    &&& is_solved(pre.eqns, post.eqns, ok)
    &&& post.num_observations == pre.num_observations
    &&& post.strength_solver == pre.strength_solver
    &&& ok ==> denotes(filter_gain(post.eqns, pre.num_observations, is_chroma), post.ar_gain)
    &&& !ok ==> denotes(count(1), post.ar_gain)
}

impl<T: Scalar> NoiseModelState<T> {
    /// A state without observations, for a model of `n` coefficients.
    pub fn new(n: usize) -> (s: Self)
        requires
            n * n <= usize::MAX,
        ensures
            is_blank_state(s, n),
    {
        NoiseModelState {
            eqns: EquationSystem::new(n),
            ar_gain: Term::count(1).get(),
            num_observations: 0,
            strength_solver: StrengthSolver::new(NUM_BINS),
        }
    }

    /// The gain of the auto-regressive filter for the coefficients that were found.
    fn filter_gain(&self, is_chroma: bool) -> (gain: T)
        requires
            self.eqns.wf(),
            is_chroma ==> self.eqns.n >= 1,
        ensures
            denotes(filter_gain(self.eqns, self.num_observations, is_chroma), gain),
    {
        let n = self.eqns.n;
        let m = if is_chroma {
            n - 1
        } else {
            n
        };
        let observations = Term::count(self.num_observations);
        let ghost eqns = self.eqns;
        let mut sum = Term::count(0);
        let mut i: usize = 0;
        while i < m
            invariant
                i <= m <= n,
                n == self.eqns.n,
                self.eqns.wf(),
                eqns == self.eqns,
                observations@ == count::<T>(self.num_observations),
                sum@ == total(count(0), diagonal_terms(eqns, self.num_observations, i as int)),
            decreases m - i,
        {
            proof {
                lemma_cell_bound(n as int, n as int, i as int, i as int);
            }
            let term = Term::of(self.eqns.a[i * n + i]).over(&observations);
            proof {
                let terms = diagonal_terms(eqns, self.num_observations, i as int);
                assert(terms.push(term@) =~= diagonal_terms(eqns, self.num_observations, i + 1));
                lemma_total_push(count(0), terms, term@);
            }
            sum = sum.plus(&term);
            i = i + 1;
        }
        let var = sum.over(&Term::count(m));
        let mut sum_covar = Term::count(0);
        let mut i: usize = 0;
        while i < m
            invariant
                i <= m <= n,
                n == self.eqns.n,
                is_chroma ==> m < n,
                self.eqns.wf(),
                eqns == self.eqns,
                observations@ == count::<T>(self.num_observations),
                sum_covar@ == total(
                    count(0),
                    covariance_terms(eqns, self.num_observations, is_chroma, m as int, i as int),
                ),
            decreases m - i,
        {
            let mut bi = Term::of(self.eqns.b[i]);
            if is_chroma {
                proof {
                    lemma_cell_bound(n as int, n as int, i as int, m as int);
                }
                bi = bi.minus(&Term::of(self.eqns.a[i * n + m]).times(&Term::of(self.eqns.x[m])));
            }
            let term = bi.times(&Term::of(self.eqns.x[i])).over(&observations);
            proof {
                let terms = covariance_terms(
                    eqns,
                    self.num_observations,
                    is_chroma,
                    m as int,
                    i as int,
                );
                assert(terms.push(term@) =~= covariance_terms(
                    eqns,
                    self.num_observations,
                    is_chroma,
                    m as int,
                    i + 1,
                ));
                lemma_total_push(count(0), terms, term@);
            }
            sum_covar = sum_covar.plus(&term);
            i = i + 1;
        }
        let small = Term::ratio(1, 1_000_000);
        let noise_var = var.minus(&sum_covar).maximum(&small);
        Term::count(1).maximum(&var.over(&noise_var).maximum(&small).square_root()).get()
    }
}

impl<T: Kernels> NoiseModelState<T> {
    /// Solves for the auto-regressive coefficients, sets the gain of the filter, and says
    /// whether the system could be solved.
    pub fn ar_equation_system_solve(&mut self, is_chroma: bool) -> (ok: bool)
        requires
            old(self).eqns.wf(),
            is_chroma ==> old(self).eqns.n >= 1,
        ensures
            is_gain_solved(*old(self), is_chroma, *final(self), ok),
    {
        let ret = self.eqns.solve();
        self.ar_gain = Term::count(1).get();
        if !ret {
            return ret;
        }
        self.ar_gain = self.filter_gain(is_chroma);
        ret
    }
}

/// The weight of bin `j`: the root of the sum of column `j`.
pub open spec fn column_weight<T>(s: EquationSystem<T>, j: int) -> Formula<T> {
    unary(UnaryOp::SquareRoot, total(count(0), column_terms(s, j, s.n as int)))
}

/// The first `k` entries of column `j`.
pub open spec fn column_terms<T>(s: EquationSystem<T>, j: int, k: int) -> Seq<Formula<T>> {
    Seq::new(k as nat, |i: int| value(s.entry(i, j)))
}

/// The weights of the first `k` bins.
pub open spec fn weights<T>(s: EquationSystem<T>, k: int) -> Seq<Formula<T>> {
    Seq::new(k as nat, |j: int| column_weight(s, j))
}

/// The weighted distances of the two solutions in the first `k` bins.
pub open spec fn weighted_distances<T>(
    latest: EquationSystem<T>,
    combined: EquationSystem<T>,
    k: int,
) -> Seq<Formula<T>> {
    Seq::new(
        k as nat,
        |j: int|
            times(
                column_weight(latest, j),
                unary(
                    UnaryOp::Absolute,
                    minus(value(latest.x@[j]), value(combined.x@[j])),
                ),
            ),
    )
}

/// By how much the strengths differ, on weighted average and per bin.
pub open spec fn strength_distance<T>(
    latest: StrengthSolver<T>,
    combined: StrengthSolver<T>,
) -> Formula<T> {
    let n = latest.eqns.n as int;
    over(
        times(
            total(count(0), weighted_distances(latest.eqns, combined.eqns, n)),
            over(count(1), count(latest.num_bins)),
        ),
        total(count(0), weights(latest.eqns, n)),
    )
}

/// Whether comparing the two estimates of the noise can come to the verdict `different`:
/// the coefficients correlate too little, or the strengths are too far apart.
pub open spec fn differs<T: Kernels>(
    latest: NoiseModelState<T>,
    combined: NoiseModelState<T>,
    different: bool,
) -> bool {
    exists|corr: T, low: bool|
        {
            &&& #[trigger] correlation_gives(
                latest.eqns.x@,
                combined.eqns.x@,
                combined.eqns.n,
                corr,
            )
            &&& #[trigger] is_below(value(corr), ratio(9, 10), low)
            &&& if low {
                different
            } else {
                is_below(
                    ratio(5, 1_000),
                    strength_distance(latest.strength_solver, combined.strength_solver),
                    different,
                )
            }
        }
}

/// Whether the two estimates of the noise in a plane are too different to belong to one
/// model.
pub fn is_different<T: Kernels>(
    latest: &NoiseModelState<T>,
    combined: &NoiseModelState<T>,
) -> (different: bool)
    requires
        latest.wf(),
        combined.wf(),
        latest.eqns.n == combined.eqns.n,
    ensures
        differs(*latest, *combined, different),
{
    let corr = T::normalized_cross_correlation(&latest.eqns.x, &combined.eqns.x, combined.eqns.n);
    assert(correlation_gives(latest.eqns.x@, combined.eqns.x@, combined.eqns.n, corr));
    let low = Term::of(corr).below(&Term::ratio(9, 10));
    assert(is_below(value(corr), ratio(9, 10), low));
    if low {
        return true;
    }
    let dx = Term::count(1).over(&Term::count(latest.strength_solver.num_bins));
    let latest_eqns = &latest.strength_solver.eqns;
    let combined_eqns = &combined.strength_solver.eqns;
    let n = latest_eqns.n;
    let ghost le = *latest_eqns;
    let ghost ce = *combined_eqns;
    let mut diff = Term::count(0);
    let mut total_weight = Term::count(0);
    let mut j: usize = 0;
    while j < n
        invariant
            j <= n,
            n == latest_eqns.n,
            n == combined_eqns.n,
            latest_eqns.wf(),
            combined_eqns.wf(),
            le == *latest_eqns,
            ce == *combined_eqns,
            diff@ == total(count(0), weighted_distances(le, ce, j as int)),
            total_weight@ == total(count(0), weights(le, j as int)),
        decreases n - j,
    {
        let mut sum = Term::count(0);
        let mut i: usize = 0;
        while i < n
            invariant
                i <= n,
                j < n,
                n == latest_eqns.n,
                latest_eqns.wf(),
                le == *latest_eqns,
                sum@ == total(count(0), column_terms(le, j as int, i as int)),
            decreases n - i,
        {
            proof {
                lemma_cell_bound(n as int, n as int, i as int, j as int);
            }
            let term = Term::of(latest_eqns.a[i * n + j]);
            proof {
                let terms = column_terms(le, j as int, i as int);
                assert(terms.push(term@) =~= column_terms(le, j as int, i + 1));
                lemma_total_push(count(0), terms, term@);
            }
            sum = sum.plus(&term);
            i = i + 1;
        }
        let weight = sum.square_root();
        let distance = weight.times(
            &Term::of(latest_eqns.x[j]).minus(&Term::of(combined_eqns.x[j])).absolute(),
        );
        proof {
            let distances = weighted_distances(le, ce, j as int);
            assert(distances.push(distance@) =~= weighted_distances(le, ce, j + 1));
            lemma_total_push(count(0), distances, distance@);
            let ws = weights(le, j as int);
            assert(ws.push(weight@) =~= weights(le, j + 1));
            lemma_total_push(count(0), ws, weight@);
        }
        diff = diff.plus(&distance);
        total_weight = total_weight.plus(&weight);
        j = j + 1;
    }
    Term::ratio(5, 1_000).below(&diff.times(&dx).over(&total_weight))
}

} // verus!
