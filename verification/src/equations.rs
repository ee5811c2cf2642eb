//! Linear equation systems and the statistics gathered in them.
use crate::{NUM_UV_COEFFS, NUM_Y_COEFFS};
use crate::kernels::{linsolve_gives, Kernels};
use crate::matrix::{cell, copied, filled, lemma_cell_bound, lemma_cell_injective, lemma_cell_split};
use crate::scalar::{
    count, denotes, is_below, is_zero, law_substitution, lemma_total_push, over, plus, ratio, times,
    total, unary, value, BinaryOp, Formula, Scalar, Term, UnaryOp,
};
use vstd::prelude::*;

verus! {

/// A linear system `a * x = b` of `n` equations, with its solution.
#[derive(Debug)]
pub struct EquationSystem<T> {
    pub a: Vec<T>,
    pub b: Vec<T>,
    pub x: Vec<T>,
    pub n: usize,
}

impl<T> EquationSystem<T> {
    /// `a` is an `n` by `n` matrix, `b` and `x` are vectors of `n` entries.
    pub open spec fn wf(self) -> bool {
        &&& self.a.len() == self.n * self.n
        &&& self.b.len() == self.n
        &&& self.x.len() == self.n
    }

    /// The matrix entry in row `i`, column `j`.
    pub open spec fn entry(self, i: int, j: int) -> T {
        self.a@[cell(self.n as int, i, j)]
    }
}

/// Whether two systems have the same entries and the same solution.
pub open spec fn is_same_system<T>(a: EquationSystem<T>, b: EquationSystem<T>) -> bool {
    &&& a.n == b.n
    &&& a.a@ == b.a@
    &&& a.b@ == b.b@
    &&& a.x@ == b.x@
}

impl<T: Copy> Clone for EquationSystem<T> {
    /// A system with the same entries and the same solution.
    fn clone(&self) -> (s: Self)
        ensures
            is_same_system(*self, s),
    {
        EquationSystem { a: copied(&self.a), b: copied(&self.b), x: copied(&self.x), n: self.n }
    }
}

/// Whether all entries of the system are zero.
pub open spec fn is_cleared<T: Scalar>(s: EquationSystem<T>) -> bool {
    &&& s.wf()
    &&& forall|k: int| 0 <= k < s.a.len() ==> is_zero(#[trigger] s.a@[k])
    &&& forall|k: int| 0 <= k < s.b.len() ==> is_zero(#[trigger] s.b@[k])
    &&& forall|k: int| 0 <= k < s.x.len() ==> is_zero(#[trigger] s.x@[k])
}

/// Whether `post` is `pre` with the entries of `rhs` added; the solution is kept.
pub open spec fn is_sum<T: Scalar>(
    pre: EquationSystem<T>,
    rhs: EquationSystem<T>,
    post: EquationSystem<T>,
) -> bool {
    &&& post.wf()
    &&& post.n == pre.n
    &&& post.x@ == pre.x@
    &&& forall|k: int|
        0 <= k < pre.a.len() ==> denotes(
            plus(value(pre.a@[k]), value(rhs.a@[k])),
            #[trigger] post.a@[k],
        )
    &&& forall|k: int|
        0 <= k < pre.b.len() ==> denotes(
            plus(value(pre.b@[k]), value(rhs.b@[k])),
            #[trigger] post.b@[k],
        )
}

/// Whether `post` is `pre` after an attempt to solve it that came out as `ok`. A
/// solution vector of the wrong length is not taken over.
pub open spec fn is_solved<T: Kernels>(
    pre: EquationSystem<T>,
    post: EquationSystem<T>,
    ok: bool,
) -> bool {
    &&& post.n == pre.n
    &&& post.a@ == pre.a@
    &&& post.b@ == pre.b@
    &&& exists|y: Seq<T>|
        {
            &&& #[trigger] linsolve_gives(pre.n, pre.a@, pre.b@, pre.x@, y, ok)
            &&& post.x@ == if y.len() == pre.n {
                y
            } else {
                pre.x@
            }
        }
}

/// Whether `post` is `pre` with the fallback solution for a chroma plane: all
/// coefficients are zero but the last, the correlation with luma, which is
/// `b / a` of its own equation unless that `a` is too small.
pub open spec fn is_chroma_fallback<T: Scalar>(
    pre: EquationSystem<T>,
    post: EquationSystem<T>,
) -> bool {
    let last = pre.n - 1;
    &&& post.wf()
    &&& post.n == pre.n
    &&& post.a@ == pre.a@
    &&& post.b@ == pre.b@
    &&& forall|k: int| 0 <= k < last ==> is_zero(#[trigger] post.x@[k])
    &&& exists|large: bool|
        {
            &&& #[trigger] is_below(
                ratio(1, 1_000_000),
                unary(UnaryOp::Absolute, value(pre.entry(last, last))),
                large,
            )
            &&& large ==> denotes(
                over(value(pre.b@[last]), value(pre.entry(last, last))),
                post.x@[last],
            )
            &&& !large ==> is_zero(post.x@[last])
        }
}

/// Sets every entry of `v` to `zero`.
fn fill<T: Copy>(v: &mut Vec<T>, zero: T)
    ensures
        final(v)@ == Seq::new(old(v).len() as nat, |k: int| zero),
{
    let mut i: usize = 0;
    while i < v.len()
        invariant
            i <= v.len(),
            v.len() == old(v).len(),
            forall|k: int| 0 <= k < i ==> v@[k] == zero,
        decreases v.len() - i,
    {
        v[i] = zero;
        i = i + 1;
    }
}

/// Adds the entries of `rhs` to those of `v`, one by one.
fn add_entries<T: Scalar>(v: &mut Vec<T>, rhs: &Vec<T>)
    requires
        old(v).len() == rhs.len(),
    ensures
        final(v).len() == old(v).len(),
        forall|k: int|
            0 <= k < rhs.len() ==> denotes(
                plus(value(old(v)@[k]), value(rhs@[k])),
                #[trigger] final(v)@[k],
            ),
{
    let mut i: usize = 0;
    while i < v.len()
        invariant
            i <= v.len(),
            v.len() == old(v).len(),
            v.len() == rhs.len(),
            forall|k: int|
                0 <= k < i ==> denotes(
                    plus(value(old(v)@[k]), value(rhs@[k])),
                    #[trigger] v@[k],
                ),
            forall|k: int| i <= k < v.len() ==> v@[k] == old(v)@[k],
        decreases v.len() - i,
    {
        v[i] = Term::of(v[i]).plus(&Term::of(rhs[i])).get();
        i = i + 1;
    }
}

/// Multiplies every entry of `v` by `scale`.
fn scale_entries<T: Scalar>(v: &mut Vec<T>, scale: T)
    ensures
        final(v).len() == old(v).len(),
        forall|k: int|
            0 <= k < old(v).len() ==> denotes(
                times(value(old(v)@[k]), value(scale)),
                #[trigger] final(v)@[k],
            ),
{
    let mut i: usize = 0;
    while i < v.len()
        invariant
            i <= v.len(),
            v.len() == old(v).len(),
            forall|k: int|
                0 <= k < i ==> denotes(times(value(old(v)@[k]), value(scale)), #[trigger] v@[k]),
            forall|k: int| i <= k < v.len() ==> v@[k] == old(v)@[k],
        decreases v.len() - i,
    {
        v[i] = Term::of(v[i]).times(&Term::of(scale)).get();
        i = i + 1;
    }
}

impl<T: Scalar> EquationSystem<T> {
    /// A system of `n` equations with all entries zero.
    pub fn new(n: usize) -> (s: Self)
        requires
            n * n <= usize::MAX,
        ensures
            is_cleared(s),
            s.n == n,
    {
        let zero = Term::count(0).get();
        EquationSystem { a: filled(n * n, zero), b: filled(n, zero), x: filled(n, zero), n }
    }

    /// Replaces the solution by one for a chroma plane whose system could not be
    /// solved.
    pub fn set_chroma_coefficient_fallback_solution(&mut self)
        requires
            old(self).wf(),
            old(self).n >= 1,
        ensures
            is_chroma_fallback(*old(self), *final(self)),
    {
        let last = self.n - 1;
        proof {
            lemma_cell_bound(self.n as int, self.n as int, last as int, last as int);
        }
        fill(&mut self.x, Term::count(0).get());
        let pivot = Term::of(self.a[last * self.n + last]);
        if Term::ratio(1, 1_000_000).below(&pivot.absolute()) {
            self.x[last] = Term::of(self.b[last]).over(&pivot).get();
        }
    }

    /// Takes over the entries and the solution of `other`.
    pub fn copy_from(&mut self, other: &Self)
        requires
            old(self).wf(),
            other.wf(),
            old(self).n == other.n,
        ensures
            final(self).wf(),
            final(self).n == other.n,
            final(self).a@ == other.a@,
            final(self).b@ == other.b@,
            final(self).x@ == other.x@,
    {
        self.a = copied(&other.a);
        self.x = copied(&other.x);
        self.b = copied(&other.b);
    }

    /// Sets all entries and the solution to zero.
    pub fn clear(&mut self)
        requires
            old(self).wf(),
        ensures
            is_cleared(*final(self)),
            final(self).n == old(self).n,
    {
        fill(&mut self.a, Term::count(0).get());
        fill(&mut self.b, Term::count(0).get());
        fill(&mut self.x, Term::count(0).get());
    }

    /// This system with the entries of `addend` added.
    pub fn add(self, addend: &EquationSystem<T>) -> (s: EquationSystem<T>)
        requires
            self.wf(),
            addend.wf(),
            self.n == addend.n,
        ensures
            is_sum(self, *addend, s),
    {
        let mut s = self;
        s.add_assign(addend);
        s
    }

    /// Adds the entries of `rhs` to this system.
    pub fn add_assign(&mut self, rhs: &EquationSystem<T>)
        requires
            old(self).wf(),
            rhs.wf(),
            old(self).n == rhs.n,
        ensures
            is_sum(*old(self), *rhs, *final(self)),
    {
        add_entries(&mut self.a, &rhs.a);
        add_entries(&mut self.b, &rhs.b);
    }
}

impl<T: Kernels> EquationSystem<T> {
    /// Solves the system and says whether that was possible.
    pub fn solve(&mut self) -> (ok: bool)
        requires
            old(self).wf(),
        ensures
            final(self).wf(),
            is_solved(*old(self), *final(self), ok),
    {
        let (y, ok) = T::linsolve(self.n, &self.a, self.n, &self.b, &self.x);
        assert(linsolve_gives(self.n, self.a@, self.b@, self.x@, y@, ok));
        if y.len() == self.n {
            self.x = y;
        }
        ok
    }
}

/// Whether `post` is `pre` with the entries above the diagonal copied below it.
pub open spec fn is_mirrored<T>(pre: EquationSystem<T>, post: EquationSystem<T>) -> bool {
    &&& post.wf()
    &&& post.n == pre.n
    &&& post.b@ == pre.b@
    &&& post.x@ == pre.x@
    &&& forall|i: int, j: int|
        0 <= i < pre.n && 0 <= j < pre.n ==> #[trigger] post.entry(i, j) == if i <= j {
            pre.entry(i, j)
        } else {
            pre.entry(j, i)
        }
}

/// A mirrored system has a symmetric matrix, and mirroring it again changes nothing.
pub proof fn law_mirrored_is_symmetric<T>(
    pre: EquationSystem<T>,
    post: EquationSystem<T>,
    again: EquationSystem<T>,
)
    requires
        is_mirrored(pre, post),
        is_mirrored(post, again),
    ensures
        forall|i: int, j: int|
            0 <= i < post.n && 0 <= j < post.n ==> #[trigger] post.entry(i, j) == post.entry(j, i),
        again.a@ == post.a@,
{
    assert forall|i: int, j: int| 0 <= i < post.n && 0 <= j < post.n implies #[trigger] post.entry(
        i,
        j,
    ) == post.entry(j, i) by {
        assert(post.entry(i, j) == if i <= j {
            pre.entry(i, j)
        } else {
            pre.entry(j, i)
        });
        assert(post.entry(j, i) == if j <= i {
            pre.entry(j, i)
        } else {
            pre.entry(i, j)
        });
    }
    assert forall|k: int| 0 <= k < post.a.len() implies again.a@[k] == post.a@[k] by {
        let n = post.n as int;
        assert(0 < n) by (nonlinear_arith)
            requires
                0 <= k < n * n,
                0 <= n,
        ;
        lemma_cell_split(n, n, k);
        assert(again.entry(k / n, k % n) == post.entry(k / n, k % n));
    }
}

/// Copies the entries above the diagonal to the cells below it.
pub fn mirror_upper_triangle<T: Copy>(eqns: &mut EquationSystem<T>)
    requires
        old(eqns).wf(),
    ensures
        is_mirrored(*old(eqns), *final(eqns)),
{
    let n = eqns.n;
    let mut i: usize = 0;
    while i < n
        invariant
            i <= n,
            eqns.wf(),
            eqns.n == n,
            n == old(eqns).n,
            eqns.b@ == old(eqns).b@,
            eqns.x@ == old(eqns).x@,
            forall|p: int, q: int|
                0 <= p < n && 0 <= q < n ==> #[trigger] eqns.entry(p, q) == if p <= q || q >= i {
                    old(eqns).entry(p, q)
                } else {
                    old(eqns).entry(q, p)
                },
        decreases n - i,
    {
        let mut j: usize = i + 1;
        while j < n
            invariant
                i < n,
                i < j <= n,
                eqns.wf(),
                eqns.n == n,
                n == old(eqns).n,
                eqns.b@ == old(eqns).b@,
                eqns.x@ == old(eqns).x@,
                forall|p: int, q: int|
                    0 <= p < n && 0 <= q < n ==> #[trigger] eqns.entry(p, q) == if p <= q || q > i
                        || (q == i && p >= j) {
                        old(eqns).entry(p, q)
                    } else {
                        old(eqns).entry(q, p)
                    },
            decreases n - j,
        {
            proof {
                lemma_cell_bound(n as int, n as int, i as int, j as int);
                lemma_cell_bound(n as int, n as int, j as int, i as int);
            }
            let ghost before = *eqns;
            assert(before.entry(i as int, j as int) == old(eqns).entry(i as int, j as int));
            eqns.a[j * n + i] = eqns.a[i * n + j];
            proof {
                assert forall|p: int, q: int| 0 <= p < n && 0 <= q < n implies #[trigger] eqns.entry(
                    p,
                    q,
                ) == if p == j && q == i {
                    before.entry(i as int, j as int)
                } else {
                    before.entry(p, q)
                } by {
                    lemma_cell_bound(n as int, n as int, p, q);
                    if cell(n as int, p, q) == cell(n as int, j as int, i as int) {
                        lemma_cell_injective(n as int, p, q, j as int, i as int);
                    }
                }
            }
            j = j + 1;
        }
        i = i + 1;
    }
}

/// Whether `post` is `pre` with one observation added: the products of the `row`
/// entries on and above the diagonal, and those of `row` and `val` on the right-hand
/// side.
pub open spec fn is_observed<T: Scalar>(
    pre: EquationSystem<T>,
    row: Seq<T>,
    val: T,
    post: EquationSystem<T>,
) -> bool {
    let n = pre.n as int;
    &&& post.wf()
    &&& post.n == pre.n
    &&& post.x@ == pre.x@
    &&& forall|i: int, j: int|
        0 <= i <= j < n ==> denotes(
            plus(value(pre.entry(i, j)), times(value(row[i]), value(row[j]))),
            #[trigger] post.entry(i, j),
        )
    &&& forall|i: int, j: int|
        0 <= j < i < n ==> #[trigger] post.entry(i, j) == pre.entry(i, j)
    &&& forall|i: int|
        0 <= i < n ==> denotes(
            plus(value(pre.b@[i]), times(value(row[i]), value(val))),
            #[trigger] post.b@[i],
        )
}

/// Adds one observation to a system with as many equations as a luma or a chroma
/// plane has coefficients. Only the cells on and above the diagonal are touched.
pub fn add_ar_observation<T: Scalar>(eqns: &mut EquationSystem<T>, buffer: &[T], val: T)
    requires
        old(eqns).wf(),
        old(eqns).n == NUM_Y_COEFFS || old(eqns).n == NUM_UV_COEFFS,
        buffer.len() >= old(eqns).n,
    ensures
        is_observed(*old(eqns), buffer@, val, *final(eqns)),
{
    if eqns.n == NUM_Y_COEFFS {
        add_ar_observation_n::<T, NUM_Y_COEFFS>(eqns, buffer, val)
    } else {
        add_ar_observation_n::<T, NUM_UV_COEFFS>(eqns, buffer, val)
    }
}

/// `add_ar_observation` for a system of `N` equations.
pub fn add_ar_observation_n<T: Scalar, const N: usize>(
    eqns: &mut EquationSystem<T>,
    buffer: &[T],
    val: T,
)
    requires
        old(eqns).wf(),
        old(eqns).n == N,
        buffer.len() >= N,
    ensures
        is_observed(*old(eqns), buffer@, val, *final(eqns)),
{
    let n = N;
    let mut i: usize = 0;
    while i < n
        invariant
            i <= n,
            n <= buffer.len(),
            eqns.wf(),
            eqns.n == n,
            n == old(eqns).n,
            eqns.x@ == old(eqns).x@,
            forall|p: int, q: int|
                0 <= p <= q < n && p < i ==> denotes(
                    plus(
                        value(old(eqns).entry(p, q)),
                        times(value(buffer@[p]), value(buffer@[q])),
                    ),
                    #[trigger] eqns.entry(p, q),
                ),
            forall|p: int, q: int|
                0 <= p < n && 0 <= q < n && (p >= i || q < p) ==> #[trigger] eqns.entry(p, q)
                    == old(eqns).entry(p, q),
            forall|p: int|
                0 <= p < i ==> denotes(
                    plus(value(old(eqns).b@[p]), times(value(buffer@[p]), value(val))),
                    #[trigger] eqns.b@[p],
                ),
            forall|p: int| i <= p < n ==> eqns.b@[p] == old(eqns).b@[p],
        decreases n - i,
    {
        let buffer_i = Term::of(buffer[i]);
        let mut j: usize = i;
        while j < n
            invariant
                i < n,
                i <= j <= n,
                n <= buffer.len(),
                buffer_i@ == value(buffer@[i as int]),
                eqns.wf(),
                eqns.n == n,
                n == old(eqns).n,
                eqns.x@ == old(eqns).x@,
                forall|p: int, q: int|
                    0 <= p <= q < n && (p < i || (p == i && q < j)) ==> denotes(
                        plus(
                            value(old(eqns).entry(p, q)),
                            times(value(buffer@[p]), value(buffer@[q])),
                        ),
                        #[trigger] eqns.entry(p, q),
                    ),
                forall|p: int, q: int|
                    0 <= p < n && 0 <= q < n && (p > i || (p == i && q >= j) || q < p)
                        ==> #[trigger] eqns.entry(p, q) == old(eqns).entry(p, q),
                forall|p: int|
                    0 <= p < i ==> denotes(
                        plus(value(old(eqns).b@[p]), times(value(buffer@[p]), value(val))),
                        #[trigger] eqns.b@[p],
                    ),
                forall|p: int| i <= p < n ==> eqns.b@[p] == old(eqns).b@[p],
            decreases n - j,
        {
            proof {
                lemma_cell_bound(n as int, n as int, i as int, j as int);
            }
            let ghost before = *eqns;
            assert(before.entry(i as int, j as int) == old(eqns).entry(i as int, j as int));
            let product = buffer_i.times(&Term::of(buffer[j]));
            let sum = Term::of(eqns.a[i * n + j]).plus(&product);
            eqns.a[i * n + j] = sum.get();
            proof {
                assert(denotes(sum@, eqns.entry(i as int, j as int)));
                assert forall|p: int, q: int|
                    0 <= p < n && 0 <= q < n && (p != i || q != j) implies #[trigger] eqns.entry(
                    p,
                    q,
                ) == before.entry(p, q) by {
                    lemma_cell_bound(n as int, n as int, p, q);
                    if cell(n as int, p, q) == cell(n as int, i as int, j as int) {
                        lemma_cell_injective(n as int, p, q, i as int, j as int);
                    }
                }
            }
            j = j + 1;
        }
        let ghost row_done = *eqns;
        eqns.b[i] = Term::of(eqns.b[i]).plus(&buffer_i.times(&Term::of(val))).get();
        assert(forall|p: int, q: int| #[trigger] eqns.entry(p, q) == row_done.entry(p, q));
        i = i + 1;
    }
}

/// Whether `post` is `pre` with all entries multiplied by `scale`; the solution is kept.
pub open spec fn is_scaled<T: Scalar>(
    pre: EquationSystem<T>,
    scale: T,
    post: EquationSystem<T>,
) -> bool {
    &&& post.wf()
    &&& post.n == pre.n
    &&& post.x@ == pre.x@
    &&& forall|k: int|
        0 <= k < pre.a.len() ==> denotes(
            times(value(pre.a@[k]), value(scale)),
            #[trigger] post.a@[k],
        )
    &&& forall|k: int|
        0 <= k < pre.b.len() ==> denotes(
            times(value(pre.b@[k]), value(scale)),
            #[trigger] post.b@[k],
        )
}

/// Multiplies all entries of the system by `scale`; the solution is kept.
pub fn scale_equation_system<T: Scalar>(eqns: &mut EquationSystem<T>, scale: T)
    requires
        old(eqns).wf(),
    ensures
        is_scaled(*old(eqns), scale, *final(eqns)),
{
    scale_entries(&mut eqns.a, scale);
    scale_entries(&mut eqns.b, scale);
}

/// Whether `post` is `pre` with observation number `k - 1` added.
pub open spec fn run_step<T: Scalar>(
    rows: Seq<Seq<T>>,
    vals: Seq<T>,
    k: int,
    pre: EquationSystem<T>,
    post: EquationSystem<T>,
) -> bool {
    is_observed(pre, rows[k - 1], vals[k - 1], post)
}

/// Whether `s` is `start` with the first `k` observations added, one after the other.
pub open spec fn is_observation_run<T: Scalar>(
    start: EquationSystem<T>,
    rows: Seq<Seq<T>>,
    vals: Seq<T>,
    k: int,
    s: EquationSystem<T>,
) -> bool
    decreases k,
{
    if k <= 0 {
        s == start
    } else {
        exists|mid: EquationSystem<T>|
            {
                &&& is_observation_run(start, rows, vals, k - 1, mid)
                &&& #[trigger] run_step(rows, vals, k, mid, s)
            }
    }
}

/// The products of entries `i` and `j` of the first `k` rows.
pub open spec fn product_terms<T>(rows: Seq<Seq<T>>, i: int, j: int, k: int) -> Seq<Formula<T>> {
    Seq::new(k as nat, |m: int| times(value(rows[m][i]), value(rows[m][j])))
}

/// The products of entry `i` of the first `k` rows and the value that goes with the row.
pub open spec fn rhs_terms<T>(
    rows: Seq<Seq<T>>,
    vals: Seq<T>,
    i: int,
    k: int,
) -> Seq<Formula<T>> {
    Seq::new(k as nat, |m: int| times(value(rows[m][i]), value(vals[m])))
}

/// What a run of observations leaves in an empty system.
proof fn lemma_observation_run<T: Scalar>(
    start: EquationSystem<T>,
    rows: Seq<Seq<T>>,
    vals: Seq<T>,
    k: int,
    s: EquationSystem<T>,
)
    requires
        is_cleared(start),
        0 <= k,
        is_observation_run(start, rows, vals, k, s),
    ensures
        s.wf(),
        s.n == start.n,
        s.x@ == start.x@,
        forall|i: int, j: int|
            0 <= i <= j < s.n ==> denotes(
                total(count(0), product_terms(rows, i, j, k)),
                #[trigger] s.entry(i, j),
            ),
        forall|i: int, j: int|
            0 <= j < i < s.n ==> #[trigger] s.entry(i, j) == start.entry(i, j),
        forall|i: int|
            0 <= i < s.n ==> denotes(
                total(count(0), rhs_terms(rows, vals, i, k)),
                #[trigger] s.b@[i],
            ),
    decreases k,
{
    let n = start.n as int;
    if k == 0 {
        assert forall|i: int, j: int| 0 <= i <= j < n implies denotes(
            total(count(0), product_terms(rows, i, j, k)),
            #[trigger] s.entry(i, j),
        ) by {
            lemma_cell_bound(n, n, i, j);
            assert(is_zero(s.a@[cell(n, i, j)]));
        }
    } else {
        let mid = choose|mid: EquationSystem<T>|
            {
                &&& is_observation_run(start, rows, vals, k - 1, mid)
                &&& #[trigger] run_step(rows, vals, k, mid, s)
            };
        lemma_observation_run(start, rows, vals, k - 1, mid);
        assert forall|i: int, j: int| 0 <= i <= j < n implies denotes(
            total(count(0), product_terms(rows, i, j, k)),
            #[trigger] s.entry(i, j),
        ) by {
            let before = product_terms(rows, i, j, k - 1);
            let term = times(value(rows[k - 1][i]), value(rows[k - 1][j]));
            assert(before.push(term) =~= product_terms(rows, i, j, k));
            lemma_total_push(count(0), before, term);
            assert(denotes(total(count(0), before), mid.entry(i, j)));
            law_substitution(
                BinaryOp::Plus,
                total(count(0), before),
                mid.entry(i, j),
                term,
                s.entry(i, j),
            );
        }
        assert forall|i: int| 0 <= i < n implies denotes(
            total(count(0), rhs_terms(rows, vals, i, k)),
            #[trigger] s.b@[i],
        ) by {
            let before = rhs_terms(rows, vals, i, k - 1);
            let term = times(value(rows[k - 1][i]), value(vals[k - 1]));
            assert(before.push(term) =~= rhs_terms(rows, vals, i, k));
            lemma_total_push(count(0), before, term);
            assert(denotes(total(count(0), before), mid.b@[i]));
            law_substitution(
                BinaryOp::Plus,
                total(count(0), before),
                mid.b@[i],
                term,
                s.b@[i],
            );
        }
    }
}

/// A run of observations in an empty system, mirrored, leaves in each cell the sum of the
/// products of the two entries, and on the right-hand side the sum of the products with the
/// values, both added up in the order of the observations. The solution is not touched.
pub proof fn law_observed_products<T: Scalar>(
    start: EquationSystem<T>,
    rows: Seq<Seq<T>>,
    vals: Seq<T>,
    s: EquationSystem<T>,
    post: EquationSystem<T>,
)
    requires
        is_cleared(start),
        is_observation_run(start, rows, vals, rows.len() as int, s),
        is_mirrored(s, post),
    ensures
        post.n == start.n,
        post.x@ == start.x@,
        forall|i: int, j: int|
            0 <= i <= j < post.n ==> denotes(
                total(count(0), product_terms(rows, i, j, rows.len() as int)),
                #[trigger] post.entry(i, j),
            ),
        forall|i: int, j: int|
            0 <= j < i < post.n ==> #[trigger] post.entry(i, j) == post.entry(j, i),
        forall|i: int|
            0 <= i < post.n ==> denotes(
                total(count(0), rhs_terms(rows, vals, i, rows.len() as int)),
                #[trigger] post.b@[i],
            ),
{
    lemma_observation_run(start, rows, vals, rows.len() as int, s);
    assert forall|i: int, j: int| 0 <= i <= j < post.n implies denotes(
        total(count(0), product_terms(rows, i, j, rows.len() as int)),
        #[trigger] post.entry(i, j),
    ) by {
        assert(post.entry(i, j) == s.entry(i, j));
    }
    assert forall|i: int, j: int| 0 <= j < i < post.n implies #[trigger] post.entry(i, j)
        == post.entry(j, i) by {
        assert(post.entry(j, i) == s.entry(j, i));
    }
}

} // verus!
