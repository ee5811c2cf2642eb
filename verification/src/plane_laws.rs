//! The plane that is fitted to a block is the best one, when the number type and the routines
//! calculate exactly.
use crate::exact::{is_defined, is_exact, law_worth, worth};
use crate::flat_blocks::{
    is_difference, is_inverse, is_inverse_column, is_normal_matrix, is_plane_fit, is_plane_fitter,
    is_unit, normal_terms, pick, FlatBlockFinder,
};
use crate::kernels::{is_product, linsolve_gives, Kernels};
use crate::matrix::cell;
use crate::scalar::{count, is_zero, minus, times, total, value, Scalar};
use crate::solution_laws::{is_solution, is_sound, product};
use crate::BLOCK_SIZE_SQUARED;
use vstd::prelude::*;

verus! {

/// The first `k` terms of entry `i`, `j` of a product of two matrices, of which the first has
/// `inner` columns and the second `cols`.
pub open spec fn inner_product<T>(
    m1: Seq<T>,
    m2: Seq<T>,
    inner: int,
    cols: int,
    v: spec_fn(T) -> real,
    i: int,
    j: int,
    k: int,
) -> real
    decreases k,
{
    if k <= 0 {
        0real
    } else {
        inner_product(m1, m2, inner, cols, v, i, j, k - 1) + v(m1[i * inner + (k - 1)]) * v(
            m2[(k - 1) * cols + j],
        )
    }
}

/// The entry in row `i`, column `j` of a matrix with `cols` columns.
pub open spec fn entry_at<T>(r: Seq<T>, cols: int, i: int, j: int) -> T {
    r[i * cols + j]
}

/// Whether the product of two matrices is what it should be.
pub open spec fn are_products_exact<T: Kernels>(v: spec_fn(T) -> real) -> bool {
    forall|
        m1: Seq<T>,
        m2: Seq<T>,
        rows: usize,
        inner: usize,
        cols: usize,
        r: Seq<T>,
        i: int,
        j: int,
    |
        0 <= i < rows && 0 <= j < cols && #[trigger] is_product(m1, m2, rows, inner, cols, r)
            ==> v(#[trigger] entry_at(r, cols as int, i, j)) == inner_product(
            m1,
            m2,
            inner as int,
            cols as int,
            v,
            i,
            j,
            inner as int,
        )
}

/// The sum of the first `k` numbers `r`, each times parameter `i` of its position.
pub open spec fn column_sum<T>(
    a: Seq<T>,
    v: spec_fn(T) -> real,
    r: spec_fn(int) -> real,
    i: int,
    k: int,
) -> real
    decreases k,
{
    if k <= 0 {
        0real
    } else {
        column_sum(a, v, r, i, k - 1) + v(a[3 * (k - 1) + i]) * r(k - 1)
    }
}

/// The height at position `k` of the plane with the coefficients `w`.
pub open spec fn height<T>(
    a: Seq<T>,
    v: spec_fn(T) -> real,
    w: (real, real, real),
    k: int,
) -> real {
    v(a[3 * k]) * w.0 + v(a[3 * k + 1]) * w.1 + v(a[3 * k + 2]) * w.2
}

/// What the entries of a sequence are worth.
pub open spec fn worths<T>(s: Seq<T>, v: spec_fn(T) -> real) -> spec_fn(int) -> real {
    |q: int| v(s[q])
}

/// The heights of the plane with the coefficients `w`.
pub open spec fn plane_of<T>(
    a: Seq<T>,
    v: spec_fn(T) -> real,
    w: (real, real, real),
) -> spec_fn(int) -> real {
    |q: int| height(a, v, w, q)
}

/// The sum of the squares of the first `k` numbers.
pub open spec fn square_sum(r: spec_fn(int) -> real, k: int) -> real
    decreases k,
{
    if k <= 0 {
        0real
    } else {
        square_sum(r, k - 1) + r(k - 1) * r(k - 1)
    }
}

/// The product of a row and a column of three.
#[verifier::opaque]
spec fn dot(x: (real, real, real), y: (real, real, real)) -> real {
    x.0 * y.0 + x.1 * y.1 + x.2 * y.2
}

/// The three numbers in row `i` of a matrix.
spec fn row_of<T>(m: Seq<T>, v: spec_fn(T) -> real, i: int) -> (real, real, real) {
    (v(m[3 * i]), v(m[3 * i + 1]), v(m[3 * i + 2]))
}

/// Row `i` of the normal matrix.
spec fn normal_row<T>(a: Seq<T>, v: spec_fn(T) -> real, i: int, k: int) -> (real, real, real) {
    (normal_sum(a, v, i, 0, k), normal_sum(a, v, i, 1, k), normal_sum(a, v, i, 2, k))
}

/// A factor of a sum of products goes to each of them.
proof fn lemma_factor(m: real, a: real, x: real, b: real, y: real, c: real, z: real)
    ensures
        m * (a * x + b * y + c * z) == (m * a) * x + (m * b) * y + (m * c) * z,
{
    let p = a * x;
    let q = b * y;
    let r = c * z;
    assert(m * (p + q + r) == m * p + m * q + m * r) by (nonlinear_arith);
    assert(m * (a * x) == (m * a) * x) by (nonlinear_arith);
    assert(m * (b * y) == (m * b) * y) by (nonlinear_arith);
    assert(m * (c * z) == (m * c) * z) by (nonlinear_arith);
}

/// A sum of three times a number.
proof fn lemma_spread(p: real, q: real, r: real, x: real)
    ensures
        (p + q + r) * x == p * x + q * x + r * x,
        (p + q) * x == p * x + q * x,
{
    assert((p + q + r) * x == p * x + q * x + r * x) by (nonlinear_arith);
    assert((p + q) * x == p * x + q * x) by (nonlinear_arith);
}

/// Two parameters of the first `k` positions, multiplied and added up.
spec fn normal_sum<T>(a: Seq<T>, v: spec_fn(T) -> real, i: int, j: int, k: int) -> real
    decreases k,
{
    if k <= 0 {
        0real
    } else {
        normal_sum(a, v, i, j, k - 1) + v(a[3 * (k - 1) + i]) * v(a[3 * (k - 1) + j])
    }
}

/// What an entry of the normal matrix is worth.
proof fn lemma_normal_entry<T: Scalar>(a: Seq<T>, v: spec_fn(T) -> real, i: int, j: int, k: int)
    requires
        0 <= k,
    ensures
        is_defined(total(count(0), normal_terms(a, i, j, k)), v),
        worth(total(count(0), normal_terms(a, i, j, k)), v) == normal_sum(a, v, i, j, k),
    decreases k,
{
    let terms = normal_terms(a, i, j, k);
    reveal_with_fuel(worth, 4);
    reveal_with_fuel(is_defined, 4);
    if k > 0 {
        lemma_normal_entry(a, v, i, j, k - 1);
        assert(terms.drop_last() =~= normal_terms(a, i, j, k - 1));
        assert(terms.last() == times(value(a[3 * (k - 1) + i]), value(a[3 * (k - 1) + j])));
    }
}

/// An entry of the normal matrix is what it should be.
proof fn lemma_normal_matrix<T: Scalar>(
    a: Seq<T>,
    v: spec_fn(T) -> real,
    m: Seq<T>,
    i: int,
    j: int,
)
    requires
        is_exact(v),
        is_normal_matrix(a, m),
        0 <= i < 3,
        0 <= j < 3,
    ensures
        v(m[3 * i + j]) == normal_sum(a, v, i, j, BLOCK_SIZE_SQUARED as int),
{
    let size = BLOCK_SIZE_SQUARED as int;
    let k = 3 * i + j;
    assert(k / 3 == i && k % 3 == j);
    lemma_normal_entry(a, v, i, j, size);
    law_worth(total(count(0), normal_terms(a, i, j, size)), v, m[k]);
}

/// The column sum of the heights of a plane.
proof fn lemma_column_of_plane<T>(
    a: Seq<T>,
    v: spec_fn(T) -> real,
    w: (real, real, real),
    i: int,
    k: int,
)
    ensures
        column_sum(a, v, plane_of(a, v, w), i, k) == dot(normal_row(a, v, i, k), w),
    decreases k,
{
    reveal(dot);
    let (w0, w1, w2) = w;
    if k > 0 {
        lemma_column_of_plane(a, v, w, i, k - 1);
        let x = v(a[3 * (k - 1) + i]);
        let x0 = v(a[3 * (k - 1)]);
        let x1 = v(a[3 * (k - 1) + 1]);
        let x2 = v(a[3 * (k - 1) + 2]);
        assert(3 * (k - 1) + 0 == 3 * (k - 1));
        let n0 = normal_sum(a, v, i, 0, k - 1);
        let n1 = normal_sum(a, v, i, 1, k - 1);
        let n2 = normal_sum(a, v, i, 2, k - 1);
        lemma_factor(x, x0, w0, x1, w1, x2, w2);
        lemma_spread(n0, x * x0, 0real, w0);
        lemma_spread(n1, x * x1, 0real, w1);
        lemma_spread(n2, x * x2, 0real, w2);
    } else {
        assert(0real * w0 + 0real * w1 + 0real * w2 == 0real) by (nonlinear_arith);
    }
}

/// The column sum of a difference.
proof fn lemma_column_difference<T>(
    a: Seq<T>,
    v: spec_fn(T) -> real,
    x: spec_fn(int) -> real,
    y: spec_fn(int) -> real,
    z: spec_fn(int) -> real,
    i: int,
    k: int,
)
    requires
        forall|q: int| 0 <= q < k ==> #[trigger] z(q) == x(q) - y(q),
    ensures
        column_sum(a, v, z, i, k) == column_sum(a, v, x, i, k) - column_sum(a, v, y, i, k),
    decreases k,
{
    if k > 0 {
        lemma_column_difference(a, v, x, y, z, i, k - 1);
        let e = v(a[3 * (k - 1) + i]);
        let s = x(k - 1);
        let t = y(k - 1);
        assert(z(k - 1) == s - t);
        assert(e * (s - t) == e * s - e * t) by (nonlinear_arith);
    }
}

/// The product of a row of intensities and the positions is a column sum.
proof fn lemma_row_product<T>(
    raw: Seq<T>,
    a: Seq<T>,
    inner: int,
    v: spec_fn(T) -> real,
    j: int,
    k: int,
)
    ensures
        inner_product(raw, a, inner, 3, v, 0, j, k) == column_sum(
            a,
            v,
            worths(raw, v),
            j,
            k,
        ),
    decreases k,
{
    if k > 0 {
        lemma_row_product(raw, a, inner, v, j, k - 1);
        assert(0 * inner + (k - 1) == k - 1);
        let x = v(raw[k - 1]);
        let y = v(a[3 * (k - 1) + j]);
        assert(x * y == y * x) by (nonlinear_arith);
    }
}

/// A row of a matrix, times the product of the inverse and a vector, is the product of the
/// row of the identity and the vector.
proof fn lemma_inverse_row(
    m: (real, real, real),
    n0: (real, real, real),
    n1: (real, real, real),
    n2: (real, real, real),
    c: (real, real, real),
    d: (real, real, real),
)
    requires
        dot(m, (n0.0, n1.0, n2.0)) == d.0,
        dot(m, (n0.1, n1.1, n2.1)) == d.1,
        dot(m, (n0.2, n1.2, n2.2)) == d.2,
    ensures
        dot(m, (dot(n0, c), dot(n1, c), dot(n2, c))) == dot(d, c),
{
    reveal(dot);
    lemma_factor(m.0, n0.0, c.0, n0.1, c.1, n0.2, c.2);
    lemma_factor(m.1, n1.0, c.0, n1.1, c.1, n1.2, c.2);
    lemma_factor(m.2, n2.0, c.0, n2.1, c.1, n2.2, c.2);
    lemma_spread(m.0 * n0.0, m.1 * n1.0, m.2 * n2.0, c.0);
    lemma_spread(m.0 * n0.1, m.1 * n1.1, m.2 * n2.1, c.1);
    lemma_spread(m.0 * n0.2, m.1 * n1.2, m.2 * n2.2, c.2);
}

/// Whether the equations that the inverse of the normal matrix is found by can be solved.
pub open spec fn is_invertible<T: Kernels>(f: FlatBlockFinder<T>) -> bool {
    forall|m: Seq<T>, b: Seq<T>, x: Seq<T>, y: Seq<T>, ok: bool| #[trigger]
        is_normal_matrix(f.a@, m) && #[trigger] linsolve_gives(3, m, b, x, y, ok) ==> ok
}

/// One where the two numbers are the same, and zero elsewhere.
spec fn unit(i: int, j: int) -> real {
    if i == j {
        1real
    } else {
        0real
    }
}

/// A column of the inverse, times the rows of the matrix.
proof fn lemma_inverse_column<T: Kernels>(
    f: FlatBlockFinder<T>,
    v: spec_fn(T) -> real,
    m: Seq<T>,
    t: int,
    x: Seq<T>,
    y: Seq<T>,
)
    requires
        is_exact(v),
        is_sound(v),
        is_invertible(f),
        is_normal_matrix(f.a@, m),
        0 <= t < 3,
        is_inverse_column(m, t, x, y),
    ensures
        forall|i: int|
            0 <= i < 3 ==> #[trigger] unit(i, t) == dot(row_of(m, v, i), row_of(y, v, 0)),
{
    let (b, z, ok) = choose|b: Seq<T>, z: Seq<T>, ok: bool|
        {
            &&& is_unit(b, t)
            &&& #[trigger] linsolve_gives(3, m, b, x, z, ok)
            &&& y == if z.len() == 3 {
                z
            } else {
                x
            }
        };
    assert(ok);
    let found = |k: int| v(z[k]);
    assert(is_solution(m, 3, b, v, found));
    assert forall|i: int| 0 <= i < 3 implies #[trigger] unit(i, t) == dot(
        row_of(m, v, i),
        row_of(y, v, 0),
    ) by {
        reveal(dot);
        reveal_with_fuel(is_defined, 2);
        reveal_with_fuel(worth, 2);
        law_worth(
            count(
                if i == t {
                    1
                } else {
                    0
                },
            ),
            v,
            b[i],
        );
        assert(v(b[i]) == unit(i, t));
        assert(product(m, 3, v, found, i, 3) == v(b[i]));
        reveal_with_fuel(product, 4);
        assert(cell(3, i, 0) == 3 * i);
        assert(cell(3, i, 1) == 3 * i + 1);
        assert(cell(3, i, 2) == 3 * i + 2);
    }
}

/// The height of the fitted plane at a position.
proof fn lemma_fit_height<T: Kernels>(
    a: Seq<T>,
    v: spec_fn(T) -> real,
    p: Seq<T>,
    fit: Seq<T>,
    k: int,
)
    requires
        are_products_exact(v),
        is_product(a, p, BLOCK_SIZE_SQUARED, 3, 1, fit),
        0 <= k < BLOCK_SIZE_SQUARED,
    ensures
        v(fit[k]) == height(a, v, row_of(p, v, 0), k),
{
    assert(entry_at(fit, 1, k, 0) == fit[k]);
    reveal_with_fuel(inner_product, 4);
    assert(k * 3 == 3 * k);
}

/// A coefficient of the fitted plane.
proof fn lemma_coefficient<T: Kernels>(
    inv: Seq<T>,
    v: spec_fn(T) -> real,
    c: Seq<T>,
    p: Seq<T>,
    l: int,
)
    requires
        are_products_exact(v),
        is_product(inv, c, 3, 3, 1, p),
        0 <= l < 3,
    ensures
        v(p[l]) == dot(row_of(inv, v, l), row_of(c, v, 0)),
{
    reveal(dot);
    assert(entry_at(p, 1, l, 0) == p[l]);
    reveal_with_fuel(inner_product, 4);
    assert(l * 3 == 3 * l);
}

/// An entry of the right-hand side of the normal equations.
proof fn lemma_side<T: Kernels>(
    raw: Seq<T>,
    a: Seq<T>,
    v: spec_fn(T) -> real,
    c: Seq<T>,
    j: int,
)
    requires
        are_products_exact(v),
        is_product(raw, a, 1, BLOCK_SIZE_SQUARED, 3, c),
        0 <= j < 3,
    ensures
        v(c[j]) == column_sum(a, v, worths(raw, v), j, BLOCK_SIZE_SQUARED as int),
{
    let size = BLOCK_SIZE_SQUARED as int;
    assert(entry_at(c, 3, 0, j) == c[j]);
    lemma_row_product(raw, a, size, v, j, size);
}

/// A row of the identity picks the entry.
proof fn lemma_unit_row(i: int, c: (real, real, real))
    requires
        0 <= i < 3,
    ensures
        dot((unit(i, 0), unit(i, 1), unit(i, 2)), c) == if i == 0 {
            c.0
        } else if i == 1 {
            c.1
        } else {
            c.2
        },
{
    reveal(dot);
}

/// The rows of the inverse.
proof fn lemma_inverse<T: Kernels>(
    f: FlatBlockFinder<T>,
    v: spec_fn(T) -> real,
    m: Seq<T>,
    i: int,
)
    requires
        is_exact(v),
        is_sound(v),
        is_invertible(f),
        is_normal_matrix(f.a@, m),
        is_inverse(m, f.a_t_a_inv@),
        0 <= i < 3,
    ensures
        ({
            let n0 = row_of(f.a_t_a_inv@, v, 0);
            let n1 = row_of(f.a_t_a_inv@, v, 1);
            let n2 = row_of(f.a_t_a_inv@, v, 2);
            let r = row_of(m, v, i);
            &&& dot(r, (n0.0, n1.0, n2.0)) == unit(i, 0)
            &&& dot(r, (n0.1, n1.1, n2.1)) == unit(i, 1)
            &&& dot(r, (n0.2, n1.2, n2.2)) == unit(i, 2)
        }),
{
    let inv = f.a_t_a_inv@;
    let (x, y0, y1, y2) = choose|x: Seq<T>, y0: Seq<T>, y1: Seq<T>, y2: Seq<T>|
        {
            &&& x.len() == 3
            &&& forall|k: int| 0 <= k < 3 ==> is_zero(#[trigger] x[k])
            &&& #[trigger] is_inverse_column(m, 0, x, y0)
            &&& #[trigger] is_inverse_column(m, 1, y0, y1)
            &&& #[trigger] is_inverse_column(m, 2, y1, y2)
            &&& forall|k: int| 0 <= k < 9 ==> #[trigger] inv[k] == pick(k % 3, y0, y1, y2)[k / 3]
        };
    lemma_inverse_column(f, v, m, 0, x, y0);
    lemma_inverse_column(f, v, m, 1, y0, y1);
    lemma_inverse_column(f, v, m, 2, y1, y2);
    assert(unit(i, 0) == dot(row_of(m, v, i), row_of(y0, v, 0)));
    assert(unit(i, 1) == dot(row_of(m, v, i), row_of(y1, v, 0)));
    assert(unit(i, 2) == dot(row_of(m, v, i), row_of(y2, v, 0)));
    assert(inv[0] == y0[0] && inv[3] == y0[1] && inv[6] == y0[2]);
    assert(inv[1] == y1[0] && inv[4] == y1[1] && inv[7] == y1[2]);
    assert(inv[2] == y2[0] && inv[5] == y2[1] && inv[8] == y2[2]);
}

/// The coefficients of the plane that is fitted to the intensities `raw` solve the normal
/// equations, and its heights are `fit`.
proof fn lemma_fit<T: Kernels>(
    f: FlatBlockFinder<T>,
    v: spec_fn(T) -> real,
    raw: Seq<T>,
    fit: Seq<T>,
) -> (w: (real, real, real))
    requires
        is_exact(v),
        is_sound(v),
        are_products_exact(v),
        is_plane_fitter(f),
        is_invertible(f),
        is_plane_fit(f, raw, fit),
    ensures
        forall|k: int|
            0 <= k < BLOCK_SIZE_SQUARED ==> v(#[trigger] fit[k]) == height(f.a@, v, w, k),
        forall|i: int|
            0 <= i < 3 ==> dot(normal_row(f.a@, v, i, BLOCK_SIZE_SQUARED as int), w)
                == #[trigger] column_sum(
                f.a@,
                v,
                worths(raw, v),
                i,
                BLOCK_SIZE_SQUARED as int,
            ),
{
    let size = BLOCK_SIZE_SQUARED as int;
    let m = choose|m: Seq<T>| #[trigger]
        is_normal_matrix(f.a@, m) && is_inverse(m, f.a_t_a_inv@);
    let inv = f.a_t_a_inv@;
    let (c, p) = choose|c: Seq<T>, p: Seq<T>|
        {
            &&& #[trigger] is_product(raw, f.a@, 1, BLOCK_SIZE_SQUARED, 3, c)
            &&& #[trigger] is_product(inv, c, 3, 3, 1, p)
            &&& is_product(f.a@, p, BLOCK_SIZE_SQUARED, 3, 1, fit)
        };
    let w = row_of(p, v, 0);
    assert forall|k: int| 0 <= k < size implies v(#[trigger] fit[k]) == height(f.a@, v, w, k) by {
        lemma_fit_height(f.a@, v, p, fit, k);
    }
    assert forall|i: int| 0 <= i < 3 implies dot(normal_row(f.a@, v, i, size), w)
        == #[trigger] column_sum(f.a@, v, worths(raw, v), i, size) by {
        let cs = row_of(c, v, 0);
        lemma_coefficient(inv, v, c, p, 0);
        lemma_coefficient(inv, v, c, p, 1);
        lemma_coefficient(inv, v, c, p, 2);
        lemma_inverse(f, v, m, i);
        lemma_normal_matrix(f.a@, v, m, i, 0);
        lemma_normal_matrix(f.a@, v, m, i, 1);
        lemma_normal_matrix(f.a@, v, m, i, 2);
        assert(m[3 * i + 0] == m[3 * i]);
        assert(normal_row(f.a@, v, i, size) == row_of(m, v, i));
        lemma_inverse_row(
            row_of(m, v, i),
            row_of(inv, v, 0),
            row_of(inv, v, 1),
            row_of(inv, v, 2),
            cs,
            (unit(i, 0), unit(i, 1), unit(i, 2)),
        );
        lemma_unit_row(i, cs);
        lemma_side(raw, f.a@, v, c, i);
    }
    w
}

/// Whether `block` is what the intensities `raw` are above the plane with the coefficients `w`.
pub open spec fn is_above_plane<T>(
    a: Seq<T>,
    v: spec_fn(T) -> real,
    raw: Seq<T>,
    w: (real, real, real),
    block: Seq<T>,
) -> bool {
    forall|k: int|
        0 <= k < BLOCK_SIZE_SQUARED ==> v(#[trigger] block[k]) == v(raw[k]) - height(a, v, w, k)
}

/// What is left of a block when the fitted plane is taken off has no slope and no level
/// left: it is what the intensities are above some plane, and its products with the
/// parameters of the positions add up to nothing.
pub proof fn law_nothing_left_of_plane<T: Kernels>(
    f: FlatBlockFinder<T>,
    v: spec_fn(T) -> real,
    raw: Seq<T>,
    fit: Seq<T>,
    block: Seq<T>,
)
    requires
        is_exact(v),
        is_sound(v),
        are_products_exact(v),
        is_plane_fitter(f),
        is_invertible(f),
        is_plane_fit(f, raw, fit),
        is_difference(raw, fit, block),
        block.len() == BLOCK_SIZE_SQUARED,
    ensures
        exists|w: (real, real, real)| is_above_plane(f.a@, v, raw, w, block),
        forall|i: int|
            0 <= i < 3 ==> #[trigger] column_sum(
                f.a@,
                v,
                worths(block, v),
                i,
                BLOCK_SIZE_SQUARED as int,
            ) == 0real,
{
    let size = BLOCK_SIZE_SQUARED as int;
    let w = lemma_fit(f, v, raw, fit);
    let above = worths(raw, v);
    let plane = plane_of(f.a@, v, w);
    let left = worths(block, v);
    assert forall|q: int| 0 <= q < size implies #[trigger] left(q) == above(q) - plane(q) by {
        reveal_with_fuel(is_defined, 2);
        reveal_with_fuel(worth, 2);
        law_worth(minus(value(raw[q]), value(fit[q])), v, block[q]);
        assert(v(fit[q]) == height(f.a@, v, w, q));
    }
    assert forall|k: int| 0 <= k < size implies v(#[trigger] block[k]) == v(raw[k]) - height(
        f.a@,
        v,
        w,
        k,
    ) by {
        assert(left(k) == above(k) - plane(k));
    }
    assert(is_above_plane(f.a@, v, raw, w, block));
    assert forall|i: int| 0 <= i < 3 implies #[trigger] column_sum(f.a@, v, left, i, size)
        == 0real by {
        lemma_column_difference(f.a@, v, above, plane, left, i, size);
        lemma_column_of_plane(f.a@, v, w, i, size);
    }
}

/// The distance of the intensities `raw` from the plane with the coefficients `w`.
pub open spec fn distance_from<T>(
    a: Seq<T>,
    v: spec_fn(T) -> real,
    raw: Seq<T>,
    w: (real, real, real),
) -> spec_fn(int) -> real {
    |q: int| v(raw[q]) - height(a, v, w, q)
}

/// The column sums for all three parameters.
spec fn column_sums<T>(
    a: Seq<T>,
    v: spec_fn(T) -> real,
    r: spec_fn(int) -> real,
    k: int,
) -> (real, real, real) {
    (column_sum(a, v, r, 0, k), column_sum(a, v, r, 1, k), column_sum(a, v, r, 2, k))
}

/// Nothing times anything is nothing.
proof fn lemma_no_product(d: (real, real, real))
    ensures
        dot((0real, 0real, 0real), d) == 0real,
{
    reveal(dot);
}

/// The heights of two planes differ by those of a plane.
proof fn lemma_height_difference<T>(
    a: Seq<T>,
    v: spec_fn(T) -> real,
    p: (real, real, real),
    w: (real, real, real),
    q: int,
)
    ensures
        height(a, v, (p.0 - w.0, p.1 - w.1, p.2 - w.2), q) == height(a, v, p, q) - height(
            a,
            v,
            w,
            q,
        ),
{
    let (x0, x1, x2) = (v(a[3 * q]), v(a[3 * q + 1]), v(a[3 * q + 2]));
    let (p0, p1, p2) = p;
    let (w0, w1, w2) = w;
    assert(x0 * (p0 - w0) == x0 * p0 - x0 * w0) by (nonlinear_arith);
    assert(x1 * (p1 - w1) == x1 * p1 - x1 * w1) by (nonlinear_arith);
    assert(x2 * (p2 - w2) == x2 * p2 - x2 * w2) by (nonlinear_arith);
}

/// The squares of sums with a plane.
proof fn lemma_squares_above<T>(
    a: Seq<T>,
    v: spec_fn(T) -> real,
    r: spec_fn(int) -> real,
    s: spec_fn(int) -> real,
    d: (real, real, real),
    k: int,
)
    requires
        forall|q: int| 0 <= q < k ==> #[trigger] s(q) == r(q) + height(a, v, d, q),
    ensures
        square_sum(s, k) >= square_sum(r, k) + 2real * dot(column_sums(a, v, r, k), d),
    decreases k,
{
    reveal(dot);
    let (d0, d1, d2) = d;
    if k > 0 {
        lemma_squares_above(a, v, r, s, d, k - 1);
        let x0 = v(a[3 * (k - 1)]);
        let x1 = v(a[3 * (k - 1) + 1]);
        let x2 = v(a[3 * (k - 1) + 2]);
        assert(3 * (k - 1) + 0 == 3 * (k - 1));
        let e = r(k - 1);
        let h = height(a, v, d, k - 1);
        let c0 = column_sum(a, v, r, 0, k - 1);
        let c1 = column_sum(a, v, r, 1, k - 1);
        let c2 = column_sum(a, v, r, 2, k - 1);
        assert(s(k - 1) == e + h);
        assert((e + h) * (e + h) >= e * e + 2real * (e * h)) by (nonlinear_arith);
        lemma_factor(e, x0, d0, x1, d1, x2, d2);
        assert(e * x0 == x0 * e) by (nonlinear_arith);
        assert(e * x1 == x1 * e) by (nonlinear_arith);
        assert(e * x2 == x2 * e) by (nonlinear_arith);
        lemma_spread(c0, x0 * e, 0real, d0);
        lemma_spread(c1, x1 * e, 0real, d1);
        lemma_spread(c2, x2 * e, 0real, d2);
    } else {
        assert(0real * d0 + 0real * d1 + 0real * d2 == 0real) by (nonlinear_arith);
    }
}

/// No plane is closer to the intensities of a block than the one that is taken off: the sum
/// of the squares of what is left is not above that for any other plane.
pub proof fn law_fit_is_best<T: Kernels>(
    f: FlatBlockFinder<T>,
    v: spec_fn(T) -> real,
    raw: Seq<T>,
    fit: Seq<T>,
    block: Seq<T>,
    w: (real, real, real),
)
    requires
        is_exact(v),
        is_sound(v),
        are_products_exact(v),
        is_plane_fitter(f),
        is_invertible(f),
        is_plane_fit(f, raw, fit),
        is_difference(raw, fit, block),
        block.len() == BLOCK_SIZE_SQUARED,
    ensures
        square_sum(worths(block, v), BLOCK_SIZE_SQUARED as int) <= square_sum(
            distance_from(f.a@, v, raw, w),
            BLOCK_SIZE_SQUARED as int,
        ),
{
    let size = BLOCK_SIZE_SQUARED as int;
    law_nothing_left_of_plane(f, v, raw, fit, block);
    let p = choose|p: (real, real, real)| is_above_plane(f.a@, v, raw, p, block);
    let r = worths(block, v);
    let s = distance_from(f.a@, v, raw, w);
    let d = (p.0 - w.0, p.1 - w.1, p.2 - w.2);
    assert forall|q: int| 0 <= q < size implies #[trigger] s(q) == r(q) + height(f.a@, v, d, q) by {
        assert(v(block[q]) == v(raw[q]) - height(f.a@, v, p, q));
        lemma_height_difference(f.a@, v, p, w, q);
    }
    lemma_squares_above(f.a@, v, r, s, d, size);
    assert(column_sum(f.a@, v, r, 0, size) == 0real);
    assert(column_sum(f.a@, v, r, 1, size) == 0real);
    assert(column_sum(f.a@, v, r, 2, size) == 0real);
    lemma_no_product(d);
}

} // verus!
