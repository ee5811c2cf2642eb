//! Facts about real numbers.
use vstd::prelude::*;

verus! {

/// A quotient, times what it was divided by.
pub(crate) proof fn lemma_quotient(a: real, d: real)
    requires
        d != 0real,
    ensures
        (a / d) * d == a,
{
    assert((a / d) * d == a) by (nonlinear_arith)
        requires
            d != 0real,
    ;
}

/// What times a number gives another is their quotient.
pub(crate) proof fn lemma_is_quotient(a: real, d: real, q: real)
    requires
        d != 0real,
        q * d == a,
    ensures
        a / d == q,
{
    lemma_quotient(a, d);
    let p = a / d;
    assert(p == q) by (nonlinear_arith)
        requires
            p * d == q * d,
            d != 0real,
    ;
}

/// Factors can be exchanged.
pub(crate) proof fn lemma_exchange(a: real, b: real, c: real)
    ensures
        a * b == b * a,
        a * (b * c) == b * (a * c),
        (a * b) * c == a * (b * c),
{
    assert(a * b == b * a) by (nonlinear_arith);
    assert(a * (b * c) == b * (a * c)) by (nonlinear_arith);
    assert((a * b) * c == a * (b * c)) by (nonlinear_arith);
}

/// Multiplication distributes.
pub(crate) proof fn lemma_distribute(a: real, b: real, c: real)
    ensures
        a * (b + c) == a * b + a * c,
        a * (b - c) == a * b - a * c,
        (b + c) * a == b * a + c * a,
        (b - c) * a == b * a - c * a,
{
    assert(a * (b + c) == a * b + a * c) by (nonlinear_arith);
    assert(a * (b - c) == a * b - a * c) by (nonlinear_arith);
    assert((b + c) * a == b * a + c * a) by (nonlinear_arith);
    assert((b - c) * a == b * a - c * a) by (nonlinear_arith);
}

/// A positive factor keeps the order.
pub(crate) proof fn lemma_order(u: real, a: real, b: real)
    requires
        u > 0real,
    ensures
        u * a < u * b <==> a < b,
{
    assert(u * a < u * b <==> a < b) by (nonlinear_arith)
        requires
            u > 0real,
    ;
}

/// A product with zero.
pub(crate) proof fn lemma_nothing(a: real)
    ensures
        a * 0real == 0real,
        0real * a == 0real,
{
    assert(a * 0real == 0real) by (nonlinear_arith);
    assert(0real * a == 0real) by (nonlinear_arith);
}

/// A quotient of sums.
pub(crate) proof fn lemma_split_quotient(a: real, b: real, d: real)
    requires
        d != 0real,
    ensures
        (a + b) / d == a / d + b / d,
        (a - b) / d == a / d - b / d,
{
    let (p, q) = (a / d, b / d);
    lemma_quotient(a, d);
    lemma_quotient(b, d);
    lemma_distribute(d, p, q);
    lemma_is_quotient(a + b, d, p + q);
    lemma_is_quotient(a - b, d, p - q);
}

/// A factor of what is divided is one of the quotient.
pub(crate) proof fn lemma_factor_quotient(a: real, b: real, d: real)
    requires
        d != 0real,
    ensures
        (a * b) / d == (a / d) * b,
        (a * b) / d == a * (b / d),
{
    let (p, q) = (a / d, b / d);
    lemma_quotient(a, d);
    lemma_quotient(b, d);
    lemma_exchange(p, b, d);
    lemma_exchange(b, p, d);
    lemma_exchange(a, b, d);
    lemma_is_quotient(a * b, d, p * b);
    lemma_exchange(a, q, d);
    lemma_is_quotient(a * b, d, a * q);
}

/// The part that a number has in a larger one.
pub(crate) proof fn lemma_part(x: real, m: real)
    requires
        0real <= x,
        x <= m,
        m > 0real,
    ensures
        0real <= x / m,
        x / m <= 1real,
        m * (x / m) == x,
        (m * ((x / m) * 255real)) / 255real == x,
{
    let q = x / m;
    lemma_quotient(x, m);
    lemma_exchange(m, q, 255real);
    lemma_nothing(m);
    lemma_order(m, q, 0real);
    lemma_order(m, 1real, q);
    assert(m * 1real == m) by (nonlinear_arith);
    lemma_is_quotient(x * 255real, 255real, x);
}

/// A share of 255 is as many units as there are parts.
pub(crate) proof fn lemma_units(x: real, m: real)
    requires
        m > 0real,
    ensures
        (x / m) * 255real == (255real / m) * x,
        255real / m > 0real,
{
    let (p, u) = (x / m, 255real / m);
    lemma_quotient(x, m);
    lemma_quotient(255real, m);
    lemma_exchange(p, u, m);
    lemma_exchange(u, p, m);
    lemma_exchange(u, m, 1real);
    lemma_nothing(m);
    lemma_order(m, 0real, u);
}

/// Numbers at even distances.
pub(crate) proof fn lemma_even(u: real, x: real, y: real, z: real)
    requires
        u > 0real,
        x < y,
    ensures
        u * z < u * x <==> z < x,
        u * z >= u * y <==> z >= y,
        u * y - u * x > 0real,
        (u * z - u * x) / (u * y - u * x) == (z - x) / (y - x),
{
    lemma_order(u, z, x);
    lemma_order(u, z, y);
    lemma_order(u, x, y);
    let (p, q) = (z - x, y - x);
    lemma_distribute(u, z, x);
    lemma_distribute(u, y, x);
    let t = p / q;
    lemma_quotient(p, q);
    lemma_exchange(u, t, q);
    lemma_is_quotient(u * p, u * q, t);
}

/// A point of a line, by the shares of its ends.
pub(crate) proof fn lemma_between(p: real, q: real, e: real, d: real)
    requires
        d > 0real,
    ensures
        p * (1real - e / d) + q * (e / d) == ((d - e) * p + e * q) / d,
{
    let r = d - e;
    let (u, w) = (r / d, e / d);
    lemma_split_quotient(d, e, d);
    lemma_is_quotient(d, d, 1real);
    assert(1real * d == d) by (nonlinear_arith);
    assert(u == 1real - w);
    lemma_factor_quotient(r, p, d);
    lemma_factor_quotient(e, q, d);
    lemma_split_quotient(r * p, e * q, d);
    lemma_exchange(p, u, 1real);
    lemma_exchange(q, w, 1real);
}

/// A point of a straight line is the one between two others.
pub(crate) proof fn lemma_on_line(level: real, slope: real, x: real, y: real, z: real)
    requires
        x < y,
    ensures
        ((y - z) * (level + slope * x) + (z - x) * (level + slope * y)) / (y - x) == level + slope
            * z,
{
    let (e, r, d) = (z - x, y - z, y - x);
    let (sx, sy, sz) = (slope * x, slope * y, slope * z);
    lemma_distribute(r, level, sx);
    lemma_distribute(e, level, sy);
    lemma_distribute(d, level, sz);
    lemma_distribute(level, r, e);
    assert(r * (slope * x) + e * (slope * y) == slope * (r * x + e * y)) by {
        lemma_exchange(r, slope, x);
        lemma_exchange(e, slope, y);
        lemma_distribute(slope, r * x, e * y);
    }
    assert(r * x + e * y == d * z) by {
        lemma_distribute(x, y, z);
        lemma_distribute(y, z, x);
        lemma_distribute(z, y, x);
        lemma_exchange(x, y, 1real);
    }
    lemma_exchange(slope, d, z);
    let w = level + sz;
    lemma_exchange(w, d, 1real);
    lemma_is_quotient(d * w, d, w);
}

/// Whether a quotient is above a number.
pub(crate) proof fn lemma_above(t: real, e: real, d: real)
    requires
        d > 0real,
    ensures
        t < e / d <==> t * d < e,
{
    let q = e / d;
    lemma_quotient(e, d);
    lemma_order(d, t, q);
    lemma_exchange(d, t, 1real);
    lemma_exchange(d, q, 1real);
}

/// Dividing twice.
pub(crate) proof fn lemma_divided_twice(a: real, n: real, k: real)
    requires
        n > 0real,
        k > 0real,
    ensures
        (a / n) / k == a / (n * k),
{
    let p = a / n;
    let q = p / k;
    lemma_quotient(a, n);
    lemma_quotient(p, k);
    lemma_exchange(q, k, n);
    lemma_exchange(n, k, 1real);
    lemma_order(n, 0real, k);
    lemma_nothing(n);
    lemma_is_quotient(a, n * k, q);
}

/// A quotient of a number and a positive one, compared with zero and one.
pub(crate) proof fn lemma_sizes(a: real, d: real)
    requires
        d > 0real,
    ensures
        (a / d) * d == a,
        a >= 0real ==> a / d >= 0real,
        a <= d ==> a / d <= 1real,
        a >= d ==> a / d >= 1real,
        a == 0real ==> a / d == 0real,
{
    let q = a / d;
    lemma_quotient(a, d);
    lemma_exchange(q, d, 1real);
    lemma_nothing(d);
    assert(d * 1real == d) by (nonlinear_arith);
    lemma_order(d, q, 0real);
    lemma_order(d, 1real, q);
    lemma_order(d, q, 1real);
    if a == 0real {
        lemma_is_quotient(0real, d, 0real);
    }
}

/// The side of one that a root lies on is that of the square.
pub(crate) proof fn lemma_root_of_one(q: real)
    requires
        q >= 0real,
    ensures
        q * q <= 1real ==> q <= 1real,
        q * q >= 1real ==> q >= 1real,
{
    assert(q * q <= 1real ==> q <= 1real) by (nonlinear_arith)
        requires
            q >= 0real,
    ;
    assert(q * q >= 1real ==> q >= 1real) by (nonlinear_arith)
        requires
            q >= 0real,
    ;
}

/// A number times its opposite.
pub(crate) proof fn lemma_opposite(p: real)
    ensures
        p * (-p) == -(p * p),
{
    assert(p * (-p) == -(p * p)) by (nonlinear_arith);
}

} // verus!
