//! Number types that calculate exactly.
//!
//! What a formula is worth as a real number is what its outcome is worth, if the number
//! type does not round. Laws of the algorithms that hold up to rounding are stated for such
//! types, without the rounding.
use crate::scalar::{
    below_gives, binary_gives, byte_gives, clamped_gives, count, count_gives, denotes, index_gives,
    mul_add_gives, plus, ratio_gives, total, unary_gives, BinaryOp, Formula, Scalar, UnaryOp,
};
use vstd::prelude::*;

verus! {

/// The larger of two real numbers.
pub open spec fn larger(x: real, y: real) -> real {
    if x <= y {
        y
    } else {
        x
    }
}

/// The smaller of two real numbers.
pub open spec fn smaller(x: real, y: real) -> real {
    if x <= y {
        x
    } else {
        y
    }
}

/// The magnitude of a real number.
pub open spec fn magnitude(x: real) -> real {
    if x < 0real {
        -x
    } else {
        x
    }
}

/// `x`, moved into the range from `low` to `high`.
pub open spec fn within(x: real, low: real, high: real) -> real {
    if x < low {
        low
    } else if x > high {
        high
    } else {
        x
    }
}

/// Whether `i` is the largest integer that is not above `x`.
pub open spec fn is_floor(x: real, i: int) -> bool {
    i as real <= x && x < i as real + 1real
}

/// Whether `r` is the square root of `x`.
pub open spec fn is_root(x: real, r: real) -> bool {
    r >= 0real && r * r == x
}

/// The largest integer that is not above `x`.
pub open spec fn whole(x: real) -> int {
    choose|i: int| is_floor(x, i)
}

/// The square root of `x`.
pub open spec fn root(x: real) -> real {
    choose|r: real| is_root(x, r)
}

/// Whether the numbers stand for the real numbers that `v` gives, and the operations,
/// comparisons and conversions are those of the real numbers.
pub open spec fn is_exact<T: Scalar>(v: spec_fn(T) -> real) -> bool {
    &&& forall|n: usize, r: T| #[trigger] count_gives(n, r) ==> v(r) == n as real
    &&& forall|num: i64, den: i64, r: T| #[trigger]
        ratio_gives(num, den, r) && den != 0 ==> v(r) == num as real / den as real
    &&& forall|op: UnaryOp, x: T, r: T| #[trigger]
        unary_gives(op, x, r) ==> match op {
            UnaryOp::Negated => v(r) == -v(x),
            UnaryOp::Absolute => v(r) == magnitude(v(x)),
            UnaryOp::Squared => v(r) == v(x) * v(x),
            UnaryOp::SquareRoot => v(x) >= 0real ==> is_root(v(x), v(r)),
            UnaryOp::Floor => exists|i: int| #[trigger] is_floor(v(x), i) && v(r) == i as real,
            _ => true,
        }
    &&& forall|op: BinaryOp, x: T, y: T, r: T| #[trigger]
        binary_gives(op, x, y, r) ==> match op {
            BinaryOp::Plus => v(r) == v(x) + v(y),
            BinaryOp::Minus => v(r) == v(x) - v(y),
            BinaryOp::Times => v(r) == v(x) * v(y),
            BinaryOp::Over => v(y) != 0real ==> v(r) == v(x) / v(y),
            BinaryOp::Maximum => v(r) == larger(v(x), v(y)),
            BinaryOp::Minimum => v(r) == smaller(v(x), v(y)),
            _ => true,
        }
    &&& forall|x: T, y: T, z: T, r: T| #[trigger]
        mul_add_gives(x, y, z, r) ==> v(r) == v(x) * v(y) + v(z)
    &&& forall|x: T, y: T, z: T, r: T| #[trigger]
        clamped_gives(x, y, z, r) && v(y) <= v(z) ==> v(r) == within(v(x), v(y), v(z))
    &&& forall|x: T, y: T, c: bool| #[trigger] below_gives(x, y, c) ==> c == (v(x) < v(y))
    &&& forall|x: T, i: usize| #[trigger]
        index_gives(x, i) && 0real <= v(x) && v(x) <= usize::MAX as real ==> is_floor(
            v(x),
            i as int,
        )
    &&& forall|x: T, i: u8| #[trigger]
        byte_gives(x, i) && 0real <= v(x) && v(x) < 256real ==> is_floor(v(x), i as int)
}

/// The real number that a formula stands for.
pub open spec fn worth<T>(f: Formula<T>, v: spec_fn(T) -> real) -> real
    decreases f,
{
    match f {
        Formula::Value(x) => v(x),
        Formula::Count(n) => n as real,
        Formula::Ratio(num, den) => num as real / den as real,
        Formula::Unary(op, a) => {
            let x = worth(*a, v);
            match op {
                UnaryOp::Negated => -x,
                UnaryOp::Absolute => magnitude(x),
                UnaryOp::Squared => x * x,
                UnaryOp::SquareRoot => root(x),
                UnaryOp::Floor => whole(x) as real,
                _ => 0real,
            }
        },
        Formula::Binary(op, a, b) => {
            let x = worth(*a, v);
            let y = worth(*b, v);
            match op {
                BinaryOp::Plus => x + y,
                BinaryOp::Minus => x - y,
                BinaryOp::Times => x * y,
                BinaryOp::Over => x / y,
                BinaryOp::Maximum => larger(x, y),
                BinaryOp::Minimum => smaller(x, y),
                _ => 0real,
            }
        },
        Formula::MulAdd(a, b, c) => worth(*a, v) * worth(*b, v) + worth(*c, v),
        Formula::Clamped(a, b, c) => within(worth(*a, v), worth(*b, v), worth(*c, v)),
    }
}

/// Whether a formula stands for a real number: there is no division by zero, no root of a
/// negative number, no empty range, and none of the operations that leave the rational and
/// algebraic numbers.
pub open spec fn is_defined<T>(f: Formula<T>, v: spec_fn(T) -> real) -> bool
    decreases f,
{
    match f {
        Formula::Value(x) => true,
        Formula::Count(n) => true,
        Formula::Ratio(num, den) => den != 0,
        Formula::Unary(op, a) => is_defined(*a, v) && match op {
            UnaryOp::Negated => true,
            UnaryOp::Absolute => true,
            UnaryOp::Squared => true,
            UnaryOp::SquareRoot => worth(*a, v) >= 0real,
            UnaryOp::Floor => true,
            _ => false,
        },
        Formula::Binary(op, a, b) => is_defined(*a, v) && is_defined(*b, v) && match op {
            BinaryOp::Over => worth(*b, v) != 0real,
            BinaryOp::Midpoint => false,
            _ => true,
        },
        Formula::MulAdd(a, b, c) => is_defined(*a, v) && is_defined(*b, v) && is_defined(*c, v),
        Formula::Clamped(a, b, c) => {
            &&& is_defined(*a, v)
            &&& is_defined(*b, v)
            &&& is_defined(*c, v)
            &&& worth(*b, v) <= worth(*c, v)
        },
    }
}

/// A real number has one floor.
pub proof fn lemma_one_floor(x: real, i: int, j: int)
    requires
        is_floor(x, i),
        is_floor(x, j),
    ensures
        i == j,
{
    if i < j {
        assert((i + 1) as real <= j as real);
    } else if j < i {
        assert((j + 1) as real <= i as real);
    }
}

/// A real number has one root.
pub proof fn lemma_one_root(x: real, r: real, s: real)
    requires
        is_root(x, r),
        is_root(x, s),
    ensures
        r == s,
{
    assert(r == s) by (nonlinear_arith)
        requires
            r >= 0real,
            s >= 0real,
            r * r == s * s,
    ;
}

/// The outcome of a formula stands for the real number that the formula stands for.
pub proof fn law_worth<T: Scalar>(f: Formula<T>, v: spec_fn(T) -> real, r: T)
    requires
        is_exact(v),
        is_defined(f, v),
        denotes(f, r),
    ensures
        v(r) == worth(f, v),
    decreases f,
{
    match f {
        Formula::Value(x) => {},
        Formula::Count(n) => {
            assert(count_gives(n, r));
        },
        Formula::Ratio(num, den) => {
            assert(ratio_gives(num, den, r));
        },
        Formula::Unary(op, a) => {
            let x = choose|x: T| denotes(*a, x) && #[trigger] unary_gives(op, x, r);
            law_worth(*a, v, x);
            match op {
                UnaryOp::SquareRoot => {
                    lemma_one_root(v(x), v(r), root(v(x)));
                },
                UnaryOp::Floor => {
                    let i = choose|i: int| #[trigger] is_floor(v(x), i) && v(r) == i as real;
                    lemma_one_floor(v(x), i, whole(v(x)));
                },
                _ => {},
            }
        },
        Formula::Binary(op, a, b) => {
            let (x, y) = choose|x: T, y: T|
                denotes(*a, x) && denotes(*b, y) && #[trigger] binary_gives(op, x, y, r);
            law_worth(*a, v, x);
            law_worth(*b, v, y);
        },
        Formula::MulAdd(a, b, c) => {
            let (x, y, z) = choose|x: T, y: T, z: T|
                denotes(*a, x) && denotes(*b, y) && denotes(*c, z) && #[trigger] mul_add_gives(
                    x,
                    y,
                    z,
                    r,
                );
            law_worth(*a, v, x);
            law_worth(*b, v, y);
            law_worth(*c, v, z);
        },
        Formula::Clamped(a, b, c) => {
            let (x, y, z) = choose|x: T, y: T, z: T|
                denotes(*a, x) && denotes(*b, y) && denotes(*c, z) && #[trigger] clamped_gives(
                    x,
                    y,
                    z,
                    r,
                );
            law_worth(*a, v, x);
            law_worth(*b, v, y);
            law_worth(*c, v, z);
        },
    }
}

/// What a sum is worth without its last term.
pub(crate) proof fn lemma_worth_total<T>(terms: Seq<Formula<T>>, v: spec_fn(T) -> real)
    ensures
        terms.len() > 0 ==> worth(total(count(0), terms), v) == worth(
            total(count(0), terms.drop_last()),
            v,
        ) + worth(terms.last(), v),
        terms.len() > 0 ==> (is_defined(total(count(0), terms), v) <==> is_defined(
            total(count(0), terms.drop_last()),
            v,
        ) && is_defined(terms.last(), v)),
        terms.len() == 0 ==> worth(total(count(0), terms), v) == 0real && is_defined(
            total(count(0), terms),
            v,
        ),
{
    if terms.len() > 0 {
        let f = plus(total(count(0), terms.drop_last()), terms.last());
        assert(total(count(0), terms) == f);
    }
}

} // verus!
