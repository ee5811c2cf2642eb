//! The operations of exact number types that leave the rational numbers or round them.
//!
//! These are asked for beside `is_exact` where a law needs them.
use crate::exact::is_floor;
use crate::scalar::{
    binary_gives, byte_gives, clamped_gives, denotes, mul_add_gives, rank_gives, unary_gives,
    BinaryOp, Formula, Scalar, UnaryOp,
};
use vstd::prelude::*;

verus! {

/// Two to the power of an integer.
pub open spec fn two_to(k: int) -> real
    decreases
            if k < 0 {
                -k
            } else {
                k
            },
{
    if k == 0 {
        1real
    } else if k > 0 {
        2real * two_to(k - 1)
    } else {
        two_to(k + 1) / 2real
    }
}

/// Whether `i` is `x`, cut off towards zero and moved into the range from `low` to `high`.
pub open spec fn is_cut(x: real, low: int, high: int, i: int) -> bool {
    if x >= high as real {
        i == high
    } else if x <= low as real {
        i == low
    } else if x >= 0real {
        is_floor(x, i)
    } else {
        is_floor(-x, -i)
    }
}

/// Whether converting `x` to a signed integer can come out as `i`.
pub open spec fn signed_gives<T: Scalar>(x: T, i: i32) -> bool {
    call_ensures(T::to_signed, (x,), i)
}

/// Whether testing `x >= y` can come out as `c`.
pub open spec fn at_least_gives<T: Scalar>(x: T, y: T, c: bool) -> bool {
    call_ensures(T::at_least, (x, y), c)
}

/// Whether the middle of two numbers is the middle.
pub open spec fn has_middle<T: Scalar>(v: spec_fn(T) -> real) -> bool {
    forall|x: T, y: T, r: T| #[trigger]
        binary_gives(BinaryOp::Midpoint, x, y, r) ==> v(r) == (v(x) + v(y)) / 2real
}

/// Whether numbers are compared as the real numbers they stand for.
pub open spec fn has_order<T: Scalar>(v: spec_fn(T) -> real) -> bool {
    forall|x: T, y: T, c: bool| #[trigger] at_least_gives(x, y, c) ==> c == (v(x) >= v(y))
}

/// Whether numbers are rounded up, rounded to the nearest integer, and cut off to integers,
/// as they should be.
pub open spec fn has_rounding<T: Scalar>(v: spec_fn(T) -> real) -> bool {
    &&& forall|x: T, r: T| #[trigger]
        unary_gives(UnaryOp::Ceil, x, r) ==> exists|i: int| #[trigger]
            is_floor(-v(x), -i) && v(r) == i as real
    &&& forall|x: T, r: T| #[trigger]
        unary_gives(UnaryOp::Round, x, r) ==> exists|i: int| #[trigger]
            is_nearest(v(x), i) && v(r) == i as real
    &&& forall|x: T, i: i32| #[trigger]
        signed_gives(x, i) ==> is_cut(v(x), i32::MIN as int, i32::MAX as int, i as int)
    &&& forall|x: T, i: u8| #[trigger] byte_gives(x, i) ==> is_cut(v(x), 0, 255, i as int)
}

/// Whether no integer is nearer to `x` than `i`.
pub open spec fn is_nearest(x: real, i: int) -> bool {
    i as real - 1real / 2real <= x && x <= i as real + 1real / 2real
}

/// Whether the logarithm of a number lies on the same side of an integer as the number of
/// that power of two. A number that has no logarithm is given a low one.
pub open spec fn has_logarithm<T: Scalar>(v: spec_fn(T) -> real) -> bool {
    &&& forall|x: T, r: T, k: int|
        #![trigger unary_gives(UnaryOp::Log2, x, r), two_to(k)]
        unary_gives(UnaryOp::Log2, x, r) && v(x) > 0real ==> {
            &&& v(r) <= k as real <==> v(x) <= two_to(k)
            &&& v(r) < k as real <==> v(x) < two_to(k)
        }
    &&& forall|x: T, r: T| #[trigger]
        unary_gives(UnaryOp::Log2, x, r) && v(x) <= 0real ==> v(r) <= -4real
}

/// Whether the exponential is positive and grows.
pub open spec fn has_exponential<T: Scalar>(v: spec_fn(T) -> real) -> bool {
    &&& forall|x: T, r: T| #[trigger] unary_gives(UnaryOp::Exponential, x, r) ==> v(r) > 0real
    &&& forall|x: T, y: T, r: T, s: T| #[trigger]
        unary_gives(UnaryOp::Exponential, x, r) && #[trigger] unary_gives(
            UnaryOp::Exponential,
            y,
            s,
        ) && v(x) <= v(y) ==> v(r) <= v(s)
}

/// Whether the keys of numbers that are not negative are ordered as the numbers are.
pub open spec fn has_ranks<T: Scalar>(v: spec_fn(T) -> real) -> bool {
    forall|x: T, y: T, i: u32, j: u32| #[trigger]
        rank_gives(x, i) && #[trigger] rank_gives(y, j) && 0real <= v(x) && v(x) <= v(y) ==> i <= j
}

/// What a product with an addend is made of.
pub proof fn lemma_mul_add_operands<T: Scalar>(
    a: Formula<T>,
    b: Formula<T>,
    c: Formula<T>,
    r: T,
) -> (xyz: (T, T, T))
    requires
        denotes(Formula::MulAdd(Box::new(a), Box::new(b), Box::new(c)), r),
    ensures
        denotes(a, xyz.0),
        denotes(b, xyz.1),
        denotes(c, xyz.2),
        mul_add_gives(xyz.0, xyz.1, xyz.2, r),
{
    choose|x: T, y: T, z: T|
        denotes(a, x) && denotes(b, y) && denotes(c, z) && #[trigger] mul_add_gives(x, y, z, r)
}

/// What a number in a range is made of.
pub proof fn lemma_clamped_operands<T: Scalar>(
    a: Formula<T>,
    b: Formula<T>,
    c: Formula<T>,
    r: T,
) -> (xyz: (T, T, T))
    requires
        denotes(Formula::Clamped(Box::new(a), Box::new(b), Box::new(c)), r),
    ensures
        denotes(a, xyz.0),
        denotes(b, xyz.1),
        denotes(c, xyz.2),
        clamped_gives(xyz.0, xyz.1, xyz.2, r),
{
    choose|x: T, y: T, z: T|
        denotes(a, x) && denotes(b, y) && denotes(c, z) && #[trigger] clamped_gives(x, y, z, r)
}

/// What an operation is applied to.
pub proof fn lemma_operand<T: Scalar>(op: UnaryOp, a: Formula<T>, r: T) -> (x: T)
    requires
        denotes(Formula::Unary(op, Box::new(a)), r),
    ensures
        denotes(a, x),
        unary_gives(op, x, r),
{
    choose|x: T| denotes(a, x) && #[trigger] unary_gives(op, x, r)
}

/// What an operation on two numbers is applied to.
pub proof fn lemma_operands<T: Scalar>(
    op: BinaryOp,
    a: Formula<T>,
    b: Formula<T>,
    r: T,
) -> (xy: (T, T))
    requires
        denotes(Formula::Binary(op, Box::new(a), Box::new(b)), r),
    ensures
        denotes(a, xy.0),
        denotes(b, xy.1),
        binary_gives(op, xy.0, xy.1, r),
{
    choose|x: T, y: T|
        denotes(a, x) && denotes(b, y) && #[trigger] binary_gives(op, x, y, r)
}

} // verus!
