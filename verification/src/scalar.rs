//! Real-number arithmetic as the solver sees it.
//!
//! A [`Scalar`] is any number type with the operations below. Nothing is assumed of
//! what they return. A contract that speaks of a computed number names the
//! [`Formula`] it was computed by: `denotes(f, r)` says that `r` is what the
//! operations of the scalar type give when `f` is worked out, innermost first.
use vstd::prelude::*;

verus! {

/// A number type that the solver can calculate with.
pub trait Scalar: Copy {
    /// The number `n`.
    fn from_count(n: usize) -> Self;

    /// The number closest to `num / den`.
    fn from_ratio(num: i64, den: i64) -> Self;

    /// `self + rhs`
    fn plus(self, rhs: Self) -> Self;

    /// `self - rhs`
    fn minus(self, rhs: Self) -> Self;

    /// `self * rhs`
    fn times(self, rhs: Self) -> Self;

    /// `self / rhs`
    fn over(self, rhs: Self) -> Self;

    /// `self * factor + addend`, rounded once.
    fn mul_add(self, factor: Self, addend: Self) -> Self;

    /// The larger of the two numbers.
    fn maximum(self, rhs: Self) -> Self;

    /// The smaller of the two numbers.
    fn minimum(self, rhs: Self) -> Self;

    /// The number half way between the two.
    fn midpoint(self, rhs: Self) -> Self;

    /// `self`, moved into the range from `low` to `high`.
    fn clamped(self, low: Self, high: Self) -> Self;

    /// `-self`
    fn negated(self) -> Self;

    /// The magnitude of `self`.
    fn absolute(self) -> Self;

    /// `self * self`
    fn squared(self) -> Self;

    /// The square root of `self`.
    fn square_root(self) -> Self;

    /// The exponential of `self`.
    fn exponential(self) -> Self;

    /// The logarithm of `self` to base two.
    fn log2(self) -> Self;

    /// The largest integer that is not above `self`.
    fn floor(self) -> Self;

    /// The smallest integer that is not below `self`.
    fn ceil(self) -> Self;

    /// The integer closest to `self`.
    fn round(self) -> Self;

    /// `self < rhs`
    fn below(self, rhs: Self) -> bool;

    /// `self >= rhs`
    fn at_least(self, rhs: Self) -> bool;

    /// The integer part of `self`, kept in the range of `usize`.
    fn to_index(self) -> usize;

    /// The integer part of `self`, kept in the range of `u8`.
    fn to_byte(self) -> u8;

    /// The integer part of `self`, kept in the range of `i32`.
    fn to_signed(self) -> i32;

    /// A key that orders non-negative single-precision numbers as the numbers do.
    fn to_rank(self) -> u32;
}

/// An operation on one number.
pub enum UnaryOp {
    Negated,
    Absolute,
    Squared,
    SquareRoot,
    Exponential,
    Log2,
    Floor,
    Ceil,
    Round,
}

/// An operation on two numbers.
pub enum BinaryOp {
    Plus,
    Minus,
    Times,
    Over,
    Maximum,
    Minimum,
    Midpoint,
}

/// A calculation over given numbers.
pub enum Formula<T> {
    Value(T),
    Count(usize),
    Ratio(i64, i64),
    Unary(UnaryOp, Box<Formula<T>>),
    Binary(BinaryOp, Box<Formula<T>>, Box<Formula<T>>),
    MulAdd(Box<Formula<T>>, Box<Formula<T>>, Box<Formula<T>>),
    Clamped(Box<Formula<T>>, Box<Formula<T>>, Box<Formula<T>>),
}

/// Whether the scalar's operation `op` can give `r` on `x`.
pub open spec fn unary_gives<T: Scalar>(op: UnaryOp, x: T, r: T) -> bool {
    match op {
        UnaryOp::Negated => call_ensures(T::negated, (x,), r),
        UnaryOp::Absolute => call_ensures(T::absolute, (x,), r),
        UnaryOp::Squared => call_ensures(T::squared, (x,), r),
        UnaryOp::SquareRoot => call_ensures(T::square_root, (x,), r),
        UnaryOp::Exponential => call_ensures(T::exponential, (x,), r),
        UnaryOp::Log2 => call_ensures(T::log2, (x,), r),
        UnaryOp::Floor => call_ensures(T::floor, (x,), r),
        UnaryOp::Ceil => call_ensures(T::ceil, (x,), r),
        UnaryOp::Round => call_ensures(T::round, (x,), r),
    }
}

/// Whether the scalar's operation `op` can give `r` on `x` and `y`.
pub open spec fn binary_gives<T: Scalar>(op: BinaryOp, x: T, y: T, r: T) -> bool {
    match op {
        BinaryOp::Plus => call_ensures(T::plus, (x, y), r),
        BinaryOp::Minus => call_ensures(T::minus, (x, y), r),
        BinaryOp::Times => call_ensures(T::times, (x, y), r),
        BinaryOp::Over => call_ensures(T::over, (x, y), r),
        BinaryOp::Maximum => call_ensures(T::maximum, (x, y), r),
        BinaryOp::Minimum => call_ensures(T::minimum, (x, y), r),
        BinaryOp::Midpoint => call_ensures(T::midpoint, (x, y), r),
    }
}

/// Whether `x * y + z`, rounded once, can come out as `r`.
pub open spec fn mul_add_gives<T: Scalar>(x: T, y: T, z: T, r: T) -> bool {
    call_ensures(T::mul_add, (x, y, z), r)
}

/// Whether moving `x` into the range from `y` to `z` can come out as `r`.
pub open spec fn clamped_gives<T: Scalar>(x: T, y: T, z: T, r: T) -> bool {
    call_ensures(T::clamped, (x, y, z), r)
}

/// Whether the number `n` can come out as `r`.
pub open spec fn count_gives<T: Scalar>(n: usize, r: T) -> bool {
    call_ensures(T::from_count, (n,), r)
}

/// Whether the number closest to `num / den` can come out as `r`.
pub open spec fn ratio_gives<T: Scalar>(num: i64, den: i64, r: T) -> bool {
    call_ensures(T::from_ratio, (num, den), r)
}

/// Whether testing `x < y` can come out as `c`.
pub open spec fn below_gives<T: Scalar>(x: T, y: T, c: bool) -> bool {
    call_ensures(T::below, (x, y), c)
}

/// Whether the integer part of `x` can come out as `i`.
pub open spec fn index_gives<T: Scalar>(x: T, i: usize) -> bool {
    call_ensures(T::to_index, (x,), i)
}

/// Whether the integer part of `x` can come out as the byte `i`.
pub open spec fn byte_gives<T: Scalar>(x: T, i: u8) -> bool {
    call_ensures(T::to_byte, (x,), i)
}

/// Whether the ordering key of `x` can come out as `k`.
pub open spec fn rank_gives<T: Scalar>(x: T, k: u32) -> bool {
    call_ensures(T::to_rank, (x,), k)
}

/// Whether `r` is the outcome of working out `f` with the scalar's operations.
pub open spec fn denotes<T: Scalar>(f: Formula<T>, r: T) -> bool
    decreases f,
{
    match f {
        Formula::Value(v) => r == v,
        Formula::Count(n) => call_ensures(T::from_count, (n,), r),
        Formula::Ratio(num, den) => call_ensures(T::from_ratio, (num, den), r),
        Formula::Unary(op, a) => exists|x: T| denotes(*a, x) && #[trigger] unary_gives(op, x, r),
        Formula::Binary(op, a, b) => exists|x: T, y: T|
            denotes(*a, x) && denotes(*b, y) && #[trigger] binary_gives(op, x, y, r),
        Formula::MulAdd(a, b, c) => exists|x: T, y: T, z: T|
            denotes(*a, x) && denotes(*b, y) && denotes(*c, z) && #[trigger] mul_add_gives(
                x,
                y,
                z,
                r,
            ),
        Formula::Clamped(a, b, c) => exists|x: T, y: T, z: T|
            denotes(*a, x) && denotes(*b, y) && denotes(*c, z) && #[trigger] clamped_gives(
                x,
                y,
                z,
                r,
            ),
    }
}

/// Whether comparing `f < g` can come out as `c`.
pub open spec fn is_below<T: Scalar>(f: Formula<T>, g: Formula<T>, c: bool) -> bool {
    exists|x: T, y: T| #[trigger]
        denotes(f, x) && #[trigger] denotes(g, y) && call_ensures(T::below, (x, y), c)
}

/// Whether comparing `f >= g` can come out as `c`.
pub open spec fn is_at_least<T: Scalar>(f: Formula<T>, g: Formula<T>, c: bool) -> bool {
    exists|x: T, y: T| #[trigger]
        denotes(f, x) && #[trigger] denotes(g, y) && call_ensures(T::at_least, (x, y), c)
}

/// Whether `i` is the outcome of `f` as an index.
pub open spec fn is_index<T: Scalar>(f: Formula<T>, i: usize) -> bool {
    exists|x: T| #[trigger] denotes(f, x) && call_ensures(T::to_index, (x,), i)
}

/// Whether `i` is the outcome of `f` as a byte.
pub open spec fn is_byte<T: Scalar>(f: Formula<T>, i: u8) -> bool {
    exists|x: T| #[trigger] denotes(f, x) && call_ensures(T::to_byte, (x,), i)
}

/// Whether `i` is the outcome of `f` as a signed integer.
pub open spec fn is_signed<T: Scalar>(f: Formula<T>, i: i32) -> bool {
    exists|x: T| #[trigger] denotes(f, x) && call_ensures(T::to_signed, (x,), i)
}

/// Whether `k` is the ordering key of the outcome of `f`.
pub open spec fn is_rank<T: Scalar>(f: Formula<T>, k: u32) -> bool {
    exists|x: T| #[trigger] denotes(f, x) && call_ensures(T::to_rank, (x,), k)
}

pub open spec fn value<T>(v: T) -> Formula<T> {
    Formula::Value(v)
}

pub open spec fn count<T>(n: usize) -> Formula<T> {
    Formula::Count(n)
}

pub open spec fn ratio<T>(num: i64, den: i64) -> Formula<T> {
    Formula::Ratio(num, den)
}

pub open spec fn unary<T>(op: UnaryOp, a: Formula<T>) -> Formula<T> {
    Formula::Unary(op, Box::new(a))
}

pub open spec fn binary<T>(op: BinaryOp, a: Formula<T>, b: Formula<T>) -> Formula<T> {
    Formula::Binary(op, Box::new(a), Box::new(b))
}

pub open spec fn plus<T>(a: Formula<T>, b: Formula<T>) -> Formula<T> {
    binary(BinaryOp::Plus, a, b)
}

pub open spec fn minus<T>(a: Formula<T>, b: Formula<T>) -> Formula<T> {
    binary(BinaryOp::Minus, a, b)
}

pub open spec fn times<T>(a: Formula<T>, b: Formula<T>) -> Formula<T> {
    binary(BinaryOp::Times, a, b)
}

pub open spec fn over<T>(a: Formula<T>, b: Formula<T>) -> Formula<T> {
    binary(BinaryOp::Over, a, b)
}

pub open spec fn maximum<T>(a: Formula<T>, b: Formula<T>) -> Formula<T> {
    binary(BinaryOp::Maximum, a, b)
}

pub open spec fn minimum<T>(a: Formula<T>, b: Formula<T>) -> Formula<T> {
    binary(BinaryOp::Minimum, a, b)
}

pub open spec fn mul_add<T>(a: Formula<T>, b: Formula<T>, c: Formula<T>) -> Formula<T> {
    Formula::MulAdd(Box::new(a), Box::new(b), Box::new(c))
}

pub open spec fn clamped<T>(a: Formula<T>, low: Formula<T>, high: Formula<T>) -> Formula<T> {
    Formula::Clamped(Box::new(a), Box::new(low), Box::new(high))
}

/// `start + terms[0] + terms[1] + ...`, added from the left.
pub open spec fn total<T>(start: Formula<T>, terms: Seq<Formula<T>>) -> Formula<T>
    decreases terms.len(),
{
    if terms.len() == 0 {
        start
    } else {
        plus(total(start, terms.drop_last()), terms.last())
    }
}

/// Whether `v` is the scalar's zero.
pub open spec fn is_zero<T: Scalar>(v: T) -> bool {
    denotes(count(0), v)
}

/// Whether each entry of `s` is the outcome of the formula at its place in `m`.
pub open spec fn denotes_all<T: Scalar>(m: Seq<Formula<T>>, s: Seq<T>) -> bool {
    &&& m.len() == s.len()
    &&& forall|k: int| 0 <= k < s.len() ==> denotes(#[trigger] m[k], s[k])
}

/// The formulas that just read the entries of `s`.
pub open spec fn values<T>(s: Seq<T>) -> Seq<Formula<T>> {
    s.map_values(|v: T| value(v))
}

/// `total` of one more term is one more addition.
pub proof fn lemma_total_push<T>(start: Formula<T>, terms: Seq<Formula<T>>, term: Formula<T>)
    ensures
        total(start, terms.push(term)) == plus(total(start, terms), term),
{
    assert(terms.push(term).drop_last() =~= terms);
}

proof fn lemma_unary<T: Scalar>(op: UnaryOp, a: Formula<T>, x: T, r: T)
    requires
        denotes(a, x),
        unary_gives(op, x, r),
    ensures
        denotes(unary(op, a), r),
{
}

proof fn lemma_binary<T: Scalar>(op: BinaryOp, a: Formula<T>, b: Formula<T>, x: T, y: T, r: T)
    requires
        denotes(a, x),
        denotes(b, y),
        binary_gives(op, x, y, r),
    ensures
        denotes(binary(op, a, b), r),
{
}

proof fn lemma_mul_add<T: Scalar>(
    a: Formula<T>,
    b: Formula<T>,
    c: Formula<T>,
    x: T,
    y: T,
    z: T,
    r: T,
)
    requires
        denotes(a, x),
        denotes(b, y),
        denotes(c, z),
        mul_add_gives(x, y, z, r),
    ensures
        denotes(mul_add(a, b, c), r),
{
}

proof fn lemma_clamped<T: Scalar>(
    a: Formula<T>,
    b: Formula<T>,
    c: Formula<T>,
    x: T,
    y: T,
    z: T,
    r: T,
)
    requires
        denotes(a, x),
        denotes(b, y),
        denotes(c, z),
        clamped_gives(x, y, z, r),
    ensures
        denotes(clamped(a, b, c), r),
{
}

/// An operand may be replaced by the formula that it was worked out by.
pub proof fn law_substitution<T: Scalar>(
    op: BinaryOp,
    f: Formula<T>,
    v: T,
    g: Formula<T>,
    r: T,
)
    requires
        denotes(f, v),
        denotes(binary(op, value(v), g), r),
    ensures
        denotes(binary(op, f, g), r),
{
    let (x, y) = choose|x: T, y: T|
        denotes(value(v), x) && denotes(g, y) && #[trigger] binary_gives(op, x, y, r);
    lemma_binary(op, f, g, v, y, r);
}

/// Whether every operation of the number type has one outcome.
pub open spec fn has_one_outcome<T: Scalar>() -> bool {
    &&& forall|n: usize, r: T, q: T| #[trigger]
        count_gives(n, r) && #[trigger] count_gives(n, q) ==> r == q
    &&& forall|num: i64, den: i64, r: T, q: T| #[trigger]
        ratio_gives(num, den, r) && #[trigger] ratio_gives(num, den, q) ==> r == q
    &&& forall|op: UnaryOp, x: T, r: T, q: T| #[trigger]
        unary_gives(op, x, r) && #[trigger] unary_gives(op, x, q) ==> r == q
    &&& forall|op: BinaryOp, x: T, y: T, r: T, q: T| #[trigger]
        binary_gives(op, x, y, r) && #[trigger] binary_gives(op, x, y, q) ==> r == q
    &&& forall|x: T, y: T, z: T, r: T, q: T| #[trigger]
        mul_add_gives(x, y, z, r) && #[trigger] mul_add_gives(x, y, z, q) ==> r == q
    &&& forall|x: T, y: T, z: T, r: T, q: T| #[trigger]
        clamped_gives(x, y, z, r) && #[trigger] clamped_gives(x, y, z, q) ==> r == q
}

/// Whether comparing, ranking and indexing have one outcome.
pub open spec fn has_one_verdict<T: Scalar>() -> bool {
    &&& forall|x: T, y: T, c: bool, d: bool| #[trigger]
        below_gives(x, y, c) && #[trigger] below_gives(x, y, d) ==> c == d
    &&& forall|x: T, i: u32, j: u32| #[trigger]
        rank_gives(x, i) && #[trigger] rank_gives(x, j) ==> i == j
    &&& forall|x: T, i: usize, j: usize| #[trigger]
        index_gives(x, i) && #[trigger] index_gives(x, j) ==> i == j
}

/// Where every operation of the number type has one outcome, so has every formula.
pub proof fn law_one_outcome<T: Scalar>(f: Formula<T>, r: T, q: T)
    requires
        has_one_outcome::<T>(),
        denotes(f, r),
        denotes(f, q),
    ensures
        r == q,
    decreases f,
{
    match f {
        Formula::Value(v) => {},
        Formula::Count(n) => {
            assert(count_gives(n, r) && count_gives(n, q));
        },
        Formula::Ratio(num, den) => {
            assert(ratio_gives(num, den, r) && ratio_gives(num, den, q));
        },
        Formula::Unary(op, a) => {
            let x = choose|x: T| denotes(*a, x) && #[trigger] unary_gives(op, x, r);
            let y = choose|y: T| denotes(*a, y) && #[trigger] unary_gives(op, y, q);
            law_one_outcome(*a, x, y);
        },
        Formula::Binary(op, a, b) => {
            let (x1, y1) = choose|x: T, y: T|
                denotes(*a, x) && denotes(*b, y) && #[trigger] binary_gives(op, x, y, r);
            let (x2, y2) = choose|x: T, y: T|
                denotes(*a, x) && denotes(*b, y) && #[trigger] binary_gives(op, x, y, q);
            law_one_outcome(*a, x1, x2);
            law_one_outcome(*b, y1, y2);
        },
        Formula::MulAdd(a, b, c) => {
            let (x1, y1, z1) = choose|x: T, y: T, z: T|
                denotes(*a, x) && denotes(*b, y) && denotes(*c, z) && #[trigger] mul_add_gives(
                    x,
                    y,
                    z,
                    r,
                );
            let (x2, y2, z2) = choose|x: T, y: T, z: T|
                denotes(*a, x) && denotes(*b, y) && denotes(*c, z) && #[trigger] mul_add_gives(
                    x,
                    y,
                    z,
                    q,
                );
            law_one_outcome(*a, x1, x2);
            law_one_outcome(*b, y1, y2);
            law_one_outcome(*c, z1, z2);
        },
        Formula::Clamped(a, b, c) => {
            let (x1, y1, z1) = choose|x: T, y: T, z: T|
                denotes(*a, x) && denotes(*b, y) && denotes(*c, z) && #[trigger] clamped_gives(
                    x,
                    y,
                    z,
                    r,
                );
            let (x2, y2, z2) = choose|x: T, y: T, z: T|
                denotes(*a, x) && denotes(*b, y) && denotes(*c, z) && #[trigger] clamped_gives(
                    x,
                    y,
                    z,
                    q,
                );
            law_one_outcome(*a, x1, x2);
            law_one_outcome(*b, y1, y2);
            law_one_outcome(*c, z1, z2);
        },
    }
}

/// Where every operation and test has one outcome, so have comparisons, ordering keys and
/// indices of formulas.
pub proof fn law_one_verdict<T: Scalar>(f: Formula<T>, g: Formula<T>)
    requires
        has_one_outcome::<T>(),
        has_one_verdict::<T>(),
    ensures
        forall|c: bool, d: bool| #[trigger]
            is_below(f, g, c) && #[trigger] is_below(f, g, d) ==> c == d,
        forall|i: u32, j: u32| #[trigger] is_rank(f, i) && #[trigger] is_rank(f, j) ==> i == j,
        forall|i: usize, j: usize| #[trigger]
            is_index(f, i) && #[trigger] is_index(f, j) ==> i == j,
{
    assert forall|c: bool, d: bool| #[trigger]
        is_below(f, g, c) && #[trigger] is_below(f, g, d) implies c == d by {
        let (x1, y1) = choose|x: T, y: T| #[trigger]
            denotes(f, x) && #[trigger] denotes(g, y) && call_ensures(T::below, (x, y), c);
        let (x2, y2) = choose|x: T, y: T| #[trigger]
            denotes(f, x) && #[trigger] denotes(g, y) && call_ensures(T::below, (x, y), d);
        law_one_outcome(f, x1, x2);
        law_one_outcome(g, y1, y2);
        assert(below_gives(x1, y1, c) && below_gives(x1, y1, d));
    }
    assert forall|i: u32, j: u32| #[trigger] is_rank(f, i) && #[trigger] is_rank(f, j) implies i
        == j by {
        let x1 = choose|x: T| #[trigger] denotes(f, x) && call_ensures(T::to_rank, (x,), i);
        let x2 = choose|x: T| #[trigger] denotes(f, x) && call_ensures(T::to_rank, (x,), j);
        law_one_outcome(f, x1, x2);
        assert(rank_gives(x1, i) && rank_gives(x1, j));
    }
    assert forall|i: usize, j: usize| #[trigger]
        is_index(f, i) && #[trigger] is_index(f, j) implies i == j by {
        let x1 = choose|x: T| #[trigger] denotes(f, x) && call_ensures(T::to_index, (x,), i);
        let x2 = choose|x: T| #[trigger] denotes(f, x) && call_ensures(T::to_index, (x,), j);
        law_one_outcome(f, x1, x2);
        assert(index_gives(x1, i) && index_gives(x1, j));
    }
}

/// A number together with the formula that it was worked out by.
pub(crate) struct Term<T: Scalar> {
    number: T,
    formula: Ghost<Formula<T>>,
}

impl<T: Scalar> View for Term<T> {
    type V = Formula<T>;

    closed spec fn view(&self) -> Formula<T> {
        self.formula@
    }
}

impl<T: Scalar> Term<T> {
    #[verifier::type_invariant]
    spec fn inv(self) -> bool {
        denotes(self.formula@, self.number)
    }

    pub(crate) fn of(number: T) -> (t: Term<T>)
        ensures
            t@ == value(number),
    {
        Term { number, formula: Ghost(value(number)) }
    }

    /// A number that is known to be the outcome of `f`.
    pub(crate) fn known(number: T, Ghost(f): Ghost<Formula<T>>) -> (t: Term<T>)
        requires
            denotes(f, number),
        ensures
            t@ == f,
    {
        Term { number, formula: Ghost(f) }
    }

    pub(crate) fn count(n: usize) -> (t: Term<T>)
        ensures
            t@ == count::<T>(n),
    {
        let number = T::from_count(n);
        Term { number, formula: Ghost(count(n)) }
    }

    pub(crate) fn ratio(num: i64, den: i64) -> (t: Term<T>)
        ensures
            t@ == ratio::<T>(num, den),
    {
        let number = T::from_ratio(num, den);
        Term { number, formula: Ghost(ratio(num, den)) }
    }

    /// The number itself.
    pub(crate) fn get(&self) -> (r: T)
        ensures
            denotes(self@, r),
    {
        proof {
            use_type_invariant(self);
        }
        self.number
    }

    pub(crate) fn plus(&self, rhs: &Term<T>) -> (t: Term<T>)
        ensures
            t@ == plus(self@, rhs@),
    {
        proof {
            use_type_invariant(self);
            use_type_invariant(rhs);
        }
        let number = self.number.plus(rhs.number);
        proof {
            lemma_binary(BinaryOp::Plus, self@, rhs@, self.number, rhs.number, number);
        }
        Term { number, formula: Ghost(plus(self@, rhs@)) }
    }

    pub(crate) fn minus(&self, rhs: &Term<T>) -> (t: Term<T>)
        ensures
            t@ == minus(self@, rhs@),
    {
        proof {
            use_type_invariant(self);
            use_type_invariant(rhs);
        }
        let number = self.number.minus(rhs.number);
        proof {
            lemma_binary(BinaryOp::Minus, self@, rhs@, self.number, rhs.number, number);
        }
        Term { number, formula: Ghost(minus(self@, rhs@)) }
    }

    pub(crate) fn times(&self, rhs: &Term<T>) -> (t: Term<T>)
        ensures
            t@ == times(self@, rhs@),
    {
        proof {
            use_type_invariant(self);
            use_type_invariant(rhs);
        }
        let number = self.number.times(rhs.number);
        proof {
            lemma_binary(BinaryOp::Times, self@, rhs@, self.number, rhs.number, number);
        }
        Term { number, formula: Ghost(times(self@, rhs@)) }
    }

    pub(crate) fn over(&self, rhs: &Term<T>) -> (t: Term<T>)
        ensures
            t@ == over(self@, rhs@),
    {
        proof {
            use_type_invariant(self);
            use_type_invariant(rhs);
        }
        let number = self.number.over(rhs.number);
        proof {
            lemma_binary(BinaryOp::Over, self@, rhs@, self.number, rhs.number, number);
        }
        Term { number, formula: Ghost(over(self@, rhs@)) }
    }

    pub(crate) fn maximum(&self, rhs: &Term<T>) -> (t: Term<T>)
        ensures
            t@ == maximum(self@, rhs@),
    {
        proof {
            use_type_invariant(self);
            use_type_invariant(rhs);
        }
        let number = self.number.maximum(rhs.number);
        proof {
            lemma_binary(BinaryOp::Maximum, self@, rhs@, self.number, rhs.number, number);
        }
        Term { number, formula: Ghost(maximum(self@, rhs@)) }
    }

    pub(crate) fn minimum(&self, rhs: &Term<T>) -> (t: Term<T>)
        ensures
            t@ == minimum(self@, rhs@),
    {
        proof {
            use_type_invariant(self);
            use_type_invariant(rhs);
        }
        let number = self.number.minimum(rhs.number);
        proof {
            lemma_binary(BinaryOp::Minimum, self@, rhs@, self.number, rhs.number, number);
        }
        Term { number, formula: Ghost(minimum(self@, rhs@)) }
    }

    pub(crate) fn midpoint(&self, rhs: &Term<T>) -> (t: Term<T>)
        ensures
            t@ == binary(BinaryOp::Midpoint, self@, rhs@),
    {
        proof {
            use_type_invariant(self);
            use_type_invariant(rhs);
        }
        let number = self.number.midpoint(rhs.number);
        proof {
            lemma_binary(BinaryOp::Midpoint, self@, rhs@, self.number, rhs.number, number);
        }
        Term { number, formula: Ghost(binary(BinaryOp::Midpoint, self@, rhs@)) }
    }

    pub(crate) fn negated(&self) -> (t: Term<T>)
        ensures
            t@ == unary(UnaryOp::Negated, self@),
    {
        proof {
            use_type_invariant(self);
        }
        let number = self.number.negated();
        proof {
            lemma_unary(UnaryOp::Negated, self@, self.number, number);
        }
        Term { number, formula: Ghost(unary(UnaryOp::Negated, self@)) }
    }

    pub(crate) fn absolute(&self) -> (t: Term<T>)
        ensures
            t@ == unary(UnaryOp::Absolute, self@),
    {
        proof {
            use_type_invariant(self);
        }
        let number = self.number.absolute();
        proof {
            lemma_unary(UnaryOp::Absolute, self@, self.number, number);
        }
        Term { number, formula: Ghost(unary(UnaryOp::Absolute, self@)) }
    }

    pub(crate) fn squared(&self) -> (t: Term<T>)
        ensures
            t@ == unary(UnaryOp::Squared, self@),
    {
        proof {
            use_type_invariant(self);
        }
        let number = self.number.squared();
        proof {
            lemma_unary(UnaryOp::Squared, self@, self.number, number);
        }
        Term { number, formula: Ghost(unary(UnaryOp::Squared, self@)) }
    }

    pub(crate) fn square_root(&self) -> (t: Term<T>)
        ensures
            t@ == unary(UnaryOp::SquareRoot, self@),
    {
        proof {
            use_type_invariant(self);
        }
        let number = self.number.square_root();
        proof {
            lemma_unary(UnaryOp::SquareRoot, self@, self.number, number);
        }
        Term { number, formula: Ghost(unary(UnaryOp::SquareRoot, self@)) }
    }

    pub(crate) fn exponential(&self) -> (t: Term<T>)
        ensures
            t@ == unary(UnaryOp::Exponential, self@),
    {
        proof {
            use_type_invariant(self);
        }
        let number = self.number.exponential();
        proof {
            lemma_unary(UnaryOp::Exponential, self@, self.number, number);
        }
        Term { number, formula: Ghost(unary(UnaryOp::Exponential, self@)) }
    }

    pub(crate) fn log2(&self) -> (t: Term<T>)
        ensures
            t@ == unary(UnaryOp::Log2, self@),
    {
        proof {
            use_type_invariant(self);
        }
        let number = self.number.log2();
        proof {
            lemma_unary(UnaryOp::Log2, self@, self.number, number);
        }
        Term { number, formula: Ghost(unary(UnaryOp::Log2, self@)) }
    }

    pub(crate) fn floor(&self) -> (t: Term<T>)
        ensures
            t@ == unary(UnaryOp::Floor, self@),
    {
        proof {
            use_type_invariant(self);
        }
        let number = self.number.floor();
        proof {
            lemma_unary(UnaryOp::Floor, self@, self.number, number);
        }
        Term { number, formula: Ghost(unary(UnaryOp::Floor, self@)) }
    }

    pub(crate) fn ceil(&self) -> (t: Term<T>)
        ensures
            t@ == unary(UnaryOp::Ceil, self@),
    {
        proof {
            use_type_invariant(self);
        }
        let number = self.number.ceil();
        proof {
            lemma_unary(UnaryOp::Ceil, self@, self.number, number);
        }
        Term { number, formula: Ghost(unary(UnaryOp::Ceil, self@)) }
    }

    pub(crate) fn round(&self) -> (t: Term<T>)
        ensures
            t@ == unary(UnaryOp::Round, self@),
    {
        proof {
            use_type_invariant(self);
        }
        let number = self.number.round();
        proof {
            lemma_unary(UnaryOp::Round, self@, self.number, number);
        }
        Term { number, formula: Ghost(unary(UnaryOp::Round, self@)) }
    }

    pub(crate) fn mul_add(&self, factor: &Term<T>, addend: &Term<T>) -> (t: Term<T>)
        ensures
            t@ == mul_add(self@, factor@, addend@),
    {
        proof {
            use_type_invariant(self);
            use_type_invariant(factor);
            use_type_invariant(addend);
        }
        let number = self.number.mul_add(factor.number, addend.number);
        proof {
            lemma_mul_add(self@, factor@, addend@, self.number, factor.number, addend.number, number);
        }
        Term { number, formula: Ghost(mul_add(self@, factor@, addend@)) }
    }

    pub(crate) fn clamped(&self, low: &Term<T>, high: &Term<T>) -> (t: Term<T>)
        ensures
            t@ == clamped(self@, low@, high@),
    {
        proof {
            use_type_invariant(self);
            use_type_invariant(low);
            use_type_invariant(high);
        }
        let number = self.number.clamped(low.number, high.number);
        proof {
            lemma_clamped(self@, low@, high@, self.number, low.number, high.number, number);
        }
        Term { number, formula: Ghost(clamped(self@, low@, high@)) }
    }

    pub(crate) fn below(&self, rhs: &Term<T>) -> (c: bool)
        ensures
            is_below(self@, rhs@, c),
    {
        proof {
            use_type_invariant(self);
            use_type_invariant(rhs);
        }
        self.number.below(rhs.number)
    }

    pub(crate) fn at_least(&self, rhs: &Term<T>) -> (c: bool)
        ensures
            is_at_least(self@, rhs@, c),
    {
        proof {
            use_type_invariant(self);
            use_type_invariant(rhs);
        }
        self.number.at_least(rhs.number)
    }

    pub(crate) fn to_index(&self) -> (r: usize)
        ensures
            is_index(self@, r),
    {
        proof {
            use_type_invariant(self);
        }
        self.number.to_index()
    }

    pub(crate) fn to_byte(&self) -> (r: u8)
        ensures
            is_byte(self@, r),
    {
        proof {
            use_type_invariant(self);
        }
        self.number.to_byte()
    }

    pub(crate) fn to_signed(&self) -> (r: i32)
        ensures
            is_signed(self@, r),
    {
        proof {
            use_type_invariant(self);
        }
        self.number.to_signed()
    }

    pub(crate) fn to_rank(&self) -> (r: u32)
        ensures
            is_rank(self@, r),
    {
        proof {
            use_type_invariant(self);
        }
        self.number.to_rank()
    }
}

} // verus!
