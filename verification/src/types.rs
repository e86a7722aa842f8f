//! The number type that cluster features and distances compute with.

use vstd::prelude::*;

verus! {

/// Outcome of comparing two numbers under a partial order.
#[derive(Clone, Copy, Debug, PartialEq, Eq, Structural)]
pub enum Comparison {
    Less,
    Equal,
    Greater,
    Unordered,
}

/// Conversion of an index or a count into a number.
pub trait FromIndex: Sized {
    /// The number that `from_index(i)` gives.
    spec fn spec_from_index(i: usize) -> Self;

    /// The number nearest to the index `i`.
    fn from_index(i: usize) -> (r: Self)
        ensures
            r == Self::spec_from_index(i),
    ;
}

/// The scalar arithmetic that cluster features and distances are written in.
///
/// The library is generic in it. Each operation has a spec counterpart of
/// the same name with `spec_` in front, and its contract says only that the
/// operation returns what the counterpart gives on the same arguments: the
/// operations are functions of their arguments, and the comparisons `lt` and
/// `le` are read off `compare`. Nothing is assumed of the values themselves
/// (no algebraic law and no order axiom), so every contract of the library
/// that speaks of numbers speaks of them through these counterparts. An
/// implementation for a floating-point type forwards each method to the
/// matching operator (`plus` is `+`, `compare` is `partial_cmp`,
/// `from_index` is an `as` conversion, and so on) and gives every NaN result
/// one fixed bit pattern, since the language leaves the bits of a NaN open:
/// then each operation is a function of its arguments. The library reads a
/// NaN only through `compare`, where every NaN is `Unordered`.
pub trait Float: FromIndex + Copy + Sized {
    spec fn spec_zero() -> Self;

    spec fn spec_one() -> Self;

    spec fn spec_infinity() -> Self;

    spec fn spec_epsilon() -> Self;

    spec fn spec_plus(self, other: Self) -> Self;

    spec fn spec_minus(self, other: Self) -> Self;

    spec fn spec_times(self, other: Self) -> Self;

    spec fn spec_divided_by(self, other: Self) -> Self;

    spec fn spec_mul_add(self, a: Self, b: Self) -> Self;

    spec fn spec_abs(self) -> Self;

    spec fn spec_sqrt(self) -> Self;

    spec fn spec_compare(self, other: Self) -> Comparison;

    fn zero() -> (r: Self)
        ensures
            r == Self::spec_zero(),
    ;

    fn one() -> (r: Self)
        ensures
            r == Self::spec_one(),
    ;

    fn infinity() -> (r: Self)
        ensures
            r == Self::spec_infinity(),
    ;

    /// The machine epsilon of the type.
    fn epsilon() -> (r: Self)
        ensures
            r == Self::spec_epsilon(),
    ;

    fn plus(self, other: Self) -> (r: Self)
        ensures
            r == self.spec_plus(other),
    ;

    fn minus(self, other: Self) -> (r: Self)
        ensures
            r == self.spec_minus(other),
    ;

    fn times(self, other: Self) -> (r: Self)
        ensures
            r == self.spec_times(other),
    ;

    fn divided_by(self, other: Self) -> (r: Self)
        ensures
            r == self.spec_divided_by(other),
    ;

    /// `self * a + b`, rounded once.
    fn mul_add(self, a: Self, b: Self) -> (r: Self)
        ensures
            r == self.spec_mul_add(a, b),
    ;

    fn abs(self) -> (r: Self)
        ensures
            r == self.spec_abs(),
    ;

    fn sqrt(self) -> (r: Self)
        ensures
            r == self.spec_sqrt(),
    ;

    /// `self < other`.
    fn lt(&self, other: &Self) -> (r: bool)
        ensures
            r == (self.spec_compare(*other) == Comparison::Less),
    ;

    /// `self <= other`.
    fn le(&self, other: &Self) -> (r: bool)
        ensures
            r == (self.spec_compare(*other) == Comparison::Less || self.spec_compare(*other)
                == Comparison::Equal),
    ;

    /// Where `self` stands relative to `other`.
    fn compare(&self, other: &Self) -> (r: Comparison)
        ensures
            r == self.spec_compare(*other),
    ;
}

/// `a < b`: `a` compares below `b`.
pub open spec fn spec_lt<F: Float>(a: F, b: F) -> bool {
    a.spec_compare(b) == Comparison::Less
}

/// `<` on the number type is a strict order, irreflexive and transitive, as
/// `<` on IEEE-754 numbers is (a NaN compares below nothing and nothing
/// compares below a NaN).
pub open spec fn lt_is_strict_order<F: Float>() -> bool {
    &&& forall|a: F| !#[trigger] spec_lt(a, a)
    &&& forall|a: F, b: F, c: F| #![trigger spec_lt(a, b), spec_lt(b, c)] spec_lt(a, b) && spec_lt(b, c) ==> spec_lt(a, c)
}

/// `+` and `*` of the number type are commutative, as on IEEE-754 numbers
/// once every NaN has the same bits.
pub open spec fn plus_times_commute<F: Float>() -> bool {
    &&& forall|a: F, b: F| #[trigger] a.spec_plus(b) == b.spec_plus(a)
    &&& forall|a: F, b: F| #[trigger] a.spec_times(b) == b.spec_times(a)
}

/// The square of a difference, alone or fused into an accumulation with
/// `mul_add`, does not depend on the order of the difference, as on
/// IEEE-754 numbers, where `x - y` is exactly `-(y - x)`.
pub open spec fn difference_squares_symmetric<F: Float>() -> bool {
    &&& forall|x: F, y: F|
        #[trigger] x.spec_minus(y).spec_times(x.spec_minus(y)) == y.spec_minus(x).spec_times(y.spec_minus(x))
    &&& forall|x: F, y: F, acc: F|
        #[trigger] x.spec_minus(y).spec_mul_add(x.spec_minus(y), acc) == y.spec_minus(x).spec_mul_add(
            y.spec_minus(x),
            acc,
        )
}

/// One is the count one and a unit of `*`, as on IEEE-754 numbers (`1 as
/// f64` is `1.0`, and `x * 1.0` is `x`, NaN bits aside).
pub open spec fn one_is_unit<F: Float>() -> bool {
    &&& F::spec_from_index(1) == F::spec_one()
    &&& forall|a: F| #[trigger] a.spec_times(F::spec_one()) == a
}

/// `a <= b`: `a` compares below or equal to `b`.
pub open spec fn spec_le<F: Float>(a: F, b: F) -> bool {
    a.spec_compare(b) == Comparison::Less || a.spec_compare(b) == Comparison::Equal
}

/// The larger of `a` and `b` under `<`, `a` when they are unordered.
pub open spec fn spec_max<F: Float>(a: F, b: F) -> F {
    if spec_lt(a, b) {
        b
    } else {
        a
    }
}

} // verus!
