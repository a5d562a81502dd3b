//! The number type the library computes with.

use vstd::prelude::*;

verus! {

/// A number type.
///
/// The circuit layers use a number only through these operations. Each executable
/// operation is paired with a specification function that names its result, so a
/// contract can say exactly which operations are applied to which values and in which
/// order, whatever the rounding behaviour of the type is. No algebraic law is demanded:
/// addition need not be associative and a value need not be equal to itself.
///
/// The specification functions have bodies that say nothing, so that a type outside of the
/// verified code only has to provide the operations. A type in verified code has to give
/// each of them its meaning, or its operations cannot be proved.
pub trait Scalar: Copy {
    /// The additive identity.
    closed spec fn nought() -> Self {
        arbitrary()
    }

    /// The multiplicative identity.
    closed spec fn unit() -> Self {
        arbitrary()
    }

    /// The value that plays the part of "not a number".
    closed spec fn undefined() -> Self {
        arbitrary()
    }

    /// The largest span of time a source can be asked to wait for.
    closed spec fn forever() -> Self {
        arbitrary()
    }

    /// The number of items in a collection.
    closed spec fn of_count(n: nat) -> Self {
        arbitrary()
    }

    /// A power of ten.
    closed spec fn decade(exponent: int) -> Self {
        arbitrary()
    }

    /// `-self`.
    closed spec fn negation(self) -> Self {
        arbitrary()
    }

    /// `self + rhs`.
    closed spec fn sum(self, rhs: Self) -> Self {
        arbitrary()
    }

    /// `self - rhs`.
    closed spec fn difference(self, rhs: Self) -> Self {
        arbitrary()
    }

    /// `self * rhs`.
    closed spec fn product(self, rhs: Self) -> Self {
        arbitrary()
    }

    /// `self / rhs`.
    closed spec fn quotient(self, rhs: Self) -> Self {
        arbitrary()
    }

    /// The remainder of `self / rhs` with the sign of `self`.
    closed spec fn remainder(self, rhs: Self) -> Self {
        arbitrary()
    }

    /// The square root.
    closed spec fn root(self) -> Self {
        arbitrary()
    }

    /// The absolute value.
    closed spec fn magnitude(self) -> Self {
        arbitrary()
    }

    /// The larger of two values.
    closed spec fn larger(self, rhs: Self) -> Self {
        arbitrary()
    }

    /// The sine of an angle in radians.
    closed spec fn sine(self) -> Self {
        arbitrary()
    }

    /// The exponential function.
    closed spec fn exponential(self) -> Self {
        arbitrary()
    }

    /// An angle in degrees, in radians.
    closed spec fn radians(self) -> Self {
        arbitrary()
    }

    /// A full turn in radians.
    closed spec fn turn() -> Self {
        arbitrary()
    }

    /// The smallest step that is told apart from nothing.
    closed spec fn tiny() -> Self {
        arbitrary()
    }

    /// Numeric equality.
    closed spec fn equal(self, rhs: Self) -> bool {
        arbitrary()
    }

    /// Numeric order, strict.
    closed spec fn below(self, rhs: Self) -> bool {
        arbitrary()
    }

    /// A total order on all values, those included that `below` does not order.
    closed spec fn ranked(self, rhs: Self) -> bool {
        arbitrary()
    }

    /// Whether the value is "not a number".
    closed spec fn is_undefined(self) -> bool {
        arbitrary()
    }

    /// Whether the value is an ordinary finite number.
    closed spec fn is_ordinary(self) -> bool {
        arbitrary()
    }

    /// The number that a text denotes.
    closed spec fn read(text: Seq<char>) -> Option<Self> {
        arbitrary()
    }

    /// The text that denotes the number.
    closed spec fn shown(self) -> Seq<char> {
        arbitrary()
    }

    /// The text that denotes the number and shows that it need not be whole.
    closed spec fn shown_precisely(self) -> Seq<char> {
        arbitrary()
    }

    fn zero() -> (r: Self)
        ensures
            r == Self::nought(),
    ;

    fn one() -> (r: Self)
        ensures
            r == Self::unit(),
    ;

    fn nan() -> (r: Self)
        ensures
            r == Self::undefined(),
    ;

    fn never() -> (r: Self)
        ensures
            r == Self::forever(),
    ;

    fn from_count(n: usize) -> (r: Self)
        ensures
            r == Self::of_count(n as nat),
    ;

    fn power_of_ten(exponent: i8) -> (r: Self)
        ensures
            r == Self::decade(exponent as int),
    ;

    fn negated(self) -> (r: Self)
        ensures
            r == self.negation(),
    ;

    fn plus(self, rhs: Self) -> (r: Self)
        ensures
            r == self.sum(rhs),
    ;

    fn minus(self, rhs: Self) -> (r: Self)
        ensures
            r == self.difference(rhs),
    ;

    fn times(self, rhs: Self) -> (r: Self)
        ensures
            r == self.product(rhs),
    ;

    fn over(self, rhs: Self) -> (r: Self)
        ensures
            r == self.quotient(rhs),
    ;

    fn modulo(self, rhs: Self) -> (r: Self)
        ensures
            r == self.remainder(rhs),
    ;

    fn sqrt(self) -> (r: Self)
        ensures
            r == self.root(),
    ;

    fn abs(self) -> (r: Self)
        ensures
            r == self.magnitude(),
    ;

    fn max(self, rhs: Self) -> (r: Self)
        ensures
            r == self.larger(rhs),
    ;

    fn sin(self) -> (r: Self)
        ensures
            r == self.sine(),
    ;

    fn exp(self) -> (r: Self)
        ensures
            r == self.exponential(),
    ;

    fn to_radians(self) -> (r: Self)
        ensures
            r == self.radians(),
    ;

    fn full_turn() -> (r: Self)
        ensures
            r == Self::turn(),
    ;

    fn epsilon() -> (r: Self)
        ensures
            r == Self::tiny(),
    ;

    fn same_as(self, rhs: Self) -> (r: bool)
        ensures
            r == self.equal(rhs),
    ;

    fn less_than(self, rhs: Self) -> (r: bool)
        ensures
            r == self.below(rhs),
    ;

    fn ranks_before(self, rhs: Self) -> (r: bool)
        ensures
            r == self.ranked(rhs),
    ;

    fn is_nan(self) -> (r: bool)
        ensures
            r == self.is_undefined(),
    ;

    fn is_finite(self) -> (r: bool)
        ensures
            r == self.is_ordinary(),
    ;

    fn parse(text: &str) -> (r: Option<Self>)
        ensures
            r == Self::read(text@),
    ;

    fn text(self) -> (r: String)
        ensures
            r@ == self.shown(),
    ;

    fn precise_text(self) -> (r: String)
        ensures
            r@ == self.shown_precisely(),
    ;
}

/// `a <= b`.
pub open spec fn at_most<S: Scalar>(a: S, b: S) -> bool {
    a.below(b) || a.equal(b)
}

/// Whether `a <= b`.
pub fn is_at_most<S: Scalar>(a: S, b: S) -> (r: bool)
    ensures
        r == at_most(a, b),
{
    a.less_than(b) || a.same_as(b)
}

} // verus!
