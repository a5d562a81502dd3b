//! Residues modulo seven: an exact number type.
//!
//! They form a field, so sums, products and quotients of them are never rounded. A symbolic
//! result that is wrong is likely to show under a few assignments of residues, where rounding
//! might hide it.

use crate::field::exact;
use crate::scalar::Scalar;
use crate::text;
use vstd::prelude::*;

verus! {

/// A residue modulo seven.
#[derive(Debug, Clone, Copy, PartialEq, Eq, Structural)]
pub enum Residue {
    Zero,
    One,
    Two,
    Three,
    Four,
    Five,
    Six,
}

impl Residue {
    /// The least natural number in the class.
    pub open spec fn number(self) -> int {
        match self {
            Residue::Zero => 0,
            Residue::One => 1,
            Residue::Two => 2,
            Residue::Three => 3,
            Residue::Four => 4,
            Residue::Five => 5,
            Residue::Six => 6,
        }
    }

    /// The class of an integer.
    pub open spec fn class(n: int) -> Residue {
        let r = n % 7;
        if r == 0 {
            Residue::Zero
        } else if r == 1 {
            Residue::One
        } else if r == 2 {
            Residue::Two
        } else if r == 3 {
            Residue::Three
        } else if r == 4 {
            Residue::Four
        } else if r == 5 {
            Residue::Five
        } else {
            Residue::Six
        }
    }

    /// The residue whose product with this one is one; zero has none and is its own.
    pub open spec fn inverse(self) -> Residue {
        match self {
            Residue::Zero => Residue::Zero,
            Residue::One => Residue::One,
            Residue::Two => Residue::Four,
            Residue::Three => Residue::Five,
            Residue::Four => Residue::Two,
            Residue::Five => Residue::Three,
            Residue::Six => Residue::Six,
        }
    }

    /// The least natural number in the class.
    pub fn to_number(self) -> (r: usize)
        ensures
            r == self.number(),
    {
        match self {
            Residue::Zero => 0,
            Residue::One => 1,
            Residue::Two => 2,
            Residue::Three => 3,
            Residue::Four => 4,
            Residue::Five => 5,
            Residue::Six => 6,
        }
    }

    /// The class of a natural number.
    pub fn of(n: usize) -> (r: Residue)
        ensures
            r == Residue::class(n as int),
    {
        let m: usize = n % 7;
        if m == 0 {
            Residue::Zero
        } else if m == 1 {
            Residue::One
        } else if m == 2 {
            Residue::Two
        } else if m == 3 {
            Residue::Three
        } else if m == 4 {
            Residue::Four
        } else if m == 5 {
            Residue::Five
        } else {
            Residue::Six
        }
    }

    /// The residue whose product with this one is one; zero for zero.
    pub fn inverted(self) -> (r: Residue)
        ensures
            r == self.inverse(),
    {
        match self {
            Residue::Zero => Residue::Zero,
            Residue::One => Residue::One,
            Residue::Two => Residue::Four,
            Residue::Three => Residue::Five,
            Residue::Four => Residue::Two,
            Residue::Five => Residue::Three,
            Residue::Six => Residue::Six,
        }
    }
}

/// A power of ten modulo seven.
pub open spec fn power_of_ten(exponent: int) -> Residue
    decreases
            if exponent >= 0 {
                exponent
            } else {
                -exponent
            },
{
    if exponent == 0 {
        Residue::One
    } else if exponent > 0 {
        power_of_ten(exponent - 1).product(Residue::Three)
    } else {
        power_of_ten(exponent + 1).product(Residue::Five)
    }
}

impl Scalar for Residue {
    open spec fn nought() -> Self {
        Residue::Zero
    }

    open spec fn unit() -> Self {
        Residue::One
    }

    open spec fn undefined() -> Self {
        Residue::Zero
    }

    open spec fn forever() -> Self {
        Residue::Six
    }

    open spec fn of_count(n: nat) -> Self {
        Residue::class(n as int)
    }

    open spec fn decade(exponent: int) -> Self {
        power_of_ten(exponent)
    }

    open spec fn negation(self) -> Self {
        Residue::class(7 - self.number())
    }

    open spec fn sum(self, rhs: Self) -> Self {
        Residue::class(self.number() + rhs.number())
    }

    open spec fn difference(self, rhs: Self) -> Self {
        Residue::class(self.number() + (7 - rhs.number()))
    }

    open spec fn product(self, rhs: Self) -> Self {
        Residue::class(self.number() * rhs.number())
    }

    open spec fn quotient(self, rhs: Self) -> Self {
        Residue::class(self.number() * rhs.inverse().number())
    }

    /// Every division comes out even.
    open spec fn remainder(self, rhs: Self) -> Self {
        Residue::Zero
    }

    /// A square root, or zero where there is none.
    open spec fn root(self) -> Self {
        match self {
            Residue::One => Residue::One,
            Residue::Two => Residue::Three,
            Residue::Four => Residue::Two,
            _ => Residue::Zero,
        }
    }

    open spec fn magnitude(self) -> Self {
        self
    }

    open spec fn larger(self, rhs: Self) -> Self {
        if self.number() < rhs.number() {
            rhs
        } else {
            self
        }
    }

    /// There is no sine of a residue; zero stands for it.
    open spec fn sine(self) -> Self {
        Residue::Zero
    }

    /// There is no exponential of a residue; one stands for it.
    open spec fn exponential(self) -> Self {
        Residue::One
    }

    open spec fn radians(self) -> Self {
        self
    }

    open spec fn turn() -> Self {
        Residue::Zero
    }

    open spec fn tiny() -> Self {
        Residue::Zero
    }

    open spec fn equal(self, rhs: Self) -> bool {
        self == rhs
    }

    open spec fn below(self, rhs: Self) -> bool {
        self.number() < rhs.number()
    }

    open spec fn ranked(self, rhs: Self) -> bool {
        self.number() < rhs.number()
    }

    open spec fn is_undefined(self) -> bool {
        false
    }

    open spec fn is_ordinary(self) -> bool {
        true
    }

    /// The class of a natural number that a text denotes and that can be held.
    open spec fn read(s: Seq<char>) -> Option<Self> {
        match text::natural(s) {
            Some(n) => if n <= usize::MAX {
                Some(Residue::class(n as int))
            } else {
                None
            },
            None => None,
        }
    }

    open spec fn shown(self) -> Seq<char> {
        text::decimal(self.number() as nat)
    }

    open spec fn shown_precisely(self) -> Seq<char> {
        text::decimal(self.number() as nat)
    }

    fn zero() -> (r: Self) {
        Residue::Zero
    }

    fn one() -> (r: Self) {
        Residue::One
    }

    fn nan() -> (r: Self) {
        Residue::Zero
    }

    fn never() -> (r: Self) {
        Residue::Six
    }

    fn from_count(n: usize) -> (r: Self) {
        Residue::of(n)
    }

    fn power_of_ten(exponent: i8) -> (r: Self) {
        let mut power = Residue::One;
        let mut i: i8 = 0;
        if exponent >= 0 {
            while i < exponent
                invariant
                    0 <= i <= exponent,
                    power == power_of_ten(i as int),
                decreases exponent - i,
            {
                power = power.times(Residue::Three);
                i = i + 1;
            }
        } else {
            while i > exponent
                invariant
                    exponent <= i <= 0,
                    power == power_of_ten(i as int),
                decreases i - exponent,
            {
                power = power.times(Residue::Five);
                i = i - 1;
            }
        }
        power
    }

    fn negated(self) -> (r: Self) {
        Residue::of(7 - self.to_number())
    }

    fn plus(self, rhs: Self) -> (r: Self) {
        Residue::of(self.to_number() + rhs.to_number())
    }

    fn minus(self, rhs: Self) -> (r: Self) {
        Residue::of(self.to_number() + (7 - rhs.to_number()))
    }

    fn times(self, rhs: Self) -> (r: Self) {
        let (a, b): (usize, usize) = (self.to_number(), rhs.to_number());
        proof {
            lemma_small_product(a as int, b as int);
        }
        Residue::of(a * b)
    }

    fn over(self, rhs: Self) -> (r: Self) {
        let (a, b): (usize, usize) = (self.to_number(), rhs.inverted().to_number());
        proof {
            lemma_small_product(a as int, b as int);
        }
        Residue::of(a * b)
    }

    fn modulo(self, rhs: Self) -> (r: Self) {
        Residue::Zero
    }

    fn sqrt(self) -> (r: Self) {
        match self {
            Residue::One => Residue::One,
            Residue::Two => Residue::Three,
            Residue::Four => Residue::Two,
            _ => Residue::Zero,
        }
    }

    fn abs(self) -> (r: Self) {
        self
    }

    fn max(self, rhs: Self) -> (r: Self) {
        if self.to_number() < rhs.to_number() {
            rhs
        } else {
            self
        }
    }

    fn sin(self) -> (r: Self) {
        Residue::Zero
    }

    fn exp(self) -> (r: Self) {
        Residue::One
    }

    fn to_radians(self) -> (r: Self) {
        self
    }

    fn full_turn() -> (r: Self) {
        Residue::Zero
    }

    fn epsilon() -> (r: Self) {
        Residue::Zero
    }

    fn same_as(self, rhs: Self) -> (r: bool) {
        self == rhs
    }

    fn less_than(self, rhs: Self) -> (r: bool) {
        self.to_number() < rhs.to_number()
    }

    fn ranks_before(self, rhs: Self) -> (r: bool) {
        self.to_number() < rhs.to_number()
    }

    fn is_nan(self) -> (r: bool) {
        false
    }

    fn is_finite(self) -> (r: bool) {
        true
    }

    fn parse(s: &str) -> (r: Option<Self>) {
        match text::parse_natural(s) {
            Some(n) => Some(Residue::of(n)),
            None => None,
        }
    }

    fn text(self) -> (r: String) {
        text::number_text(self.to_number())
    }

    fn precise_text(self) -> (r: String) {
        text::number_text(self.to_number())
    }
}

proof fn lemma_small_product(a: int, b: int)
    requires
        0 <= a < 7,
        0 <= b < 7,
    ensures
        0 <= a * b <= 36,
{
    assert(0 <= a * b <= 36) by (nonlinear_arith)
        requires
            0 <= a < 7,
            0 <= b < 7,
    ;
}

proof fn lemma_class(n: int)
    ensures
        Residue::class(n).number() == n % 7,
{
}

proof fn lemma_number(a: Residue)
    ensures
        0 <= a.number() < 7,
        Residue::class(a.number()) == a,
{
}

proof fn lemma_class_of_product(a: int, b: int)
    ensures
        Residue::class((a % 7) * b) == Residue::class(a * b),
        Residue::class(a * (b % 7)) == Residue::class(a * b),
{
    vstd::arithmetic::div_mod::lemma_mul_mod_noop_left(a, b, 7);
    vstd::arithmetic::div_mod::lemma_mul_mod_noop_right(a, b, 7);
}

proof fn lemma_class_of_sum(a: int, b: int)
    ensures
        Residue::class((a % 7) + b) == Residue::class(a + b),
        Residue::class(a + (b % 7)) == Residue::class(a + b),
{
    vstd::arithmetic::div_mod::lemma_add_mod_noop_right(a, b, 7);
    vstd::arithmetic::div_mod::lemma_add_mod_noop_right(b, a, 7);
}

proof fn lemma_sum_associates(a: Residue, b: Residue, c: Residue)
    ensures
        a.sum(b).sum(c) == a.sum(b.sum(c)),
{
    let (x, y, z) = (a.number(), b.number(), c.number());
    lemma_class(x + y);
    lemma_class(y + z);
    lemma_class_of_sum(x + y, z);
    lemma_class_of_sum(x, y + z);
    assert(x + y + z == x + (y + z));
}

proof fn lemma_negation(a: Residue, b: Residue)
    ensures
        a.sum(a.negation()) == Residue::Zero,
        a.difference(b) == a.sum(b.negation()),
        a.sum(b) == b.sum(a),
        a.sum(Residue::Zero) == a,
        a.product(Residue::One) == a,
{
    let (x, y) = (a.number(), b.number());
    lemma_class(7 - x);
    lemma_class(7 - y);
    lemma_class_of_sum(x, 7 - x);
    lemma_class_of_sum(x, 7 - y);
    lemma_number(a);
    assert(x * 1 == x);
}

proof fn lemma_product_associates(a: Residue, b: Residue, c: Residue)
    ensures
        a.product(b).product(c) == a.product(b.product(c)),
{
    let (x, y, z) = (a.number(), b.number(), c.number());
    lemma_class(x * y);
    lemma_class(y * z);
    lemma_class_of_product(x * y, z);
    lemma_class_of_product(x, y * z);
    assert((x * y) * z == x * (y * z)) by (nonlinear_arith);
}

proof fn lemma_distributes(a: Residue, b: Residue, c: Residue)
    ensures
        a.product(b.sum(c)) == a.product(b).sum(a.product(c)),
{
    let (x, y, z) = (a.number(), b.number(), c.number());
    lemma_class(y + z);
    lemma_class(x * y);
    lemma_class(x * z);
    lemma_class_of_product(x, y + z);
    assert(x * (y + z) == x * y + x * z) by (nonlinear_arith);
    lemma_class_of_sum(x * y, (x * z) % 7);
    lemma_class_of_sum(x * y, x * z);
}

proof fn lemma_quotient(a: Residue, b: Residue)
    requires
        b != Residue::Zero,
    ensures
        a.quotient(b).product(b) == a,
{
    let (x, i, y) = (a.number(), b.inverse().number(), b.number());
    lemma_class(x * i);
    lemma_class_of_product(x * i, y);
    assert((x * i) * y == x * (i * y)) by (nonlinear_arith);
    assert((i * y) % 7 == 1);
    lemma_class_of_product(x, i * y);
    assert(x * 1 == x);
    lemma_number(a);
}

proof fn lemma_product_commutes(a: Residue, b: Residue)
    ensures
        a.product(b) == b.product(a),
{
    let (x, y) = (a.number(), b.number());
    assert(x * y == y * x) by (nonlinear_arith);
}

/// Residues are an exact number type.
pub proof fn law_residues_are_exact()
    ensures
        exact::<Residue>(),
{
    assert forall|a: Residue, b: Residue| #[trigger] a.product(b) == b.product(a) by {
        lemma_product_commutes(a, b);
    }
    assert forall|a: Residue, b: Residue, c: Residue| #[trigger]
        a.product(b).product(c) == a.product(b.product(c)) by {
        lemma_product_associates(a, b, c);
    }
    assert forall|a: Residue, b: Residue, c: Residue| #[trigger]
        a.product(b.sum(c)) == a.product(b).sum(a.product(c)) by {
        lemma_distributes(a, b, c);
    }
    assert forall|a: Residue, b: Residue| b != Residue::Zero implies (#[trigger] a.quotient(
        b,
    )).product(b) == a by {
        lemma_quotient(a, b);
    }
    assert forall|a: Residue, b: Residue, c: Residue| #[trigger]
        a.sum(b).sum(c) == a.sum(b.sum(c)) by {
        lemma_sum_associates(a, b, c);
    }
    assert forall|a: Residue, b: Residue| #[trigger] a.sum(b) == b.sum(a) by {
        lemma_negation(a, b);
    }
    assert forall|a: Residue| #[trigger] a.sum(Residue::Zero) == a by {
        lemma_negation(a, a);
    }
    assert forall|a: Residue| a.sum(#[trigger] a.negation()) == Residue::Zero by {
        lemma_negation(a, a);
    }
    assert forall|a: Residue, b: Residue| #[trigger] a.difference(b) == a.sum(b.negation()) by {
        lemma_negation(a, b);
    }
    assert forall|a: Residue| #[trigger] a.product(Residue::One) == a by {
        lemma_negation(a, a);
    }
    reveal(exact);
}

} // verus!
