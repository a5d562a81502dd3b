//! Symbolic expressions: the entries of the circuit matrices.

use crate::expr;
use crate::expr::{Expr, Failure};
use crate::name_map::NameMap;
use crate::scalar::Scalar;
use crate::text;
use vstd::prelude::*;

verus! {

/// A small symbolic expression tree used in MNA stamps.
#[derive(Debug, PartialEq)]
pub enum Expression<S> {
    /// A numeric constant.
    Constant(S),
    /// A named component, parameter, source value, or duty ratio.
    Symbol(String),
    /// A sum.
    Add(Vec<Expression<S>>),
    /// A product.
    Multiply(Vec<Expression<S>>),
    /// A reciprocal.
    Reciprocal(Box<Expression<S>>),
    /// A square root.
    Sqrt(Box<Expression<S>>),
}

/// The mathematical form of an executable expression.
pub open spec fn view_of<S: Scalar>(e: Expression<S>) -> Expr<S>
    decreases e,
{
    match e {
        Expression::Constant(value) => Expr::Constant(value),
        Expression::Symbol(name) => Expr::Symbol(name@),
        Expression::Add(list) => Expr::Add(
            Seq::new(
                list@.len(),
                |i: int|
                    if 0 <= i < list@.len() {
                        view_of(list@[i])
                    } else {
                        arbitrary()
                    },
            ),
        ),
        Expression::Multiply(list) => Expr::Multiply(
            Seq::new(
                list@.len(),
                |i: int|
                    if 0 <= i < list@.len() {
                        view_of(list@[i])
                    } else {
                        arbitrary()
                    },
            ),
        ),
        Expression::Reciprocal(inner) => Expr::Reciprocal(Box::new(view_of(*inner))),
        Expression::Sqrt(inner) => Expr::Sqrt(Box::new(view_of(*inner))),
    }
}

impl<S: Scalar> View for Expression<S> {
    type V = Expr<S>;

    open spec fn view(&self) -> Expr<S> {
        view_of(*self)
    }
}

/// The mathematical forms of a list of expressions.
pub open spec fn exprs<S: Scalar>(list: Seq<Expression<S>>) -> Seq<Expr<S>> {
    Seq::new(list.len(), |i: int| list[i]@)
}

/// A sum or product is seen as the sum or product of what its parts are seen as.
pub proof fn lemma_view_list<S: Scalar>(list: Vec<Expression<S>>)
    ensures
        Expression::Add(list)@ == Expr::Add(exprs(list@)),
        Expression::Multiply(list)@ == Expr::Multiply(exprs(list@)),
{
    assert(Expression::Add(list)@->Add_0 =~= exprs(list@));
    assert(Expression::Multiply(list)@->Multiply_0 =~= exprs(list@));
}


/// One more expression at the end of a list.
pub proof fn lemma_exprs_push<S: Scalar>(list: Seq<Expression<S>>, e: Expression<S>)
    ensures
        exprs(list.push(e)) == exprs(list).push(e@),
{
    assert(exprs(list.push(e)) =~= exprs(list).push(e@));
}

/// What a list of coefficients and bases is seen as.
spec fn group_views<S: Scalar>(groups: Seq<(S, Expression<S>)>) -> Seq<(S, Expr<S>)> {
    Seq::new(groups.len(), |i: int| (groups[i].0, groups[i].1@))
}

impl<S: Scalar> Expression<S> {
    /// Additive identity.
    pub fn zero() -> (r: Self)
        ensures
            r@ == expr::zero::<S>(),
    {
        Expression::Constant(S::zero())
    }

    /// Multiplicative identity.
    pub fn one() -> (r: Self)
        ensures
            r@ == expr::one::<S>(),
    {
        Expression::Constant(S::one())
    }

    /// Creates a symbol.
    pub fn symbol(name: &str) -> (r: Self)
        ensures
            r@ == Expr::<S>::Symbol(name@),
    {
        Expression::Symbol(name.to_owned())
    }

    /// A copy of the expression.
    pub fn copy(&self) -> (r: Self)
        ensures
            r@ == self@,
        decreases self,
    {
        match self {
            Expression::Constant(value) => Expression::Constant(*value),
            Expression::Symbol(name) => Expression::Symbol(name.clone()),
            Expression::Add(list) => {
                let out = Self::copy_list(list);
                proof {
                    lemma_view_list(*list);
                    lemma_view_list(out);
                }
                Expression::Add(out)
            },
            Expression::Multiply(list) => {
                let out = Self::copy_list(list);
                proof {
                    lemma_view_list(*list);
                    lemma_view_list(out);
                }
                Expression::Multiply(out)
            },
            Expression::Reciprocal(inner) => Expression::Reciprocal(Box::new(inner.copy())),
            Expression::Sqrt(inner) => Expression::Sqrt(Box::new(inner.copy())),
        }
    }

    /// A copy of a list of expressions.
    pub fn copy_list(list: &Vec<Self>) -> (r: Vec<Self>)
        ensures
            exprs(r@) == exprs(list@),
        decreases list,
    {
        let mut out: Vec<Self> = Vec::new();
        let mut i: usize = 0;
        while i < list.len()
            invariant
                i <= list@.len(),
                out@.len() == i,
                forall|j: int| 0 <= j < i ==> (#[trigger] out@[j])@ == list@[j]@,
            decreases list@.len() - i,
        {
            proof {
                assert(decreases_to!(list => list@[i as int]));
            }
            out.push(list[i].copy());
            i = i + 1;
        }
        assert(exprs(out@) =~= exprs(list@));
        out
    }

    /// Whether two expressions have the same structure and equal constants.
    pub fn same(&self, other: &Self) -> (r: bool)
        ensures
            r == expr::same(self@, other@),
        decreases self,
    {
        match self {
            Expression::Constant(x) => match other {
                Expression::Constant(y) => x.same_as(*y),
                _ => false,
            },
            Expression::Symbol(x) => match other {
                Expression::Symbol(y) => *x == *y,
                _ => false,
            },
            Expression::Add(x) => match other {
                Expression::Add(y) => {
                    proof {
                        lemma_view_list(*x);
                        lemma_view_list(*y);
                    }
                    Self::same_lists(x, y)
                },
                _ => false,
            },
            Expression::Multiply(x) => match other {
                Expression::Multiply(y) => {
                    proof {
                        lemma_view_list(*x);
                        lemma_view_list(*y);
                    }
                    Self::same_lists(x, y)
                },
                _ => false,
            },
            Expression::Reciprocal(x) => match other {
                Expression::Reciprocal(y) => x.same(y),
                _ => false,
            },
            Expression::Sqrt(x) => match other {
                Expression::Sqrt(y) => x.same(y),
                _ => false,
            },
        }
    }

    fn same_lists(x: &Vec<Self>, y: &Vec<Self>) -> (r: bool)
        ensures
            r == (x@.len() == y@.len() && forall|i: int|
                0 <= i < x@.len() ==> expr::same(#[trigger] exprs(x@)[i], exprs(y@)[i])),
        decreases x,
    {
        if x.len() != y.len() {
            return false;
        }
        let mut i: usize = 0;
        while i < x.len()
            invariant
                i <= x@.len() == y@.len(),
                forall|j: int|
                    0 <= j < i ==> expr::same(#[trigger] exprs(x@)[j], exprs(y@)[j]),
            decreases x@.len() - i,
        {
            proof {
                assert(decreases_to!(x => x@[i as int]));
            }
            if !x[i].same(&y[i]) {
                assert(!expr::same(exprs(x@)[i as int], exprs(y@)[i as int]));
                return false;
            }
            i = i + 1;
        }
        true
    }

    /// Creates `1 / self`.
    pub fn reciprocal(self) -> (r: Self)
        ensures
            r@ == expr::reciprocal(self@),
    {
        match self {
            Expression::Constant(value) => Expression::Constant(S::one().over(value)),
            Expression::Reciprocal(inner) => *inner,
            other => Expression::Reciprocal(Box::new(other)),
        }
    }

    /// Creates `sqrt(self)`.
    pub fn sqrt(self) -> (r: Self)
        ensures
            r@ == expr::sqrt(self@),
    {
        if let Expression::Constant(value) = &self {
            if S::zero().less_than(*value) || value.same_as(S::zero()) {
                return Expression::Constant(value.sqrt());
            }
        }
        Expression::Sqrt(Box::new(self))
    }

    /// Returns true for an exact zero constant.
    pub fn is_zero(&self) -> (r: bool)
        ensures
            r == expr::is_zero(self@),
    {
        match self {
            Expression::Constant(value) => value.same_as(S::zero()),
            _ => false,
        }
    }

    fn is_one(&self) -> (r: bool)
        ensures
            r == expr::is_one(self@),
    {
        match self {
            Expression::Constant(value) => value.same_as(S::one()),
            _ => false,
        }
    }

    fn into_terms(self) -> (r: Vec<Self>)
        ensures
            exprs(r@) == expr::terms_of(self@),
    {
        match self {
            Expression::Add(terms) => {
                proof {
                    lemma_view_list(terms);
                }
                terms
            },
            other => {
                let out = vec![other];
                assert(exprs(out@) =~= seq![other@]);
                out
            },
        }
    }

    fn into_factors(self) -> (r: Vec<Self>)
        ensures
            exprs(r@) == expr::factors_of(self@),
    {
        match self {
            Expression::Multiply(factors) => {
                proof {
                    lemma_view_list(factors);
                }
                factors
            },
            other => {
                let out = vec![other];
                assert(exprs(out@) =~= seq![other@]);
                out
            },
        }
    }

    /// The product of two factors, as it is written.
    fn pair(first: Self, second: Self) -> (r: Self)
        ensures
            r@ == Expr::Multiply(seq![first@, second@]),
    {
        let out = vec![first, second];
        proof {
            lemma_view_list(out);
            assert(exprs(out@) =~= seq![first@, second@]);
        }
        Expression::Multiply(out)
    }

    /// The simplified sum.
    pub fn plus(self, rhs: Self) -> (r: Self)
        ensures
            r@ == expr::sum(self@, rhs@),
    {
        if self.is_zero() {
            return rhs;
        }
        if rhs.is_zero() {
            return self;
        }
        if let Expression::Constant(x) = &self {
            if let Expression::Constant(y) = &rhs {
                return Expression::Constant(x.plus(*y));
            }
        }
        let mut terms = self.into_terms();
        let mut more = rhs.into_terms();
        let ghost before = terms@;
        let ghost after = more@;
        terms.append(&mut more);
        assert(exprs(terms@) =~= exprs(before) + exprs(after));
        combine_terms(&terms)
    }

    /// The simplified product.
    pub fn times(self, rhs: Self) -> (r: Self)
        ensures
            r@ == expr::product(self@, rhs@),
    {
        if self.is_zero() || rhs.is_zero() {
            return Self::zero();
        }
        if self.is_one() {
            return rhs;
        }
        if rhs.is_one() {
            return self;
        }
        if let Expression::Constant(x) = &self {
            if let Expression::Constant(y) = &rhs {
                return Expression::Constant(x.times(*y));
            }
        }
        let mut factors = self.into_factors();
        let mut more = rhs.into_factors();
        let ghost before = factors@;
        let ghost after = more@;
        factors.append(&mut more);
        assert(exprs(factors@) =~= exprs(before) + exprs(after));
        combine_factors(&factors)
    }

    /// The negated expression.
    pub fn negated(self) -> (r: Self)
        ensures
            r@ == expr::negation(self@),
    {
        match self {
            Expression::Constant(value) => Expression::Constant(value.negated()),
            Expression::Multiply(factors) => {
                proof {
                    lemma_view_list(factors);
                }
                if factors.len() > 0 {
                    if let Expression::Constant(value) = &factors[0] {
                        let first = Expression::Constant(value.negated());
                        let ghost before = exprs(factors@);
                        let mut out = factors;
                        out[0] = first;
                        proof {
                            lemma_view_list(out);
                            assert(exprs(out@) =~= before.update(0, first@));
                        }
                        return Expression::Multiply(out);
                    }
                }
                Self::pair(Expression::Constant(S::one().negated()), Expression::Multiply(factors))
            },
            other => Self::pair(Expression::Constant(S::one().negated()), other),
        }
    }
}

impl<S: Scalar> Clone for Expression<S> {
    fn clone(&self) -> (r: Self)
        ensures
            r@ == self@,
    {
        self.copy()
    }
}

impl<S: Scalar> vstd::std_specs::ops::AddSpecImpl for Expression<S> {
    open spec fn obeys_add_spec() -> bool {
        false
    }

    open spec fn add_req(self, rhs: Self) -> bool {
        true
    }

    open spec fn add_spec(self, rhs: Self) -> Self {
        self
    }
}

impl<S: Scalar> core::ops::Add for Expression<S> {
    type Output = Self;

    fn add(self, rhs: Self) -> (r: Self)
        ensures
            r@ == expr::sum(self@, rhs@),
    {
        self.plus(rhs)
    }
}

impl<S: Scalar> vstd::std_specs::ops::SubSpecImpl for Expression<S> {
    open spec fn obeys_sub_spec() -> bool {
        false
    }

    open spec fn sub_req(self, rhs: Self) -> bool {
        true
    }

    open spec fn sub_spec(self, rhs: Self) -> Self {
        self
    }
}

impl<S: Scalar> core::ops::Sub for Expression<S> {
    type Output = Self;

    fn sub(self, rhs: Self) -> (r: Self)
        ensures
            r@ == expr::difference(self@, rhs@),
    {
        self.plus(rhs.negated())
    }
}

impl<S: Scalar> vstd::std_specs::ops::MulSpecImpl for Expression<S> {
    open spec fn obeys_mul_spec() -> bool {
        false
    }

    open spec fn mul_req(self, rhs: Self) -> bool {
        true
    }

    open spec fn mul_spec(self, rhs: Self) -> Self {
        self
    }
}

impl<S: Scalar> core::ops::Mul for Expression<S> {
    type Output = Self;

    fn mul(self, rhs: Self) -> (r: Self)
        ensures
            r@ == expr::product(self@, rhs@),
    {
        self.times(rhs)
    }
}

impl<S: Scalar> vstd::std_specs::ops::NegSpecImpl for Expression<S> {
    open spec fn obeys_neg_spec() -> bool {
        false
    }

    open spec fn neg_req(self) -> bool {
        true
    }

    open spec fn neg_spec(self) -> Self {
        self
    }
}

impl<S: Scalar> core::ops::Neg for Expression<S> {
    type Output = Self;

    fn neg(self) -> (r: Self)
        ensures
            r@ == expr::negation(self@),
    {
        self.negated()
    }
}

/// Splits a term into `(coefficient, base)`, so that `x` and `-1 * x` are recognised as
/// the same base with opposite sign.
fn coefficient_and_base<S: Scalar>(term: &Expression<S>) -> (r: (S, Expression<S>))
    ensures
        (r.0, r.1@) == expr::coefficient_and_base(term@),
{
    if let Expression::Multiply(factors) = term {
        proof {
            lemma_view_list(*factors);
        }
        if factors.len() > 0 {
            if let Expression::Constant(value) = &factors[0] {
                if factors.len() == 2 {
                    return (*value, factors[1].copy());
                }
                let mut rest: Vec<Expression<S>> = Vec::new();
                let mut i: usize = 1;
                while i < factors.len()
                    invariant
                        1 <= i <= factors@.len(),
                        rest@.len() == i - 1,
                        forall|j: int|
                            0 <= j < i - 1 ==> (#[trigger] rest@[j])@ == factors@[j + 1]@,
                    decreases factors@.len() - i,
                {
                    rest.push(factors[i].copy());
                    i = i + 1;
                }
                proof {
                    lemma_view_list(rest);
                    assert(exprs(rest@) =~= exprs(factors@).skip(1));
                }
                return (*value, Expression::Multiply(rest));
            }
        }
    }
    (S::one(), term.copy())
}

/// Combines a flat list of addends, folding constants together and summing the
/// coefficients of any terms that share the same base.
fn combine_terms<S: Scalar>(terms: &Vec<Expression<S>>) -> (r: Expression<S>)
    ensures
        r@ == expr::sum_of_terms(exprs(terms@)),
{
    let mut constant: S = S::zero();
    let mut groups: Vec<(S, Expression<S>)> = Vec::new();
    let ghost all = exprs(terms@);
    let mut i: usize = 0;
    assert(group_views(groups@) =~= Seq::empty());
    while i < terms.len()
        invariant
            i <= terms@.len(),
            all == exprs(terms@),
            constant == expr::constant_sum(all, i as nat),
            group_views(groups@) == expr::term_groups(all, i as nat),
        decreases terms@.len() - i,
    {
        assert(all[i as int] == terms@[i as int]@);
        if let Expression::Constant(value) = &terms[i] {
            constant = constant.plus(*value);
        } else {
            let (coefficient, base) = coefficient_and_base(&terms[i]);
            let ghost before = group_views(groups@);
            let mut at: usize = 0;
            while at < groups.len() && !groups[at].1.same(&base)
                invariant
                    at <= groups@.len(),
                    before == group_views(groups@),
                    expr::group_of(before, base@, at as int) == expr::group_of(before, base@, 0),
                decreases groups@.len() - at,
            {
                at = at + 1;
            }
            if at < groups.len() {
                let total = groups[at].0.plus(coefficient);
                groups[at].0 = total;
                assert(group_views(groups@) =~= expr::grouped(before, coefficient, base@));
            } else {
                groups.push((coefficient, base));
                assert(group_views(groups@) =~= expr::grouped(before, coefficient, base@));
            }
        }
        i = i + 1;
    }

    let mut left: Vec<Expression<S>> = Vec::new();
    if !constant.same_as(S::zero()) {
        left.push(Expression::Constant(constant));
    }
    let ghost start = exprs(left@);
    let ghost views = group_views(groups@);
    let mut g: usize = 0;
    assert(exprs(left@) =~= start + expr::groups_terms(views, 0));
    while g < groups.len()
        invariant
            g <= groups@.len(),
            views == group_views(groups@),
            exprs(left@) == start + expr::groups_terms(views, g as nat),
        decreases groups@.len() - g,
    {
        let coefficient = groups[g].0;
        let ghost prior = left@;
        assert(views[g as int] == (groups@[g as int].0, groups@[g as int].1@));
        assert(expr::groups_terms(views, (g + 1) as nat) == expr::groups_terms(views, g as nat)
            + expr::group_terms(views[g as int]));
        if coefficient.same_as(S::zero()) {
            assert(exprs(left@) =~= start + expr::groups_terms(views, (g + 1) as nat));
        } else if coefficient.same_as(S::one()) {
            left.push(groups[g].1.copy());
            proof {
                lemma_exprs_push(prior, left@.last());
            }
            assert(exprs(left@) =~= start + expr::groups_terms(views, (g + 1) as nat));
        } else if coefficient.same_as(S::one().negated()) {
            left.push(
                Expression::pair(Expression::Constant(S::one().negated()), groups[g].1.copy()),
            );
            proof {
                lemma_exprs_push(prior, left@.last());
            }
            assert(exprs(left@) =~= start + expr::groups_terms(views, (g + 1) as nat));
        } else {
            left.push(Expression::pair(Expression::Constant(coefficient), groups[g].1.copy()));
            proof {
                lemma_exprs_push(prior, left@.last());
            }
            assert(exprs(left@) =~= start + expr::groups_terms(views, (g + 1) as nat));
        }
        g = g + 1;
    }
    assert(exprs(left@) =~= expr::collected_terms(all));
    if left.len() == 0 {
        Expression::zero()
    } else if left.len() == 1 {
        left[0].copy()
    } else {
        proof {
            lemma_view_list(left);
        }
        Expression::Add(left)
    }
}

/// One base of a product with the copies of it that are left after cancelling.
struct Atom<S> {
    base: Expression<S>,
    inverted: bool,
    copies: Vec<Expression<S>>,
}

spec fn atom_view<S: Scalar>(atom: Atom<S>) -> (Expr<S>, int) {
    (
        atom.base@,
        if atom.inverted {
            -(atom.copies@.len() as int)
        } else {
            atom.copies@.len() as int
        },
    )
}

spec fn atom_ok<S: Scalar>(atom: Atom<S>) -> bool {
    exprs(atom.copies@) == expr::copies(atom.base@, atom.copies@.len() as int)
}

spec fn atom_views<S: Scalar>(atoms: Seq<Atom<S>>) -> Seq<(Expr<S>, int)> {
    Seq::new(atoms.len(), |i: int| atom_view(atoms[i]))
}

spec fn leaf_views<S: Scalar>(list: Seq<(Expression<S>, bool)>) -> Seq<(Expr<S>, bool)> {
    Seq::new(list.len(), |i: int| (list[i].0@, list[i].1))
}

/// Takes a factor apart into its innermost factors.
fn collect_leaves<S: Scalar>(
    factor: &Expression<S>,
    inverted: bool,
    out: &mut Vec<(Expression<S>, bool)>,
)
    ensures
        leaf_views(final(out)@) == leaf_views(old(out)@) + expr::leaves(factor@, inverted),
    decreases factor,
{
    match factor {
        Expression::Reciprocal(inner) => {
            collect_leaves(inner, !inverted, out);
        },
        Expression::Multiply(factors) => {
            proof {
                lemma_view_list(*factors);
            }
            collect_list_leaves(factors, inverted, out);
        },
        other => {
            out.push((other.copy(), inverted));
            assert(leaf_views(out@) =~= leaf_views(old(out)@) + expr::leaves(factor@, inverted));
        },
    }
}

fn collect_list_leaves<S: Scalar>(
    factors: &Vec<Expression<S>>,
    inverted: bool,
    out: &mut Vec<(Expression<S>, bool)>,
)
    ensures
        leaf_views(final(out)@) == leaf_views(old(out)@) + expr::leaves_of(
            exprs(factors@),
            factors@.len(),
            inverted,
        ),
    decreases factors,
{
    let mut i: usize = 0;
    let ghost start = leaf_views(out@);
    assert(start + expr::leaves_of(exprs(factors@), 0, inverted) =~= start);
    while i < factors.len()
        invariant
            i <= factors@.len(),
            leaf_views(out@) == start + expr::leaves_of(exprs(factors@), i as nat, inverted),
        decreases factors@.len() - i,
    {
        proof {
            assert(decreases_to!(factors => factors@[i as int]));
            assert(exprs(factors@)[i as int] == factors@[i as int]@);
        }
        collect_leaves(&factors[i], inverted, out);
        i = i + 1;
        assert(leaf_views(out@) =~= start + expr::leaves_of(exprs(factors@), i as nat, inverted));
    }
}

/// Counts one more factor with the given base.
fn count_factor<S: Scalar>(base: &Expression<S>, inverted: bool, atoms: &mut Vec<Atom<S>>)
    requires
        forall|i: int| 0 <= i < old(atoms)@.len() ==> atom_ok(#[trigger] old(atoms)@[i]),
    ensures
        forall|i: int| 0 <= i < final(atoms)@.len() ==> atom_ok(#[trigger] final(atoms)@[i]),
        atom_views(final(atoms)@) == expr::with_power(
            atom_views(old(atoms)@),
            base@,
            if inverted {
                -1
            } else {
                1
            },
        ),
{
    let ghost before = atom_views(atoms@);
    let ghost power: int = if inverted {
        -1
    } else {
        1
    };
    let mut at: usize = 0;
    while at < atoms.len() && !atoms[at].base.same(base)
        invariant
            at <= atoms@.len(),
            before == atom_views(atoms@),
            expr::atom_of(before, base@, at as int) == expr::atom_of(before, base@, 0),
            forall|i: int| 0 <= i < atoms@.len() ==> atom_ok(#[trigger] atoms@[i]),
        decreases atoms@.len() - at,
    {
        at = at + 1;
    }
    if at < atoms.len() {
        let ghost old_atom = atoms@[at as int];
        assert(before[at as int] == atom_view(old_atom));
        assert(atom_ok(old_atom));
        assert(forall|i: int|
            0 <= i < old_atom.copies@.len() ==> (#[trigger] old_atom.copies@[i])@
                == expr::copies(old_atom.base@, old_atom.copies@.len() as int)[i]) by {
            assert forall|i: int| 0 <= i < old_atom.copies@.len() implies (
            #[trigger] old_atom.copies@[i])@ == expr::copies(
                old_atom.base@,
                old_atom.copies@.len() as int,
            )[i] by {
                assert(exprs(old_atom.copies@)[i] == old_atom.copies@[i]@);
            }
        }
        let mut atom = atoms.remove(at);
        if atom.inverted == inverted {
            atom.copies.push(atom.base.copy());
            assert(exprs(atom.copies@) =~= expr::copies(atom.base@, atom.copies@.len() as int));
        } else if atom.copies.len() == 0 {
            atom.inverted = inverted;
            atom.copies.push(atom.base.copy());
            assert(exprs(atom.copies@) =~= expr::copies(atom.base@, atom.copies@.len() as int));
        } else {
            atom.copies.pop();
            assert(exprs(atom.copies@) =~= expr::copies(atom.base@, atom.copies@.len() as int));
        }
        atoms.insert(at, atom);
        assert(atom_views(atoms@) =~= expr::with_power(before, base@, power));
    } else {
        let copies = vec![base.copy()];
        assert(exprs(copies@) =~= expr::copies(base@, 1));
        atoms.push(Atom { base: base.copy(), inverted, copies });
        assert(atom_views(atoms@) =~= expr::with_power(before, base@, power));
    }
}

/// Combines a flat list of factors: multiplies constants together and cancels any base
/// that appears with a net power of zero.
fn combine_factors<S: Scalar>(factors: &Vec<Expression<S>>) -> (r: Expression<S>)
    ensures
        r@ == expr::product_of_factors(exprs(factors@)),
{
    let mut leaves: Vec<(Expression<S>, bool)> = Vec::new();
    assert(leaf_views(leaves@) =~= Seq::empty());
    collect_list_leaves(factors, false, &mut leaves);
    let ghost all = expr::leaves_of(exprs(factors@), factors@.len(), false);
    assert(leaf_views(leaves@) =~= all);

    let mut constant: S = S::one();
    let mut atoms: Vec<Atom<S>> = Vec::new();
    let mut i: usize = 0;
    assert(atom_views(atoms@) =~= Seq::empty());
    while i < leaves.len()
        invariant
            i <= leaves@.len(),
            all == leaf_views(leaves@),
            constant == expr::constant_product(all, i as nat),
            atom_views(atoms@) == expr::net_powers(all, i as nat),
            forall|j: int| 0 <= j < atoms@.len() ==> atom_ok(#[trigger] atoms@[j]),
        decreases leaves@.len() - i,
    {
        assert(all[i as int] == (leaves@[i as int].0@, leaves@[i as int].1));
        let inverted = leaves[i].1;
        if let Expression::Constant(value) = &leaves[i].0 {
            if inverted {
                constant = constant.over(*value);
            } else {
                constant = constant.times(*value);
            }
        } else {
            count_factor(&leaves[i].0, inverted, &mut atoms);
        }
        i = i + 1;
    }
    if constant.same_as(S::zero()) {
        return Expression::zero();
    }
    let mut left: Vec<Expression<S>> = Vec::new();
    if !constant.same_as(S::one()) {
        left.push(Expression::Constant(constant));
    }
    let mut below: Vec<Expression<S>> = Vec::new();
    let ghost start = exprs(left@);
    let ghost views = atom_views(atoms@);
    let mut k: usize = 0;
    assert(exprs(left@) =~= start + expr::numerator(views, 0));
    assert(exprs(below@) =~= expr::denominator(views, 0));
    while k < atoms.len()
        invariant
            k <= atoms@.len(),
            views == atom_views(atoms@),
            forall|j: int| 0 <= j < atoms@.len() ==> atom_ok(#[trigger] atoms@[j]),
            exprs(left@) == start + expr::numerator(views, k as nat),
            exprs(below@) == expr::denominator(views, k as nat),
        decreases atoms@.len() - k,
    {
        let ghost up = exprs(left@);
        let ghost down = exprs(below@);
        let mut more = Expression::copy_list(&atoms[k].copies);
        let ghost added = exprs(more@);
        assert(views[k as int] == atom_view(atoms@[k as int]));
        assert(atom_ok(atoms@[k as int]));
        let ghost old_left = left@;
        let ghost old_below = below@;
        let ghost more_seq = more@;
        if atoms[k].inverted {
            below.append(&mut more);
            assert(exprs(below@) =~= down + added);
            assert(expr::copies(views[k as int].0, views[k as int].1) =~= Seq::empty());
        } else {
            left.append(&mut more);
            assert(exprs(left@) =~= up + added);
            assert(expr::copies(views[k as int].0, -views[k as int].1) =~= Seq::empty());
        }
        assert(exprs(left@) =~= start + expr::numerator(views, (k + 1) as nat));
        assert(exprs(below@) =~= expr::denominator(views, (k + 1) as nat));
        k = k + 1;
    }
    let ghost tops = left@;
    let ghost bottoms = exprs(below@);
    if below.len() == 1 {
        left.push(Expression::Reciprocal(Box::new(below[0].copy())));
        proof {
            assert(bottoms[0] == below@[0]@);
            lemma_exprs_push(tops, left@.last());
        }
    } else if below.len() > 1 {
        proof {
            lemma_view_list(below);
        }
        left.push(Expression::Reciprocal(Box::new(Expression::Multiply(below))));
        proof {
            lemma_exprs_push(tops, left@.last());
        }
    }
    assert(exprs(left@) =~= expr::collected_factors(constant, views));
    if left.len() == 0 {
        Expression::one()
    } else if left.len() == 1 {
        left[0].copy()
    } else {
        proof {
            lemma_view_list(left);
        }
        Expression::Multiply(left)
    }
}

/// Error returned while numerically evaluating an expression.
#[derive(Debug, Clone, PartialEq)]
pub enum EvaluationError<S> {
    /// No value was supplied for a symbol.
    MissingSymbol(String),
    /// A reciprocal evaluated to division by zero.
    DivisionByZero,
    /// A square root received a negative value.
    NegativeSquareRoot(S),
}

impl<S: Scalar> View for EvaluationError<S> {
    type V = Failure<S>;

    open spec fn view(&self) -> Failure<S> {
        match self {
            EvaluationError::MissingSymbol(name) => Failure::MissingSymbol(name@),
            EvaluationError::DivisionByZero => Failure::DivisionByZero,
            EvaluationError::NegativeSquareRoot(v) => Failure::NegativeSquareRoot(*v),
        }
    }
}

/// The message for a failed evaluation.
pub open spec fn failure_text<S: Scalar>(failure: Failure<S>) -> Seq<char> {
    match failure {
        Failure::MissingSymbol(name) => "missing value for symbol '"@ + name + "'"@,
        Failure::DivisionByZero => "division by zero"@,
        Failure::NegativeSquareRoot(v) => "cannot take the real square root of "@ + v.shown(),
    }
}

impl<S: Scalar> EvaluationError<S> {
    /// The message for a reader.
    pub fn to_text(&self) -> (r: String)
        ensures
            r@ == failure_text(self@),
    {
        match self {
            EvaluationError::MissingSymbol(name) => text::concat3(
                "missing value for symbol '",
                name.as_str(),
                "'",
            ),
            EvaluationError::DivisionByZero => text::copy("division by zero"),
            EvaluationError::NegativeSquareRoot(v) => text::concat(
                "cannot take the real square root of ",
                v.text().as_str(),
            ),
        }
    }
}

/// What an evaluation comes to.
pub open spec fn outcome<S: Scalar>(r: Result<S, EvaluationError<S>>) -> Result<S, Failure<S>> {
    match r {
        Ok(v) => Ok(v),
        Err(error) => Err(error@),
    }
}

/// The value of a symbol, looked up first as written and then without regard to case.
fn resolve<S: Scalar>(values: &NameMap<S>, wanted: &str) -> (r: Option<S>)
    ensures
        r == expr::resolve(values@, wanted@),
{
    if let Some(v) = values.get(wanted) {
        return Some(*v);
    }
    let mut best: Option<usize> = None;
    let mut i: usize = 0;
    while i < values.len()
        invariant
            i <= values.names().len(),
            match best {
                Some(b) => {
                    &&& b < i
                    &&& text::eq_ignoring_case(values.names()[b as int], wanted@)
                    &&& forall|j: int|
                        0 <= j < i && text::eq_ignoring_case(#[trigger] values.names()[j], wanted@)
                            ==> values.names()[j] == values.names()[b as int] || text::precedes(
                            values.names()[b as int],
                            values.names()[j],
                        )
                },
                None => forall|j: int|
                    0 <= j < i ==> !text::eq_ignoring_case(#[trigger] values.names()[j], wanted@),
            },
        decreases values.names().len() - i,
    {
        if text::same_ignoring_case(values.name_at(i), wanted) {
            match best {
                None => {
                    best = Some(i);
                },
                Some(b) => {
                    if text::is_before(values.name_at(i), values.name_at(b)) {
                        proof {
                            let new = values.names()[i as int];
                            let old = values.names()[b as int];
                            assert forall|j: int|
                                0 <= j < i + 1 && text::eq_ignoring_case(
                                    #[trigger] values.names()[j],
                                    wanted@,
                                ) implies values.names()[j] == new || text::precedes(
                                new,
                                values.names()[j],
                            ) by {
                                if j < i && values.names()[j] != old {
                                    text::lemma_precedes_transitive(new, old, values.names()[j]);
                                }
                            }
                        }
                        best = Some(i);
                    } else {
                        proof {
                            text::lemma_precedes_total(
                                values.names()[b as int],
                                values.names()[i as int],
                            );
                        }
                    }
                },
            }
        }
        i = i + 1;
    }
    proof {
        values.lemma_names();
    }
    match best {
        Some(b) => {
            let name = values.name_at(b);
            proof {
                assert forall|other: Seq<char>| #[trigger]
                    values@.contains_key(other) && text::eq_ignoring_case(
                        other,
                        wanted@,
                    ) implies other == name@ || text::precedes(name@, other) by {
                    assert(values.names().contains(other));
                }
                assert(expr::closest(values@, wanted@, name@));
                let chosen = choose|n: Seq<char>| expr::closest(values@, wanted@, n);
                assert(expr::closest(values@, wanted@, chosen));
                if chosen != name@ {
                    text::lemma_precedes_transitive(chosen, name@, chosen);
                    text::lemma_precedes_irreflexive(chosen);
                }
            }
            match values.get(name) {
                Some(v) => Some(*v),
                None => None,
            }
        },
        None => {
            proof {
                assert forall|n: Seq<char>| !expr::closest(values@, wanted@, n) by {
                    if values@.contains_key(n) {
                        assert(values.names().contains(n));
                    }
                }
            }
            None
        },
    }
}

impl<S: Scalar> Expression<S> {
    /// Evaluates the expression using symbol values.
    pub fn evaluate(&self, values: &NameMap<S>) -> (r: Result<S, EvaluationError<S>>)
        ensures
            outcome(r) == expr::value(self@, values@),
        decreases self, 1nat,
    {
        match self {
            Expression::Constant(v) => Ok(*v),
            Expression::Symbol(name) => match resolve(values, name.as_str()) {
                Some(v) => Ok(v),
                None => Err(EvaluationError::MissingSymbol(name.clone())),
            },
            Expression::Add(terms) => {
                proof {
                    lemma_view_list(*terms);
                }
                let mut total: S = S::zero();
                let mut i: usize = 0;
                while i < terms.len()
                    invariant
                        i <= terms@.len(),
                        decreases_to!(self => terms),
                        Ok::<S, Failure<S>>(total) == expr::value_of_sum(
                            exprs(terms@),
                            i as nat,
                            values@,
                        ),
                        self@ == Expr::Add(exprs(terms@)),
                    decreases terms@.len() - i,
                {
                    proof {
                        assert(decreases_to!(terms => terms@[i as int]));
                        assert(exprs(terms@)[i as int] == terms@[i as int]@);
                    }
                    match terms[i].evaluate(values) {
                        Ok(v) => {
                            total = total.plus(v);
                        },
                        Err(error) => {
                            proof {
                                lemma_sum_failure(
                                    exprs(terms@),
                                    (i + 1) as nat,
                                    terms@.len(),
                                    values@,
                                );
                            }
                            return Err(error);
                        },
                    }
                    i = i + 1;
                }
                Ok(total)
            },
            Expression::Multiply(factors) => {
                proof {
                    lemma_view_list(*factors);
                }
                let mut total: S = S::one();
                let mut i: usize = 0;
                while i < factors.len()
                    invariant
                        i <= factors@.len(),
                        decreases_to!(self => factors),
                        Ok::<S, Failure<S>>(total) == expr::value_of_product(
                            exprs(factors@),
                            i as nat,
                            values@,
                        ),
                        self@ == Expr::Multiply(exprs(factors@)),
                    decreases factors@.len() - i,
                {
                    proof {
                        assert(decreases_to!(factors => factors@[i as int]));
                        assert(exprs(factors@)[i as int] == factors@[i as int]@);
                    }
                    match factors[i].evaluate(values) {
                        Ok(v) => {
                            total = total.times(v);
                        },
                        Err(error) => {
                            proof {
                                lemma_product_failure(
                                    exprs(factors@),
                                    (i + 1) as nat,
                                    factors@.len(),
                                    values@,
                                );
                            }
                            return Err(error);
                        },
                    }
                    i = i + 1;
                }
                Ok(total)
            },
            Expression::Reciprocal(inner) => match inner.evaluate(values) {
                Ok(v) => if v.same_as(S::zero()) {
                    Err(EvaluationError::DivisionByZero)
                } else {
                    Ok(S::one().over(v))
                },
                Err(error) => Err(error),
            },
            Expression::Sqrt(inner) => match inner.evaluate(values) {
                Ok(v) => if v.less_than(S::zero()) {
                    Err(EvaluationError::NegativeSquareRoot(v))
                } else {
                    Ok(v.sqrt())
                },
                Err(error) => Err(error),
            },
        }
    }

    /// Collects all symbol names used by the expression, in ascending order.
    pub fn symbols(&self) -> (r: Vec<String>)
        ensures
            forall|name: Seq<char>|
                text::texts(r@).contains(name) <==> expr::symbols(self@).contains(name),
            forall|i: int, j: int|
                0 <= i < j < r@.len() ==> text::precedes(
                    #[trigger] text::texts(r@)[i],
                    #[trigger] text::texts(r@)[j],
                ),
    {
        let mut found: NameMap<()> = NameMap::new();
        self.collect_symbols(&mut found);
        let mut out: Vec<String> = Vec::new();
        let mut i: usize = 0;
        while i < found.len()
            invariant
                i <= found.names().len(),
                text::texts(out@) == found.names().take(i as int),
            decreases found.names().len() - i,
        {
            let ghost before = out@;
            out.push(text::copy(found.name_at(i)));
            assert(text::texts(out@) =~= text::texts(before).push(found.names()[i as int]));
            i = i + 1;
            assert(text::texts(out@) =~= found.names().take(i as int));
        }
        proof {
            use_type_invariant(&found);
            found.lemma_names();
            assert(text::texts(out@) =~= found.names());
            assert forall|name: Seq<char>|
                text::texts(out@).contains(name) <==> expr::symbols(self@).contains(name) by {
                assert(found@.dom().contains(name) <==> found.names().contains(name));
            }
        }
        out
    }

    fn collect_symbols(&self, found: &mut NameMap<()>)
        ensures
            final(found)@.dom() == old(found)@.dom().union(expr::symbols(self@)),
        decreases self,
    {
        match self {
            Expression::Constant(_) => {
                assert(found@.dom() =~= old(found)@.dom().union(expr::symbols(self@)));
            },
            Expression::Symbol(name) => {
                found.insert(name.clone(), ());
                assert(found@.dom() =~= old(found)@.dom().union(expr::symbols(self@)));
            },
            Expression::Add(list) => {
                proof {
                    lemma_view_list(*list);
                }
                Self::collect_list_symbols(list, found);
            },
            Expression::Multiply(list) => {
                proof {
                    lemma_view_list(*list);
                }
                Self::collect_list_symbols(list, found);
            },
            Expression::Reciprocal(inner) => {
                inner.collect_symbols(found);
            },
            Expression::Sqrt(inner) => {
                inner.collect_symbols(found);
            },
        }
    }

    fn collect_list_symbols(list: &Vec<Self>, found: &mut NameMap<()>)
        ensures
            final(found)@.dom() == old(found)@.dom().union(
                expr::symbols_of(exprs(list@), list@.len()),
            ),
        decreases list,
    {
        let ghost start = found@.dom();
        let mut i: usize = 0;
        assert(start =~= start.union(expr::symbols_of(exprs(list@), 0)));
        while i < list.len()
            invariant
                i <= list@.len(),
                found@.dom() == start.union(expr::symbols_of(exprs(list@), i as nat)),
            decreases list@.len() - i,
        {
            proof {
                assert(decreases_to!(list => list@[i as int]));
                assert(exprs(list@)[i as int] == list@[i as int]@);
            }
            list[i].collect_symbols(found);
            i = i + 1;
            assert(found@.dom() =~= start.union(expr::symbols_of(exprs(list@), i as nat)));
        }
    }

    /// The expression as text.
    pub fn to_text(&self) -> (r: String)
        ensures
            r@ == expr::shown(self@, 0),
    {
        self.text_within(0)
    }

    fn text_within(&self, parent: u8) -> (r: String)
        ensures
            r@ == expr::shown(self@, parent as int),
        decreases self,
    {
        match self {
            Expression::Constant(v) => v.text(),
            Expression::Symbol(name) => name.clone(),
            Expression::Add(terms) => {
                proof {
                    lemma_view_list(*terms);
                }
                let body = Self::list_text(terms, " + ", 1);
                if parent > 1 {
                    text::concat3("(", body.as_str(), ")")
                } else {
                    body
                }
            },
            Expression::Multiply(factors) => {
                proof {
                    lemma_view_list(*factors);
                }
                let body = Self::list_text(factors, " * ", 2);
                if parent > 2 {
                    text::concat3("(", body.as_str(), ")")
                } else {
                    body
                }
            },
            Expression::Reciprocal(inner) => text::concat("1 / ", inner.text_within(3).as_str()),
            Expression::Sqrt(inner) => text::concat3(
                "sqrt(",
                inner.text_within(0).as_str(),
                ")",
            ),
        }
    }

    fn list_text(list: &Vec<Self>, glue: &str, level: u8) -> (r: String)
        ensures
            r@ == expr::shown_list(exprs(list@), list@.len(), glue@, level as int),
        decreases list,
    {
        let mut out = String::new();
        let mut i: usize = 0;
        while i < list.len()
            invariant
                i <= list@.len(),
                out@ == expr::shown_list(exprs(list@), i as nat, glue@, level as int),
            decreases list@.len() - i,
        {
            proof {
                assert(decreases_to!(list => list@[i as int]));
                assert(exprs(list@)[i as int] == list@[i as int]@);
            }
            if i > 0 {
                out.append(glue);
            }
            let item = list[i].text_within(level);
            out.append(item.as_str());
            proof {
                if i == 0 {
                    assert(out@ =~= item@);
                }
            }
            i = i + 1;
        }
        out
    }

    /// Reads a scalar token: a number with an optional scale suffix, or a symbol.
    pub fn parse_scalar(raw: &str) -> (r: Result<Self, String>)
        ensures
            match r {
                Ok(e) => expr::scalar::<S>(raw@) == Ok::<Expr<S>, Seq<char>>(e@),
                Err(message) => expr::scalar::<S>(raw@) == Err::<Expr<S>, Seq<char>>(message@),
            },
    {
        let inner = text::unquoted(text::trimmed(raw).as_str());
        if inner.as_str().unicode_len() == 0 {
            return Err(text::copy("empty scalar value"));
        }
        match parse_spice_number::<S>(inner.as_str()) {
            Some(v) => Ok(Expression::Constant(v)),
            None => if is_simple_symbol(inner.as_str()) {
                Ok(Expression::Symbol(inner))
            } else {
                Err(
                    text::concat3(
                        "unsupported scalar expression '",
                        raw,
                        "'; use a number or symbol",
                    ),
                )
            },
        }
    }
}

/// A sum whose first `m` terms fail fails in the same way.
proof fn lemma_sum_failure<S: Scalar>(
    terms: Seq<Expr<S>>,
    m: nat,
    n: nat,
    values: Map<Seq<char>, S>,
)
    requires
        m <= n <= terms.len(),
        expr::value_of_sum(terms, m, values) is Err,
    ensures
        expr::value_of_sum(terms, n, values) == expr::value_of_sum(terms, m, values),
    decreases n,
{
    if m < n {
        lemma_sum_failure(terms, m, (n - 1) as nat, values);
    }
}

/// A product whose first `m` factors fail fails in the same way.
proof fn lemma_product_failure<S: Scalar>(
    factors: Seq<Expr<S>>,
    m: nat,
    n: nat,
    values: Map<Seq<char>, S>,
)
    requires
        m <= n <= factors.len(),
        expr::value_of_product(factors, m, values) is Err,
    ensures
        expr::value_of_product(factors, n, values) == expr::value_of_product(factors, m, values),
    decreases n,
{
    if m < n {
        lemma_product_failure(factors, m, (n - 1) as nat, values);
    }
}

fn is_letter(c: char) -> (r: bool)
    ensures
        r == text::is_letter(c),
{
    ('a' <= c && c <= 'z') || ('A' <= c && c <= 'Z')
}

fn is_simple_symbol(s: &str) -> (r: bool)
    ensures
        r == expr::is_simple_symbol(s@),
{
    let v = text::chars_of(s);
    if v.len() == 0 || !(is_letter(v[0]) || v[0] == '_') {
        return false;
    }
    let mut i: usize = 1;
    while i < v.len()
        invariant
            1 <= i <= v@.len(),
            v@ == s@,
            forall|j: int|
                1 <= j < i ==> text::is_letter(#[trigger] v@[j]) || text::is_digit(v@[j]) || v@[j]
                    == '_' || v@[j] == '$' || v@[j] == '.',
        decreases v@.len() - i,
    {
        let c = v[i];
        if !(is_letter(c) || ('0' <= c && c <= '9') || c == '_' || c == '$' || c == '.') {
            assert(!text::is_letter(s@[i as int]));
            return false;
        }
        i = i + 1;
    }
    true
}

fn suffix_exponent(suffix: &Vec<char>) -> (r: Option<i8>)
    ensures
        match r {
            Some(exponent) => expr::suffix_exponent(suffix@) == Some(exponent as int),
            None => expr::suffix_exponent(suffix@) is None,
        },
{
    if suffix.len() >= 3 && suffix[0] == 'm' && suffix[1] == 'e' && suffix[2] == 'g' {
        return Some(6);
    }
    if suffix.len() == 0 {
        return None;
    }
    let c = suffix[0];
    if c == 't' {
        Some(12)
    } else if c == 'g' {
        Some(9)
    } else if c == 'k' {
        Some(3)
    } else if c == 'm' {
        Some(-3)
    } else if c == 'u' {
        Some(-6)
    } else if c == 'n' {
        Some(-9)
    } else if c == 'p' {
        Some(-12)
    } else if c == 'f' {
        Some(-15)
    } else {
        None
    }
}

fn parse_plain_number<S: Scalar>(raw: &str) -> (r: Option<S>)
    ensures
        r == expr::plain_number::<S>(raw@),
{
    let v = text::chars_of(raw);
    proof {
        text::lemma_find(v@, '=', 0);
    }
    if text::position(&v, '=', 0) < v.len() {
        return None;
    }
    S::parse(raw)
}

/// Reads a number with an optional scale suffix.
pub fn parse_spice_number<S: Scalar>(raw: &str) -> (r: Option<S>)
    ensures
        r == expr::spice_number::<S>(raw@),
{
    if let Some(v) = parse_plain_number(raw) {
        return Some(v);
    }
    let v = text::chars_of(raw);
    let mut split: usize = 0;
    while split < v.len() && !is_letter(v[split])
        invariant
            split <= v@.len(),
            expr::first_letter(v@, split as int) == expr::first_letter(v@, 0),
        decreases v@.len() - split,
    {
        split = split + 1;
    }
    if split >= v.len() {
        return None;
    }
    let head = text::text_of(&v, 0, split);
    let tail = text::text_of(&v, split, v.len());
    assert(v@.subrange(0, split as int) =~= raw@.take(split as int));
    assert(v@.subrange(split as int, v@.len() as int) =~= raw@.skip(split as int));
    match parse_plain_number::<S>(head.as_str()) {
        Some(base) => {
            let suffix = text::chars_of(text::to_lower(tail.as_str()).as_str());
            match suffix_exponent(&suffix) {
                Some(exponent) => Some(base.times(S::power_of_ten(exponent))),
                None => None,
            }
        },
        None => None,
    }
}

} // verus!
