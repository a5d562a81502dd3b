//! What counts when a system is evaluated.

use crate::expr::{
    closest, resolve, symbols, symbols_of, value, value_of_product, value_of_sum, Expr, Failure,
};
use crate::expression::{exprs, Expression};
use crate::matrix::Matrix;
use crate::numeric::{
    driven, environment, evaluates_to, is_evaluation, lemma_evaluated, NumericMnaSystem,
};
use crate::scalar::Scalar;
use crate::system::{grid, MnaSystem};
use crate::text;
use vstd::prelude::*;

verus! {

// Values in effect

/// A given value always counts, whatever `.param` says of its name. A parameter that is not
/// given has the value of its default, where that can be evaluated at the given values. No other
/// name has a value.
pub proof fn law_given_values_count<S: Scalar>(
    parameters: Map<Seq<char>, Expr<S>>,
    values: Map<Seq<char>, S>,
    name: Seq<char>,
)
    ensures
        values.contains_key(name) ==> environment(parameters, values).contains_key(name)
            && environment(parameters, values)[name] == values[name],
        !values.contains_key(name) && parameters.contains_key(name) ==> match value(
            parameters[name],
            values,
        ) {
            Ok(v) => environment(parameters, values).contains_key(name) && environment(
                parameters,
                values,
            )[name] == v,
            Err(_) => !environment(parameters, values).contains_key(name),
        },
        !values.contains_key(name) && !parameters.contains_key(name) ==> !environment(
            parameters,
            values,
        ).contains_key(name),
{
}

proof fn lemma_one_precedes(a: Seq<char>, b: Seq<char>)
    ensures
        !(text::precedes(a, b) && text::precedes(b, a)),
    decreases a.len(),
{
    if a.len() > 0 && b.len() > 0 && a[0] == b[0] {
        lemma_one_precedes(a.skip(1), b.skip(1));
    }
}

/// A symbol has the value that its own name is given. Without one it has that of a name that
/// differs from it in letter case only: of several, that of the first in the order of texts.
/// Without such a name it has none, which is reported with the symbol's name.
pub proof fn law_symbols_are_looked_up<S: Scalar>(
    values: Map<Seq<char>, S>,
    name: Seq<char>,
    other: Seq<char>,
)
    ensures
        values.contains_key(name) ==> value(Expr::Symbol(name), values) == Ok::<S, Failure<S>>(
            values[name],
        ),
        !values.contains_key(name) && values.contains_key(other) && text::eq_ignoring_case(
            other,
            name,
        ) && (forall|third: Seq<char>| #[trigger]
            values.contains_key(third) && text::eq_ignoring_case(third, name) ==> third == other
                || text::precedes(other, third)) ==> value(Expr::Symbol(name), values) == Ok::<
            S,
            Failure<S>,
        >(values[other]),
        (forall|third: Seq<char>| #[trigger]
            values.contains_key(third) ==> !text::eq_ignoring_case(third, name)) ==> value(
            Expr::Symbol(name),
            values,
        ) == Err::<S, Failure<S>>(Failure::MissingSymbol(name)),
{
    assert(text::eq_ignoring_case(name, name));
    if !values.contains_key(name) && resolve(values, name) is Some {
        let chosen = choose|chosen: Seq<char>| closest(values, name, chosen);
        assert(closest(values, name, chosen));
        lemma_one_precedes(chosen, other);
    }
    if !values.contains_key(name) && values.contains_key(other) && text::eq_ignoring_case(
        other,
        name,
    ) && (forall|third: Seq<char>| #[trigger]
        values.contains_key(third) && text::eq_ignoring_case(third, name) ==> third == other
            || text::precedes(other, third)) {
        assert(closest(values, name, other));
    }
}

/// Where a single given name is a symbol's, letter case aside, the symbol has its value.
pub proof fn law_letter_case_makes_no_difference<S: Scalar>(
    values: Map<Seq<char>, S>,
    name: Seq<char>,
    given: Seq<char>,
)
    requires
        values.contains_key(given),
        text::eq_ignoring_case(given, name),
        forall|other: Seq<char>| #[trigger]
            values.contains_key(other) && text::eq_ignoring_case(other, name) ==> other == given,
    ensures
        value(Expr::Symbol(name), values) == Ok::<S, Failure<S>>(values[given]),
{
    if values.contains_key(name) {
        assert(text::eq_ignoring_case(name, name));
    } else {
        assert(closest(values, name, given));
    }
}

// Complete maps

/// Every symbol of an expression is given a value.
pub open spec fn is_complete<S: Scalar>(e: Expr<S>, values: Map<Seq<char>, S>) -> bool {
    forall|name: Seq<char>| #[trigger] symbols(e).contains(name) ==> values.contains_key(name)
}

proof fn lemma_symbols_of<S: Scalar>(list: Seq<Expr<S>>, n: nat, k: int)
    requires
        0 <= k < n <= list.len(),
    ensures
        symbols(list[k]).subset_of(symbols_of(list, n)),
    decreases n,
{
    if k < n - 1 {
        lemma_symbols_of(list, (n - 1) as nat, k);
    }
}

proof fn lemma_defaults_yield<S: Scalar>(
    e: Expr<S>,
    parameters: Map<Seq<char>, Expr<S>>,
    values: Map<Seq<char>, S>,
)
    requires
        is_complete(e, values),
    ensures
        value(e, environment(parameters, values)) == value(e, values),
    decreases e, 0nat,
{
    match e {
        Expr::Constant(_) => {},
        Expr::Symbol(name) => {
            assert(symbols(e).contains(name));
            law_given_values_count(parameters, values, name);
        },
        Expr::Add(list) => {
            assert(symbols(e) == symbols_of(list, list.len()));
            lemma_defaults_yield_in(list, list.len(), parameters, values);
        },
        Expr::Multiply(list) => {
            assert(symbols(e) == symbols_of(list, list.len()));
            lemma_defaults_yield_in(list, list.len(), parameters, values);
        },
        Expr::Reciprocal(inner) => {
            assert(symbols(e) == symbols(*inner));
            lemma_defaults_yield(*inner, parameters, values);
        },
        Expr::Sqrt(inner) => {
            assert(symbols(e) == symbols(*inner));
            lemma_defaults_yield(*inner, parameters, values);
        },
    }
}

proof fn lemma_defaults_yield_in<S: Scalar>(
    list: Seq<Expr<S>>,
    n: nat,
    parameters: Map<Seq<char>, Expr<S>>,
    values: Map<Seq<char>, S>,
)
    requires
        n <= list.len(),
        forall|name: Seq<char>| #[trigger]
            symbols_of(list, n).contains(name) ==> values.contains_key(name),
    ensures
        value_of_sum(list, n, environment(parameters, values)) == value_of_sum(list, n, values),
        value_of_product(list, n, environment(parameters, values)) == value_of_product(
            list,
            n,
            values,
        ),
    decreases list, n,
{
    if n > 0 {
        let less = (n - 1) as nat;
        assert forall|name: Seq<char>| #[trigger]
            symbols_of(list, less).contains(name) implies values.contains_key(name) by {
            assert(symbols_of(list, n).contains(name));
        }
        lemma_defaults_yield_in(list, less, parameters, values);
        lemma_symbols_of(list, n, n - 1);
        assert forall|name: Seq<char>| #[trigger]
            symbols(list[n - 1]).contains(name) implies values.contains_key(name) by {
            assert(symbols_of(list, n).contains(name));
        }
        lemma_defaults_yield(list[n - 1], parameters, values);
    }
}

/// At a complete map of values `.param` lines make no difference: an expression whose symbols
/// are all given has the same value with any defaults, and with none.
pub proof fn law_defaults_yield_to_given_values<S: Scalar>(
    e: Expr<S>,
    parameters: Map<Seq<char>, Expr<S>>,
    other: Map<Seq<char>, Expr<S>>,
    values: Map<Seq<char>, S>,
)
    requires
        is_complete(e, values),
    ensures
        value(e, environment(parameters, values)) == value(e, environment(other, values)),
        value(e, environment(parameters, values)) == value(e, values),
{
    lemma_defaults_yield(e, parameters, values);
    lemma_defaults_yield(e, other, values);
}

// Matrices

proof fn lemma_entries<S: Scalar>(
    m: Matrix<Expression<S>>,
    values: Map<Seq<char>, S>,
    numbers: Matrix<S>,
)
    requires
        m.filled_exactly(),
        evaluates_to(m, values, numbers),
    ensures
        forall|i: int, j: int|
            0 <= i < m.row_count() && 0 <= j < m.col_count() ==> value(
                #[trigger] m@[i][j]@,
                values,
            ) == Ok::<S, Failure<S>>(numbers@[i][j]),
{
    let list = exprs(m.values());
    assert forall|i: int, j: int|
        0 <= i < m.row_count() && 0 <= j < m.col_count() implies value(
        #[trigger] m@[i][j]@,
        values,
    ) == Ok::<S, Failure<S>>(numbers@[i][j]) by {
        m.lemma_filled(i, j);
        let at = i * m.col_count() + j;
        assert(list[at] == m.values()[at]@);
        lemma_evaluated(list, list.len(), values, at);
    }
}

/// Every entry of the matrices of an evaluated system is the value of the same entry of the
/// symbolic one. The unknowns and the inputs stay as they are.
pub proof fn law_entries_are_evaluated_in_place<S: Scalar>(
    system: MnaSystem<S>,
    values: Map<Seq<char>, S>,
    evaluated: NumericMnaSystem<S>,
)
    requires
        system.a.filled_exactly(),
        system.k.filled_exactly(),
        system.b.filled_exactly(),
        is_evaluation(system, values, evaluated),
    ensures
        evaluated.a.row_count() == system.a.row_count(),
        evaluated.a.col_count() == system.a.col_count(),
        forall|i: int, j: int|
            0 <= i < system.a.row_count() && 0 <= j < system.a.col_count() ==> value(
                #[trigger] system.a@[i][j]@,
                values,
            ) == Ok::<S, Failure<S>>(evaluated.a@[i][j]),
        evaluated.k.row_count() == system.k.row_count(),
        evaluated.k.col_count() == system.k.col_count(),
        forall|i: int, j: int|
            0 <= i < system.k.row_count() && 0 <= j < system.k.col_count() ==> value(
                #[trigger] system.k@[i][j]@,
                values,
            ) == Ok::<S, Failure<S>>(evaluated.k@[i][j]),
        evaluated.b.row_count() == system.b.row_count(),
        evaluated.b.col_count() == system.b.col_count(),
        forall|i: int, j: int|
            0 <= i < system.b.row_count() && 0 <= j < system.b.col_count() ==> value(
                #[trigger] system.b@[i][j]@,
                values,
            ) == Ok::<S, Failure<S>>(evaluated.b@[i][j]),
        evaluated.unknowns@.len() == system.unknowns@.len(),
        forall|i: int|
            0 <= i < system.unknowns@.len() ==> (#[trigger] evaluated.unknowns@[i])@
                == system.unknowns@[i]@,
        evaluated.inputs@.len() == system.inputs@.len(),
        forall|i: int|
            0 <= i < system.inputs@.len() ==> (#[trigger] evaluated.inputs@[i])@
                == system.inputs@[i]@,
        evaluated.input_values@.len() == system.input_values@.len(),
        forall|i: int|
            0 <= i < system.input_values@.len() ==> match value(
                #[trigger] system.input_values@[i]@,
                values,
            ) {
                Ok(v) => evaluated.input_values@[i] == v,
                Err(_) => evaluated.input_values@[i] == S::undefined(),
            },
{
    lemma_entries(system.a, values, evaluated.a);
    lemma_entries(system.k, values, evaluated.k);
    lemma_entries(system.b, values, evaluated.b);
    assert(text::texts(evaluated.unknowns@).len() == text::texts(system.unknowns@).len());
    assert(text::texts(evaluated.inputs@).len() == text::texts(system.inputs@).len());
    assert forall|i: int| 0 <= i < system.unknowns@.len() implies (
    #[trigger] evaluated.unknowns@[i])@ == system.unknowns@[i]@ by {
        assert(text::texts(evaluated.unknowns@)[i] == text::texts(system.unknowns@)[i]);
    }
    assert forall|i: int| 0 <= i < system.inputs@.len() implies (
    #[trigger] evaluated.inputs@[i])@ == system.inputs@[i]@ by {
        assert(text::texts(evaluated.inputs@)[i] == text::texts(system.inputs@)[i]);
    }
}

/// Two systems with the same matrices, evaluated at a map that gives every symbol in them a
/// value, have the same numeric matrices, whatever their `.param` lines say.
pub proof fn law_complete_values_overrule_parameters<S: Scalar>(
    first: MnaSystem<S>,
    other: MnaSystem<S>,
    values: Map<Seq<char>, S>,
    first_numbers: NumericMnaSystem<S>,
    other_numbers: NumericMnaSystem<S>,
)
    requires
        first.a.filled_exactly(),
        first.k.filled_exactly(),
        first.b.filled_exactly(),
        other.a.filled_exactly(),
        other.k.filled_exactly(),
        other.b.filled_exactly(),
        grid(first.a) == grid(other.a),
        grid(first.k) == grid(other.k),
        grid(first.b) == grid(other.b),
        first.a.col_count() == other.a.col_count(),
        first.k.col_count() == other.k.col_count(),
        first.b.col_count() == other.b.col_count(),
        forall|i: int, j: int|
            0 <= i < first.a.row_count() && 0 <= j < first.a.col_count() ==> is_complete(
                #[trigger] first.a@[i][j]@,
                values,
            ),
        forall|i: int, j: int|
            0 <= i < first.k.row_count() && 0 <= j < first.k.col_count() ==> is_complete(
                #[trigger] first.k@[i][j]@,
                values,
            ),
        forall|i: int, j: int|
            0 <= i < first.b.row_count() && 0 <= j < first.b.col_count() ==> is_complete(
                #[trigger] first.b@[i][j]@,
                values,
            ),
        is_evaluation(first, environment(first@.parameters, values), first_numbers),
        is_evaluation(other, environment(other@.parameters, values), other_numbers),
    ensures
        first_numbers.a@ == other_numbers.a@,
        first_numbers.k@ == other_numbers.k@,
        first_numbers.b@ == other_numbers.b@,
{
    let (p, q) = (first@.parameters, other@.parameters);
    lemma_same_numbers(first.a, other.a, values, p, q, first_numbers.a, other_numbers.a);
    lemma_same_numbers(first.k, other.k, values, p, q, first_numbers.k, other_numbers.k);
    lemma_same_numbers(first.b, other.b, values, p, q, first_numbers.b, other_numbers.b);
}

proof fn lemma_same_numbers<S: Scalar>(
    first: Matrix<Expression<S>>,
    other: Matrix<Expression<S>>,
    values: Map<Seq<char>, S>,
    p: Map<Seq<char>, Expr<S>>,
    q: Map<Seq<char>, Expr<S>>,
    first_numbers: Matrix<S>,
    other_numbers: Matrix<S>,
)
    requires
        first.filled_exactly(),
        other.filled_exactly(),
        grid(first) == grid(other),
        first.col_count() == other.col_count(),
        forall|i: int, j: int|
            0 <= i < first.row_count() && 0 <= j < first.col_count() ==> is_complete(
                #[trigger] first@[i][j]@,
                values,
            ),
        evaluates_to(first, environment(p, values), first_numbers),
        evaluates_to(other, environment(q, values), other_numbers),
    ensures
        first_numbers@ == other_numbers@,
{
    lemma_entries(first, environment(p, values), first_numbers);
    lemma_entries(other, environment(q, values), other_numbers);
    assert(grid(first).len() == first.row_count());
    assert(grid(other).len() == other.row_count());
    assert forall|i: int, j: int|
        0 <= i < first.row_count() && 0 <= j < first.col_count() implies first_numbers@[i][j]
        == other_numbers@[i][j] by {
        assert(grid(first)[i][j] == first@[i][j]@);
        assert(grid(other)[i][j] == other@[i][j]@);
        law_defaults_yield_to_given_values(first@[i][j]@, p, q, values);
        assert(value(other@[i][j]@, environment(q, values)) == Ok::<S, Failure<S>>(
            other_numbers@[i][j],
        ));
    }
    assert(first_numbers@ =~~= other_numbers@);
}

/// A source whose value is not a number drives nothing: it adds nothing to the right-hand side.
pub proof fn law_unknown_sources_drive_nothing<S: Scalar>(
    b_row: Seq<S>,
    sources: Seq<S>,
    n: nat,
)
    requires
        forall|i: int| 0 <= i < n ==> (#[trigger] sources[i]).is_undefined(),
    ensures
        driven(b_row, sources, n) == S::nought(),
    decreases n,
{
    if n > 0 {
        law_unknown_sources_drive_nothing(b_row, sources, (n - 1) as nat);
        assert(sources[n - 1].is_undefined());
    }
}

} // verus!
