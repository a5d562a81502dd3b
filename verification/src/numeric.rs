//! Numeric evaluation of descriptor systems and numeric state-space reduction.

use crate::expr;
use crate::expr::{Expr, Failure};
use crate::expression::{exprs, EvaluationError, Expression};
use crate::matrix::{of_width, row_seqs, Matrix};
use crate::name_map::NameMap;
use crate::scalar::{at_most, is_at_most, Scalar};
use crate::state_space::{
    algebraic_breakdown, all_below, pick_names, picked_names, singular_algebraic, singular_storage,
    storage_breakdown, Breakdown, StateSpaceError,
};
use crate::symbolic::{beside, columns_from, exchanged, lemma_exchanged};
use crate::system::{expr_map, lemma_push_contains, MnaSystem};
use crate::text;
use crate::text::copy_texts;
use vstd::prelude::*;

verus! {

/// Numerically evaluated descriptor system.
#[derive(Debug, Clone, PartialEq)]
pub struct NumericMnaSystem<S> {
    /// Memoryless matrix.
    pub a: Matrix<S>,
    /// Storage matrix.
    pub k: Matrix<S>,
    /// Independent-source incidence matrix.
    pub b: Matrix<S>,
    /// Unknown names.
    pub unknowns: Vec<String>,
    /// Input names.
    pub inputs: Vec<String>,
    /// Source values in `inputs` order. Evaluating an input's value is best-effort: a source
    /// whose value cannot be evaluated gets "not a number" here.
    pub input_values: Vec<S>,
    /// The expanded right-hand side `B * input_values`, in unknown order; an input that is
    /// "not a number" contributes nothing.
    pub u: Vec<S>,
}

impl<S: Scalar> NumericMnaSystem<S> {
    /// The matrices and vectors have the sizes that the unknowns and inputs ask for.
    pub open spec fn well_formed(&self) -> bool {
        let order = self.unknowns@.len();
        &&& self.a.row_count() == order
        &&& self.a.col_count() == order
        &&& self.k.row_count() == order
        &&& self.k.col_count() == order
        &&& self.b.row_count() == order
        &&& self.b.col_count() == self.inputs@.len()
        &&& self.u@.len() == order
        &&& self.input_values@.len() == self.inputs@.len()
    }
}

/// Explicit state-space system `dot(x) = A*x + B*u`.
#[derive(Debug, Clone, PartialEq)]
pub struct NumericStateSpace<S> {
    /// Dynamics matrix.
    pub a: Matrix<S>,
    /// Input matrix.
    pub b: Matrix<S>,
    /// Dynamic variable names.
    pub states: Vec<String>,
    /// Independent input names.
    pub inputs: Vec<String>,
    /// Indices of the dynamic variables in the original MNA vector.
    pub mna_state_indices: Vec<usize>,
}

// Evaluation

/// The values in effect: the given ones, and for the other parameters their defaults as far
/// as those can be evaluated.
pub open spec fn environment<S: Scalar>(
    parameters: Map<Seq<char>, Expr<S>>,
    values: Map<Seq<char>, S>,
) -> Map<Seq<char>, S> {
    Map::new(
        |name: Seq<char>|
            values.contains_key(name) || (parameters.contains_key(name) && expr::value(
                parameters[name],
                values,
            ) is Ok),
        |name: Seq<char>|
            if values.contains_key(name) {
                values[name]
            } else {
                expr::value(parameters[name], values)->Ok_0
            },
    )
}

/// The values of the first `n` expressions of a list, or the first failure among them.
pub open spec fn evaluated<S: Scalar>(
    list: Seq<Expr<S>>,
    n: nat,
    values: Map<Seq<char>, S>,
) -> Result<Seq<S>, Failure<S>>
    decreases n,
{
    if n == 0 {
        Ok(Seq::empty())
    } else {
        match evaluated(list, (n - 1) as nat, values) {
            Ok(before) => match expr::value(list[n - 1], values) {
                Ok(v) => Ok(before.push(v)),
                Err(failure) => Err(failure),
            },
            Err(failure) => Err(failure),
        }
    }
}

/// A list with a failure among its first `m` expressions fails in the same way.
proof fn lemma_evaluation_failure<S: Scalar>(
    list: Seq<Expr<S>>,
    m: nat,
    n: nat,
    values: Map<Seq<char>, S>,
)
    requires
        m <= n,
        evaluated(list, m, values) is Err,
    ensures
        evaluated(list, n, values) == evaluated(list, m, values),
    decreases n,
{
    if m < n {
        lemma_evaluation_failure(list, m, (n - 1) as nat, values);
    }
}

/// Where a list can be evaluated, so can each expression in it.
pub proof fn lemma_evaluated<S: Scalar>(
    list: Seq<Expr<S>>,
    n: nat,
    values: Map<Seq<char>, S>,
    k: int,
)
    requires
        0 <= k < n,
        evaluated(list, n, values) is Ok,
    ensures
        evaluated(list, n, values)->Ok_0.len() == n,
        expr::value(list[k], values) == Ok::<S, Failure<S>>(evaluated(list, n, values)->Ok_0[k]),
    decreases n,
{
    if n > 1 {
        lemma_evaluated(
            list,
            (n - 1) as nat,
            values,
            if k < n - 1 {
                k
            } else {
                0
            },
        );
    } else {
        assert(evaluated(list, 0, values)->Ok_0.len() == 0);
    }
}

/// The value of a source, "not a number" where it cannot be evaluated.
pub open spec fn source_number<S: Scalar>(e: Expr<S>, values: Map<Seq<char>, S>) -> S {
    match expr::value(e, values) {
        Ok(v) => v,
        Err(_) => S::undefined(),
    }
}

/// One entry of `B*u` over the first `n` inputs; "not a number" contributes nothing.
pub open spec fn driven<S: Scalar>(b_row: Seq<S>, sources: Seq<S>, n: nat) -> S
    decreases n,
{
    if n == 0 {
        S::nought()
    } else {
        let before = driven(b_row, sources, (n - 1) as nat);
        if sources[n - 1].is_undefined() {
            before
        } else {
            before.sum(b_row[n - 1].product(sources[n - 1]))
        }
    }
}

/// The values in effect, as a map.
pub fn build_environment<S: Scalar>(
    parameters: &NameMap<Expression<S>>,
    values: &NameMap<S>,
) -> (r: NameMap<S>)
    ensures
        r@ == environment(expr_map(*parameters), values@),
        forall|name: Seq<char>| #[trigger]
            values@.contains_key(name) ==> r@.contains_key(name) && r@[name] == values@[name],
{
    let ghost defaults = expr_map(*parameters);
    let ghost names = parameters.names();
    let mut env: NameMap<S> = NameMap::new();
    let mut i: usize = 0;
    while i < parameters.len()
        invariant
            i <= names.len(),
            names == parameters.names(),
            defaults == expr_map(*parameters),
            forall|n: Seq<char>| #[trigger]
                env@.contains_key(n) <==> names.take(i as int).contains(n)
                    && defaults.contains_key(n) && expr::value(defaults[n], values@) is Ok,
            forall|n: Seq<char>| #[trigger]
                env@.contains_key(n) ==> Ok::<S, Failure<S>>(env@[n]) == expr::value(
                    defaults[n],
                    values@,
                ),
        decreases names.len() - i,
    {
        let ghost before = env@;
        let name = parameters.name_at(i);
        let e = parameters.value_at(i);
        assert(defaults[name@] == e@);
        proof {
            assert(names.take(i + 1) =~= names.take(i as int).push(names[i as int]));
        }
        match e.evaluate(values) {
            Ok(v) => {
                env.insert(text::copy(name), v);
            },
            Err(_) => {},
        }
        proof {
            assert forall|n: Seq<char>| #[trigger]
                env@.contains_key(n) <==> names.take(i + 1).contains(n) && defaults.contains_key(n)
                    && expr::value(defaults[n], values@) is Ok by {
                lemma_push_contains(names.take(i as int), names[i as int], n);
                assert(before.contains_key(n) <==> names.take(i as int).contains(n)
                    && defaults.contains_key(n) && expr::value(defaults[n], values@) is Ok);
            }
            assert forall|n: Seq<char>| #[trigger] env@.contains_key(n) implies Ok::<
                S,
                Failure<S>,
            >(env@[n]) == expr::value(defaults[n], values@) by {
                if n != name@ {
                    assert(before.contains_key(n));
                }
            }
        }
        i = i + 1;
    }
    let ghost base = env@;
    let ghost given = values.names();
    proof {
        parameters.lemma_names();
        values.lemma_names();
        assert(names.take(i as int) =~= names);
    }
    let mut j: usize = 0;
    while j < values.len()
        invariant
            j <= given.len(),
            given == values.names(),
            forall|n: Seq<char>| #[trigger]
                env@.contains_key(n) <==> base.contains_key(n) || given.take(j as int).contains(n),
            forall|n: Seq<char>| #[trigger]
                env@.contains_key(n) ==> env@[n] == (if given.take(j as int).contains(n) {
                    values@[n]
                } else {
                    base[n]
                }),
        decreases given.len() - j,
    {
        let ghost before = env@;
        let name = values.name_at(j);
        let v = *values.value_at(j);
        env.insert(text::copy(name), v);
        proof {
            assert(given.take(j + 1) =~= given.take(j as int).push(given[j as int]));
            assert forall|n: Seq<char>| #[trigger]
                env@.contains_key(n) <==> base.contains_key(n) || given.take(j + 1).contains(n) by {
                lemma_push_contains(given.take(j as int), given[j as int], n);
                assert(before.contains_key(n) <==> base.contains_key(n) || given.take(
                    j as int,
                ).contains(n));
            }
            assert forall|n: Seq<char>| #[trigger] env@.contains_key(n) implies env@[n] == (
            if given.take(j + 1).contains(n) {
                values@[n]
            } else {
                base[n]
            }) by {
                lemma_push_contains(given.take(j as int), given[j as int], n);
                if n != name@ {
                    assert(before.contains_key(n));
                }
            }
        }
        j = j + 1;
    }
    proof {
        assert(given.take(j as int) =~= given);
        let target = environment(defaults, values@);
        assert forall|n: Seq<char>| env@.contains_key(n) <==> #[trigger] target.contains_key(n) by {
            assert(env@.contains_key(n) <==> base.contains_key(n) || given.contains(n));
            assert(values@.contains_key(n) <==> given.contains(n));
            assert(defaults.contains_key(n) <==> names.contains(n)) by {
                assert(parameters@.contains_key(n) <==> names.contains(n));
            }
        }
        assert forall|n: Seq<char>| #[trigger] env@.contains_key(n) implies env@[n]
            == target[n] by {
            assert(values@.contains_key(n) <==> given.contains(n));
        }
        assert(env@ =~= target);
    }
    env
}

fn evaluate_list<S: Scalar>(list: &[Expression<S>], values: &NameMap<S>) -> (r: Result<
    Vec<S>,
    EvaluationError<S>,
>)
    ensures
        match r {
            Ok(v) => evaluated(exprs(list@), list@.len(), values@) == Ok::<Seq<S>, Failure<S>>(v@)
                && v@.len() == list@.len(),
            Err(error) => evaluated(exprs(list@), list@.len(), values@) == Err::<
                Seq<S>,
                Failure<S>,
            >(error@),
        },
{
    let ghost all = exprs(list@);
    let mut out: Vec<S> = Vec::new();
    let mut i: usize = 0;
    while i < list.len()
        invariant
            i <= list@.len(),
            all == exprs(list@),
            out@.len() == i,
            evaluated(all, i as nat, values@) == Ok::<Seq<S>, Failure<S>>(out@),
        decreases list@.len() - i,
    {
        assert(all[i as int] == list@[i as int]@);
        match list[i].evaluate(values) {
            Ok(v) => {
                out.push(v);
            },
            Err(error) => {
                proof {
                    lemma_evaluation_failure(all, (i + 1) as nat, list@.len(), values@);
                }
                return Err(error);
            },
        }
        i = i + 1;
    }
    Ok(out)
}

/// The values of a matrix in row-major order, or the first failure among its entries.
pub open spec fn evaluated_matrix<S: Scalar>(
    m: Matrix<Expression<S>>,
    values: Map<Seq<char>, S>,
) -> Result<Seq<S>, Failure<S>> {
    evaluated(exprs(m.values()), m.values().len(), values)
}

/// `numeric` is the matrix of the values of `m`.
pub open spec fn evaluates_to<S: Scalar>(
    m: Matrix<Expression<S>>,
    values: Map<Seq<char>, S>,
    numeric: Matrix<S>,
) -> bool {
    &&& evaluated_matrix(m, values) == Ok::<Seq<S>, Failure<S>>(numeric.values())
    &&& numeric.row_count() == m.row_count()
    &&& numeric.col_count() == m.col_count()
}

fn evaluate_matrix<S: Scalar>(m: &Matrix<Expression<S>>, values: &NameMap<S>) -> (r: Result<
    Matrix<S>,
    EvaluationError<S>,
>)
    ensures
        match r {
            Ok(numeric) => evaluates_to(*m, values@, numeric),
            Err(error) => evaluated_matrix(*m, values@) == Err::<Seq<S>, Failure<S>>(error@),
        },
{
    let list = m.as_slice();
    match evaluate_list(list, values) {
        Ok(data) => {
            match Matrix::from_vec(m.rows(), m.cols(), data) {
                Ok(numeric) => Ok(numeric),
                Err(_) => {
                    proof {
                        assert(false);
                    }
                    Ok(Matrix::filled(m.rows(), m.cols(), S::zero()))
                },
            }
        },
        Err(error) => Err(error),
    }
}

/// A matrix from its row-major values.
pub open spec fn rows_of_flat<S>(flat: Seq<S>, rows: nat, cols: nat) -> Seq<Seq<S>> {
    Seq::new(rows, |i: int| Seq::new(cols, |j: int| flat[i * cols + j]))
}

/// The rows of the values of a matrix that can be evaluated.
pub open spec fn numeric_rows<S: Scalar>(
    m: Matrix<Expression<S>>,
    values: Map<Seq<char>, S>,
) -> Seq<Seq<S>> {
    rows_of_flat(evaluated_matrix(m, values)->Ok_0, m.row_count(), m.col_count())
}

/// The numeric right-hand side of a descriptor system.
pub open spec fn numeric_u<S: Scalar>(system: MnaSystem<S>, values: Map<Seq<char>, S>) -> Seq<S> {
    let sources = Seq::new(
        system.input_values@.len(),
        |i: int| source_number(system.input_values@[i]@, values),
    );
    Seq::new(
        system.unknowns@.len(),
        |row: int| driven(numeric_rows(system.b, values)[row], sources, sources.len()),
    )
}

/// The matrices of an evaluated system are made of the values of the symbolic ones.
pub proof fn lemma_evaluation_rows<S: Scalar>(
    system: MnaSystem<S>,
    values: Map<Seq<char>, S>,
    numeric: NumericMnaSystem<S>,
)
    requires
        system.well_formed(),
        is_evaluation(system, values, numeric),
    ensures
        numeric.a@ == numeric_rows(system.a, values),
        numeric.k@ == numeric_rows(system.k, values),
        numeric.b@ == numeric_rows(system.b, values),
        numeric.u@ == numeric_u(system, values),
{
    assert(numeric.a@ =~~= numeric_rows(system.a, values));
    assert(numeric.k@ =~~= numeric_rows(system.k, values));
    assert(numeric.b@ =~~= numeric_rows(system.b, values));
    assert(numeric.u@ =~= numeric_u(system, values));
}

/// What the evaluation of a descriptor system fails with, if it fails: the first entry that
/// cannot be evaluated, looked for in `b`, then in `a`, then in `k`.
pub open spec fn evaluation_failure<S: Scalar>(
    system: MnaSystem<S>,
    values: Map<Seq<char>, S>,
) -> Option<Failure<S>> {
    match evaluated_matrix(system.b, values) {
        Err(failure) => Some(failure),
        Ok(_) => match evaluated_matrix(system.a, values) {
            Err(failure) => Some(failure),
            Ok(_) => match evaluated_matrix(system.k, values) {
                Err(failure) => Some(failure),
                Ok(_) => None,
            },
        },
    }
}

/// `numeric` is the evaluation of a descriptor system under the values in effect.
pub open spec fn is_evaluation<S: Scalar>(
    system: MnaSystem<S>,
    values: Map<Seq<char>, S>,
    numeric: NumericMnaSystem<S>,
) -> bool {
    &&& evaluates_to(system.a, values, numeric.a)
    &&& evaluates_to(system.k, values, numeric.k)
    &&& evaluates_to(system.b, values, numeric.b)
    &&& text::texts(numeric.unknowns@) == system@.unknowns
    &&& text::texts(numeric.inputs@) == system@.inputs
    &&& numeric.input_values@ == Seq::new(
        system.input_values@.len(),
        |i: int| source_number(system.input_values@[i]@, values),
    )
    &&& numeric.u@ == Seq::new(
        system.unknowns@.len(),
        |row: int| driven(numeric.b@[row], numeric.input_values@, numeric.input_values@.len()),
    )
}

/// The input matrix reaches every unknown and every source.
pub open spec fn is_driven<S: Scalar>(system: MnaSystem<S>) -> bool {
    system.unknowns@.len() > 0 && system.input_values@.len() > 0 ==> {
        &&& system.unknowns@.len() <= system.b.row_count()
        &&& system.input_values@.len() <= system.b.col_count()
    }
}

impl<S: Scalar> MnaSystem<S> {
    /// Evaluates component expressions using explicit values plus numeric `.param` defaults
    /// from the netlist.
    pub fn evaluate(&self, values: &NameMap<S>) -> (r: Result<
        NumericMnaSystem<S>,
        EvaluationError<S>,
    >)
        requires
            is_driven(*self),
        ensures
            match r {
                Ok(numeric) => {
                    &&& evaluation_failure(
                        *self,
                        environment(self@.parameters, values@),
                    ) is None
                    &&& is_evaluation(*self, environment(self@.parameters, values@), numeric)
                    &&& self.well_formed() ==> numeric.well_formed()
                },
                Err(error) => evaluation_failure(
                    *self,
                    environment(self@.parameters, values@),
                ) == Some(error@),
            },
    {
        let env = build_environment(&self.parameter_defaults, values);
        let b = match evaluate_matrix(&self.b, &env) {
            Ok(m) => m,
            Err(error) => {
                return Err(error);
            },
        };
        let ghost numbers = Seq::new(
            self.input_values@.len(),
            |i: int| source_number(self.input_values@[i]@, env@),
        );
        let mut input_values: Vec<S> = Vec::new();
        let mut i: usize = 0;
        while i < self.input_values.len()
            invariant
                i <= self.input_values@.len(),
                numbers == Seq::new(
                    self.input_values@.len(),
                    |i: int| source_number(self.input_values@[i]@, env@),
                ),
                input_values@ == numbers.take(i as int),
            decreases self.input_values@.len() - i,
        {
            let v = match self.input_values[i].evaluate(&env) {
                Ok(v) => v,
                Err(_) => S::nan(),
            };
            input_values.push(v);
            i = i + 1;
            assert(numbers.take(i as int) =~= numbers.take(i - 1).push(numbers[i - 1]));
        }
        assert(numbers.take(i as int) =~= numbers);
        let order: usize = self.unknowns.len();
        let ghost rows = Seq::new(
            order as nat,
            |row: int| driven(b@[row], input_values@, input_values@.len()),
        );
        let mut u: Vec<S> = Vec::new();
        let mut row: usize = 0;
        while row < order
            invariant
                row <= order,
                order > 0 && input_values@.len() > 0 ==> order <= b.row_count()
                    && input_values@.len() <= b.col_count(),
                rows == Seq::new(
                    order as nat,
                    |row: int| driven(b@[row], input_values@, input_values@.len()),
                ),
                u@ == rows.take(row as int),
            decreases order - row,
        {
            let mut total: S = S::zero();
            let mut col: usize = 0;
            while col < input_values.len()
                invariant
                    col <= input_values@.len(),
                    row < order,
                    order > 0 && input_values@.len() > 0 ==> order <= b.row_count()
                        && input_values@.len() <= b.col_count(),
                    total == driven(b@[row as int], input_values@, col as nat),
                decreases input_values@.len() - col,
            {
                let v = input_values[col];
                if !v.is_nan() {
                    total = total.plus((*b.at(row, col)).times(v));
                }
                col = col + 1;
            }
            u.push(total);
            row = row + 1;
            assert(rows.take(row as int) =~= rows.take(row - 1).push(rows[row - 1]));
        }
        assert(rows.take(row as int) =~= rows);
        let a = match evaluate_matrix(&self.a, &env) {
            Ok(m) => m,
            Err(error) => {
                return Err(error);
            },
        };
        let k = match evaluate_matrix(&self.k, &env) {
            Ok(m) => m,
            Err(error) => {
                return Err(error);
            },
        };
        let unknowns = copy_texts(&self.unknowns);
        let inputs = copy_texts(&self.inputs);
        proof {
            assert(text::texts(unknowns@).len() == unknowns@.len());
            assert(text::texts(self.unknowns@).len() == self.unknowns@.len());
            assert(text::texts(inputs@).len() == inputs@.len());
            assert(text::texts(self.inputs@).len() == self.inputs@.len());
        }
        Ok(NumericMnaSystem { a, k, b, unknowns, inputs, input_values, u })
    }
}

// Linear algebra over numbers

/// The entry of a matrix product, added from the left.
pub open spec fn dot<S: Scalar>(row: Seq<S>, m: Seq<Seq<S>>, col: int, n: nat) -> S
    decreases n,
{
    if n == 0 {
        S::nought()
    } else {
        dot(row, m, col, (n - 1) as nat).sum(row[n - 1].product(m[n - 1][col]))
    }
}

/// The product of two matrices.
pub open spec fn matrix_product<S: Scalar>(lhs: Seq<Seq<S>>, rhs: Seq<Seq<S>>, cols: nat) -> Seq<
    Seq<S>,
> {
    Seq::new(lhs.len(), |i: int| Seq::new(cols, |j: int| dot(lhs[i], rhs, j, rhs.len())))
}

/// The difference of two matrices.
pub open spec fn matrix_difference<S: Scalar>(lhs: Seq<Seq<S>>, rhs: Seq<Seq<S>>) -> Seq<Seq<S>> {
    Seq::new(
        lhs.len(),
        |i: int| Seq::new(lhs[i].len(), |j: int| lhs[i][j].difference(rhs[i][j])),
    )
}

/// A matrix with every entry negated.
pub open spec fn matrix_negation<S: Scalar>(m: Seq<Seq<S>>) -> Seq<Seq<S>> {
    Seq::new(m.len(), |i: int| Seq::new(m[i].len(), |j: int| m[i][j].negation()))
}

/// The chosen rows and columns of a matrix.
pub open spec fn picked<S>(m: Seq<Seq<S>>, rows: Seq<usize>, cols: Seq<usize>) -> Seq<Seq<S>> {
    Seq::new(
        rows.len(),
        |i: int| Seq::new(cols.len(), |j: int| m[rows[i] as int][cols[j] as int]),
    )
}

/// The chosen rows of a matrix.
pub open spec fn picked_rows<S>(m: Seq<Seq<S>>, rows: Seq<usize>) -> Seq<Seq<S>> {
    Seq::new(rows.len(), |i: int| m[rows[i] as int])
}

/// The row from `best` on whose entry in a column is largest in magnitude, looking at the rows
/// from `from` on; of equal ones the last.
pub open spec fn largest_row<S: Scalar>(m: Seq<Seq<S>>, col: int, best: int, from: int) -> int
    decreases m.len() - from,
{
    if from < 0 || from >= m.len() {
        best
    } else if m[from][col].magnitude().ranked(m[best][col].magnitude()) {
        largest_row(m, col, best, from + 1)
    } else {
        largest_row(m, col, from, from + 1)
    }
}

/// A pivot row divided by its pivot, from the pivot's column on.
pub open spec fn normalized<S: Scalar>(row: Seq<S>, col: int) -> Seq<S> {
    Seq::new(
        row.len(),
        |j: int|
            if j >= col {
                row[j].quotient(row[col])
            } else {
                row[j]
            },
    )
}

/// A row with a multiple of the pivot row subtracted, so that its entry in the pivot's column
/// goes away.
pub open spec fn eliminated<S: Scalar>(row: Seq<S>, pivot: Seq<S>, col: int) -> Seq<S> {
    Seq::new(
        row.len(),
        |j: int|
            if j >= col {
                row[j].difference(row[col].product(pivot[j]))
            } else {
                row[j]
            },
    )
}

/// One step of Gauss-Jordan elimination with the pivot in row `at`.
pub open spec fn elimination_step<S: Scalar>(m: Seq<Seq<S>>, col: int, at: int) -> Seq<Seq<S>> {
    let s = exchanged(m, col, at);
    let pivot = normalized(s[col], col);
    Seq::new(
        m.len(),
        |i: int|
            if i == col {
                pivot
            } else {
                eliminated(s[i], pivot, col)
            },
    )
}

/// Gauss-Jordan elimination with partial pivoting from a column on; the column where no pivot
/// exceeds the tolerance.
pub open spec fn reduced_from<S: Scalar>(m: Seq<Seq<S>>, tolerance: S, col: int) -> Result<
    Seq<Seq<S>>,
    int,
>
    decreases m.len() - col,
{
    if col < 0 || col >= m.len() {
        Ok(m)
    } else {
        let at = largest_row(m, col, col, col + 1);
        if at_most(m[at][col].magnitude(), tolerance) {
            Err(col)
        } else {
            reduced_from(elimination_step(m, col, at), tolerance, col + 1)
        }
    }
}

/// The solution of `coefficients * x = rhs` for a square matrix of coefficients.
pub open spec fn solution<S: Scalar>(
    coefficients: Seq<Seq<S>>,
    rhs: Seq<Seq<S>>,
    tolerance: S,
) -> Result<Seq<Seq<S>>, int> {
    match reduced_from(beside(coefficients, rhs), tolerance, 0) {
        Ok(m) => Ok(columns_from(m, coefficients.len() as int)),
        Err(col) => Err(col),
    }
}

proof fn lemma_rows_push<S>(rows: Seq<Vec<S>>, row: Vec<S>)
    ensures
        row_seqs(rows.push(row)) == row_seqs(rows).push(row@),
{
    assert(row_seqs(rows.push(row)) =~= row_seqs(rows).push(row@));
}

fn multiply<S: Scalar>(lhs: &Vec<Vec<S>>, rhs: &Vec<Vec<S>>, cols: usize) -> (r: Vec<Vec<S>>)
    requires
        of_width(row_seqs(lhs@), rhs@.len()),
        of_width(row_seqs(rhs@), cols as nat),
    ensures
        row_seqs(r@) == matrix_product(row_seqs(lhs@), row_seqs(rhs@), cols as nat),
        r@.len() == lhs@.len(),
        of_width(row_seqs(r@), cols as nat),
{
    let ghost left = row_seqs(lhs@);
    let ghost right = row_seqs(rhs@);
    let ghost all = matrix_product(left, right, cols as nat);
    let mut out: Vec<Vec<S>> = Vec::new();
    let mut i: usize = 0;
    assert(row_seqs(out@) =~= all.take(0));
    while i < lhs.len()
        invariant
            i <= lhs@.len(),
            left == row_seqs(lhs@),
            right == row_seqs(rhs@),
            of_width(left, rhs@.len()),
            of_width(right, cols as nat),
            all == matrix_product(left, right, cols as nat),
            row_seqs(out@) == all.take(i as int),
            out@.len() == i,
        decreases lhs@.len() - i,
    {
        let ghost target = all[i as int];
        let mut row: Vec<S> = Vec::new();
        let mut j: usize = 0;
        assert(left[i as int].len() == rhs@.len());
        while j < cols
            invariant
                i < lhs@.len(),
                j <= cols,
                left == row_seqs(lhs@),
                right == row_seqs(rhs@),
                lhs@[i as int]@.len() == rhs@.len(),
                of_width(right, cols as nat),
                all == matrix_product(left, right, cols as nat),
                target == all[i as int],
                row@ == target.take(j as int),
            decreases cols - j,
        {
            let mut total: S = S::zero();
            let mut k: usize = 0;
            while k < rhs.len()
                invariant
                    i < lhs@.len(),
                    j < cols,
                    k <= rhs@.len(),
                    lhs@[i as int]@.len() == rhs@.len(),
                    left == row_seqs(lhs@),
                    right == row_seqs(rhs@),
                    of_width(right, cols as nat),
                    total == dot(left[i as int], right, j as int, k as nat),
                decreases rhs@.len() - k,
            {
                assert(right[k as int].len() == cols);
                total = total.plus(lhs[i][k].times(rhs[k][j]));
                k = k + 1;
            }
            row.push(total);
            j = j + 1;
            assert(target.take(j as int) =~= target.take(j - 1).push(target[j - 1]));
        }
        assert(target.take(j as int) =~= target);
        let ghost before = out@;
        out.push(row);
        proof {
            lemma_rows_push(before, row);
            assert(all.take(i + 1) =~= all.take(i as int).push(all[i as int]));
        }
        i = i + 1;
    }
    assert(all.take(i as int) =~= all);
    out
}

fn subtract<S: Scalar>(lhs: &Vec<Vec<S>>, rhs: &Vec<Vec<S>>, cols: usize) -> (r: Vec<Vec<S>>)
    requires
        lhs@.len() == rhs@.len(),
        of_width(row_seqs(lhs@), cols as nat),
        of_width(row_seqs(rhs@), cols as nat),
    ensures
        row_seqs(r@) == matrix_difference(row_seqs(lhs@), row_seqs(rhs@)),
        r@.len() == lhs@.len(),
        of_width(row_seqs(r@), cols as nat),
{
    let ghost left = row_seqs(lhs@);
    let ghost right = row_seqs(rhs@);
    let ghost all = matrix_difference(left, right);
    let mut out: Vec<Vec<S>> = Vec::new();
    let mut i: usize = 0;
    assert(row_seqs(out@) =~= all.take(0));
    while i < lhs.len()
        invariant
            i <= lhs@.len() == rhs@.len(),
            left == row_seqs(lhs@),
            right == row_seqs(rhs@),
            of_width(left, cols as nat),
            of_width(right, cols as nat),
            all == matrix_difference(left, right),
            row_seqs(out@) == all.take(i as int),
            out@.len() == i,
        decreases lhs@.len() - i,
    {
        let ghost target = all[i as int];
        assert(left[i as int].len() == cols);
        assert(right[i as int].len() == cols);
        let mut row: Vec<S> = Vec::new();
        let mut j: usize = 0;
        while j < cols
            invariant
                i < lhs@.len() == rhs@.len(),
                j <= cols,
                lhs@[i as int]@.len() == cols,
                rhs@[i as int]@.len() == cols,
                left == row_seqs(lhs@),
                right == row_seqs(rhs@),
                all == matrix_difference(left, right),
                target == all[i as int],
                target.len() == cols,
                row@ == target.take(j as int),
            decreases cols - j,
        {
            row.push(lhs[i][j].minus(rhs[i][j]));
            j = j + 1;
            assert(target.take(j as int) =~= target.take(j - 1).push(target[j - 1]));
        }
        assert(target.take(j as int) =~= target);
        let ghost before = out@;
        out.push(row);
        proof {
            lemma_rows_push(before, row);
            assert(all.take(i + 1) =~= all.take(i as int).push(all[i as int]));
        }
        i = i + 1;
    }
    assert(all.take(i as int) =~= all);
    out
}

fn negate<S: Scalar>(rows: &Vec<Vec<S>>, cols: usize) -> (r: Vec<Vec<S>>)
    requires
        of_width(row_seqs(rows@), cols as nat),
    ensures
        row_seqs(r@) == matrix_negation(row_seqs(rows@)),
        r@.len() == rows@.len(),
        of_width(row_seqs(r@), cols as nat),
{
    let ghost source = row_seqs(rows@);
    let ghost all = matrix_negation(source);
    let mut out: Vec<Vec<S>> = Vec::new();
    let mut i: usize = 0;
    assert(row_seqs(out@) =~= all.take(0));
    while i < rows.len()
        invariant
            i <= rows@.len(),
            source == row_seqs(rows@),
            of_width(source, cols as nat),
            all == matrix_negation(source),
            row_seqs(out@) == all.take(i as int),
            out@.len() == i,
        decreases rows@.len() - i,
    {
        let ghost target = all[i as int];
        assert(source[i as int].len() == cols);
        let mut row: Vec<S> = Vec::new();
        let mut j: usize = 0;
        while j < cols
            invariant
                i < rows@.len(),
                j <= cols,
                rows@[i as int]@.len() == cols,
                source == row_seqs(rows@),
                all == matrix_negation(source),
                target == all[i as int],
                target.len() == cols,
                row@ == target.take(j as int),
            decreases cols - j,
        {
            row.push(rows[i][j].negated());
            j = j + 1;
            assert(target.take(j as int) =~= target.take(j - 1).push(target[j - 1]));
        }
        assert(target.take(j as int) =~= target);
        let ghost before = out@;
        out.push(row);
        proof {
            lemma_rows_push(before, row);
            assert(all.take(i + 1) =~= all.take(i as int).push(all[i as int]));
        }
        i = i + 1;
    }
    assert(all.take(i as int) =~= all);
    out
}

fn extract<S: Scalar>(m: &Matrix<S>, rows: &Vec<usize>, cols: &Vec<usize>) -> (r: Vec<Vec<S>>)
    requires
        all_below(rows@, m.row_count()),
        all_below(cols@, m.col_count()),
    ensures
        row_seqs(r@) == picked(m@, rows@, cols@),
        r@.len() == rows@.len(),
        of_width(row_seqs(r@), cols@.len()),
{
    let ghost all = picked(m@, rows@, cols@);
    let mut out: Vec<Vec<S>> = Vec::new();
    let mut i: usize = 0;
    assert(row_seqs(out@) =~= all.take(0));
    while i < rows.len()
        invariant
            i <= rows@.len(),
            all_below(rows@, m.row_count()),
            all_below(cols@, m.col_count()),
            all == picked(m@, rows@, cols@),
            row_seqs(out@) == all.take(i as int),
            out@.len() == i,
        decreases rows@.len() - i,
    {
        let ghost target = all[i as int];
        let mut row: Vec<S> = Vec::new();
        let mut j: usize = 0;
        while j < cols.len()
            invariant
                i < rows@.len(),
                j <= cols@.len(),
                all_below(rows@, m.row_count()),
                all_below(cols@, m.col_count()),
                all == picked(m@, rows@, cols@),
                target == all[i as int],
                row@ == target.take(j as int),
            decreases cols@.len() - j,
        {
            row.push(*m.at(rows[i], cols[j]));
            j = j + 1;
            assert(target.take(j as int) =~= target.take(j - 1).push(target[j - 1]));
        }
        assert(target.take(j as int) =~= target);
        let ghost before = out@;
        out.push(row);
        proof {
            lemma_rows_push(before, row);
            assert(all.take(i + 1) =~= all.take(i as int).push(all[i as int]));
        }
        i = i + 1;
    }
    assert(all.take(i as int) =~= all);
    out
}

fn extract_rows<S: Scalar>(m: &Matrix<S>, rows: &Vec<usize>) -> (r: Vec<Vec<S>>)
    requires
        all_below(rows@, m.row_count()),
    ensures
        row_seqs(r@) == picked_rows(m@, rows@),
        r@.len() == rows@.len(),
        of_width(row_seqs(r@), m.col_count()),
{
    let mut cols: Vec<usize> = Vec::new();
    let mut j: usize = 0;
    while j < m.cols()
        invariant
            j <= m.col_count(),
            cols@.len() == j,
            forall|k: int| 0 <= k < j ==> (#[trigger] cols@[k]) == k,
        decreases m.col_count() - j,
    {
        cols.push(j);
        j = j + 1;
    }
    let r = extract(m, rows, &cols);
    proof {
        assert forall|i: int| 0 <= i < rows@.len() implies picked(m@, rows@, cols@)[i]
            == #[trigger] picked_rows(m@, rows@)[i] by {
            assert(picked(m@, rows@, cols@)[i] =~= picked_rows(m@, rows@)[i]);
        }
        assert(row_seqs(r@) =~= picked_rows(m@, rows@));
    }
    r
}

fn normalized_row<S: Scalar>(row: &Vec<S>, col: usize) -> (r: Vec<S>)
    requires
        col < row@.len(),
    ensures
        r@ == normalized(row@, col as int),
{
    let ghost target = normalized(row@, col as int);
    let pivot = row[col];
    let mut out: Vec<S> = Vec::new();
    let mut j: usize = 0;
    while j < row.len()
        invariant
            col < row@.len(),
            j <= row@.len(),
            target == normalized(row@, col as int),
            pivot == row@[col as int],
            out@ == target.take(j as int),
        decreases row@.len() - j,
    {
        if j >= col {
            out.push(row[j].over(pivot));
        } else {
            out.push(row[j]);
        }
        j = j + 1;
        assert(target.take(j as int) =~= target.take(j - 1).push(target[j - 1]));
    }
    assert(target.take(j as int) =~= target);
    out
}

fn eliminated_row<S: Scalar>(row: &Vec<S>, pivot: &Vec<S>, col: usize) -> (r: Vec<S>)
    requires
        col < row@.len() == pivot@.len(),
    ensures
        r@ == eliminated(row@, pivot@, col as int),
{
    let ghost target = eliminated(row@, pivot@, col as int);
    let factor = row[col];
    let mut out: Vec<S> = Vec::new();
    let mut j: usize = 0;
    while j < row.len()
        invariant
            col < row@.len() == pivot@.len(),
            j <= row@.len(),
            target == eliminated(row@, pivot@, col as int),
            factor == row@[col as int],
            out@ == target.take(j as int),
        decreases row@.len() - j,
    {
        if j >= col {
            out.push(row[j].minus(factor.times(pivot[j])));
        } else {
            out.push(row[j]);
        }
        j = j + 1;
        assert(target.take(j as int) =~= target.take(j - 1).push(target[j - 1]));
    }
    assert(target.take(j as int) =~= target);
    out
}

fn copy_row<S: Scalar>(row: &Vec<S>) -> (r: Vec<S>)
    ensures
        r@ == row@,
{
    let mut out: Vec<S> = Vec::new();
    let mut j: usize = 0;
    while j < row.len()
        invariant
            j <= row@.len(),
            out@ == row@.take(j as int),
        decreases row@.len() - j,
    {
        out.push(row[j]);
        j = j + 1;
        assert(row@.take(j as int) =~= row@.take(j - 1).push(row@[j - 1]));
    }
    assert(row@.take(j as int) =~= row@);
    out
}

fn step<S: Scalar>(m: &Vec<Vec<S>>, col: usize, at: usize, width: usize) -> (r: Vec<Vec<S>>)
    requires
        col < m@.len(),
        at < m@.len(),
        col < width,
        of_width(row_seqs(m@), width as nat),
    ensures
        row_seqs(r@) == elimination_step(row_seqs(m@), col as int, at as int),
        r@.len() == m@.len(),
        of_width(row_seqs(r@), width as nat),
{
    let ghost source = row_seqs(m@);
    let ghost swapped = exchanged(source, col as int, at as int);
    let ghost all = elimination_step(source, col as int, at as int);
    assert(source[at as int].len() == width);
    let pivot = normalized_row(&m[at], col);
    proof {
        lemma_exchanged(source, col as int, at as int);
    }
    let mut out: Vec<Vec<S>> = Vec::new();
    let mut i: usize = 0;
    assert(row_seqs(out@) =~= all.take(0));
    while i < m.len()
        invariant
            i <= m@.len(),
            col < m@.len(),
            at < m@.len(),
            col < width,
            source == row_seqs(m@),
            of_width(source, width as nat),
            swapped == exchanged(source, col as int, at as int),
            all == elimination_step(source, col as int, at as int),
            pivot@ == normalized(swapped[col as int], col as int),
            pivot@.len() == width,
            row_seqs(out@) == all.take(i as int),
            out@.len() == i,
            of_width(row_seqs(out@), width as nat),
        decreases m@.len() - i,
    {
        let row = if i == col {
            copy_row(&pivot)
        } else {
            let from: usize = if i == at {
                col
            } else {
                i
            };
            proof {
                lemma_exchanged(source, col as int, at as int);
            }
            assert(source[from as int].len() == width);
            eliminated_row(&m[from], &pivot, col)
        };
        let ghost before = out@;
        out.push(row);
        proof {
            lemma_rows_push(before, row);
            assert(row@ == all[i as int]);
            assert(all.take(i + 1) =~= all.take(i as int).push(all[i as int]));
            assert forall|k: int| 0 <= k < out@.len() implies (
            #[trigger] row_seqs(out@)[k]).len() == width by {
                if k < i {
                    assert(row_seqs(out@)[k] == row_seqs(before)[k]);
                }
            }
        }
        i = i + 1;
    }
    assert(all.take(i as int) =~= all);
    out
}

pub fn solve_rows<S: Scalar>(
    coefficients: &Vec<Vec<S>>,
    rhs: &Vec<Vec<S>>,
    cols: usize,
    tolerance: S,
) -> (r: Result<Vec<Vec<S>>, usize>)
    requires
        coefficients@.len() == rhs@.len(),
        of_width(row_seqs(coefficients@), coefficients@.len()),
        of_width(row_seqs(rhs@), cols as nat),
    ensures
        match r {
            Ok(rows) => {
                &&& solution(row_seqs(coefficients@), row_seqs(rhs@), tolerance) == Ok::<
                    Seq<Seq<S>>,
                    int,
                >(row_seqs(rows@))
                &&& rows@.len() == coefficients@.len()
                &&& of_width(row_seqs(rows@), cols as nat)
            },
            Err(col) => solution(row_seqs(coefficients@), row_seqs(rhs@), tolerance) == Err::<
                Seq<Seq<S>>,
                int,
            >(col as int) && col < coefficients@.len(),
        },
{
    let n: usize = coefficients.len();
    let ghost left = row_seqs(coefficients@);
    let ghost right = row_seqs(rhs@);
    let ghost start = beside(left, right);
    let mut m: Vec<Vec<S>> = Vec::new();
    let mut i: usize = 0;
    assert(row_seqs(m@) =~= start.take(0));
    let ghost width: nat = (n + cols) as nat;
    while i < n
        invariant
            i <= n == coefficients@.len() == rhs@.len(),
            left == row_seqs(coefficients@),
            right == row_seqs(rhs@),
            start == beside(left, right),
            of_width(left, n as nat),
            of_width(right, cols as nat),
            width == n + cols,
            row_seqs(m@) == start.take(i as int),
            m@.len() == i,
            of_width(row_seqs(m@), width),
            i > 0 ==> width <= usize::MAX,
        decreases n - i,
    {
        let mut row = copy_row(&coefficients[i]);
        let mut more = copy_row(&rhs[i]);
        row.append(&mut more);
        let ghost before = m@;
        proof {
            assert(row@ == start[i as int]);
            assert(left[i as int].len() == n);
            assert(right[i as int].len() == cols);
            assert(row.len() == row@.len());
        }
        m.push(row);
        proof {
            lemma_rows_push(before, row);
            assert(start.take(i + 1) =~= start.take(i as int).push(start[i as int]));
            assert forall|k: int| 0 <= k < m@.len() implies (#[trigger] row_seqs(m@)[k]).len()
                == width by {
                if k < i {
                    assert(row_seqs(m@)[k] == row_seqs(before)[k]);
                }
            }
        }
        i = i + 1;
    }
    assert(start.take(i as int) =~= start);
    let mut col: usize = 0;
    while col < n
        invariant
            col <= n == m@.len() == coefficients@.len(),
            n > 0 ==> width <= usize::MAX,
            width == n + cols,
            of_width(row_seqs(m@), width),
            left == row_seqs(coefficients@),
            right == row_seqs(rhs@),
            start == beside(left, right),
            reduced_from(row_seqs(m@), tolerance, col as int) == reduced_from(
                start,
                tolerance,
                0,
            ),
        decreases n - col,
    {
        let ghost current = row_seqs(m@);
        proof {
            assert forall|k: int| 0 <= k < n implies (#[trigger] m@[k])@.len() == width by {
                assert(current[k].len() == width);
            }
        }
        let mut best: usize = col;
        let mut row: usize = col + 1;
        while row < n
            invariant
                col < row <= n == m@.len(),
                col <= best < n,
                width == n + cols,
                current == row_seqs(m@),
                forall|k: int| 0 <= k < n ==> (#[trigger] m@[k])@.len() == width,
                largest_row(current, col as int, best as int, row as int) == largest_row(
                    current,
                    col as int,
                    col as int,
                    col + 1,
                ),
            decreases n - row,
        {
            if !m[row][col].abs().ranks_before(m[best][col].abs()) {
                best = row;
            }
            row = row + 1;
        }
        if is_at_most(m[best][col].abs(), tolerance) {
            return Err(col);
        }
        m = step(&m, col, best, n + cols);
        col = col + 1;
    }
    let ghost done = row_seqs(m@);
    let ghost target = columns_from(done, n as int);
    let mut out: Vec<Vec<S>> = Vec::new();
    let mut i: usize = 0;
    assert(row_seqs(out@) =~= target.take(0));
    while i < n
        invariant
            i <= n == m@.len(),
            done == row_seqs(m@),
            width == n + cols,
            of_width(done, width),
            target == columns_from(done, n as int),
            row_seqs(out@) == target.take(i as int),
            out@.len() == i,
            of_width(row_seqs(out@), cols as nat),
        decreases n - i,
    {
        let ghost tail = target[i as int];
        assert(done[i as int].len() == width);
        let mut row: Vec<S> = Vec::new();
        let mut j: usize = n;
        assert(row@ =~= tail.take(0));
        while j < m[i].len()
            invariant
                i < n == m@.len(),
                n <= j <= m@[i as int]@.len() == width,
                done == row_seqs(m@),
                target == columns_from(done, n as int),
                tail == target[i as int],
                row@ == tail.take(j - n),
            decreases m@[i as int]@.len() - j,
        {
            row.push(m[i][j]);
            proof {
                assert(tail[j - n] == done[i as int][j as int]);
                assert(tail.take(j - n + 1) =~= tail.take(j - n).push(tail[j - n]));
            }
            j = j + 1;
        }
        assert(tail.take(j - n) =~= tail);
        let ghost before = out@;
        out.push(row);
        proof {
            lemma_rows_push(before, row);
            assert(target.take(i + 1) =~= target.take(i as int).push(target[i as int]));
            assert forall|k: int| 0 <= k < out@.len() implies (
            #[trigger] row_seqs(out@)[k]).len() == cols by {
                if k < i {
                    assert(row_seqs(out@)[k] == row_seqs(before)[k]);
                }
            }
        }
        i = i + 1;
    }
    assert(target.take(i as int) =~= target);
    Ok(out)
}

// State-space reduction

/// A row of the storage matrix with an entry beyond the tolerance.
pub open spec fn is_dynamic<S: Scalar>(row: Seq<S>, tolerance: S) -> bool {
    exists|j: int| 0 <= j < row.len() && tolerance.below((#[trigger] row[j]).magnitude())
}

/// The rows among the first `n` that are dynamic, or that are not.
pub open spec fn rows_that_are<S: Scalar>(
    dynamic: bool,
    k: Seq<Seq<S>>,
    tolerance: S,
    n: nat,
) -> Seq<usize>
    decreases n,
{
    if n == 0 {
        Seq::empty()
    } else {
        let before = rows_that_are(dynamic, k, tolerance, (n - 1) as nat);
        if is_dynamic(k[n - 1], tolerance) == dynamic {
            before.push((n - 1) as usize)
        } else {
            before
        }
    }
}

/// The reduced dynamics and input matrices after the algebraic rows have been eliminated, or
/// the algebraic row without a pivot.
pub open spec fn schur_complement<S: Scalar>(
    a: Seq<Seq<S>>,
    b: Seq<Seq<S>>,
    cols: nat,
    dynamic: Seq<usize>,
    algebraic: Seq<usize>,
    tolerance: S,
) -> Result<(Seq<Seq<S>>, Seq<Seq<S>>), int> {
    let a_ss = picked(a, dynamic, dynamic);
    let b_s = picked_rows(b, dynamic);
    if algebraic.len() == 0 {
        Ok((a_ss, b_s))
    } else {
        let a_sa = picked(a, dynamic, algebraic);
        let a_as = picked(a, algebraic, dynamic);
        let a_aa = picked(a, algebraic, algebraic);
        let b_a = picked_rows(b, algebraic);
        match solution(a_aa, a_as, tolerance) {
            Err(pivot) => Err(pivot),
            Ok(solved_as) => match solution(a_aa, b_a, tolerance) {
                Err(pivot) => Err(pivot),
                Ok(solved_b) => Ok(
                    (
                        matrix_difference(a_ss, matrix_product(a_sa, solved_as, dynamic.len())),
                        matrix_difference(b_s, matrix_product(a_sa, solved_b, cols)),
                    ),
                ),
            },
        }
    }
}

/// The matrices of the explicit form `dot(x) = A*x + B*u`, with the indices of the dynamic
/// variables, or why there is none.
pub open spec fn reduction<S: Scalar>(
    a: Seq<Seq<S>>,
    k: Seq<Seq<S>>,
    b: Seq<Seq<S>>,
    cols: nat,
    unknowns: Seq<Seq<char>>,
    tolerance: S,
) -> Result<(Seq<Seq<S>>, Seq<Seq<S>>, Seq<usize>), Breakdown> {
    let dynamic = rows_that_are(true, k, tolerance, unknowns.len());
    let algebraic = rows_that_are(false, k, tolerance, unknowns.len());
    let k_ss = picked(k, dynamic, dynamic);
    if dynamic.len() == 0 {
        Err(Breakdown::NoDynamicVariables)
    } else {
        match schur_complement(a, b, cols, dynamic, algebraic, tolerance) {
            Err(pivot) => Err(algebraic_breakdown(unknowns, algebraic, pivot)),
            Ok((a_reduced, b_reduced)) => match solution(
                k_ss,
                matrix_negation(a_reduced),
                tolerance,
            ) {
                Err(pivot) => Err(storage_breakdown(unknowns, dynamic, pivot)),
                Ok(state_a) => match solution(k_ss, b_reduced, tolerance) {
                    Err(pivot) => Err(storage_breakdown(unknowns, dynamic, pivot)),
                    Ok(state_b) => Ok((state_a, state_b, dynamic)),
                },
            },
        }
    }
}

fn select_rows<S: Scalar>(dynamic: bool, k: &Matrix<S>, tolerance: S) -> (r: Vec<usize>)
    ensures
        r@ == rows_that_are(dynamic, k@, tolerance, k.row_count()),
        all_below(r@, k.row_count()),
{
    let ghost rows = k@;
    let mut out: Vec<usize> = Vec::new();
    let mut i: usize = 0;
    while i < k.rows()
        invariant
            i <= k.row_count(),
            rows == k@,
            out@ == rows_that_are(dynamic, rows, tolerance, i as nat),
            all_below(out@, i as nat),
        decreases k.row_count() - i,
    {
        let mut found = false;
        let mut j: usize = 0;
        while j < k.cols()
            invariant
                i < k.row_count(),
                j <= k.col_count(),
                rows == k@,
                found == (exists|c: int|
                    0 <= c < j && tolerance.below((#[trigger] rows[i as int][c]).magnitude())),
            decreases k.col_count() - j,
        {
            if tolerance.less_than((*k.at(i, j)).abs()) {
                assert(tolerance.below(rows[i as int][j as int].magnitude()));
                found = true;
            }
            j = j + 1;
        }
        assert(found == is_dynamic(rows[i as int], tolerance));
        if found == dynamic {
            out.push(i);
        }
        i = i + 1;
    }
    out
}

fn reduce_algebraic<S: Scalar>(
    a: &Matrix<S>,
    b: &Matrix<S>,
    dynamic: &Vec<usize>,
    algebraic: &Vec<usize>,
    tolerance: S,
) -> (r: Result<(Vec<Vec<S>>, Vec<Vec<S>>), usize>)
    requires
        a.col_count() == a.row_count(),
        b.row_count() == a.row_count(),
        all_below(dynamic@, a.row_count()),
        all_below(algebraic@, a.row_count()),
    ensures
        match r {
            Ok((a_reduced, b_reduced)) => {
                &&& schur_complement(
                    a@,
                    b@,
                    b.col_count(),
                    dynamic@,
                    algebraic@,
                    tolerance,
                ) == Ok::<(Seq<Seq<S>>, Seq<Seq<S>>), int>(
                    (row_seqs(a_reduced@), row_seqs(b_reduced@)),
                )
                &&& a_reduced@.len() == dynamic@.len()
                &&& b_reduced@.len() == dynamic@.len()
                &&& of_width(row_seqs(a_reduced@), dynamic@.len())
                &&& of_width(row_seqs(b_reduced@), b.col_count())
            },
            Err(pivot) => schur_complement(
                a@,
                b@,
                b.col_count(),
                dynamic@,
                algebraic@,
                tolerance,
            ) == Err::<(Seq<Seq<S>>, Seq<Seq<S>>), int>(pivot as int) && pivot
                < algebraic@.len(),
        },
{
    let a_ss = extract(a, dynamic, dynamic);
    let b_s = extract_rows(b, dynamic);
    if algebraic.len() == 0 {
        return Ok((a_ss, b_s));
    }
    let a_sa = extract(a, dynamic, algebraic);
    let a_as = extract(a, algebraic, dynamic);
    let a_aa = extract(a, algebraic, algebraic);
    let b_a = extract_rows(b, algebraic);
    let solved_as = match solve_rows(&a_aa, &a_as, dynamic.len(), tolerance) {
        Ok(rows) => rows,
        Err(pivot) => {
            return Err(pivot);
        },
    };
    let solved_b = match solve_rows(&a_aa, &b_a, b.cols(), tolerance) {
        Ok(rows) => rows,
        Err(pivot) => {
            return Err(pivot);
        },
    };
    let a_product = multiply(&a_sa, &solved_as, dynamic.len());
    let b_product = multiply(&a_sa, &solved_b, b.cols());
    let a_reduced = subtract(&a_ss, &a_product, dynamic.len());
    let b_reduced = subtract(&b_s, &b_product, b.cols());
    Ok((a_reduced, b_reduced))
}

/// The dimensions of a system's matrices agree with its unknowns.
pub open spec fn dimensions_agree<S: Scalar>(system: NumericMnaSystem<S>) -> bool {
    let order = system.unknowns@.len();
    &&& system.a.row_count() == order
    &&& system.a.col_count() == order
    &&& system.k.row_count() == order
    &&& system.k.col_count() == order
    &&& system.b.row_count() == order
}

/// `space` is the explicit form of a descriptor system: its matrices are those of the reduction,
/// and its states are named after the unknowns that are left.
pub open spec fn is_explicit_form<S: Scalar>(
    system: NumericMnaSystem<S>,
    tolerance: S,
    space: NumericStateSpace<S>,
) -> bool {
    &&& reduction(
        system.a@,
        system.k@,
        system.b@,
        system.b.col_count(),
        text::texts(system.unknowns@),
        tolerance,
    ) == Ok::<(Seq<Seq<S>>, Seq<Seq<S>>, Seq<usize>), Breakdown>(
        (space.a@, space.b@, space.mna_state_indices@),
    )
    &&& text::texts(space.states@) == picked_names(
        text::texts(system.unknowns@),
        space.mna_state_indices@,
    )
    &&& text::texts(space.inputs@) == text::texts(system.inputs@)
    &&& space.a.row_count() == space.states@.len()
    &&& space.a.col_count() == space.states@.len()
    &&& space.b.row_count() == space.states@.len()
    &&& space.b.col_count() == system.b.col_count()
}

impl<S: Scalar> NumericMnaSystem<S> {
    /// Eliminates algebraic variables with a Schur complement.
    ///
    /// Dynamic variables are the indices whose row in `K` has an entry beyond the tolerance.
    pub fn to_state_space(&self, tolerance: S) -> (r: Result<
        NumericStateSpace<S>,
        StateSpaceError,
    >)
        ensures
            !dimensions_agree(*self) ==> (r matches Err(error) && error@
                == Breakdown::InconsistentDimensions),
            r matches Ok(space) ==> {
                &&& space.states@.len() == space.mna_state_indices@.len()
                &&& forall|i: int|
                    0 <= i < space.states@.len() ==> space.mna_state_indices@[i]
                        < self.unknowns@.len() && (#[trigger] space.states@[i])@
                        == self.unknowns@[space.mna_state_indices@[i] as int]@
            },
            dimensions_agree(*self) ==> match r {
                Ok(space) => is_explicit_form(*self, tolerance, space),
                Err(error) => reduction(
                    self.a@,
                    self.k@,
                    self.b@,
                    self.b.col_count(),
                    text::texts(self.unknowns@),
                    tolerance,
                ) == Err::<(Seq<Seq<S>>, Seq<Seq<S>>, Seq<usize>), Breakdown>(error@),
            },
    {
        let order: usize = self.unknowns.len();
        if self.a.rows() != order || self.a.cols() != order || self.k.rows() != order
            || self.k.cols() != order || self.b.rows() != order {
            return Err(StateSpaceError::InconsistentDimensions);
        }
        let dynamic = select_rows(true, &self.k, tolerance);
        if dynamic.len() == 0 {
            return Err(StateSpaceError::NoDynamicVariables);
        }
        let algebraic = select_rows(false, &self.k, tolerance);
        let k_ss = extract(&self.k, &dynamic, &dynamic);
        let (a_reduced, b_reduced) = match reduce_algebraic(
            &self.a,
            &self.b,
            &dynamic,
            &algebraic,
            tolerance,
        ) {
            Ok(pair) => pair,
            Err(pivot) => {
                return Err(singular_algebraic(&self.unknowns, &algebraic, pivot));
            },
        };
        let negative_a = negate(&a_reduced, dynamic.len());
        let state_a = match solve_rows(&k_ss, &negative_a, dynamic.len(), tolerance) {
            Ok(rows) => rows,
            Err(pivot) => {
                return Err(singular_storage(&self.unknowns, &dynamic, pivot));
            },
        };
        let state_b = match solve_rows(&k_ss, &b_reduced, self.b.cols(), tolerance) {
            Ok(rows) => rows,
            Err(pivot) => {
                return Err(singular_storage(&self.unknowns, &dynamic, pivot));
            },
        };
        let states = pick_names(&self.unknowns, &dynamic);
        assert(text::texts(states@).len() == states@.len());
        Ok(
            NumericStateSpace {
                a: Matrix::from_rows(state_a, dynamic.len()),
                b: Matrix::from_rows(state_b, self.b.cols()),
                states,
                inputs: copy_texts(&self.inputs),
                mna_state_indices: dynamic,
            },
        )
    }
}

} // verus!
