//! What averaged models and duty perturbations are, evaluated, apart from rounding.

use crate::averaging::{averaged, duty_column, minus_difference, plus_difference, weighted};
use crate::expr;
use crate::expr::{difference, product, value, Expr, Failure};
use crate::expression_laws::{
    law_difference_keeps_value, law_product_keeps_value, law_sum_keeps_value,
};
use crate::field::{
    combination, exact, lemma_difference, lemma_distributes, lemma_exchange,
    lemma_negation_of_product, lemma_negation_of_sum, lemma_negation_twice, lemma_sum_associates,
    lemma_sum_zero,
};
use crate::scalar::Scalar;
use crate::symbolic_laws::row_values;
use crate::system::Descriptor;
use vstd::prelude::*;

verus! {

/// Every expression of a list has a value.
pub open spec fn all_valued<S: Scalar>(list: Seq<Expr<S>>, values: Map<Seq<char>, S>) -> bool {
    forall|i: int| 0 <= i < list.len() ==> value(#[trigger] list[i], values) is Ok
}

// Averaging

/// The weights of a list of phases.
pub open spec fn weights<S: Scalar>(phases: Seq<(Descriptor<S>, Expr<S>)>) -> Seq<Expr<S>> {
    Seq::new(phases.len(), |i: int| phases[i].1)
}

/// One quantity of each of a list of phases.
pub open spec fn quantities<S: Scalar>(
    phases: Seq<(Descriptor<S>, Expr<S>)>,
    select: spec_fn(Descriptor<S>) -> Expr<S>,
) -> Seq<Expr<S>> {
    Seq::new(phases.len(), |i: int| select(phases[i].0))
}

proof fn lemma_weighted<S: Scalar>(
    phases: Seq<(Descriptor<S>, Expr<S>)>,
    select: spec_fn(Descriptor<S>) -> Expr<S>,
    values: Map<Seq<char>, S>,
    n: nat,
)
    requires
        exact::<S>(),
        n <= phases.len(),
        all_valued(weights(phases), values),
        all_valued(quantities(phases, select), values),
    ensures
        value(weighted(phases, select, n), values) == Ok::<S, Failure<S>>(
            combination(
                row_values(weights(phases), values),
                row_values(quantities(phases, select), values),
                n,
            ),
        ),
    decreases n,
{
    if n > 0 {
        let less = (n - 1) as nat;
        lemma_weighted(phases, select, values, less);
        let w = weights(phases)[n - 1];
        let q = quantities(phases, select)[n - 1];
        assert(value(w, values) is Ok);
        assert(value(q, values) is Ok);
        law_product_keeps_value(w, q, values);
        law_sum_keeps_value(weighted(phases, select, less), product(w, q), values);
    }
}

/// Every entry of an averaged memoryless matrix is the sum of the phases' entries, each times
/// the weight of its phase.
pub proof fn law_average_of_memoryless_matrix<S: Scalar>(
    phases: Seq<(Descriptor<S>, Expr<S>)>,
    values: Map<Seq<char>, S>,
    row: int,
    col: int,
)
    requires
        exact::<S>(),
        all_valued(weights(phases), values),
        all_valued(quantities(phases, |s: Descriptor<S>| s.a[row][col]), values),
    ensures
        averaged(phases) matches Ok(d) ==> (0 <= row < d.unknowns.len() && 0 <= col
            < d.unknowns.len() ==> value(d.a[row][col], values) == Ok::<S, Failure<S>>(
            combination(
                row_values(weights(phases), values),
                row_values(quantities(phases, |s: Descriptor<S>| s.a[row][col]), values),
                phases.len(),
            ),
        )),
{
    let select = |s: Descriptor<S>| s.a[row][col];
    lemma_weighted(phases, select, values, phases.len());
    lemma_same_selection(
        phases,
        |s: Descriptor<S>| (|s: Descriptor<S>| s.a)(s)[row][col],
        select,
        phases.len(),
    );
}

/// Every entry of an averaged storage matrix is the sum of the phases' entries, each times the
/// weight of its phase.
pub proof fn law_average_of_storage_matrix<S: Scalar>(
    phases: Seq<(Descriptor<S>, Expr<S>)>,
    values: Map<Seq<char>, S>,
    row: int,
    col: int,
)
    requires
        exact::<S>(),
        all_valued(weights(phases), values),
        all_valued(quantities(phases, |s: Descriptor<S>| s.k[row][col]), values),
    ensures
        averaged(phases) matches Ok(d) ==> (0 <= row < d.unknowns.len() && 0 <= col
            < d.unknowns.len() ==> value(d.k[row][col], values) == Ok::<S, Failure<S>>(
            combination(
                row_values(weights(phases), values),
                row_values(quantities(phases, |s: Descriptor<S>| s.k[row][col]), values),
                phases.len(),
            ),
        )),
{
    let select = |s: Descriptor<S>| s.k[row][col];
    lemma_weighted(phases, select, values, phases.len());
    lemma_same_selection(
        phases,
        |s: Descriptor<S>| (|s: Descriptor<S>| s.k)(s)[row][col],
        select,
        phases.len(),
    );
}

/// Every entry of an averaged input matrix is the sum of the phases' entries, each times the
/// weight of its phase.
pub proof fn law_average_of_input_matrix<S: Scalar>(
    phases: Seq<(Descriptor<S>, Expr<S>)>,
    values: Map<Seq<char>, S>,
    row: int,
    col: int,
)
    requires
        exact::<S>(),
        all_valued(weights(phases), values),
        all_valued(quantities(phases, |s: Descriptor<S>| s.b[row][col]), values),
    ensures
        averaged(phases) matches Ok(d) ==> (0 <= row < d.unknowns.len() && 0 <= col
            < d.inputs.len() ==> value(d.b[row][col], values) == Ok::<S, Failure<S>>(
            combination(
                row_values(weights(phases), values),
                row_values(quantities(phases, |s: Descriptor<S>| s.b[row][col]), values),
                phases.len(),
            ),
        )),
{
    let select = |s: Descriptor<S>| s.b[row][col];
    lemma_weighted(phases, select, values, phases.len());
    lemma_same_selection(
        phases,
        |s: Descriptor<S>| (|s: Descriptor<S>| s.b)(s)[row][col],
        select,
        phases.len(),
    );
}

/// Every entry of an averaged source vector is the sum of the phases' entries, each times the
/// weight of its phase.
pub proof fn law_average_of_source_vector<S: Scalar>(
    phases: Seq<(Descriptor<S>, Expr<S>)>,
    values: Map<Seq<char>, S>,
    row: int,
)
    requires
        exact::<S>(),
        all_valued(weights(phases), values),
        all_valued(quantities(phases, |s: Descriptor<S>| s.u[row]), values),
    ensures
        averaged(phases) matches Ok(d) ==> (0 <= row < d.unknowns.len() ==> value(
            d.u[row],
            values,
        ) == Ok::<S, Failure<S>>(
            combination(
                row_values(weights(phases), values),
                row_values(quantities(phases, |s: Descriptor<S>| s.u[row]), values),
                phases.len(),
            ),
        )),
{
    let select = |s: Descriptor<S>| s.u[row];
    lemma_weighted(phases, select, values, phases.len());
    lemma_same_selection(phases, |s: Descriptor<S>| s.u[row], select, phases.len());
}

proof fn lemma_same_selection<S: Scalar>(
    phases: Seq<(Descriptor<S>, Expr<S>)>,
    first: spec_fn(Descriptor<S>) -> Expr<S>,
    other: spec_fn(Descriptor<S>) -> Expr<S>,
    n: nat,
)
    requires
        n <= phases.len(),
        forall|i: int| 0 <= i < phases.len() ==> first((#[trigger] phases[i]).0) == other(
            phases[i].0,
        ),
    ensures
        weighted(phases, first, n) == weighted(phases, other, n),
    decreases n,
{
    if n > 0 {
        lemma_same_selection(phases, first, other, (n - 1) as nat);
        assert(first(phases[n - 1].0) == other(phases[n - 1].0));
    }
}

// Duty perturbation

/// `(p + (a - b)*x)` is `(p + a*x) - b*x`, put together over two lists.
proof fn lemma_plus_difference<S: Scalar>(
    start: Expr<S>,
    on: Seq<Expr<S>>,
    off: Seq<Expr<S>>,
    point: Seq<Expr<S>>,
    values: Map<Seq<char>, S>,
    n: nat,
)
    requires
        exact::<S>(),
        value(start, values) is Ok,
        n <= on.len(),
        n <= off.len(),
        n <= point.len(),
        all_valued(on, values),
        all_valued(off, values),
        all_valued(point, values),
    ensures
        value(plus_difference(start, on, off, point, n), values) == Ok::<S, Failure<S>>(
            value(start, values)->Ok_0.sum(
                combination(row_values(on, values), row_values(point, values), n).difference(
                    combination(row_values(off, values), row_values(point, values), n),
                ),
            ),
        ),
        value(minus_difference(start, on, off, point, n), values) == Ok::<S, Failure<S>>(
            value(start, values)->Ok_0.difference(
                combination(row_values(on, values), row_values(point, values), n).difference(
                    combination(row_values(off, values), row_values(point, values), n),
                ),
            ),
        ),
    decreases n,
{
    let s = value(start, values)->Ok_0;
    let (a, b, p) = (row_values(on, values), row_values(off, values), row_values(point, values));
    if n == 0 {
        lemma_difference(S::nought(), S::nought());
        lemma_negation_twice(S::nought());
        lemma_sum_zero(S::nought());
        lemma_sum_zero(s);
        lemma_difference(s, S::nought());
    } else {
        let less = (n - 1) as nat;
        lemma_plus_difference(start, on, off, point, values, less);
        assert(value(on[n - 1], values) is Ok);
        assert(value(off[n - 1], values) is Ok);
        assert(value(point[n - 1], values) is Ok);
        let gap = difference(on[n - 1], off[n - 1]);
        law_difference_keeps_value(on[n - 1], off[n - 1], values);
        law_product_keeps_value(gap, point[n - 1], values);
        law_sum_keeps_value(
            plus_difference(start, on, off, point, less),
            product(gap, point[n - 1]),
            values,
        );
        law_difference_keeps_value(
            minus_difference(start, on, off, point, less),
            product(gap, point[n - 1]),
            values,
        );
        let (x, y, z) = (a[n - 1], b[n - 1], p[n - 1]);
        let (u, v) = (combination(a, p, less), combination(b, p, less));
        lemma_grown_difference(u, v, x, y, z);
        lemma_sum_associates(s, u.difference(v), x.difference(y).product(z));
        let (d, e) = (u.difference(v), x.difference(y).product(z));
        lemma_difference(s, d);
        lemma_difference(s.difference(d), e);
        lemma_difference(s, d.sum(e));
        lemma_sum_associates(s, d.negation(), e.negation());
        lemma_negation_of_sum(d, e);
    }
}

/// `(u - v) + (x - y)*z == (u + x*z) - (v + y*z)`.
proof fn lemma_grown_difference<S: Scalar>(u: S, v: S, x: S, y: S, z: S)
    requires
        exact::<S>(),
    ensures
        u.difference(v).sum(x.difference(y).product(z)) == u.sum(x.product(z)).difference(
            v.sum(y.product(z)),
        ),
{
    lemma_difference(u, v);
    lemma_difference(x, y);
    lemma_distributes(z, x, y.negation());
    lemma_negation_of_product(y, z);
    lemma_difference(u.sum(x.product(z)), v.sum(y.product(z)));
    lemma_negation_of_sum(v, y.product(z));
    lemma_exchange(u, v.negation(), x.product(z), y.product(z).negation());
}

/// What drives a row of a descriptor system at an operating point: `B*u - A*x`.
pub open spec fn drive<S: Scalar>(
    system: Descriptor<S>,
    row: int,
    state: Seq<Expr<S>>,
    input: Seq<Expr<S>>,
    values: Map<Seq<char>, S>,
) -> S {
    combination(
        row_values(system.b[row], values),
        row_values(input, values),
        input.len(),
    ).difference(
        combination(row_values(system.a[row], values), row_values(state, values), state.len()),
    )
}

/// `(0 + (p - q)) - (r - s) == (p - r) - (q - s)`.
proof fn lemma_regrouped<S: Scalar>(p: S, q: S, r: S, s: S)
    requires
        exact::<S>(),
    ensures
        S::nought().sum(p.difference(q)).difference(r.difference(s)) == p.difference(
            r,
        ).difference(q.difference(s)),
{
    lemma_sum_zero(p.difference(q));
    lemma_difference(p, q);
    lemma_difference(r, s);
    lemma_difference(p, r);
    lemma_difference(q, s);
    lemma_difference(p.difference(q), r.difference(s));
    lemma_difference(p.difference(r), q.difference(s));
    lemma_negation_of_sum(r, s.negation());
    lemma_negation_of_sum(q, s.negation());
    lemma_negation_twice(s);
    lemma_exchange(p, q.negation(), r.negation(), s);
}

/// A duty perturbation drives a row by as much as the row is driven more in the on phase than
/// in the off phase, both at the same operating point.
pub proof fn law_duty_input_is_difference_of_phases<S: Scalar>(
    on: Descriptor<S>,
    off: Descriptor<S>,
    state: Seq<Expr<S>>,
    input: Seq<Expr<S>>,
    values: Map<Seq<char>, S>,
    row: int,
)
    requires
        exact::<S>(),
        0 <= row < on.unknowns.len(),
        on.b[row].len() == input.len() == off.b[row].len(),
        on.a[row].len() == state.len() == off.a[row].len(),
        all_valued(on.a[row], values),
        all_valued(off.a[row], values),
        all_valued(on.b[row], values),
        all_valued(off.b[row], values),
        all_valued(state, values),
        all_valued(input, values),
    ensures
        value(duty_column(on, off, state, input)[row], values) == Ok::<S, Failure<S>>(
            drive(on, row, state, input, values).difference(
                drive(off, row, state, input, values),
            ),
        ),
{
    let driven = plus_difference(expr::zero(), on.b[row], off.b[row], input, input.len());
    lemma_plus_difference(expr::zero(), on.b[row], off.b[row], input, values, input.len());
    lemma_plus_difference(driven, on.a[row], off.a[row], state, values, state.len());
    let p = combination(
        row_values(on.b[row], values),
        row_values(input, values),
        input.len(),
    );
    let q = combination(
        row_values(off.b[row], values),
        row_values(input, values),
        input.len(),
    );
    let r = combination(
        row_values(on.a[row], values),
        row_values(state, values),
        state.len(),
    );
    let s = combination(
        row_values(off.a[row], values),
        row_values(state, values),
        state.len(),
    );
    lemma_regrouped(p, q, r, s);
}

} // verus!
