//! Weighted descriptor models of converter phases.

use crate::builder::lemma_grid_set;
use crate::expr;
use crate::expr::Expr;
use crate::expression::{exprs, lemma_exprs_push, Expression};
use crate::matrix::Matrix;
use crate::name_map::NameMap;
use crate::scalar::Scalar;
use crate::system::{
    expr_map, extend_expressions, extend_waves, grid, initials, wave_map, MnaSystem,
    Descriptor,
};
use crate::text;
use crate::text::copy_texts;
use crate::transient_source::{TransientFunction, Wave};
use vstd::prelude::*;

verus! {

/// One topology and its fraction of the switching period.
#[derive(Debug, Clone, Copy)]
pub struct WeightedPhase<'a, S> {
    /// Phase MNA system.
    pub system: &'a MnaSystem<S>,
    /// Phase duration divided by switching period.
    pub weight: &'a Expression<S>,
}

/// Error returned by converter averaging helpers.
#[derive(Debug, Clone, Copy, PartialEq, Eq)]
pub enum AveragingError {
    /// No phase was supplied.
    NoPhases,
    /// Phase unknown vectors differ.
    UnknownsDiffer,
    /// Phase input vectors differ.
    InputsDiffer,
    /// An operating point has the wrong length.
    OperatingPointSize {
        /// Required length.
        expected: usize,
        /// Supplied length.
        actual: usize,
        /// `"state"` or `"input"`.
        kind: &'static str,
    },
}

/// The message for an averaging error.
pub open spec fn averaging_text(error: AveragingError) -> Seq<char> {
    match error {
        AveragingError::NoPhases => "at least one converter phase is required"@,
        AveragingError::UnknownsDiffer => "converter phases have different unknown vectors"@,
        AveragingError::InputsDiffer => "converter phases have different input vectors"@,
        AveragingError::OperatingPointSize { expected, actual, kind } => kind@
            + " operating point needs "@ + text::decimal(expected as nat) + " entries, received "@
            + text::decimal(actual as nat),
    }
}

impl AveragingError {
    /// The message for a reader.
    pub fn to_text(&self) -> (r: String)
        ensures
            r@ == averaging_text(*self),
    {
        match self {
            AveragingError::NoPhases => text::copy("at least one converter phase is required"),
            AveragingError::UnknownsDiffer => text::copy(
                "converter phases have different unknown vectors",
            ),
            AveragingError::InputsDiffer => text::copy(
                "converter phases have different input vectors",
            ),
            AveragingError::OperatingPointSize { expected, actual, kind } => text::concat5(
                *kind,
                " operating point needs ",
                text::number_text(*expected).as_str(),
                " entries, received ",
                text::number_text(*actual).as_str(),
            ),
        }
    }
}

/// The mathematical form of a list of phases.
pub open spec fn phase_views<S: Scalar>(phases: Seq<WeightedPhase<'_, S>>) -> Seq<
    (Descriptor<S>, Expr<S>),
> {
    Seq::new(phases.len(), |i: int| (phases[i].system@, phases[i].weight@))
}

/// Why two systems cannot be combined, if they cannot.
pub open spec fn mismatch<S: Scalar>(first: Descriptor<S>, other: Descriptor<S>) -> Option<AveragingError> {
    if first.unknowns != other.unknowns {
        Some(AveragingError::UnknownsDiffer)
    } else if first.inputs != other.inputs {
        Some(AveragingError::InputsDiffer)
    } else {
        None
    }
}

/// The first mismatch between the first phase and those from `i` on.
pub open spec fn first_mismatch<S: Scalar>(phases: Seq<(Descriptor<S>, Expr<S>)>, i: int) -> Option<
    AveragingError,
>
    decreases phases.len() - i,
{
    if i < 0 || i >= phases.len() {
        None
    } else {
        match mismatch(phases[0].0, phases[i].0) {
            Some(error) => Some(error),
            None => first_mismatch(phases, i + 1),
        }
    }
}

/// The weighted sum of one value per phase over the first `n` phases.
pub open spec fn weighted<S: Scalar>(
    phases: Seq<(Descriptor<S>, Expr<S>)>,
    select: spec_fn(Descriptor<S>) -> Expr<S>,
    n: nat,
) -> Expr<S>
    decreases n,
{
    if n == 0 {
        expr::zero()
    } else {
        expr::sum(
            weighted(phases, select, (n - 1) as nat),
            expr::product(phases[n - 1].1, select(phases[n - 1].0)),
        )
    }
}

/// The weighted sum of one matrix per phase.
pub open spec fn weighted_matrix<S: Scalar>(
    phases: Seq<(Descriptor<S>, Expr<S>)>,
    select: spec_fn(Descriptor<S>) -> Seq<Seq<Expr<S>>>,
    rows: nat,
    cols: nat,
    n: nat,
) -> Seq<Seq<Expr<S>>> {
    Seq::new(
        rows,
        |row: int|
            Seq::new(
                cols,
                |col: int| weighted(phases, |s: Descriptor<S>| select(s)[row][col], n),
            ),
    )
}

/// The parameter defaults of the first `n` phases; a later phase overrides an earlier one.
pub open spec fn joined_parameters<S: Scalar>(
    phases: Seq<(Descriptor<S>, Expr<S>)>,
    n: nat,
) -> Map<Seq<char>, Expr<S>>
    decreases n,
{
    if n == 0 {
        Map::empty()
    } else {
        joined_parameters(phases, (n - 1) as nat).union_prefer_right(phases[n - 1].0.parameters)
    }
}

/// The transient functions of the first `n` phases; a later phase overrides an earlier one.
pub open spec fn joined_waves<S: Scalar>(
    phases: Seq<(Descriptor<S>, Expr<S>)>,
    n: nat,
) -> Map<Seq<char>, Wave<S>>
    decreases n,
{
    if n == 0 {
        Map::empty()
    } else {
        joined_waves(phases, (n - 1) as nat).union_prefer_right(phases[n - 1].0.transients)
    }
}

/// The warnings of one phase, each with the number of the phase.
pub open spec fn numbered<S: Scalar>(system: Descriptor<S>, number: nat) -> Seq<Seq<char>> {
    Seq::new(
        system.warnings.len(),
        |i: int| "phase "@ + text::decimal(number) + ": "@ + system.warnings[i],
    )
}

/// The warnings of the first `n` phases.
pub open spec fn joined_warnings<S: Scalar>(
    phases: Seq<(Descriptor<S>, Expr<S>)>,
    n: nat,
) -> Seq<Seq<char>>
    decreases n,
{
    if n == 0 {
        Seq::empty()
    } else {
        joined_warnings(phases, (n - 1) as nat) + numbered(phases[n - 1].0, n)
    }
}

/// The weighted model of at least one phase.
pub open spec fn average_of<S: Scalar>(phases: Seq<(Descriptor<S>, Expr<S>)>) -> Descriptor<S> {
    let first = phases[0].0;
    let order = first.unknowns.len();
    let count = first.inputs.len();
    let n = phases.len();
    Descriptor {
        a: weighted_matrix(phases, |s: Descriptor<S>| s.a, order, order, n),
        k: weighted_matrix(phases, |s: Descriptor<S>| s.k, order, order, n),
        b: weighted_matrix(phases, |s: Descriptor<S>| s.b, order, count, n),
        u: Seq::new(order, |row: int| weighted(phases, |s: Descriptor<S>| s.u[row], n)),
        unknowns: first.unknowns,
        inputs: first.inputs,
        input_values: first.input_values,
        transients: joined_waves(phases, n),
        initial: Seq::empty(),
        parameters: joined_parameters(phases, n),
        warnings: joined_warnings(phases, n),
    }
}

/// The weighted model of a list of phases, or why there is none.
pub open spec fn averaged<S: Scalar>(phases: Seq<(Descriptor<S>, Expr<S>)>) -> Result<
    Descriptor<S>,
    AveragingError,
> {
    if phases.len() == 0 {
        Err(AveragingError::NoPhases)
    } else {
        match first_mismatch(phases, 1) {
            Some(error) => Err(error),
            None => Ok(average_of(phases)),
        }
    }
}

fn same_texts(a: &Vec<String>, b: &Vec<String>) -> (r: bool)
    ensures
        r == (text::texts(a@) == text::texts(b@)),
{
    let ghost x = text::texts(a@);
    let ghost y = text::texts(b@);
    if a.len() != b.len() {
        assert(x.len() != y.len());
        return false;
    }
    let mut i: usize = 0;
    while i < a.len()
        invariant
            i <= a@.len() == b@.len(),
            x == text::texts(a@),
            y == text::texts(b@),
            forall|j: int| 0 <= j < i ==> x[j] == y[j],
        decreases a@.len() - i,
    {
        if !text::same(a[i].as_str(), b[i].as_str()) {
            assert(x[i as int] != y[i as int]);
            return false;
        }
        i = i + 1;
    }
    assert(x =~= y);
    true
}

fn ensure_compatible<S: Scalar>(first: &MnaSystem<S>, other: &MnaSystem<S>) -> (r: Result<
    (),
    AveragingError,
>)
    ensures
        match r {
            Ok(_) => mismatch(first@, other@) is None,
            Err(error) => mismatch(first@, other@) == Some(error),
        },
{
    if !same_texts(&first.unknowns, &other.unknowns) {
        return Err(AveragingError::UnknownsDiffer);
    }
    if !same_texts(&first.inputs, &other.inputs) {
        return Err(AveragingError::InputsDiffer);
    }
    Ok(())
}

/// Which of the three matrices of a system is meant.
#[derive(Clone, Copy)]
enum Which {
    A,
    K,
    B,
}

spec fn chosen<S: Scalar>(which: Which) -> spec_fn(Descriptor<S>) -> Seq<Seq<Expr<S>>> {
    match which {
        Which::A => |s: Descriptor<S>| s.a,
        Which::K => |s: Descriptor<S>| s.k,
        Which::B => |s: Descriptor<S>| s.b,
    }
}

fn matrix_of<'a, S: Scalar>(system: &'a MnaSystem<S>, which: Which) -> (r: &'a Matrix<
    Expression<S>,
>)
    requires
        system.well_formed(),
    ensures
        grid(*r) == chosen(which)(system@),
        r.row_count() == system.unknowns@.len(),
        r.col_count() == (if which is B {
            system.inputs@.len()
        } else {
            system.unknowns@.len()
        }),
{
    match which {
        Which::A => &system.a,
        Which::K => &system.k,
        Which::B => &system.b,
    }
}

/// The phases are well formed and agree on their unknowns and inputs.
spec fn agree<S: Scalar>(phases: Seq<WeightedPhase<'_, S>>, order: nat, count: nat) -> bool {
    forall|i: int|
        0 <= i < phases.len() ==> {
            &&& (#[trigger] phases[i]).system.well_formed()
            &&& phases[i].system.unknowns@.len() == order
            &&& phases[i].system.inputs@.len() == count
        }
}

fn weigh<S: Scalar>(
    phases: &[WeightedPhase<'_, S>],
    which: Which,
    rows: usize,
    cols: usize,
) -> (r: Matrix<Expression<S>>)
    requires
        agree(
            phases@,
            rows as nat,
            if which is B {
                cols as nat
            } else {
                phases@[0].system.inputs@.len()
            },
        ),
        !(which is B) ==> rows == cols,
    ensures
        r.row_count() == rows,
        r.col_count() == cols,
        grid(r) == weighted_matrix(
            phase_views(phases@),
            chosen(which),
            rows as nat,
            cols as nat,
            phases@.len(),
        ),
{
    let ghost views = phase_views(phases@);
    let mut m: Matrix<Expression<S>> = Matrix::filled(rows, cols, Expression::zero());
    let mut row: usize = 0;
    while row < rows
        invariant
            row <= rows,
            views == phase_views(phases@),
            agree(
                phases@,
                rows as nat,
                if which is B {
                    cols as nat
                } else {
                    phases@[0].system.inputs@.len()
                },
            ),
            !(which is B) ==> rows == cols,
            m.row_count() == rows,
            m.col_count() == cols,
            forall|i: int, j: int|
                0 <= i < row && 0 <= j < cols ==> (#[trigger] grid(m)[i][j]) == weighted(
                    views,
                    |s: Descriptor<S>| chosen(which)(s)[i][j],
                    phases@.len(),
                ),
        decreases rows - row,
    {
        let mut col: usize = 0;
        while col < cols
            invariant
                row < rows,
                col <= cols,
                views == phase_views(phases@),
                agree(
                    phases@,
                    rows as nat,
                    if which is B {
                        cols as nat
                    } else {
                        phases@[0].system.inputs@.len()
                    },
                ),
                !(which is B) ==> rows == cols,
                m.row_count() == rows,
                m.col_count() == cols,
                forall|i: int, j: int|
                    0 <= i < rows && 0 <= j < cols && (i < row || (i == row && j < col)) ==> (
                    #[trigger] grid(m)[i][j]) == weighted(
                        views,
                        |s: Descriptor<S>| chosen(which)(s)[i][j],
                        phases@.len(),
                    ),
            decreases cols - col,
        {
            let ghost select = |s: Descriptor<S>| chosen(which)(s)[row as int][col as int];
            let mut total: Expression<S> = Expression::zero();
            let mut i: usize = 0;
            while i < phases.len()
                invariant
                    i <= phases@.len(),
                    row < rows,
                    col < cols,
                    views == phase_views(phases@),
                    agree(
                        phases@,
                        rows as nat,
                        if which is B {
                            cols as nat
                        } else {
                            phases@[0].system.inputs@.len()
                        },
                    ),
                    !(which is B) ==> rows == cols,
                    select == (|s: Descriptor<S>| chosen(which)(s)[row as int][col as int]),
                    total@ == weighted(views, select, i as nat),
                decreases phases@.len() - i,
            {
                let phase = &phases[i];
                assert(phases@[i as int].system.well_formed());
                assert(views[i as int] == (phase.system@, phase.weight@));
                let matrix = matrix_of(phase.system, which);
                assert(grid(*matrix)[row as int][col as int] == matrix@[row as int][col as int]@);
                total = total.plus(phase.weight.copy().times(matrix.at(row, col).copy()));
                i = i + 1;
            }
            let ghost before = m;
            m.set(row, col, total);
            proof {
                lemma_grid_set(before, m, row as int, col as int, total);
            }
            col = col + 1;
        }
        row = row + 1;
    }
    assert(grid(m) =~~= weighted_matrix(
        views,
        chosen(which),
        rows as nat,
        cols as nat,
        phases@.len(),
    ));
    m
}

fn weigh_sources<S: Scalar>(phases: &[WeightedPhase<'_, S>], order: usize) -> (r: Vec<
    Expression<S>,
>)
    requires
        agree(phases@, order as nat, phases@[0].system.inputs@.len()),
    ensures
        exprs(r@) == Seq::new(
            order as nat,
            |row: int| weighted(phase_views(phases@), |s: Descriptor<S>| s.u[row], phases@.len()),
        ),
{
    let ghost views = phase_views(phases@);
    let ghost target = Seq::new(
        order as nat,
        |row: int| weighted(views, |s: Descriptor<S>| s.u[row], phases@.len()),
    );
    let mut u: Vec<Expression<S>> = Vec::new();
    let mut row: usize = 0;
    while row < order
        invariant
            row <= order,
            views == phase_views(phases@),
            agree(phases@, order as nat, phases@[0].system.inputs@.len()),
            target == Seq::new(
                order as nat,
                |row: int| weighted(views, |s: Descriptor<S>| s.u[row], phases@.len()),
            ),
            exprs(u@) == target.take(row as int),
        decreases order - row,
    {
        let ghost select = |s: Descriptor<S>| s.u[row as int];
        let mut total: Expression<S> = Expression::zero();
        let mut i: usize = 0;
        while i < phases.len()
            invariant
                i <= phases@.len(),
                row < order,
                views == phase_views(phases@),
                agree(phases@, order as nat, phases@[0].system.inputs@.len()),
                select == (|s: Descriptor<S>| s.u[row as int]),
                total@ == weighted(views, select, i as nat),
            decreases phases@.len() - i,
        {
            let phase = &phases[i];
            assert(phases@[i as int].system.well_formed());
            assert(views[i as int] == (phase.system@, phase.weight@));
            assert(phase.system@.u[row as int] == phase.system.u@[row as int]@);
            total = total.plus(phase.weight.copy().times(phase.system.u[row].copy()));
            i = i + 1;
        }
        let ghost before = u@;
        u.push(total);
        proof {
            lemma_exprs_push(before, total);
        }
        row = row + 1;
        assert(target.take(row as int) =~= target.take(row - 1).push(target[row - 1]));
    }
    assert(target.take(row as int) =~= target);
    u
}

fn number_warnings(warnings: &Vec<String>, number: usize, out: &mut Vec<String>)
    ensures
        text::texts(final(out)@) == text::texts(old(out)@) + Seq::new(
            warnings@.len(),
            |i: int|
                "phase "@ + text::decimal(number as nat) + ": "@ + text::texts(warnings@)[i],
        ),
{
    let ghost added = Seq::new(
        warnings@.len(),
        |i: int| "phase "@ + text::decimal(number as nat) + ": "@ + text::texts(warnings@)[i],
    );
    let ghost start = text::texts(out@);
    assert(start =~= start + added.take(0));
    let mut i: usize = 0;
    while i < warnings.len()
        invariant
            i <= warnings@.len(),
            added == Seq::new(
                warnings@.len(),
                |i: int|
                    "phase "@ + text::decimal(number as nat) + ": "@ + text::texts(warnings@)[i],
            ),
            text::texts(out@) == start + added.take(i as int),
        decreases warnings@.len() - i,
    {
        let ghost before = out@;
        let mut message = text::concat3("phase ", text::number_text(number).as_str(), ": ");
        message.append(warnings[i].as_str());
        out.push(message);
        assert(text::texts(out@) =~= text::texts(before).push(added[i as int]));
        i = i + 1;
        assert(start + added.take(i as int) =~= (start + added.take(i - 1)).push(added[i - 1]));
    }
    assert(added.take(i as int) =~= added);
}

/// Produces the weighted descriptor model of converter phases.
///
/// For two phases, pass weights `D` and `1-D`. Resistive switch models keep phase dimensions
/// identical and make descriptor averaging straightforward. The result describes a
/// steady-state model, so the initial conditions of the phases are dropped.
pub fn average<S: Scalar>(phases: &[WeightedPhase<'_, S>]) -> (r: Result<
    MnaSystem<S>,
    AveragingError,
>)
    requires
        forall|i: int|
            0 <= i < phases@.len() ==> (#[trigger] phases@[i]).system.well_formed(),
    ensures
        match r {
            Ok(system) => averaged(phase_views(phases@)) == Ok::<Descriptor<S>, AveragingError>(
                system@,
            ) && system.well_formed(),
            Err(error) => averaged(phase_views(phases@)) == Err::<Descriptor<S>, AveragingError>(
                error,
            ),
        },
{
    if phases.len() == 0 {
        return Err(AveragingError::NoPhases);
    }
    let ghost views = phase_views(phases@);
    let first = phases[0].system;
    assert(phases@[0].system.well_formed());
    let mut i: usize = 1;
    while i < phases.len()
        invariant
            1 <= i <= phases@.len(),
            views == phase_views(phases@),
            first == phases@[0].system,
            forall|j: int|
                0 <= j < i ==> (#[trigger] phases@[j]).system@.unknowns == first@.unknowns
                    && phases@[j].system@.inputs == first@.inputs,
            first_mismatch(views, i as int) == first_mismatch(views, 1),
        decreases phases@.len() - i,
    {
        assert(views[i as int].0 == phases@[i as int].system@);
        assert(views[0].0 == first@);
        match ensure_compatible(first, phases[i].system) {
            Ok(_) => {},
            Err(error) => {
                return Err(error);
            },
        }
        i = i + 1;
    }
    let order: usize = first.unknowns.len();
    let count: usize = first.inputs.len();
    proof {
        assert forall|j: int| 0 <= j < phases@.len() implies {
            &&& (#[trigger] phases@[j]).system.well_formed()
            &&& phases@[j].system.unknowns@.len() == order
            &&& phases@[j].system.inputs@.len() == count
        } by {
            assert(phases@[j].system@.unknowns.len() == phases@[j].system.unknowns@.len());
            assert(phases@[j].system@.inputs.len() == phases@[j].system.inputs@.len());
            assert(first@.unknowns.len() == order);
            assert(first@.inputs.len() == count);
        }
    }
    let a = weigh(phases, Which::A, order, order);
    let k = weigh(phases, Which::K, order, order);
    let b = weigh(phases, Which::B, order, count);
    let u = weigh_sources(phases, order);

    let mut parameter_defaults: NameMap<Expression<S>> = NameMap::new();
    let mut transient_sources: NameMap<TransientFunction<S>> = NameMap::new();
    let mut warnings: Vec<String> = Vec::new();
    proof {
        assert(expr_map(parameter_defaults) =~= Map::empty());
        assert(wave_map(transient_sources) =~= Map::empty());
        assert(text::texts(warnings@) =~= Seq::empty());
    }
    let mut n: usize = 0;
    while n < phases.len()
        invariant
            n <= phases@.len(),
            views == phase_views(phases@),
            agree(phases@, order as nat, count as nat),
            expr_map(parameter_defaults) == joined_parameters(views, n as nat),
            wave_map(transient_sources) == joined_waves(views, n as nat),
            text::texts(warnings@) == joined_warnings(views, n as nat),
        decreases phases@.len() - n,
    {
        let system = phases[n].system;
        assert(phases@[n as int].system.well_formed());
        assert(views[n as int].0 == system@);
        extend_expressions(&mut parameter_defaults, &system.parameter_defaults);
        extend_waves(&mut transient_sources, &system.transient_sources);
        number_warnings(&system.warnings, n + 1, &mut warnings);
        assert(numbered(system@, (n + 1) as nat) =~= Seq::new(
            system.warnings@.len(),
            |i: int|
                "phase "@ + text::decimal((n + 1) as nat) + ": "@ + text::texts(
                    system.warnings@,
                )[i],
        ));
        n = n + 1;
    }
    let initial_conditions = Vec::new();
    let r = MnaSystem {
        a,
        k,
        b,
        u,
        unknowns: copy_texts(&first.unknowns),
        inputs: copy_texts(&first.inputs),
        input_values: Expression::copy_list(&first.input_values),
        transient_sources,
        initial_conditions,
        parameter_defaults,
        warnings,
    };
    proof {
        assert(views[0].0 == first@);
        assert(initials(r.initial_conditions@) =~= Seq::empty());
        assert(text::texts(r.unknowns@).len() == r.unknowns@.len());
        assert(text::texts(r.inputs@).len() == r.inputs@.len());
        assert(first@.unknowns.len() == order);
        assert(first@.inputs.len() == count);
        assert(exprs(r.u@).len() == r.u@.len());
        assert(exprs(r.input_values@).len() == r.input_values@.len());
        assert(exprs(first.input_values@).len() == first.input_values@.len());
        assert(r@ =~= average_of(views));
    }
    Ok(r)
}

/// One entry of a vector after the differences of the first `n` columns of two matrix rows,
/// times a vector, have been added to it.
pub open spec fn plus_difference<S: Scalar>(
    start: Expr<S>,
    on: Seq<Expr<S>>,
    off: Seq<Expr<S>>,
    point: Seq<Expr<S>>,
    n: nat,
) -> Expr<S>
    decreases n,
{
    if n == 0 {
        start
    } else {
        expr::sum(
            plus_difference(start, on, off, point, (n - 1) as nat),
            expr::product(expr::difference(on[n - 1], off[n - 1]), point[n - 1]),
        )
    }
}

/// One entry of a vector after the differences of the first `n` columns of two matrix rows,
/// times a vector, have been subtracted from it.
pub open spec fn minus_difference<S: Scalar>(
    start: Expr<S>,
    on: Seq<Expr<S>>,
    off: Seq<Expr<S>>,
    point: Seq<Expr<S>>,
    n: nat,
) -> Expr<S>
    decreases n,
{
    if n == 0 {
        start
    } else {
        expr::difference(
            minus_difference(start, on, off, point, (n - 1) as nat),
            expr::product(expr::difference(on[n - 1], off[n - 1]), point[n - 1]),
        )
    }
}

/// The duty-perturbation column `(B_on - B_off)*U - (A_on - A_off)*X`.
pub open spec fn duty_column<S: Scalar>(
    on: Descriptor<S>,
    off: Descriptor<S>,
    state: Seq<Expr<S>>,
    input: Seq<Expr<S>>,
) -> Seq<Expr<S>> {
    Seq::new(
        on.unknowns.len(),
        |row: int|
            minus_difference(
                plus_difference(expr::zero(), on.b[row], off.b[row], input, input.len()),
                on.a[row],
                off.a[row],
                state,
                state.len(),
            ),
    )
}

fn input_part<S: Scalar>(
    on: &MnaSystem<S>,
    off: &MnaSystem<S>,
    row: usize,
    input_operating_point: &[Expression<S>],
) -> (r: Expression<S>)
    requires
        on.well_formed(),
        off.well_formed(),
        row < on.unknowns@.len() == off.unknowns@.len(),
        on.inputs@.len() == off.inputs@.len() == input_operating_point@.len(),
    ensures
        r@ == plus_difference(
            expr::zero(),
            on@.b[row as int],
            off@.b[row as int],
            exprs(input_operating_point@),
            input_operating_point@.len(),
        ),
{
    let ghost b_on = on@.b[row as int];
    let ghost b_off = off@.b[row as int];
    let ghost input = exprs(input_operating_point@);
    let mut total: Expression<S> = Expression::zero();
    let mut col: usize = 0;
    while col < input_operating_point.len()
        invariant
            col <= input_operating_point@.len(),
            row < on.unknowns@.len() == off.unknowns@.len(),
            on.well_formed(),
            off.well_formed(),
            on.inputs@.len() == off.inputs@.len() == input_operating_point@.len(),
            input == exprs(input_operating_point@),
            b_on == on@.b[row as int],
            b_off == off@.b[row as int],
            total@ == plus_difference(expr::zero(), b_on, b_off, input, col as nat),
        decreases input_operating_point@.len() - col,
    {
        assert(b_on[col as int] == on.b@[row as int][col as int]@);
        assert(b_off[col as int] == off.b@[row as int][col as int]@);
        assert(input[col as int] == input_operating_point@[col as int]@);
        let difference = on.b.at(row, col).copy().plus(off.b.at(row, col).copy().negated());
        total = total.plus(difference.times(input_operating_point[col].copy()));
        col = col + 1;
    }
    total
}

fn state_part<S: Scalar>(
    start: Expression<S>,
    on: &MnaSystem<S>,
    off: &MnaSystem<S>,
    row: usize,
    state_operating_point: &[Expression<S>],
) -> (r: Expression<S>)
    requires
        on.well_formed(),
        off.well_formed(),
        row < on.unknowns@.len() == off.unknowns@.len() == state_operating_point@.len(),
    ensures
        r@ == minus_difference(
            start@,
            on@.a[row as int],
            off@.a[row as int],
            exprs(state_operating_point@),
            state_operating_point@.len(),
        ),
{
    let ghost a_on = on@.a[row as int];
    let ghost a_off = off@.a[row as int];
    let ghost state = exprs(state_operating_point@);
    let ghost first = start@;
    let mut total = start;
    let mut col: usize = 0;
    while col < state_operating_point.len()
        invariant
            col <= state_operating_point@.len(),
            row < on.unknowns@.len() == off.unknowns@.len() == state_operating_point@.len(),
            on.well_formed(),
            off.well_formed(),
            state == exprs(state_operating_point@),
            a_on == on@.a[row as int],
            a_off == off@.a[row as int],
            total@ == minus_difference(first, a_on, a_off, state, col as nat),
        decreases state_operating_point@.len() - col,
    {
        assert(a_on[col as int] == on.a@[row as int][col as int]@);
        assert(a_off[col as int] == off.a@[row as int][col as int]@);
        assert(state[col as int] == state_operating_point@[col as int]@);
        let difference = on.a.at(row, col).copy().plus(off.a.at(row, col).copy().negated());
        total = total.plus(difference.times(state_operating_point[col].copy()).negated());
        col = col + 1;
    }
    total
}

/// Computes the steady-state duty-perturbation column for two phases.
///
/// For `A*x + K*dot(x) = B*u`, linearizing the two-phase weighted model at `dot(X)=0` gives
/// the additional right-hand-side column
///
/// ```text
/// ((B_on-B_off) U - (A_on-A_off) X) * d
/// ```
///
/// `state_operating_point` is the full MNA operating-point vector, and
/// `input_operating_point` follows the systems' input order.
pub fn small_signal_duty_input<S: Scalar>(
    on: &MnaSystem<S>,
    off: &MnaSystem<S>,
    state_operating_point: &[Expression<S>],
    input_operating_point: &[Expression<S>],
) -> (r: Result<Vec<Expression<S>>, AveragingError>)
    requires
        on.well_formed(),
        off.well_formed(),
    ensures
        match r {
            Ok(column) => {
                &&& mismatch(on@, off@) is None
                &&& state_operating_point@.len() == on.unknowns@.len()
                &&& input_operating_point@.len() == on.inputs@.len()
                &&& exprs(column@) == duty_column(
                    on@,
                    off@,
                    exprs(state_operating_point@),
                    exprs(input_operating_point@),
                )
            },
            Err(error) => match mismatch(on@, off@) {
                Some(reason) => error == reason,
                None => if state_operating_point@.len() != on.unknowns@.len() {
                    error matches AveragingError::OperatingPointSize { expected, actual, kind }
                        && expected == on.unknowns@.len() && actual == state_operating_point@.len()
                        && kind@ == "state"@
                } else {
                    &&& input_operating_point@.len() != on.inputs@.len()
                    &&& error matches AveragingError::OperatingPointSize { expected, actual, kind }
                        && expected == on.inputs@.len() && actual == input_operating_point@.len()
                        && kind@ == "input"@
                },
            },
        },
{
    match ensure_compatible(on, off) {
        Ok(_) => {},
        Err(error) => {
            return Err(error);
        },
    }
    if state_operating_point.len() != on.unknowns.len() {
        return Err(
            AveragingError::OperatingPointSize {
                expected: on.unknowns.len(),
                actual: state_operating_point.len(),
                kind: "state",
            },
        );
    }
    if input_operating_point.len() != on.inputs.len() {
        return Err(
            AveragingError::OperatingPointSize {
                expected: on.inputs.len(),
                actual: input_operating_point.len(),
                kind: "input",
            },
        );
    }
    proof {
        assert(on@.unknowns.len() == on.unknowns@.len());
        assert(off@.unknowns.len() == off.unknowns@.len());
        assert(on@.inputs.len() == on.inputs@.len());
        assert(off@.inputs.len() == off.inputs@.len());
    }
    let ghost state = exprs(state_operating_point@);
    let ghost input = exprs(input_operating_point@);
    let ghost target = duty_column(on@, off@, state, input);
    let order: usize = on.unknowns.len();
    let mut column: Vec<Expression<S>> = Vec::new();
    let mut row: usize = 0;
    while row < order
        invariant
            row <= order,
            order == on.unknowns@.len() == off.unknowns@.len() == on@.unknowns.len(),
            on.well_formed(),
            off.well_formed(),
            on.inputs@.len() == off.inputs@.len() == input_operating_point@.len(),
            state_operating_point@.len() == order,
            state == exprs(state_operating_point@),
            input == exprs(input_operating_point@),
            target == duty_column(on@, off@, state, input),
            exprs(column@) == target.take(row as int),
        decreases order - row,
    {
        let driven = input_part(on, off, row, input_operating_point);
        let total = state_part(driven, on, off, row, state_operating_point);
        let ghost before = column@;
        column.push(total);
        proof {
            lemma_exprs_push(before, total);
        }
        row = row + 1;
        assert(target.take(row as int) =~= target.take(row - 1).push(target[row - 1]));
    }
    assert(target.take(row as int) =~= target);
    Ok(column)
}

} // verus!
