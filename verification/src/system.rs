//! The symbolic descriptor system `A*x + K*dot(x) = B*u` of a circuit.

use crate::expr;
use crate::expr::Expr;
use crate::expression::{exprs, Expression};
use crate::matrix::Matrix;
use crate::name_map::NameMap;
use crate::scalar::Scalar;
use crate::symbolic::copy_matrix;
use crate::text;
use crate::text::copy_texts;
use crate::transient_source::{TransientFunction, Wave};
use vstd::prelude::*;

verus! {

/// One `ic=` or `.IC` initial condition, already resolved against the system's own unknown
/// ordering.
///
/// - A capacitor's `ic` is the voltage of its **first** node minus its **second**:
///   `C1 b 0 1e-6 ic=5` means `V(b) - V(0) = 5 V` at `t = 0`.
/// - An inductor's `ic` is the current flowing **from its first node to its second node,
///   through the inductor**: `L1 a b 5e-6 ic=12` means 12 A enter the inductor at `a` and
///   leave it at `b` at `t = 0`, which is the sign of the system's own `I(L1)` unknown.
/// - `.IC V(a)=5` and `.IC V(a,b)=5` are voltages of the first node minus the second, which is
///   ground where there is none, and `.IC I(L1)=12` is the current of an inductor.
#[derive(Debug, PartialEq)]
pub enum InitialCondition<S> {
    /// `ic=` on a `C` card: the voltage across the capacitor at `t = 0`. Also `.IC V(...)=`:
    /// the voltage of a node, or between two.
    CapacitorVoltage {
        /// The capacitor's element name, or the assignment such as `.IC V(a)`, for diagnostics.
        element: String,
        /// Index into `unknowns` of the first node's voltage, `None` when it is ground.
        positive: Option<usize>,
        /// Index into `unknowns` of the second node's voltage, `None` when it is ground.
        negative: Option<usize>,
        /// The declared value, in volts.
        value: Expression<S>,
    },
    /// `ic=` on an `L` card, or `.IC I(...)=`: the current through the inductor at `t = 0`.
    InductorCurrent {
        /// The inductor's element name, or the assignment such as `.IC I(L1)`, for diagnostics.
        element: String,
        /// Index into `unknowns` of this inductor's own branch-current unknown.
        branch: usize,
        /// The declared value, in amperes, first node to second node.
        value: Expression<S>,
    },
}

/// The mathematical form of an initial condition.
#[verifier::ext_equal]
pub enum Initial<S> {
    Voltage { element: Seq<char>, positive: Option<usize>, negative: Option<usize>, value: Expr<S> },
    Current { element: Seq<char>, branch: usize, value: Expr<S> },
}

impl<S: Scalar> View for InitialCondition<S> {
    type V = Initial<S>;

    open spec fn view(&self) -> Initial<S> {
        match self {
            InitialCondition::CapacitorVoltage { element, positive, negative, value } => {
                Initial::Voltage {
                    element: element@,
                    positive: *positive,
                    negative: *negative,
                    value: value@,
                }
            },
            InitialCondition::InductorCurrent { element, branch, value } => Initial::Current {
                element: element@,
                branch: *branch,
                value: value@,
            },
        }
    }
}

/// The mathematical forms of a list of initial conditions.
pub open spec fn initials<S: Scalar>(list: Seq<InitialCondition<S>>) -> Seq<Initial<S>> {
    Seq::new(list.len(), |i: int| list[i]@)
}

/// The element an initial condition was declared on.
pub open spec fn initial_element<S: Scalar>(initial: Initial<S>) -> Seq<char> {
    match initial {
        Initial::Voltage { element, .. } => element,
        Initial::Current { element, .. } => element,
    }
}

/// The declared value of an initial condition.
pub open spec fn initial_value<S: Scalar>(initial: Initial<S>) -> Expr<S> {
    match initial {
        Initial::Voltage { value, .. } => value,
        Initial::Current { value, .. } => value,
    }
}

/// The unknowns an initial condition refers to exist.
pub open spec fn initial_within<S: Scalar>(initial: Initial<S>, order: nat) -> bool {
    match initial {
        Initial::Voltage { positive, negative, .. } => {
            &&& positive is Some ==> positive->0 < order
            &&& negative is Some ==> negative->0 < order
        },
        Initial::Current { branch, .. } => branch < order,
    }
}

impl<S: Scalar> InitialCondition<S> {
    /// The element the condition was declared on.
    pub fn element(&self) -> (r: &str)
        ensures
            r@ == initial_element(self@),
    {
        match self {
            InitialCondition::CapacitorVoltage { element, .. } => element.as_str(),
            InitialCondition::InductorCurrent { element, .. } => element.as_str(),
        }
    }

    /// The declared value, still symbolic.
    pub fn value(&self) -> (r: &Expression<S>)
        ensures
            r@ == initial_value(self@),
    {
        match self {
            InitialCondition::CapacitorVoltage { value, .. } => value,
            InitialCondition::InductorCurrent { value, .. } => value,
        }
    }
}

/// The mathematical form of a matrix of expressions: its rows.
pub open spec fn grid<S: Scalar>(m: Matrix<Expression<S>>) -> Seq<Seq<Expr<S>>> {
    Seq::new(
        m.row_count(),
        |row: int| Seq::new(m.col_count(), |col: int| m@[row][col]@),
    )
}

/// The mathematical form of a map from names to expressions.
pub open spec fn expr_map<S: Scalar>(m: NameMap<Expression<S>>) -> Map<Seq<char>, Expr<S>> {
    m@.map_values(|e: Expression<S>| e@)
}

/// The mathematical form of a map from names to transient functions.
pub open spec fn wave_map<S: Scalar>(m: NameMap<TransientFunction<S>>) -> Map<
    Seq<char>,
    Wave<S>,
> {
    m@.map_values(|f: TransientFunction<S>| f@)
}

/// A symbolic MNA descriptor system.
#[derive(Debug, PartialEq)]
pub struct MnaSystem<S> {
    /// Memoryless matrix in `A*x + K*dot(x) = B*u`.
    pub a: Matrix<Expression<S>>,
    /// Storage matrix in `A*x + K*dot(x) = B*u`.
    pub k: Matrix<Expression<S>>,
    /// Independent-source incidence matrix.
    pub b: Matrix<Expression<S>>,
    /// Expanded right-hand-side vector using the source values from the netlist.
    pub u: Vec<Expression<S>>,
    /// MNA unknown names in matrix order.
    pub unknowns: Vec<String>,
    /// Independent source names in `B` column order.
    pub inputs: Vec<String>,
    /// Source values in `inputs` order.
    pub input_values: Vec<Expression<S>>,
    /// Every source declared with a transient function, by name. Such a source's own
    /// `input_values` entry is the symbol of its name, so a caller supplies its value at the
    /// current time before every evaluation.
    pub transient_sources: NameMap<TransientFunction<S>>,
    /// Every `ic=` initial condition declared on a storage element, in netlist order, followed
    /// by every `.IC V(node)=`, `.IC V(n1,n2)=` and `.IC I(inductor)=` assignment, in netlist
    /// order. They are statements about `x` at one instant, and take no part in the equations.
    /// An `.IC` assignment to anything else is ignored with a warning.
    pub initial_conditions: Vec<InitialCondition<S>>,
    /// Defaults collected from `.param` statements.
    pub parameter_defaults: NameMap<Expression<S>>,
    /// Non-fatal build messages, primarily for deliberately ignored elements.
    pub warnings: Vec<String>,
}

/// The mathematical form of a descriptor system.
#[verifier::ext_equal]
pub struct Descriptor<S> {
    pub a: Seq<Seq<Expr<S>>>,
    pub k: Seq<Seq<Expr<S>>>,
    pub b: Seq<Seq<Expr<S>>>,
    pub u: Seq<Expr<S>>,
    pub unknowns: Seq<Seq<char>>,
    pub inputs: Seq<Seq<char>>,
    pub input_values: Seq<Expr<S>>,
    pub transients: Map<Seq<char>, Wave<S>>,
    pub initial: Seq<Initial<S>>,
    pub parameters: Map<Seq<char>, Expr<S>>,
    pub warnings: Seq<Seq<char>>,
}

impl<S: Scalar> View for MnaSystem<S> {
    type V = Descriptor<S>;

    open spec fn view(&self) -> Descriptor<S> {
        Descriptor {
            a: grid(self.a),
            k: grid(self.k),
            b: grid(self.b),
            u: exprs(self.u@),
            unknowns: text::texts(self.unknowns@),
            inputs: text::texts(self.inputs@),
            input_values: exprs(self.input_values@),
            transients: wave_map(self.transient_sources),
            initial: initials(self.initial_conditions@),
            parameters: expr_map(self.parameter_defaults),
            warnings: text::texts(self.warnings@),
        }
    }
}

/// The texts of a list of expressions.
pub open spec fn shown_all<S: Scalar>(list: Seq<Expression<S>>) -> Seq<Seq<char>> {
    Seq::new(list.len(), |i: int| expr::shown(list[i]@, 0))
}

fn texts_of<S: Scalar>(list: &[Expression<S>]) -> (r: Vec<String>)
    ensures
        text::texts(r@) == shown_all(list@),
        r@.len() == list@.len(),
        forall|i: int| 0 <= i < r@.len() ==> (#[trigger] r@[i])@ == expr::shown(list@[i]@, 0),
{
    let mut out: Vec<String> = Vec::new();
    let mut i: usize = 0;
    while i < list.len()
        invariant
            i <= list@.len(),
            out@.len() == i,
            forall|j: int| 0 <= j < i ==> (#[trigger] out@[j])@ == expr::shown(list@[j]@, 0),
        decreases list@.len() - i,
    {
        out.push(list[i].to_text());
        i = i + 1;
    }
    assert(text::texts(out@) =~= shown_all(list@));
    out
}

impl<S: Scalar> MnaSystem<S> {
    /// The matrices and vectors have the sizes that the unknowns and inputs ask for.
    pub open spec fn well_formed(&self) -> bool {
        let order = self.unknowns@.len();
        &&& self.a.row_count() == order
        &&& self.a.col_count() == order
        &&& self.k.row_count() == order
        &&& self.k.col_count() == order
        &&& self.b.row_count() == order
        &&& self.b.col_count() == self.inputs@.len()
        &&& self.u@.len() == order
        &&& self.input_values@.len() == self.inputs@.len()
        &&& forall|i: int|
            0 <= i < self.initial_conditions@.len() ==> initial_within(
                #[trigger] self.initial_conditions@[i]@,
                order,
            )
    }

    /// Number of MNA unknowns.
    pub fn order(&self) -> (r: usize)
        ensures
            r == self.unknowns@.len(),
    {
        self.unknowns.len()
    }

    /// Converts the system into strings suitable for a thin Python or WASM DTO.
    pub fn to_string_system(&self) -> (r: StringMnaSystem)
        ensures
            r.rows == self.unknowns@.len(),
            r.inputs_count == self.inputs@.len(),
            text::texts(r.a@) == shown_all(self.a.values()),
            text::texts(r.k@) == shown_all(self.k.values()),
            text::texts(r.b@) == shown_all(self.b.values()),
            text::texts(r.u@) == shown_all(self.u@),
            text::texts(r.unknowns@) == self@.unknowns,
            text::texts(r.inputs@) == self@.inputs,
            text::texts(r.input_values@) == shown_all(self.input_values@),
            r.parameter_defaults@.dom() == self.parameter_defaults@.dom(),
            forall|name: Seq<char>| #[trigger]
                r.parameter_defaults@.contains_key(name) ==> r.parameter_defaults@[name]@
                    == expr::shown(self.parameter_defaults@[name]@, 0),
            text::texts(r.warnings@) == self@.warnings,
            r.a@.len() == self.a.values().len(),
            forall|i: int|
                0 <= i < r.a@.len() ==> (#[trigger] r.a@[i])@ == expr::shown(
                    self.a.values()[i]@,
                    0,
                ),
            r.k@.len() == self.k.values().len(),
            forall|i: int|
                0 <= i < r.k@.len() ==> (#[trigger] r.k@[i])@ == expr::shown(
                    self.k.values()[i]@,
                    0,
                ),
            r.b@.len() == self.b.values().len(),
            forall|i: int|
                0 <= i < r.b@.len() ==> (#[trigger] r.b@[i])@ == expr::shown(
                    self.b.values()[i]@,
                    0,
                ),
            r.u@.len() == self.u@.len(),
            forall|i: int|
                0 <= i < r.u@.len() ==> (#[trigger] r.u@[i])@ == expr::shown(
                    self.u@[i]@,
                    0,
                ),
            r.input_values@.len() == self.input_values@.len(),
            forall|i: int|
                0 <= i < r.input_values@.len() ==> (#[trigger] r.input_values@[i])@ == expr::shown(
                    self.input_values@[i]@,
                    0,
                ),
            r.unknowns@.len() == self.unknowns@.len(),
            forall|i: int|
                0 <= i < r.unknowns@.len() ==> (#[trigger] r.unknowns@[i])@ == self.unknowns@[i]@,
            r.inputs@.len() == self.inputs@.len(),
            forall|i: int|
                0 <= i < r.inputs@.len() ==> (#[trigger] r.inputs@[i])@ == self.inputs@[i]@,
            r.warnings@.len() == self.warnings@.len(),
            forall|i: int|
                0 <= i < r.warnings@.len() ==> (#[trigger] r.warnings@[i])@ == self.warnings@[i]@,
    {
        let mut defaults: NameMap<String> = NameMap::new();
        let mut i: usize = 0;
        while i < self.parameter_defaults.len()
            invariant
                i <= self.parameter_defaults.names().len(),
                forall|name: Seq<char>| #[trigger]
                    defaults@.contains_key(name) <==> self.parameter_defaults.names().take(
                        i as int,
                    ).contains(name),
                forall|name: Seq<char>| #[trigger]
                    defaults@.contains_key(name) ==> self.parameter_defaults@.contains_key(name)
                        && defaults@[name]@ == expr::shown(self.parameter_defaults@[name]@, 0),
            decreases self.parameter_defaults.names().len() - i,
        {
            let ghost names = self.parameter_defaults.names();
            let ghost before = defaults@;
            let name = self.parameter_defaults.name_at(i);
            let shown = self.parameter_defaults.value_at(i).to_text();
            defaults.insert(text::copy(name), shown);
            proof {
                assert(names.take(i + 1) =~= names.take(i as int).push(names[i as int]));
                assert forall|n: Seq<char>| #[trigger]
                    defaults@.contains_key(n) <==> names.take(i + 1).contains(n) by {
                    lemma_push_contains(names.take(i as int), names[i as int], n);
                }
            }
            i = i + 1;
        }
        proof {
            let names = self.parameter_defaults.names();
            assert(names.take(i as int) =~= names);
            self.parameter_defaults.lemma_names();
            assert forall|n: Seq<char>|
                defaults@.dom().contains(n) <==> self.parameter_defaults@.dom().contains(n) by {
                assert(defaults@.contains_key(n) <==> names.take(i as int).contains(n));
                assert(self.parameter_defaults@.contains_key(n) <==> names.contains(n));
            }
            assert(defaults@.dom() =~= self.parameter_defaults@.dom());
        }
        StringMnaSystem {
            rows: self.unknowns.len(),
            inputs_count: self.inputs.len(),
            a: texts_of(self.a.as_slice()),
            k: texts_of(self.k.as_slice()),
            b: texts_of(self.b.as_slice()),
            u: texts_of(self.u.as_slice()),
            unknowns: copy_texts(&self.unknowns),
            inputs: copy_texts(&self.inputs),
            input_values: texts_of(self.input_values.as_slice()),
            parameter_defaults: defaults,
            warnings: copy_texts(&self.warnings),
        }
    }
}

/// One more item at the end of a list.
pub proof fn lemma_push_contains<T>(list: Seq<T>, item: T, x: T)
    ensures
        list.push(item).contains(x) <==> list.contains(x) || x == item,
{
    if list.contains(x) {
        let i = choose|i: int| 0 <= i < list.len() && list[i] == x;
        assert(list.push(item)[i] == x);
    }
    if x == item {
        assert(list.push(item)[list.len() as int] == x);
    }
    if list.push(item).contains(x) && x != item {
        let i = choose|i: int| 0 <= i < list.push(item).len() && list.push(item)[i] == x;
        assert(list[i] == x);
    }
}

/// Serialization-neutral string representation for language bindings.
#[derive(Debug, Clone, PartialEq)]
pub struct StringMnaSystem {
    /// Number of rows and columns in `a` and `k`.
    pub rows: usize,
    /// Number of columns in `b`.
    pub inputs_count: usize,
    /// Row-major memoryless matrix.
    pub a: Vec<String>,
    /// Row-major storage matrix.
    pub k: Vec<String>,
    /// Row-major input-incidence matrix.
    pub b: Vec<String>,
    /// Expanded source vector.
    pub u: Vec<String>,
    /// Unknown names.
    pub unknowns: Vec<String>,
    /// Input names.
    pub inputs: Vec<String>,
    /// Netlist source values.
    pub input_values: Vec<String>,
    /// Netlist parameter defaults.
    pub parameter_defaults: NameMap<String>,
    /// Build warnings.
    pub warnings: Vec<String>,
}

/// The rows of a matrix whose entries are listed row by row.
pub open spec fn rows_of_list(values: Seq<Seq<char>>, rows: nat, cols: nat) -> Seq<
    Seq<Seq<char>>,
> {
    Seq::new(rows, |i: int| Seq::new(cols, |j: int| values[i * cols + j]))
}

/// What a list of rows of texts is seen as.
pub open spec fn text_rows(rows: Seq<Vec<String>>) -> Seq<Seq<Seq<char>>> {
    Seq::new(rows.len(), |i: int| text::texts(rows[i]@))
}

/// Splits a list of entries into rows.
pub fn string_rows(values: &Vec<String>, rows: usize, cols: usize) -> (r: Vec<Vec<String>>)
    requires
        values@.len() == rows * cols,
    ensures
        text_rows(r@) == rows_of_list(text::texts(values@), rows as nat, cols as nat),
        r@.len() == rows,
        forall|i: int, j: int|
            0 <= i < rows && 0 <= j < cols ==> r@[i]@.len() == cols && (#[trigger] r@[i]@[j])@
                == values@[i * cols + j]@,
{
    let ghost all = rows_of_list(text::texts(values@), rows as nat, cols as nat);
    let mut out: Vec<Vec<String>> = Vec::new();
    let mut next: usize = 0;
    let mut i: usize = 0;
    assert(values.len() == values@.len());
    while i < rows
        invariant
            i <= rows,
            values@.len() == rows * cols,
            values@.len() <= usize::MAX,
            next == i * cols,
            all == rows_of_list(text::texts(values@), rows as nat, cols as nat),
            out@.len() == i,
            forall|k: int| 0 <= k < i ==> text::texts((#[trigger] out@[k])@) == all[k],
            forall|k: int, j: int|
                0 <= k < i && 0 <= j < cols ==> out@[k]@.len() == cols && (#[trigger] out@[k]@[j])@
                    == values@[k * cols + j]@,
        decreases rows - i,
    {
        let mut row: Vec<String> = Vec::new();
        let mut j: usize = 0;
        proof {
            assert((i + 1) * cols <= rows * cols) by (nonlinear_arith)
                requires
                    i < rows,
            ;
            assert((i + 1) * cols == i * cols + cols) by (nonlinear_arith);
        }
        while j < cols
            invariant
                i < rows,
                j <= cols,
                next == i * cols + j,
                i * cols + cols <= values@.len() <= usize::MAX,
                row@.len() == j,
                forall|k: int| 0 <= k < j ==> (#[trigger] row@[k])@ == values@[i * cols + k]@,
            decreases cols - j,
        {
            row.push(text::copy(values[next].as_str()));
            next = next + 1;
            j = j + 1;
        }
        assert(text::texts(row@) =~= all[i as int]);
        out.push(row);
        i = i + 1;
    }
    assert(text_rows(out@) =~= all);
    out
}

/// Puts the entries of one map of expressions into another, over those it had.
pub fn extend_expressions<S: Scalar>(
    into: &mut NameMap<Expression<S>>,
    from: &NameMap<Expression<S>>,
)
    ensures
        expr_map(*final(into)) == expr_map(*old(into)).union_prefer_right(expr_map(*from)),
{
    let ghost names = from.names();
    let ghost start = expr_map(*into);
    let ghost more = expr_map(*from);
    let mut i: usize = 0;
    while i < from.len()
        invariant
            i <= names.len(),
            names == from.names(),
            more == expr_map(*from),
            forall|n: Seq<char>| #[trigger]
                expr_map(*into).contains_key(n) <==> start.contains_key(n) || names.take(
                    i as int,
                ).contains(n),
            forall|n: Seq<char>| #[trigger]
                expr_map(*into).contains_key(n) ==> expr_map(*into)[n] == (if names.take(
                    i as int,
                ).contains(n) {
                    more[n]
                } else {
                    start[n]
                }),
        decreases names.len() - i,
    {
        let ghost before = *into;
        let name = from.name_at(i);
        let value = from.value_at(i).copy();
        into.insert(text::copy(name), value);
        proof {
            assert(names.take(i + 1) =~= names.take(i as int).push(names[i as int]));
            assert(expr_map(*into) =~= expr_map(before).insert(name@, value@));
            assert(more[name@] == value@);
            assert forall|n: Seq<char>| #[trigger]
                expr_map(*into).contains_key(n) <==> start.contains_key(n) || names.take(
                    i + 1,
                ).contains(n) by {
                lemma_push_contains(names.take(i as int), names[i as int], n);
                assert(expr_map(before).contains_key(n) <==> start.contains_key(n) || names.take(
                    i as int,
                ).contains(n));
            }
            assert forall|n: Seq<char>| #[trigger]
                expr_map(*into).contains_key(n) implies expr_map(*into)[n] == (if names.take(
                i + 1,
            ).contains(n) {
                more[n]
            } else {
                start[n]
            }) by {
                lemma_push_contains(names.take(i as int), names[i as int], n);
                if n != name@ {
                    assert(expr_map(before).contains_key(n));
                    assert(expr_map(*into)[n] == expr_map(before)[n]);
                }
            }
        }
        i = i + 1;
    }
    proof {
        assert(names.take(i as int) =~= names);
        from.lemma_names();
        assert(expr_map(*into) =~= start.union_prefer_right(more));
    }
}

/// Puts the entries of one map of transient functions into another, over those it had.
pub fn extend_waves<S: Scalar>(
    into: &mut NameMap<TransientFunction<S>>,
    from: &NameMap<TransientFunction<S>>,
)
    ensures
        wave_map(*final(into)) == wave_map(*old(into)).union_prefer_right(wave_map(*from)),
{
    let ghost names = from.names();
    let ghost start = wave_map(*into);
    let ghost more = wave_map(*from);
    let mut i: usize = 0;
    while i < from.len()
        invariant
            i <= names.len(),
            names == from.names(),
            more == wave_map(*from),
            forall|n: Seq<char>| #[trigger]
                wave_map(*into).contains_key(n) <==> start.contains_key(n) || names.take(
                    i as int,
                ).contains(n),
            forall|n: Seq<char>| #[trigger]
                wave_map(*into).contains_key(n) ==> wave_map(*into)[n] == (if names.take(
                    i as int,
                ).contains(n) {
                    more[n]
                } else {
                    start[n]
                }),
        decreases names.len() - i,
    {
        let ghost before = *into;
        let name = from.name_at(i);
        let value = from.value_at(i).copy();
        into.insert(text::copy(name), value);
        proof {
            assert(names.take(i + 1) =~= names.take(i as int).push(names[i as int]));
            assert(wave_map(*into) =~= wave_map(before).insert(name@, value@));
            assert(more[name@] == value@);
            assert forall|n: Seq<char>| #[trigger]
                wave_map(*into).contains_key(n) <==> start.contains_key(n) || names.take(
                    i + 1,
                ).contains(n) by {
                lemma_push_contains(names.take(i as int), names[i as int], n);
                assert(wave_map(before).contains_key(n) <==> start.contains_key(n) || names.take(
                    i as int,
                ).contains(n));
            }
            assert forall|n: Seq<char>| #[trigger]
                wave_map(*into).contains_key(n) implies wave_map(*into)[n] == (if names.take(
                i + 1,
            ).contains(n) {
                more[n]
            } else {
                start[n]
            }) by {
                lemma_push_contains(names.take(i as int), names[i as int], n);
                if n != name@ {
                    assert(wave_map(before).contains_key(n));
                    assert(wave_map(*into)[n] == wave_map(before)[n]);
                }
            }
        }
        i = i + 1;
    }
    proof {
        assert(names.take(i as int) =~= names);
        from.lemma_names();
        assert(wave_map(*into) =~= start.union_prefer_right(more));
    }
}

impl<S: Scalar> Clone for InitialCondition<S> {
    fn clone(&self) -> (r: Self)
        ensures
            r@ == self@,
    {
        match self {
            InitialCondition::CapacitorVoltage { element, positive, negative, value } => {
                InitialCondition::CapacitorVoltage {
                    element: element.clone(),
                    positive: *positive,
                    negative: *negative,
                    value: value.copy(),
                }
            },
            InitialCondition::InductorCurrent { element, branch, value } => {
                InitialCondition::InductorCurrent {
                    element: element.clone(),
                    branch: *branch,
                    value: value.copy(),
                }
            },
        }
    }
}

fn copy_conditions<S: Scalar>(list: &Vec<InitialCondition<S>>) -> (r: Vec<InitialCondition<S>>)
    ensures
        initials(r@) == initials(list@),
{
    let mut out: Vec<InitialCondition<S>> = Vec::new();
    let mut i: usize = 0;
    while i < list.len()
        invariant
            i <= list@.len(),
            out@.len() == i,
            forall|j: int| 0 <= j < i ==> (#[trigger] out@[j])@ == list@[j]@,
        decreases list@.len() - i,
    {
        out.push(list[i].clone());
        i = i + 1;
    }
    assert(initials(out@) =~= initials(list@));
    out
}

impl<S: Scalar> Clone for MnaSystem<S> {
    fn clone(&self) -> (r: Self)
        ensures
            r@ == self@,
            self.well_formed() ==> r.well_formed(),
    {
        let mut parameter_defaults: NameMap<Expression<S>> = NameMap::new();
        let mut transient_sources: NameMap<TransientFunction<S>> = NameMap::new();
        proof {
            assert(expr_map(parameter_defaults) =~= Map::empty());
            assert(wave_map(transient_sources) =~= Map::empty());
        }
        extend_expressions(&mut parameter_defaults, &self.parameter_defaults);
        extend_waves(&mut transient_sources, &self.transient_sources);
        let r = MnaSystem {
            a: copy_matrix(&self.a),
            k: copy_matrix(&self.k),
            b: copy_matrix(&self.b),
            u: Expression::copy_list(&self.u),
            unknowns: copy_texts(&self.unknowns),
            inputs: copy_texts(&self.inputs),
            input_values: Expression::copy_list(&self.input_values),
            transient_sources,
            initial_conditions: copy_conditions(&self.initial_conditions),
            parameter_defaults,
            warnings: copy_texts(&self.warnings),
        };
        proof {
            assert(Map::<Seq<char>, Expr<S>>::empty().union_prefer_right(self@.parameters)
                =~= self@.parameters);
            assert(Map::<Seq<char>, Wave<S>>::empty().union_prefer_right(self@.transients)
                =~= self@.transients);
            assert(r@ =~= self@);
            assert(r@.unknowns.len() == r.unknowns@.len());
            assert(self@.unknowns.len() == self.unknowns@.len());
            assert(r@.inputs.len() == r.inputs@.len());
            assert(self@.inputs.len() == self.inputs@.len());
            assert(r@.u.len() == r.u@.len());
            assert(self@.u.len() == self.u@.len());
            assert(r@.input_values.len() == r.input_values@.len());
            assert(self@.input_values.len() == self.input_values@.len());
            assert(r@.initial.len() == r.initial_conditions@.len());
            assert(self@.initial.len() == self.initial_conditions@.len());
            if self.well_formed() {
                assert forall|i: int| 0 <= i < r.initial_conditions@.len() implies initial_within(
                    #[trigger] r.initial_conditions@[i]@,
                    r.unknowns@.len(),
                ) by {
                    assert(r@.initial[i] == self@.initial[i]);
                    assert(initial_within(self.initial_conditions@[i]@, self.unknowns@.len()));
                }
            }
        }
        r
    }
}

} // verus!
