//! The state a transient run starts from, as declared by `ic=` values.

use crate::expr;
use crate::expr::Failure;
use crate::expression::{failure_text, EvaluationError};
use crate::matrix::{of_width, row_seqs, Matrix};
use crate::name_map::NameMap;
use crate::numeric::{
    build_environment, environment, evaluation_failure, lemma_evaluation_rows, numeric_rows,
    numeric_u, solution, solve_rows, NumericMnaSystem,
};
use crate::scalar::Scalar;
use crate::system::{initial_within, initials, Initial, InitialCondition, MnaSystem};
use crate::text;
use vstd::prelude::*;

verus! {

/// Why a netlist's declared `ic=` values do not give a starting state.
#[verifier::ext_equal]
pub enum Obstacle<S> {
    Evaluation(Failure<S>),
    ConflictingConditions { element: Seq<char>, implied: S, declared: S },
    InconsistentWithCircuit { constraint: Seq<char>, residual: S },
    NoUniqueOperatingPoint { constraint: Seq<char> },
}

/// Why a netlist's declared `ic=` values could not be turned into a starting state vector.
#[derive(Debug, Clone, PartialEq)]
pub enum InitialStateError<S> {
    /// A component value, or an `ic=` value itself, could not be evaluated numerically.
    Evaluation(EvaluationError<S>),
    /// Two or more `ic=` values on capacitors contradict each other, independently of the
    /// rest of the circuit: they form a loop whose declared voltages do not sum to zero.
    ConflictingConditions {
        /// The element whose condition closed the contradictory loop.
        element: String,
        /// The voltage the other conditions in the loop already imply across it, in the
        /// orientation the loop was walked in.
        implied: S,
        /// The voltage this element declares, in that same orientation.
        declared: S,
    },
    /// An assignment violates one of the circuit's own algebraic constraints: every unknown
    /// in that constraint is fixed by an `ic=`, and the values they are fixed to do not
    /// satisfy it.
    ///
    /// The two textbook cases: an `ic` on a capacitor wired directly across an ideal voltage
    /// source, whose branch equation already fixes that voltage, and two series inductors
    /// whose `ic` values declare different currents, which the shared node's equation fixes
    /// equal.
    InconsistentWithCircuit {
        /// The unknown whose equation is violated. A node voltage `V(n)` names that node's
        /// equation; a branch current `I(name)` names that device's own branch equation.
        constraint: String,
        /// The constraint's residual at the assigned state.
        residual: S,
    },
    /// The circuit with its declared states held has no unique solution.
    NoUniqueOperatingPoint {
        /// The unknown, or the element with the condition, that has no usable pivot.
        constraint: String,
    },
}

impl<S: Scalar> View for InitialStateError<S> {
    type V = Obstacle<S>;

    open spec fn view(&self) -> Obstacle<S> {
        match self {
            InitialStateError::Evaluation(error) => Obstacle::Evaluation(error@),
            InitialStateError::ConflictingConditions { element, implied, declared } => {
                Obstacle::ConflictingConditions {
                    element: element@,
                    implied: *implied,
                    declared: *declared,
                }
            },
            InitialStateError::InconsistentWithCircuit { constraint, residual } => {
                Obstacle::InconsistentWithCircuit { constraint: constraint@, residual: *residual }
            },
            InitialStateError::NoUniqueOperatingPoint { constraint } => {
                Obstacle::NoUniqueOperatingPoint { constraint: constraint@ }
            },
        }
    }
}

/// The message for an obstacle.
pub open spec fn obstacle_text<S: Scalar>(obstacle: Obstacle<S>) -> Seq<char> {
    match obstacle {
        Obstacle::Evaluation(failure) => "cannot evaluate the ic= initial state: "@ + failure_text(
            failure,
        ),
        Obstacle::ConflictingConditions { element, implied, declared } => {
            "contradictory ic= values: '"@ + element + "' declares "@ + declared.shown()
                + " V across itself, but the other ic= conditions it forms a loop with already imply "@
                + implied.shown() + " V in the same orientation"@
        },
        Obstacle::InconsistentWithCircuit { constraint, residual } => {
            "the declared ic= values do not satisfy the circuit's own equation for "@ + constraint
                + " (residual "@ + residual.shown()
                + "); every unknown in that equation is fixed by an ic=, so nothing is left free to absorb the difference — check for an ic on a capacitor across an ideal voltage source, or series inductors declaring different currents"@
        },
        Obstacle::NoUniqueOperatingPoint { constraint } => {
            "no unique ic= operating point: no usable pivot for "@ + constraint
        },
    }
}

impl<S: Scalar> InitialStateError<S> {
    /// The message for a reader.
    pub fn to_text(&self) -> (r: String)
        ensures
            r@ == obstacle_text(self@),
    {
        match self {
            InitialStateError::Evaluation(error) => text::concat(
                "cannot evaluate the ic= initial state: ",
                error.to_text().as_str(),
            ),
            InitialStateError::ConflictingConditions { element, implied, declared } => {
                let mut s = text::concat5(
                    "contradictory ic= values: '",
                    element.as_str(),
                    "' declares ",
                    declared.text().as_str(),
                    " V across itself, but the other ic= conditions it forms a loop with already imply ",
                );
                s.append(implied.text().as_str());
                s.append(" V in the same orientation");
                s
            },
            InitialStateError::InconsistentWithCircuit { constraint, residual } => text::concat5(
                "the declared ic= values do not satisfy the circuit's own equation for ",
                constraint.as_str(),
                " (residual ",
                residual.text().as_str(),
                "); every unknown in that equation is fixed by an ic=, so nothing is left free to absorb the difference — check for an ic on a capacitor across an ideal voltage source, or series inductors declaring different currents",
            ),
            InitialStateError::NoUniqueOperatingPoint { constraint } => text::concat(
                "no unique ic= operating point: no usable pivot for ",
                constraint.as_str(),
            ),
        }
    }
}

/// An obstacle that evaluation meets.
pub open spec fn unevaluated<S, T>(failure: Failure<S>) -> Result<T, Obstacle<S>> {
    Err(Obstacle::Evaluation(failure))
}

/// A partly assigned state: the values, and which of them are assigned.
#[verifier::ext_equal]
pub struct Assignment<S> {
    pub x: Seq<S>,
    pub assigned: Seq<bool>,
}

/// An assignment with one more value.
pub open spec fn with_value<S>(state: Assignment<S>, index: int, v: S) -> Assignment<S> {
    Assignment { x: state.x.update(index, v), assigned: state.assigned.update(index, true) }
}

/// The assignment after the inductor currents among the conditions from `i` on.
pub open spec fn currents_from<S: Scalar>(
    conditions: Seq<Initial<S>>,
    values: Map<Seq<char>, S>,
    i: int,
    state: Assignment<S>,
) -> Result<Assignment<S>, Obstacle<S>>
    decreases conditions.len() - i,
{
    if i < 0 || i >= conditions.len() {
        Ok(state)
    } else {
        match conditions[i] {
            Initial::Current { branch, value, .. } => match expr::value(value, values) {
                Ok(v) => currents_from(
                    conditions,
                    values,
                    i + 1,
                    with_value(state, branch as int, v),
                ),
                Err(failure) => unevaluated(failure),
            },
            Initial::Voltage { .. } => currents_from(conditions, values, i + 1, state),
        }
    }
}

// The graph of capacitor voltages

/// A directed edge of the graph of capacitors with a condition: `v(from) - v(to) = delta`.
/// A vertex is the index of a node voltage, or `None` for ground.
#[verifier::ext_equal]
pub struct Edge<S> {
    pub from: Option<usize>,
    pub to: Option<usize>,
    pub delta: S,
    pub element: Seq<char>,
}

/// The edges after the conditions from `i` on: two per capacitor, one in each direction.
pub open spec fn edges_from<S: Scalar>(
    conditions: Seq<Initial<S>>,
    values: Map<Seq<char>, S>,
    i: int,
    edges: Seq<Edge<S>>,
) -> Result<Seq<Edge<S>>, Obstacle<S>>
    decreases conditions.len() - i,
{
    if i < 0 || i >= conditions.len() {
        Ok(edges)
    } else {
        match conditions[i] {
            Initial::Voltage { element, positive, negative, value } => match expr::value(
                value,
                values,
            ) {
                Ok(v) => edges_from(
                    conditions,
                    values,
                    i + 1,
                    edges.push(
                        Edge { from: positive, to: negative, delta: v, element },
                    ).push(
                        Edge { from: negative, to: positive, delta: v.negation(), element },
                    ),
                ),
                Err(failure) => unevaluated(failure),
            },
            Initial::Current { .. } => edges_from(conditions, values, i + 1, edges),
        }
    }
}

/// The potentials found so far, in the order in which their vertices were reached.
pub type Potentials<S> = Seq<(Option<usize>, S)>;

/// The place of a vertex among those reached at or after `from`, or their number.
pub open spec fn reached_at<S>(found: Potentials<S>, vertex: Option<usize>, from: int) -> int
    decreases found.len() - from,
{
    if from < 0 || from >= found.len() {
        found.len() as int
    } else if found[from].0 == vertex {
        from
    } else {
        reached_at(found, vertex, from + 1)
    }
}

/// Whether two potentials of one vertex contradict each other.
pub open spec fn contradict<S: Scalar>(known: S, implied: S, tolerance: S) -> bool {
    let scale = known.magnitude().larger(implied.magnitude()).larger(S::unit());
    tolerance.product(scale).below(known.difference(implied).magnitude())
}

/// The potentials after the edges from `e` on that leave the vertex in place `at`: a new
/// vertex is put at the end, a known one must agree.
pub open spec fn expanded_from<S: Scalar>(
    edges: Seq<Edge<S>>,
    tolerance: S,
    at: int,
    e: int,
    found: Potentials<S>,
) -> Result<Potentials<S>, Obstacle<S>>
    decreases edges.len() - e,
{
    if e < 0 || e >= edges.len() {
        Ok(found)
    } else if edges[e].from != found[at].0 {
        expanded_from(edges, tolerance, at, e + 1, found)
    } else {
        let here = found[at].1;
        let implied = here.difference(edges[e].delta);
        let there = reached_at(found, edges[e].to, 0);
        if there < found.len() {
            if contradict(found[there].1, implied, tolerance) {
                Err(
                    Obstacle::ConflictingConditions {
                        element: edges[e].element,
                        implied: here.difference(found[there].1),
                        declared: edges[e].delta,
                    },
                )
            } else {
                expanded_from(edges, tolerance, at, e + 1, found)
            }
        } else {
            expanded_from(edges, tolerance, at, e + 1, found.push((edges[e].to, implied)))
        }
    }
}

/// The order of vertices: ground first, then ascending indices.
pub open spec fn vertex_before(a: Option<usize>, b: Option<usize>) -> bool {
    match (a, b) {
        (_, None) => false,
        (None, Some(_)) => true,
        (Some(x), Some(y)) => x < y,
    }
}

/// A vertex at which an edge from `e` on starts, that has not been reached, and that no other
/// such vertex comes before; `best` stands for those before `e`.
pub open spec fn next_root_from<S>(
    edges: Seq<Edge<S>>,
    found: Potentials<S>,
    e: int,
    best: Option<Option<usize>>,
) -> Option<Option<usize>>
    decreases edges.len() - e,
{
    if e < 0 || e >= edges.len() {
        best
    } else {
        next_root_from(
            edges,
            found,
            e + 1,
            if reached_at(found, edges[e].from, 0) < found.len() {
                best
            } else {
                match best {
                    None => Some(edges[e].from),
                    Some(b) => if vertex_before(edges[e].from, b) {
                        Some(edges[e].from)
                    } else {
                        best
                    },
                }
            },
        )
    }
}

/// The potentials after `n` vertices have been walked from, in the order in which they are
/// reached: each component breadth first from its first vertex, which is held at zero.
pub open spec fn walked<S: Scalar>(edges: Seq<Edge<S>>, tolerance: S, n: nat) -> Result<
    Potentials<S>,
    Obstacle<S>,
>
    decreases n,
{
    if n == 0 {
        Ok(Seq::empty())
    } else {
        match walked(edges, tolerance, (n - 1) as nat) {
            Err(obstacle) => Err(obstacle),
            Ok(found) => if found.len() >= n {
                expanded_from(edges, tolerance, n - 1, 0, found)
            } else {
                match next_root_from(edges, found, 0, None) {
                    Some(root) => expanded_from(
                        edges,
                        tolerance,
                        n - 1,
                        0,
                        found.push((root, S::nought())),
                    ),
                    None => Ok(found),
                }
            },
        }
    }
}

/// The assignment after the potentials from `i` on.
pub open spec fn potentials_from<S: Scalar>(
    found: Potentials<S>,
    i: int,
    state: Assignment<S>,
) -> Assignment<S>
    decreases found.len() - i,
{
    if i < 0 || i >= found.len() {
        state
    } else {
        match found[i].0 {
            Some(index) => potentials_from(
                found,
                i + 1,
                with_value(state, index as int, found[i].1),
            ),
            None => potentials_from(found, i + 1, state),
        }
    }
}

/// The assignment that the declared conditions make.
pub open spec fn assignment<S: Scalar>(
    conditions: Seq<Initial<S>>,
    values: Map<Seq<char>, S>,
    tolerance: S,
    order: nat,
) -> Result<Assignment<S>, Obstacle<S>> {
    let rest = Assignment {
        x: Seq::new(order, |i: int| S::nought()),
        assigned: Seq::new(order, |i: int| false),
    };
    match currents_from(conditions, values, 0, rest) {
        Err(obstacle) => Err(obstacle),
        Ok(state) => match edges_from(conditions, values, 0, Seq::empty()) {
            Err(obstacle) => Err(obstacle),
            Ok(edges) => match walked(edges, tolerance, edges.len()) {
                Err(obstacle) => Err(obstacle),
                Ok(found) => Ok(potentials_from(found, 0, state)),
            },
        },
    }
}

// Consistency with the circuit

/// A row with an entry that is not zero.
pub open spec fn has_entry<S: Scalar>(row: Seq<S>) -> bool {
    exists|j: int| 0 <= j < row.len() && !(#[trigger] row[j]).equal(S::nought())
}

/// Every unknown in an equation is assigned, and there is one.
pub open spec fn is_closed<S: Scalar>(a_row: Seq<S>, assigned: Seq<bool>) -> bool {
    &&& has_entry(a_row)
    &&& forall|j: int|
        0 <= j < a_row.len() && !(#[trigger] a_row[j]).equal(S::nought()) ==> assigned[j]
}

/// The residual of an equation and the largest magnitude in it, over the first `n` unknowns.
pub open spec fn residual<S: Scalar>(a_row: Seq<S>, x: Seq<S>, u: S, n: nat) -> (S, S)
    decreases n,
{
    if n == 0 {
        (u.negation(), u.magnitude())
    } else {
        let (sum, scale) = residual(a_row, x, u, (n - 1) as nat);
        if a_row[n - 1].equal(S::nought()) {
            (sum, scale)
        } else {
            let term = a_row[n - 1].product(x[n - 1]);
            (sum.sum(term), scale.larger(term.magnitude()))
        }
    }
}

/// What is wrong with the equation in a row at an assigned state, if anything.
pub open spec fn row_obstacle<S: Scalar>(
    a: Seq<Seq<S>>,
    k: Seq<Seq<S>>,
    u: Seq<S>,
    unknowns: Seq<Seq<char>>,
    state: Assignment<S>,
    tolerance: S,
    row: int,
) -> Option<Obstacle<S>> {
    let (sum, scale) = residual(a[row], state.x, u[row], a[row].len());
    if !has_entry(k[row]) && is_closed(a[row], state.assigned) && tolerance.product(
        scale.larger(S::unit()),
    ).below(sum.magnitude()) {
        Some(Obstacle::InconsistentWithCircuit { constraint: unknowns[row], residual: sum })
    } else {
        None
    }
}

/// The first violated equation from `row` on.
pub open spec fn first_obstacle<S: Scalar>(
    a: Seq<Seq<S>>,
    k: Seq<Seq<S>>,
    u: Seq<S>,
    unknowns: Seq<Seq<char>>,
    state: Assignment<S>,
    tolerance: S,
    row: int,
) -> Option<Obstacle<S>>
    decreases unknowns.len() - row,
{
    if row < 0 || row >= unknowns.len() {
        None
    } else {
        match row_obstacle(a, k, u, unknowns, state, tolerance, row) {
            Some(obstacle) => Some(obstacle),
            None => first_obstacle(a, k, u, unknowns, state, tolerance, row + 1),
        }
    }
}

/// The starting state of a circuit with declared conditions, or why there is none.
pub open spec fn started<S: Scalar>(
    system: MnaSystem<S>,
    values: Map<Seq<char>, S>,
    tolerance: S,
) -> Result<Seq<S>, Obstacle<S>> {
    let order = system.unknowns@.len();
    match assignment(system@.initial, values, tolerance, order) {
        Err(obstacle) => Err(obstacle),
        Ok(state) => match evaluation_failure(system, values) {
            Some(failure) => unevaluated(failure),
            None => match first_obstacle(
                numeric_rows(system.a, values),
                numeric_rows(system.k, values),
                numeric_u(system, values),
                system@.unknowns,
                state,
                tolerance,
                0,
            ) {
                Some(obstacle) => Err(obstacle),
                None => Ok(state.x),
            },
        },
    }
}

spec fn state_view<S>(x: Vec<S>, assigned: Vec<bool>) -> Assignment<S> {
    Assignment { x: x@, assigned: assigned@ }
}

fn assign_currents<S: Scalar>(
    conditions: &Vec<InitialCondition<S>>,
    env: &NameMap<S>,
    x: &mut Vec<S>,
    assigned: &mut Vec<bool>,
) -> (r: Result<(), InitialStateError<S>>)
    requires
        old(x)@.len() == old(assigned)@.len(),
        forall|i: int|
            0 <= i < conditions@.len() ==> initial_within(
                #[trigger] conditions@[i]@,
                old(x)@.len(),
            ),
    ensures
        final(x)@.len() == old(x)@.len(),
        final(assigned)@.len() == old(x)@.len(),
        match r {
            Ok(_) => currents_from(
                initials(conditions@),
                env@,
                0,
                state_view(*old(x), *old(assigned)),
            ) == Ok::<Assignment<S>, Obstacle<S>>(state_view(*final(x), *final(assigned))),
            Err(error) => currents_from(
                initials(conditions@),
                env@,
                0,
                state_view(*old(x), *old(assigned)),
            ) == Err::<Assignment<S>, Obstacle<S>>(error@),
        },
{
    let ghost views = initials(conditions@);
    let ghost order = x@.len();
    let ghost all = currents_from(views, env@, 0, state_view(*x, *assigned));
    let mut i: usize = 0;
    while i < conditions.len()
        invariant
            i <= conditions@.len(),
            views == initials(conditions@),
            x@.len() == order,
            assigned@.len() == order,
            order == old(x)@.len(),
            forall|i: int|
                0 <= i < conditions@.len() ==> initial_within(#[trigger] conditions@[i]@, order),
            all == currents_from(views, env@, 0, state_view(*old(x), *old(assigned))),
            all == currents_from(views, env@, i as int, state_view(*x, *assigned)),
        decreases conditions@.len() - i,
    {
        assert(views[i as int] == conditions@[i as int]@);
        assert(initial_within(conditions@[i as int]@, order));
        if let InitialCondition::InductorCurrent { branch, value, .. } = &conditions[i] {
            match value.evaluate(env) {
                Ok(v) => {
                    let ghost before = state_view(*x, *assigned);
                    let b: usize = *branch;
                    x.set(b, v);
                    assigned.set(b, true);
                    assert(state_view(*x, *assigned) =~= with_value(before, b as int, v));
                },
                Err(error) => {
                    return Err(InitialStateError::Evaluation(error));
                },
            }
        }
        i = i + 1;
    }
    Ok(())
}

/// An edge of the graph of capacitor voltages.
struct Link<S> {
    from: Option<usize>,
    to: Option<usize>,
    delta: S,
    element: String,
}

spec fn link_views<S: Scalar>(links: Seq<Link<S>>) -> Seq<Edge<S>> {
    Seq::new(
        links.len(),
        |i: int|
            Edge {
                from: links[i].from,
                to: links[i].to,
                delta: links[i].delta,
                element: links[i].element@,
            },
    )
}

spec fn vertex_within(vertex: Option<usize>, order: nat) -> bool {
    vertex matches Some(index) ==> index < order
}

spec fn links_within<S>(links: Seq<Link<S>>, order: nat) -> bool {
    forall|i: int|
        0 <= i < links.len() ==> vertex_within((#[trigger] links[i]).from, order)
            && vertex_within(links[i].to, order)
}

fn collect_links<S: Scalar>(
    conditions: &Vec<InitialCondition<S>>,
    env: &NameMap<S>,
    Ghost(order): Ghost<nat>,
) -> (r: Result<Vec<Link<S>>, InitialStateError<S>>)
    requires
        forall|i: int|
            0 <= i < conditions@.len() ==> initial_within(#[trigger] conditions@[i]@, order),
    ensures
        match r {
            Ok(links) => {
                &&& edges_from(initials(conditions@), env@, 0, Seq::empty()) == Ok::<
                    Seq<Edge<S>>,
                    Obstacle<S>,
                >(link_views(links@))
                &&& links_within(links@, order)
            },
            Err(error) => edges_from(initials(conditions@), env@, 0, Seq::empty()) == Err::<
                Seq<Edge<S>>,
                Obstacle<S>,
            >(error@),
        },
{
    let ghost views = initials(conditions@);
    let ghost all = edges_from(views, env@, 0, Seq::empty());
    let mut links: Vec<Link<S>> = Vec::new();
    assert(link_views(links@) =~= Seq::empty());
    let mut i: usize = 0;
    while i < conditions.len()
        invariant
            i <= conditions@.len(),
            views == initials(conditions@),
            forall|i: int|
                0 <= i < conditions@.len() ==> initial_within(#[trigger] conditions@[i]@, order),
            links_within(links@, order),
            all == edges_from(views, env@, 0, Seq::empty()),
            all == edges_from(views, env@, i as int, link_views(links@)),
        decreases conditions@.len() - i,
    {
        assert(views[i as int] == conditions@[i as int]@);
        assert(initial_within(conditions@[i as int]@, order));
        if let InitialCondition::CapacitorVoltage { element, positive, negative, value } =
            &conditions[i] {
            match value.evaluate(env) {
                Ok(v) => {
                    let ghost before = link_views(links@);
                    links.push(
                        Link { from: *positive, to: *negative, delta: v, element: element.clone() },
                    );
                    links.push(
                        Link {
                            from: *negative,
                            to: *positive,
                            delta: v.negated(),
                            element: element.clone(),
                        },
                    );
                    assert(link_views(links@) =~= before.push(
                        Edge { from: *positive, to: *negative, delta: v, element: element@ },
                    ).push(
                        Edge {
                            from: *negative,
                            to: *positive,
                            delta: v.negation(),
                            element: element@,
                        },
                    ));
                },
                Err(error) => {
                    return Err(InitialStateError::Evaluation(error));
                },
            }
        }
        i = i + 1;
    }
    Ok(links)
}

fn same_vertex(a: Option<usize>, b: Option<usize>) -> (r: bool)
    ensures
        r == (a == b),
{
    match a {
        None => b.is_none(),
        Some(x) => match b {
            None => false,
            Some(y) => x == y,
        },
    }
}

fn find_vertex<S: Scalar>(found: &Vec<(Option<usize>, S)>, vertex: Option<usize>) -> (r: usize)
    ensures
        r == reached_at(found@, vertex, 0),
        r <= found@.len(),
{
    let mut i: usize = 0;
    while i < found.len() && !same_vertex(found[i].0, vertex)
        invariant
            i <= found@.len(),
            reached_at(found@, vertex, i as int) == reached_at(found@, vertex, 0),
        decreases found@.len() - i,
    {
        i = i + 1;
    }
    i
}

spec fn found_within<S>(found: Seq<(Option<usize>, S)>, order: nat) -> bool {
    forall|i: int| 0 <= i < found.len() ==> vertex_within((#[trigger] found[i]).0, order)
}

fn expand<S: Scalar>(
    links: &Vec<Link<S>>,
    tolerance: S,
    at: usize,
    found: &mut Vec<(Option<usize>, S)>,
    Ghost(order): Ghost<nat>,
) -> (r: Result<(), InitialStateError<S>>)
    requires
        at < old(found)@.len(),
        links_within(links@, order),
        found_within(old(found)@, order),
    ensures
        found_within(final(found)@, order),
        match r {
            Ok(_) => expanded_from(
                link_views(links@),
                tolerance,
                at as int,
                0,
                old(found)@,
            ) == Ok::<Potentials<S>, Obstacle<S>>(final(found)@),
            Err(error) => expanded_from(
                link_views(links@),
                tolerance,
                at as int,
                0,
                old(found)@,
            ) == Err::<Potentials<S>, Obstacle<S>>(error@),
        },
{
    let ghost edges = link_views(links@);
    let ghost all = expanded_from(edges, tolerance, at as int, 0, found@);
    let mut e: usize = 0;
    while e < links.len()
        invariant
            e <= links@.len(),
            at < found@.len(),
            edges == link_views(links@),
            links_within(links@, order),
            found_within(found@, order),
            all == expanded_from(edges, tolerance, at as int, 0, old(found)@),
            all == expanded_from(edges, tolerance, at as int, e as int, found@),
        decreases links@.len() - e,
    {
        let link = &links[e];
        assert(edges[e as int] == (Edge {
            from: link.from,
            to: link.to,
            delta: link.delta,
            element: link.element@,
        }));
        if same_vertex(link.from, found[at].0) {
            let here = found[at].1;
            let implied = here.minus(link.delta);
            let there = find_vertex(found, link.to);
            if there < found.len() {
                let known = found[there].1;
                let scale = known.abs().max(implied.abs()).max(S::one());
                if tolerance.times(scale).less_than(known.minus(implied).abs()) {
                    return Err(
                        InitialStateError::ConflictingConditions {
                            element: link.element.clone(),
                            implied: here.minus(known),
                            declared: link.delta,
                        },
                    );
                }
            } else {
                assert(vertex_within(links@[e as int].to, order));
                found.push((link.to, implied));
            }
        }
        e = e + 1;
    }
    Ok(())
}

fn is_before(a: Option<usize>, b: Option<usize>) -> (r: bool)
    ensures
        r == vertex_before(a, b),
{
    match b {
        None => false,
        Some(y) => match a {
            None => true,
            Some(x) => x < y,
        },
    }
}

fn next_root<S: Scalar>(
    links: &Vec<Link<S>>,
    found: &Vec<(Option<usize>, S)>,
    Ghost(order): Ghost<nat>,
) -> (r: Option<Option<usize>>)
    requires
        links_within(links@, order),
    ensures
        r == next_root_from(link_views(links@), found@, 0, None),
        r matches Some(root) ==> vertex_within(root, order),
{
    let ghost edges = link_views(links@);
    let ghost all = next_root_from(edges, found@, 0, None);
    let mut best: Option<Option<usize>> = None;
    let mut e: usize = 0;
    while e < links.len()
        invariant
            e <= links@.len(),
            edges == link_views(links@),
            links_within(links@, order),
            best matches Some(root) ==> vertex_within(root, order),
            all == next_root_from(edges, found@, 0, None),
            all == next_root_from(edges, found@, e as int, best),
        decreases links@.len() - e,
    {
        let vertex = links[e].from;
        assert(edges[e as int].from == vertex);
        assert(vertex_within(links@[e as int].from, order));
        if find_vertex(found, vertex) >= found.len() {
            match best {
                None => {
                    best = Some(vertex);
                },
                Some(b) => {
                    if is_before(vertex, b) {
                        best = Some(vertex);
                    }
                },
            }
        }
        e = e + 1;
    }
    best
}

/// A walk that has failed stays failed.
proof fn lemma_walk_failed<S: Scalar>(edges: Seq<Edge<S>>, tolerance: S, m: nat, n: nat)
    requires
        m <= n,
        walked(edges, tolerance, m) is Err,
    ensures
        walked(edges, tolerance, n) == walked(edges, tolerance, m),
    decreases n,
{
    if m < n {
        lemma_walk_failed(edges, tolerance, m, (n - 1) as nat);
    }
}

/// A walk grows by whole vertices.
proof fn lemma_expanded_grows<S: Scalar>(
    edges: Seq<Edge<S>>,
    tolerance: S,
    at: int,
    e: int,
    found: Potentials<S>,
)
    ensures
        expanded_from(edges, tolerance, at, e, found) matches Ok(more) ==> more.len()
            >= found.len(),
    decreases edges.len() - e,
{
    if 0 <= e < edges.len() {
        let implied = found[at].1.difference(edges[e].delta);
        lemma_expanded_grows(edges, tolerance, at, e + 1, found);
        lemma_expanded_grows(edges, tolerance, at, e + 1, found.push((edges[e].to, implied)));
    }
}

/// A walk that has reached fewer vertices than it has steps has no vertex left to start from.
pub proof fn lemma_short_walk<S: Scalar>(edges: Seq<Edge<S>>, tolerance: S, n: nat)
    ensures
        walked(edges, tolerance, n) matches Ok(found) ==> found.len() < n ==> next_root_from(
            edges,
            found,
            0,
            None,
        ) is None,
    decreases n,
{
    if n > 0 {
        lemma_short_walk(edges, tolerance, (n - 1) as nat);
        if let Ok(found) = walked(edges, tolerance, (n - 1) as nat) {
            lemma_expanded_grows(edges, tolerance, n - 1, 0, found);
            if let Some(root) = next_root_from(edges, found, 0, None) {
                lemma_expanded_grows(
                    edges,
                    tolerance,
                    n - 1,
                    0,
                    found.push((root, S::nought())),
                );
            }
        }
    }
}

fn walk<S: Scalar>(links: &Vec<Link<S>>, tolerance: S, Ghost(order): Ghost<nat>) -> (r: Result<
    Vec<(Option<usize>, S)>,
    InitialStateError<S>,
>)
    requires
        links_within(links@, order),
    ensures
        match r {
            Ok(found) => walked(link_views(links@), tolerance, links@.len()) == Ok::<
                Potentials<S>,
                Obstacle<S>,
            >(found@) && found_within(found@, order),
            Err(error) => walked(link_views(links@), tolerance, links@.len()) == Err::<
                Potentials<S>,
                Obstacle<S>,
            >(error@),
        },
{
    let ghost edges = link_views(links@);
    let mut found: Vec<(Option<usize>, S)> = Vec::new();
    let mut n: usize = 0;
    while n < links.len()
        invariant
            n <= links@.len(),
            edges == link_views(links@),
            links_within(links@, order),
            found_within(found@, order),
            walked(edges, tolerance, n as nat) == Ok::<Potentials<S>, Obstacle<S>>(found@),
        decreases links@.len() - n,
    {
        let mut more = true;
        if found.len() <= n {
            match next_root(links, &found, Ghost(order)) {
                Some(root) => {
                    if found.len() == n {
                        found.push((root, S::zero()));
                    } else {
                        proof {
                            lemma_short_walk(edges, tolerance, n as nat);
                        }
                        more = false;
                    }
                },
                None => {
                    more = false;
                },
            }
        }
        if more {
            match expand(links, tolerance, n, &mut found, Ghost(order)) {
                Ok(_) => {},
                Err(error) => {
                    proof {
                        lemma_walk_failed(edges, tolerance, (n + 1) as nat, links@.len());
                    }
                    return Err(error);
                },
            }
        }
        n = n + 1;
    }
    Ok(found)
}

fn assign_potentials<S: Scalar>(
    found: &Vec<(Option<usize>, S)>,
    x: &mut Vec<S>,
    assigned: &mut Vec<bool>,
)
    requires
        old(x)@.len() == old(assigned)@.len(),
        found_within(found@, old(x)@.len()),
    ensures
        final(x)@.len() == old(x)@.len(),
        final(assigned)@.len() == old(x)@.len(),
        state_view(*final(x), *final(assigned)) == potentials_from(
            found@,
            0,
            state_view(*old(x), *old(assigned)),
        ),
{
    let ghost all = potentials_from(found@, 0, state_view(*x, *assigned));
    let mut i: usize = 0;
    while i < found.len()
        invariant
            i <= found@.len(),
            x@.len() == old(x)@.len(),
            assigned@.len() == old(x)@.len(),
            found_within(found@, old(x)@.len()),
            all == potentials_from(found@, i as int, state_view(*x, *assigned)),
        decreases found@.len() - i,
    {
        assert(vertex_within(found@[i as int].0, old(x)@.len()));
        if let Some(index) = found[i].0 {
            let ghost before = state_view(*x, *assigned);
            let v = found[i].1;
            x.set(index, v);
            assigned.set(index, true);
            assert(state_view(*x, *assigned) =~= with_value(before, index as int, v));
        }
        i = i + 1;
    }
}

fn row_has_entry<S: Scalar>(m: &Matrix<S>, row: usize) -> (r: bool)
    requires
        row < m.row_count(),
    ensures
        r == has_entry(m@[row as int]),
{
    let mut j: usize = 0;
    while j < m.cols()
        invariant
            row < m.row_count(),
            j <= m.col_count(),
            forall|c: int| 0 <= c < j ==> (#[trigger] m@[row as int][c]).equal(S::nought()),
        decreases m.col_count() - j,
    {
        if !(*m.at(row, j)).same_as(S::zero()) {
            assert(!m@[row as int][j as int].equal(S::nought()));
            return true;
        }
        j = j + 1;
    }
    false
}

fn row_is_closed<S: Scalar>(numeric: &NumericMnaSystem<S>, row: usize, assigned: &Vec<bool>) -> (r:
    bool)
    requires
        numeric.well_formed(),
        row < numeric.unknowns@.len(),
        assigned@.len() == numeric.unknowns@.len(),
    ensures
        r == is_closed(numeric.a@[row as int], assigned@),
{
    let ghost a_row = numeric.a@[row as int];
    if !row_has_entry(&numeric.a, row) {
        return false;
    }
    let mut j: usize = 0;
    while j < numeric.unknowns.len()
        invariant
            numeric.well_formed(),
            row < numeric.unknowns@.len(),
            assigned@.len() == numeric.unknowns@.len(),
            j <= numeric.unknowns@.len(),
            a_row == numeric.a@[row as int],
            forall|c: int|
                0 <= c < j && !(#[trigger] a_row[c]).equal(S::nought()) ==> assigned@[c],
        decreases numeric.unknowns@.len() - j,
    {
        if !(*numeric.a.at(row, j)).same_as(S::zero()) {
            if !assigned[j] {
                assert(!a_row[j as int].equal(S::nought()));
                return false;
            }
        }
        j = j + 1;
    }
    true
}

fn check_assignment_against_circuit<S: Scalar>(
    numeric: &NumericMnaSystem<S>,
    x: &Vec<S>,
    assigned: &Vec<bool>,
    tolerance: S,
) -> (r: Result<(), InitialStateError<S>>)
    requires
        numeric.well_formed(),
        x@.len() == numeric.unknowns@.len(),
        assigned@.len() == numeric.unknowns@.len(),
    ensures
        match r {
            Ok(_) => first_obstacle(
                numeric.a@,
                numeric.k@,
                numeric.u@,
                text::texts(numeric.unknowns@),
                state_view(*x, *assigned),
                tolerance,
                0,
            ) is None,
            Err(error) => first_obstacle(
                numeric.a@,
                numeric.k@,
                numeric.u@,
                text::texts(numeric.unknowns@),
                state_view(*x, *assigned),
                tolerance,
                0,
            ) == Some(error@),
        },
{
    let ghost names = text::texts(numeric.unknowns@);
    let ghost state = state_view(*x, *assigned);
    let ghost all = first_obstacle(
        numeric.a@,
        numeric.k@,
        numeric.u@,
        names,
        state,
        tolerance,
        0,
    );
    let order: usize = numeric.unknowns.len();
    let mut row: usize = 0;
    while row < order
        invariant
            row <= order == numeric.unknowns@.len(),
            numeric.well_formed(),
            x@.len() == order,
            assigned@.len() == order,
            names == text::texts(numeric.unknowns@),
            state == state_view(*x, *assigned),
            all == first_obstacle(
                numeric.a@,
                numeric.k@,
                numeric.u@,
                names,
                state,
                tolerance,
                0,
            ),
            all == first_obstacle(
                numeric.a@,
                numeric.k@,
                numeric.u@,
                names,
                state,
                tolerance,
                row as int,
            ),
        decreases order - row,
    {
        let ghost a_row = numeric.a@[row as int];
        if !row_has_entry(&numeric.k, row) && row_is_closed(numeric, row, assigned) {
            let start = numeric.u[row];
            let mut sum: S = start.negated();
            let mut scale: S = start.abs();
            let mut j: usize = 0;
            while j < order
                invariant
                    row < order == numeric.unknowns@.len(),
                    j <= order,
                    numeric.well_formed(),
                    x@.len() == order,
                    a_row == numeric.a@[row as int],
                    (sum, scale) == residual(a_row, x@, numeric.u@[row as int], j as nat),
                decreases order - j,
            {
                let c = *numeric.a.at(row, j);
                if !c.same_as(S::zero()) {
                    let term = c.times(x[j]);
                    sum = sum.plus(term);
                    scale = scale.max(term.abs());
                }
                j = j + 1;
            }
            if tolerance.times(scale.max(S::one())).less_than(sum.abs()) {
                return Err(
                    InitialStateError::InconsistentWithCircuit {
                        constraint: numeric.unknowns[row].clone(),
                        residual: sum,
                    },
                );
            }
        }
        row = row + 1;
    }
    Ok(())
}

impl<S: Scalar> MnaSystem<S> {
    /// Turns this netlist's declared `ic=` values into the starting state vector of a
    /// transient run, in `unknowns` order: the `x` at `t = 0`.
    ///
    /// Returns `Ok(None)` when the netlist declares no `ic=` at all, so a caller can keep its
    /// existing "start from rest" default untouched.
    ///
    /// # It is an assignment, not a solve
    ///
    /// The declared states are written into `x`, every other unknown starts at rest, and the
    /// system that actually gets solved is not touched at all. The assigned unknowns are:
    ///
    /// - for an `ic`-bearing inductor, its own branch-current unknown, set to `ic`;
    /// - for an `ic`-bearing capacitor, the *difference* between its two node voltages. Those
    ///   capacitors are treated as a graph over nodes, one edge per declared `ic`, and each
    ///   connected component's potentials are propagated from a root at `0`: ground when the
    ///   component touches ground, otherwise the component's lowest-indexed node.
    ///
    /// # What is reported rather than silently overridden
    ///
    /// - `ic=` values that contradict *each other* around a loop of capacitors.
    /// - An assignment that violates one of the circuit's own algebraic equations, in which
    ///   every unknown is fixed by an `ic=`. Only equations with no `K` row are checked, and
    ///   only those all of whose unknowns are assigned: an equation with a free unknown in it,
    ///   or with storage in it, is one the circuit can still satisfy.
    ///
    /// `values` supplies any symbol the netlist left open. `tolerance` is the relative
    /// residual threshold of the consistency check.
    pub fn initial_state(&self, values: &NameMap<S>, tolerance: S) -> (r: Result<
        Option<Vec<S>>,
        InitialStateError<S>,
    >)
        requires
            self.well_formed(),
        ensures
            match r {
                Ok(None) => self.initial_conditions@.len() == 0,
                Ok(Some(x)) => {
                    &&& self.initial_conditions@.len() > 0
                    &&& x@.len() == self.unknowns@.len()
                    &&& started(*self, environment(self@.parameters, values@), tolerance) == Ok::<
                        Seq<S>,
                        Obstacle<S>,
                    >(x@)
                },
                Err(error) => {
                    &&& self.initial_conditions@.len() > 0
                    &&& started(*self, environment(self@.parameters, values@), tolerance) == Err::<
                        Seq<S>,
                        Obstacle<S>,
                    >(error@)
                },
            },
    {
        if self.initial_conditions.len() == 0 {
            return Ok(None);
        }
        let order: usize = self.unknowns.len();
        let env = build_environment(&self.parameter_defaults, values);
        let mut x: Vec<S> = Vec::new();
        let mut assigned: Vec<bool> = Vec::new();
        let mut i: usize = 0;
        while i < order
            invariant
                i <= order,
                x@ == Seq::new(i as nat, |j: int| S::nought()),
                assigned@ == Seq::new(i as nat, |j: int| false),
            decreases order - i,
        {
            x.push(S::zero());
            assigned.push(false);
            i = i + 1;
            assert(x@ =~= Seq::new(i as nat, |j: int| S::nought()));
            assert(assigned@ =~= Seq::new(i as nat, |j: int| false));
        }
        match assign_currents(&self.initial_conditions, &env, &mut x, &mut assigned) {
            Ok(_) => {},
            Err(error) => {
                return Err(error);
            },
        }
        let links = match collect_links(
            &self.initial_conditions,
            &env,
            Ghost(order as nat),
        ) {
            Ok(links) => links,
            Err(error) => {
                return Err(error);
            },
        };
        assert(link_views(links@).len() == links@.len());
        let found = match walk(&links, tolerance, Ghost(order as nat)) {
            Ok(found) => found,
            Err(error) => {
                return Err(error);
            },
        };
        assign_potentials(&found, &mut x, &mut assigned);
        let numeric = match self.evaluate(values) {
            Ok(numeric) => numeric,
            Err(error) => {
                return Err(InitialStateError::Evaluation(error));
            },
        };
        proof {
            lemma_evaluation_rows(*self, env@, numeric);
            assert(text::texts(numeric.unknowns@).len() == numeric.unknowns@.len());
            assert(text::texts(self.unknowns@).len() == self.unknowns@.len());
        }
        match check_assignment_against_circuit(&numeric, &x, &assigned, tolerance) {
            Ok(_) => Ok(Some(x)),
            Err(error) => Err(error),
        }
    }
}

// The operating point with the declared states held

/// How the current of a branch from `positive` to `negative` enters the equation of the node
/// voltage `index`, and how that voltage enters the branch's own equation.
pub open spec fn incidence_sign<S: Scalar>(
    positive: Option<usize>,
    negative: Option<usize>,
    index: int,
) -> S {
    let leaves = positive matches Some(p) && p == index;
    let enters = negative matches Some(n) && n == index;
    if leaves && !enters {
        S::unit()
    } else if enters && !leaves {
        S::unit().negation()
    } else {
        S::nought()
    }
}

/// The coefficients of the held circuit. Every capacitor with a condition is a voltage source
/// with a current of its own; the equation of an inductor with a condition says that its
/// current is the declared one; storage without a condition is at rest.
pub open spec fn held_matrix<S: Scalar>(
    a: Seq<Seq<S>>,
    edges: Seq<Edge<S>>,
    held: Seq<bool>,
) -> Seq<Seq<S>> {
    let order = a.len();
    let count = edges.len() / 2;
    Seq::new(
        order + count,
        |i: int|
            Seq::new(
                order + count,
                |j: int|
                    if i < order {
                        if held[i] {
                            if i == j {
                                S::unit()
                            } else {
                                S::nought()
                            }
                        } else if j < order {
                            a[i][j]
                        } else {
                            incidence_sign(
                                edges[2 * (j - order)].from,
                                edges[2 * (j - order)].to,
                                i,
                            )
                        }
                    } else if j < order {
                        incidence_sign(
                            edges[2 * (i - order)].from,
                            edges[2 * (i - order)].to,
                            j,
                        )
                    } else {
                        S::nought()
                    },
            ),
    )
}

/// The right-hand side of the held circuit.
pub open spec fn held_rhs<S: Scalar>(
    u: Seq<S>,
    edges: Seq<Edge<S>>,
    state: Assignment<S>,
) -> Seq<Seq<S>> {
    let order = u.len();
    Seq::new(
        order + edges.len() / 2,
        |i: int|
            seq![
                if i < order {
                    if state.assigned[i] {
                        state.x[i]
                    } else {
                        u[i]
                    }
                } else {
                    edges[2 * (i - order)].delta
                },
            ],
    )
}

/// The operating point of a circuit with its declared states held, or why there is none.
pub open spec fn held_point<S: Scalar>(
    system: MnaSystem<S>,
    values: Map<Seq<char>, S>,
    tolerance: S,
) -> Result<Seq<S>, Obstacle<S>> {
    let order = system.unknowns@.len();
    let rest = Assignment {
        x: Seq::new(order, |i: int| S::nought()),
        assigned: Seq::new(order, |i: int| false),
    };
    match currents_from(system@.initial, values, 0, rest) {
        Err(obstacle) => Err(obstacle),
        Ok(state) => match edges_from(system@.initial, values, 0, Seq::empty()) {
            Err(obstacle) => Err(obstacle),
            Ok(edges) => match evaluation_failure(system, values) {
                Some(failure) => unevaluated(failure),
                None => match solution(
                    held_matrix(numeric_rows(system.a, values), edges, state.assigned),
                    held_rhs(numeric_u(system, values), edges, state),
                    tolerance,
                ) {
                    Ok(x) => Ok(Seq::new(order, |i: int| x[i][0])),
                    Err(col) => Err(
                        Obstacle::NoUniqueOperatingPoint {
                            constraint: if col < order {
                                system@.unknowns[col]
                            } else {
                                edges[2 * (col - order)].element
                            },
                        },
                    ),
                },
            },
        },
    }
}

fn sign_of<S: Scalar>(positive: Option<usize>, negative: Option<usize>, index: usize) -> (r: S)
    ensures
        r == incidence_sign::<S>(positive, negative, index as int),
{
    let leaves = same_vertex(positive, Some(index));
    let enters = same_vertex(negative, Some(index));
    if leaves && !enters {
        S::one()
    } else if enters && !leaves {
        S::one().negated()
    } else {
        S::zero()
    }
}

/// The edges come in pairs.
proof fn lemma_edges_paired<S: Scalar>(
    conditions: Seq<Initial<S>>,
    values: Map<Seq<char>, S>,
    i: int,
    edges: Seq<Edge<S>>,
)
    requires
        edges.len() % 2 == 0,
    ensures
        edges_from(conditions, values, i, edges) matches Ok(all) ==> all.len() % 2 == 0,
    decreases conditions.len() - i,
{
    if 0 <= i < conditions.len() {
        match conditions[i] {
            Initial::Voltage { element, positive, negative, value } => {
                if let Ok(v) = expr::value(value, values) {
                    lemma_edges_paired(
                        conditions,
                        values,
                        i + 1,
                        edges.push(Edge { from: positive, to: negative, delta: v, element }).push(
                            Edge { from: negative, to: positive, delta: v.negation(), element },
                        ),
                    );
                }
            },
            Initial::Current { .. } => {
                lemma_edges_paired(conditions, values, i + 1, edges);
            },
        }
    }
}

fn held_rows<S: Scalar>(a: &Matrix<S>, links: &Vec<Link<S>>, held: &Vec<bool>) -> (r: Vec<Vec<S>>)
    requires
        a.row_count() == a.col_count() == held@.len(),
        links@.len() % 2 == 0,
    ensures
        row_seqs(r@) == held_matrix(a@, link_views(links@), held@),
        r@.len() == held@.len() + links@.len() / 2,
        of_width(row_seqs(r@), r@.len()),
{
    let ghost edges = link_views(links@);
    let ghost all = held_matrix(a@, edges, held@);
    let order: usize = held.len();
    let count: usize = links.len() / 2;
    let mut out: Vec<Vec<S>> = Vec::new();
    assert(row_seqs(out@) =~= all.take(0));
    let mut i: usize = 0;
    while i < order
        invariant
            i <= order == held@.len(),
            count == links@.len() / 2,
            a.row_count() == a.col_count() == held@.len(),
            links@.len() % 2 == 0,
            edges == link_views(links@),
            all == held_matrix(a@, edges, held@),
            row_seqs(out@) == all.take(i as int),
            out@.len() == i,
        decreases order - i,
    {
        let ghost target = all[i as int];
        let mut row: Vec<S> = Vec::new();
        let mut j: usize = 0;
        while j < order
            invariant
                i < order == held@.len(),
                j <= order,
                count == links@.len() / 2,
                a.row_count() == a.col_count() == held@.len(),
                edges == link_views(links@),
                all == held_matrix(a@, edges, held@),
                target == all[i as int],
                row@ == target.take(j as int),
            decreases order - j,
        {
            if held[i] {
                if i == j {
                    row.push(S::one());
                } else {
                    row.push(S::zero());
                }
            } else {
                row.push(*a.at(i, j));
            }
            j = j + 1;
            assert(target.take(j as int) =~= target.take(j - 1).push(target[j - 1]));
        }
        let mut c: usize = 0;
        while c < count
            invariant
                i < order == held@.len(),
                c <= count,
                count == links@.len() / 2,
                a.row_count() == a.col_count() == held@.len(),
                edges == link_views(links@),
                all == held_matrix(a@, edges, held@),
                target == all[i as int],
                row@ == target.take(order + c),
            decreases count - c,
        {
            if held[i] {
                row.push(S::zero());
            } else {
                assert(links.len() == links@.len());
                row.push(sign_of(links[2 * c].from, links[2 * c].to, i));
            }
            c = c + 1;
            assert(target.take(order + c) =~= target.take(order + c - 1).push(
                target[order + c - 1],
            ));
        }
        assert(target.take(order + c) =~= target);
        let ghost before = out@;
        out.push(row);
        proof {
            assert(row_seqs(out@) =~= row_seqs(before).push(row@));
            assert(all.take(i + 1) =~= all.take(i as int).push(all[i as int]));
        }
        i = i + 1;
    }
    let mut b: usize = 0;
    while b < count
        invariant
            b <= count,
            order == held@.len(),
            count == links@.len() / 2,
            a.row_count() == a.col_count() == held@.len(),
            links@.len() % 2 == 0,
            edges == link_views(links@),
            all == held_matrix(a@, edges, held@),
            row_seqs(out@) == all.take(order + b),
            out@.len() == order + b,
        decreases count - b,
    {
        let ghost target = all[order + b];
        let mut row: Vec<S> = Vec::new();
        let mut j: usize = 0;
        while j < order
            invariant
                b < count,
                order == held@.len(),
                j <= order,
                count == links@.len() / 2,
                a.row_count() == a.col_count() == held@.len(),
                edges == link_views(links@),
                all == held_matrix(a@, edges, held@),
                target == all[order + b],
                row@ == target.take(j as int),
            decreases order - j,
        {
            assert(links.len() == links@.len());
            row.push(sign_of(links[2 * b].from, links[2 * b].to, j));
            j = j + 1;
            assert(target.take(j as int) =~= target.take(j - 1).push(target[j - 1]));
        }
        let mut c: usize = 0;
        while c < count
            invariant
                b < count,
                order == held@.len(),
                c <= count,
                count == links@.len() / 2,
                a.row_count() == a.col_count() == held@.len(),
                edges == link_views(links@),
                all == held_matrix(a@, edges, held@),
                target == all[order + b],
                row@ == target.take(order + c),
            decreases count - c,
        {
            row.push(S::zero());
            c = c + 1;
            assert(target.take(order + c) =~= target.take(order + c - 1).push(
                target[order + c - 1],
            ));
        }
        assert(target.take(order + c) =~= target);
        let ghost before = out@;
        out.push(row);
        proof {
            assert(row_seqs(out@) =~= row_seqs(before).push(row@));
            assert(all.take(order + b + 1) =~= all.take(order + b).push(all[order + b]));
        }
        b = b + 1;
    }
    assert(all.take(order + b) =~= all);
    out
}

fn held_values<S: Scalar>(
    u: &Vec<S>,
    links: &Vec<Link<S>>,
    x: &Vec<S>,
    held: &Vec<bool>,
) -> (r: Vec<Vec<S>>)
    requires
        u@.len() == x@.len() == held@.len(),
        links@.len() % 2 == 0,
    ensures
        row_seqs(r@) == held_rhs(u@, link_views(links@), state_view(*x, *held)),
        r@.len() == held@.len() + links@.len() / 2,
        of_width(row_seqs(r@), 1),
{
    let ghost edges = link_views(links@);
    let ghost state = state_view(*x, *held);
    let ghost all = held_rhs(u@, edges, state);
    let mut out: Vec<Vec<S>> = Vec::new();
    assert(row_seqs(out@) =~= all.take(0));
    let mut i: usize = 0;
    while i < u.len()
        invariant
            i <= u@.len() == x@.len() == held@.len(),
            edges == link_views(links@),
            state == state_view(*x, *held),
            all == held_rhs(u@, edges, state),
            row_seqs(out@) == all.take(i as int),
            out@.len() == i,
        decreases u@.len() - i,
    {
        let mut row: Vec<S> = Vec::new();
        if held[i] {
            row.push(x[i]);
        } else {
            row.push(u[i]);
        }
        let ghost before = out@;
        out.push(row);
        proof {
            assert(row@ =~= all[i as int]);
            assert(row_seqs(out@) =~= row_seqs(before).push(row@));
            assert(all.take(i + 1) =~= all.take(i as int).push(all[i as int]));
        }
        i = i + 1;
    }
    let count: usize = links.len() / 2;
    let ghost order = u@.len();
    let mut c: usize = 0;
    while c < count
        invariant
            c <= count == links@.len() / 2,
            order == u@.len() == x@.len() == held@.len(),
            edges == link_views(links@),
            state == state_view(*x, *held),
            all == held_rhs(u@, edges, state),
            row_seqs(out@) == all.take(order + c),
            out@.len() == order + c,
        decreases count - c,
    {
        let mut row: Vec<S> = Vec::new();
        assert(links.len() == links@.len());
        row.push(links[2 * c].delta);
        let ghost before = out@;
        out.push(row);
        proof {
            assert(row@ =~= all[order + c]);
            assert(row_seqs(out@) =~= row_seqs(before).push(row@));
            assert(all.take(order + c + 1) =~= all.take(order + c).push(all[order + c]));
        }
        c = c + 1;
    }
    assert(all.take(order + c) =~= all);
    out
}

impl<S: Scalar> MnaSystem<S> {
    /// The operating point at `t = 0` with every declared `ic=` held, in `unknowns` order.
    ///
    /// Where [`MnaSystem::initial_state`] leaves the unknowns without a condition at rest,
    /// this lets the rest of the circuit follow: a capacitor with a condition is a voltage
    /// source, the current of an inductor with a condition is the declared one, and storage
    /// without a condition is an open or a short circuit.
    ///
    /// Returns `Ok(None)` when the netlist declares no `ic=` at all. `tolerance` is the
    /// magnitude up to which a pivot counts as zero.
    pub fn initial_operating_point(&self, values: &NameMap<S>, tolerance: S) -> (r: Result<
        Option<Vec<S>>,
        InitialStateError<S>,
    >)
        requires
            self.well_formed(),
        ensures
            match r {
                Ok(None) => self.initial_conditions@.len() == 0,
                Ok(Some(x)) => {
                    &&& self.initial_conditions@.len() > 0
                    &&& x@.len() == self.unknowns@.len()
                    &&& held_point(
                        *self,
                        environment(self@.parameters, values@),
                        tolerance,
                    ) == Ok::<Seq<S>, Obstacle<S>>(x@)
                },
                Err(error) => {
                    &&& self.initial_conditions@.len() > 0
                    &&& held_point(
                        *self,
                        environment(self@.parameters, values@),
                        tolerance,
                    ) == Err::<Seq<S>, Obstacle<S>>(error@)
                },
            },
    {
        if self.initial_conditions.len() == 0 {
            return Ok(None);
        }
        let order: usize = self.unknowns.len();
        let env = build_environment(&self.parameter_defaults, values);
        let mut x: Vec<S> = Vec::new();
        let mut held: Vec<bool> = Vec::new();
        let mut i: usize = 0;
        while i < order
            invariant
                i <= order,
                x@ == Seq::new(i as nat, |j: int| S::nought()),
                held@ == Seq::new(i as nat, |j: int| false),
            decreases order - i,
        {
            x.push(S::zero());
            held.push(false);
            i = i + 1;
            assert(x@ =~= Seq::new(i as nat, |j: int| S::nought()));
            assert(held@ =~= Seq::new(i as nat, |j: int| false));
        }
        match assign_currents(&self.initial_conditions, &env, &mut x, &mut held) {
            Ok(_) => {},
            Err(error) => {
                return Err(error);
            },
        }
        let links = match collect_links(
            &self.initial_conditions,
            &env,
            Ghost(order as nat),
        ) {
            Ok(links) => links,
            Err(error) => {
                return Err(error);
            },
        };
        proof {
            lemma_edges_paired(self@.initial, env@, 0, Seq::empty());
            assert(link_views(links@).len() == links@.len());
        }
        let numeric = match self.evaluate(values) {
            Ok(numeric) => numeric,
            Err(error) => {
                return Err(InitialStateError::Evaluation(error));
            },
        };
        proof {
            lemma_evaluation_rows(*self, env@, numeric);
            assert(text::texts(numeric.unknowns@).len() == numeric.unknowns@.len());
            assert(text::texts(self.unknowns@).len() == self.unknowns@.len());
        }
        let coefficients = held_rows(&numeric.a, &links, &held);
        let rhs = held_values(&numeric.u, &links, &x, &held);
        match solve_rows(&coefficients, &rhs, 1, tolerance) {
            Ok(rows) => {
                let ghost target = Seq::new(order as nat, |i: int| row_seqs(rows@)[i][0]);
                let mut point: Vec<S> = Vec::new();
                let mut i: usize = 0;
                while i < order
                    invariant
                        i <= order <= rows@.len(),
                        of_width(row_seqs(rows@), 1),
                        target == Seq::new(order as nat, |i: int| row_seqs(rows@)[i][0]),
                        point@ == target.take(i as int),
                    decreases order - i,
                {
                    assert(row_seqs(rows@)[i as int].len() == 1);
                    point.push(rows[i][0]);
                    i = i + 1;
                    assert(target.take(i as int) =~= target.take(i - 1).push(target[i - 1]));
                }
                assert(target.take(i as int) =~= target);
                Ok(Some(point))
            },
            Err(col) => {
                let constraint = if col < order {
                    assert(self@.unknowns[col as int] == self.unknowns@[col as int]@);
                    self.unknowns[col].clone()
                } else {
                    assert(links.len() == links@.len());
                    assert(coefficients@.len() == order + links@.len() / 2);
                    assert(2 * (links@.len() / 2) <= links@.len());
                    assert(col - order < links@.len() / 2);
                    let at: usize = 2 * (col - order);
                    assert(link_views(links@)[at as int].element == links@[at as int].element@);
                    links[at].element.clone()
                };
                Err(InitialStateError::NoUniqueOperatingPoint { constraint })
            },
        }
    }
}

/// The customary tolerance of [`MnaSystem::initial_state`].
pub fn default_initial_state_tolerance<S: Scalar>() -> (r: S)
    ensures
        r == S::decade(-12),
{
    S::power_of_ten(-12)
}

} // verus!
