//! The starting state meets the declared conditions, apart from rounding.

use crate::elimination_laws::{law_solution_solves, tolerates_zero};
use crate::expr;
use crate::field::{
    column_of, combination, exact, lemma_combination_congruent, lemma_combination_unit, lemma_difference, lemma_minus_one,
    lemma_negation, lemma_negation_of_sum, lemma_negation_twice, lemma_product_one,
    lemma_product_zero, lemma_sum_associates, lemma_sum_commutes, lemma_sum_zero,
};
use crate::initial_state::{
    assignment, contradict, currents_from, edges_from, expanded_from, held_matrix, held_point,
    held_rhs, incidence_sign, lemma_short_walk, next_root_from, potentials_from, reached_at,
    vertex_before, walked, with_value, Assignment, Edge, Potentials,
};
use crate::numeric::{numeric_rows, numeric_u, solution};
use crate::reduction_laws::lemma_solution_shape;
use crate::scalar::Scalar;
use crate::system::{initial_within, Initial, MnaSystem};
use vstd::prelude::*;

verus! {

// Reached vertices

proof fn lemma_reached<S>(found: Potentials<S>, vertex: Option<usize>, from: int)
    requires
        0 <= from <= found.len(),
    ensures
        from <= reached_at(found, vertex, from) <= found.len(),
        reached_at(found, vertex, from) < found.len() ==> found[reached_at(
            found,
            vertex,
            from,
        )].0 == vertex,
        forall|i: int|
            from <= i < reached_at(found, vertex, from) ==> (#[trigger] found[i]).0 != vertex,
    decreases found.len() - from,
{
    if from < found.len() && found[from].0 != vertex {
        lemma_reached(found, vertex, from + 1);
    }
}

/// Every vertex is reached once.
spec fn each_once<S>(found: Potentials<S>) -> bool {
    forall|i: int, j: int|
        0 <= i < j < found.len() ==> (#[trigger] found[i]).0 != (#[trigger] found[j]).0
}

/// The vertex in a place is found in that place.
proof fn lemma_found_where<S>(found: Potentials<S>, i: int)
    requires
        each_once(found),
        0 <= i < found.len(),
    ensures
        reached_at(found, found[i].0, 0) == i,
{
    lemma_reached(found, found[i].0, 0);
    let at = reached_at(found, found[i].0, 0);
    if at < i {
        assert(found[at].0 != found[i].0);
    } else if at > i {
        assert(found[i].0 != found[i].0);
    }
}

/// What was reached stays where it is when more is reached.
proof fn lemma_still_reached<S>(
    found: Potentials<S>,
    more: Potentials<S>,
    vertex: Option<usize>,
    from: int,
)
    requires
        0 <= from <= found.len() <= more.len(),
        forall|i: int| 0 <= i < found.len() ==> #[trigger] more[i] == found[i],
        reached_at(found, vertex, from) < found.len(),
    ensures
        reached_at(more, vertex, from) == reached_at(found, vertex, from),
    decreases found.len() - from,
{
    assert(more[from] == found[from]);
    if found[from].0 != vertex {
        lemma_still_reached(found, more, vertex, from + 1);
    }
}

/// Every reached vertex is the start of an edge.
spec fn anchored<S>(found: Potentials<S>, edges: Seq<Edge<S>>) -> bool {
    forall|i: int| 0 <= i < found.len() ==> starts_edge(edges, (#[trigger] found[i]).0)
}

/// An edge starts at a vertex.
pub open spec fn starts_edge<S>(edges: Seq<Edge<S>>, vertex: Option<usize>) -> bool {
    exists|e: int| 0 <= e < edges.len() && (#[trigger] edges[e]).from == vertex
}

/// Every edge ends where another one starts.
spec fn two_way<S>(edges: Seq<Edge<S>>) -> bool {
    forall|e: int| 0 <= e < edges.len() ==> starts_edge(edges, (#[trigger] edges[e]).to)
}

/// The potential at the end of an edge is the one that the edge implies, or does not
/// contradict it.
spec fn edge_holds<S: Scalar>(
    found: Potentials<S>,
    tolerance: S,
    at: int,
    edge: Edge<S>,
) -> bool {
    let there = reached_at(found, edge.to, 0);
    let implied = found[at].1.difference(edge.delta);
    there < found.len() && (found[there].1 == implied || !contradict(
        found[there].1,
        implied,
        tolerance,
    ))
}

spec fn extends<S>(more: Potentials<S>, found: Potentials<S>) -> bool {
    found.len() <= more.len() && forall|i: int|
        0 <= i < found.len() ==> #[trigger] more[i] == found[i]
}

proof fn lemma_edge_still_holds<S: Scalar>(
    found: Potentials<S>,
    more: Potentials<S>,
    tolerance: S,
    at: int,
    edge: Edge<S>,
)
    requires
        extends(more, found),
        0 <= at < found.len(),
        edge_holds(found, tolerance, at, edge),
    ensures
        edge_holds(more, tolerance, at, edge),
{
    lemma_reached(found, edge.to, 0);
    lemma_still_reached(found, more, edge.to, 0);
    let there = reached_at(found, edge.to, 0);
    assert(more[there] == found[there]);
    assert(more[at] == found[at]);
}

proof fn lemma_expanded<S: Scalar>(
    edges: Seq<Edge<S>>,
    tolerance: S,
    at: int,
    e: int,
    found: Potentials<S>,
)
    requires
        0 <= at < found.len(),
        0 <= e <= edges.len(),
        two_way(edges),
        each_once(found),
        anchored(found, edges),
    ensures
        expanded_from(edges, tolerance, at, e, found) matches Ok(more) ==> {
            &&& extends(more, found)
            &&& each_once(more)
            &&& anchored(more, edges)
            &&& forall|f: int|
                e <= f < edges.len() && (#[trigger] edges[f]).from == found[at].0 ==> edge_holds(
                    more,
                    tolerance,
                    at,
                    edges[f],
                )
        },
    decreases edges.len() - e,
{
    if e < edges.len() {
        let edge = edges[e];
        if edge.from != found[at].0 {
            lemma_expanded(edges, tolerance, at, e + 1, found);
        } else {
            let implied = found[at].1.difference(edge.delta);
            let there = reached_at(found, edge.to, 0);
            lemma_reached(found, edge.to, 0);
            let next = if there < found.len() {
                found
            } else {
                found.push((edge.to, implied))
            };
            if there >= found.len() {
                assert(next[found.len() as int] == (edge.to, implied));
                assert(each_once(next));
                assert forall|i: int| 0 <= i < next.len() implies starts_edge(
                    edges,
                    (#[trigger] next[i]).0,
                ) by {
                    if i < found.len() {
                        assert(next[i] == found[i]);
                    } else {
                        assert(starts_edge(edges, edges[e].to));
                    }
                }
                lemma_found_where(next, found.len() as int);
            }
            if there >= found.len() || !contradict(found[there].1, implied, tolerance) {
                assert(edge_holds(next, tolerance, at, edge));
                lemma_expanded(edges, tolerance, at, e + 1, next);
                if let Ok(more) = expanded_from(edges, tolerance, at, e, found) {
                    lemma_edge_still_holds(next, more, tolerance, at, edge);
                    assert forall|i: int| 0 <= i < found.len() implies #[trigger] more[i]
                        == found[i] by {
                        assert(more[i] == next[i]);
                    }
                    assert forall|f: int|
                        e <= f < edges.len() && (#[trigger] edges[f]).from
                            == found[at].0 implies edge_holds(more, tolerance, at, edges[f]) by {
                        assert(next[at] == found[at]);
                    }
                }
            }
        }
    }
}

// Roots

proof fn lemma_no_root<S>(
    edges: Seq<Edge<S>>,
    found: Potentials<S>,
    e: int,
    best: Option<Option<usize>>,
)
    requires
        0 <= e <= edges.len(),
    ensures
        next_root_from(edges, found, e, best) is None ==> {
            &&& best is None
            &&& forall|f: int|
                e <= f < edges.len() ==> reached_at(found, (#[trigger] edges[f]).from, 0)
                    < found.len()
        },
    decreases edges.len() - e,
{
    if e < edges.len() {
        let next = if reached_at(found, edges[e].from, 0) < found.len() {
            best
        } else {
            match best {
                None => Some(edges[e].from),
                Some(b) => if vertex_before(edges[e].from, b) {
                    Some(edges[e].from)
                } else {
                    best
                },
            }
        };
        lemma_no_root(edges, found, e + 1, next);
    }
}

proof fn lemma_root<S>(
    edges: Seq<Edge<S>>,
    found: Potentials<S>,
    e: int,
    best: Option<Option<usize>>,
)
    requires
        0 <= e <= edges.len(),
        best matches Some(b) ==> starts_edge(edges, b) && reached_at(found, b, 0) >= found.len(),
    ensures
        next_root_from(edges, found, e, best) matches Some(root) ==> {
            &&& starts_edge(edges, root)
            &&& reached_at(found, root, 0) >= found.len()
        },
        next_root_from(edges, found, e, best) is Some || best is None,
        best == Some(None::<usize>) ==> next_root_from(edges, found, e, best) == best,
        forall|f: int|
            e <= f < edges.len() && (#[trigger] edges[f]).from is None && reached_at(
                found,
                None,
                0,
            ) >= found.len() ==> next_root_from(edges, found, e, best) == Some(None::<usize>),
    decreases edges.len() - e,
{
    if e < edges.len() {
        let next = if reached_at(found, edges[e].from, 0) < found.len() {
            best
        } else {
            match best {
                None => Some(edges[e].from),
                Some(b) => if vertex_before(edges[e].from, b) {
                    Some(edges[e].from)
                } else {
                    best
                },
            }
        };
        assert(starts_edge(edges, edges[e].from));
        lemma_root(edges, found, e + 1, next);
    }
}

// The walk

/// The edges that leave the first `n` reached vertices hold.
spec fn walked_edges_hold<S: Scalar>(
    edges: Seq<Edge<S>>,
    found: Potentials<S>,
    tolerance: S,
    n: int,
) -> bool {
    forall|i: int, e: int|
        0 <= i < n && i < found.len() && 0 <= e < edges.len() && (#[trigger] edges[e]).from == (
        #[trigger] found[i]).0 ==> edge_holds(found, tolerance, i, edges[e])
}

/// Where ground is on an edge, it is reached first, and held at zero.
spec fn ground_rests<S: Scalar>(edges: Seq<Edge<S>>, found: Potentials<S>) -> bool {
    starts_edge(edges, None) ==> found.len() > 0 && found[0] == (None::<usize>, S::nought())
}

/// What the `n`-th step of the walk begins with: what is found, and a root where all of it has
/// been walked from.
spec fn step_start<S: Scalar>(edges: Seq<Edge<S>>, found: Potentials<S>, n: int) -> Option<
    Potentials<S>,
> {
    if found.len() >= n {
        Some(found)
    } else {
        match next_root_from(edges, found, 0, None) {
            Some(root) => Some(found.push((root, S::nought()))),
            None => None,
        }
    }
}

proof fn lemma_step_start<S: Scalar>(edges: Seq<Edge<S>>, found: Potentials<S>, n: int)
    requires
        two_way(edges),
        each_once(found),
        anchored(found, edges),
        found.len() >= n - 1,
    ensures
        step_start(edges, found, n) matches Some(start) ==> {
            &&& extends(start, found)
            &&& each_once(start)
            &&& anchored(start, edges)
            &&& start.len() >= n
        },
{
    if found.len() < n {
        lemma_root(edges, found, 0, None);
        if let Some(root) = next_root_from(edges, found, 0, None) {
            let start = found.push((root, S::nought()));
            lemma_reached(found, root, 0);
            assert forall|i: int, j: int| 0 <= i < j < start.len() implies (#[trigger] start[i]).0
                != (#[trigger] start[j]).0 by {
                assert(start[i] == found[i]);
                if j < found.len() {
                    assert(start[j] == found[j]);
                }
            }
            assert forall|i: int| 0 <= i < start.len() implies starts_edge(
                edges,
                (#[trigger] start[i]).0,
            ) by {
                if i < found.len() {
                    assert(start[i] == found[i]);
                }
            }
        }
    }
}

proof fn lemma_step_holds<S: Scalar>(
    edges: Seq<Edge<S>>,
    tolerance: S,
    found: Potentials<S>,
    start: Potentials<S>,
    more: Potentials<S>,
    n: int,
)
    requires
        1 <= n <= start.len(),
        found.len() >= n - 1,
        extends(start, found),
        extends(more, start),
        walked_edges_hold(edges, found, tolerance, n - 1),
        forall|f: int|
            0 <= f < edges.len() && (#[trigger] edges[f]).from == start[n - 1].0 ==> edge_holds(
                more,
                tolerance,
                n - 1,
                edges[f],
            ),
    ensures
        walked_edges_hold(edges, more, tolerance, n),
{
    assert(extends(more, found)) by {
        assert forall|j: int| 0 <= j < found.len() implies #[trigger] more[j] == found[j] by {
            assert(start[j] == found[j]);
            assert(more[j] == start[j]);
        }
    }
    assert forall|i: int, e: int|
        0 <= i < n && i < more.len() && 0 <= e < edges.len() && (#[trigger] edges[e]).from == (
        #[trigger] more[i]).0 implies edge_holds(more, tolerance, i, edges[e]) by {
        assert(more[i] == start[i]);
        if i < n - 1 {
            assert(start[i] == found[i]);
            assert(edges[e].from == found[i].0);
            assert(edge_holds(found, tolerance, i, edges[e]));
            lemma_edge_still_holds(found, more, tolerance, i, edges[e]);
        }
    }
}

proof fn lemma_walked<S: Scalar>(edges: Seq<Edge<S>>, tolerance: S, n: nat)
    requires
        two_way(edges),
    ensures
        walked(edges, tolerance, n) matches Ok(found) ==> {
            &&& each_once(found)
            &&& anchored(found, edges)
            &&& walked_edges_hold(edges, found, tolerance, n as int)
        },
    decreases n,
{
    if n > 0 {
        let less = (n - 1) as nat;
        lemma_walked(edges, tolerance, less);
        if let Ok(found) = walked(edges, tolerance, less) {
            lemma_short_walk(edges, tolerance, less);
            if found.len() < less {
                assert(next_root_from(edges, found, 0, None) is None);
                assert(walked(edges, tolerance, n) == walked(edges, tolerance, less));
                assert(walked_edges_hold(edges, found, tolerance, n as int)) by {
                    assert forall|i: int, e: int|
                        0 <= i < n && i < found.len() && 0 <= e < edges.len() && (
                        #[trigger] edges[e]).from == (#[trigger] found[i]).0 implies edge_holds(
                        found,
                        tolerance,
                        i,
                        edges[e],
                    ) by {
                        assert(i < less);
                    }
                }
            } else {
                lemma_step_start(edges, found, n as int);
                match step_start(edges, found, n as int) {
                    Some(start) => {
                        lemma_expanded(edges, tolerance, n - 1, 0, start);
                        if let Ok(more) = expanded_from(edges, tolerance, n - 1, 0, start) {
                            lemma_step_holds(edges, tolerance, found, start, more, n as int);
                        }
                    },
                    None => {
                        assert(found.len() == less);
                    },
                }
            }
        }
    }
}

/// Where ground is on an edge, the walk begins there.
proof fn lemma_ground<S: Scalar>(edges: Seq<Edge<S>>, tolerance: S, n: nat)
    requires
        two_way(edges),
        n > 0,
    ensures
        walked(edges, tolerance, n) matches Ok(found) ==> ground_rests(edges, found),
    decreases n,
{
    let less = (n - 1) as nat;
    lemma_walked(edges, tolerance, less);
    if starts_edge(edges, None) {
        let e = choose|e: int|
            0 <= e < edges.len() && (#[trigger] edges[e]).from == None::<usize>;
        if n == 1 {
            let none = Seq::<(Option<usize>, S)>::empty();
            assert(walked(edges, tolerance, 0) == Ok::<
                Potentials<S>,
                crate::initial_state::Obstacle<S>,
            >(none));
            lemma_root(edges, none, 0, None);
            assert(reached_at(none, None, 0) >= none.len());
            assert(edges[e].from is None);
            assert(next_root_from(edges, none, 0, None) == Some(None::<usize>));
            lemma_step_start(edges, none, 1);
            let start = none.push((None::<usize>, S::nought()));
            lemma_expanded(edges, tolerance, 0, 0, start);
            if let Ok(more) = expanded_from(edges, tolerance, 0, 0, start) {
                assert(more[0] == start[0]);
            }
        } else {
            lemma_ground(edges, tolerance, less);
            if let Ok(found) = walked(edges, tolerance, less) {
                lemma_short_walk(edges, tolerance, less);
                if found.len() >= less {
                    lemma_step_start(edges, found, n as int);
                    if let Some(start) = step_start(edges, found, n as int) {
                        lemma_expanded(edges, tolerance, n - 1, 0, start);
                        assert(start[0] == found[0]);
                        if let Ok(more) = expanded_from(edges, tolerance, n - 1, 0, start) {
                            assert(more[0] == start[0]);
                        }
                    }
                }
            }
        }
    }
}

/// There are no more reached vertices than edges; and where there are as many, every edge
/// starts at a reached one.
proof fn lemma_count<S>(edges: Seq<Edge<S>>, found: Potentials<S>)
    requires
        each_once(found),
        anchored(found, edges),
    ensures
        found.len() <= edges.len(),
        found.len() == edges.len() ==> forall|e: int|
            0 <= e < edges.len() ==> reached_at(found, (#[trigger] edges[e]).from, 0)
                < found.len(),
{
    let reached = Seq::new(found.len(), |i: int| found[i].0);
    let starts = Seq::new(edges.len(), |e: int| edges[e].from);
    assert(reached.no_duplicates()) by {
        assert forall|i: int, j: int|
            0 <= i < reached.len() && 0 <= j < reached.len() && i != j implies reached[i]
            != reached[j] by {
            assert(found[i].0 == reached[i]);
            assert(found[j].0 == reached[j]);
        }
    }
    reached.unique_seq_to_set();
    starts.lemma_cardinality_of_set();
    vstd::seq_lib::seq_to_set_is_finite(reached);
    vstd::seq_lib::seq_to_set_is_finite(starts);
    let (x, y) = (reached.to_set(), starts.to_set());
    assert(x.subset_of(y)) by {
        assert forall|v: Option<usize>| x.contains(v) implies y.contains(v) by {
            let i = choose|i: int| 0 <= i < reached.len() && reached[i] == v;
            assert(starts_edge(edges, found[i].0));
            let e = choose|e: int| 0 <= e < edges.len() && (#[trigger] edges[e]).from == v;
            assert(starts[e] == v);
        }
    }
    vstd::set_lib::lemma_len_subset(x, y);
    if found.len() == edges.len() {
        vstd::set_lib::lemma_subset_equality(x, y);
        assert forall|e: int| 0 <= e < edges.len() implies reached_at(
            found,
            (#[trigger] edges[e]).from,
            0,
        ) < found.len() by {
            assert(starts[e] == edges[e].from);
            assert(y.contains(starts[e]));
            assert(x.contains(starts[e]));
            let i = choose|i: int| 0 <= i < reached.len() && reached[i] == starts[e];
            lemma_found_where(found, i);
        }
    }
}

/// When the walk is over, every edge holds.
proof fn lemma_walk_is_complete<S: Scalar>(edges: Seq<Edge<S>>, tolerance: S, e: int)
    requires
        two_way(edges),
        0 <= e < edges.len(),
    ensures
        walked(edges, tolerance, edges.len()) matches Ok(found) ==> {
            let at = reached_at(found, edges[e].from, 0);
            at < found.len() && edge_holds(found, tolerance, at, edges[e])
        },
{
    let n = edges.len();
    lemma_walked(edges, tolerance, n);
    lemma_short_walk(edges, tolerance, n);
    if let Ok(found) = walked(edges, tolerance, n) {
        lemma_count(edges, found);
        lemma_no_root(edges, found, 0, None);
        let at = reached_at(found, edges[e].from, 0);
        lemma_reached(found, edges[e].from, 0);
        assert(at < found.len());
        assert(found[at].0 == edges[e].from);
    }
}

// From conditions to edges

/// Every edge starts and ends at an unknown of the system, or at ground.
spec fn edges_within<S>(edges: Seq<Edge<S>>, order: nat) -> bool {
    forall|e: int|
        0 <= e < edges.len() ==> {
            let edge = #[trigger] edges[e];
            &&& edge.from is Some ==> edge.from->0 < order
            &&& edge.to is Some ==> edge.to->0 < order
        }
}

/// The edges come in pairs, one in each direction.
spec fn in_pairs<S>(edges: Seq<Edge<S>>) -> bool {
    &&& edges.len() % 2 == 0
    &&& forall|j: int|
        #![trigger edges[2 * j]]
        0 <= 2 * j < edges.len() ==> edges[2 * j].from == edges[2 * j + 1].to && edges[2 * j].to
            == edges[2 * j + 1].from
}

proof fn lemma_pairs_are_two_way<S>(edges: Seq<Edge<S>>)
    requires
        in_pairs(edges),
    ensures
        two_way(edges),
{
    assert forall|e: int| 0 <= e < edges.len() implies starts_edge(
        edges,
        (#[trigger] edges[e]).to,
    ) by {
        let j = e / 2;
        assert(edges[2 * j].from == edges[2 * j + 1].to);
        if e == 2 * j {
            assert(edges[2 * j + 1].from == edges[e].to);
        } else {
            assert(e == 2 * j + 1);
            assert(edges[2 * j].from == edges[e].to);
        }
    }
}

proof fn lemma_edges_from<S: Scalar>(
    conditions: Seq<Initial<S>>,
    values: Map<Seq<char>, S>,
    i: int,
    edges: Seq<Edge<S>>,
    order: nat,
)
    requires
        0 <= i <= conditions.len(),
        in_pairs(edges),
        edges_within(edges, order),
        forall|j: int| 0 <= j < conditions.len() ==> initial_within(#[trigger] conditions[j], order),
    ensures
        edges_from(conditions, values, i, edges) matches Ok(all) ==> {
            &&& in_pairs(all)
            &&& edges_within(all, order)
            &&& edges.len() <= all.len()
            &&& forall|e: int| 0 <= e < edges.len() ==> #[trigger] all[e] == edges[e]
        },
    decreases conditions.len() - i,
{
    if i < conditions.len() {
        match conditions[i] {
            Initial::Voltage { element, positive, negative, value } => {
                if let Ok(v) = expr::value(value, values) {
                    let more = edges.push(
                        Edge { from: positive, to: negative, delta: v, element },
                    ).push(Edge { from: negative, to: positive, delta: v.negation(), element });
                    assert(initial_within(conditions[i], order));
                    assert(in_pairs(more)) by {
                        assert forall|j: int|
                            #![trigger more[2 * j]]
                            0 <= 2 * j < more.len() implies more[2 * j].from == more[2 * j + 1].to
                            && more[2 * j].to == more[2 * j + 1].from by {
                            if 2 * j < edges.len() {
                                assert(more[2 * j] == edges[2 * j]);
                                assert(2 * j + 1 < edges.len());
                                assert(more[2 * j + 1] == edges[2 * j + 1]);
                            } else {
                                assert(2 * j == edges.len());
                            }
                        }
                    }
                    assert(edges_within(more, order)) by {
                        assert forall|e: int| 0 <= e < more.len() implies {
                            let edge = #[trigger] more[e];
                            &&& edge.from is Some ==> edge.from->0 < order
                            &&& edge.to is Some ==> edge.to->0 < order
                        } by {
                            if e < edges.len() {
                                assert(more[e] == edges[e]);
                            }
                        }
                    }
                    lemma_edges_from(conditions, values, i + 1, more, order);
                    if let Ok(all) = edges_from(conditions, values, i, edges) {
                        assert forall|e: int| 0 <= e < edges.len() implies #[trigger] all[e]
                            == edges[e] by {
                            assert(all[e] == more[e]);
                        }
                    }
                }
            },
            Initial::Current { .. } => {
                lemma_edges_from(conditions, values, i + 1, edges, order);
            },
        }
    }
}

/// The edge that a capacitor's condition makes.
proof fn lemma_edge_of<S: Scalar>(
    conditions: Seq<Initial<S>>,
    values: Map<Seq<char>, S>,
    i: int,
    edges: Seq<Edge<S>>,
    order: nat,
    k: int,
) -> (e: int)
    requires
        0 <= i <= k < conditions.len(),
        in_pairs(edges),
        edges_within(edges, order),
        forall|j: int| 0 <= j < conditions.len() ==> initial_within(#[trigger] conditions[j], order),
        conditions[k] is Voltage,
    ensures
        edges_from(conditions, values, i, edges) matches Ok(all) ==> {
            &&& 0 <= e < all.len()
            &&& e % 2 == 0
            &&& conditions[k] matches Initial::Voltage { element, positive, negative, value }
                && expr::value(value, values) is Ok && all[e] == (Edge {
                from: positive,
                to: negative,
                delta: expr::value(value, values)->Ok_0,
                element,
            })
        },
    decreases conditions.len() - i,
{
    lemma_edges_from(conditions, values, i, edges, order);
    match conditions[i] {
        Initial::Voltage { element, positive, negative, value } => {
            match expr::value(value, values) {
                Ok(v) => {
                    let first = Edge { from: positive, to: negative, delta: v, element };
                    let more = edges.push(first).push(
                        Edge { from: negative, to: positive, delta: v.negation(), element },
                    );
                    assert(initial_within(conditions[i], order));
                    assert(in_pairs(more)) by {
                        assert forall|j: int|
                            #![trigger more[2 * j]]
                            0 <= 2 * j < more.len() implies more[2 * j].from == more[2 * j + 1].to
                            && more[2 * j].to == more[2 * j + 1].from by {
                            if 2 * j < edges.len() {
                                assert(more[2 * j] == edges[2 * j]);
                                assert(2 * j + 1 < edges.len());
                                assert(more[2 * j + 1] == edges[2 * j + 1]);
                            } else {
                                assert(2 * j == edges.len());
                            }
                        }
                    }
                    assert(edges_within(more, order)) by {
                        assert forall|e: int| 0 <= e < more.len() implies {
                            let edge = #[trigger] more[e];
                            &&& edge.from is Some ==> edge.from->0 < order
                            &&& edge.to is Some ==> edge.to->0 < order
                        } by {
                            if e < edges.len() {
                                assert(more[e] == edges[e]);
                            }
                        }
                    }
                    if i == k {
                        lemma_edges_from(conditions, values, i + 1, more, order);
                        let at = edges.len() as int;
                        assert(more[at] == first);
                        if let Ok(all) = edges_from(conditions, values, i, edges) {
                            assert(all[at] == more[at]);
                        }
                        at
                    } else {
                        lemma_edge_of(conditions, values, i + 1, more, order, k)
                    }
                },
                Err(_) => 0,
            }
        },
        Initial::Current { .. } => lemma_edge_of(conditions, values, i + 1, edges, order, k),
    }
}

// From potentials to the state

/// The potential of a node in a state; ground is at zero.
pub open spec fn potential<S: Scalar>(state: Assignment<S>, node: Option<usize>) -> S {
    match node {
        Some(i) => state.x[i as int],
        None => S::nought(),
    }
}

/// No vertex from `i` on is the given unknown.
spec fn untouched<S>(found: Potentials<S>, i: int, n: int) -> bool {
    forall|j: int| i <= j < found.len() ==> (#[trigger] found[j]).0 != Some(n as usize)
}

proof fn lemma_potentials_from<S: Scalar>(found: Potentials<S>, i: int, state: Assignment<S>)
    requires
        0 <= i <= found.len(),
        each_once(found),
        state.x.len() == state.assigned.len(),
        forall|j: int|
            0 <= j < found.len() && (#[trigger] found[j]).0 is Some ==> found[j].0->0
                < state.x.len(),
    ensures
        ({
            let after = potentials_from(found, i, state);
            &&& after.x.len() == state.x.len()
            &&& after.assigned.len() == state.x.len()
            &&& forall|j: int|
                i <= j < found.len() && (#[trigger] found[j]).0 is Some
                    ==> after.x[found[j].0->0 as int] == found[j].1
            &&& forall|n: int|
                0 <= n < state.x.len() && #[trigger] untouched(found, i, n) ==> after.x[n]
                    == state.x[n]
            &&& forall|n: int|
                0 <= n < state.x.len() && !(#[trigger] after.assigned[n]) ==> after.x[n]
                    == state.x[n] && !state.assigned[n]
        }),
    decreases found.len() - i,
{
    if i < found.len() {
        match found[i].0 {
            Some(index) => {
                let next = with_value(state, index as int, found[i].1);
                lemma_potentials_from(found, i + 1, next);
                let after = potentials_from(found, i, state);
                assert forall|j: int|
                    i <= j < found.len() && (#[trigger] found[j]).0 is Some implies after.x[
                found[j].0->0 as int] == found[j].1 by {
                    if j == i {
                        let n = index as int;
                        assert forall|m: int| i + 1 <= m < found.len() implies (
                        #[trigger] found[m]).0 != Some(n as usize) by {
                            assert(found[i].0 != found[m].0);
                        }
                        assert(untouched(found, i + 1, n));
                    }
                }
                assert forall|n: int|
                    0 <= n < state.x.len() && #[trigger] untouched(found, i, n) implies after.x[n]
                    == state.x[n] by {
                    assert(found[i].0 != Some(n as usize));
                    assert(next.x[n] == state.x[n]);
                    assert(untouched(found, i + 1, n));
                }
                assert forall|n: int|
                    0 <= n < state.x.len() && !(#[trigger] after.assigned[n]) implies after.x[n]
                    == state.x[n] && !state.assigned[n] by {
                    assert(after.x[n] == next.x[n] && !next.assigned[n]);
                }
            },
            None => {
                lemma_potentials_from(found, i + 1, state);
                let after = potentials_from(found, i + 1, state);
                assert(after == potentials_from(found, i, state));
                assert forall|n: int|
                    0 <= n < state.x.len() && #[trigger] untouched(found, i, n) implies after.x[n]
                    == state.x[n] by {
                    assert(untouched(found, i + 1, n));
                }
            },
        }
    }
}

proof fn lemma_currents_from<S: Scalar>(
    conditions: Seq<Initial<S>>,
    values: Map<Seq<char>, S>,
    i: int,
    state: Assignment<S>,
)
    requires
        0 <= i <= conditions.len(),
        state.x.len() == state.assigned.len(),
        forall|j: int|
            0 <= j < conditions.len() ==> initial_within(
                #[trigger] conditions[j],
                state.x.len(),
            ),
        forall|n: int|
            0 <= n < state.x.len() && !(#[trigger] state.assigned[n]) ==> state.x[n]
                == S::nought(),
    ensures
        currents_from(conditions, values, i, state) matches Ok(after) ==> {
            &&& after.x.len() == state.x.len()
            &&& after.assigned.len() == state.x.len()
            &&& forall|n: int|
                0 <= n < state.x.len() && !(#[trigger] after.assigned[n]) ==> after.x[n]
                    == S::nought()
        },
    decreases conditions.len() - i,
{
    if i < conditions.len() {
        match conditions[i] {
            Initial::Current { branch, value, .. } => {
                if let Ok(v) = expr::value(value, values) {
                    assert(initial_within(conditions[i], state.x.len()));
                    let next = with_value(state, branch as int, v);
                    assert forall|n: int|
                        0 <= n < next.x.len() && !(#[trigger] next.assigned[n]) implies next.x[n]
                        == S::nought() by {
                        assert(!state.assigned[n]);
                    }
                    lemma_currents_from(conditions, values, i + 1, next);
                }
            },
            Initial::Voltage { .. } => {
                lemma_currents_from(conditions, values, i + 1, state);
            },
        }
    }
}

/// No condition from `i` on fixes the current of a branch.
pub open spec fn not_fixed_again<S: Scalar>(
    conditions: Seq<Initial<S>>,
    i: int,
    branch: usize,
) -> bool {
    forall|j: int|
        i <= j < conditions.len() ==> !(#[trigger] conditions[j] matches Initial::Current {
            branch: b,
            ..
        } && b == branch)
}

proof fn lemma_current_stays<S: Scalar>(
    conditions: Seq<Initial<S>>,
    values: Map<Seq<char>, S>,
    i: int,
    state: Assignment<S>,
    branch: usize,
)
    requires
        0 <= i <= conditions.len(),
        not_fixed_again(conditions, i, branch),
        branch < state.x.len(),
        state.x.len() == state.assigned.len(),
        forall|j: int|
            0 <= j < conditions.len() ==> initial_within(
                #[trigger] conditions[j],
                state.x.len(),
            ),
    ensures
        currents_from(conditions, values, i, state) matches Ok(after) ==> after.x[branch as int]
            == state.x[branch as int] && after.assigned[branch as int]
            == state.assigned[branch as int],
    decreases conditions.len() - i,
{
    if i < conditions.len() {
        match conditions[i] {
            Initial::Current { branch: b, value, .. } => {
                assert(b != branch);
                if let Ok(v) = expr::value(value, values) {
                    lemma_current_stays(
                        conditions,
                        values,
                        i + 1,
                        with_value(state, b as int, v),
                        branch,
                    );
                }
            },
            Initial::Voltage { .. } => {
                lemma_current_stays(conditions, values, i + 1, state, branch);
            },
        }
    }
}

proof fn lemma_current_is_set<S: Scalar>(
    conditions: Seq<Initial<S>>,
    values: Map<Seq<char>, S>,
    i: int,
    state: Assignment<S>,
    k: int,
)
    requires
        0 <= i <= k < conditions.len(),
        conditions[k] is Current,
        not_fixed_again(conditions, k + 1, conditions[k]->branch),
        state.x.len() == state.assigned.len(),
        forall|j: int|
            0 <= j < conditions.len() ==> initial_within(
                #[trigger] conditions[j],
                state.x.len(),
            ),
    ensures
        currents_from(conditions, values, i, state) matches Ok(after) ==> {
            &&& after.assigned[conditions[k]->branch as int]
            &&& expr::value(conditions[k]->Current_value, values) is Ok
            &&& after.x[conditions[k]->branch as int] == expr::value(
                conditions[k]->Current_value,
                values,
            )->Ok_0
        },
    decreases conditions.len() - i,
{
    match conditions[i] {
        Initial::Current { branch, value, .. } => {
            if let Ok(v) = expr::value(value, values) {
                let next = with_value(state, branch as int, v);
                assert(initial_within(conditions[i], state.x.len()));
                if i == k {
                    lemma_current_stays(conditions, values, i + 1, next, branch);
                } else {
                    lemma_current_is_set(conditions, values, i + 1, next, k);
                }
            }
        },
        Initial::Voltage { .. } => {
            lemma_current_is_set(conditions, values, i + 1, state, k);
        },
    }
}

// The laws

/// A tolerance under which potentials that do not contradict each other are equal.
pub open spec fn is_decisive<S: Scalar>(tolerance: S) -> bool {
    forall|a: S, b: S| !#[trigger] contradict(a, b, tolerance) ==> a == b
}

proof fn lemma_difference_moves<S: Scalar>(p: S, n: S, v: S)
    requires
        exact::<S>(),
        n == p.difference(v),
    ensures
        p.difference(n) == v,
{
    lemma_difference(p, v);
    lemma_difference(p, n);
    lemma_negation_of_sum(p, v.negation());
    lemma_negation_twice(v);
    lemma_sum_associates(p, p.negation(), v);
    lemma_negation(p);
    lemma_sum_zero(v);
}

/// In a starting state the voltage across every capacitor with a condition, from its first
/// node to its second, is the declared one.
pub proof fn law_capacitor_conditions_are_met<S: Scalar>(
    conditions: Seq<Initial<S>>,
    values: Map<Seq<char>, S>,
    tolerance: S,
    order: nat,
    k: int,
)
    requires
        exact::<S>(),
        is_decisive(tolerance),
        forall|j: int| 0 <= j < conditions.len() ==> initial_within(#[trigger] conditions[j], order),
        0 <= k < conditions.len(),
    ensures
        assignment(conditions, values, tolerance, order) matches Ok(state) ==> (conditions[k]
            matches Initial::Voltage { positive, negative, value, .. } ==> expr::value(
            value,
            values,
        ) is Ok && potential(state, positive).difference(potential(state, negative))
            == expr::value(value, values)->Ok_0),
{
    let none = Seq::<Edge<S>>::empty();
    let rest = Assignment::<S> {
        x: Seq::new(order, |i: int| S::nought()),
        assigned: Seq::new(order, |i: int| false),
    };
    if let Ok(state) = assignment(conditions, values, tolerance, order) {
        if conditions[k] is Voltage {
            let edges = edges_from(conditions, values, 0, none)->Ok_0;
            let found = walked(edges, tolerance, edges.len())->Ok_0;
            let start = currents_from(conditions, values, 0, rest)->Ok_0;
            lemma_edges_from(conditions, values, 0, none, order);
            let e = lemma_edge_of(conditions, values, 0, none, order, k);
            lemma_pairs_are_two_way(edges);
            lemma_walked(edges, tolerance, edges.len());
            lemma_ground(edges, tolerance, edges.len());
            lemma_walk_is_complete(edges, tolerance, e);
            lemma_currents_from(conditions, values, 0, rest);
            assert forall|j: int| 0 <= j < found.len() && (#[trigger] found[j]).0 is Some implies
                found[j].0->0 < start.x.len() by {
                assert(starts_edge(edges, found[j].0));
                let f = choose|f: int|
                    0 <= f < edges.len() && (#[trigger] edges[f]).from == found[j].0;
                assert(edges[f].from is Some ==> edges[f].from->0 < order);
            }
            lemma_potentials_from(found, 0, start);
            let edge = edges[e];
            let at = reached_at(found, edge.from, 0);
            let there = reached_at(found, edge.to, 0);
            lemma_reached(found, edge.from, 0);
            lemma_reached(found, edge.to, 0);
            lemma_potential_found(edges, found, state, at);
            lemma_potential_found(edges, found, state, there);
            lemma_difference_moves(found[at].1, found[there].1, edge.delta);
        }
    }
}

proof fn lemma_potential_found<S: Scalar>(
    edges: Seq<Edge<S>>,
    found: Potentials<S>,
    state: Assignment<S>,
    at: int,
)
    requires
        each_once(found),
        anchored(found, edges),
        ground_rests(edges, found),
        0 <= at < found.len(),
        forall|j: int|
            0 <= j < found.len() && (#[trigger] found[j]).0 is Some ==> state.x[
            found[j].0->0 as int] == found[j].1,
    ensures
        potential(state, found[at].0) == found[at].1,
{
    if found[at].0 is None {
        assert(starts_edge(edges, found[at].0));
        if at > 0 {
            assert(found[0].0 != found[at].0);
        }
    }
}

/// In a starting state the current of every inductor with a condition is the declared one: the
/// last one where it has several. The branch is no node of a capacitor's condition.
pub proof fn law_inductor_conditions_are_met<S: Scalar>(
    conditions: Seq<Initial<S>>,
    values: Map<Seq<char>, S>,
    tolerance: S,
    order: nat,
    k: int,
)
    requires
        forall|j: int| 0 <= j < conditions.len() ==> initial_within(#[trigger] conditions[j], order),
        0 <= k < conditions.len(),
        conditions[k] is Current,
        not_fixed_again(conditions, k + 1, conditions[k]->branch),
        forall|j: int|
            0 <= j < conditions.len() ==> (#[trigger] conditions[j] matches Initial::Voltage {
                positive,
                negative,
                ..
            } ==> positive != Some(conditions[k]->branch) && negative != Some(
                conditions[k]->branch,
            )),
    ensures
        assignment(conditions, values, tolerance, order) matches Ok(state) ==> {
            &&& expr::value(conditions[k]->Current_value, values) is Ok
            &&& state.x[conditions[k]->branch as int] == expr::value(
                conditions[k]->Current_value,
                values,
            )->Ok_0
        },
{
    let none = Seq::<Edge<S>>::empty();
    let rest = Assignment::<S> {
        x: Seq::new(order, |i: int| S::nought()),
        assigned: Seq::new(order, |i: int| false),
    };
    let branch = conditions[k]->branch;
    if let Ok(state) = assignment(conditions, values, tolerance, order) {
        let edges = edges_from(conditions, values, 0, none)->Ok_0;
        let found = walked(edges, tolerance, edges.len())->Ok_0;
        let start = currents_from(conditions, values, 0, rest)->Ok_0;
        lemma_current_is_set(conditions, values, 0, rest, k);
        lemma_currents_from(conditions, values, 0, rest);
        lemma_edges_from(conditions, values, 0, none, order);
        lemma_pairs_are_two_way(edges);
        lemma_walked(edges, tolerance, edges.len());
        lemma_edges_avoid(conditions, values, 0, none, branch);
        assert forall|j: int| 0 <= j < found.len() && (#[trigger] found[j]).0 is Some implies
            found[j].0->0 < start.x.len() by {
            assert(starts_edge(edges, found[j].0));
            let f = choose|f: int|
                0 <= f < edges.len() && (#[trigger] edges[f]).from == found[j].0;
            assert(edges[f].from is Some ==> edges[f].from->0 < order);
        }
        lemma_potentials_from(found, 0, start);
        assert(initial_within(conditions[k], order));
        let n = branch as int;
        assert forall|j: int| 0 <= j < found.len() implies (#[trigger] found[j]).0 != Some(
            n as usize,
        ) by {
            assert(starts_edge(edges, found[j].0));
            let f = choose|f: int|
                0 <= f < edges.len() && (#[trigger] edges[f]).from == found[j].0;
            assert(edges[f].from != Some(branch));
        }
        assert(untouched(found, 0, n));
    }
}

proof fn lemma_edges_avoid<S: Scalar>(
    conditions: Seq<Initial<S>>,
    values: Map<Seq<char>, S>,
    i: int,
    edges: Seq<Edge<S>>,
    branch: usize,
)
    requires
        0 <= i <= conditions.len(),
        forall|e: int| 0 <= e < edges.len() ==> (#[trigger] edges[e]).from != Some(branch),
        forall|j: int|
            0 <= j < conditions.len() ==> (#[trigger] conditions[j] matches Initial::Voltage {
                positive,
                negative,
                ..
            } ==> positive != Some(branch) && negative != Some(branch)),
    ensures
        edges_from(conditions, values, i, edges) matches Ok(all) ==> forall|e: int|
            0 <= e < all.len() ==> (#[trigger] all[e]).from != Some(branch),
    decreases conditions.len() - i,
{
    if i < conditions.len() {
        match conditions[i] {
            Initial::Voltage { element, positive, negative, value } => {
                if let Ok(v) = expr::value(value, values) {
                    let more = edges.push(
                        Edge { from: positive, to: negative, delta: v, element },
                    ).push(Edge { from: negative, to: positive, delta: v.negation(), element });
                    assert forall|e: int| 0 <= e < more.len() implies (#[trigger] more[e]).from
                        != Some(branch) by {
                        if e < edges.len() {
                            assert(more[e] == edges[e]);
                        }
                    }
                    lemma_edges_avoid(conditions, values, i + 1, more, branch);
                }
            },
            Initial::Current { .. } => {
                lemma_edges_avoid(conditions, values, i + 1, edges, branch);
            },
        }
    }
}

/// In a starting state every unknown that no condition assigns is at rest.
pub proof fn law_everything_else_is_at_rest<S: Scalar>(
    conditions: Seq<Initial<S>>,
    values: Map<Seq<char>, S>,
    tolerance: S,
    order: nat,
    n: int,
)
    requires
        forall|j: int| 0 <= j < conditions.len() ==> initial_within(#[trigger] conditions[j], order),
        0 <= n < order,
    ensures
        assignment(conditions, values, tolerance, order) matches Ok(state) ==> (
        !state.assigned[n] ==> state.x[n] == S::nought()),
{
    let none = Seq::<Edge<S>>::empty();
    let rest = Assignment::<S> {
        x: Seq::new(order, |i: int| S::nought()),
        assigned: Seq::new(order, |i: int| false),
    };
    if let Ok(state) = assignment(conditions, values, tolerance, order) {
        let edges = edges_from(conditions, values, 0, none)->Ok_0;
        let found = walked(edges, tolerance, edges.len())->Ok_0;
        let start = currents_from(conditions, values, 0, rest)->Ok_0;
        lemma_currents_from(conditions, values, 0, rest);
        lemma_edges_from(conditions, values, 0, none, order);
        lemma_pairs_are_two_way(edges);
        lemma_walked(edges, tolerance, edges.len());
        assert forall|j: int| 0 <= j < found.len() && (#[trigger] found[j]).0 is Some implies
            found[j].0->0 < start.x.len() by {
            assert(starts_edge(edges, found[j].0));
            let f = choose|f: int|
                0 <= f < edges.len() && (#[trigger] edges[f]).from == found[j].0;
            assert(edges[f].from is Some ==> edges[f].from->0 < order);
        }
        lemma_potentials_from(found, 0, start);
    }
}

// The operating point

/// The value of a vertex among the first `n` values; zero for ground and for one beyond them.
spec fn level_below<S: Scalar>(y: Seq<S>, vertex: Option<usize>, n: nat) -> S {
    match vertex {
        Some(i) => if i < n {
            y[i as int]
        } else {
            S::nought()
        },
        None => S::nought(),
    }
}

/// The potential of a node at an operating point; ground is at zero.
pub open spec fn level<S: Scalar>(x: Seq<S>, node: Option<usize>) -> S {
    match node {
        Some(i) => x[i as int],
        None => S::nought(),
    }
}

/// The equation of a voltage source is the difference of the potentials of its nodes.
proof fn lemma_source_row<S: Scalar>(
    row: Seq<S>,
    y: Seq<S>,
    positive: Option<usize>,
    negative: Option<usize>,
    n: nat,
)
    requires
        exact::<S>(),
        forall|j: int|
            0 <= j < n ==> #[trigger] row[j] == incidence_sign::<S>(positive, negative, j),
        n <= usize::MAX,
    ensures
        combination(row, y, n) == level_below(y, positive, n).difference(
            level_below(y, negative, n),
        ),
    decreases n,
{
    let z = S::nought();
    if n == 0 {
        lemma_difference(z, z);
        lemma_negation_twice(z);
        lemma_sum_zero(z);
    } else {
        let less = (n - 1) as nat;
        lemma_source_row(row, y, positive, negative, less);
        assert(row[n - 1] == incidence_sign::<S>(positive, negative, n - 1));
        let (p, q) = (level_below(y, positive, less), level_below(y, negative, less));
        let x = y[n - 1];
        lemma_difference(p, q);
        lemma_product_zero(x);
        lemma_product_one(x);
        lemma_minus_one(x);
        lemma_sum_zero(p.difference(q));
        lemma_sum_zero(x);
        lemma_sum_zero(x.negation());
        let leaves = positive == Some((n - 1) as usize);
        let enters = negative == Some((n - 1) as usize);
        if leaves && enters {
            lemma_difference(x, x);
            lemma_negation(x);
            lemma_difference(z, z);
            lemma_negation_twice(z);
            lemma_sum_zero(z);
        } else if leaves {
            lemma_difference(z, q);
            lemma_difference(x, q);
            lemma_sum_zero(q.negation());
            lemma_sum_commutes(q.negation(), x);
        } else if enters {
            lemma_difference(p, z);
            lemma_negation_twice(z);
            lemma_sum_zero(p);
            lemma_difference(p, x);
        }
    }
}

/// Entries that are zero from `n` on add nothing to a combination.
proof fn lemma_combination_tail<S: Scalar>(row: Seq<S>, y: Seq<S>, n: nat, m: nat)
    requires
        exact::<S>(),
        n <= m,
        forall|j: int| n <= j < m ==> #[trigger] row[j] == S::nought(),
    ensures
        combination(row, y, m) == combination(row, y, n),
    decreases m,
{
    if n < m {
        lemma_combination_tail(row, y, n, (m - 1) as nat);
        assert(row[m - 1] == S::nought());
        lemma_product_zero(y[m - 1]);
        lemma_sum_zero(combination(row, y, n));
    }
}

/// At an operating point every condition is held: the voltage across every capacitor with one
/// is the declared one, and so is the current of every inductor with one.
pub proof fn law_operating_point_holds_conditions<S: Scalar>(
    system: MnaSystem<S>,
    values: Map<Seq<char>, S>,
    tolerance: S,
    k: int,
)
    requires
        exact::<S>(),
        tolerates_zero(tolerance),
        system.well_formed(),
        system.unknowns@.len() <= usize::MAX,
        0 <= k < system@.initial.len(),
    ensures
        held_point(system, values, tolerance) matches Ok(x) ==> match system@.initial[k] {
            Initial::Voltage { positive, negative, value, .. } => {
                &&& expr::value(value, values) is Ok
                &&& level(x, positive).difference(level(x, negative)) == expr::value(
                    value,
                    values,
                )->Ok_0
            },
            Initial::Current { branch, value, .. } => not_fixed_again(
                system@.initial,
                k + 1,
                branch,
            ) ==> expr::value(value, values) is Ok && x[branch as int] == expr::value(
                value,
                values,
            )->Ok_0,
        },
{
    let conditions = system@.initial;
    let order = system.unknowns@.len();
    let none = Seq::<Edge<S>>::empty();
    let rest = Assignment::<S> {
        x: Seq::new(order, |i: int| S::nought()),
        assigned: Seq::new(order, |i: int| false),
    };
    assert forall|j: int| 0 <= j < conditions.len() implies initial_within(
        #[trigger] conditions[j],
        order,
    ) by {
        assert(conditions[j] == system.initial_conditions@[j]@);
    }
    if let Ok(x) = held_point(system, values, tolerance) {
        let state = currents_from(conditions, values, 0, rest)->Ok_0;
        let edges = edges_from(conditions, values, 0, none)->Ok_0;
        lemma_currents_from(conditions, values, 0, rest);
        lemma_edges_from(conditions, values, 0, none, order);
        let a = numeric_rows(system.a, values);
        let u = numeric_u(system, values);
        let m = held_matrix(a, edges, state.assigned);
        let rhs = held_rhs(u, edges, state);
        let solved = solution(m, rhs, tolerance)->Ok_0;
        let total = order + edges.len() / 2;
        assert(a.len() == order);
        assert(u.len() == order);
        lemma_solution_shape(m, rhs, 1, tolerance);
        let y = column_of(solved, 0);
        law_solution_solves(m, rhs, 1, tolerance, 0, y);
        match conditions[k] {
            Initial::Voltage { positive, negative, .. } => {
                let e = lemma_edge_of(conditions, values, 0, none, order, k);
                let c = e / 2;
                assert(2 * c == e);
                let row = m[order + c];
                assert(combination(row, y, total) == column_of(rhs, 0)[order + c]);
                lemma_combination_tail(row, y, order, total);
                lemma_source_row(row, y, positive, negative, order);
                assert(initial_within(conditions[k], order));
            },
            Initial::Current { branch, .. } => {
                if not_fixed_again(conditions, k + 1, branch) {
                    lemma_current_is_set(conditions, values, 0, rest, k);
                    assert(initial_within(conditions[k], order));
                    let row = m[branch as int];
                    assert(combination(row, y, total) == column_of(rhs, 0)[branch as int]);
                    lemma_combination_unit(row, y, branch as int, total);
                }
            },
        }
    }
}

/// A combination is that of its first entries and that of the others.
proof fn lemma_combination_split<S: Scalar>(row: Seq<S>, y: Seq<S>, n: nat, m: nat)
    requires
        exact::<S>(),
        n + m <= row.len(),
        n + m <= y.len(),
    ensures
        combination(row, y, n + m) == combination(row, y, n).sum(
            combination(row.skip(n as int), y.skip(n as int), m),
        ),
    decreases m,
{
    if m == 0 {
        lemma_sum_zero(combination(row, y, n));
    } else {
        let less = (m - 1) as nat;
        lemma_combination_split(row, y, n, less);
        let (r, z) = (row.skip(n as int), y.skip(n as int));
        assert(r[m - 1] == row[n + m - 1]);
        assert(z[m - 1] == y[n + m - 1]);
        lemma_sum_associates(
            combination(row, y, n),
            combination(r, z, less),
            r[m - 1].product(z[m - 1]),
        );
    }
}

/// The edges of the conditions of a system, two for each capacitor.
pub open spec fn held_edges<S: Scalar>(system: MnaSystem<S>, values: Map<Seq<char>, S>) -> Seq<
    Edge<S>,
> {
    edges_from(system@.initial, values, 0, Seq::empty())->Ok_0
}

/// Which unknowns of a system are currents that a condition holds.
pub open spec fn held_currents<S: Scalar>(system: MnaSystem<S>, values: Map<Seq<char>, S>) -> Seq<
    bool,
> {
    let order = system.unknowns@.len();
    currents_from(
        system@.initial,
        values,
        0,
        Assignment::<S> {
            x: Seq::new(order, |i: int| S::nought()),
            assigned: Seq::new(order, |i: int| false),
        },
    )->Ok_0.assigned
}

/// How the currents of the held capacitors enter the equation of an unknown.
pub open spec fn held_incidence<S: Scalar>(edges: Seq<Edge<S>>, i: int) -> Seq<S> {
    Seq::new(
        edges.len() / 2,
        |c: int| incidence_sign::<S>(edges[2 * c].from, edges[2 * c].to, i),
    )
}

/// A point satisfies the equations of a circuit at rest, apart from those of the held currents,
/// with some currents through the held capacitors.
pub open spec fn satisfies_circuit<S: Scalar>(
    system: MnaSystem<S>,
    values: Map<Seq<char>, S>,
    x: Seq<S>,
    currents: Seq<S>,
) -> bool {
    let edges = held_edges(system, values);
    forall|i: int|
        0 <= i < system.unknowns@.len() && !(#[trigger] held_currents(system, values)[i])
            ==> combination(
            numeric_rows(system.a, values)[i],
            x,
            system.unknowns@.len(),
        ).sum(combination(held_incidence(edges, i), currents, edges.len() / 2)) == numeric_u(
            system,
            values,
        )[i]
}

/// At an operating point the rest of the circuit follows: every equation but those of the held
/// inductors is satisfied at rest, with some currents through the held capacitors. Where no held
/// capacitor ends, the equation is satisfied as it stands.
pub proof fn law_operating_point_satisfies_circuit<S: Scalar>(
    system: MnaSystem<S>,
    values: Map<Seq<char>, S>,
    tolerance: S,
)
    requires
        exact::<S>(),
        tolerates_zero(tolerance),
        system.well_formed(),
        system.unknowns@.len() <= usize::MAX,
    ensures
        held_point(system, values, tolerance) matches Ok(x) ==> {
            &&& exists|currents: Seq<S>| #[trigger] satisfies_circuit(system, values, x, currents)
            &&& forall|i: int|
                0 <= i < system.unknowns@.len() && !(#[trigger] held_currents(system, values)[i])
                    && away_from(held_edges(system, values), i) ==> combination(
                    numeric_rows(system.a, values)[i],
                    x,
                    system.unknowns@.len(),
                ) == numeric_u(system, values)[i]
        },
{
    let conditions = system@.initial;
    let order = system.unknowns@.len();
    let none = Seq::<Edge<S>>::empty();
    let rest = Assignment::<S> {
        x: Seq::new(order, |i: int| S::nought()),
        assigned: Seq::new(order, |i: int| false),
    };
    assert forall|j: int| 0 <= j < conditions.len() implies initial_within(
        #[trigger] conditions[j],
        order,
    ) by {
        assert(conditions[j] == system.initial_conditions@[j]@);
    }
    if let Ok(x) = held_point(system, values, tolerance) {
        let state = currents_from(conditions, values, 0, rest)->Ok_0;
        let edges = edges_from(conditions, values, 0, none)->Ok_0;
        lemma_currents_from(conditions, values, 0, rest);
        lemma_edges_from(conditions, values, 0, none, order);
        let a = numeric_rows(system.a, values);
        let u = numeric_u(system, values);
        let m = held_matrix(a, edges, state.assigned);
        let rhs = held_rhs(u, edges, state);
        let solved = solution(m, rhs, tolerance)->Ok_0;
        let count = edges.len() / 2;
        let total = order + count;
        assert(a.len() == order);
        assert(u.len() == order);
        lemma_solution_shape(m, rhs, 1, tolerance);
        let y = column_of(solved, 0);
        law_solution_solves(m, rhs, 1, tolerance, 0, y);
        let currents = y.skip(order as int);
        assert forall|i: int|
            0 <= i < order && !(#[trigger] held_currents(system, values)[i]) implies combination(
            a[i],
            x,
            order,
        ).sum(combination(held_incidence(edges, i), currents, count)) == u[i] by {
            assert(!state.assigned[i]);
            let row = m[i];
            assert(combination(row, y, total) == column_of(rhs, 0)[i]);
            lemma_combination_split(row, y, order, count);
            assert forall|j: int| 0 <= j < order implies #[trigger] row[j] == a[i][j] && y[j]
                == x[j] by {}
            lemma_combination_congruent(row, y, a[i], x, order);
            let tail = row.skip(order as int);
            assert forall|c: int| 0 <= c < count implies #[trigger] tail[c] == held_incidence::<S>(
                edges,
                i,
            )[c] by {}
            lemma_combination_congruent(
                tail,
                currents,
                held_incidence(edges, i),
                currents,
                count,
            );
        }
        assert(satisfies_circuit(system, values, x, currents));
        assert forall|i: int|
            0 <= i < order && !(#[trigger] held_currents(system, values)[i]) && away_from(
                edges,
                i,
            ) implies combination(a[i], x, order) == u[i] by {
            let row = held_incidence::<S>(edges, i);
            assert forall|c: int| 0 <= c < count implies #[trigger] row[c] == S::nought() by {
                assert(edges[2 * c].from != Some(i as usize));
            }
            lemma_combination_tail(row, currents, 0, count);
            lemma_sum_zero(combination(a[i], x, order));
        }
    }
}

/// No edge ends at an unknown.
pub open spec fn away_from<S>(edges: Seq<Edge<S>>, i: int) -> bool {
    forall|e: int|
        0 <= e < edges.len() ==> (#[trigger] edges[e]).from != Some(i as usize) && edges[e].to
            != Some(i as usize)
}

// The order of the conditions

/// A set of vertices that no edge leaves.
pub open spec fn closed_set<S>(edges: Seq<Edge<S>>, set: spec_fn(Option<usize>) -> bool) -> bool {
    forall|e: int| 0 <= e < edges.len() && set((#[trigger] edges[e]).from) ==> set(edges[e].to)
}

/// A vertex can be reached from another: it is in every set that holds the other and that no
/// edge leaves.
pub open spec fn connected<S>(edges: Seq<Edge<S>>, a: Option<usize>, b: Option<usize>) -> bool {
    forall|set: spec_fn(Option<usize>) -> bool|
        #[trigger] closed_set(edges, set) && set(a) ==> set(b)
}

/// No vertex that can be reached from the given one comes before it.
pub open spec fn comes_first<S>(edges: Seq<Edge<S>>, root: Option<usize>) -> bool {
    forall|v: Option<usize>|
        #[trigger] starts_edge(edges, v) && connected(edges, root, v) ==> !vertex_before(v, root)
}

/// A vertex can be reached from a root that comes first and is at zero.
spec fn rooted<S: Scalar>(edges: Seq<Edge<S>>, found: Potentials<S>, i: int) -> bool {
    exists|j: int|
        {
            &&& 0 <= j < found.len()
            &&& found[j].1 == S::nought()
            &&& starts_edge(edges, found[j].0)
            &&& comes_first(edges, found[j].0)
            &&& #[trigger] connected(edges, found[j].0, found[i].0)
        }
}

spec fn all_rooted<S: Scalar>(edges: Seq<Edge<S>>, found: Potentials<S>) -> bool {
    forall|i: int| 0 <= i < found.len() ==> #[trigger] rooted(edges, found, i)
}

/// Two lists hold the same edges.
spec fn same_edges<S>(edges: Seq<Edge<S>>, others: Seq<Edge<S>>) -> bool {
    &&& forall|e: int| 0 <= e < edges.len() ==> others.contains(#[trigger] edges[e])
    &&& forall|e: int| 0 <= e < others.len() ==> edges.contains(#[trigger] others[e])
}

/// Every edge has one in the opposite direction.
spec fn reversible<S>(edges: Seq<Edge<S>>) -> bool {
    forall|e: int| 0 <= e < edges.len() ==> has_opposite(edges, #[trigger] edges[e])
}

spec fn has_opposite<S>(edges: Seq<Edge<S>>, edge: Edge<S>) -> bool {
    exists|f: int|
        0 <= f < edges.len() && (#[trigger] edges[f]).from == edge.to && edges[f].to == edge.from
}

proof fn lemma_pairs_are_reversible<S>(edges: Seq<Edge<S>>)
    requires
        in_pairs(edges),
    ensures
        reversible(edges),
{
    assert forall|e: int| 0 <= e < edges.len() implies has_opposite(edges, #[trigger] edges[e]) by {
        let j = e / 2;
        assert(edges[2 * j].from == edges[2 * j + 1].to);
        if e == 2 * j {
            assert(edges[2 * j + 1].from == edges[e].to);
        } else {
            assert(e == 2 * j + 1);
            assert(edges[2 * j].from == edges[e].to);
        }
    }
}

proof fn lemma_connected_to_itself<S>(edges: Seq<Edge<S>>, a: Option<usize>)
    ensures
        connected(edges, a, a),
{
}

proof fn lemma_connected_by_edge<S>(edges: Seq<Edge<S>>, a: Option<usize>, e: int)
    requires
        0 <= e < edges.len(),
        connected(edges, a, edges[e].from),
    ensures
        connected(edges, a, edges[e].to),
{
    assert forall|set: spec_fn(Option<usize>) -> bool|
        #[trigger] closed_set(edges, set) && set(a) implies set(edges[e].to) by {
        assert(set(edges[e].from));
    }
}

proof fn lemma_complement_is_closed<S>(
    edges: Seq<Edge<S>>,
    set: spec_fn(Option<usize>) -> bool,
)
    requires
        reversible(edges),
        closed_set(edges, set),
    ensures
        closed_set(edges, |v: Option<usize>| !set(v)),
{
    let outside = |v: Option<usize>| !set(v);
    assert forall|e: int| 0 <= e < edges.len() && outside((#[trigger] edges[e]).from) implies
        outside(edges[e].to) by {
        if set(edges[e].to) {
            assert(has_opposite(edges, edges[e]));
            let f = choose|f: int|
                0 <= f < edges.len() && (#[trigger] edges[f]).from == edges[e].to && edges[f].to
                    == edges[e].from;
            assert(set(edges[f].from));
            assert(set(edges[f].to));
        }
    }
}

proof fn lemma_connected_back<S>(edges: Seq<Edge<S>>, a: Option<usize>, b: Option<usize>)
    requires
        reversible(edges),
        connected(edges, a, b),
    ensures
        connected(edges, b, a),
{
    assert forall|set: spec_fn(Option<usize>) -> bool|
        #[trigger] closed_set(edges, set) && set(b) implies set(a) by {
        lemma_complement_is_closed(edges, set);
        let outside = |v: Option<usize>| !set(v);
        if outside(a) {
            assert(closed_set(edges, outside));
            assert(outside(b));
        }
    }
}

/// Of the vertices that can be reached from each other, one comes first.
proof fn lemma_one_root<S>(edges: Seq<Edge<S>>, a: Option<usize>, b: Option<usize>)
    requires
        reversible(edges),
        connected(edges, a, b),
        starts_edge(edges, a),
        starts_edge(edges, b),
        comes_first(edges, a),
        comes_first(edges, b),
    ensures
        a == b,
{
    lemma_connected_back(edges, a, b);
    assert(!vertex_before(b, a));
    assert(!vertex_before(a, b));
}

proof fn lemma_same_edges<S>(edges: Seq<Edge<S>>, others: Seq<Edge<S>>)
    requires
        same_edges(edges, others),
    ensures
        forall|set: spec_fn(Option<usize>) -> bool|
            closed_set(edges, set) == #[trigger] closed_set(others, set),
        forall|v: Option<usize>| starts_edge(edges, v) == #[trigger] starts_edge(others, v),
{
    assert forall|set: spec_fn(Option<usize>) -> bool| closed_set(edges, set)
        == #[trigger] closed_set(others, set) by {
        if closed_set(edges, set) {
            assert forall|e: int| 0 <= e < others.len() && set(
                (#[trigger] others[e]).from,
            ) implies set(others[e].to) by {
                assert(edges.contains(others[e]));
                let f = choose|f: int| 0 <= f < edges.len() && edges[f] == others[e];
                assert(set(edges[f].from));
            }
        }
        if closed_set(others, set) {
            assert forall|e: int| 0 <= e < edges.len() && set(
                (#[trigger] edges[e]).from,
            ) implies set(edges[e].to) by {
                assert(others.contains(edges[e]));
                let f = choose|f: int| 0 <= f < others.len() && others[f] == edges[e];
                assert(set(others[f].from));
            }
        }
    }
    assert forall|v: Option<usize>| starts_edge(edges, v) == #[trigger] starts_edge(others, v) by {
        if starts_edge(edges, v) {
            let e = choose|e: int| 0 <= e < edges.len() && (#[trigger] edges[e]).from == v;
            assert(others.contains(edges[e]));
            let f = choose|f: int| 0 <= f < others.len() && others[f] == edges[e];
            assert(others[f].from == v);
        }
        if starts_edge(others, v) {
            let e = choose|e: int| 0 <= e < others.len() && (#[trigger] others[e]).from == v;
            assert(edges.contains(others[e]));
            let f = choose|f: int| 0 <= f < edges.len() && edges[f] == others[e];
            assert(edges[f].from == v);
        }
    }
}

proof fn lemma_same_connections<S>(edges: Seq<Edge<S>>, others: Seq<Edge<S>>)
    requires
        same_edges(edges, others),
    ensures
        forall|a: Option<usize>, b: Option<usize>|
            connected(edges, a, b) == #[trigger] connected(others, a, b),
        forall|a: Option<usize>| comes_first(edges, a) == #[trigger] comes_first(others, a),
{
    lemma_same_edges(edges, others);
    assert forall|a: Option<usize>, b: Option<usize>| connected(edges, a, b)
        == #[trigger] connected(others, a, b) by {
        if connected(edges, a, b) {
            assert forall|set: spec_fn(Option<usize>) -> bool|
                #[trigger] closed_set(others, set) && set(a) implies set(b) by {
                assert(closed_set(edges, set));
            }
        }
        if connected(others, a, b) {
            assert forall|set: spec_fn(Option<usize>) -> bool|
                #[trigger] closed_set(edges, set) && set(a) implies set(b) by {
                assert(closed_set(others, set));
            }
        }
    }
    assert forall|a: Option<usize>| comes_first(edges, a) == #[trigger] comes_first(others, a) by {
        if comes_first(edges, a) {
            assert forall|v: Option<usize>|
                #[trigger] starts_edge(others, v) && connected(others, a, v) implies
                !vertex_before(v, a) by {
                assert(starts_edge(edges, v) && connected(edges, a, v));
            }
        }
        if comes_first(others, a) {
            assert forall|v: Option<usize>|
                #[trigger] starts_edge(edges, v) && connected(edges, a, v) implies
                !vertex_before(v, a) by {
                assert(starts_edge(others, v) && connected(others, a, v));
            }
        }
    }
}

// The roots of a walk

/// The next root comes before every other vertex that has not been reached.
proof fn lemma_root_is_first<S>(
    edges: Seq<Edge<S>>,
    found: Potentials<S>,
    e: int,
    best: Option<Option<usize>>,
)
    requires
        0 <= e <= edges.len(),
    ensures
        next_root_from(edges, found, e, best) matches Some(root) ==> {
            &&& forall|f: int|
                e <= f < edges.len() && reached_at(found, (#[trigger] edges[f]).from, 0)
                    >= found.len() ==> !vertex_before(edges[f].from, root)
            &&& best matches Some(b) ==> !vertex_before(b, root)
        },
    decreases edges.len() - e,
{
    if e < edges.len() {
        let next = if reached_at(found, edges[e].from, 0) < found.len() {
            best
        } else {
            match best {
                None => Some(edges[e].from),
                Some(b) => if vertex_before(edges[e].from, b) {
                    Some(edges[e].from)
                } else {
                    best
                },
            }
        };
        lemma_root_is_first(edges, found, e + 1, next);
    }
}

/// Where everything found has been walked from, the next root comes first.
proof fn lemma_next_root_comes_first<S: Scalar>(
    edges: Seq<Edge<S>>,
    found: Potentials<S>,
    tolerance: S,
)
    requires
        reversible(edges),
        walked_edges_hold(edges, found, tolerance, found.len() as int),
    ensures
        next_root_from(edges, found, 0, None) matches Some(root) ==> comes_first(edges, root)
            && starts_edge(edges, root),
{
    lemma_root(edges, found, 0, None);
    lemma_root_is_first(edges, found, 0, None);
    if let Some(root) = next_root_from(edges, found, 0, None) {
        let inside = |v: Option<usize>| reached_at(found, v, 0) < found.len();
        assert(closed_set(edges, inside)) by {
            assert forall|e: int| 0 <= e < edges.len() && inside(
                (#[trigger] edges[e]).from,
            ) implies inside(edges[e].to) by {
                lemma_reached(found, edges[e].from, 0);
                let i = reached_at(found, edges[e].from, 0);
                assert(found[i].0 == edges[e].from);
                assert(edge_holds(found, tolerance, i, edges[e]));
            }
        }
        lemma_complement_is_closed(edges, inside);
        let outside = |v: Option<usize>| !inside(v);
        assert forall|v: Option<usize>|
            #[trigger] starts_edge(edges, v) && connected(edges, root, v) implies !vertex_before(
            v,
            root,
        ) by {
            assert(closed_set(edges, outside));
            assert(outside(root));
            assert(outside(v));
            let f = choose|f: int| 0 <= f < edges.len() && (#[trigger] edges[f]).from == v;
            assert(reached_at(found, edges[f].from, 0) >= found.len());
        }
    }
}

proof fn lemma_still_rooted<S: Scalar>(
    edges: Seq<Edge<S>>,
    found: Potentials<S>,
    more: Potentials<S>,
    i: int,
)
    requires
        extends(more, found),
        0 <= i < found.len(),
        rooted(edges, found, i),
    ensures
        rooted(edges, more, i),
{
    let j = choose|j: int|
        {
            &&& 0 <= j < found.len()
            &&& found[j].1 == S::nought()
            &&& starts_edge(edges, found[j].0)
            &&& comes_first(edges, found[j].0)
            &&& #[trigger] connected(edges, found[j].0, found[i].0)
        };
    assert(more[j] == found[j]);
    assert(more[i] == found[i]);
    assert(connected(edges, more[j].0, more[i].0));
}

proof fn lemma_expanded_is_rooted<S: Scalar>(
    edges: Seq<Edge<S>>,
    tolerance: S,
    at: int,
    e: int,
    found: Potentials<S>,
)
    requires
        0 <= at < found.len(),
        0 <= e <= edges.len(),
        all_rooted(edges, found),
    ensures
        expanded_from(edges, tolerance, at, e, found) matches Ok(more) ==> all_rooted(edges, more),
    decreases edges.len() - e,
{
    if e < edges.len() {
        if edges[e].from != found[at].0 || reached_at(found, edges[e].to, 0) < found.len() {
            lemma_expanded_is_rooted(edges, tolerance, at, e + 1, found);
        } else {
            let next = found.push((edges[e].to, found[at].1.difference(edges[e].delta)));
            assert forall|i: int| 0 <= i < next.len() implies #[trigger] rooted(edges, next, i) by {
                if i < found.len() {
                    assert(rooted(edges, found, i));
                    lemma_still_rooted(edges, found, next, i);
                } else {
                    assert(rooted(edges, found, at));
                    let j = choose|j: int|
                        {
                            &&& 0 <= j < found.len()
                            &&& found[j].1 == S::nought()
                            &&& starts_edge(edges, found[j].0)
                            &&& comes_first(edges, found[j].0)
                            &&& #[trigger] connected(edges, found[j].0, found[at].0)
                        };
                    lemma_connected_by_edge(edges, found[j].0, e);
                    assert(next[j] == found[j]);
                    assert(next[i].0 == edges[e].to);
                    assert(connected(edges, next[j].0, next[i].0));
                }
            }
            lemma_expanded_is_rooted(edges, tolerance, at, e + 1, next);
        }
    }
}

proof fn lemma_start_is_rooted<S: Scalar>(
    edges: Seq<Edge<S>>,
    found: Potentials<S>,
    tolerance: S,
    n: int,
)
    requires
        reversible(edges),
        all_rooted(edges, found),
        n >= 1,
        found.len() >= n - 1,
        walked_edges_hold(edges, found, tolerance, n - 1),
    ensures
        step_start(edges, found, n) matches Some(start) ==> all_rooted(edges, start),
{
    if found.len() < n {
        lemma_next_root_comes_first(edges, found, tolerance);
        if let Some(root) = next_root_from(edges, found, 0, None) {
            let start = found.push((root, S::nought()));
            assert forall|i: int| 0 <= i < start.len() implies #[trigger] rooted(
                edges,
                start,
                i,
            ) by {
                if i < found.len() {
                    assert(rooted(edges, found, i));
                    lemma_still_rooted(edges, found, start, i);
                } else {
                    lemma_connected_to_itself(edges, root);
                    assert(start[i] == (root, S::nought()));
                    assert(connected(edges, start[i].0, start[i].0));
                }
            }
        }
    }
}

proof fn lemma_walk_is_rooted<S: Scalar>(edges: Seq<Edge<S>>, tolerance: S, n: nat)
    requires
        two_way(edges),
        reversible(edges),
    ensures
        walked(edges, tolerance, n) matches Ok(found) ==> all_rooted(edges, found),
    decreases n,
{
    if n > 0 {
        let less = (n - 1) as nat;
        lemma_walk_is_rooted(edges, tolerance, less);
        lemma_walked(edges, tolerance, less);
        if let Ok(found) = walked(edges, tolerance, less) {
            lemma_short_walk(edges, tolerance, less);
            if found.len() < less {
                assert(next_root_from(edges, found, 0, None) is None);
            } else {
                lemma_start_is_rooted(edges, found, tolerance, n as int);
                lemma_step_start(edges, found, n as int);
                if let Some(start) = step_start(edges, found, n as int) {
                    lemma_expanded_is_rooted(edges, tolerance, n - 1, 0, start);
                }
            }
        }
    }
}

// Two walks over the same edges

/// Potentials that satisfy every edge and are zero at every vertex that comes first.
spec fn settles<S: Scalar>(edges: Seq<Edge<S>>, p: spec_fn(Option<usize>) -> S) -> bool {
    &&& forall|e: int|
        0 <= e < edges.len() ==> p((#[trigger] edges[e]).to) == p(edges[e].from).difference(
            edges[e].delta,
        )
    &&& forall|v: Option<usize>|
        #[trigger] starts_edge(edges, v) && comes_first(edges, v) ==> p(v) == S::nought()
}

/// What is found agrees with given potentials.
spec fn follows<S: Scalar>(found: Potentials<S>, p: spec_fn(Option<usize>) -> S) -> bool {
    forall|i: int| 0 <= i < found.len() ==> (#[trigger] found[i]).1 == p(found[i].0)
}

/// The potential of a vertex in what is found.
spec fn found_potential<S: Scalar>(found: Potentials<S>, v: Option<usize>) -> S {
    found[reached_at(found, v, 0)].1
}

proof fn lemma_walk_satisfies<S: Scalar>(edges: Seq<Edge<S>>, tolerance: S, e: int)
    requires
        two_way(edges),
        is_decisive(tolerance),
        0 <= e < edges.len(),
    ensures
        walked(edges, tolerance, edges.len()) matches Ok(found) ==> found_potential(
            found,
            edges[e].to,
        ) == found_potential(found, edges[e].from).difference(edges[e].delta),
{
    lemma_walk_is_complete(edges, tolerance, e);
}

/// The root that a reached vertex has, where it comes first itself, is that vertex.
proof fn lemma_own_root<S: Scalar>(edges: Seq<Edge<S>>, found: Potentials<S>, i: int)
    requires
        reversible(edges),
        each_once(found),
        0 <= i < found.len(),
        rooted(edges, found, i),
        starts_edge(edges, found[i].0),
        comes_first(edges, found[i].0),
    ensures
        found[i].1 == S::nought(),
{
    let j = choose|j: int|
        {
            &&& 0 <= j < found.len()
            &&& found[j].1 == S::nought()
            &&& starts_edge(edges, found[j].0)
            &&& comes_first(edges, found[j].0)
            &&& #[trigger] connected(edges, found[j].0, found[i].0)
        };
    lemma_one_root(edges, found[j].0, found[i].0);
    lemma_found_where(found, j);
    lemma_found_where(found, i);
}

proof fn lemma_first_is_at_rest<S: Scalar>(edges: Seq<Edge<S>>, tolerance: S, v: Option<usize>)
    requires
        two_way(edges),
        reversible(edges),
        starts_edge(edges, v),
        comes_first(edges, v),
    ensures
        walked(edges, tolerance, edges.len()) matches Ok(found) ==> found_potential(found, v)
            == S::nought(),
{
    lemma_walked(edges, tolerance, edges.len());
    lemma_walk_is_rooted(edges, tolerance, edges.len());
    let e = choose|e: int| 0 <= e < edges.len() && (#[trigger] edges[e]).from == v;
    lemma_walk_is_complete(edges, tolerance, e);
    if let Ok(found) = walked(edges, tolerance, edges.len()) {
        lemma_reached(found, v, 0);
        let i = reached_at(found, v, 0);
        assert(rooted(edges, found, i));
        lemma_own_root(edges, found, i);
    }
}

/// A finished walk settles its edges.
proof fn lemma_walk_settles<S: Scalar>(
    edges: Seq<Edge<S>>,
    tolerance: S,
    p: spec_fn(Option<usize>) -> S,
)
    requires
        two_way(edges),
        reversible(edges),
        is_decisive(tolerance),
        walked(edges, tolerance, edges.len()) is Ok,
        p == (|v: Option<usize>|
            found_potential(walked(edges, tolerance, edges.len())->Ok_0, v)),
    ensures
        settles(edges, p),
{
    assert forall|e: int| 0 <= e < edges.len() implies p((#[trigger] edges[e]).to) == p(
        edges[e].from,
    ).difference(edges[e].delta) by {
        lemma_walk_satisfies(edges, tolerance, e);
    }
    assert forall|v: Option<usize>|
        #[trigger] starts_edge(edges, v) && comes_first(edges, v) implies p(v) == S::nought() by {
        lemma_first_is_at_rest(edges, tolerance, v);
    }
}

proof fn lemma_expanded_follows<S: Scalar>(
    edges: Seq<Edge<S>>,
    tolerance: S,
    at: int,
    e: int,
    found: Potentials<S>,
    p: spec_fn(Option<usize>) -> S,
)
    requires
        0 <= at < found.len(),
        0 <= e <= edges.len(),
        settles(edges, p),
        follows(found, p),
        forall|a: S| !#[trigger] contradict(a, a, tolerance),
    ensures
        expanded_from(edges, tolerance, at, e, found) matches Ok(more) && follows(more, p),
    decreases edges.len() - e,
{
    if e < edges.len() {
        if edges[e].from != found[at].0 {
            lemma_expanded_follows(edges, tolerance, at, e + 1, found, p);
        } else {
            let implied = found[at].1.difference(edges[e].delta);
            assert(implied == p(edges[e].to));
            let there = reached_at(found, edges[e].to, 0);
            lemma_reached(found, edges[e].to, 0);
            if there < found.len() {
                assert(found[there].1 == implied);
                assert(!contradict(implied, implied, tolerance));
                lemma_expanded_follows(edges, tolerance, at, e + 1, found, p);
            } else {
                let next = found.push((edges[e].to, implied));
                assert forall|i: int| 0 <= i < next.len() implies (#[trigger] next[i]).1 == p(
                    next[i].0,
                ) by {
                    if i < found.len() {
                        assert(next[i] == found[i]);
                    }
                }
                lemma_expanded_follows(edges, tolerance, at, e + 1, next, p);
            }
        }
    }
}

proof fn lemma_start_follows<S: Scalar>(
    edges: Seq<Edge<S>>,
    found: Potentials<S>,
    tolerance: S,
    n: int,
    p: spec_fn(Option<usize>) -> S,
)
    requires
        reversible(edges),
        settles(edges, p),
        follows(found, p),
        n >= 1,
        found.len() >= n - 1,
        walked_edges_hold(edges, found, tolerance, n - 1),
    ensures
        step_start(edges, found, n) matches Some(start) ==> follows(start, p),
{
    if found.len() < n {
        lemma_next_root_comes_first(edges, found, tolerance);
        if let Some(root) = next_root_from(edges, found, 0, None) {
            let start = found.push((root, S::nought()));
            assert(starts_edge(edges, root));
            assert(p(root) == S::nought());
            assert forall|i: int| 0 <= i < start.len() implies (#[trigger] start[i]).1 == p(
                start[i].0,
            ) by {
                if i < found.len() {
                    assert(start[i] == found[i]);
                }
            }
        }
    }
}

/// Where there are potentials that settle the edges, a walk goes through and finds them.
proof fn lemma_walk_follows<S: Scalar>(
    edges: Seq<Edge<S>>,
    tolerance: S,
    n: nat,
    p: spec_fn(Option<usize>) -> S,
)
    requires
        two_way(edges),
        reversible(edges),
        settles(edges, p),
        forall|a: S| !#[trigger] contradict(a, a, tolerance),
    ensures
        walked(edges, tolerance, n) matches Ok(found) && follows(found, p),
    decreases n,
{
    if n > 0 {
        let less = (n - 1) as nat;
        lemma_walk_follows(edges, tolerance, less, p);
        lemma_walked(edges, tolerance, less);
        let found = walked(edges, tolerance, less)->Ok_0;
        lemma_short_walk(edges, tolerance, less);
        if found.len() < less {
            assert(next_root_from(edges, found, 0, None) is None);
        } else {
            lemma_step_start(edges, found, n as int);
            lemma_start_follows(edges, found, tolerance, n as int, p);
            if let Some(start) = step_start(edges, found, n as int) {
                lemma_expanded_follows(edges, tolerance, n - 1, 0, start, p);
            }
        }
    }
}

proof fn lemma_same_settlement<S: Scalar>(
    edges: Seq<Edge<S>>,
    others: Seq<Edge<S>>,
    p: spec_fn(Option<usize>) -> S,
)
    requires
        same_edges(edges, others),
        settles(edges, p),
    ensures
        settles(others, p),
{
    lemma_same_edges(edges, others);
    lemma_same_connections(edges, others);
    assert forall|e: int| 0 <= e < others.len() implies p((#[trigger] others[e]).to) == p(
        others[e].from,
    ).difference(others[e].delta) by {
        assert(edges.contains(others[e]));
        let f = choose|f: int| 0 <= f < edges.len() && edges[f] == others[e];
        assert(p(edges[f].to) == p(edges[f].from).difference(edges[f].delta));
    }
    assert forall|v: Option<usize>|
        #[trigger] starts_edge(others, v) && comes_first(others, v) implies p(v)
        == S::nought() by {
        assert(starts_edge(edges, v) && comes_first(edges, v));
    }
}

// From the same conditions to the same edges

/// The edge of a capacitor's condition, in one direction or the other.
spec fn edge_of<S: Scalar>(c: Initial<S>, values: Map<Seq<char>, S>, back: bool) -> Edge<S> {
    let v = expr::value(c->Voltage_value, values)->Ok_0;
    if back {
        Edge {
            from: c->negative,
            to: c->positive,
            delta: v.negation(),
            element: c->Voltage_element,
        }
    } else {
        Edge { from: c->positive, to: c->negative, delta: v, element: c->Voltage_element }
    }
}

/// Every capacitor's condition from `i` on has a value.
spec fn voltages_valued<S: Scalar>(
    conditions: Seq<Initial<S>>,
    values: Map<Seq<char>, S>,
    i: int,
) -> bool {
    forall|j: int|
        i <= j < conditions.len() && (#[trigger] conditions[j]) is Voltage ==> expr::value(
            conditions[j]->Voltage_value,
            values,
        ) is Ok
}

/// An edge that one of the conditions from `i` on makes.
spec fn is_edge_of<S: Scalar>(
    conditions: Seq<Initial<S>>,
    values: Map<Seq<char>, S>,
    i: int,
    edge: Edge<S>,
) -> bool {
    exists|j: int|
        i <= j < conditions.len() && (#[trigger] conditions[j]) is Voltage && (edge == edge_of(
            conditions[j],
            values,
            false,
        ) || edge == edge_of(conditions[j], values, true))
}

proof fn lemma_edges_are_of_conditions<S: Scalar>(
    conditions: Seq<Initial<S>>,
    values: Map<Seq<char>, S>,
    i: int,
    edges: Seq<Edge<S>>,
)
    requires
        0 <= i <= conditions.len(),
    ensures
        edges_from(conditions, values, i, edges) is Ok <==> voltages_valued(conditions, values, i),
        edges_from(conditions, values, i, edges) matches Ok(all) ==> {
            &&& forall|edge: Edge<S>| #[trigger]
                all.contains(edge) <==> edges.contains(edge) || is_edge_of(
                    conditions,
                    values,
                    i,
                    edge,
                )
        },
    decreases conditions.len() - i,
{
    if i < conditions.len() {
        match conditions[i] {
            Initial::Voltage { element, positive, negative, value } => {
                if let Ok(v) = expr::value(value, values) {
                    let first = edge_of(conditions[i], values, false);
                    let second = edge_of(conditions[i], values, true);
                    let more = edges.push(first).push(second);
                    lemma_edges_are_of_conditions(conditions, values, i + 1, more);
                    assert(voltages_valued(conditions, values, i + 1) ==> voltages_valued(
                        conditions,
                        values,
                        i,
                    ));
                    if let Ok(all) = edges_from(conditions, values, i, edges) {
                        assert forall|edge: Edge<S>| #[trigger]
                            all.contains(edge) <==> edges.contains(edge) || is_edge_of(
                            conditions,
                            values,
                            i,
                            edge,
                        ) by {
                            lemma_two_more(edges, first, second, edge);
                            lemma_edge_of_one_more(conditions, values, i, edge);
                        }
                    }
                } else {
                    assert(!voltages_valued(conditions, values, i)) by {
                        assert(conditions[i] is Voltage);
                    }
                }
            },
            Initial::Current { .. } => {
                lemma_edges_are_of_conditions(conditions, values, i + 1, edges);
                assert(voltages_valued(conditions, values, i + 1) ==> voltages_valued(
                    conditions,
                    values,
                    i,
                ));
                if let Ok(all) = edges_from(conditions, values, i, edges) {
                    assert forall|edge: Edge<S>| #[trigger]
                        all.contains(edge) <==> edges.contains(edge) || is_edge_of(
                        conditions,
                        values,
                        i,
                        edge,
                    ) by {
                        lemma_edge_of_one_more(conditions, values, i, edge);
                    }
                }
            },
        }
    }
}

proof fn lemma_two_more<S>(edges: Seq<Edge<S>>, first: Edge<S>, second: Edge<S>, edge: Edge<S>)
    ensures
        edges.push(first).push(second).contains(edge) <==> edges.contains(edge) || edge == first
            || edge == second,
{
    let more = edges.push(first).push(second);
    if edges.contains(edge) {
        let j = choose|j: int| 0 <= j < edges.len() && edges[j] == edge;
        assert(more[j] == edge);
    }
    assert(more[edges.len() as int] == first);
    assert(more[(edges.len() + 1) as int] == second);
    if more.contains(edge) {
        let j = choose|j: int| 0 <= j < more.len() && more[j] == edge;
        if j < edges.len() {
            assert(edges[j] == edge);
        }
    }
}

proof fn lemma_edge_of_one_more<S: Scalar>(
    conditions: Seq<Initial<S>>,
    values: Map<Seq<char>, S>,
    i: int,
    edge: Edge<S>,
)
    requires
        0 <= i < conditions.len(),
    ensures
        is_edge_of(conditions, values, i, edge) <==> is_edge_of(conditions, values, i + 1, edge)
            || (conditions[i] is Voltage && (edge == edge_of(conditions[i], values, false) || edge
            == edge_of(conditions[i], values, true))),
{
    if is_edge_of(conditions, values, i, edge) {
        let j = choose|j: int|
            i <= j < conditions.len() && (#[trigger] conditions[j]) is Voltage && (edge == edge_of(
                conditions[j],
                values,
                false,
            ) || edge == edge_of(conditions[j], values, true));
        if j > i {
            assert(conditions[j] is Voltage);
        }
    }
}

/// Two lists declare the same conditions, in any order.
pub open spec fn same_conditions<S>(conditions: Seq<Initial<S>>, others: Seq<Initial<S>>) -> bool {
    &&& forall|j: int| 0 <= j < conditions.len() ==> others.contains(#[trigger] conditions[j])
    &&& forall|j: int| 0 <= j < others.len() ==> conditions.contains(#[trigger] others[j])
}

proof fn lemma_edge_of_others<S: Scalar>(
    conditions: Seq<Initial<S>>,
    others: Seq<Initial<S>>,
    values: Map<Seq<char>, S>,
    edge: Edge<S>,
)
    requires
        same_conditions(conditions, others),
        is_edge_of(conditions, values, 0, edge),
    ensures
        is_edge_of(others, values, 0, edge),
{
    let j = choose|j: int|
        0 <= j < conditions.len() && (#[trigger] conditions[j]) is Voltage && (edge == edge_of(
            conditions[j],
            values,
            false,
        ) || edge == edge_of(conditions[j], values, true));
    assert(others.contains(conditions[j]));
    let k = choose|k: int| 0 <= k < others.len() && others[k] == conditions[j];
    assert(others[k] is Voltage);
}

proof fn lemma_same_conditions_give_same_edges<S: Scalar>(
    conditions: Seq<Initial<S>>,
    others: Seq<Initial<S>>,
    values: Map<Seq<char>, S>,
)
    requires
        same_conditions(conditions, others),
    ensures
        edges_from(conditions, values, 0, Seq::empty()) matches Ok(edges) ==> (edges_from(
            others,
            values,
            0,
            Seq::empty(),
        ) matches Ok(other_edges) && same_edges(edges, other_edges)),
{
    let none = Seq::<Edge<S>>::empty();
    lemma_edges_are_of_conditions(conditions, values, 0, none);
    lemma_edges_are_of_conditions(others, values, 0, none);
    if let Ok(edges) = edges_from(conditions, values, 0, none) {
        assert(voltages_valued(others, values, 0)) by {
            assert forall|j: int|
                0 <= j < others.len() && (#[trigger] others[j]) is Voltage implies expr::value(
                others[j]->Voltage_value,
                values,
            ) is Ok by {
                assert(conditions.contains(others[j]));
                let k = choose|k: int| 0 <= k < conditions.len() && conditions[k] == others[j];
                assert(conditions[k] is Voltage);
            }
        }
        let other_edges = edges_from(others, values, 0, none)->Ok_0;
        assert forall|e: int| 0 <= e < edges.len() implies other_edges.contains(
            #[trigger] edges[e],
        ) by {
            assert(edges.contains(edges[e]));
            assert(!none.contains(edges[e]));
            lemma_edge_of_others(conditions, others, values, edges[e]);
        }
        assert forall|e: int| 0 <= e < other_edges.len() implies edges.contains(
            #[trigger] other_edges[e],
        ) by {
            assert(other_edges.contains(other_edges[e]));
            assert(!none.contains(other_edges[e]));
            lemma_edge_of_others(others, conditions, values, other_edges[e]);
        }
    }
}

// From the same conditions to the same currents

/// Every inductor's condition from `i` on has a value.
spec fn currents_valued<S: Scalar>(
    conditions: Seq<Initial<S>>,
    values: Map<Seq<char>, S>,
    i: int,
) -> bool {
    forall|j: int|
        i <= j < conditions.len() && (#[trigger] conditions[j]) is Current ==> expr::value(
            conditions[j]->Current_value,
            values,
        ) is Ok
}

/// One of the conditions from `i` on fixes the current of a branch at a value.
spec fn fixes<S: Scalar>(
    conditions: Seq<Initial<S>>,
    values: Map<Seq<char>, S>,
    i: int,
    n: int,
    v: S,
) -> bool {
    exists|j: int|
        i <= j < conditions.len() && (#[trigger] conditions[j]) is Current && conditions[j]->branch
            == n && expr::value(conditions[j]->Current_value, values)->Ok_0 == v
}

proof fn lemma_currents_valued<S: Scalar>(
    conditions: Seq<Initial<S>>,
    values: Map<Seq<char>, S>,
    i: int,
    state: Assignment<S>,
)
    requires
        0 <= i <= conditions.len(),
    ensures
        currents_from(conditions, values, i, state) is Ok <==> currents_valued(
            conditions,
            values,
            i,
        ),
    decreases conditions.len() - i,
{
    if i < conditions.len() {
        match conditions[i] {
            Initial::Current { branch, value, .. } => {
                if let Ok(v) = expr::value(value, values) {
                    lemma_currents_valued(
                        conditions,
                        values,
                        i + 1,
                        with_value(state, branch as int, v),
                    );
                    assert(currents_valued(conditions, values, i + 1) ==> currents_valued(
                        conditions,
                        values,
                        i,
                    ));
                } else {
                    assert(conditions[i] is Current);
                }
            },
            Initial::Voltage { .. } => {
                lemma_currents_valued(conditions, values, i + 1, state);
                assert(currents_valued(conditions, values, i + 1) ==> currents_valued(
                    conditions,
                    values,
                    i,
                ));
            },
        }
    }
}

/// A branch has the current that one of the conditions fixes, or none of them fixes it.
proof fn lemma_current_of_branch<S: Scalar>(
    conditions: Seq<Initial<S>>,
    values: Map<Seq<char>, S>,
    i: int,
    state: Assignment<S>,
    n: int,
)
    requires
        0 <= i <= conditions.len(),
        0 <= n < state.x.len(),
        state.x.len() == state.assigned.len(),
        forall|j: int|
            0 <= j < conditions.len() ==> initial_within(
                #[trigger] conditions[j],
                state.x.len(),
            ),
    ensures
        currents_from(conditions, values, i, state) matches Ok(after) ==> {
            &&& after.x.len() == state.x.len()
            &&& after.assigned.len() == state.x.len()
            &&& (after.assigned[n] && fixes(conditions, values, i, n, after.x[n])) || (
            after.assigned[n] == state.assigned[n] && after.x[n] == state.x[n]
                && forall|v: S| !#[trigger] fixes(conditions, values, i, n, v))
        },
    decreases conditions.len() - i,
{
    if i < conditions.len() {
        let next = match conditions[i] {
            Initial::Current { branch, value, .. } => match expr::value(value, values) {
                Ok(v) => with_value(state, branch as int, v),
                Err(_) => state,
            },
            Initial::Voltage { .. } => state,
        };
        assert(initial_within(conditions[i], state.x.len()));
        lemma_current_of_branch(conditions, values, i + 1, next, n);
        if let Ok(after) = currents_from(conditions, values, i, state) {
            if fixes(conditions, values, i + 1, n, after.x[n]) {
                let j = choose|j: int|
                    i + 1 <= j < conditions.len() && (#[trigger] conditions[j]) is Current
                        && conditions[j]->branch == n && expr::value(
                        conditions[j]->Current_value,
                        values,
                    )->Ok_0 == after.x[n];
                assert(conditions[j] is Current);
            } else if conditions[i] is Current && conditions[i]->branch == n {
                assert(fixes(conditions, values, i, n, after.x[n]));
            } else {
                assert forall|v: S| !#[trigger] fixes(conditions, values, i, n, v) by {
                    if fixes(conditions, values, i, n, v) {
                        let j = choose|j: int|
                            i <= j < conditions.len() && (#[trigger] conditions[j]) is Current
                                && conditions[j]->branch == n && expr::value(
                                conditions[j]->Current_value,
                                values,
                            )->Ok_0 == v;
                        assert(fixes(conditions, values, i + 1, n, v)) by {
                            assert(conditions[j] is Current);
                        }
                    }
                }
            }
        }
    }
}

proof fn lemma_fixes_others<S: Scalar>(
    conditions: Seq<Initial<S>>,
    others: Seq<Initial<S>>,
    values: Map<Seq<char>, S>,
    n: int,
    v: S,
)
    requires
        same_conditions(conditions, others),
        fixes(conditions, values, 0, n, v),
    ensures
        fixes(others, values, 0, n, v),
{
    let j = choose|j: int|
        0 <= j < conditions.len() && (#[trigger] conditions[j]) is Current
            && conditions[j]->branch == n && expr::value(conditions[j]->Current_value, values)->Ok_0
            == v;
    assert(others.contains(conditions[j]));
    let k = choose|k: int| 0 <= k < others.len() && others[k] == conditions[j];
    assert(others[k] is Current);
}

/// Conditions on one branch declare one current.
pub open spec fn agree_on_currents<S: Scalar>(
    conditions: Seq<Initial<S>>,
    values: Map<Seq<char>, S>,
) -> bool {
    forall|i: int, j: int|
        0 <= i < conditions.len() && 0 <= j < conditions.len() && (#[trigger] conditions[i])
            is Current && (#[trigger] conditions[j]) is Current && conditions[i]->branch
            == conditions[j]->branch ==> expr::value(conditions[i]->Current_value, values)
            == expr::value(conditions[j]->Current_value, values)
}

proof fn lemma_one_current<S: Scalar>(
    conditions: Seq<Initial<S>>,
    values: Map<Seq<char>, S>,
    n: int,
    v: S,
    w: S,
)
    requires
        agree_on_currents(conditions, values),
        fixes(conditions, values, 0, n, v),
        fixes(conditions, values, 0, n, w),
    ensures
        v == w,
{
    let i = choose|i: int|
        0 <= i < conditions.len() && (#[trigger] conditions[i]) is Current
            && conditions[i]->branch == n && expr::value(conditions[i]->Current_value, values)->Ok_0
            == v;
    let j = choose|j: int|
        0 <= j < conditions.len() && (#[trigger] conditions[j]) is Current
            && conditions[j]->branch == n && expr::value(conditions[j]->Current_value, values)->Ok_0
            == w;
    assert(conditions[i] is Current && conditions[j] is Current);
}

proof fn lemma_same_conditions_give_same_currents<S: Scalar>(
    conditions: Seq<Initial<S>>,
    others: Seq<Initial<S>>,
    values: Map<Seq<char>, S>,
    rest: Assignment<S>,
)
    requires
        same_conditions(conditions, others),
        agree_on_currents(conditions, values),
        rest.x.len() == rest.assigned.len(),
        forall|j: int|
            0 <= j < conditions.len() ==> initial_within(#[trigger] conditions[j], rest.x.len()),
        forall|j: int|
            0 <= j < others.len() ==> initial_within(#[trigger] others[j], rest.x.len()),
    ensures
        currents_from(conditions, values, 0, rest) is Ok ==> currents_from(
            conditions,
            values,
            0,
            rest,
        ) == currents_from(others, values, 0, rest),
{
    lemma_currents_valued(conditions, values, 0, rest);
    lemma_currents_valued(others, values, 0, rest);
    if let Ok(one) = currents_from(conditions, values, 0, rest) {
        assert(currents_valued(others, values, 0)) by {
            assert forall|j: int|
                0 <= j < others.len() && (#[trigger] others[j]) is Current implies expr::value(
                others[j]->Current_value,
                values,
            ) is Ok by {
                assert(conditions.contains(others[j]));
                let k = choose|k: int| 0 <= k < conditions.len() && conditions[k] == others[j];
                assert(conditions[k] is Current);
            }
        }
        let two = currents_from(others, values, 0, rest)->Ok_0;
        lemma_current_lengths(conditions, values, 0, rest);
        lemma_current_lengths(others, values, 0, rest);
        assert forall|n: int| 0 <= n < rest.x.len() implies #[trigger] one.x[n] == two.x[n]
            && one.assigned[n] == two.assigned[n] by {
            lemma_current_of_branch(conditions, values, 0, rest, n);
            lemma_current_of_branch(others, values, 0, rest, n);
            if fixes(conditions, values, 0, n, one.x[n]) {
                lemma_fixes_others(conditions, others, values, n, one.x[n]);
            }
            if fixes(others, values, 0, n, two.x[n]) {
                lemma_fixes_others(others, conditions, values, n, two.x[n]);
                lemma_one_current(conditions, values, n, one.x[n], two.x[n]);
            }
        }
        assert(one.x =~= two.x);
        assert forall|n: int| 0 <= n < rest.x.len() implies one.assigned[n] == two.assigned[n] by {
            assert(one.x[n] == two.x[n]);
        }
        assert(one.assigned =~= two.assigned);
    }
}

proof fn lemma_current_lengths<S: Scalar>(
    conditions: Seq<Initial<S>>,
    values: Map<Seq<char>, S>,
    i: int,
    state: Assignment<S>,
)
    requires
        0 <= i <= conditions.len(),
        state.x.len() == state.assigned.len(),
        forall|j: int|
            0 <= j < conditions.len() ==> initial_within(#[trigger] conditions[j], state.x.len()),
    ensures
        currents_from(conditions, values, i, state) matches Ok(after) ==> after.x.len()
            == state.x.len() && after.assigned.len() == state.assigned.len(),
    decreases conditions.len() - i,
{
    if i < conditions.len() {
        assert(initial_within(conditions[i], state.x.len()));
        match conditions[i] {
            Initial::Current { branch, value, .. } => {
                if let Ok(v) = expr::value(value, values) {
                    lemma_current_lengths(
                        conditions,
                        values,
                        i + 1,
                        with_value(state, branch as int, v),
                    );
                }
            },
            Initial::Voltage { .. } => {
                lemma_current_lengths(conditions, values, i + 1, state);
            },
        }
    }
}

// The same state

/// A vertex from `i` on is the given unknown.
spec fn touched<S>(found: Potentials<S>, i: int, n: int) -> bool {
    exists|j: int| i <= j < found.len() && (#[trigger] found[j]).0 == Some(n as usize)
}

proof fn lemma_assigned_from<S: Scalar>(
    found: Potentials<S>,
    i: int,
    state: Assignment<S>,
    n: int,
)
    requires
        0 <= i <= found.len(),
        0 <= n < state.x.len() <= usize::MAX + 1,
        state.x.len() == state.assigned.len(),
        forall|j: int|
            0 <= j < found.len() && (#[trigger] found[j]).0 is Some ==> found[j].0->0
                < state.x.len(),
    ensures
        ({
            let after = potentials_from(found, i, state);
            &&& after.x.len() == state.x.len()
            &&& after.assigned.len() == state.x.len()
            &&& after.assigned[n] == (state.assigned[n] || touched(found, i, n))
        }),
    decreases found.len() - i,
{
    if i < found.len() {
        let next = match found[i].0 {
            Some(index) => with_value(state, index as int, found[i].1),
            None => state,
        };
        lemma_assigned_from(found, i + 1, next, n);
        if touched(found, i, n) {
            let j = choose|j: int|
                i <= j < found.len() && (#[trigger] found[j]).0 == Some(n as usize);
            if j > i {
                assert(touched(found, i + 1, n));
            }
        }
        if touched(found, i + 1, n) {
            let j = choose|j: int|
                i + 1 <= j < found.len() && (#[trigger] found[j]).0 == Some(n as usize);
            assert(found[j].0 == Some(n as usize));
        }
        if found[i].0 == Some(n as usize) {
            assert(touched(found, i, n));
        }
    }
}

/// A finished walk finds every vertex of an edge, and no other.
proof fn lemma_walk_touches<S: Scalar>(edges: Seq<Edge<S>>, tolerance: S, n: int)
    requires
        in_pairs(edges),
        walked(edges, tolerance, edges.len()) is Ok,
    ensures
        touched(walked(edges, tolerance, edges.len())->Ok_0, 0, n) == starts_edge(
            edges,
            Some(n as usize),
        ),
{
    let v = Some(n as usize);
    let found = walked(edges, tolerance, edges.len())->Ok_0;
    lemma_pairs_are_two_way(edges);
    lemma_walked(edges, tolerance, edges.len());
    if starts_edge(edges, v) {
        let e = choose|e: int| 0 <= e < edges.len() && (#[trigger] edges[e]).from == v;
        lemma_walk_is_complete(edges, tolerance, e);
        lemma_reached(found, v, 0);
        assert(found[reached_at(found, v, 0)].0 == v);
    }
    if touched(found, 0, n) {
        let j = choose|j: int| 0 <= j < found.len() && (#[trigger] found[j]).0 == v;
        assert(starts_edge(edges, found[j].0));
    }
}

proof fn lemma_found_within<S: Scalar>(
    edges: Seq<Edge<S>>,
    found: Potentials<S>,
    order: nat,
)
    requires
        anchored(found, edges),
        edges_within(edges, order),
    ensures
        forall|j: int|
            0 <= j < found.len() && (#[trigger] found[j]).0 is Some ==> found[j].0->0 < order,
{
    assert forall|j: int| 0 <= j < found.len() && (#[trigger] found[j]).0 is Some implies
        found[j].0->0 < order by {
        assert(starts_edge(edges, found[j].0));
        let f = choose|f: int| 0 <= f < edges.len() && (#[trigger] edges[f]).from == found[j].0;
        assert(edges[f].from is Some ==> edges[f].from->0 < order);
    }
}

/// Two walks that find the same vertices at the same potentials lead to the same state.
proof fn lemma_same_state<S: Scalar>(
    found: Potentials<S>,
    others: Potentials<S>,
    state: Assignment<S>,
    p: spec_fn(Option<usize>) -> S,
)
    requires
        each_once(found),
        each_once(others),
        follows(found, p),
        follows(others, p),
        state.x.len() == state.assigned.len(),
        state.x.len() <= usize::MAX + 1,
        forall|j: int|
            0 <= j < found.len() && (#[trigger] found[j]).0 is Some ==> found[j].0->0
                < state.x.len(),
        forall|j: int|
            0 <= j < others.len() && (#[trigger] others[j]).0 is Some ==> others[j].0->0
                < state.x.len(),
        forall|n: int| #[trigger] touched(found, 0, n) == touched(others, 0, n),
    ensures
        potentials_from(found, 0, state) == potentials_from(others, 0, state),
{
    let one = potentials_from(found, 0, state);
    let two = potentials_from(others, 0, state);
    lemma_potentials_from(found, 0, state);
    lemma_potentials_from(others, 0, state);
    assert forall|n: int| 0 <= n < state.x.len() implies #[trigger] one.x[n] == two.x[n]
        && one.assigned[n] == two.assigned[n] by {
        lemma_assigned_from(found, 0, state, n);
        lemma_assigned_from(others, 0, state, n);
        if touched(found, 0, n) {
            assert(touched(others, 0, n));
            let i = choose|i: int|
                0 <= i < found.len() && (#[trigger] found[i]).0 == Some(n as usize);
            let j = choose|j: int|
                0 <= j < others.len() && (#[trigger] others[j]).0 == Some(n as usize);
            assert(one.x[found[i].0->0 as int] == found[i].1);
            assert(two.x[others[j].0->0 as int] == others[j].1);
        } else {
            assert(!touched(others, 0, n));
            assert(untouched(found, 0, n));
            assert(untouched(others, 0, n));
        }
    }
    assert(one.x =~= two.x);
    assert forall|n: int| 0 <= n < state.x.len() implies one.assigned[n] == two.assigned[n] by {
        assert(one.x[n] == two.x[n]);
    }
    assert(one.assigned =~= two.assigned);
}

/// Of two walks over the same edges both go through, and find the same potentials.
proof fn lemma_both_walks_follow<S: Scalar>(
    edges: Seq<Edge<S>>,
    others: Seq<Edge<S>>,
    tolerance: S,
    p: spec_fn(Option<usize>) -> S,
)
    requires
        is_decisive(tolerance),
        forall|a: S| !#[trigger] contradict(a, a, tolerance),
        in_pairs(edges),
        in_pairs(others),
        same_edges(edges, others),
        walked(edges, tolerance, edges.len()) is Ok,
        p == (|v: Option<usize>|
            found_potential(walked(edges, tolerance, edges.len())->Ok_0, v)),
    ensures
        follows(walked(edges, tolerance, edges.len())->Ok_0, p),
        walked(others, tolerance, others.len()) matches Ok(found) && follows(found, p),
{
    lemma_pairs_are_two_way(edges);
    lemma_pairs_are_two_way(others);
    lemma_pairs_are_reversible(edges);
    lemma_pairs_are_reversible(others);
    lemma_walk_settles(edges, tolerance, p);
    lemma_same_settlement(edges, others, p);
    lemma_walk_follows(edges, tolerance, edges.len(), p);
    lemma_walk_follows(others, tolerance, others.len(), p);
}

proof fn lemma_both_walks_touch<S: Scalar>(
    edges: Seq<Edge<S>>,
    others: Seq<Edge<S>>,
    tolerance: S,
    n: int,
)
    requires
        in_pairs(edges),
        in_pairs(others),
        same_edges(edges, others),
        walked(edges, tolerance, edges.len()) is Ok,
        walked(others, tolerance, others.len()) is Ok,
    ensures
        touched(walked(edges, tolerance, edges.len())->Ok_0, 0, n) == touched(
            walked(others, tolerance, others.len())->Ok_0,
            0,
            n,
        ),
{
    lemma_walk_touches(edges, tolerance, n);
    lemma_walk_touches(others, tolerance, n);
    lemma_same_edges(edges, others);
    assert(starts_edge(edges, Some(n as usize)) == starts_edge(others, Some(n as usize)));
}

proof fn lemma_same_walks<S: Scalar>(
    edges: Seq<Edge<S>>,
    others: Seq<Edge<S>>,
    tolerance: S,
    order: nat,
    state: Assignment<S>,
)
    requires
        is_decisive(tolerance),
        forall|a: S| !#[trigger] contradict(a, a, tolerance),
        in_pairs(edges),
        in_pairs(others),
        edges_within(edges, order),
        edges_within(others, order),
        same_edges(edges, others),
        order <= usize::MAX + 1,
        state.x.len() == order,
        state.assigned.len() == order,
    ensures
        walked(edges, tolerance, edges.len()) matches Ok(found) ==> (walked(
            others,
            tolerance,
            others.len(),
        ) matches Ok(other_found) && potentials_from(found, 0, state) == potentials_from(
            other_found,
            0,
            state,
        )),
{
    if let Ok(found) = walked(edges, tolerance, edges.len()) {
        let p = |v: Option<usize>|
            found_potential(walked(edges, tolerance, edges.len())->Ok_0, v);
        lemma_both_walks_follow(edges, others, tolerance, p);
        let other_found = walked(others, tolerance, others.len())->Ok_0;
        lemma_pairs_are_two_way(edges);
        lemma_pairs_are_two_way(others);
        lemma_walked(edges, tolerance, edges.len());
        lemma_walked(others, tolerance, others.len());
        lemma_found_within(edges, found, order);
        lemma_found_within(others, other_found, order);
        assert forall|n: int| #[trigger] touched(found, 0, n) == touched(other_found, 0, n) by {
            lemma_both_walks_touch(edges, others, tolerance, n);
        }
        lemma_same_state(found, other_found, state, p);
    }
}

proof fn lemma_order_does_not_matter<S: Scalar>(
    conditions: Seq<Initial<S>>,
    others: Seq<Initial<S>>,
    values: Map<Seq<char>, S>,
    tolerance: S,
    order: nat,
)
    requires
        is_decisive(tolerance),
        forall|a: S| !#[trigger] contradict(a, a, tolerance),
        order <= usize::MAX + 1,
        forall|j: int| 0 <= j < conditions.len() ==> initial_within(#[trigger] conditions[j], order),
        forall|j: int| 0 <= j < others.len() ==> initial_within(#[trigger] others[j], order),
        same_conditions(conditions, others),
        agree_on_currents(conditions, values),
        assignment(conditions, values, tolerance, order) is Ok,
    ensures
        assignment(conditions, values, tolerance, order) == assignment(
            others,
            values,
            tolerance,
            order,
        ),
{
    let none = Seq::<Edge<S>>::empty();
    let rest = Assignment::<S> {
        x: Seq::new(order, |i: int| S::nought()),
        assigned: Seq::new(order, |i: int| false),
    };
    lemma_same_conditions_give_same_currents(conditions, others, values, rest);
    lemma_same_conditions_give_same_edges(conditions, others, values);
    lemma_current_lengths(conditions, values, 0, rest);
    lemma_edges_from(conditions, values, 0, none, order);
    lemma_edges_from(others, values, 0, none, order);
    let state = currents_from(conditions, values, 0, rest)->Ok_0;
    let edges = edges_from(conditions, values, 0, none)->Ok_0;
    let other_edges = edges_from(others, values, 0, none)->Ok_0;
    lemma_same_walks(edges, other_edges, tolerance, order, state);
}

/// The starting state does not depend on the order of the conditions, nor does whether there is
/// one. Where several conditions fix the current of one branch they have to agree, since the
/// last of them counts.
pub proof fn law_order_of_conditions_does_not_matter<S: Scalar>(
    conditions: Seq<Initial<S>>,
    others: Seq<Initial<S>>,
    values: Map<Seq<char>, S>,
    tolerance: S,
    order: nat,
)
    requires
        is_decisive(tolerance),
        forall|a: S| !#[trigger] contradict(a, a, tolerance),
        order <= usize::MAX,
        forall|j: int| 0 <= j < conditions.len() ==> initial_within(#[trigger] conditions[j], order),
        forall|j: int| 0 <= j < others.len() ==> initial_within(#[trigger] others[j], order),
        same_conditions(conditions, others),
        agree_on_currents(conditions, values),
    ensures
        assignment(conditions, values, tolerance, order) is Ok <==> assignment(
            others,
            values,
            tolerance,
            order,
        ) is Ok,
        assignment(conditions, values, tolerance, order) is Ok ==> assignment(
            conditions,
            values,
            tolerance,
            order,
        ) == assignment(others, values, tolerance, order),
{
    if assignment(conditions, values, tolerance, order) is Ok {
        lemma_order_does_not_matter(conditions, others, values, tolerance, order);
    }
    if assignment(others, values, tolerance, order) is Ok {
        assert(agree_on_currents(others, values)) by {
            assert forall|i: int, j: int|
                0 <= i < others.len() && 0 <= j < others.len() && (#[trigger] others[i])
                    is Current && (#[trigger] others[j]) is Current && others[i]->branch
                    == others[j]->branch implies expr::value(others[i]->Current_value, values)
                == expr::value(others[j]->Current_value, values) by {
                assert(conditions.contains(others[i]));
                assert(conditions.contains(others[j]));
                let k = choose|k: int| 0 <= k < conditions.len() && conditions[k] == others[i];
                let l = choose|l: int| 0 <= l < conditions.len() && conditions[l] == others[j];
                assert(conditions[k] is Current && conditions[l] is Current);
            }
        }
        lemma_order_does_not_matter(others, conditions, values, tolerance, order);
    }
}

proof fn lemma_first_is_found<S: Scalar>(
    edges: Seq<Edge<S>>,
    tolerance: S,
    v: Option<usize>,
) -> (at: int)
    requires
        in_pairs(edges),
        starts_edge(edges, v),
        comes_first(edges, v),
        walked(edges, tolerance, edges.len()) is Ok,
    ensures
        ({
            let found = walked(edges, tolerance, edges.len())->Ok_0;
            &&& each_once(found)
            &&& anchored(found, edges)
            &&& 0 <= at < found.len()
            &&& found[at] == (v, S::nought())
        }),
{
    let found = walked(edges, tolerance, edges.len())->Ok_0;
    lemma_pairs_are_two_way(edges);
    lemma_pairs_are_reversible(edges);
    lemma_walked(edges, tolerance, edges.len());
    lemma_first_is_at_rest(edges, tolerance, v);
    let e = choose|e: int| 0 <= e < edges.len() && (#[trigger] edges[e]).from == v;
    lemma_walk_is_complete(edges, tolerance, e);
    lemma_reached(found, v, 0);
    reached_at(found, v, 0)
}

/// Where capacitors with a condition make up an island, the first of its nodes is at zero: ground
/// where it is one of them, else the node that comes first among the unknowns.
pub proof fn law_islands_rest_at_their_first_node<S: Scalar>(
    conditions: Seq<Initial<S>>,
    values: Map<Seq<char>, S>,
    tolerance: S,
    order: nat,
    edges: Seq<Edge<S>>,
    v: usize,
)
    requires
        forall|j: int| 0 <= j < conditions.len() ==> initial_within(#[trigger] conditions[j], order),
        edges_from(conditions, values, 0, Seq::empty()) == Ok::<
            Seq<Edge<S>>,
            crate::initial_state::Obstacle<S>,
        >(edges),
        starts_edge(edges, Some(v)),
        comes_first(edges, Some(v)),
    ensures
        assignment(conditions, values, tolerance, order) matches Ok(state) ==> state.x[v as int]
            == S::nought(),
{
    let none = Seq::<Edge<S>>::empty();
    let rest = Assignment::<S> {
        x: Seq::new(order, |i: int| S::nought()),
        assigned: Seq::new(order, |i: int| false),
    };
    if let Ok(state) = assignment(conditions, values, tolerance, order) {
        let found = walked(edges, tolerance, edges.len())->Ok_0;
        let start = currents_from(conditions, values, 0, rest)->Ok_0;
        lemma_currents_from(conditions, values, 0, rest);
        lemma_edges_from(conditions, values, 0, none, order);
        let at = lemma_first_is_found(edges, tolerance, Some(v));
        lemma_found_within(edges, found, order);
        lemma_potentials_from(found, 0, start);
        assert(found[at].0 is Some);
    }
}

// Loops

/// A list of edges, by their numbers, that leads from one vertex to another.
pub open spec fn is_path<S>(
    edges: Seq<Edge<S>>,
    a: Option<usize>,
    path: Seq<int>,
    b: Option<usize>,
) -> bool
    decreases path.len(),
{
    if path.len() == 0 {
        a == b
    } else {
        let e = path.last();
        &&& 0 <= e < edges.len()
        &&& edges[e].to == b
        &&& is_path(edges, a, path.drop_last(), edges[e].from)
    }
}

/// The sum of the voltages declared along a path.
pub open spec fn declared_along<S: Scalar>(edges: Seq<Edge<S>>, path: Seq<int>) -> S
    decreases path.len(),
{
    if path.len() == 0 {
        S::nought()
    } else {
        declared_along(edges, path.drop_last()).sum(edges[path.last()].delta)
    }
}

/// The voltages declared around every loop sum to zero.
pub open spec fn loops_close<S: Scalar>(edges: Seq<Edge<S>>) -> bool {
    forall|a: Option<usize>, path: Seq<int>| #[trigger]
        is_path(edges, a, path, a) ==> declared_along(edges, path) == S::nought()
}

/// Every edge has one in the opposite direction, with the opposite voltage.
spec fn opposed<S: Scalar>(edges: Seq<Edge<S>>) -> bool {
    &&& edges.len() % 2 == 0
    &&& forall|j: int|
        #![trigger edges[2 * j]]
        0 <= 2 * j < edges.len() ==> edges[2 * j].from == edges[2 * j + 1].to && edges[2 * j].to
            == edges[2 * j + 1].from && edges[2 * j + 1].delta == edges[2 * j].delta.negation()
}

proof fn lemma_edges_are_opposed<S: Scalar>(
    conditions: Seq<Initial<S>>,
    values: Map<Seq<char>, S>,
    i: int,
    edges: Seq<Edge<S>>,
)
    requires
        0 <= i <= conditions.len(),
        opposed(edges),
    ensures
        edges_from(conditions, values, i, edges) matches Ok(all) ==> opposed(all),
    decreases conditions.len() - i,
{
    if i < conditions.len() {
        match conditions[i] {
            Initial::Voltage { element, positive, negative, value } => {
                if let Ok(v) = expr::value(value, values) {
                    let more = edges.push(
                        Edge { from: positive, to: negative, delta: v, element },
                    ).push(Edge { from: negative, to: positive, delta: v.negation(), element });
                    assert forall|j: int|
                        #![trigger more[2 * j]]
                        0 <= 2 * j < more.len() implies more[2 * j].from == more[2 * j + 1].to
                        && more[2 * j].to == more[2 * j + 1].from && more[2 * j + 1].delta
                        == more[2 * j].delta.negation() by {
                        if 2 * j < edges.len() {
                            assert(more[2 * j] == edges[2 * j]);
                            assert(2 * j + 1 < edges.len());
                            assert(more[2 * j + 1] == edges[2 * j + 1]);
                        } else {
                            assert(2 * j == edges.len());
                        }
                    }
                    lemma_edges_are_opposed(conditions, values, i + 1, more);
                }
            },
            Initial::Current { .. } => {
                lemma_edges_are_opposed(conditions, values, i + 1, edges);
            },
        }
    }
}

proof fn lemma_opposed_in_pairs<S: Scalar>(edges: Seq<Edge<S>>)
    requires
        opposed(edges),
    ensures
        in_pairs(edges),
{
}

proof fn lemma_path_joined<S: Scalar>(
    edges: Seq<Edge<S>>,
    a: Option<usize>,
    p: Seq<int>,
    b: Option<usize>,
    q: Seq<int>,
    c: Option<usize>,
)
    requires
        exact::<S>(),
        is_path(edges, a, p, b),
        is_path(edges, b, q, c),
    ensures
        is_path(edges, a, p + q, c),
        declared_along(edges, p + q) == declared_along(edges, p).sum(declared_along(edges, q)),
    decreases q.len(),
{
    if q.len() == 0 {
        assert(p + q =~= p);
        lemma_sum_zero(declared_along(edges, p));
    } else {
        let e = q.last();
        lemma_path_joined(edges, a, p, b, q.drop_last(), edges[e].from);
        assert((p + q).drop_last() =~= p + q.drop_last());
        assert((p + q).last() == e);
        lemma_sum_associates(
            declared_along(edges, p),
            declared_along(edges, q.drop_last()),
            edges[e].delta,
        );
    }
}

proof fn lemma_single_step<S: Scalar>(edges: Seq<Edge<S>>, e: int)
    requires
        exact::<S>(),
        0 <= e < edges.len(),
    ensures
        is_path(edges, edges[e].from, seq![e], edges[e].to),
        declared_along(edges, seq![e]) == edges[e].delta,
{
    assert(seq![e].drop_last() =~= Seq::<int>::empty());
    reveal_with_fuel(is_path, 2);
    reveal_with_fuel(declared_along, 2);
    lemma_sum_zero(edges[e].delta);
}

/// The edge in the opposite direction.
proof fn lemma_opposite<S: Scalar>(edges: Seq<Edge<S>>, e: int) -> (f: int)
    requires
        exact::<S>(),
        opposed(edges),
        0 <= e < edges.len(),
    ensures
        0 <= f < edges.len(),
        edges[f].from == edges[e].to,
        edges[f].to == edges[e].from,
        edges[f].delta == edges[e].delta.negation(),
{
    let j = e / 2;
    assert(edges[2 * j].from == edges[2 * j + 1].to);
    if e == 2 * j {
        e + 1
    } else {
        assert(e == 2 * j + 1);
        lemma_negation_twice(edges[2 * j].delta);
        e - 1
    }
}

/// The way back along a path.
proof fn lemma_way_back<S: Scalar>(
    edges: Seq<Edge<S>>,
    a: Option<usize>,
    p: Seq<int>,
    b: Option<usize>,
) -> (q: Seq<int>)
    requires
        exact::<S>(),
        opposed(edges),
        is_path(edges, a, p, b),
    ensures
        is_path(edges, b, q, a),
        declared_along(edges, q) == declared_along(edges, p).negation(),
    decreases p.len(),
{
    if p.len() == 0 {
        lemma_negation_twice(S::nought());
        lemma_negation(S::nought());
        lemma_sum_zero(S::nought().negation());
        Seq::empty()
    } else {
        let e = p.last();
        let f = lemma_opposite(edges, e);
        let rest = lemma_way_back(edges, a, p.drop_last(), edges[e].from);
        lemma_single_step(edges, f);
        lemma_path_joined(edges, b, seq![f], edges[e].from, rest, a);
        let (x, y) = (declared_along(edges, p.drop_last()), edges[e].delta);
        lemma_negation_of_sum(x, y);
        lemma_sum_commutes(x.negation(), y.negation());
        seq![f] + rest
    }
}

/// Where a vertex can be reached from another, a path leads there.
proof fn lemma_path_exists<S: Scalar>(edges: Seq<Edge<S>>, a: Option<usize>, b: Option<usize>)
    requires
        exact::<S>(),
        connected(edges, a, b),
    ensures
        exists|path: Seq<int>| is_path(edges, a, path, b),
{
    let within = |v: Option<usize>| exists|path: Seq<int>| is_path(edges, a, path, v);
    assert(is_path(edges, a, Seq::<int>::empty(), a));
    assert forall|e: int| 0 <= e < edges.len() && within((#[trigger] edges[e]).from) implies within(
        edges[e].to,
    ) by {
        let path = choose|path: Seq<int>| is_path(edges, a, path, edges[e].from);
        lemma_single_step(edges, e);
        lemma_path_joined(edges, a, path, edges[e].from, seq![e], edges[e].to);
    }
    assert(closed_set(edges, within));
    assert(within(a));
    assert(within(b));
}

/// The place of a vertex in the order of vertices.
spec fn rank(v: Option<usize>) -> nat {
    match v {
        None => 0,
        Some(i) => (i + 1) as nat,
    }
}

proof fn lemma_connected_onwards<S>(
    edges: Seq<Edge<S>>,
    a: Option<usize>,
    b: Option<usize>,
    c: Option<usize>,
)
    requires
        connected(edges, a, b),
        connected(edges, b, c),
    ensures
        connected(edges, a, c),
{
    assert forall|set: spec_fn(Option<usize>) -> bool|
        #[trigger] closed_set(edges, set) && set(a) implies set(c) by {
        assert(set(b));
    }
}

/// A vertex that comes first can be reached from every vertex of an edge.
proof fn lemma_first_exists<S>(edges: Seq<Edge<S>>, v: Option<usize>) -> (r: Option<usize>)
    requires
        starts_edge(edges, v),
    ensures
        connected(edges, v, r),
        starts_edge(edges, r),
        comes_first(edges, r),
    decreases rank(v),
{
    lemma_connected_to_itself(edges, v);
    if comes_first(edges, v) {
        v
    } else {
        let w = choose|w: Option<usize>| #[trigger]
            starts_edge(edges, w) && connected(edges, v, w) && vertex_before(w, v);
        let r = lemma_first_exists(edges, w);
        lemma_connected_onwards(edges, v, w, r);
        r
    }
}

/// The vertex that comes first among those that can be reached.
spec fn first_of<S>(edges: Seq<Edge<S>>, v: Option<usize>) -> Option<usize> {
    choose|r: Option<usize>| #[trigger]
        starts_edge(edges, r) && connected(edges, v, r) && comes_first(edges, r)
}

/// A path from one vertex to another.
spec fn way<S>(edges: Seq<Edge<S>>, a: Option<usize>, b: Option<usize>) -> Seq<int> {
    choose|path: Seq<int>| is_path(edges, a, path, b)
}

/// The potential that a path from the first vertex implies.
spec fn implied_potential<S: Scalar>(edges: Seq<Edge<S>>, v: Option<usize>) -> S {
    declared_along(edges, way(edges, first_of(edges, v), v)).negation()
}

proof fn lemma_way<S: Scalar>(edges: Seq<Edge<S>>, v: Option<usize>)
    requires
        exact::<S>(),
        reversible(edges),
        starts_edge(edges, v),
    ensures
        starts_edge(edges, first_of(edges, v)),
        comes_first(edges, first_of(edges, v)),
        connected(edges, v, first_of(edges, v)),
        is_path(edges, first_of(edges, v), way(edges, first_of(edges, v), v), v),
{
    let found = lemma_first_exists(edges, v);
    assert(starts_edge(edges, found) && connected(edges, v, found) && comes_first(edges, found));
    let r = first_of(edges, v);
    lemma_connected_back(edges, v, r);
    lemma_path_exists(edges, r, v);
}

/// Two paths between the same vertices declare the same voltage where loops close.
proof fn lemma_paths_agree<S: Scalar>(
    edges: Seq<Edge<S>>,
    a: Option<usize>,
    p: Seq<int>,
    q: Seq<int>,
    b: Option<usize>,
)
    requires
        exact::<S>(),
        opposed(edges),
        loops_close(edges),
        is_path(edges, a, p, b),
        is_path(edges, a, q, b),
    ensures
        declared_along(edges, p) == declared_along(edges, q),
{
    let back = lemma_way_back(edges, a, q, b);
    lemma_path_joined(edges, a, p, b, back, a);
    let (x, y) = (declared_along(edges, p), declared_along(edges, q));
    assert(x.sum(y.negation()) == S::nought());
    lemma_sum_associates(x, y.negation(), y);
    lemma_negation(y);
    lemma_sum_commutes(y.negation(), y);
    lemma_sum_zero(x);
    lemma_sum_zero(y);
    lemma_sum_commutes(S::nought(), y);
}

proof fn lemma_implied_step<S: Scalar>(edges: Seq<Edge<S>>, e: int)
    requires
        exact::<S>(),
        opposed(edges),
        loops_close(edges),
        0 <= e < edges.len(),
    ensures
        implied_potential(edges, edges[e].to) == implied_potential(
            edges,
            edges[e].from,
        ).difference(edges[e].delta),
{
    let (a, b) = (edges[e].from, edges[e].to);
    lemma_opposed_in_pairs(edges);
    lemma_pairs_are_reversible(edges);
    let f = lemma_opposite(edges, e);
    assert(starts_edge(edges, a)) by {
        assert(edges[e].from == a);
    }
    assert(starts_edge(edges, b)) by {
        assert(edges[f].from == b);
    }
    lemma_way(edges, a);
    lemma_way(edges, b);
    let (ra, rb) = (first_of(edges, a), first_of(edges, b));
    lemma_connected_back(edges, a, ra);
    lemma_connected_by_edge(edges, ra, e);
    lemma_connected_onwards(edges, ra, b, rb);
    lemma_one_root(edges, ra, rb);
    let (wa, wb) = (way(edges, ra, a), way(edges, rb, b));
    lemma_single_step(edges, e);
    lemma_path_joined(edges, ra, wa, a, seq![e], b);
    lemma_paths_agree(edges, ra, wa + seq![e], wb, b);
    let x = declared_along(edges, wa);
    lemma_negation_of_sum(x, edges[e].delta);
    lemma_difference(x.negation(), edges[e].delta);
}

proof fn lemma_closed_loops_settle<S: Scalar>(
    edges: Seq<Edge<S>>,
    p: spec_fn(Option<usize>) -> S,
)
    requires
        exact::<S>(),
        opposed(edges),
        loops_close(edges),
        p == (|v: Option<usize>| implied_potential(edges, v)),
    ensures
        settles(edges, p),
{
    assert forall|e: int| 0 <= e < edges.len() implies p((#[trigger] edges[e]).to) == p(
        edges[e].from,
    ).difference(edges[e].delta) by {
        lemma_implied_step(edges, e);
    }
    assert forall|v: Option<usize>|
        #[trigger] starts_edge(edges, v) && comes_first(edges, v) implies p(v) == S::nought() by {
        lemma_first_implies_nothing(edges, v);
    }
}

proof fn lemma_first_implies_nothing<S: Scalar>(edges: Seq<Edge<S>>, v: Option<usize>)
    requires
        exact::<S>(),
        opposed(edges),
        loops_close(edges),
        starts_edge(edges, v),
        comes_first(edges, v),
    ensures
        implied_potential(edges, v) == S::nought(),
{
    lemma_opposed_in_pairs(edges);
    lemma_pairs_are_reversible(edges);
    lemma_way(edges, v);
    let r = first_of(edges, v);
    lemma_one_root(edges, v, r);
    assert(is_path(edges, v, way(edges, r, v), v));
    lemma_negation(S::nought());
    lemma_sum_zero(S::nought().negation());
}

/// Along a path the potential falls by the declared voltages.
proof fn lemma_fall_along<S: Scalar>(
    edges: Seq<Edge<S>>,
    p: spec_fn(Option<usize>) -> S,
    a: Option<usize>,
    path: Seq<int>,
    b: Option<usize>,
)
    requires
        exact::<S>(),
        settles(edges, p),
        is_path(edges, a, path, b),
    ensures
        p(b) == p(a).difference(declared_along(edges, path)),
    decreases path.len(),
{
    if path.len() == 0 {
        lemma_difference(p(a), S::nought());
        lemma_negation(S::nought());
        lemma_sum_zero(S::nought().negation());
        lemma_sum_zero(p(a));
    } else {
        let e = path.last();
        let before = path.drop_last();
        lemma_fall_along(edges, p, a, before, edges[e].from);
        let (x, y) = (declared_along(edges, before), edges[e].delta);
        assert(p(edges[e].to) == p(edges[e].from).difference(y));
        lemma_difference(p(a), x);
        lemma_difference(p(a).difference(x), y);
        lemma_difference(p(a), x.sum(y));
        lemma_negation_of_sum(x, y);
        lemma_sum_associates(p(a), x.negation(), y.negation());
    }
}

proof fn lemma_settled_loops_close<S: Scalar>(
    edges: Seq<Edge<S>>,
    p: spec_fn(Option<usize>) -> S,
)
    requires
        exact::<S>(),
        settles(edges, p),
    ensures
        loops_close(edges),
{
    assert forall|a: Option<usize>, path: Seq<int>| #[trigger]
        is_path(edges, a, path, a) implies declared_along(edges, path) == S::nought() by {
        lemma_fall_along(edges, p, a, path, a);
        let (x, t) = (p(a), declared_along(edges, path));
        // x == x - t
        lemma_difference(x, t);
        lemma_sum_zero(x);
        lemma_sum_commutes(x, t.negation());
        lemma_sum_commutes(x, S::nought());
        crate::field::lemma_sum_cancels(x, t.negation(), S::nought());
        lemma_negation_twice(t);
        lemma_negation(S::nought());
        lemma_sum_zero(S::nought().negation());
    }
}

/// A walk that does not go through fails for a conflict.
proof fn lemma_walk_fails_for_conflict<S: Scalar>(
    edges: Seq<Edge<S>>,
    tolerance: S,
    at: int,
    e: int,
    found: Potentials<S>,
)
    ensures
        expanded_from(edges, tolerance, at, e, found) matches Err(obstacle) ==> obstacle
            is ConflictingConditions,
    decreases edges.len() - e,
{
    if 0 <= e < edges.len() {
        let implied = found[at].1.difference(edges[e].delta);
        lemma_walk_fails_for_conflict(edges, tolerance, at, e + 1, found);
        lemma_walk_fails_for_conflict(
            edges,
            tolerance,
            at,
            e + 1,
            found.push((edges[e].to, implied)),
        );
    }
}

proof fn lemma_only_conflicts<S: Scalar>(edges: Seq<Edge<S>>, tolerance: S, n: nat)
    ensures
        walked(edges, tolerance, n) matches Err(obstacle) ==> obstacle is ConflictingConditions,
    decreases n,
{
    if n > 0 {
        lemma_only_conflicts(edges, tolerance, (n - 1) as nat);
        if let Ok(found) = walked(edges, tolerance, (n - 1) as nat) {
            lemma_walk_fails_for_conflict(edges, tolerance, n - 1, 0, found);
            if let Some(root) = next_root_from(edges, found, 0, None) {
                lemma_walk_fails_for_conflict(
                    edges,
                    tolerance,
                    n - 1,
                    0,
                    found.push((root, S::nought())),
                );
            }
        }
    }
}

proof fn lemma_walk_and_loops<S: Scalar>(edges: Seq<Edge<S>>, tolerance: S)
    requires
        exact::<S>(),
        is_decisive(tolerance),
        forall|a: S| !#[trigger] contradict(a, a, tolerance),
        opposed(edges),
    ensures
        walked(edges, tolerance, edges.len()) is Ok <==> loops_close(edges),
{
    lemma_opposed_in_pairs(edges);
    lemma_pairs_are_two_way(edges);
    lemma_pairs_are_reversible(edges);
    if walked(edges, tolerance, edges.len()) is Ok {
        let p = |v: Option<usize>|
            found_potential(walked(edges, tolerance, edges.len())->Ok_0, v);
        lemma_walk_settles(edges, tolerance, p);
        lemma_settled_loops_close(edges, p);
    }
    if loops_close(edges) {
        let p = |v: Option<usize>| implied_potential(edges, v);
        lemma_closed_loops_settle(edges, p);
        lemma_walk_follows(edges, tolerance, edges.len(), p);
    }
}

/// Where all conditions can be evaluated, they conflict exactly when the voltages declared around
/// some loop of capacitors do not sum to zero; otherwise there is a starting state.
pub proof fn law_conditions_conflict_around_a_loop<S: Scalar>(
    conditions: Seq<Initial<S>>,
    values: Map<Seq<char>, S>,
    tolerance: S,
    order: nat,
    edges: Seq<Edge<S>>,
)
    requires
        exact::<S>(),
        is_decisive(tolerance),
        forall|a: S| !#[trigger] contradict(a, a, tolerance),
        edges_from(conditions, values, 0, Seq::empty()) == Ok::<
            Seq<Edge<S>>,
            crate::initial_state::Obstacle<S>,
        >(edges),
        forall|j: int|
            0 <= j < conditions.len() && (#[trigger] conditions[j]) is Current ==> expr::value(
                conditions[j]->Current_value,
                values,
            ) is Ok,
    ensures
        assignment(conditions, values, tolerance, order) is Ok <==> loops_close(edges),
        assignment(conditions, values, tolerance, order) matches Err(obstacle) ==> obstacle
            is ConflictingConditions,
{
    let none = Seq::<Edge<S>>::empty();
    let rest = Assignment::<S> {
        x: Seq::new(order, |i: int| S::nought()),
        assigned: Seq::new(order, |i: int| false),
    };
    assert(currents_valued(conditions, values, 0));
    lemma_currents_valued(conditions, values, 0, rest);
    lemma_edges_are_opposed(conditions, values, 0, none);
    lemma_walk_and_loops(edges, tolerance);
    lemma_only_conflicts(edges, tolerance, edges.len());
}

} // verus!
