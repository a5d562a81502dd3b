//! The matrices of a circuit are symmetric as far as its devices are.

use crate::circuit::{
    added, admittance, branch_index, branches, coupling, couplings_from, device_marks, devices,
    effect_from, has_stamp, incidence, inductances_from, inputs, mark, marked, nodes, own_branch,
    position, scalar_value, switch_state, system, terminal, unknown_names, unsupported_message,
    zeros, Context, Effect, Mark, Place, Settings,
};
use crate::expr;
use crate::expr::Expr;
use crate::netlist::{Card, Device};
use crate::scalar::Scalar;
use vstd::prelude::*;

verus! {

/// A matrix with as many columns as rows.
pub open spec fn square<T>(m: Seq<Seq<T>>) -> bool {
    forall|i: int| 0 <= i < m.len() ==> (#[trigger] m[i]).len() == m.len()
}

/// A square matrix that is its own transpose.
pub open spec fn symmetric<T>(m: Seq<Seq<T>>) -> bool {
    &&& square(m)
    &&& forall|i: int, j: int|
        0 <= i < m.len() && 0 <= j < m.len() ==> #[trigger] m[i][j] == m[j][i]
}

spec fn applied<S: Scalar>(m: Seq<Seq<Expr<S>>>, place: Place, one: Mark<S>) -> Seq<
    Seq<Expr<S>>,
> {
    match (one.row, one.col) {
        (Some(row), Some(col)) => if one.place == place {
            added(m, row, col, one.value)
        } else {
            m
        },
        _ => m,
    }
}

proof fn lemma_marked_concat<S: Scalar>(
    start: Seq<Seq<Expr<S>>>,
    place: Place,
    a: Seq<Mark<S>>,
    b: Seq<Mark<S>>,
    n: nat,
)
    requires
        n <= b.len(),
    ensures
        marked(start, place, a + b, a.len() + n) == marked(
            marked(start, place, a, a.len()),
            place,
            b,
            n,
        ),
    decreases n,
{
    if n == 0 {
        lemma_marked_prefix(start, place, a, b, a.len());
    } else {
        lemma_marked_concat(start, place, a, b, (n - 1) as nat);
        assert((a + b)[a.len() + n - 1] == b[n - 1]);
    }
}

proof fn lemma_marked_prefix<S: Scalar>(
    start: Seq<Seq<Expr<S>>>,
    place: Place,
    a: Seq<Mark<S>>,
    b: Seq<Mark<S>>,
    n: nat,
)
    requires
        n <= a.len(),
    ensures
        marked(start, place, a + b, n) == marked(start, place, a, n),
    decreases n,
{
    if n > 0 {
        lemma_marked_prefix(start, place, a, b, (n - 1) as nat);
        assert((a + b)[n - 1] == a[n - 1]);
    }
}

proof fn lemma_marked_elsewhere<S: Scalar>(
    start: Seq<Seq<Expr<S>>>,
    place: Place,
    marks: Seq<Mark<S>>,
    n: nat,
)
    requires
        n <= marks.len(),
        forall|i: int| 0 <= i < marks.len() ==> (#[trigger] marks[i]).place != place,
    ensures
        marked(start, place, marks, n) == start,
    decreases n,
{
    if n > 0 {
        lemma_marked_elsewhere(start, place, marks, (n - 1) as nat);
    }
}

spec fn inside(index: Option<int>, order: nat) -> bool {
    index is Some ==> 0 <= index->0 < order
}

proof fn lemma_pair<S: Scalar>(
    m: Seq<Seq<Expr<S>>>,
    place: Place,
    i: Option<int>,
    j: Option<int>,
    v: Expr<S>,
)
    requires
        symmetric(m),
        inside(i, m.len()),
        inside(j, m.len()),
    ensures
        symmetric(applied(m, place, mark(place, i, i, v))),
        applied(m, place, mark(place, i, i, v)).len() == m.len(),
        symmetric(
            applied(
                applied(m, place, mark(place, i, j, v)),
                place,
                mark(place, j, i, v),
            ),
        ),
        applied(
            applied(m, place, mark(place, i, j, v)),
            place,
            mark(place, j, i, v),
        ).len() == m.len(),
{
    let one = applied(m, place, mark(place, i, i, v));
    let two = applied(
        applied(m, place, mark(place, i, j, v)),
        place,
        mark(place, j, i, v),
    );
    assert forall|r: int, c: int|
        0 <= r < one.len() && 0 <= c < one.len() implies #[trigger] one[r][c] == one[c][r] by {
        assert(m[r][c] == m[c][r]);
        assert(m[r].len() == m.len());
        assert(m[c].len() == m.len());
    }
    assert forall|r: int, c: int|
        0 <= r < two.len() && 0 <= c < two.len() implies #[trigger] two[r][c] == two[c][r] by {
        assert(m[r][c] == m[c][r]);
        assert(m[r].len() == m.len());
        assert(m[c].len() == m.len());
    }
}

proof fn lemma_admittance<S: Scalar>(
    m: Seq<Seq<Expr<S>>>,
    place: Place,
    p: Option<int>,
    n: Option<int>,
    y: Expr<S>,
)
    requires
        symmetric(m),
        inside(p, m.len()),
        inside(n, m.len()),
    ensures
        symmetric(marked(m, place, admittance(place, p, n, y), 4)),
        marked(m, place, admittance(place, p, n, y), 4).len() == m.len(),
{
    let marks = admittance(place, p, n, y);
    reveal_with_fuel(marked, 5);
    let m1 = applied(m, place, marks[0]);
    let m2 = applied(m1, place, marks[1]);
    let m3 = applied(m2, place, marks[2]);
    let m4 = applied(m3, place, marks[3]);
    lemma_pair(m, place, p, p, y);
    lemma_pair(m1, place, n, n, y);
    lemma_pair(m2, place, p, n, expr::negation(y));
    assert(marked(m, place, marks, 4) == m4);
}

proof fn lemma_incidence<S: Scalar>(
    m: Seq<Seq<Expr<S>>>,
    p: Option<int>,
    n: Option<int>,
    branch: int,
)
    requires
        symmetric(m),
        0 <= branch < m.len(),
        inside(p, branch as nat),
        inside(n, branch as nat),
    ensures
        symmetric(marked(m, Place::A, incidence(p, n, branch), 4)),
        marked(m, Place::A, incidence(p, n, branch), 4).len() == m.len(),
{
    let marks = incidence::<S>(p, n, branch);
    reveal_with_fuel(marked, 5);
    let m1 = applied(m, Place::A, marks[0]);
    let m2 = applied(m1, Place::A, marks[1]);
    let m3 = applied(m2, Place::A, marks[2]);
    let m4 = applied(m3, Place::A, marks[3]);
    assert(marked(m, Place::A, marks, 4) == m4);
    assert forall|r: int, c: int|
        0 <= r < m4.len() && 0 <= c < m4.len() implies #[trigger] m4[r][c] == m4[c][r] by {
        assert(m[r][c] == m[c][r]);
        assert(m[r].len() == m.len());
        assert(m[c].len() == m.len());
    }
    assert forall|r: int| 0 <= r < m4.len() implies (#[trigger] m4[r]).len() == m4.len() by {
        assert(m[r].len() == m.len());
    }
}

proof fn lemma_indices(node_list: Seq<Seq<char>>, name: Seq<char>, from: int)
    requires
        0 <= from <= node_list.len(),
    ensures
        0 <= position(node_list, name, from) <= node_list.len(),
    decreases node_list.len() - from,
{
    if from < node_list.len() {
        lemma_indices(node_list, name, from + 1);
    }
}

proof fn lemma_couplings<S: Scalar>(
    context: Context<S>,
    coefficient: Expr<S>,
    names: Seq<Seq<char>>,
    i: int,
    j: int,
    marks: Seq<Mark<S>>,
    m: Seq<Seq<Expr<S>>>,
)
    requires
        m.len() == context.nodes.len() + context.branches.len(),
        symmetric(marked(m, Place::K, marks, marks.len())),
        marked(m, Place::K, marks, marks.len()).len() == m.len(),
        forall|k: int| 0 <= k < marks.len() ==> (#[trigger] marks[k]).place == Place::K,
    ensures
        couplings_from(context, coefficient, names, i, j, marks) matches Ok(all) ==> {
            &&& symmetric(marked(m, Place::K, all, all.len()))
            &&& marked(m, Place::K, all, all.len()).len() == m.len()
            &&& forall|k: int| 0 <= k < all.len() ==> (#[trigger] all[k]).place == Place::K
        },
    decreases names.len() - i, names.len() - j,
{
    if 0 <= i < names.len() {
        if j >= names.len() {
            lemma_couplings(context, coefficient, names, i + 1, i + 2, marks, m);
        } else {
            match coupling(context, coefficient, names[i], names[j]) {
                Ok(more) => {
                    let b1 = branch_index(context.nodes, context.branches, names[i])->Ok_0;
                    let b2 = branch_index(context.nodes, context.branches, names[j])->Ok_0;
                    lemma_indices(context.branches, names[i], 0);
                    lemma_indices(context.branches, names[j], 0);
                    lemma_marked_concat(m, Place::K, marks, more, 2);
                    reveal_with_fuel(marked, 3);
                    let start = marked(m, Place::K, marks, marks.len());
                    lemma_pair(start, Place::K, Some(b1), Some(b2), more[0].value);
                    assert(marked(start, Place::K, more, 2) == applied(
                        applied(start, Place::K, more[0]),
                        Place::K,
                        more[1],
                    ));
                    lemma_couplings(context, coefficient, names, i, j + 1, marks + more, m);
                },
                Err(_) => {},
            }
        }
    }
}

/// A source that some other quantity of the circuit controls.
pub open spec fn is_controlled(letter: char) -> bool {
    letter == 'E' || letter == 'F' || letter == 'G' || letter == 'H'
}

proof fn lemma_device_storage<S: Scalar>(
    context: Context<S>,
    device: Device,
    m: Seq<Seq<Expr<S>>>,
)
    requires
        symmetric(m),
        m.len() == context.nodes.len() + context.branches.len(),
        has_stamp(context.settings, device),
    ensures
        device_marks(context, device) matches Ok(marks) ==> {
            &&& symmetric(marked(m, Place::K, marks, marks.len()))
            &&& marked(m, Place::K, marks, marks.len()).len() == m.len()
        },
{
    if let Ok(marks) = device_marks(context, device) {
        if device.nodes.len() > 0 {
            lemma_indices(context.nodes, device.nodes[0], 0);
        }
        if device.nodes.len() > 1 {
            lemma_indices(context.nodes, device.nodes[1], 0);
        }
        lemma_indices(context.branches, device.name, 0);
        if switch_state(context.settings, device) is None && device.letter == 'C' {
            lemma_admittance(
                m,
                Place::K,
                terminal(context, device, 0),
                terminal(context, device, 1),
                scalar_value::<S>(device)->Ok_0,
            );
        } else if switch_state(context.settings, device) is None && device.letter == 'L' {
            let (branch, tied) = own_branch::<S>(context, device)->Ok_0;
            lemma_marked_elsewhere(m, Place::K, tied, 4);
            lemma_marked_concat(m, Place::K, tied, seq![marks[4]], 1);
            assert(tied + seq![marks[4]] =~= marks);
            reveal_with_fuel(marked, 2);
            lemma_pair(m, Place::K, Some(branch), Some(branch), marks[4].value);
            assert(marked(m, Place::K, seq![marks[4]], 1) == applied(m, Place::K, marks[4]));
        } else if switch_state(context.settings, device) is None && device.letter == 'K' {
            let none = Seq::<Mark<S>>::empty();
            assert(marked(m, Place::K, none, 0) == m);
            lemma_couplings(
                context,
                scalar_value::<S>(device)->Ok_0,
                device.nodes,
                0,
                1,
                none,
                m,
            );
        } else {
            assert forall|k: int| 0 <= k < marks.len() implies (#[trigger] marks[k]).place
                != Place::K by {}
            lemma_marked_elsewhere(m, Place::K, marks, marks.len());
        }
    }
}

proof fn lemma_device_memoryless<S: Scalar>(
    context: Context<S>,
    device: Device,
    m: Seq<Seq<Expr<S>>>,
)
    requires
        symmetric(m),
        m.len() == context.nodes.len() + context.branches.len(),
        has_stamp(context.settings, device),
        switch_state(context.settings, device) is Some || !is_controlled(device.letter),
    ensures
        device_marks(context, device) matches Ok(marks) ==> {
            &&& symmetric(marked(m, Place::A, marks, marks.len()))
            &&& marked(m, Place::A, marks, marks.len()).len() == m.len()
        },
{
    if let Ok(marks) = device_marks(context, device) {
        if device.nodes.len() > 0 {
            lemma_indices(context.nodes, device.nodes[0], 0);
        }
        if device.nodes.len() > 1 {
            lemma_indices(context.nodes, device.nodes[1], 0);
        }
        lemma_indices(context.branches, device.name, 0);
        let p = terminal(context, device, 0);
        let n = terminal(context, device, 1);
        let switched = switch_state(context.settings, device) is Some;
        if switched || device.letter == 'R' {
            lemma_admittance(m, Place::A, p, n, marks[0].value);
            assert(marks =~= admittance(Place::A, p, n, marks[0].value));
        } else if device.letter == 'D' {
            let y = marks[0].value;
            let rest = seq![marks[4], marks[5]];
            lemma_admittance(m, Place::A, p, n, y);
            assert(marks =~= admittance(Place::A, p, n, y) + rest);
            lemma_marked_concat(m, Place::A, admittance(Place::A, p, n, y), rest, 2);
            lemma_marked_elsewhere(
                marked(m, Place::A, admittance(Place::A, p, n, y), 4),
                Place::A,
                rest,
                2,
            );
        } else if device.letter == 'L' || device.letter == 'V' {
            let (branch, tied) = own_branch::<S>(context, device)->Ok_0;
            let rest = seq![marks[4]];
            lemma_incidence(m, p, n, branch);
            assert(marks =~= tied + rest);
            lemma_marked_concat(m, Place::A, tied, rest, 1);
            lemma_marked_elsewhere(marked(m, Place::A, tied, 4), Place::A, rest, 1);
        } else if device.letter == 'K' {
            let none = Seq::<Mark<S>>::empty();
            lemma_coupling_places(
                context,
                scalar_value::<S>(device)->Ok_0,
                device.nodes,
                0,
                1,
                none,
            );
            lemma_marked_elsewhere(m, Place::A, marks, marks.len());
        } else {
            assert forall|k: int| 0 <= k < marks.len() implies (#[trigger] marks[k]).place
                != Place::A by {}
            lemma_marked_elsewhere(m, Place::A, marks, marks.len());
        }
    }
}

proof fn lemma_coupling_places<S: Scalar>(
    context: Context<S>,
    coefficient: Expr<S>,
    names: Seq<Seq<char>>,
    i: int,
    j: int,
    marks: Seq<Mark<S>>,
)
    requires
        forall|k: int| 0 <= k < marks.len() ==> (#[trigger] marks[k]).place == Place::K,
    ensures
        couplings_from(context, coefficient, names, i, j, marks) matches Ok(all) ==> forall|k: int|
            0 <= k < all.len() ==> (#[trigger] all[k]).place == Place::K,
    decreases names.len() - i, names.len() - j,
{
    if 0 <= i < names.len() {
        if j >= names.len() {
            lemma_coupling_places(context, coefficient, names, i + 1, i + 2, marks);
        } else {
            match coupling(context, coefficient, names[i], names[j]) {
                Ok(more) => {
                    lemma_coupling_places(context, coefficient, names, i, j + 1, marks + more);
                },
                Err(_) => {},
            }
        }
    }
}

proof fn lemma_effect_symmetric<S: Scalar>(
    context: Context<S>,
    list: Seq<Device>,
    i: int,
    before: Effect<S>,
    place: Place,
    m: Seq<Seq<Expr<S>>>,
)
    requires
        0 <= i <= list.len(),
        place != Place::B,
        m.len() == context.nodes.len() + context.branches.len(),
        symmetric(marked(m, place, before.marks, before.marks.len())),
        marked(m, place, before.marks, before.marks.len()).len() == m.len(),
        place == Place::A ==> forall|k: int|
            0 <= k < list.len() ==> switch_state(context.settings, #[trigger] list[k]) is Some
                || !is_controlled(list[k].letter),
    ensures
        effect_from(context, list, i, before) matches Ok(after) ==> symmetric(
            marked(m, place, after.marks, after.marks.len()),
        ),
    decreases list.len() - i,
{
    if i < list.len() {
        if has_stamp(context.settings, list[i]) {
            match device_marks(context, list[i]) {
                Ok(more) => {
                    let now = marked(m, place, before.marks, before.marks.len());
                    if place == Place::A {
                        lemma_device_memoryless(context, list[i], now);
                    } else {
                        lemma_device_storage(context, list[i], now);
                    }
                    lemma_marked_concat(m, place, before.marks, more, more.len());
                    lemma_effect_symmetric(
                        context,
                        list,
                        i + 1,
                        Effect { marks: before.marks + more, warnings: before.warnings },
                        place,
                        m,
                    );
                },
                Err(_) => {},
            }
        } else if context.settings.skip_unsupported {
            lemma_effect_symmetric(
                context,
                list,
                i + 1,
                Effect {
                    marks: before.marks,
                    warnings: before.warnings.push(unsupported_message(list[i])),
                },
                place,
                m,
            );
        }
    }
}

proof fn lemma_system_symmetric<S: Scalar>(cards: Seq<Card>, settings: Settings<S>, place: Place)
    requires
        place != Place::B,
        place == Place::A ==> forall|k: int|
            0 <= k < devices(cards, cards.len()).len() ==> switch_state(
                settings,
                #[trigger] devices(cards, cards.len())[k],
            ) is Some || !is_controlled(devices(cards, cards.len())[k].letter),
    ensures
        system(cards, settings) matches Ok(d) ==> symmetric(
            if place == Place::A {
                d.a
            } else {
                d.k
            },
        ),
{
    let list = devices(cards, cards.len());
    if system(cards, settings) is Ok {
        let node_list = nodes(list, settings);
        let branch_list = branches(list, settings)->Ok_0;
        let context = Context {
            settings,
            nodes: node_list,
            branches: branch_list,
            inputs: inputs::<S>(list)->Ok_0.names,
            inductances: inductances_from::<S>(list, 0, Seq::empty())->Ok_0,
        };
        let order = unknown_names(node_list, branch_list).len();
        let m = zeros::<S>(order, order);
        let none = Effect::<S> { marks: Seq::empty(), warnings: Seq::empty() };
        assert(marked(m, place, none.marks, 0) == m);
        assert(symmetric(m));
        lemma_effect_symmetric(context, list, 0, none, place, m);
    }
}

/// The storage matrix of every circuit is symmetric.
pub proof fn law_storage_matrix_is_symmetric<S: Scalar>(cards: Seq<Card>, settings: Settings<S>)
    ensures
        system(cards, settings) matches Ok(d) ==> symmetric(d.k),
{
    lemma_system_symmetric(cards, settings, Place::K);
}

/// The memoryless matrix of a circuit without controlled sources is symmetric. A controlled
/// source that is taken as a switch is none.
pub proof fn law_memoryless_matrix_is_symmetric<S: Scalar>(
    cards: Seq<Card>,
    settings: Settings<S>,
)
    requires
        forall|k: int|
            0 <= k < devices(cards, cards.len()).len() ==> switch_state(
                settings,
                #[trigger] devices(cards, cards.len())[k],
            ) is Some || !is_controlled(devices(cards, cards.len())[k].letter),
    ensures
        system(cards, settings) matches Ok(d) ==> symmetric(d.a),
{
    lemma_system_symmetric(cards, settings, Place::A);
}

} // verus!
