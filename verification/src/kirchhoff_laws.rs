//! The equations of a circuit are Kirchhoff's laws and those of its devices, apart from rounding.
//!
//! The laws speak of the circuit by names alone: of the voltage of a node, the current of a
//! branch and the value of an input.

use crate::circuit::{
    admittance, branch_index, branches, branches_from, cccs_marks, ccvs_marks, controlled_by,
    coupling, couplings_from, current_source, device_marks, devices, effect_from, has_stamp,
    incidence, inductance, inductances_from, inductor_marks, input_index, inputs, inputs_from,
    is_branch_device, is_ground, is_input, mark, marked, mutual_marks, node_count, nodes,
    nodes_from, own_branch, position, scalar_value, system, terminal, unknown_names,
    unsupported_message, vccs_marks,
    vcvs_marks, voltage_source_marks, with_input, with_node, with_nodes, zeros, Context, Effect,
    Fault, Inputs, Mark, Place, Settings, SwitchState,
};
use crate::circuit_laws::{
    distinct, groundless, lemma_branches_from, lemma_ground_ignores_case, lemma_inputs_from,
    lemma_nodes_from, lemma_position,
};
use crate::expr;
use crate::expr::{value, Expr};
use crate::expression_laws::{
    law_negation_keeps_value, law_product_keeps_value, law_reciprocal_keeps_value,
    law_root_keeps_value, law_sum_keeps_value,
};
use crate::field::{
    combination, exact, lemma_combination_zero, lemma_difference, lemma_distributes, lemma_exchange,
    lemma_inverse, lemma_minus_one, lemma_negation, lemma_negation_of_product,
    lemma_negation_of_sum, lemma_negation_twice, lemma_product_commutes, lemma_product_one,
    lemma_product_zero, lemma_sum_associates, lemma_sum_commutes, lemma_sum_zero,
};
use crate::netlist::{Card, Device};
use crate::scalar::Scalar;
use crate::symbolic_laws::row_values;
use crate::system::Descriptor;
use crate::text;
use vstd::prelude::*;

verus! {

// The circuit, by names

/// What a circuit is asked at: values of its symbols, of its unknowns and their derivatives, and
/// of its inputs, with the names of the unknowns and the inputs.
pub struct Moment<S> {
    pub unknowns: Seq<Seq<char>>,
    pub inputs: Seq<Seq<char>>,
    pub values: Map<Seq<char>, S>,
    pub x: Seq<S>,
    pub dx: Seq<S>,
    pub w: Seq<S>,
}

/// A name is in a list, letter case aside.
pub open spec fn is_listed(names: Seq<Seq<char>>, name: Seq<char>, i: int) -> bool {
    0 <= i < names.len() && text::eq_ignoring_case(names[i], name)
}

/// Where a name is in a list, letter case aside.
pub open spec fn found(names: Seq<Seq<char>>, name: Seq<char>) -> int {
    choose|i: int| is_listed(names, name, i)
}

/// The common reference.
pub open spec fn is_reference(node: Seq<char>) -> bool {
    node == "0"@ || text::eq_ignoring_case(node, "gnd"@)
}

/// The quantity of a node in a list with one entry for each unknown: nothing for the reference.
pub open spec fn at_node<S: Scalar>(m: Moment<S>, v: Seq<S>, node: Seq<char>) -> S {
    if is_reference(node) {
        S::nought()
    } else {
        v[found(m.unknowns, "V("@ + node + ")"@)]
    }
}

/// The quantity of a branch in a list with one entry for each unknown.
pub open spec fn in_branch<S: Scalar>(m: Moment<S>, v: Seq<S>, branch: Seq<char>) -> S {
    v[found(m.unknowns, "I("@ + branch + ")"@)]
}

/// The quantity across two nodes of a device.
pub open spec fn across<S: Scalar>(m: Moment<S>, v: Seq<S>, device: Device, p: int, n: int) -> S {
    at_node(m, v, device.nodes[p]).difference(at_node(m, v, device.nodes[n]))
}

/// The value of the input with a name.
pub open spec fn drive<S: Scalar>(m: Moment<S>, name: Seq<char>) -> S {
    m.w[found(m.inputs, name)]
}

/// The number that a parameter of a device stands for.
pub open spec fn number<S: Scalar>(m: Moment<S>, device: Device, i: int) -> S {
    value(expr::scalar::<S>(device.params[i])->Ok_0, m.values)->Ok_0
}

/// The value of an expression.
pub open spec fn valued<S: Scalar>(m: Moment<S>, e: Expr<S>) -> S {
    value(e, m.values)->Ok_0
}

/// The resistance of a device that is taken as a switch.
pub open spec fn resistance_of_switch<S: Scalar>(settings: Settings<S>, device: Device) -> Expr<S> {
    match settings.switches[text::upper(device.name)] {
        SwitchState::On => settings.on,
        SwitchState::Off => settings.off,
    }
}

/// A device is taken as a switch.
pub open spec fn is_switch<S>(settings: Settings<S>, device: Device) -> bool {
    settings.switches.contains_key(text::upper(device.name))
}

/// A device that takes part in the equations: a switch, or one of a kind that has a linear
/// model.
pub open spec fn takes_part<S>(settings: Settings<S>, device: Device) -> bool {
    ||| is_switch(settings, device)
    ||| device.letter == 'R' || device.letter == 'C' || device.letter == 'L' || device.letter == 'K'
    ||| device.letter == 'V' || device.letter == 'I' || device.letter == 'D'
    ||| device.letter == 'E' || device.letter == 'F' || device.letter == 'G' || device.letter == 'H'
}

/// The current through a device, from its first node to its second.
pub open spec fn through<S: Scalar>(m: Moment<S>, settings: Settings<S>, device: Device) -> S {
    if is_switch(settings, device) {
        across(m, m.x, device, 0, 1).quotient(valued(m, resistance_of_switch(settings, device)))
    } else if device.letter == 'R' {
        across(m, m.x, device, 0, 1).quotient(number(m, device, 0))
    } else if device.letter == 'C' {
        number(m, device, 0).product(across(m, m.dx, device, 0, 1))
    } else if device.letter == 'I' {
        drive(m, device.name)
    } else if device.letter == 'D' {
        valued(m, Expr::Symbol(device.name + "_G"@)).product(across(m, m.x, device, 0, 1)).sum(
            drive(m, device.name),
        )
    } else if device.letter == 'G' {
        number(m, device, 0).product(across(m, m.x, device, 2, 3))
    } else if device.letter == 'F' {
        number(m, device, 1).product(in_branch(m, m.x, device.params[0]))
    } else if device.letter == 'V' || device.letter == 'L' || device.letter == 'E' || device.letter
        == 'H' {
        in_branch(m, m.x, device.name)
    } else {
        S::nought()
    }
}

/// The current that a device takes out of a node.
pub open spec fn taken<S: Scalar>(
    m: Moment<S>,
    settings: Settings<S>,
    device: Device,
    node: Seq<char>,
) -> S {
    if device.letter == 'K' {
        S::nought()
    } else {
        let i = through(m, settings, device);
        (if text::eq_ignoring_case(device.nodes[0], node) {
            i
        } else {
            S::nought()
        }).difference(
            if text::eq_ignoring_case(device.nodes[1], node) {
                i
            } else {
                S::nought()
            },
        )
    }
}

/// The current that those of the first `n` devices that take part take out of a node.
pub open spec fn all_taken<S: Scalar>(
    m: Moment<S>,
    settings: Settings<S>,
    list: Seq<Device>,
    node: Seq<char>,
    n: nat,
) -> S
    decreases n,
{
    if n == 0 {
        S::nought()
    } else {
        let before = all_taken(m, settings, list, node, (n - 1) as nat);
        if takes_part(settings, list[n - 1]) {
            before.sum(taken(m, settings, list[n - 1], node))
        } else {
            before
        }
    }
}

/// An inductor with a name.
pub open spec fn is_inductor(list: Seq<Device>, name: Seq<char>, k: int) -> bool {
    0 <= k < list.len() && list[k].letter == 'L' && text::eq_ignoring_case(list[k].name, name)
}

/// The inductance of the inductor with a name.
pub open spec fn inductance_of<S: Scalar>(m: Moment<S>, list: Seq<Device>, name: Seq<char>) -> S {
    number(m, list[choose|k: int| is_inductor(list, name, k)], 0)
}

/// The mutual inductance of two inductors that a coupling names.
pub open spec fn mutual<S: Scalar>(
    m: Moment<S>,
    list: Seq<Device>,
    device: Device,
    i: int,
    j: int,
) -> S {
    number(m, device, 0).product(
        inductance_of(m, list, device.nodes[i]).product(
            inductance_of(m, list, device.nodes[j]),
        ).root(),
    )
}

/// What a pair of coupled inductors induces in the inductor with a name.
pub open spec fn induced_by_pair<S: Scalar>(
    m: Moment<S>,
    list: Seq<Device>,
    device: Device,
    name: Seq<char>,
    i: int,
    j: int,
) -> S {
    let l = mutual(m, list, device, i, j);
    (if text::eq_ignoring_case(device.nodes[i], name) {
        l.product(in_branch(m, m.dx, device.nodes[j]))
    } else {
        S::nought()
    }).sum(
        if text::eq_ignoring_case(device.nodes[j], name) {
            l.product(in_branch(m, m.dx, device.nodes[i]))
        } else {
            S::nought()
        },
    )
}

/// What a coupling induces in the inductor with a name, over its pairs of inductors from
/// `(i, j)` on.
pub open spec fn induced_from<S: Scalar>(
    m: Moment<S>,
    list: Seq<Device>,
    device: Device,
    name: Seq<char>,
    i: int,
    j: int,
) -> S
    decreases device.nodes.len() - i, device.nodes.len() - j,
{
    if i < 0 || i >= device.nodes.len() {
        S::nought()
    } else if j >= device.nodes.len() {
        induced_from(m, list, device, name, i + 1, i + 2)
    } else {
        induced_by_pair(m, list, device, name, i, j).sum(
            induced_from(m, list, device, name, i, j + 1),
        )
    }
}

/// What the couplings among the first `n` devices induce in the inductor with a name.
pub open spec fn induced<S: Scalar>(
    m: Moment<S>,
    list: Seq<Device>,
    name: Seq<char>,
    n: nat,
) -> S
    decreases n,
{
    if n == 0 {
        S::nought()
    } else {
        let before = induced(m, list, name, (n - 1) as nat);
        if list[n - 1].letter == 'K' {
            before.sum(induced_from(m, list, list[n - 1], name, 0, 1))
        } else {
            before
        }
    }
}

/// What is left over in a row of `A*x + K*dx - B*w`.
pub open spec fn left_over<S: Scalar>(d: Descriptor<S>, m: Moment<S>, row: int) -> S {
    combination(row_values(d.a[row], m.values), m.x, d.unknowns.len()).sum(
        combination(row_values(d.k[row], m.values), m.dx, d.unknowns.len()),
    ).difference(combination(row_values(d.b[row], m.values), m.w, d.inputs.len()))
}

/// The numbers of a device have values at the values of the symbols; a resistance is not zero.
pub open spec fn is_evaluable<S: Scalar>(m: Moment<S>, settings: Settings<S>, device: Device) -> bool {
    if is_switch(settings, device) {
        let e = resistance_of_switch(settings, device);
        value(e, m.values) is Ok && valued(m, e) != S::nought()
    } else if device.letter == 'D' {
        value(Expr::Symbol::<S>(device.name + "_G"@), m.values) is Ok
    } else if device.letter == 'R' {
        value(expr::scalar::<S>(device.params[0])->Ok_0, m.values) is Ok && number(m, device, 0)
            != S::nought()
    } else if device.letter == 'F' || device.letter == 'H' {
        value(expr::scalar::<S>(device.params[1])->Ok_0, m.values) is Ok
    } else if device.letter == 'V' || device.letter == 'I' {
        true
    } else {
        value(expr::scalar::<S>(device.params[0])->Ok_0, m.values) is Ok
    }
}

/// A circuit is asked at a moment: there is a value for each unknown and input, the numbers of
/// the devices have values, no product of two inductances is negative, and no coupling is taken
/// as a switch.
pub open spec fn is_asked<S: Scalar>(
    cards: Seq<Card>,
    settings: Settings<S>,
    d: Descriptor<S>,
    m: Moment<S>,
) -> bool {
    let list = devices(cards, cards.len());
    &&& m.unknowns == d.unknowns
    &&& m.inputs == d.inputs
    &&& m.x.len() == d.unknowns.len()
    &&& m.dx.len() == d.unknowns.len()
    &&& m.w.len() == d.inputs.len()
    &&& forall|k: int|
        0 <= k < list.len() && takes_part(settings, #[trigger] list[k]) ==> is_evaluable(
            m,
            settings,
            list[k],
        )
    &&& forall|k: int|
        0 <= k < list.len() && (#[trigger] list[k]).letter == 'K' ==> !is_switch(settings, list[k])
    &&& forall|i: int, j: int|
        0 <= i < list.len() && 0 <= j < list.len() && (#[trigger] list[i]).letter == 'L' && (
        #[trigger] list[j]).letter == 'L' ==> !number(m, list[i], 0).product(
            number(m, list[j], 0),
        ).below(S::nought())
}

// Names

proof fn lemma_upper_concat(a: Seq<char>, b: Seq<char>)
    ensures
        text::upper(a + b) == text::upper(a) + text::upper(b),
{
    assert(text::upper(a + b) =~= text::upper(a) + text::upper(b));
}

proof fn lemma_wrapped_names(head: Seq<char>, a: Seq<char>, b: Seq<char>)
    ensures
        text::eq_ignoring_case(head + a + ")"@, head + b + ")"@) <==> text::eq_ignoring_case(a, b),
{
    lemma_upper_concat(head + a, ")"@);
    lemma_upper_concat(head, a);
    lemma_upper_concat(head + b, ")"@);
    lemma_upper_concat(head, b);
    let (h, t) = (text::upper(head), text::upper(")"@));
    let (x, y) = (h + text::upper(a) + t, h + text::upper(b) + t);
    if x == y {
        let n = h.len() as int;
        assert(x.len() == h.len() + a.len() + t.len());
        assert(y.len() == h.len() + b.len() + t.len());
        assert(x.subrange(n, n + a.len()) =~= text::upper(a));
        assert(y.subrange(n, n + b.len()) =~= text::upper(b));
    }
}

proof fn lemma_kinds_differ(a: Seq<char>, b: Seq<char>)
    ensures
        !text::eq_ignoring_case("V("@ + a + ")"@, "I("@ + b + ")"@),
{
    reveal_strlit("V(");
    reveal_strlit("I(");
    let x = "V("@ + a + ")"@;
    let y = "I("@ + b + ")"@;
    assert(x[0] == 'V');
    assert(y[0] == 'I');
    assert(text::upper(x)[0] == 'V');
    assert(text::upper(y)[0] == 'I');
}

proof fn lemma_found(names: Seq<Seq<char>>, name: Seq<char>, i: int)
    requires
        distinct(names),
        is_listed(names, name, i),
    ensures
        found(names, name) == i,
{
    let j = found(names, name);
    assert(is_listed(names, name, j));
    if i < j {
        assert(!text::eq_ignoring_case(names[i], names[j]));
    } else if j < i {
        assert(!text::eq_ignoring_case(names[j], names[i]));
    }
}

proof fn lemma_unknowns_distinct(node_list: Seq<Seq<char>>, branch_list: Seq<Seq<char>>)
    requires
        distinct(node_list),
        distinct(branch_list),
    ensures
        distinct(unknown_names(node_list, branch_list)),
{
    let names = unknown_names(node_list, branch_list);
    let n = node_list.len() as int;
    assert forall|i: int, j: int| 0 <= i < j < names.len() implies !text::eq_ignoring_case(
        #[trigger] names[i],
        #[trigger] names[j],
    ) by {
        if j < n {
            lemma_wrapped_names("V("@, node_list[i], node_list[j]);
        } else if i < n {
            lemma_kinds_differ(node_list[i], branch_list[j - n]);
        } else {
            lemma_wrapped_names("I("@, branch_list[i - n], branch_list[j - n]);
        }
    }
}

/// The unknown with a node's name is found in the node's place, and no other row has the name.
pub proof fn lemma_node_row(
    node_list: Seq<Seq<char>>,
    branch_list: Seq<Seq<char>>,
    node: Seq<char>,
    row: int,
)
    requires
        distinct(node_list),
        distinct(branch_list),
        0 <= row < node_list.len() + branch_list.len(),
    ensures
        text::eq_ignoring_case(unknown_names(node_list, branch_list)[row], "V("@ + node + ")"@)
            <==> is_listed(node_list, node, row),
        text::eq_ignoring_case(unknown_names(node_list, branch_list)[row], "I("@ + node + ")"@)
            <==> is_listed(branch_list, node, row - node_list.len()),
{
    let n = node_list.len() as int;
    if row < n {
        lemma_wrapped_names("V("@, node_list[row], node);
        lemma_kinds_differ(node_list[row], node);
    } else {
        lemma_wrapped_names("I("@, branch_list[row - n], node);
        lemma_kinds_differ(node, branch_list[row - n]);
    }
}

proof fn lemma_position_is(names: Seq<Seq<char>>, name: Seq<char>, i: int)
    requires
        distinct(names),
        is_listed(names, name, i),
    ensures
        position(names, name, 0) == i,
{
    lemma_position(names, name, 0);
    let p = position(names, name, 0);
    if p < i {
        assert(!text::eq_ignoring_case(names[p], names[i]));
    }
}

// Marks

/// What one mark adds to a row.
spec fn part<S: Scalar>(m: Moment<S>, mark: Mark<S>, row: int) -> S {
    if mark.row != Some(row) || mark.col is None {
        S::nought()
    } else {
        let v = valued(m, mark.value);
        let col = mark.col->0;
        match mark.place {
            Place::A => v.product(m.x[col]),
            Place::K => v.product(m.dx[col]),
            Place::B => v.product(m.w[col]).negation(),
        }
    }
}

/// What the first `n` marks add to a row.
spec fn balance<S: Scalar>(m: Moment<S>, marks: Seq<Mark<S>>, row: int, n: nat) -> S
    decreases n,
{
    if n == 0 {
        S::nought()
    } else {
        balance(m, marks, row, (n - 1) as nat).sum(part(m, marks[n - 1], row))
    }
}

/// The marks of one place alone.
spec fn pushed<S: Scalar>(
    m: Moment<S>,
    marks: Seq<Mark<S>>,
    place: Place,
    v: Seq<S>,
    row: int,
    n: nat,
) -> S
    decreases n,
{
    if n == 0 {
        S::nought()
    } else {
        let before = pushed(m, marks, place, v, row, (n - 1) as nat);
        let mark = marks[n - 1];
        if mark.place == place && mark.row == Some(row) && mark.col is Some {
            before.sum(valued(m, mark.value).product(v[mark.col->0]))
        } else {
            before
        }
    }
}

/// A mark that has a value and lies inside of its matrix.
spec fn is_sound<S: Scalar>(m: Moment<S>, mark: Mark<S>) -> bool {
    &&& value(mark.value, m.values) is Ok
    &&& mark.row is Some ==> 0 <= mark.row->0 < m.unknowns.len()
    &&& mark.col is Some ==> 0 <= mark.col->0 < (if mark.place == Place::B {
        m.inputs.len()
    } else {
        m.unknowns.len()
    })
}

spec fn all_sound<S: Scalar>(m: Moment<S>, marks: Seq<Mark<S>>) -> bool {
    forall|i: int| 0 <= i < marks.len() ==> is_sound(m, #[trigger] marks[i])
}

proof fn lemma_raised<S: Scalar>(row: Seq<S>, v: Seq<S>, c: int, y: S, n: nat)
    requires
        exact::<S>(),
        0 <= c < row.len(),
        n <= row.len(),
    ensures
        combination(row.update(c, row[c].sum(y)), v, n) == if c < n {
            combination(row, v, n).sum(y.product(v[c]))
        } else {
            combination(row, v, n)
        },
    decreases n,
{
    let raised = row.update(c, row[c].sum(y));
    if n > 0 {
        let less = (n - 1) as nat;
        lemma_raised(row, v, c, y, less);
        let before = combination(row, v, less);
        let term = row[n - 1].product(v[n - 1]);
        if c == n - 1 {
            lemma_distributes(v[c], row[c], y);
            lemma_sum_associates(before, term, y.product(v[c]));
        } else if c < n - 1 {
            lemma_sum_associates(before, y.product(v[c]), term);
            lemma_sum_commutes(y.product(v[c]), term);
            lemma_sum_associates(before, term, y.product(v[c]));
        }
    }
}

proof fn lemma_marked_row<S: Scalar>(
    m: Moment<S>,
    marks: Seq<Mark<S>>,
    place: Place,
    rows: nat,
    cols: nat,
    v: Seq<S>,
    row: int,
    n: nat,
)
    requires
        exact::<S>(),
        all_sound(m, marks),
        n <= marks.len(),
        rows == m.unknowns.len(),
        cols == if place == Place::B {
            m.inputs.len()
        } else {
            m.unknowns.len()
        },
        0 <= row < rows,
    ensures
        ({
            let matrix = marked(zeros::<S>(rows, cols), place, marks, n);
            &&& matrix.len() == rows
            &&& forall|r: int| 0 <= r < rows ==> (#[trigger] matrix[r]).len() == cols
            &&& forall|r: int, c: int|
                0 <= r < rows && 0 <= c < cols ==> value(#[trigger] matrix[r][c], m.values) is Ok
            &&& combination(row_values(matrix[row], m.values), v, cols) == pushed(
                m,
                marks,
                place,
                v,
                row,
                n,
            )
        }),
    decreases n,
{
    if n == 0 {
        lemma_combination_zero(row_values(zeros::<S>(rows, cols)[row], m.values), v, cols);
    } else {
        let less = (n - 1) as nat;
        lemma_marked_row(m, marks, place, rows, cols, v, row, less);
        let before = marked(zeros::<S>(rows, cols), place, marks, less);
        let after = marked(zeros::<S>(rows, cols), place, marks, n);
        let mark = marks[n - 1];
        assert(is_sound(m, mark));
        if mark.place == place && mark.row is Some && mark.col is Some {
            let (r, c) = (mark.row->0, mark.col->0);
            assert(before[r].len() == cols);
            let old_entry = before[r][c];
            assert(value(old_entry, m.values) is Ok);
            law_sum_keeps_value(old_entry, mark.value, m.values);
            assert(after[r] == before[r].update(c, expr::sum(old_entry, mark.value)));
            assert forall|i: int, j: int| 0 <= i < rows && 0 <= j < cols implies value(
                #[trigger] after[i][j],
                m.values,
            ) is Ok by {
                assert(value(before[i][j], m.values) is Ok);
                assert(before[i].len() == cols);
            }
            if row == r {
                let old_row = row_values(before[r], m.values);
                let y = valued(m, mark.value);
                assert(row_values(after[r], m.values) =~= old_row.update(
                    c,
                    old_row[c].sum(y),
                ));
                lemma_raised(old_row, v, c, y, cols);
            } else {
                assert(after[row] == before[row]);
            }
        }
    }
}

proof fn lemma_balance<S: Scalar>(m: Moment<S>, marks: Seq<Mark<S>>, row: int, n: nat)
    requires
        exact::<S>(),
    ensures
        balance(m, marks, row, n) == pushed(m, marks, Place::A, m.x, row, n).sum(
            pushed(m, marks, Place::K, m.dx, row, n),
        ).difference(pushed(m, marks, Place::B, m.w, row, n)),
    decreases n,
{
    let zero = S::nought();
    if n == 0 {
        lemma_sum_zero(zero);
        lemma_difference(zero, zero);
        lemma_negation(zero);
    } else {
        let less = (n - 1) as nat;
        lemma_balance(m, marks, row, less);
        let a = pushed(m, marks, Place::A, m.x, row, less);
        let k = pushed(m, marks, Place::K, m.dx, row, less);
        let b = pushed(m, marks, Place::B, m.w, row, less);
        let mark = marks[n - 1];
        let y = part(m, mark, row);
        lemma_difference(a.sum(k), b);
        lemma_sum_zero(a.sum(k).difference(b));
        if mark.row == Some(row) && mark.col is Some {
            let nb = b.negation();
            match mark.place {
                Place::A => {
                    lemma_difference(a.sum(y).sum(k), b);
                    lemma_sum_associates(a.sum(k), nb, y);
                    lemma_sum_commutes(nb, y);
                    lemma_sum_associates(a.sum(k), y, nb);
                    lemma_sum_associates(a, k, y);
                    lemma_sum_commutes(k, y);
                    lemma_sum_associates(a, y, k);
                },
                Place::K => {
                    lemma_difference(a.sum(k.sum(y)), b);
                    lemma_sum_associates(a.sum(k), nb, y);
                    lemma_sum_commutes(nb, y);
                    lemma_sum_associates(a.sum(k), y, nb);
                    lemma_sum_associates(a, k, y);
                },
                Place::B => {
                    let t = valued(m, mark.value).product(m.w[mark.col->0]);
                    lemma_difference(a.sum(k), b.sum(t));
                    lemma_negation_of_sum(b, t);
                    lemma_sum_associates(a.sum(k), nb, y);
                },
            }
        }
    }
}

proof fn lemma_balance_prefix<S: Scalar>(
    m: Moment<S>,
    first: Seq<Mark<S>>,
    more: Seq<Mark<S>>,
    row: int,
    n: nat,
)
    requires
        n <= first.len(),
    ensures
        balance(m, first + more, row, n) == balance(m, first, row, n),
    decreases n,
{
    if n > 0 {
        lemma_balance_prefix(m, first, more, row, (n - 1) as nat);
        assert((first + more)[n - 1] == first[n - 1]);
    }
}

proof fn lemma_balance_concat<S: Scalar>(
    m: Moment<S>,
    first: Seq<Mark<S>>,
    more: Seq<Mark<S>>,
    row: int,
    n: nat,
)
    requires
        exact::<S>(),
        n <= more.len(),
    ensures
        balance(m, first + more, row, first.len() + n) == balance(m, first, row, first.len()).sum(
            balance(m, more, row, n),
        ),
    decreases n,
{
    if n == 0 {
        lemma_balance_prefix(m, first, more, row, first.len());
        lemma_sum_zero(balance(m, first, row, first.len()));
    } else {
        let less = (n - 1) as nat;
        lemma_balance_concat(m, first, more, row, less);
        assert((first + more)[first.len() + n - 1] == more[n - 1]);
        lemma_sum_associates(
            balance(m, first, row, first.len()),
            balance(m, more, row, less),
            part(m, more[n - 1], row),
        );
    }
}

/// Every mark in a list adds nothing to a row.
proof fn lemma_balance_zero<S: Scalar>(m: Moment<S>, marks: Seq<Mark<S>>, row: int, n: nat)
    requires
        exact::<S>(),
        n <= marks.len(),
        forall|i: int| 0 <= i < n ==> (#[trigger] marks[i]).row != Some(row),
    ensures
        balance(m, marks, row, n) == S::nought(),
    decreases n,
{
    if n > 0 {
        lemma_balance_zero(m, marks, row, (n - 1) as nat);
        assert(marks[n - 1].row != Some(row));
        lemma_sum_zero(S::nought());
    }
}

// Small groups of marks

/// A quantity in the place of an unknown: nothing where there is none.
spec fn at_index<S: Scalar>(v: Seq<S>, index: Option<int>) -> S {
    match index {
        Some(i) => v[i],
        None => S::nought(),
    }
}

/// What a mark multiplies.
spec fn reading<S: Scalar>(m: Moment<S>, place: Place, col: Option<int>) -> S {
    match place {
        Place::A => at_index(m.x, col),
        Place::K => at_index(m.dx, col),
        Place::B => at_index(m.w, col).negation(),
    }
}

proof fn lemma_part<S: Scalar>(m: Moment<S>, mark: Mark<S>, row: int)
    requires
        exact::<S>(),
    ensures
        part(m, mark, row) == if mark.row == Some(row) {
            valued(m, mark.value).product(reading(m, mark.place, mark.col))
        } else {
            S::nought()
        },
{
    let v = valued(m, mark.value);
    lemma_product_zero(v);
    lemma_negation_twice(S::nought());
    if mark.col is Some && mark.place == Place::B {
        lemma_negation_of_product(v, m.w[mark.col->0]);
    }
}

/// What a current that flows from one node to another takes out of a row.
spec fn out<S: Scalar>(i: S, from: bool, to: bool) -> S {
    (if from {
        i
    } else {
        S::nought()
    }).difference(
        if to {
            i
        } else {
            S::nought()
        },
    )
}

proof fn lemma_out<S: Scalar>(i: S, from: bool, to: bool)
    requires
        exact::<S>(),
    ensures
        out(i, from, to) == (if from {
            i
        } else {
            S::nought()
        }).sum(
            if to {
                i.negation()
            } else {
                S::nought()
            },
        ),
{
    lemma_difference(
        if from {
            i
        } else {
            S::nought()
        },
        if to {
            i
        } else {
            S::nought()
        },
    );
    lemma_negation_twice(S::nought());
}

proof fn lemma_out_sum<S: Scalar>(i: S, j: S, from: bool, to: bool)
    requires
        exact::<S>(),
    ensures
        out(i, from, to).sum(out(j, from, to)) == out(i.sum(j), from, to),
        out(S::nought(), from, to) == S::nought(),
{
    lemma_out(i, from, to);
    lemma_out(j, from, to);
    lemma_out(i.sum(j), from, to);
    lemma_out(S::nought(), from, to);
    let zero = S::nought();
    lemma_sum_zero(zero);
    lemma_negation_twice(zero);
    lemma_negation_of_sum(i, j);
    lemma_exchange(
        if from {
            i
        } else {
            zero
        },
        if to {
            i.negation()
        } else {
            zero
        },
        if from {
            j
        } else {
            zero
        },
        if to {
            j.negation()
        } else {
            zero
        },
    );
}

/// `y*a + (-y)*b == y*(a - b)` and `(-y)*a + y*b == -(y*(a - b))`.
proof fn lemma_weighted<S: Scalar>(y: S, a: S, b: S)
    requires
        exact::<S>(),
    ensures
        y.product(a).sum(y.negation().product(b)) == y.product(a.difference(b)),
        y.negation().product(a).sum(y.product(b)) == y.product(a.difference(b)).negation(),
        y.product(b).sum(y.negation().product(a)) == y.product(a.difference(b)).negation(),
{
    lemma_difference(a, b);
    lemma_distributes(y, a, b.negation());
    lemma_negation_of_product(y, b);
    lemma_negation_of_product(y, a);
    lemma_negation_of_sum(y.product(a), y.product(b).negation());
    lemma_negation_twice(y.product(b));
    lemma_sum_commutes(y.product(a).negation(), y.product(b));
}

/// `(((0 + a) + b) + c) + d` in other orders.
proof fn lemma_four<S: Scalar>(a: S, b: S, c: S, d: S)
    requires
        exact::<S>(),
    ensures
        S::nought().sum(a).sum(b).sum(c).sum(d) == a.sum(c).sum(b.sum(d)),
        S::nought().sum(a).sum(b).sum(c).sum(d) == a.sum(b).sum(c.sum(d)),
{
    lemma_sum_zero(a);
    lemma_sum_associates(a.sum(b), c, d);
    lemma_exchange(a, b, c, d);
}

proof fn lemma_admittance_balance<S: Scalar>(
    m: Moment<S>,
    place: Place,
    p: Option<int>,
    n: Option<int>,
    y: Expr<S>,
    row: int,
)
    requires
        exact::<S>(),
        value(y, m.values) is Ok,
    ensures
        balance(m, admittance(place, p, n, y), row, 4) == out(
            valued(m, y).product(reading(m, place, p).difference(reading(m, place, n))),
            p == Some(row),
            n == Some(row),
        ),
        value(expr::negation(y), m.values) is Ok,
{
    let marks = admittance(place, p, n, y);
    law_negation_keeps_value(y, m.values);
    reveal_with_fuel(balance, 5);
    lemma_part(m, marks[0], row);
    lemma_part(m, marks[1], row);
    lemma_part(m, marks[2], row);
    lemma_part(m, marks[3], row);
    lemma_four(
        part(m, marks[0], row),
        part(m, marks[1], row),
        part(m, marks[2], row),
        part(m, marks[3], row),
    );
    let v = valued(m, y);
    let (a, b) = (reading(m, place, p), reading(m, place, n));
    lemma_weighted(v, a, b);
    lemma_sum_zero(S::nought());
    lemma_out(v.product(a.difference(b)), p == Some(row), n == Some(row));
}

proof fn lemma_incidence_balance<S: Scalar>(
    m: Moment<S>,
    p: Option<int>,
    n: Option<int>,
    branch: int,
    row: int,
)
    requires
        exact::<S>(),
        p != Some(branch),
        n != Some(branch),
    ensures
        row != branch ==> balance(m, incidence(p, n, branch), row, 4) == out(
            m.x[branch],
            p == Some(row),
            n == Some(row),
        ),
        row == branch ==> balance(m, incidence(p, n, branch), row, 4) == at_index(
            m.x,
            p,
        ).difference(at_index(m.x, n)),
{
    let marks = incidence::<S>(p, n, branch);
    reveal_with_fuel(balance, 5);
    lemma_part(m, marks[0], row);
    lemma_part(m, marks[1], row);
    lemma_part(m, marks[2], row);
    lemma_part(m, marks[3], row);
    lemma_four(
        part(m, marks[0], row),
        part(m, marks[1], row),
        part(m, marks[2], row),
        part(m, marks[3], row),
    );
    let i = m.x[branch];
    lemma_product_one(i);
    lemma_minus_one(i);
    let (a, b) = (at_index(m.x, p), at_index(m.x, n));
    lemma_product_one(a);
    lemma_minus_one(b);
    lemma_difference(a, b);
    let zero = S::nought();
    lemma_sum_zero(zero);
    lemma_sum_zero(a.difference(b));
    lemma_out(i, p == Some(row), n == Some(row));
    lemma_sum_zero(out(i, p == Some(row), n == Some(row)));
}

/// Two marks with opposite values and the same column.
proof fn lemma_tied_balance<S: Scalar>(
    m: Moment<S>,
    first: Mark<S>,
    second: Mark<S>,
    row: int,
)
    requires
        exact::<S>(),
        first.place == second.place,
        first.col == second.col,
        valued(m, second.value) == valued(m, first.value).negation(),
    ensures
        balance(m, seq![first, second], row, 2) == out(
            valued(m, first.value).product(reading(m, first.place, first.col)),
            first.row == Some(row),
            second.row == Some(row),
        ),
{
    let marks = seq![first, second];
    reveal_with_fuel(balance, 3);
    lemma_part(m, first, row);
    lemma_part(m, second, row);
    let g = valued(m, first.value);
    let c = reading(m, first.place, first.col);
    lemma_negation_of_product(g, c);
    lemma_sum_zero(part(m, first, row));
    lemma_out(g.product(c), first.row == Some(row), second.row == Some(row));
    assert(balance(m, marks, row, 2) == S::nought().sum(part(m, first, row)).sum(
        part(m, second, row),
    ));
}

proof fn lemma_vccs_balance<S: Scalar>(
    m: Moment<S>,
    marks: Seq<Mark<S>>,
    p: Option<int>,
    n: Option<int>,
    cp: Option<int>,
    cn: Option<int>,
    gain: Expr<S>,
    row: int,
)
    requires
        exact::<S>(),
        value(gain, m.values) is Ok,
        marks == seq![
            mark(Place::A, p, cp, gain),
            mark(Place::A, p, cn, expr::negation(gain)),
            mark(Place::A, n, cp, expr::negation(gain)),
            mark(Place::A, n, cn, gain),
        ],
    ensures
        balance(m, marks, row, 4) == out(
            valued(m, gain).product(at_index(m.x, cp).difference(at_index(m.x, cn))),
            p == Some(row),
            n == Some(row),
        ),
        value(expr::negation(gain), m.values) is Ok,
{
    law_negation_keeps_value(gain, m.values);
    reveal_with_fuel(balance, 5);
    lemma_part(m, marks[0], row);
    lemma_part(m, marks[1], row);
    lemma_part(m, marks[2], row);
    lemma_part(m, marks[3], row);
    lemma_four(
        part(m, marks[0], row),
        part(m, marks[1], row),
        part(m, marks[2], row),
        part(m, marks[3], row),
    );
    let g = valued(m, gain);
    let (a, b) = (at_index(m.x, cp), at_index(m.x, cn));
    lemma_weighted(g, a, b);
    lemma_sum_zero(S::nought());
    lemma_out(g.product(a.difference(b)), p == Some(row), n == Some(row));
}

// What the lists of a circuit hold

pub open spec fn covers(names: Seq<Seq<char>>, name: Seq<char>) -> bool {
    exists|i: int| is_listed(names, name, i)
}

proof fn lemma_covers_longer(names: Seq<Seq<char>>, more: Seq<char>, name: Seq<char>)
    ensures
        covers(names, name) ==> covers(names.push(more), name),
        text::eq_ignoring_case(more, name) ==> covers(names.push(more), name),
{
    let longer = names.push(more);
    if covers(names, name) {
        let i = choose|i: int| is_listed(names, name, i);
        assert(is_listed(longer, name, i));
    }
    if text::eq_ignoring_case(more, name) {
        assert(is_listed(longer, name, names.len() as int));
    }
}

pub open spec fn is_placed(names: Seq<Seq<char>>, name: Seq<char>) -> bool {
    is_ground(name) || covers(names, name)
}

proof fn lemma_with_node_places(names: Seq<Seq<char>>, name: Seq<char>, other: Seq<char>)
    ensures
        is_placed(with_node(names, name), name),
        is_placed(names, other) ==> is_placed(with_node(names, name), other),
{
    lemma_position(names, name, 0);
    lemma_covers_longer(names, name, name);
    lemma_covers_longer(names, name, other);
    if position(names, name, 0) < names.len() {
        assert(is_listed(names, name, position(names, name, 0)));
    }
}

proof fn lemma_with_nodes_places(
    known: Seq<Seq<char>>,
    names: Seq<Seq<char>>,
    count: int,
    j: int,
    q: int,
    other: Seq<char>,
)
    requires
        0 <= j,
    ensures
        j <= q < count ==> is_placed(with_nodes(known, names, count, j), names[q]),
        is_placed(known, other) ==> is_placed(with_nodes(known, names, count, j), other),
    decreases count - j,
{
    if j < count {
        lemma_with_node_places(known, names[j], other);
        let next = with_node(known, names[j]);
        lemma_with_nodes_places(next, names, count, j + 1, q, other);
        if q == j {
            lemma_with_nodes_places(next, names, count, j + 1, q, names[j]);
        }
    }
}

pub proof fn lemma_nodes_are_placed<S>(
    list: Seq<Device>,
    settings: Settings<S>,
    i: int,
    known: Seq<Seq<char>>,
    k: int,
    q: int,
    other: Seq<char>,
)
    requires
        0 <= i <= list.len(),
    ensures
        i <= k < list.len() && 0 <= q < node_count(settings, list[k]) ==> is_placed(
            nodes_from(list, settings, i, known),
            list[k].nodes[q],
        ),
        is_placed(known, other) ==> is_placed(nodes_from(list, settings, i, known), other),
    decreases list.len() - i,
{
    if i < list.len() {
        let count = node_count(settings, list[i]);
        let next = with_nodes(known, list[i].nodes, count, 0);
        lemma_with_nodes_places(known, list[i].nodes, count, 0, q, other);
        lemma_nodes_are_placed(list, settings, i + 1, next, k, q, other);
        if k == i && 0 <= q < count {
            lemma_nodes_are_placed(list, settings, i + 1, next, k, q, list[i].nodes[q]);
        }
    }
}

pub open spec fn is_branch_named<S>(list: Seq<Device>, settings: Settings<S>, name: Seq<char>, k: int) -> bool {
    0 <= k < list.len() && is_branch_device(settings, list[k]) && list[k].name == name
}

pub open spec fn names_a_branch<S>(list: Seq<Device>, settings: Settings<S>, name: Seq<char>) -> bool {
    exists|k: int| is_branch_named(list, settings, name, k)
}

pub proof fn lemma_branch_list<S>(
    list: Seq<Device>,
    settings: Settings<S>,
    i: int,
    known: Seq<Seq<char>>,
)
    requires
        0 <= i <= list.len(),
    ensures
        branches_from(list, settings, i, known) matches Ok(names) ==> {
            &&& names.len() >= known.len()
            &&& forall|p: int| 0 <= p < known.len() ==> #[trigger] names[p] == known[p]
            &&& forall|k: int|
                i <= k < list.len() && is_branch_device(settings, #[trigger] list[k]) ==> covers(
                    names,
                    list[k].name,
                ) && forall|p: int|
                    0 <= p < known.len() ==> !text::eq_ignoring_case(
                        #[trigger] known[p],
                        list[k].name,
                    )
            &&& forall|p: int|
                known.len() <= p < names.len() ==> names_a_branch(
                    list,
                    settings,
                    #[trigger] names[p],
                )
            &&& forall|k: int, l: int|
                i <= k < l < list.len() && is_branch_device(settings, #[trigger] list[k])
                    && is_branch_device(settings, #[trigger] list[l]) ==> !text::eq_ignoring_case(
                    list[k].name,
                    list[l].name,
                )
        },
    decreases list.len() - i,
{
    if i < list.len() {
        if is_branch_device(settings, list[i]) {
            lemma_position(known, list[i].name, 0);
            if position(known, list[i].name, 0) >= known.len() {
                let more = known.push(list[i].name);
                lemma_branch_list(list, settings, i + 1, more);
                if let Ok(names) = branches_from(list, settings, i, known) {
                    assert(names[known.len() as int] == more[known.len() as int]);
                    assert(is_listed(names, list[i].name, known.len() as int));
                    assert forall|p: int| 0 <= p < known.len() implies #[trigger] names[p]
                        == known[p] by {
                        assert(names[p] == more[p]);
                    }
                    assert forall|k: int|
                        i <= k < list.len() && is_branch_device(
                            settings,
                            #[trigger] list[k],
                        ) implies covers(names, list[k].name) && forall|p: int|
                        0 <= p < known.len() ==> !text::eq_ignoring_case(
                            #[trigger] known[p],
                            list[k].name,
                        ) by {
                        if k > i {
                            assert forall|p: int|
                                0 <= p < known.len() implies !text::eq_ignoring_case(
                                #[trigger] known[p],
                                list[k].name,
                            ) by {
                                assert(more[p] == known[p]);
                            }
                        }
                    }
                    assert forall|p: int| known.len() <= p < names.len() implies names_a_branch(
                        list,
                        settings,
                        #[trigger] names[p],
                    ) by {
                        if p == known.len() {
                            assert(is_branch_named(list, settings, names[p], i));
                        }
                    }
                    assert forall|k: int, l: int|
                        i <= k < l < list.len() && is_branch_device(settings, #[trigger] list[k])
                            && is_branch_device(
                            settings,
                            #[trigger] list[l],
                        ) implies !text::eq_ignoring_case(list[k].name, list[l].name) by {
                        if k == i {
                            assert(more[known.len() as int] == list[i].name);
                        }
                    }
                }
            }
        } else {
            lemma_branch_list(list, settings, i + 1, known);
        }
    }
}

proof fn lemma_input_list<S: Scalar>(list: Seq<Device>, i: int, known: Inputs<S>, other: Seq<char>)
    requires
        0 <= i <= list.len(),
    ensures
        inputs_from(list, i, known) matches Ok(all) ==> {
            &&& forall|k: int|
                i <= k < list.len() && is_input((#[trigger] list[k]).letter) ==> covers(
                    all.names,
                    list[k].name,
                )
            &&& covers(known.names, other) ==> covers(all.names, other)
        },
    decreases list.len() - i,
{
    if i < list.len() {
        if is_input(list[i].letter) {
            if let Ok(more) = with_input(known, list[i]) {
                lemma_covers_longer(known.names, list[i].name, other);
                lemma_covers_longer(known.names, list[i].name, list[i].name);
                lemma_input_list(list, i + 1, more, other);
                lemma_input_list(list, i + 1, more, list[i].name);
            }
        } else {
            lemma_input_list(list, i + 1, known, other);
        }
    }
}

spec fn is_inductance<S: Scalar>(list: Seq<Device>, entry: (Seq<char>, Expr<S>), k: int) -> bool {
    0 <= k < list.len() && list[k].letter == 'L' && list[k].name == entry.0 && scalar_value::<S>(
        list[k],
    ) == Ok::<Expr<S>, Fault>(entry.1)
}

spec fn is_some_inductance<S: Scalar>(list: Seq<Device>, entry: (Seq<char>, Expr<S>)) -> bool {
    exists|k: int| is_inductance(list, entry, k)
}

proof fn lemma_inductance_list<S: Scalar>(
    list: Seq<Device>,
    i: int,
    known: Seq<(Seq<char>, Expr<S>)>,
)
    requires
        0 <= i <= list.len(),
        forall|p: int|
            0 <= p < known.len() ==> is_some_inductance(list, #[trigger] known[p]),
    ensures
        inductances_from(list, i, known) matches Ok(all) ==> forall|p: int|
            0 <= p < all.len() ==> is_some_inductance(list, #[trigger] all[p]),
    decreases list.len() - i,
{
    if i < list.len() {
        if list[i].letter == 'L' {
            if let Ok(e) = scalar_value::<S>(list[i]) {
                let more = known.push((list[i].name, e));
                assert forall|p: int| 0 <= p < more.len() implies is_some_inductance(
                    list,
                    #[trigger] more[p],
                ) by {
                    if p == known.len() {
                        assert(is_inductance(list, more[p], i));
                    } else {
                        assert(more[p] == known[p]);
                    }
                }
                lemma_inductance_list(list, i + 1, more);
            }
        } else {
            lemma_inductance_list(list, i + 1, known);
        }
    }
}

proof fn lemma_inductance_is_listed<S: Scalar>(
    entries: Seq<(Seq<char>, Expr<S>)>,
    name: Seq<char>,
    n: nat,
)
    ensures
        inductance(entries, name, n) matches Some(e) ==> exists|p: int|
            0 <= p < entries.len() && text::eq_ignoring_case((#[trigger] entries[p]).0, name)
                && entries[p].1 == e,
    decreases n,
{
    if 0 < n && n <= entries.len() {
        if !text::eq_ignoring_case(entries[n - 1].0, name) {
            lemma_inductance_is_listed(entries, name, (n - 1) as nat);
        }
    }
}

// Devices

/// What the stamps of a circuit refer to, asked at a moment.
spec fn is_context<S: Scalar>(
    list: Seq<Device>,
    settings: Settings<S>,
    context: Context<S>,
    m: Moment<S>,
) -> bool {
    &&& context.settings == settings
    &&& context.nodes == nodes(list, settings)
    &&& branches(list, settings) == Ok::<Seq<Seq<char>>, Fault>(context.branches)
    &&& inputs::<S>(list) is Ok
    &&& context.inputs == inputs::<S>(list)->Ok_0.names
    &&& inductances_from::<S>(list, 0, Seq::empty()) == Ok::<Seq<(Seq<char>, Expr<S>)>, Fault>(
        context.inductances,
    )
    &&& m.unknowns == unknown_names(context.nodes, context.branches)
    &&& m.inputs == context.inputs
    &&& forall|k: int|
        0 <= k < list.len() && (#[trigger] list[k]).letter == 'K' ==> !is_switch(settings, list[k])
}

proof fn lemma_context<S: Scalar>(
    list: Seq<Device>,
    settings: Settings<S>,
    context: Context<S>,
    m: Moment<S>,
)
    requires
        is_context(list, settings, context, m),
    ensures
        distinct(context.nodes),
        groundless(context.nodes),
        distinct(context.branches),
        distinct(context.inputs),
        distinct(m.unknowns),
        m.unknowns.len() == context.nodes.len() + context.branches.len(),
{
    lemma_nodes_from(list, settings, 0, Seq::empty());
    lemma_branches_from(list, settings, 0, Seq::empty());
    lemma_inputs_from::<S>(
        list,
        0,
        Inputs { names: Seq::empty(), values: Seq::empty(), waves: Map::empty() },
    );
    lemma_unknowns_distinct(context.nodes, context.branches);
}

proof fn lemma_terminal<S: Scalar>(
    list: Seq<Device>,
    settings: Settings<S>,
    context: Context<S>,
    m: Moment<S>,
    k: int,
    j: int,
)
    requires
        is_context(list, settings, context, m),
        0 <= k < list.len(),
        0 <= j < node_count(settings, list[k]),
    ensures
        terminal(context, list[k], j) matches Some(i) ==> 0 <= i < context.nodes.len(),
        at_node(m, m.x, list[k].nodes[j]) == at_index(m.x, terminal(context, list[k], j)),
        at_node(m, m.dx, list[k].nodes[j]) == at_index(m.dx, terminal(context, list[k], j)),
        forall|row: int|
            0 <= row < context.nodes.len() ==> (terminal(context, list[k], j) == Some(row)
                <==> text::eq_ignoring_case(list[k].nodes[j], #[trigger] context.nodes[row])),
{
    lemma_context(list, settings, context, m);
    let name = list[k].nodes[j];
    let names = context.nodes;
    lemma_nodes_are_placed(list, settings, 0, Seq::empty(), k, j, name);
    if is_ground(name) {
        assert forall|row: int| 0 <= row < names.len() implies !text::eq_ignoring_case(
            name,
            #[trigger] names[row],
        ) by {
            if text::eq_ignoring_case(name, names[row]) {
                lemma_ground_ignores_case(name, names[row]);
            }
        }
    } else {
        let i = choose|i: int| is_listed(names, name, i);
        lemma_position_is(names, name, i);
        lemma_node_row(names, context.branches, name, i);
        assert(is_listed(m.unknowns, "V("@ + name + ")"@, i));
        lemma_found(m.unknowns, "V("@ + name + ")"@, i);
        assert forall|row: int| 0 <= row < names.len() implies (Some(i) == Some(row)
            <==> text::eq_ignoring_case(name, #[trigger] names[row])) by {
            if text::eq_ignoring_case(name, names[row]) {
                if row < i {
                    assert(!text::eq_ignoring_case(names[row], names[i]));
                } else if i < row {
                    assert(!text::eq_ignoring_case(names[i], names[row]));
                }
            }
        }
    }
}

proof fn lemma_branch_at<S: Scalar>(
    list: Seq<Device>,
    settings: Settings<S>,
    context: Context<S>,
    m: Moment<S>,
    name: Seq<char>,
)
    requires
        is_context(list, settings, context, m),
        branch_index(context.nodes, context.branches, name) is Ok,
    ensures
        ({
            let b = branch_index(context.nodes, context.branches, name)->Ok_0;
            &&& context.nodes.len() <= b < m.unknowns.len()
            &&& in_branch(m, m.x, name) == m.x[b]
            &&& in_branch(m, m.dx, name) == m.dx[b]
            &&& forall|row: int|
                0 <= row < context.branches.len() ==> (b == context.nodes.len() + row
                    <==> text::eq_ignoring_case(name, #[trigger] context.branches[row]))
        }),
{
    lemma_context(list, settings, context, m);
    let names = context.branches;
    let n = context.nodes.len() as int;
    lemma_position(names, name, 0);
    let i = position(names, name, 0);
    lemma_node_row(context.nodes, names, name, n + i);
    assert(is_listed(names, name, i));
    assert(is_listed(m.unknowns, "I("@ + name + ")"@, n + i));
    lemma_found(m.unknowns, "I("@ + name + ")"@, n + i);
    assert forall|row: int| 0 <= row < names.len() implies (n + i == n + row
        <==> text::eq_ignoring_case(name, #[trigger] names[row])) by {
        if text::eq_ignoring_case(name, names[row]) {
            if row < i {
                assert(!text::eq_ignoring_case(names[row], names[i]));
            } else if i < row {
                assert(!text::eq_ignoring_case(names[i], names[row]));
            }
        }
    }
}

proof fn lemma_input_at<S: Scalar>(
    list: Seq<Device>,
    settings: Settings<S>,
    context: Context<S>,
    m: Moment<S>,
    k: int,
)
    requires
        is_context(list, settings, context, m),
        0 <= k < list.len(),
        is_input(list[k].letter),
    ensures
        0 <= input_index(context, list[k]) < m.inputs.len(),
        drive(m, list[k].name) == m.w[input_index(context, list[k])],
{
    lemma_context(list, settings, context, m);
    let none = Inputs::<S> { names: Seq::empty(), values: Seq::empty(), waves: Map::empty() };
    lemma_input_list(list, 0, none, list[k].name);
    let i = choose|i: int| is_listed(m.inputs, list[k].name, i);
    lemma_position_is(m.inputs, list[k].name, i);
    lemma_found(m.inputs, list[k].name, i);
}

/// What a device's own branch equation leaves over.
pub open spec fn own_equation<S: Scalar>(m: Moment<S>, device: Device) -> S {
    across(m, m.x, device, 0, 1).difference(
        if device.letter == 'V' {
            drive(m, device.name)
        } else if device.letter == 'E' {
            number(m, device, 0).product(across(m, m.x, device, 2, 3))
        } else if device.letter == 'H' {
            number(m, device, 1).product(in_branch(m, m.x, device.params[0]))
        } else {
            number(m, device, 0).product(in_branch(m, m.dx, device.name))
        },
    )
}

/// What a device with a stamp that is no coupling adds to a row.
spec fn fits<S: Scalar>(
    settings: Settings<S>,
    context: Context<S>,
    m: Moment<S>,
    device: Device,
    marks: Seq<Mark<S>>,
    row: int,
) -> bool {
    let n = context.nodes.len();
    &&& all_sound(m, marks)
    &&& 0 <= row < n ==> balance(m, marks, row, marks.len()) == taken(
        m,
        settings,
        device,
        context.nodes[row],
    )
    &&& n <= row < m.unknowns.len() ==> balance(m, marks, row, marks.len()) == if is_branch_device(
        settings,
        device,
    ) && text::eq_ignoring_case(device.name, context.branches[row - n]) {
        own_equation(m, device)
    } else {
        S::nought()
    }
}

proof fn lemma_conductance_fits<S: Scalar>(
    list: Seq<Device>,
    settings: Settings<S>,
    context: Context<S>,
    m: Moment<S>,
    k: int,
    resistance: Expr<S>,
    row: int,
)
    requires
        exact::<S>(),
        is_context(list, settings, context, m),
        0 <= k < list.len(),
        list[k].letter != 'K',
        is_switch(settings, list[k]) || list[k].letter == 'R',
        value(resistance, m.values) is Ok,
        valued(m, resistance) != S::nought(),
        through(m, settings, list[k]) == across(m, m.x, list[k], 0, 1).quotient(
            valued(m, resistance),
        ),
        list[k].nodes.len() >= 2,
    ensures
        fits(
            settings,
            context,
            m,
            list[k],
            admittance(
                Place::A,
                terminal(context, list[k], 0),
                terminal(context, list[k], 1),
                expr::reciprocal(resistance),
            ),
            row,
        ),
{
    lemma_context(list, settings, context, m);
    lemma_terminal(list, settings, context, m, k, 0);
    lemma_terminal(list, settings, context, m, k, 1);
    let (p, n) = (terminal(context, list[k], 0), terminal(context, list[k], 1));
    let y = expr::reciprocal(resistance);
    law_reciprocal_keeps_value(resistance, m.values);
    lemma_admittance_balance(m, Place::A, p, n, y, row);
    let v = across(m, m.x, list[k], 0, 1);
    lemma_inverse(v, valued(m, resistance));
    lemma_product_commutes(v, S::unit().quotient(valued(m, resistance)));
    lemma_out_sum(v, v, false, false);
    lemma_out(valued(m, y).product(v), false, false);
    lemma_sum_zero(S::nought());
}

proof fn lemma_capacitor_fits<S: Scalar>(
    list: Seq<Device>,
    settings: Settings<S>,
    context: Context<S>,
    m: Moment<S>,
    k: int,
    e: Expr<S>,
    row: int,
)
    requires
        exact::<S>(),
        is_context(list, settings, context, m),
        0 <= k < list.len(),
        !is_switch(settings, list[k]),
        list[k].letter == 'C',
        scalar_value::<S>(list[k]) == Ok::<Expr<S>, Fault>(e),
        value(e, m.values) is Ok,
        list[k].nodes.len() >= 2,
    ensures
        fits(
            settings,
            context,
            m,
            list[k],
            admittance(
                Place::K,
                terminal(context, list[k], 0),
                terminal(context, list[k], 1),
                e,
            ),
            row,
        ),
{
    lemma_context(list, settings, context, m);
    lemma_terminal(list, settings, context, m, k, 0);
    lemma_terminal(list, settings, context, m, k, 1);
    let (p, n) = (terminal(context, list[k], 0), terminal(context, list[k], 1));
    lemma_admittance_balance(m, Place::K, p, n, e, row);
    let i = valued(m, e).product(across(m, m.dx, list[k], 0, 1));
    lemma_out(i, false, false);
    lemma_sum_zero(S::nought());
}

proof fn lemma_source_balance<S: Scalar>(
    m: Moment<S>,
    p: Option<int>,
    n: Option<int>,
    input: int,
    row: int,
)
    requires
        exact::<S>(),
    ensures
        balance(m, current_source(p, n, input), row, 2) == out(
            m.w[input],
            p == Some(row),
            n == Some(row),
        ),
{
    let marks = current_source::<S>(p, n, input);
    let one = S::unit();
    lemma_negation_twice(one);
    lemma_tied_balance(m, marks[0], marks[1], row);
    assert(seq![marks[0], marks[1]] =~= marks);
    let w = m.w[input];
    lemma_minus_one(w.negation());
    lemma_negation_twice(w);
}

proof fn lemma_current_source_fits<S: Scalar>(
    list: Seq<Device>,
    settings: Settings<S>,
    context: Context<S>,
    m: Moment<S>,
    k: int,
    row: int,
)
    requires
        exact::<S>(),
        is_context(list, settings, context, m),
        0 <= k < list.len(),
        !is_switch(settings, list[k]),
        list[k].letter == 'I',
        list[k].nodes.len() >= 2,
    ensures
        fits(
            settings,
            context,
            m,
            list[k],
            current_source(
                terminal(context, list[k], 0),
                terminal(context, list[k], 1),
                input_index(context, list[k]),
            ),
            row,
        ),
{
    lemma_context(list, settings, context, m);
    lemma_terminal(list, settings, context, m, k, 0);
    lemma_terminal(list, settings, context, m, k, 1);
    lemma_input_at(list, settings, context, m, k);
    let (p, n) = (terminal(context, list[k], 0), terminal(context, list[k], 1));
    lemma_source_balance(m, p, n, input_index(context, list[k]), row);
    lemma_out(drive(m, list[k].name), false, false);
    lemma_sum_zero(S::nought());
}

proof fn lemma_diode_fits<S: Scalar>(
    list: Seq<Device>,
    settings: Settings<S>,
    context: Context<S>,
    m: Moment<S>,
    k: int,
    row: int,
)
    requires
        exact::<S>(),
        is_context(list, settings, context, m),
        0 <= k < list.len(),
        !is_switch(settings, list[k]),
        list[k].letter == 'D',
        list[k].nodes.len() >= 2,
        value(Expr::Symbol::<S>(list[k].name + "_G"@), m.values) is Ok,
    ensures
        fits(
            settings,
            context,
            m,
            list[k],
            admittance(
                Place::A,
                terminal(context, list[k], 0),
                terminal(context, list[k], 1),
                Expr::Symbol(list[k].name + "_G"@),
            ) + current_source(
                terminal(context, list[k], 0),
                terminal(context, list[k], 1),
                input_index(context, list[k]),
            ),
            row,
        ),
{
    lemma_context(list, settings, context, m);
    lemma_terminal(list, settings, context, m, k, 0);
    lemma_terminal(list, settings, context, m, k, 1);
    lemma_input_at(list, settings, context, m, k);
    let (p, n) = (terminal(context, list[k], 0), terminal(context, list[k], 1));
    let y = Expr::Symbol::<S>(list[k].name + "_G"@);
    let first = admittance(Place::A, p, n, y);
    let more = current_source::<S>(p, n, input_index(context, list[k]));
    lemma_admittance_balance(m, Place::A, p, n, y, row);
    lemma_source_balance(m, p, n, input_index(context, list[k]), row);
    lemma_balance_concat(m, first, more, row, 2);
    let i = valued(m, y).product(across(m, m.x, list[k], 0, 1));
    let j = drive(m, list[k].name);
    lemma_out_sum(i, j, p == Some(row), n == Some(row));
    lemma_out(i.sum(j), false, false);
    lemma_sum_zero(S::nought());
    assert forall|q: int| 0 <= q < 6 implies is_sound(m, #[trigger] (first + more)[q]) by {
        if q < 4 {
            assert((first + more)[q] == first[q]);
        } else {
            assert((first + more)[q] == more[q - 4]);
        }
    }
}

proof fn lemma_vccs_fits<S: Scalar>(
    list: Seq<Device>,
    settings: Settings<S>,
    context: Context<S>,
    m: Moment<S>,
    k: int,
    marks: Seq<Mark<S>>,
    row: int,
)
    requires
        exact::<S>(),
        is_context(list, settings, context, m),
        0 <= k < list.len(),
        !is_switch(settings, list[k]),
        list[k].letter == 'G',
        is_evaluable(m, settings, list[k]),
        vccs_marks(context, list[k]) == Ok::<Seq<Mark<S>>, Fault>(marks),
    ensures
        fits(settings, context, m, list[k], marks, row),
{
    lemma_context(list, settings, context, m);
    lemma_terminal(list, settings, context, m, k, 0);
    lemma_terminal(list, settings, context, m, k, 1);
    lemma_terminal(list, settings, context, m, k, 2);
    lemma_terminal(list, settings, context, m, k, 3);
    let (p, n) = (terminal(context, list[k], 0), terminal(context, list[k], 1));
    let (cp, cn) = (terminal(context, list[k], 2), terminal(context, list[k], 3));
    let gain = scalar_value::<S>(list[k])->Ok_0;
    lemma_vccs_balance(m, marks, p, n, cp, cn, gain, row);
    lemma_out(valued(m, gain).product(across(m, m.x, list[k], 2, 3)), false, false);
    lemma_sum_zero(S::nought());
}

proof fn lemma_cccs_fits<S: Scalar>(
    list: Seq<Device>,
    settings: Settings<S>,
    context: Context<S>,
    m: Moment<S>,
    k: int,
    marks: Seq<Mark<S>>,
    row: int,
)
    requires
        exact::<S>(),
        is_context(list, settings, context, m),
        0 <= k < list.len(),
        !is_switch(settings, list[k]),
        list[k].letter == 'F',
        is_evaluable(m, settings, list[k]),
        cccs_marks(context, list[k]) == Ok::<Seq<Mark<S>>, Fault>(marks),
    ensures
        fits(settings, context, m, list[k], marks, row),
{
    lemma_context(list, settings, context, m);
    lemma_terminal(list, settings, context, m, k, 0);
    lemma_terminal(list, settings, context, m, k, 1);
    let (control, gain) = controlled_by::<S>(context, list[k])->Ok_0;
    lemma_branch_at(list, settings, context, m, list[k].params[0]);
    law_negation_keeps_value(gain, m.values);
    lemma_tied_balance(m, marks[0], marks[1], row);
    assert(seq![marks[0], marks[1]] =~= marks);
    lemma_out(valued(m, gain).product(m.x[control]), false, false);
    lemma_sum_zero(S::nought());
}

/// The marks that tie a branch to its nodes, followed by what is said of its own row only.
proof fn lemma_branch_fits<S: Scalar>(
    list: Seq<Device>,
    settings: Settings<S>,
    context: Context<S>,
    m: Moment<S>,
    k: int,
    more: Seq<Mark<S>>,
    row: int,
)
    requires
        exact::<S>(),
        is_context(list, settings, context, m),
        0 <= k < list.len(),
        is_branch_device(settings, list[k]),
        list[k].nodes.len() >= 2,
        branch_index(context.nodes, context.branches, list[k].name) is Ok,
        all_sound(m, more),
        forall|q: int|
            0 <= q < more.len() ==> (#[trigger] more[q]).row == Some(
                branch_index(context.nodes, context.branches, list[k].name)->Ok_0,
            ),
        across(m, m.x, list[k], 0, 1).sum(
            balance(
                m,
                more,
                branch_index(context.nodes, context.branches, list[k].name)->Ok_0,
                more.len(),
            ),
        ) == own_equation(m, list[k]),
    ensures
        fits(
            settings,
            context,
            m,
            list[k],
            incidence(
                terminal(context, list[k], 0),
                terminal(context, list[k], 1),
                branch_index(context.nodes, context.branches, list[k].name)->Ok_0,
            ) + more,
            row,
        ),
{
    lemma_context(list, settings, context, m);
    lemma_terminal(list, settings, context, m, k, 0);
    lemma_terminal(list, settings, context, m, k, 1);
    lemma_branch_at(list, settings, context, m, list[k].name);
    let branch = branch_index(context.nodes, context.branches, list[k].name)->Ok_0;
    let (p, n) = (terminal(context, list[k], 0), terminal(context, list[k], 1));
    let tied = incidence::<S>(p, n, branch);
    lemma_incidence_balance(m, p, n, branch, row);
    lemma_balance_concat(m, tied, more, row, more.len());
    if row != branch {
        lemma_balance_zero(m, more, row, more.len());
        lemma_sum_zero(balance(m, tied, row, 4));
    }
    lemma_out(m.x[branch], false, false);
    lemma_sum_zero(S::nought());
    let all = tied + more;
    assert forall|q: int| 0 <= q < all.len() implies is_sound(m, #[trigger] all[q]) by {
        if q < 4 {
            assert(all[q] == tied[q]);
        } else {
            assert(all[q] == more[q - 4]);
            assert(is_sound(m, more[q - 4]));
        }
    }
    if context.nodes.len() <= row < m.unknowns.len() {
        let j = row - context.nodes.len();
        assert((branch == context.nodes.len() + j) <==> text::eq_ignoring_case(
            list[k].name,
            context.branches[j],
        ));
    }
}

proof fn lemma_single<S: Scalar>(m: Moment<S>, mark: Mark<S>, row: int)
    requires
        exact::<S>(),
        mark.row == Some(row),
    ensures
        balance(m, seq![mark], row, 1) == valued(m, mark.value).product(
            reading(m, mark.place, mark.col),
        ),
{
    reveal_with_fuel(balance, 2);
    lemma_part(m, mark, row);
    lemma_sum_zero(part(m, mark, row));
}

proof fn lemma_voltage_source_fits<S: Scalar>(
    list: Seq<Device>,
    settings: Settings<S>,
    context: Context<S>,
    m: Moment<S>,
    k: int,
    marks: Seq<Mark<S>>,
    row: int,
)
    requires
        exact::<S>(),
        is_context(list, settings, context, m),
        0 <= k < list.len(),
        !is_switch(settings, list[k]),
        list[k].letter == 'V',
        voltage_source_marks(context, list[k]) == Ok::<Seq<Mark<S>>, Fault>(marks),
    ensures
        fits(settings, context, m, list[k], marks, row),
{
    let (branch, tied) = own_branch::<S>(context, list[k])->Ok_0;
    let more = seq![marks[4]];
    lemma_input_at(list, settings, context, m, k);
    lemma_branch_at(list, settings, context, m, list[k].name);
    lemma_single(m, marks[4], branch);
    let w = drive(m, list[k].name);
    lemma_product_one(w.negation());
    lemma_difference(across(m, m.x, list[k], 0, 1), w);
    lemma_branch_fits(list, settings, context, m, k, more, row);
    assert(tied + more =~= marks);
}

proof fn lemma_inductor_fits<S: Scalar>(
    list: Seq<Device>,
    settings: Settings<S>,
    context: Context<S>,
    m: Moment<S>,
    k: int,
    marks: Seq<Mark<S>>,
    row: int,
)
    requires
        exact::<S>(),
        is_context(list, settings, context, m),
        0 <= k < list.len(),
        !is_switch(settings, list[k]),
        list[k].letter == 'L',
        is_evaluable(m, settings, list[k]),
        inductor_marks(context, list[k]) == Ok::<Seq<Mark<S>>, Fault>(marks),
    ensures
        fits(settings, context, m, list[k], marks, row),
{
    let (branch, tied) = own_branch::<S>(context, list[k])->Ok_0;
    let more = seq![marks[4]];
    let e = scalar_value::<S>(list[k])->Ok_0;
    lemma_branch_at(list, settings, context, m, list[k].name);
    law_negation_keeps_value(e, m.values);
    lemma_single(m, marks[4], branch);
    let l = valued(m, e);
    lemma_negation_of_product(l, m.dx[branch]);
    lemma_difference(across(m, m.x, list[k], 0, 1), l.product(m.dx[branch]));
    lemma_branch_fits(list, settings, context, m, k, more, row);
    assert(tied + more =~= marks);
}

proof fn lemma_ccvs_fits<S: Scalar>(
    list: Seq<Device>,
    settings: Settings<S>,
    context: Context<S>,
    m: Moment<S>,
    k: int,
    marks: Seq<Mark<S>>,
    row: int,
)
    requires
        exact::<S>(),
        is_context(list, settings, context, m),
        0 <= k < list.len(),
        !is_switch(settings, list[k]),
        list[k].letter == 'H',
        is_evaluable(m, settings, list[k]),
        ccvs_marks(context, list[k]) == Ok::<Seq<Mark<S>>, Fault>(marks),
    ensures
        fits(settings, context, m, list[k], marks, row),
{
    let (branch, tied) = own_branch::<S>(context, list[k])->Ok_0;
    let more = seq![marks[4]];
    let (control, gain) = controlled_by::<S>(context, list[k])->Ok_0;
    lemma_branch_at(list, settings, context, m, list[k].name);
    lemma_branch_at(list, settings, context, m, list[k].params[0]);
    law_negation_keeps_value(gain, m.values);
    lemma_single(m, marks[4], branch);
    let g = valued(m, gain);
    lemma_negation_of_product(g, m.x[control]);
    lemma_difference(across(m, m.x, list[k], 0, 1), g.product(m.x[control]));
    lemma_branch_fits(list, settings, context, m, k, more, row);
    assert(tied + more =~= marks);
}

proof fn lemma_vcvs_fits<S: Scalar>(
    list: Seq<Device>,
    settings: Settings<S>,
    context: Context<S>,
    m: Moment<S>,
    k: int,
    marks: Seq<Mark<S>>,
    row: int,
)
    requires
        exact::<S>(),
        is_context(list, settings, context, m),
        0 <= k < list.len(),
        !is_switch(settings, list[k]),
        list[k].letter == 'E',
        is_evaluable(m, settings, list[k]),
        vcvs_marks(context, list[k]) == Ok::<Seq<Mark<S>>, Fault>(marks),
    ensures
        fits(settings, context, m, list[k], marks, row),
{
    lemma_context(list, settings, context, m);
    let (branch, tied) = own_branch::<S>(context, list[k])->Ok_0;
    let more = seq![marks[4], marks[5]];
    let gain = scalar_value::<S>(list[k])->Ok_0;
    lemma_terminal(list, settings, context, m, k, 2);
    lemma_terminal(list, settings, context, m, k, 3);
    lemma_branch_at(list, settings, context, m, list[k].name);
    law_negation_keeps_value(gain, m.values);
    reveal_with_fuel(balance, 3);
    lemma_part(m, marks[4], branch);
    lemma_part(m, marks[5], branch);
    let g = valued(m, gain);
    let (a, b) = (at_node(m, m.x, list[k].nodes[2]), at_node(m, m.x, list[k].nodes[3]));
    lemma_weighted(g, a, b);
    lemma_sum_zero(part(m, marks[4], branch));
    assert(balance(m, more, branch, 2) == g.product(a.difference(b)).negation());
    lemma_difference(across(m, m.x, list[k], 0, 1), g.product(a.difference(b)));
    lemma_branch_fits(list, settings, context, m, k, more, row);
    assert(tied + more =~= marks);
}

proof fn lemma_device_fits<S: Scalar>(
    list: Seq<Device>,
    settings: Settings<S>,
    context: Context<S>,
    m: Moment<S>,
    k: int,
    marks: Seq<Mark<S>>,
    row: int,
)
    requires
        exact::<S>(),
        is_context(list, settings, context, m),
        0 <= k < list.len(),
        list[k].letter != 'K',
        has_stamp(settings, list[k]),
        is_evaluable(m, settings, list[k]),
        device_marks(context, list[k]) == Ok::<Seq<Mark<S>>, Fault>(marks),
    ensures
        fits(settings, context, m, list[k], marks, row),
{
    let device = list[k];
    if is_switch(settings, device) {
        lemma_conductance_fits(
            list,
            settings,
            context,
            m,
            k,
            resistance_of_switch(settings, device),
            row,
        );
    } else if device.letter == 'R' {
        lemma_conductance_fits(
            list,
            settings,
            context,
            m,
            k,
            scalar_value::<S>(device)->Ok_0,
            row,
        );
    } else if device.letter == 'C' {
        lemma_capacitor_fits(
            list,
            settings,
            context,
            m,
            k,
            scalar_value::<S>(device)->Ok_0,
            row,
        );
    } else if device.letter == 'L' {
        lemma_inductor_fits(list, settings, context, m, k, marks, row);
    } else if device.letter == 'V' {
        lemma_voltage_source_fits(list, settings, context, m, k, marks, row);
    } else if device.letter == 'I' {
        lemma_current_source_fits(list, settings, context, m, k, row);
    } else if device.letter == 'G' {
        lemma_vccs_fits(list, settings, context, m, k, marks, row);
    } else if device.letter == 'E' {
        lemma_vcvs_fits(list, settings, context, m, k, marks, row);
    } else if device.letter == 'F' {
        lemma_cccs_fits(list, settings, context, m, k, marks, row);
    } else if device.letter == 'H' {
        lemma_ccvs_fits(list, settings, context, m, k, marks, row);
    } else {
        lemma_diode_fits(list, settings, context, m, k, row);
    }
}

// Couplings

/// The numbers of the devices have values, and no product of two inductances is negative.
spec fn are_evaluable<S: Scalar>(m: Moment<S>, settings: Settings<S>, list: Seq<Device>) -> bool {
    &&& forall|k: int|
        0 <= k < list.len() && takes_part(settings, #[trigger] list[k]) ==> is_evaluable(
            m,
            settings,
            list[k],
        )
    &&& forall|i: int, j: int|
        0 <= i < list.len() && 0 <= j < list.len() && (#[trigger] list[i]).letter == 'L' && (
        #[trigger] list[j]).letter == 'L' ==> !number(m, list[i], 0).product(
            number(m, list[j], 0),
        ).below(S::nought())
}

proof fn lemma_inductor_named<S: Scalar>(
    list: Seq<Device>,
    settings: Settings<S>,
    context: Context<S>,
    m: Moment<S>,
    name: Seq<char>,
)
    requires
        is_context(list, settings, context, m),
        are_evaluable(m, settings, list),
        inductance(context.inductances, name, context.inductances.len()) is Some,
        branch_index(context.nodes, context.branches, name) is Ok,
    ensures
        ({
            let e = inductance(context.inductances, name, context.inductances.len())->0;
            let a = choose|k: int| is_inductor(list, name, k);
            &&& is_inductor(list, name, a)
            &&& is_branch_device(settings, list[a])
            &&& value(e, m.values) is Ok
            &&& valued(m, e) == number(m, list[a], 0)
            &&& inductance_of(m, list, name) == valued(m, e)
        }),
{
    lemma_inductance_is_listed(context.inductances, name, context.inductances.len());
    let e = inductance(context.inductances, name, context.inductances.len())->0;
    let p = choose|p: int|
        0 <= p < context.inductances.len() && text::eq_ignoring_case(
            (#[trigger] context.inductances[p]).0,
            name,
        ) && context.inductances[p].1 == e;
    assert(0 <= p < context.inductances.len());
    lemma_inductance_list::<S>(list, 0, Seq::empty());
    let all = inductances_from::<S>(list, 0, Seq::empty())->Ok_0;
    assert(all == context.inductances);
    assert(is_some_inductance(list, all[p]));
    assert(is_some_inductance(list, context.inductances[p]));
    let k = choose|k: int| is_inductance(list, context.inductances[p], k);
    assert(is_inductor(list, name, k));
    // A branch with the name is no switch, so no device with the name is.
    lemma_branch_list(list, settings, 0, Seq::empty());
    lemma_position(context.branches, name, 0);
    let at = position(context.branches, name, 0);
    assert(names_a_branch(list, settings, context.branches[at]));
    let b = choose|b: int| is_branch_named(list, settings, context.branches[at], b);
    assert(text::upper(list[b].name) == text::upper(list[k].name));
    assert(is_branch_device(settings, list[k]));
    assert(has_stamp(settings, list[k]));
    assert(is_evaluable(m, settings, list[k]));
    let a = choose|a: int| is_inductor(list, name, a);
    assert(text::upper(list[b].name) == text::upper(list[a].name));
    assert(is_branch_device(settings, list[a]));
    if a < k {
        assert(!text::eq_ignoring_case(list[a].name, list[k].name));
    } else if k < a {
        assert(!text::eq_ignoring_case(list[k].name, list[a].name));
    }
}

proof fn lemma_pair_balance<S: Scalar>(
    list: Seq<Device>,
    settings: Settings<S>,
    context: Context<S>,
    m: Moment<S>,
    device: Device,
    coefficient: Expr<S>,
    i: int,
    j: int,
    more: Seq<Mark<S>>,
    row: int,
)
    requires
        exact::<S>(),
        is_context(list, settings, context, m),
        are_evaluable(m, settings, list),
        value(coefficient, m.values) is Ok,
        valued(m, coefficient) == number(m, device, 0),
        0 <= i < device.nodes.len(),
        0 <= j < device.nodes.len(),
        coupling(context, coefficient, device.nodes[i], device.nodes[j]) == Ok::<
            Seq<Mark<S>>,
            Fault,
        >(more),
        0 <= row < m.unknowns.len(),
    ensures
        all_sound(m, more),
        more.len() == 2,
        row < context.nodes.len() ==> balance(m, more, row, 2) == S::nought(),
        row >= context.nodes.len() ==> balance(m, more, row, 2) == induced_by_pair(
            m,
            list,
            device,
            context.branches[row - context.nodes.len()],
            i,
            j,
        ).negation(),
{
    let (first, second) = (device.nodes[i], device.nodes[j]);
    lemma_context(list, settings, context, m);
    lemma_inductor_named(list, settings, context, m, first);
    lemma_inductor_named(list, settings, context, m, second);
    lemma_branch_at(list, settings, context, m, first);
    lemma_branch_at(list, settings, context, m, second);
    let b1 = branch_index(context.nodes, context.branches, first)->Ok_0;
    let b2 = branch_index(context.nodes, context.branches, second)->Ok_0;
    let l1 = inductance(context.inductances, first, context.inductances.len())->0;
    let l2 = inductance(context.inductances, second, context.inductances.len())->0;
    let a1 = choose|k: int| is_inductor(list, first, k);
    let a2 = choose|k: int| is_inductor(list, second, k);
    assert(!number(m, list[a1], 0).product(number(m, list[a2], 0)).below(S::nought()));
    law_product_keeps_value(l1, l2, m.values);
    law_root_keeps_value(expr::product(l1, l2), m.values);
    law_product_keeps_value(coefficient, expr::sqrt(expr::product(l1, l2)), m.values);
    let e = expr::product(coefficient, expr::sqrt(expr::product(l1, l2)));
    law_negation_keeps_value(e, m.values);
    let l = mutual(m, list, device, i, j);
    assert(valued(m, e) == l);
    reveal_with_fuel(balance, 3);
    lemma_part(m, more[0], row);
    lemma_part(m, more[1], row);
    lemma_negation_of_product(l, m.dx[b2]);
    lemma_negation_of_product(l, m.dx[b1]);
    let zero = S::nought();
    lemma_sum_zero(part(m, more[0], row));
    lemma_sum_zero(zero);
    lemma_negation_twice(zero);
    if row >= context.nodes.len() {
        let q = row - context.nodes.len();
        let name = context.branches[q];
        assert((b1 == context.nodes.len() + q) <==> text::eq_ignoring_case(first, name));
        assert((b2 == context.nodes.len() + q) <==> text::eq_ignoring_case(second, name));
        lemma_negation_of_sum(
            if text::eq_ignoring_case(first, name) {
                l.product(m.dx[b2])
            } else {
                zero
            },
            if text::eq_ignoring_case(second, name) {
                l.product(m.dx[b1])
            } else {
                zero
            },
        );
    }
}

proof fn lemma_couplings_balance<S: Scalar>(
    list: Seq<Device>,
    settings: Settings<S>,
    context: Context<S>,
    m: Moment<S>,
    device: Device,
    coefficient: Expr<S>,
    i: int,
    j: int,
    marks: Seq<Mark<S>>,
    row: int,
)
    requires
        exact::<S>(),
        is_context(list, settings, context, m),
        are_evaluable(m, settings, list),
        value(coefficient, m.values) is Ok,
        valued(m, coefficient) == number(m, device, 0),
        0 <= i < j,
        0 <= row < m.unknowns.len(),
        all_sound(m, marks),
        couplings_from(context, coefficient, device.nodes, i, j, marks) is Ok,
    ensures
        ({
            let all = couplings_from(context, coefficient, device.nodes, i, j, marks)->Ok_0;
            &&& all_sound(m, all)
            &&& row < context.nodes.len() ==> balance(m, all, row, all.len()) == balance(
                m,
                marks,
                row,
                marks.len(),
            )
            &&& row >= context.nodes.len() ==> balance(m, all, row, all.len()) == balance(
                m,
                marks,
                row,
                marks.len(),
            ).sum(
                induced_from(
                    m,
                    list,
                    device,
                    context.branches[row - context.nodes.len()],
                    i,
                    j,
                ).negation(),
            )
        }),
    decreases device.nodes.len() - i, device.nodes.len() - j,
{
    let before = balance(m, marks, row, marks.len());
    if i >= device.nodes.len() {
        lemma_negation_twice(S::nought());
        lemma_sum_zero(before);
    } else if j >= device.nodes.len() {
        lemma_couplings_balance(
            list,
            settings,
            context,
            m,
            device,
            coefficient,
            i + 1,
            i + 2,
            marks,
            row,
        );
    } else {
        let more = coupling(context, coefficient, device.nodes[i], device.nodes[j])->Ok_0;
        lemma_pair_balance(
            list,
            settings,
            context,
            m,
            device,
            coefficient,
            i,
            j,
            more,
            row,
        );
        let next = marks + more;
        assert forall|q: int| 0 <= q < next.len() implies is_sound(m, #[trigger] next[q]) by {
            if q < marks.len() {
                assert(next[q] == marks[q]);
            } else {
                assert(next[q] == more[q - marks.len()]);
                assert(is_sound(m, more[q - marks.len()]));
            }
        }
        lemma_balance_concat(m, marks, more, row, 2);
        lemma_couplings_balance(
            list,
            settings,
            context,
            m,
            device,
            coefficient,
            i,
            j + 1,
            next,
            row,
        );
        lemma_sum_zero(before);
        if row >= context.nodes.len() {
            let name = context.branches[row - context.nodes.len()];
            let one = induced_by_pair(m, list, device, name, i, j);
            let rest = induced_from(m, list, device, name, i, j + 1);
            lemma_sum_associates(before, one.negation(), rest.negation());
            lemma_negation_of_sum(one, rest);
        }
    }
}

/// No coupling reaches a branch that is no inductor's.
proof fn lemma_not_induced<S: Scalar>(
    list: Seq<Device>,
    settings: Settings<S>,
    context: Context<S>,
    m: Moment<S>,
    device: Device,
    coefficient: Expr<S>,
    i: int,
    j: int,
    marks: Seq<Mark<S>>,
    k: int,
)
    requires
        exact::<S>(),
        is_context(list, settings, context, m),
        are_evaluable(m, settings, list),
        0 <= i < j,
        couplings_from(context, coefficient, device.nodes, i, j, marks) is Ok,
        0 <= k < list.len(),
        is_branch_device(settings, list[k]),
        list[k].letter != 'L',
    ensures
        induced_from(m, list, device, list[k].name, i, j) == S::nought(),
    decreases device.nodes.len() - i, device.nodes.len() - j,
{
    if i < device.nodes.len() {
        if j >= device.nodes.len() {
            lemma_not_induced(
                list,
                settings,
                context,
                m,
                device,
                coefficient,
                i + 1,
                i + 2,
                marks,
                k,
            );
        } else {
            let more = coupling(context, coefficient, device.nodes[i], device.nodes[j])->Ok_0;
            lemma_not_induced(
                list,
                settings,
                context,
                m,
                device,
                coefficient,
                i,
                j + 1,
                marks + more,
                k,
            );
            lemma_inductor_named(list, settings, context, m, device.nodes[i]);
            lemma_inductor_named(list, settings, context, m, device.nodes[j]);
            lemma_branch_list(list, settings, 0, Seq::empty());
            let a = choose|a: int| is_inductor(list, device.nodes[i], a);
            let b = choose|b: int| is_inductor(list, device.nodes[j], b);
            if text::eq_ignoring_case(device.nodes[i], list[k].name) {
                if a < k {
                    assert(!text::eq_ignoring_case(list[a].name, list[k].name));
                } else if k < a {
                    assert(!text::eq_ignoring_case(list[k].name, list[a].name));
                }
            }
            if text::eq_ignoring_case(device.nodes[j], list[k].name) {
                if b < k {
                    assert(!text::eq_ignoring_case(list[b].name, list[k].name));
                } else if k < b {
                    assert(!text::eq_ignoring_case(list[k].name, list[b].name));
                }
            }
            lemma_sum_zero(S::nought());
        }
    }
}

// The sum over all devices

proof fn lemma_sound_concat<S: Scalar>(m: Moment<S>, first: Seq<Mark<S>>, more: Seq<Mark<S>>)
    requires
        all_sound(m, first),
        all_sound(m, more),
    ensures
        all_sound(m, first + more),
{
    let all = first + more;
    assert forall|q: int| 0 <= q < all.len() implies is_sound(m, #[trigger] all[q]) by {
        if q < first.len() {
            assert(all[q] == first[q]);
        } else {
            assert(all[q] == more[q - first.len()]);
        }
    }
}

proof fn lemma_coupling_device<S: Scalar>(
    list: Seq<Device>,
    settings: Settings<S>,
    context: Context<S>,
    m: Moment<S>,
    k: int,
    marks: Seq<Mark<S>>,
    row: int,
)
    requires
        exact::<S>(),
        is_context(list, settings, context, m),
        are_evaluable(m, settings, list),
        0 <= k < list.len(),
        list[k].letter == 'K',
        device_marks(context, list[k]) == Ok::<Seq<Mark<S>>, Fault>(marks),
        0 <= row < m.unknowns.len(),
    ensures
        all_sound(m, marks),
        row < context.nodes.len() ==> balance(m, marks, row, marks.len()) == S::nought(),
        row >= context.nodes.len() ==> balance(m, marks, row, marks.len()) == induced_from(
            m,
            list,
            list[k],
            context.branches[row - context.nodes.len()],
            0,
            1,
        ).negation(),
{
    let coefficient = scalar_value::<S>(list[k])->Ok_0;
    assert(mutual_marks::<S>(context, list[k]) == Ok::<Seq<Mark<S>>, Fault>(marks));
    assert(has_stamp(settings, list[k]));
    assert(is_evaluable(m, settings, list[k]));
    let none = Seq::<Mark<S>>::empty();
    lemma_couplings_balance(
        list,
        settings,
        context,
        m,
        list[k],
        coefficient,
        0,
        1,
        none,
        row,
    );
    if row >= context.nodes.len() {
        lemma_sum_zero(
            induced_from(
                m,
                list,
                list[k],
                context.branches[row - context.nodes.len()],
                0,
                1,
            ).negation(),
        );
    }
}

proof fn lemma_node_total<S: Scalar>(
    list: Seq<Device>,
    settings: Settings<S>,
    context: Context<S>,
    m: Moment<S>,
    i: int,
    before: Effect<S>,
    row: int,
)
    requires
        exact::<S>(),
        is_context(list, settings, context, m),
        are_evaluable(m, settings, list),
        0 <= i <= list.len(),
        0 <= row < context.nodes.len(),
        all_sound(m, before.marks),
        balance(m, before.marks, row, before.marks.len()) == all_taken(
            m,
            settings,
            list,
            context.nodes[row],
            i as nat,
        ),
        effect_from(context, list, i, before) is Ok,
    ensures
        ({
            let after = effect_from(context, list, i, before)->Ok_0.marks;
            &&& all_sound(m, after)
            &&& balance(m, after, row, after.len()) == all_taken(
                m,
                settings,
                list,
                context.nodes[row],
                list.len(),
            )
        }),
    decreases list.len() - i,
{
    if i < list.len() {
        lemma_context(list, settings, context, m);
        if has_stamp(settings, list[i]) {
            let more = device_marks(context, list[i])->Ok_0;
            if list[i].letter == 'K' {
                lemma_coupling_device(list, settings, context, m, i, more, row);
            } else {
                lemma_device_fits(list, settings, context, m, i, more, row);
            }
            lemma_sound_concat(m, before.marks, more);
            lemma_balance_concat(m, before.marks, more, row, more.len());
            lemma_node_total(
                list,
                settings,
                context,
                m,
                i + 1,
                Effect { marks: before.marks + more, warnings: before.warnings },
                row,
            );
        } else {
            lemma_node_total(
                list,
                settings,
                context,
                m,
                i + 1,
                Effect {
                    marks: before.marks,
                    warnings: before.warnings.push(unsupported_message(list[i])),
                },
                row,
            );
        }
    }
}

/// What the first `n` devices add to the row of the branch of device `k`.
spec fn branch_total<S: Scalar>(m: Moment<S>, list: Seq<Device>, k: int, n: nat) -> S {
    (if k < n {
        own_equation(m, list[k])
    } else {
        S::nought()
    }).difference(induced(m, list, list[k].name, n))
}

proof fn lemma_same_name_induces<S: Scalar>(
    m: Moment<S>,
    list: Seq<Device>,
    device: Device,
    a: Seq<char>,
    b: Seq<char>,
    i: int,
    j: int,
)
    requires
        text::eq_ignoring_case(a, b),
    ensures
        induced_from(m, list, device, a, i, j) == induced_from(m, list, device, b, i, j),
    decreases device.nodes.len() - i, device.nodes.len() - j,
{
    if 0 <= i < device.nodes.len() {
        if j >= device.nodes.len() {
            lemma_same_name_induces(m, list, device, a, b, i + 1, i + 2);
        } else {
            lemma_same_name_induces(m, list, device, a, b, i, j + 1);
        }
    }
}

proof fn lemma_branch_step<S: Scalar>(
    list: Seq<Device>,
    settings: Settings<S>,
    context: Context<S>,
    m: Moment<S>,
    i: int,
    more: Seq<Mark<S>>,
    k: int,
    row: int,
)
    requires
        exact::<S>(),
        is_context(list, settings, context, m),
        are_evaluable(m, settings, list),
        0 <= i < list.len(),
        0 <= k < list.len(),
        is_branch_device(settings, list[k]),
        context.nodes.len() <= row < m.unknowns.len(),
        text::eq_ignoring_case(context.branches[row - context.nodes.len()], list[k].name),
        has_stamp(settings, list[i]),
        device_marks(context, list[i]) == Ok::<Seq<Mark<S>>, Fault>(more),
    ensures
        all_sound(m, more),
        branch_total(m, list, k, i as nat).sum(balance(m, more, row, more.len())) == branch_total(
            m,
            list,
            k,
            (i + 1) as nat,
        ),
{
    let name = list[k].name;
    let branch = context.branches[row - context.nodes.len()];
    let zero = S::nought();
    let own = own_equation(m, list[k]);
    let before = induced(m, list, name, i as nat);
    let share = balance(m, more, row, more.len());
    lemma_context(list, settings, context, m);
    let start = if k < i {
        own
    } else {
        zero
    };
    lemma_difference(start, before);
    if list[i].letter == 'K' {
        lemma_coupling_device(list, settings, context, m, i, more, row);
        lemma_same_name_induces(m, list, list[i], branch, name, 0, 1);
        let one = induced_from(m, list, list[i], name, 0, 1);
        lemma_sum_associates(start, before.negation(), one.negation());
        lemma_negation_of_sum(before, one);
        lemma_difference(start, before.sum(one));
    } else {
        lemma_device_fits(list, settings, context, m, i, more, row);
        lemma_branch_list(list, settings, 0, Seq::empty());
        if is_branch_device(settings, list[i]) && text::eq_ignoring_case(list[i].name, branch) {
            if i < k {
                assert(!text::eq_ignoring_case(list[i].name, list[k].name));
            } else if k < i {
                assert(!text::eq_ignoring_case(list[k].name, list[i].name));
            }
            assert(i == k);
            lemma_sum_zero(before.negation());
            lemma_sum_commutes(before.negation(), own);
            lemma_difference(own, before);
        } else {
            assert(i != k);
            lemma_sum_zero(start.difference(before));
        }
    }
}

proof fn lemma_branch_sum<S: Scalar>(
    list: Seq<Device>,
    settings: Settings<S>,
    context: Context<S>,
    m: Moment<S>,
    i: int,
    before: Effect<S>,
    k: int,
    row: int,
)
    requires
        exact::<S>(),
        is_context(list, settings, context, m),
        are_evaluable(m, settings, list),
        0 <= i <= list.len(),
        0 <= k < list.len(),
        is_branch_device(settings, list[k]),
        context.nodes.len() <= row < m.unknowns.len(),
        text::eq_ignoring_case(context.branches[row - context.nodes.len()], list[k].name),
        all_sound(m, before.marks),
        balance(m, before.marks, row, before.marks.len()) == branch_total(m, list, k, i as nat),
        effect_from(context, list, i, before) is Ok,
    ensures
        ({
            let after = effect_from(context, list, i, before)->Ok_0.marks;
            &&& all_sound(m, after)
            &&& balance(m, after, row, after.len()) == branch_total(m, list, k, list.len())
        }),
    decreases list.len() - i,
{
    if i < list.len() {
        if has_stamp(settings, list[i]) {
            let more = device_marks(context, list[i])->Ok_0;
            lemma_branch_step(list, settings, context, m, i, more, k, row);
            lemma_sound_concat(m, before.marks, more);
            lemma_balance_concat(m, before.marks, more, row, more.len());
            lemma_branch_sum(
                list,
                settings,
                context,
                m,
                i + 1,
                Effect { marks: before.marks + more, warnings: before.warnings },
                k,
                row,
            );
        } else {
            assert(i != k);
            lemma_branch_sum(
                list,
                settings,
                context,
                m,
                i + 1,
                Effect {
                    marks: before.marks,
                    warnings: before.warnings.push(unsupported_message(list[i])),
                },
                k,
                row,
            );
        }
    }
}

proof fn lemma_no_coupling_reaches<S: Scalar>(
    list: Seq<Device>,
    settings: Settings<S>,
    context: Context<S>,
    m: Moment<S>,
    i: int,
    before: Effect<S>,
    k: int,
)
    requires
        exact::<S>(),
        is_context(list, settings, context, m),
        are_evaluable(m, settings, list),
        0 <= i <= list.len(),
        0 <= k < list.len(),
        is_branch_device(settings, list[k]),
        list[k].letter != 'L',
        induced(m, list, list[k].name, i as nat) == S::nought(),
        effect_from(context, list, i, before) is Ok,
    ensures
        induced(m, list, list[k].name, list.len()) == S::nought(),
    decreases list.len() - i,
{
    if i < list.len() {
        let next = if has_stamp(settings, list[i]) {
            Effect {
                marks: before.marks + device_marks(context, list[i])->Ok_0,
                warnings: before.warnings,
            }
        } else {
            Effect {
                marks: before.marks,
                warnings: before.warnings.push(unsupported_message(list[i])),
            }
        };
        if list[i].letter == 'K' {
            assert(!is_switch(settings, list[i]));
            lemma_not_induced(
                list,
                settings,
                context,
                m,
                list[i],
                scalar_value::<S>(list[i])->Ok_0,
                0,
                1,
                Seq::empty(),
                k,
            );
            lemma_sum_zero(S::nought());
        }
        lemma_no_coupling_reaches(list, settings, context, m, i + 1, next, k);
    }
}

// The laws

spec fn context_of<S: Scalar>(list: Seq<Device>, settings: Settings<S>) -> Context<S> {
    Context {
        settings,
        nodes: nodes(list, settings),
        branches: branches(list, settings)->Ok_0,
        inputs: inputs::<S>(list)->Ok_0.names,
        inductances: inductances_from::<S>(list, 0, Seq::empty())->Ok_0,
    }
}

proof fn lemma_left_over<S: Scalar>(
    cards: Seq<Card>,
    settings: Settings<S>,
    d: Descriptor<S>,
    m: Moment<S>,
    marks: Seq<Mark<S>>,
    row: int,
)
    requires
        exact::<S>(),
        m.unknowns == d.unknowns,
        m.inputs == d.inputs,
        all_sound(m, marks),
        0 <= row < d.unknowns.len(),
        d.a == marked(zeros::<S>(d.unknowns.len(), d.unknowns.len()), Place::A, marks, marks.len()),
        d.k == marked(zeros::<S>(d.unknowns.len(), d.unknowns.len()), Place::K, marks, marks.len()),
        d.b == marked(zeros::<S>(d.unknowns.len(), d.inputs.len()), Place::B, marks, marks.len()),
    ensures
        left_over(d, m, row) == balance(m, marks, row, marks.len()),
{
    let (rows, cols) = (d.unknowns.len(), d.inputs.len());
    lemma_marked_row(m, marks, Place::A, rows, rows, m.x, row, marks.len());
    lemma_marked_row(m, marks, Place::K, rows, rows, m.dx, row, marks.len());
    lemma_marked_row(m, marks, Place::B, rows, cols, m.w, row, marks.len());
    lemma_balance(m, marks, row, marks.len());
}

/// Kirchhoff's current law: what is left over in the equation of a node is the sum of the
/// currents that the devices take out of the node. A resistor or a switch takes the voltage
/// across it over its resistance, a capacitor its capacitance times the derivative of the
/// voltage, a diode its conductance times the voltage and its off-set current, a current source
/// its value, a controlled current source its gain times what controls it, and every other device
/// the current of its branch.
pub proof fn law_currents_balance_at_every_node<S: Scalar>(
    cards: Seq<Card>,
    settings: Settings<S>,
    d: Descriptor<S>,
    m: Moment<S>,
    node: Seq<char>,
    row: int,
)
    requires
        exact::<S>(),
        system(cards, settings) == Ok::<Descriptor<S>, Fault>(d),
        is_asked(cards, settings, d, m),
        is_listed(d.unknowns, "V("@ + node + ")"@, row),
    ensures
        left_over(d, m, row) == all_taken(
            m,
            settings,
            devices(cards, cards.len()),
            node,
            devices(cards, cards.len()).len(),
        ),
{
    let list = devices(cards, cards.len());
    let context = context_of(list, settings);
    assert(is_context(list, settings, context, m));
    lemma_context(list, settings, context, m);
    lemma_node_row(context.nodes, context.branches, node, row);
    let none = Effect::<S> { marks: Seq::empty(), warnings: Seq::empty() };
    assert(all_sound(m, none.marks));
    lemma_node_total(list, settings, context, m, 0, none, row);
    let marks = effect_from(context, list, 0, none)->Ok_0.marks;
    lemma_left_over(cards, settings, d, m, marks, row);
    lemma_same_node_takes(m, settings, list, context.nodes[row], node, list.len());
}

proof fn lemma_same_node_takes<S: Scalar>(
    m: Moment<S>,
    settings: Settings<S>,
    list: Seq<Device>,
    a: Seq<char>,
    b: Seq<char>,
    n: nat,
)
    requires
        text::eq_ignoring_case(a, b),
    ensures
        all_taken(m, settings, list, a, n) == all_taken(m, settings, list, b, n),
    decreases n,
{
    if n > 0 {
        lemma_same_node_takes(m, settings, list, a, b, (n - 1) as nat);
    }
}

proof fn lemma_branch_equation<S: Scalar>(
    cards: Seq<Card>,
    settings: Settings<S>,
    d: Descriptor<S>,
    m: Moment<S>,
    k: int,
    row: int,
)
    requires
        exact::<S>(),
        system(cards, settings) == Ok::<Descriptor<S>, Fault>(d),
        is_asked(cards, settings, d, m),
        0 <= k < devices(cards, cards.len()).len(),
        is_branch_device(settings, devices(cards, cards.len())[k]),
        is_listed(d.unknowns, "I("@ + devices(cards, cards.len())[k].name + ")"@, row),
    ensures
        ({
            let list = devices(cards, cards.len());
            &&& left_over(d, m, row) == own_equation(m, list[k]).difference(
                induced(m, list, list[k].name, list.len()),
            )
            &&& list[k].letter != 'L' ==> left_over(d, m, row) == own_equation(m, list[k])
        }),
{
    let list = devices(cards, cards.len());
    let context = context_of(list, settings);
    assert(is_context(list, settings, context, m));
    lemma_context(list, settings, context, m);
    lemma_node_row(context.nodes, context.branches, list[k].name, row);
    let none = Effect::<S> { marks: Seq::empty(), warnings: Seq::empty() };
    assert(all_sound(m, none.marks));
    let zero = S::nought();
    lemma_difference(zero, zero);
    lemma_negation(zero);
    assert(branch_total(m, list, k, 0) == zero);
    lemma_branch_sum(list, settings, context, m, 0, none, k, row);
    let marks = effect_from(context, list, 0, none)->Ok_0.marks;
    lemma_left_over(cards, settings, d, m, marks, row);
    if list[k].letter != 'L' {
        lemma_no_coupling_reaches(list, settings, context, m, 0, none, k);
        let own = own_equation(m, list[k]);
        lemma_difference(own, zero);
        lemma_negation_twice(zero);
        lemma_sum_zero(own);
    }
}

/// The equation of a voltage source's branch says that the voltage across it is the value of the
/// source.
pub proof fn law_voltage_source_equation<S: Scalar>(
    cards: Seq<Card>,
    settings: Settings<S>,
    d: Descriptor<S>,
    m: Moment<S>,
    k: int,
    row: int,
)
    requires
        exact::<S>(),
        system(cards, settings) == Ok::<Descriptor<S>, Fault>(d),
        is_asked(cards, settings, d, m),
        0 <= k < devices(cards, cards.len()).len(),
        devices(cards, cards.len())[k].letter == 'V',
        !is_switch(settings, devices(cards, cards.len())[k]),
        is_listed(d.unknowns, "I("@ + devices(cards, cards.len())[k].name + ")"@, row),
    ensures
        ({
            let device = devices(cards, cards.len())[k];
            left_over(d, m, row) == at_node(m, m.x, device.nodes[0]).difference(
                at_node(m, m.x, device.nodes[1]),
            ).difference(drive(m, device.name))
        }),
{
    lemma_branch_equation(cards, settings, d, m, k, row);
}

/// The equation of a voltage-controlled voltage source's branch says that the voltage across it
/// is its gain times the voltage that controls it.
pub proof fn law_voltage_controlled_voltage_source_equation<S: Scalar>(
    cards: Seq<Card>,
    settings: Settings<S>,
    d: Descriptor<S>,
    m: Moment<S>,
    k: int,
    row: int,
)
    requires
        exact::<S>(),
        system(cards, settings) == Ok::<Descriptor<S>, Fault>(d),
        is_asked(cards, settings, d, m),
        0 <= k < devices(cards, cards.len()).len(),
        devices(cards, cards.len())[k].letter == 'E',
        !is_switch(settings, devices(cards, cards.len())[k]),
        is_listed(d.unknowns, "I("@ + devices(cards, cards.len())[k].name + ")"@, row),
    ensures
        ({
            let device = devices(cards, cards.len())[k];
            left_over(d, m, row) == at_node(m, m.x, device.nodes[0]).difference(
                at_node(m, m.x, device.nodes[1]),
            ).difference(
                number(m, device, 0).product(
                    at_node(m, m.x, device.nodes[2]).difference(at_node(m, m.x, device.nodes[3])),
                ),
            )
        }),
{
    lemma_branch_equation(cards, settings, d, m, k, row);
}

/// The equation of a current-controlled voltage source's branch says that the voltage across it
/// is its gain times the current of the branch that controls it.
pub proof fn law_current_controlled_voltage_source_equation<S: Scalar>(
    cards: Seq<Card>,
    settings: Settings<S>,
    d: Descriptor<S>,
    m: Moment<S>,
    k: int,
    row: int,
)
    requires
        exact::<S>(),
        system(cards, settings) == Ok::<Descriptor<S>, Fault>(d),
        is_asked(cards, settings, d, m),
        0 <= k < devices(cards, cards.len()).len(),
        devices(cards, cards.len())[k].letter == 'H',
        !is_switch(settings, devices(cards, cards.len())[k]),
        is_listed(d.unknowns, "I("@ + devices(cards, cards.len())[k].name + ")"@, row),
    ensures
        ({
            let device = devices(cards, cards.len())[k];
            left_over(d, m, row) == at_node(m, m.x, device.nodes[0]).difference(
                at_node(m, m.x, device.nodes[1]),
            ).difference(number(m, device, 1).product(in_branch(m, m.x, device.params[0])))
        }),
{
    lemma_branch_equation(cards, settings, d, m, k, row);
}

/// The equation of an inductor's branch says that the voltage across it is its inductance times
/// the derivative of its current, plus what the couplings induce in it: the mutual inductance
/// `k * sqrt(L1 * L2)` times the derivative of the other inductor's current, for each pair of
/// coupled inductors that it belongs to.
pub proof fn law_inductor_equation<S: Scalar>(
    cards: Seq<Card>,
    settings: Settings<S>,
    d: Descriptor<S>,
    m: Moment<S>,
    k: int,
    row: int,
)
    requires
        exact::<S>(),
        system(cards, settings) == Ok::<Descriptor<S>, Fault>(d),
        is_asked(cards, settings, d, m),
        0 <= k < devices(cards, cards.len()).len(),
        devices(cards, cards.len())[k].letter == 'L',
        !is_switch(settings, devices(cards, cards.len())[k]),
        is_listed(d.unknowns, "I("@ + devices(cards, cards.len())[k].name + ")"@, row),
    ensures
        ({
            let list = devices(cards, cards.len());
            let device = list[k];
            left_over(d, m, row) == at_node(m, m.x, device.nodes[0]).difference(
                at_node(m, m.x, device.nodes[1]),
            ).difference(number(m, device, 0).product(in_branch(m, m.dx, device.name))).difference(
                induced(m, list, device.name, list.len()),
            )
        }),
{
    lemma_branch_equation(cards, settings, d, m, k, row);
}

/// Every node that a device is connected to is the reference or has a voltage among the unknowns,
/// and every voltage source, inductor, and controlled voltage source has a current among them. A
/// coupling is connected to no node, and a switch by its first two.
pub proof fn law_every_quantity_is_an_unknown<S: Scalar>(
    cards: Seq<Card>,
    settings: Settings<S>,
    d: Descriptor<S>,
    k: int,
    j: int,
)
    requires
        system(cards, settings) == Ok::<Descriptor<S>, Fault>(d),
        0 <= k < devices(cards, cards.len()).len(),
    ensures
        ({
            let device = devices(cards, cards.len())[k];
            &&& 0 <= j < device.nodes.len() && device.letter != 'K' && (j < 2 || !is_switch(
                settings,
                device,
            )) ==> is_reference(device.nodes[j]) || exists|row: int|
                is_listed(d.unknowns, "V("@ + device.nodes[j] + ")"@, row)
            &&& !is_switch(settings, device) && (device.letter == 'V' || device.letter == 'L'
                || device.letter == 'E' || device.letter == 'H') ==> exists|row: int|
                is_listed(d.unknowns, "I("@ + device.name + ")"@, row)
        }),
{
    let list = devices(cards, cards.len());
    let device = list[k];
    let node_list = nodes(list, settings);
    let branch_list = branches(list, settings)->Ok_0;
    lemma_nodes_from(list, settings, 0, Seq::empty());
    lemma_branches_from(list, settings, 0, Seq::empty());
    if 0 <= j < device.nodes.len() && device.letter != 'K' && (j < 2 || !is_switch(
        settings,
        device,
    )) {
        lemma_nodes_are_placed(list, settings, 0, Seq::empty(), k, j, device.nodes[j]);
        if !is_ground(device.nodes[j]) {
            let i = choose|i: int| is_listed(node_list, device.nodes[j], i);
            lemma_node_row(node_list, branch_list, device.nodes[j], i);
            assert(is_listed(d.unknowns, "V("@ + device.nodes[j] + ")"@, i));
        }
    }
    if is_branch_device(settings, device) {
        lemma_branch_list(list, settings, 0, Seq::empty());
        assert(covers(branch_list, list[k].name));
        let i = choose|i: int| is_listed(branch_list, device.name, i);
        lemma_node_row(node_list, branch_list, device.name, node_list.len() + i);
        assert(is_listed(d.unknowns, "I("@ + device.name + ")"@, node_list.len() + i));
    }
}

/// Every voltage source, current source and diode is an input.
pub proof fn law_every_source_is_an_input<S: Scalar>(
    cards: Seq<Card>,
    settings: Settings<S>,
    d: Descriptor<S>,
    k: int,
)
    requires
        system(cards, settings) == Ok::<Descriptor<S>, Fault>(d),
        0 <= k < devices(cards, cards.len()).len(),
    ensures
        ({
            let device = devices(cards, cards.len())[k];
            device.letter == 'V' || device.letter == 'I' || device.letter == 'D' ==> exists|i: int|
                is_listed(d.inputs, device.name, i)
        }),
{
    let list = devices(cards, cards.len());
    let none = Inputs::<S> { names: Seq::empty(), values: Seq::empty(), waves: Map::empty() };
    lemma_input_list(list, 0, none, list[k].name);
    if is_input(list[k].letter) {
        assert(covers(d.inputs, list[k].name));
    }
}

} // verus!
