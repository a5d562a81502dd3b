//! What holds of every circuit, whatever its devices are.

use crate::averaging::mismatch;
use crate::circuit::{
    assigned_from, branches, branches_from, coupling, couplings_from, defaults_from, device_marks,
    devices, effect_from, expanded, fields_fault, has_stamp, inductances_from, initial,
    initial_from,
    initial_of, inputs, inputs_from, is_branch_device, is_ground, is_input, marked, node_count,
    node_index, nodes, nodes_from, parameter_message, position, scalar_value, switch_state, system,
    unknown_names, unsupported_message, voltage_name, with_input, with_node, with_nodes, zeros,
    Context, Defaults, Effect, Fault, Inputs, Mark, Place, Settings,
};
use crate::expr;
use crate::expr::Expr;
use crate::netlist::{Card, Device};
use crate::scalar::Scalar;
use crate::system::{Descriptor, Initial};
use crate::text;
use vstd::prelude::*;

verus! {

// Names

pub proof fn lemma_position(names: Seq<Seq<char>>, name: Seq<char>, from: int)
    requires
        0 <= from <= names.len(),
    ensures
        from <= position(names, name, from) <= names.len(),
        position(names, name, from) < names.len() ==> text::eq_ignoring_case(
            names[position(names, name, from)],
            name,
        ),
        forall|i: int|
            from <= i < position(names, name, from) ==> !text::eq_ignoring_case(
                #[trigger] names[i],
                name,
            ),
    decreases names.len() - from,
{
    if from < names.len() && !text::eq_ignoring_case(names[from], name) {
        lemma_position(names, name, from + 1);
    }
}

/// Looking a name up pays no attention to letter case.
pub proof fn law_lookup_ignores_case(
    names: Seq<Seq<char>>,
    a: Seq<char>,
    b: Seq<char>,
    from: int,
)
    requires
        text::eq_ignoring_case(a, b),
    ensures
        position(names, a, from) == position(names, b, from),
    decreases names.len() - from,
{
    if 0 <= from < names.len() {
        law_lookup_ignores_case(names, a, b, from + 1);
    }
}

/// A name that is ground's only in other letters is ground's too.
pub proof fn lemma_ground_ignores_case(a: Seq<char>, b: Seq<char>)
    requires
        text::eq_ignoring_case(a, b),
        is_ground(a),
    ensures
        is_ground(b),
{
    if a == "0"@ {
        reveal_strlit("0");
        assert(text::upper(a).len() == text::upper(b).len());
        assert(text::upper(a)[0] == text::upper(b)[0]);
        assert(b =~= "0"@);
    }
}

pub proof fn lemma_position_in_longer(names: Seq<Seq<char>>, more: Seq<char>, name: Seq<char>, from: int)
    requires
        0 <= from <= names.len(),
    ensures
        position(names, name, from) < names.len() ==> position(names.push(more), name, from)
            == position(names, name, from),
        position(names, name, from) == names.len() && text::eq_ignoring_case(more, name)
            ==> position(names.push(more), name, from) == names.len(),
    decreases names.len() - from,
{
    let longer = names.push(more);
    if from < names.len() {
        assert(longer[from] == names[from]);
        lemma_position_in_longer(names, more, name, from + 1);
    } else {
        assert(longer[from] == more);
    }
}

/// Taking up a node changes nothing where it is ground or known already. Otherwise its voltage
/// becomes the last unknown, found under its name in any letter case. What was known before
/// stays as it was, and taking the node up again, in any letter case, changes nothing.
pub proof fn law_node_is_taken_up_once(
    list: Seq<Seq<char>>,
    name: Seq<char>,
    again: Seq<char>,
    earlier: Seq<char>,
)
    requires
        text::eq_ignoring_case(name, again),
    ensures
        is_ground(name) || node_index(list, name) is Some ==> with_node(list, name) == list,
        !is_ground(name) && node_index(list, name) is None ==> {
            &&& unknown_names(with_node(list, name), Seq::empty()) == unknown_names(
                list,
                Seq::empty(),
            ).push(voltage_name(name))
            &&& node_index(with_node(list, name), again) == Some(list.len() as int)
        },
        node_index(list, earlier) is Some ==> node_index(with_node(list, name), earlier)
            == node_index(list, earlier),
        with_node(with_node(list, name), again) == with_node(list, name),
{
    lemma_position(list, name, 0);
    lemma_position(list, earlier, 0);
    lemma_position_in_longer(list, name, earlier, 0);
    lemma_position_in_longer(list, name, again, 0);
    law_lookup_ignores_case(list, name, again, 0);
    if is_ground(name) {
        lemma_ground_ignores_case(name, again);
    }
    if is_ground(again) {
        lemma_ground_ignores_case(again, name);
    }
    assert(unknown_names(list.push(name), Seq::empty()) =~= unknown_names(
        list,
        Seq::empty(),
    ).push(voltage_name(name)));
}

// Unknowns

/// No two names are equal, letter case aside.
pub open spec fn distinct(names: Seq<Seq<char>>) -> bool {
    forall|i: int, j: int|
        0 <= i < j < names.len() ==> !text::eq_ignoring_case(
            #[trigger] names[i],
            #[trigger] names[j],
        )
}

/// No name is that of ground.
pub open spec fn groundless(names: Seq<Seq<char>>) -> bool {
    forall|i: int| 0 <= i < names.len() ==> !is_ground(#[trigger] names[i])
}

proof fn lemma_with_nodes(list: Seq<Seq<char>>, names: Seq<Seq<char>>, count: int, j: int)
    requires
        distinct(list),
        groundless(list),
    ensures
        distinct(with_nodes(list, names, count, j)),
        groundless(with_nodes(list, names, count, j)),
    decreases count - j,
{
    if 0 <= j < count {
        lemma_position(list, names[j], 0);
        lemma_with_nodes(with_node(list, names[j]), names, count, j + 1);
    }
}

pub proof fn lemma_nodes_from<S>(
    list: Seq<Device>,
    settings: Settings<S>,
    i: int,
    known: Seq<Seq<char>>,
)
    requires
        distinct(known),
        groundless(known),
    ensures
        distinct(nodes_from(list, settings, i, known)),
        groundless(nodes_from(list, settings, i, known)),
    decreases list.len() - i,
{
    if 0 <= i < list.len() {
        lemma_with_nodes(known, list[i].nodes, node_count(settings, list[i]), 0);
        lemma_nodes_from(
            list,
            settings,
            i + 1,
            with_nodes(known, list[i].nodes, node_count(settings, list[i]), 0),
        );
    }
}

pub proof fn lemma_branches_from<S>(
    list: Seq<Device>,
    settings: Settings<S>,
    i: int,
    known: Seq<Seq<char>>,
)
    requires
        distinct(known),
    ensures
        branches_from(list, settings, i, known) matches Ok(names) ==> distinct(names),
    decreases list.len() - i,
{
    if 0 <= i < list.len() {
        if is_branch_device(settings, list[i]) {
            lemma_position(known, list[i].name, 0);
            if position(known, list[i].name, 0) >= known.len() {
                lemma_branches_from(list, settings, i + 1, known.push(list[i].name));
            }
        } else {
            lemma_branches_from(list, settings, i + 1, known);
        }
    }
}

/// The unknowns of a circuit are the voltages of its nodes, in the order in which they first
/// occur, and then the currents of its branches, in the order of their devices. No name
/// occurs twice, letter case aside, and ground is not among the nodes.
pub proof fn law_unknowns<S: Scalar>(cards: Seq<Card>, settings: Settings<S>)
    ensures
        system(cards, settings) matches Ok(d) ==> {
            let list = devices(cards, cards.len());
            &&& branches(list, settings) matches Ok(branch_list)
                && d.unknowns == unknown_names(nodes(list, settings), branch_list)
                && distinct(branch_list)
            &&& distinct(nodes(list, settings))
            &&& groundless(nodes(list, settings))
        },
{
    let list = devices(cards, cards.len());
    lemma_nodes_from(list, settings, 0, Seq::empty());
    lemma_branches_from(list, settings, 0, Seq::empty());
}

pub proof fn lemma_inputs_from<S: Scalar>(list: Seq<Device>, i: int, known: Inputs<S>)
    requires
        known.names.len() == known.values.len(),
        distinct(known.names),
    ensures
        inputs_from(list, i, known) matches Ok(all) ==> all.names.len() == all.values.len()
            && distinct(all.names),
    decreases list.len() - i,
{
    if 0 <= i < list.len() {
        if is_input(list[i].letter) {
            lemma_position(known.names, list[i].name, 0);
            match with_input(known, list[i]) {
                Ok(more) => {
                    lemma_inputs_from(list, i + 1, more);
                },
                Err(_) => {},
            }
        } else {
            lemma_inputs_from(list, i + 1, known);
        }
    }
}

/// The source vector of a circuit is its input matrix times its input values, one for each
/// input; and no two inputs have the same name, letter case aside.
pub proof fn law_source_vector<S: Scalar>(cards: Seq<Card>, settings: Settings<S>)
    ensures
        system(cards, settings) matches Ok(d) ==> {
            &&& d.inputs.len() == d.input_values.len()
            &&& distinct(d.inputs)
            &&& d.u.len() == d.unknowns.len()
            &&& forall|row: int|
                0 <= row < d.u.len() ==> #[trigger] d.u[row] == expanded(
                    d.b[row],
                    d.input_values,
                    d.inputs.len(),
                )
        },
{
    let list = devices(cards, cards.len());
    lemma_inputs_from::<S>(
        list,
        0,
        Inputs { names: Seq::empty(), values: Seq::empty(), waves: Map::empty() },
    );
}

// Phases

/// The same devices are taken as switches, in whatever states and with whatever resistances.
pub open spec fn same_switches<S>(first: Settings<S>, other: Settings<S>) -> bool {
    &&& first.skip_unsupported == other.skip_unsupported
    &&& forall|name: Seq<char>|
        #[trigger] first.switches.contains_key(name) <==> other.switches.contains_key(name)
}

proof fn lemma_same_nodes<S>(
    list: Seq<Device>,
    first: Settings<S>,
    other: Settings<S>,
    i: int,
    known: Seq<Seq<char>>,
)
    requires
        same_switches(first, other),
    ensures
        nodes_from(list, first, i, known) == nodes_from(list, other, i, known),
        branches_from(list, first, i, known) == branches_from(list, other, i, known),
        fields_fault(list, first, i) == fields_fault(list, other, i),
    decreases list.len() - i,
{
    if 0 <= i < list.len() {
        assert(first.switches.contains_key(text::upper(list[i].name))
            <==> other.switches.contains_key(text::upper(list[i].name)));
        lemma_same_nodes(
            list,
            first,
            other,
            i + 1,
            with_nodes(known, list[i].nodes, node_count(first, list[i]), 0),
        );
        lemma_same_nodes(list, first, other, i + 1, known.push(list[i].name));
        lemma_same_nodes(list, first, other, i + 1, known);
    }
}

proof fn lemma_same_initial<S: Scalar>(
    list: Seq<Device>,
    first: Settings<S>,
    other: Settings<S>,
    node_list: Seq<Seq<char>>,
    branch_list: Seq<Seq<char>>,
    i: int,
    found: Seq<Initial<S>>,
)
    requires
        same_switches(first, other),
    ensures
        initial_from(list, first, node_list, branch_list, i, found) == initial_from(
            list,
            other,
            node_list,
            branch_list,
            i,
            found,
        ),
    decreases list.len() - i,
{
    if 0 <= i < list.len() {
        assert(first.switches.contains_key(text::upper(list[i].name))
            <==> other.switches.contains_key(text::upper(list[i].name)));
        lemma_same_initial(list, first, other, node_list, branch_list, i + 1, found);
        match initial_of::<S>(list[i], node_list, branch_list) {
            Ok(Some(more)) => {
                lemma_same_initial(
                    list,
                    first,
                    other,
                    node_list,
                    branch_list,
                    i + 1,
                    found.push(more),
                );
            },
            _ => {},
        }
    }
}

proof fn lemma_same_couplings<S: Scalar>(
    first: Context<S>,
    other: Context<S>,
    coefficient: Expr<S>,
    names: Seq<Seq<char>>,
    i: int,
    j: int,
    marks: Seq<Mark<S>>,
)
    requires
        first.nodes == other.nodes,
        first.branches == other.branches,
        first.inductances == other.inductances,
    ensures
        couplings_from(first, coefficient, names, i, j, marks) == couplings_from(
            other,
            coefficient,
            names,
            i,
            j,
            marks,
        ),
    decreases names.len() - i, names.len() - j,
{
    if 0 <= i < names.len() {
        if j >= names.len() {
            lemma_same_couplings(first, other, coefficient, names, i + 1, i + 2, marks);
        } else {
            match coupling(first, coefficient, names[i], names[j]) {
                Ok(more) => {
                    lemma_same_couplings(
                        first,
                        other,
                        coefficient,
                        names,
                        i,
                        j + 1,
                        marks + more,
                    );
                },
                Err(_) => {},
            }
        }
    }
}

/// Two marks that are the same but for the value of one in the memoryless matrix.
spec fn alike_marks<S>(first: Mark<S>, other: Mark<S>) -> bool {
    &&& first.place == other.place
    &&& first.row == other.row
    &&& first.col == other.col
    &&& first.place == Place::A || first.value == other.value
}

spec fn alike_lists<S>(first: Seq<Mark<S>>, other: Seq<Mark<S>>) -> bool {
    first.len() == other.len() && forall|i: int|
        0 <= i < first.len() ==> alike_marks(#[trigger] first[i], other[i])
}

proof fn lemma_alike_concat<S>(
    a: Seq<Mark<S>>,
    b: Seq<Mark<S>>,
    c: Seq<Mark<S>>,
    d: Seq<Mark<S>>,
)
    requires
        alike_lists(a, b),
        alike_lists(c, d),
    ensures
        alike_lists(a + c, b + d),
{
    assert forall|i: int| 0 <= i < (a + c).len() implies alike_marks(
        #[trigger] (a + c)[i],
        (b + d)[i],
    ) by {
        if i < a.len() {
            assert(alike_marks(a[i], b[i]));
        } else {
            assert(alike_marks(c[i - a.len()], d[i - a.len()]));
        }
    }
}

proof fn lemma_alike_itself<S>(a: Seq<Mark<S>>)
    ensures
        alike_lists(a, a),
{
}

/// Outside of the memoryless matrix, marks that are alike make the same entries.
proof fn lemma_alike_marked<S: Scalar>(
    start: Seq<Seq<Expr<S>>>,
    place: Place,
    first: Seq<Mark<S>>,
    other: Seq<Mark<S>>,
    n: nat,
)
    requires
        place != Place::A,
        alike_lists(first, other),
        n <= first.len(),
    ensures
        marked(start, place, first, n) == marked(start, place, other, n),
    decreases n,
{
    if n > 0 {
        lemma_alike_marked(start, place, first, other, (n - 1) as nat);
        assert(alike_marks(first[n - 1], other[n - 1]));
    }
}

/// What the settings of two phases have in common.
spec fn same_wiring<S>(first: Context<S>, other: Context<S>) -> bool {
    &&& same_switches(first.settings, other.settings)
    &&& first.nodes == other.nodes
    &&& first.branches == other.branches
    &&& first.inputs == other.inputs
    &&& first.inductances == other.inductances
}

/// Every switch has one resistance, whatever its state.
spec fn one_resistance<S>(first: Settings<S>, other: Settings<S>) -> bool {
    first.on == first.off && other.on == first.on && other.off == first.on
}

proof fn lemma_alike_device<S: Scalar>(first: Context<S>, other: Context<S>, device: Device)
    requires
        same_wiring(first, other),
        has_stamp(first.settings, device),
    ensures
        has_stamp(other.settings, device),
        match device_marks(first, device) {
            Ok(marks) => device_marks(other, device) matches Ok(more) && alike_lists(marks, more),
            Err(fault) => device_marks(other, device) == device_marks(first, device),
        },
        one_resistance(first.settings, other.settings) ==> device_marks(first, device)
            == device_marks(other, device),
{
    assert(first.settings.switches.contains_key(text::upper(device.name))
        <==> other.settings.switches.contains_key(text::upper(device.name)));
    if switch_state(first.settings, device) is None {
        if device.letter == 'K' {
            if let Ok(coefficient) = scalar_value::<S>(device) {
                lemma_same_couplings(
                    first,
                    other,
                    coefficient,
                    device.nodes,
                    0,
                    1,
                    Seq::empty(),
                );
            }
        }
        assert(device_marks(first, device) == device_marks(other, device));
        if let Ok(marks) = device_marks(first, device) {
            lemma_alike_itself(marks);
        }
    }
}

proof fn lemma_same_effect<S: Scalar>(
    first: Context<S>,
    other: Context<S>,
    list: Seq<Device>,
    i: int,
    before: Effect<S>,
    beside: Effect<S>,
)
    requires
        same_wiring(first, other),
        before.warnings == beside.warnings,
        alike_lists(before.marks, beside.marks),
    ensures
        match effect_from(first, list, i, before) {
            Ok(effect) => effect_from(other, list, i, beside) matches Ok(more) && effect.warnings
                == more.warnings && alike_lists(effect.marks, more.marks),
            Err(fault) => effect_from(other, list, i, beside) == Err::<Effect<S>, Fault>(fault),
        },
        one_resistance(first.settings, other.settings) && before == beside ==> effect_from(
            first,
            list,
            i,
            before,
        ) == effect_from(other, list, i, beside),
    decreases list.len() - i,
{
    if 0 <= i < list.len() {
        let device = list[i];
        assert(first.settings.switches.contains_key(text::upper(device.name))
            <==> other.settings.switches.contains_key(text::upper(device.name)));
        if has_stamp(first.settings, device) {
            lemma_alike_device(first, other, device);
            if let Ok(marks) = device_marks(first, device) {
                let more = device_marks(other, device)->Ok_0;
                lemma_alike_concat(before.marks, beside.marks, marks, more);
                lemma_same_effect(
                    first,
                    other,
                    list,
                    i + 1,
                    Effect { marks: before.marks + marks, warnings: before.warnings },
                    Effect { marks: beside.marks + more, warnings: beside.warnings },
                );
            }
        } else {
            lemma_same_effect(
                first,
                other,
                list,
                i + 1,
                Effect {
                    marks: before.marks,
                    warnings: before.warnings.push(unsupported_message(device)),
                },
                Effect {
                    marks: beside.marks,
                    warnings: beside.warnings.push(unsupported_message(device)),
                },
            );
        }
    }
}

/// Two systems that are the same but for the memoryless matrix.
pub open spec fn same_but_memoryless<S: Scalar>(first: Descriptor<S>, other: Descriptor<S>) -> bool {
    first == (Descriptor { a: first.a, ..other })
}

proof fn lemma_phases<S: Scalar>(cards: Seq<Card>, first: Settings<S>, other: Settings<S>)
    requires
        same_switches(first, other),
    ensures
        match system(cards, first) {
            Ok(d) => system(cards, other) matches Ok(e) && same_but_memoryless(d, e),
            Err(fault) => system(cards, other) == Err::<Descriptor<S>, Fault>(fault),
        },
        one_resistance(first, other) ==> system(cards, first) == system(cards, other),
{
    let list = devices(cards, cards.len());
    lemma_same_nodes(list, first, other, 0, Seq::empty());
    let node_list = nodes(list, first);
    if let Ok(branch_list) = branches(list, first) {
        lemma_same_initial(list, first, other, node_list, branch_list, 0, Seq::empty());
        if let Ok(sources) = inputs::<S>(list) {
            if let Ok(inductances) = inductances_from::<S>(list, 0, Seq::empty()) {
                let here = Context {
                    settings: first,
                    nodes: node_list,
                    branches: branch_list,
                    inputs: sources.names,
                    inductances,
                };
                let there = Context { settings: other, ..here };
                let none = Effect { marks: Seq::empty(), warnings: Seq::empty() };
                lemma_alike_itself(none.marks);
                lemma_same_effect(here, there, list, 0, none, none);
                if let Ok(effect) = effect_from(here, list, 0, none) {
                    let more = effect_from(there, list, 0, none)->Ok_0;
                    let order = unknown_names(node_list, branch_list).len();
                    let count = sources.names.len();
                    lemma_alike_marked(
                        zeros(order, order),
                        Place::K,
                        effect.marks,
                        more.marks,
                        effect.marks.len(),
                    );
                    lemma_alike_marked(
                        zeros(order, count),
                        Place::B,
                        effect.marks,
                        more.marks,
                        effect.marks.len(),
                    );
                }
            }
        }
    }
}

/// The phases of a converter, which differ in the states of its switches and in the switches'
/// resistances, have the same unknowns and the same inputs, so they can be averaged. All but the
/// memoryless matrix is the same; and where one of them has no descriptor system, the others
/// have none for the same reason.
pub proof fn law_phases_can_be_averaged<S: Scalar>(
    cards: Seq<Card>,
    first: Settings<S>,
    other: Settings<S>,
)
    requires
        same_switches(first, other),
    ensures
        match system(cards, first) {
            Ok(d) => system(cards, other) matches Ok(e) && same_but_memoryless(d, e) && mismatch(
                d,
                e,
            ) is None,
            Err(fault) => system(cards, other) == Err::<Descriptor<S>, Fault>(fault),
        },
{
    lemma_phases(cards, first, other);
}

/// Where a switch has the same resistance in both states, its state makes no difference.
pub proof fn law_equal_resistances_make_equal_phases<S: Scalar>(
    cards: Seq<Card>,
    first: Settings<S>,
    other: Settings<S>,
)
    requires
        same_switches(first, other),
        first.on == first.off,
        other.on == first.on,
        other.off == first.on,
    ensures
        system(cards, first) == system(cards, other),
{
    lemma_phases(cards, first, other);
}

// Devices without a stamp

/// A device is taken into account, or a warning says that it is not.
pub open spec fn accounted_for<S>(
    settings: Settings<S>,
    device: Device,
    warnings: Seq<Seq<char>>,
) -> bool {
    has_stamp(settings, device) || (settings.skip_unsupported && warnings.contains(
        unsupported_message(device),
    ))
}

proof fn lemma_contains_push<T>(list: Seq<T>, x: T, y: T)
    ensures
        list.contains(y) ==> list.push(x).contains(y),
        list.push(x).contains(x),
{
    assert(list.push(x)[list.len() as int] == x);
    if list.contains(y) {
        let i = choose|i: int| 0 <= i < list.len() && list[i] == y;
        assert(list.push(x)[i] == y);
    }
}

proof fn lemma_effect_accounts<S: Scalar>(
    context: Context<S>,
    list: Seq<Device>,
    i: int,
    before: Effect<S>,
    k: int,
    message: Seq<char>,
)
    requires
        0 <= i <= list.len(),
    ensures
        effect_from(context, list, i, before) matches Ok(after) ==> {
            &&& i <= k < list.len() ==> accounted_for(context.settings, list[k], after.warnings)
            &&& before.warnings.contains(message) ==> after.warnings.contains(message)
        },
    decreases list.len() - i,
{
    if i < list.len() {
        if has_stamp(context.settings, list[i]) {
            match device_marks(context, list[i]) {
                Ok(more) => {
                    lemma_effect_accounts(
                        context,
                        list,
                        i + 1,
                        Effect { marks: before.marks + more, warnings: before.warnings },
                        k,
                        message,
                    );
                },
                Err(_) => {},
            }
        } else if context.settings.skip_unsupported {
            let own = unsupported_message(list[i]);
            let next = Effect { marks: before.marks, warnings: before.warnings.push(own) };
            lemma_contains_push(before.warnings, own, message);
            lemma_effect_accounts(context, list, i + 1, next, k, message);
            lemma_effect_accounts(context, list, i + 1, next, k, own);
        }
    }
}

proof fn lemma_assigned_keeps<S: Scalar>(
    assignments: Seq<(Seq<char>, Seq<char>)>,
    j: int,
    defaults: Defaults<S>,
    message: Seq<char>,
)
    ensures
        defaults.warnings.contains(message) ==> assigned_from(
            assignments,
            j,
            defaults,
        ).warnings.contains(message),
    decreases assignments.len() - j,
{
    if 0 <= j < assignments.len() {
        let (name, raw) = assignments[j];
        match expr::scalar::<S>(raw) {
            Ok(value) => {
                lemma_assigned_keeps(
                    assignments,
                    j + 1,
                    Defaults {
                        values: defaults.values.insert(name, value),
                        warnings: defaults.warnings,
                    },
                    message,
                );
            },
            Err(_) => {
                let own = parameter_message(name);
                lemma_contains_push(defaults.warnings, own, message);
                lemma_assigned_keeps(
                    assignments,
                    j + 1,
                    Defaults { values: defaults.values, warnings: defaults.warnings.push(own) },
                    message,
                );
            },
        }
    }
}

proof fn lemma_defaults_keep<S: Scalar>(
    cards: Seq<Card>,
    i: int,
    defaults: Defaults<S>,
    message: Seq<char>,
)
    ensures
        defaults.warnings.contains(message) ==> defaults_from(
            cards,
            i,
            defaults,
        ).warnings.contains(message),
    decreases cards.len() - i,
{
    if 0 <= i < cards.len() {
        match cards[i] {
            Card::Param(assignments) => {
                lemma_assigned_keeps(assignments, 0, defaults, message);
                lemma_defaults_keep(
                    cards,
                    i + 1,
                    assigned_from(assignments, 0, defaults),
                    message,
                );
            },
            _ => {
                lemma_defaults_keep(cards, i + 1, defaults, message);
            },
        }
    }
}

/// No device is dropped in silence: in a circuit that has a descriptor system every device has
/// a stamp, or the options allow to skip it and the system carries a warning about it.
pub proof fn law_no_device_is_dropped<S: Scalar>(cards: Seq<Card>, settings: Settings<S>, k: int)
    requires
        0 <= k < devices(cards, cards.len()).len(),
    ensures
        system(cards, settings) matches Ok(d) ==> accounted_for(
            settings,
            devices(cards, cards.len())[k],
            d.warnings,
        ),
{
    let list = devices(cards, cards.len());
    let node_list = nodes(list, settings);
    if system(cards, settings) is Ok {
        let branch_list = branches(list, settings)->Ok_0;
        let sources = inputs::<S>(list)->Ok_0;
        let inductances = inductances_from::<S>(list, 0, Seq::empty())->Ok_0;
        let context = Context {
            settings,
            nodes: node_list,
            branches: branch_list,
            inputs: sources.names,
            inductances,
        };
        let none = Effect { marks: Seq::empty(), warnings: Seq::empty() };
        let message = unsupported_message(list[k]);
        lemma_effect_accounts(context, list, 0, none, k, message);
        let effect = effect_from(context, list, 0, none)->Ok_0;
        lemma_defaults_keep(
            cards,
            0,
            Defaults { values: Map::<Seq<char>, Expr<S>>::empty(), warnings: effect.warnings },
            message,
        );
        let defaults = defaults_from(
            cards,
            0,
            Defaults { values: Map::<Seq<char>, Expr<S>>::empty(), warnings: effect.warnings },
        );
        let ignored = initial::<S>(cards, settings, node_list, branch_list)->Ok_0.ignored;
        lemma_contains_more(defaults.warnings, ignored, message);
    }
}

proof fn lemma_contains_more<T>(list: Seq<T>, more: Seq<T>, x: T)
    ensures
        list.contains(x) ==> (list + more).contains(x),
{
    if list.contains(x) {
        let i = choose|i: int| 0 <= i < list.len() && list[i] == x;
        assert((list + more)[i] == x);
    }
}

} // verus!
