//! The mathematical model of a circuit: from the cards of a netlist to its unknowns, its
//! inputs, the stamps of its devices and its descriptor system.

use crate::expr;
use crate::expr::Expr;
use crate::netlist::{Card, Device};
use crate::scalar::Scalar;
use crate::system::{Initial, Descriptor};
use crate::text;
use crate::transient_source::{wave, Wave};
use vstd::prelude::*;

verus! {

/// State assigned to an idealized converter switch.
#[derive(Debug, Clone, Copy, PartialEq, Eq)]
pub enum SwitchState {
    /// The switch is a resistor of the on resistance.
    On,
    /// The switch is a resistor of the off resistance.
    Off,
}

/// The mathematical form of the build options.
#[verifier::ext_equal]
pub struct Settings<S> {
    /// A device without a stamp is skipped with a warning.
    pub skip_unsupported: bool,
    /// The switch states by upper-case element name.
    pub switches: Map<Seq<char>, SwitchState>,
    /// The resistance of a switch that is on.
    pub on: Expr<S>,
    /// The resistance of a switch that is off.
    pub off: Expr<S>,
}

/// The build options where none are chosen.
pub open spec fn default_settings<S: Scalar>() -> Settings<S> {
    Settings {
        skip_unsupported: false,
        switches: Map::empty(),
        on: Expr::Symbol("Ron"@),
        off: Expr::Symbol("Roff"@),
    }
}

/// Why a netlist has no descriptor system.
#[verifier::ext_equal]
pub enum Fault {
    Parse { message: Seq<char>, line_start: usize, line_end: usize },
    UnsupportedElement(Seq<char>),
    InvalidElement { name: Seq<char>, message: Seq<char> },
    InvalidElementField { line: usize, name: Seq<char>, message: Seq<char> },
    DuplicateElement(Seq<char>),
    UnknownControllingBranch(Seq<char>),
    UnknownInductor(Seq<char>),
}

/// The device cards among the first `n` cards.
pub open spec fn devices(cards: Seq<Card>, n: nat) -> Seq<Device>
    decreases n,
{
    if n == 0 {
        Seq::empty()
    } else {
        match cards[n - 1] {
            Card::Device(device) => devices(cards, (n - 1) as nat).push(device),
            _ => devices(cards, (n - 1) as nat),
        }
    }
}

/// The state of the switch that a device is taken as, if any.
pub open spec fn switch_state<S>(settings: Settings<S>, device: Device) -> Option<SwitchState> {
    if settings.switches.contains_key(text::upper(device.name)) {
        Some(settings.switches[text::upper(device.name)])
    } else {
        None
    }
}

/// A node that is the common reference.
pub open spec fn is_ground(name: Seq<char>) -> bool {
    name == "0"@ || text::eq_ignoring_case(name, "gnd"@)
}

/// The first of the names at or after `from` that matches up to letter case, or their number.
pub open spec fn position(names: Seq<Seq<char>>, name: Seq<char>, from: int) -> int
    decreases names.len() - from,
{
    if from < 0 || from >= names.len() {
        names.len() as int
    } else if text::eq_ignoring_case(names[from], name) {
        from
    } else {
        position(names, name, from + 1)
    }
}

// Trailing fields

/// A device letter with a linear stamp.
pub open spec fn is_stamped_letter(letter: char) -> bool {
    letter == 'R' || letter == 'C' || letter == 'L' || letter == 'K' || letter == 'V' || letter
        == 'I' || letter == 'E' || letter == 'F' || letter == 'G' || letter == 'H' || letter == 'D'
}

/// A device letter that accepts the field `ic`, the only one there is.
pub open spec fn accepts_ic(letter: char) -> bool {
    letter == 'C' || letter == 'L'
}

/// A device letter whose positional parameters are exactly one value.
pub open spec fn takes_exactly_one_value(letter: char) -> bool {
    letter == 'R' || letter == 'C' || letter == 'L'
}

/// A `key=value` token as its lower-case key and its value; `None` for a positional token.
pub open spec fn field(token: Seq<char>) -> Option<(Seq<char>, Seq<char>)> {
    let at = text::find(token, '=');
    if at >= token.len() || text::trim(token.take(at)).len() == 0 {
        None
    } else {
        Some((text::lower(text::trim(token.take(at))), token.skip(at + 1)))
    }
}

/// The number of positional tokens among the first `n`.
pub open spec fn positional(params: Seq<Seq<char>>, n: nat) -> nat
    decreases n,
{
    if n == 0 {
        0
    } else {
        positional(params, (n - 1) as nat) + (if field(params[n - 1]) is None {
            1nat
        } else {
            0nat
        })
    }
}

/// The message about one positional token too many.
pub open spec fn extra_message(letter: char, token: Seq<char>) -> Seq<char> {
    "unexpected extra parameter '"@ + token + "' (device "@ + seq![letter]
        + " takes exactly one value"@ + (if accepts_ic(letter) {
        ", plus optional ic"@
    } else {
        ""@
    }) + ")"@
}

/// The message about a field that the device does not have.
pub open spec fn field_message(letter: char, key: Seq<char>) -> Seq<char> {
    if accepts_ic(letter) {
        "unknown field '"@ + key + "' (device "@ + seq![letter] + " accepts only: ic)"@
    } else {
        "unknown field '"@ + key + "' (device "@ + seq![letter] + " accepts no key=value fields)"@
    }
}

/// What is wrong with the token in a position of a card, if anything.
pub open spec fn token_fault(device: Device, i: int) -> Option<Fault> {
    match field(device.params[i]) {
        None => if takes_exactly_one_value(device.letter) && positional(
            device.params,
            (i + 1) as nat,
        ) > 1 {
            Some(
                Fault::InvalidElementField {
                    line: device.line,
                    name: device.name,
                    message: extra_message(device.letter, device.params[i]),
                },
            )
        } else {
            None
        },
        Some((key, _)) => if accepts_ic(device.letter) && key == "ic"@ {
            None
        } else {
            Some(
                Fault::InvalidElementField {
                    line: device.line,
                    name: device.name,
                    message: field_message(device.letter, key),
                },
            )
        },
    }
}

/// The first fault among the tokens of a card from `i` on.
pub open spec fn card_fault(device: Device, i: int) -> Option<Fault>
    decreases device.params.len() - i,
{
    if i < 0 || i >= device.params.len() {
        None
    } else {
        match token_fault(device, i) {
            Some(fault) => Some(fault),
            None => card_fault(device, i + 1),
        }
    }
}

/// The first fault among the trailing fields of the devices from `i` on that are stamped.
pub open spec fn fields_fault<S>(list: Seq<Device>, settings: Settings<S>, i: int) -> Option<Fault>
    decreases list.len() - i,
{
    if i < 0 || i >= list.len() {
        None
    } else if switch_state(settings, list[i]) is Some || is_stamped_letter(list[i].letter) {
        match card_fault(list[i], 0) {
            Some(fault) => Some(fault),
            None => fields_fault(list, settings, i + 1),
        }
    } else {
        fields_fault(list, settings, i + 1)
    }
}

// Unknowns

/// The node list after one more node: ground and known nodes add nothing.
pub open spec fn with_node(nodes: Seq<Seq<char>>, name: Seq<char>) -> Seq<Seq<char>> {
    if is_ground(name) || position(nodes, name, 0) < nodes.len() {
        nodes
    } else {
        nodes.push(name)
    }
}

/// The node list after the names from `j` up to `count`.
pub open spec fn with_nodes(
    nodes: Seq<Seq<char>>,
    names: Seq<Seq<char>>,
    count: int,
    j: int,
) -> Seq<Seq<char>>
    decreases count - j,
{
    if j < 0 || j >= count {
        nodes
    } else {
        with_nodes(with_node(nodes, names[j]), names, count, j + 1)
    }
}

/// The number of nodes of a device that are electrical nodes of the circuit: a coupling has
/// none, a switch the first two.
pub open spec fn node_count<S>(settings: Settings<S>, device: Device) -> int {
    if device.letter == 'K' {
        0
    } else if switch_state(settings, device) is Some && device.nodes.len() > 2 {
        2
    } else {
        device.nodes.len() as int
    }
}

/// The node list after the devices from `i` on.
pub open spec fn nodes_from<S>(
    list: Seq<Device>,
    settings: Settings<S>,
    i: int,
    nodes: Seq<Seq<char>>,
) -> Seq<Seq<char>>
    decreases list.len() - i,
{
    if i < 0 || i >= list.len() {
        nodes
    } else {
        nodes_from(
            list,
            settings,
            i + 1,
            with_nodes(nodes, list[i].nodes, node_count(settings, list[i]), 0),
        )
    }
}

/// The nodes of a circuit other than ground, in the order in which they first occur.
pub open spec fn nodes<S>(list: Seq<Device>, settings: Settings<S>) -> Seq<Seq<char>> {
    nodes_from(list, settings, 0, Seq::empty())
}

/// A device whose current is an unknown of its own.
pub open spec fn is_branch_device<S>(settings: Settings<S>, device: Device) -> bool {
    switch_state(settings, device) is None && (device.letter == 'V' || device.letter == 'L'
        || device.letter == 'E' || device.letter == 'H')
}

/// The branch list after the devices from `i` on; a name may occur only once.
pub open spec fn branches_from<S>(
    list: Seq<Device>,
    settings: Settings<S>,
    i: int,
    branches: Seq<Seq<char>>,
) -> Result<Seq<Seq<char>>, Fault>
    decreases list.len() - i,
{
    if i < 0 || i >= list.len() {
        Ok(branches)
    } else if is_branch_device(settings, list[i]) {
        if position(branches, list[i].name, 0) < branches.len() {
            Err(Fault::DuplicateElement(list[i].name))
        } else {
            branches_from(list, settings, i + 1, branches.push(list[i].name))
        }
    } else {
        branches_from(list, settings, i + 1, branches)
    }
}

/// The branches of a circuit, in the order of their devices.
pub open spec fn branches<S>(list: Seq<Device>, settings: Settings<S>) -> Result<
    Seq<Seq<char>>,
    Fault,
> {
    branches_from(list, settings, 0, Seq::empty())
}

/// The name of a node voltage.
pub open spec fn voltage_name(node: Seq<char>) -> Seq<char> {
    "V("@ + node + ")"@
}

/// The name of a branch current.
pub open spec fn current_name(branch: Seq<char>) -> Seq<char> {
    "I("@ + branch + ")"@
}

/// The unknowns: the node voltages, then the branch currents.
pub open spec fn unknown_names(node_list: Seq<Seq<char>>, branch_list: Seq<Seq<char>>) -> Seq<
    Seq<char>,
> {
    Seq::new(node_list.len(), |i: int| voltage_name(node_list[i])) + Seq::new(
        branch_list.len(),
        |i: int| current_name(branch_list[i]),
    )
}

// Inputs

/// The independent sources: their names, values and transient functions.
#[verifier::ext_equal]
pub struct Inputs<S> {
    pub names: Seq<Seq<char>>,
    pub values: Seq<Expr<S>>,
    pub waves: Map<Seq<char>, Wave<S>>,
}

/// The token that holds the value of a source: the one after `DC`, else the first.
pub open spec fn source_token(params: Seq<Seq<char>>) -> Option<Seq<char>> {
    let dc = position(params, "dc"@, 0);
    if dc + 1 < params.len() {
        Some(params[dc + 1])
    } else if params.len() > 0 {
        Some(params[0])
    } else {
        None
    }
}

/// A scalar parameter of a device.
pub open spec fn scalar_of<S: Scalar>(device: Device, token: Seq<char>) -> Result<Expr<S>, Fault> {
    match expr::scalar::<S>(token) {
        Ok(e) => Ok(e),
        Err(message) => Err(Fault::InvalidElement { name: device.name, message }),
    }
}

/// The value of a source without a transient function.
pub open spec fn source_value<S: Scalar>(device: Device) -> Result<Expr<S>, Fault> {
    match source_token(device.params) {
        Some(token) => scalar_of(device, token),
        None => Err(
            Fault::InvalidElement { name: device.name, message: "has no source value"@ },
        ),
    }
}

/// The value of a device: its first parameter.
pub open spec fn scalar_value<S: Scalar>(device: Device) -> Result<Expr<S>, Fault> {
    if device.params.len() == 0 {
        Err(Fault::InvalidElement { name: device.name, message: "has no scalar value"@ })
    } else {
        scalar_of(device, device.params[0])
    }
}

/// The inputs after one more source.
pub open spec fn with_input<S: Scalar>(inputs: Inputs<S>, device: Device) -> Result<
    Inputs<S>,
    Fault,
> {
    if position(inputs.names, device.name, 0) < inputs.names.len() {
        Err(Fault::DuplicateElement(device.name))
    } else if device.letter == 'D' {
        Ok(
            Inputs {
                names: inputs.names.push(device.name),
                values: inputs.values.push(Expr::Symbol(device.name + "_Ioff"@)),
                waves: inputs.waves,
            },
        )
    } else {
        match wave::<S>(device.params) {
            Some(w) => Ok(
                Inputs {
                    names: inputs.names.push(device.name),
                    values: inputs.values.push(Expr::Symbol(device.name)),
                    waves: inputs.waves.insert(device.name, w),
                },
            ),
            None => match source_value::<S>(device) {
                Ok(value) => Ok(
                    Inputs {
                        names: inputs.names.push(device.name),
                        values: inputs.values.push(value),
                        waves: inputs.waves,
                    },
                ),
                Err(fault) => Err(fault),
            },
        }
    }
}

/// A device that is an independent source: a voltage or current source, or the Norton source
/// of a diode.
pub open spec fn is_input(letter: char) -> bool {
    letter == 'V' || letter == 'I' || letter == 'D'
}

/// The inputs after the devices from `i` on.
pub open spec fn inputs_from<S: Scalar>(list: Seq<Device>, i: int, inputs: Inputs<S>) -> Result<
    Inputs<S>,
    Fault,
>
    decreases list.len() - i,
{
    if i < 0 || i >= list.len() {
        Ok(inputs)
    } else if is_input(list[i].letter) {
        match with_input(inputs, list[i]) {
            Ok(more) => inputs_from(list, i + 1, more),
            Err(fault) => Err(fault),
        }
    } else {
        inputs_from(list, i + 1, inputs)
    }
}

/// The inputs of a circuit, in the order of their devices.
pub open spec fn inputs<S: Scalar>(list: Seq<Device>) -> Result<Inputs<S>, Fault> {
    inputs_from(
        list,
        0,
        Inputs { names: Seq::empty(), values: Seq::empty(), waves: Map::empty() },
    )
}

// Indices

/// The index of a node's voltage among the unknowns; `None` for ground and for a name that is
/// no node of the circuit.
pub open spec fn node_index(node_list: Seq<Seq<char>>, name: Seq<char>) -> Option<int> {
    if is_ground(name) || position(node_list, name, 0) >= node_list.len() {
        None
    } else {
        Some(position(node_list, name, 0))
    }
}

/// The index of a branch current among the unknowns.
pub open spec fn branch_index(
    node_list: Seq<Seq<char>>,
    branch_list: Seq<Seq<char>>,
    name: Seq<char>,
) -> Result<int, Fault> {
    if position(branch_list, name, 0) < branch_list.len() {
        Ok(node_list.len() + position(branch_list, name, 0))
    } else {
        Err(Fault::UnknownControllingBranch(name))
    }
}

/// Two terminals are there.
pub open spec fn two_nodes_fault(device: Device) -> Option<Fault> {
    if device.nodes.len() >= 2 {
        None
    } else {
        Some(Fault::InvalidElement { name: device.name, message: "requires two terminals"@ })
    }
}

/// Exactly four nodes are there.
pub open spec fn four_nodes_fault(device: Device) -> Option<Fault> {
    if device.nodes.len() == 4 {
        None
    } else {
        Some(
            Fault::InvalidElement {
                name: device.name,
                message: "requires the classic four-node linear form"@,
            },
        )
    }
}

// Initial conditions

/// The value of the first `ic` field from token `i` on.
pub open spec fn ic_field(params: Seq<Seq<char>>, i: int) -> Option<Seq<char>>
    decreases params.len() - i,
{
    if i < 0 || i >= params.len() {
        None
    } else {
        match field(params[i]) {
            Some((key, value)) => if key == "ic"@ {
                Some(value)
            } else {
                ic_field(params, i + 1)
            },
            None => ic_field(params, i + 1),
        }
    }
}

/// An index as it is stored.
pub open spec fn stored(index: Option<int>) -> Option<usize> {
    match index {
        Some(i) => Some(i as usize),
        None => None,
    }
}

/// The initial condition that a capacitor or inductor declares, if any.
pub open spec fn initial_of<S: Scalar>(
    device: Device,
    node_list: Seq<Seq<char>>,
    branch_list: Seq<Seq<char>>,
) -> Result<Option<Initial<S>>, Fault> {
    match ic_field(device.params, 0) {
        None => Ok(None),
        Some(raw) => match expr::scalar::<S>(raw) {
            Err(message) => Err(
                Fault::InvalidElementField {
                    line: device.line,
                    name: device.name,
                    message: "field 'ic' is not a value: "@ + message,
                },
            ),
            Ok(value) => if device.letter == 'C' {
                match two_nodes_fault(device) {
                    Some(fault) => Err(fault),
                    None => Ok(
                        Some(
                            Initial::Voltage {
                                element: device.name,
                                positive: stored(node_index(node_list, device.nodes[0])),
                                negative: stored(node_index(node_list, device.nodes[1])),
                                value,
                            },
                        ),
                    ),
                }
            } else {
                match branch_index(node_list, branch_list, device.name) {
                    Ok(branch) => Ok(
                        Some(
                            Initial::Current {
                                element: device.name,
                                branch: branch as usize,
                                value,
                            },
                        ),
                    ),
                    Err(fault) => Err(fault),
                }
            },
        },
    }
}

/// The initial conditions after the devices from `i` on.
pub open spec fn initial_from<S: Scalar>(
    list: Seq<Device>,
    settings: Settings<S>,
    node_list: Seq<Seq<char>>,
    branch_list: Seq<Seq<char>>,
    i: int,
    found: Seq<Initial<S>>,
) -> Result<Seq<Initial<S>>, Fault>
    decreases list.len() - i,
{
    if i < 0 || i >= list.len() {
        Ok(found)
    } else if switch_state(settings, list[i]) is None && accepts_ic(list[i].letter) {
        match initial_of::<S>(list[i], node_list, branch_list) {
            Ok(Some(initial)) => initial_from(
                list,
                settings,
                node_list,
                branch_list,
                i + 1,
                found.push(initial),
            ),
            Ok(None) => initial_from(list, settings, node_list, branch_list, i + 1, found),
            Err(fault) => Err(fault),
        }
    } else {
        initial_from(list, settings, node_list, branch_list, i + 1, found)
    }
}

/// A quantity that an `.ic` directive fixes.
pub enum Fixed {
    Voltage(Seq<char>, Option<Seq<char>>),
    Current(Seq<char>),
}

/// The quantity a text names: `V(node)`, `V(node,node)` or `I(inductor)`.
pub open spec fn fixed(key: Seq<char>) -> Option<Fixed> {
    let t = text::trim(key);
    if t.len() >= 4 && t[1] == '(' && t.last() == ')' {
        let inner = t.subrange(2, t.len() - 1);
        let names = text::split(inner, ',');
        if t[0] == 'V' || t[0] == 'v' {
            if names.len() == 1 {
                Some(Fixed::Voltage(text::trim(names[0]), None))
            } else if names.len() == 2 {
                Some(Fixed::Voltage(text::trim(names[0]), Some(text::trim(names[1]))))
            } else {
                None
            }
        } else if t[0] == 'I' || t[0] == 'i' {
            Some(Fixed::Current(text::trim(inner)))
        } else {
            None
        }
    } else {
        None
    }
}

/// The warning about an assignment of an `.ic` directive that is ignored.
pub open spec fn directive_warning(line: usize, message: Seq<char>) -> Seq<char> {
    "line "@ + text::decimal(line as nat) + ": .IC "@ + message + " (ignored)"@
}

/// The unknown a node of an `.ic` directive stands for, none for ground. It has to be a node
/// of the circuit.
pub open spec fn fixed_node(node_list: Seq<Seq<char>>, name: Seq<char>) -> Result<
    Option<usize>,
    Seq<char>,
> {
    if is_ground(name) {
        Ok(None)
    } else if position(node_list, name, 0) < node_list.len() {
        Ok(Some(position(node_list, name, 0) as usize))
    } else {
        Err("names unknown node '"@ + name + "'"@)
    }
}

/// One of the devices from `i` on is an inductor with the name, letter case aside.
pub open spec fn inductor_named(list: Seq<Device>, name: Seq<char>, i: int) -> bool
    decreases list.len() - i,
{
    if i < 0 || i >= list.len() {
        false
    } else {
        (list[i].letter == 'L' && text::eq_ignoring_case(list[i].name, name)) || inductor_named(
            list,
            name,
            i + 1,
        )
    }
}

/// The initial condition of an `.ic` directive that fixes a quantity, or why there is none.
pub open spec fn directive_of<S: Scalar>(
    list: Seq<Device>,
    node_list: Seq<Seq<char>>,
    branch_list: Seq<Seq<char>>,
    key: Seq<char>,
    raw: Seq<char>,
) -> Result<Initial<S>, Seq<char>> {
    match expr::scalar::<S>(raw) {
        Err(message) => Err("field '"@ + key + "' is not a value: "@ + message),
        Ok(value) => match fixed(key) {
            None => Err(
                "cannot fix '"@ + key + "' (only V(node), V(node,node) and I(inductor))"@,
            ),
            Some(Fixed::Voltage(first, None)) => match fixed_node(node_list, first) {
                Err(message) => Err(message),
                Ok(positive) => Ok(
                    Initial::Voltage {
                        element: ".IC V("@ + first + ")"@,
                        positive,
                        negative: None,
                        value,
                    },
                ),
            },
            Some(Fixed::Voltage(first, Some(second))) => match fixed_node(node_list, first) {
                Err(message) => Err(message),
                Ok(positive) => match fixed_node(node_list, second) {
                    Err(message) => Err(message),
                    Ok(negative) => Ok(
                        Initial::Voltage {
                            element: ".IC V("@ + first + ","@ + second + ")"@,
                            positive,
                            negative,
                            value,
                        },
                    ),
                },
            },
            Some(Fixed::Current(name)) => match branch_index(node_list, branch_list, name) {
                Ok(branch) if inductor_named(list, name, 0) => Ok(
                    Initial::Current {
                        element: ".IC I("@ + name + ")"@,
                        branch: branch as usize,
                        value,
                    },
                ),
                _ => Err("names no inductor '"@ + name + "'"@),
            },
        },
    }
}

/// The initial conditions of a circuit, and the warnings about `.ic` assignments that are
/// ignored.
#[verifier::ext_equal]
pub struct Conditions<S> {
    pub found: Seq<Initial<S>>,
    pub ignored: Seq<Seq<char>>,
}

/// The conditions after the assignments from `j` on of one `.ic` directive.
pub open spec fn assignments_from<S: Scalar>(
    list: Seq<Device>,
    node_list: Seq<Seq<char>>,
    branch_list: Seq<Seq<char>>,
    line: usize,
    pairs: Seq<(Seq<char>, Seq<char>)>,
    j: int,
    before: Conditions<S>,
) -> Conditions<S>
    decreases pairs.len() - j,
{
    if j < 0 || j >= pairs.len() {
        before
    } else {
        assignments_from(
            list,
            node_list,
            branch_list,
            line,
            pairs,
            j + 1,
            match directive_of::<S>(list, node_list, branch_list, pairs[j].0, pairs[j].1) {
                Err(message) => Conditions {
                    found: before.found,
                    ignored: before.ignored.push(directive_warning(line, message)),
                },
                Ok(initial) => Conditions {
                    found: before.found.push(initial),
                    ignored: before.ignored,
                },
            },
        )
    }
}

/// The conditions after the `.ic` directives from card `i` on.
pub open spec fn directives_from<S: Scalar>(
    cards: Seq<Card>,
    list: Seq<Device>,
    node_list: Seq<Seq<char>>,
    branch_list: Seq<Seq<char>>,
    i: int,
    before: Conditions<S>,
) -> Conditions<S>
    decreases cards.len() - i,
{
    if i < 0 || i >= cards.len() {
        before
    } else {
        directives_from(
            cards,
            list,
            node_list,
            branch_list,
            i + 1,
            match cards[i] {
                Card::Ic(pairs, line, _) => assignments_from(
                    list,
                    node_list,
                    branch_list,
                    line,
                    pairs,
                    0,
                    before,
                ),
                _ => before,
            },
        )
    }
}

/// The initial conditions of a circuit: those on devices, then those of `.ic` directives.
pub open spec fn initial<S: Scalar>(
    cards: Seq<Card>,
    settings: Settings<S>,
    node_list: Seq<Seq<char>>,
    branch_list: Seq<Seq<char>>,
) -> Result<Conditions<S>, Fault> {
    let list = devices(cards, cards.len());
    match initial_from(list, settings, node_list, branch_list, 0, Seq::empty()) {
        Err(fault) => Err(fault),
        Ok(found) => Ok(
            directives_from(
                cards,
                list,
                node_list,
                branch_list,
                0,
                Conditions { found, ignored: Seq::empty() },
            ),
        ),
    }
}

// Stamps

/// The matrix a stamp belongs to.
#[derive(Debug, Clone, Copy, PartialEq, Eq, Structural)]
pub enum Place {
    /// The memoryless matrix.
    A,
    /// The storage matrix.
    K,
    /// The input matrix.
    B,
}

/// One contribution of a device to a matrix; one outside of the matrix, in the row or column
/// of ground, counts for nothing.
#[verifier::ext_equal]
pub struct Mark<S> {
    pub place: Place,
    pub row: Option<int>,
    pub col: Option<int>,
    pub value: Expr<S>,
}

/// What the stamps of a device refer to.
#[verifier::ext_equal]
pub struct Context<S> {
    pub settings: Settings<S>,
    pub nodes: Seq<Seq<char>>,
    pub branches: Seq<Seq<char>>,
    pub inputs: Seq<Seq<char>>,
    pub inductances: Seq<(Seq<char>, Expr<S>)>,
}

/// A mark.
pub open spec fn mark<S>(place: Place, row: Option<int>, col: Option<int>, value: Expr<S>) -> Mark<
    S,
> {
    Mark { place, row, col, value }
}

/// The four marks of an admittance between two nodes.
pub open spec fn admittance<S: Scalar>(
    place: Place,
    p: Option<int>,
    n: Option<int>,
    y: Expr<S>,
) -> Seq<Mark<S>> {
    seq![
        mark(place, p, p, y),
        mark(place, n, n, y),
        mark(place, p, n, expr::negation(y)),
        mark(place, n, p, expr::negation(y)),
    ]
}

/// The four marks that tie a branch current to the nodes it flows between.
pub open spec fn incidence<S: Scalar>(p: Option<int>, n: Option<int>, branch: int) -> Seq<
    Mark<S>,
> {
    seq![
        mark(Place::A, p, Some(branch), expr::one()),
        mark(Place::A, n, Some(branch), expr::minus_one()),
        mark(Place::A, Some(branch), p, expr::one()),
        mark(Place::A, Some(branch), n, expr::minus_one()),
    ]
}

/// The two marks of a current source.
pub open spec fn current_source<S: Scalar>(p: Option<int>, n: Option<int>, input: int) -> Seq<
    Mark<S>,
> {
    seq![
        mark(Place::B, p, Some(input), expr::minus_one()),
        mark(Place::B, n, Some(input), expr::one()),
    ]
}

/// The index of one of a device's nodes.
pub open spec fn terminal<S>(context: Context<S>, device: Device, i: int) -> Option<int> {
    node_index(context.nodes, device.nodes[i])
}

/// The marks that tie a device's own branch to its first two nodes.
pub open spec fn own_branch<S: Scalar>(context: Context<S>, device: Device) -> Result<
    (int, Seq<Mark<S>>),
    Fault,
> {
    match two_nodes_fault(device) {
        Some(fault) => Err(fault),
        None => match branch_index(context.nodes, context.branches, device.name) {
            Ok(branch) => Ok(
                (
                    branch,
                    incidence(
                        terminal(context, device, 0),
                        terminal(context, device, 1),
                        branch,
                    ),
                ),
            ),
            Err(fault) => Err(fault),
        },
    }
}

/// The controlling source and the gain of a current-controlled source.
pub open spec fn control_and_gain<S: Scalar>(device: Device) -> Result<(Seq<char>, Expr<S>), Fault> {
    if device.params.len() < 2 {
        Err(
            Fault::InvalidElement {
                name: device.name,
                message: "requires a controlling source and gain"@,
            },
        )
    } else {
        match scalar_of(device, device.params[1]) {
            Ok(gain) => Ok((device.params[0], gain)),
            Err(fault) => Err(fault),
        }
    }
}

/// The branch that controls a current-controlled source, and the gain.
pub open spec fn controlled_by<S: Scalar>(context: Context<S>, device: Device) -> Result<
    (int, Expr<S>),
    Fault,
> {
    match control_and_gain::<S>(device) {
        Ok((control, gain)) => match branch_index(context.nodes, context.branches, control) {
            Ok(branch) => Ok((branch, gain)),
            Err(fault) => Err(fault),
        },
        Err(fault) => Err(fault),
    }
}

/// The inductance of a name: the last of the first `n` entries that matches it.
pub open spec fn inductance<S>(
    list: Seq<(Seq<char>, Expr<S>)>,
    name: Seq<char>,
    n: nat,
) -> Option<Expr<S>>
    decreases n,
{
    if n == 0 || n > list.len() {
        None
    } else if text::eq_ignoring_case(list[n - 1].0, name) {
        Some(list[n - 1].1)
    } else {
        inductance(list, name, (n - 1) as nat)
    }
}

/// The inductances after the devices from `i` on.
pub open spec fn inductances_from<S: Scalar>(
    list: Seq<Device>,
    i: int,
    found: Seq<(Seq<char>, Expr<S>)>,
) -> Result<Seq<(Seq<char>, Expr<S>)>, Fault>
    decreases list.len() - i,
{
    if i < 0 || i >= list.len() {
        Ok(found)
    } else if list[i].letter == 'L' {
        match scalar_value::<S>(list[i]) {
            Ok(value) => inductances_from(list, i + 1, found.push((list[i].name, value))),
            Err(fault) => Err(fault),
        }
    } else {
        inductances_from(list, i + 1, found)
    }
}

/// The two marks that couple a pair of inductors with the mutual inductance
/// `k * sqrt(L1 * L2)`.
pub open spec fn coupling<S: Scalar>(
    context: Context<S>,
    coefficient: Expr<S>,
    first: Seq<char>,
    second: Seq<char>,
) -> Result<Seq<Mark<S>>, Fault> {
    match inductance(context.inductances, first, context.inductances.len()) {
        None => Err(Fault::UnknownInductor(first)),
        Some(l1) => match inductance(context.inductances, second, context.inductances.len()) {
            None => Err(Fault::UnknownInductor(second)),
            Some(l2) => match branch_index(context.nodes, context.branches, first) {
                Err(fault) => Err(fault),
                Ok(b1) => match branch_index(context.nodes, context.branches, second) {
                    Err(fault) => Err(fault),
                    Ok(b2) => {
                        let mutual = expr::product(coefficient, expr::sqrt(expr::product(l1, l2)));
                        Ok(
                            seq![
                                mark(Place::K, Some(b1), Some(b2), expr::negation(mutual)),
                                mark(Place::K, Some(b2), Some(b1), expr::negation(mutual)),
                            ],
                        )
                    },
                },
            },
        },
    }
}

/// The marks of all pairs of coupled inductors from the pair `(i, j)` on, after `marks`.
pub open spec fn couplings_from<S: Scalar>(
    context: Context<S>,
    coefficient: Expr<S>,
    names: Seq<Seq<char>>,
    i: int,
    j: int,
    marks: Seq<Mark<S>>,
) -> Result<Seq<Mark<S>>, Fault>
    decreases names.len() - i, names.len() - j,
{
    if i < 0 || i >= names.len() {
        Ok(marks)
    } else if j >= names.len() {
        couplings_from(context, coefficient, names, i + 1, i + 2, marks)
    } else {
        match coupling(context, coefficient, names[i], names[j]) {
            Ok(more) => couplings_from(context, coefficient, names, i, j + 1, marks + more),
            Err(fault) => Err(fault),
        }
    }
}

/// The column of a source among the inputs.
pub open spec fn input_index<S>(context: Context<S>, device: Device) -> int {
    position(context.inputs, device.name, 0)
}

/// The marks of a voltage source, or of any other device with a branch of its own and nothing
/// else in `A`.
pub open spec fn voltage_source_marks<S: Scalar>(context: Context<S>, device: Device) -> Result<
    Seq<Mark<S>>,
    Fault,
> {
    match own_branch(context, device) {
        Ok((branch, marks)) => Ok(
            marks.push(
                mark(Place::B, Some(branch), Some(input_index(context, device)), expr::one()),
            ),
        ),
        Err(fault) => Err(fault),
    }
}

/// The marks of an admittance of a given value across the first two nodes of a device.
pub open spec fn admittance_marks<S: Scalar>(
    context: Context<S>,
    device: Device,
    place: Place,
    y: Expr<S>,
) -> Result<Seq<Mark<S>>, Fault> {
    match two_nodes_fault(device) {
        Some(fault) => Err(fault),
        None => Ok(
            admittance(place, terminal(context, device, 0), terminal(context, device, 1), y),
        ),
    }
}

/// The marks of a current source across the first two nodes of a device.
pub open spec fn current_source_marks<S: Scalar>(context: Context<S>, device: Device) -> Result<
    Seq<Mark<S>>,
    Fault,
> {
    match two_nodes_fault(device) {
        Some(fault) => Err(fault),
        None => Ok(
            current_source(
                terminal(context, device, 0),
                terminal(context, device, 1),
                input_index(context, device),
            ),
        ),
    }
}

/// The marks of an inductor.
pub open spec fn inductor_marks<S: Scalar>(context: Context<S>, device: Device) -> Result<
    Seq<Mark<S>>,
    Fault,
> {
    match own_branch(context, device) {
        Ok((branch, marks)) => match scalar_value(device) {
            Ok(value) => Ok(
                marks.push(mark(Place::K, Some(branch), Some(branch), expr::negation(value))),
            ),
            Err(fault) => Err(fault),
        },
        Err(fault) => Err(fault),
    }
}

/// The marks of a voltage-controlled current source.
pub open spec fn vccs_marks<S: Scalar>(context: Context<S>, device: Device) -> Result<
    Seq<Mark<S>>,
    Fault,
> {
    match four_nodes_fault(device) {
        Some(fault) => Err(fault),
        None => match scalar_value::<S>(device) {
            Ok(gain) => Ok(
                seq![
                    mark(
                        Place::A,
                        terminal(context, device, 0),
                        terminal(context, device, 2),
                        gain,
                    ),
                    mark(
                        Place::A,
                        terminal(context, device, 0),
                        terminal(context, device, 3),
                        expr::negation(gain),
                    ),
                    mark(
                        Place::A,
                        terminal(context, device, 1),
                        terminal(context, device, 2),
                        expr::negation(gain),
                    ),
                    mark(
                        Place::A,
                        terminal(context, device, 1),
                        terminal(context, device, 3),
                        gain,
                    ),
                ],
            ),
            Err(fault) => Err(fault),
        },
    }
}

/// The marks of a voltage-controlled voltage source.
pub open spec fn vcvs_marks<S: Scalar>(context: Context<S>, device: Device) -> Result<
    Seq<Mark<S>>,
    Fault,
> {
    match four_nodes_fault(device) {
        Some(fault) => Err(fault),
        None => match own_branch(context, device) {
            Ok((branch, marks)) => match scalar_value::<S>(device) {
                Ok(gain) => Ok(
                    marks.push(
                        mark(
                            Place::A,
                            Some(branch),
                            terminal(context, device, 2),
                            expr::negation(gain),
                        ),
                    ).push(mark(Place::A, Some(branch), terminal(context, device, 3), gain)),
                ),
                Err(fault) => Err(fault),
            },
            Err(fault) => Err(fault),
        },
    }
}

/// The marks of a current-controlled current source.
pub open spec fn cccs_marks<S: Scalar>(context: Context<S>, device: Device) -> Result<
    Seq<Mark<S>>,
    Fault,
> {
    match two_nodes_fault(device) {
        Some(fault) => Err(fault),
        None => match controlled_by(context, device) {
            Ok((control, gain)) => Ok(
                seq![
                    mark(Place::A, terminal(context, device, 0), Some(control), gain),
                    mark(
                        Place::A,
                        terminal(context, device, 1),
                        Some(control),
                        expr::negation(gain),
                    ),
                ],
            ),
            Err(fault) => Err(fault),
        },
    }
}

/// The marks of a current-controlled voltage source.
pub open spec fn ccvs_marks<S: Scalar>(context: Context<S>, device: Device) -> Result<
    Seq<Mark<S>>,
    Fault,
> {
    match own_branch(context, device) {
        Ok((branch, marks)) => match controlled_by(context, device) {
            Ok((control, gain)) => Ok(
                marks.push(mark(Place::A, Some(branch), Some(control), expr::negation(gain))),
            ),
            Err(fault) => Err(fault),
        },
        Err(fault) => Err(fault),
    }
}

/// The marks of a coupling of inductors.
pub open spec fn mutual_marks<S: Scalar>(context: Context<S>, device: Device) -> Result<
    Seq<Mark<S>>,
    Fault,
> {
    if device.nodes.len() < 2 {
        Err(
            Fault::InvalidElement {
                name: device.name,
                message: "requires at least two inductor names"@,
            },
        )
    } else {
        match scalar_value::<S>(device) {
            Ok(coefficient) => couplings_from(
                context,
                coefficient,
                device.nodes,
                0,
                1,
                Seq::empty(),
            ),
            Err(fault) => Err(fault),
        }
    }
}

/// The marks of a diode: a conductance and a Norton current source, both per-instance symbols.
pub open spec fn diode_marks<S: Scalar>(context: Context<S>, device: Device) -> Result<
    Seq<Mark<S>>,
    Fault,
> {
    match admittance_marks(context, device, Place::A, Expr::Symbol(device.name + "_G"@)) {
        Ok(marks) => match current_source_marks(context, device) {
            Ok(more) => Ok(marks + more),
            Err(fault) => Err(fault),
        },
        Err(fault) => Err(fault),
    }
}

/// The resistance of a switch.
pub open spec fn switch_resistance<S>(settings: Settings<S>, state: SwitchState) -> Expr<S> {
    match state {
        SwitchState::On => settings.on,
        SwitchState::Off => settings.off,
    }
}

/// The marks of a device with a stamp.
pub open spec fn device_marks<S: Scalar>(context: Context<S>, device: Device) -> Result<
    Seq<Mark<S>>,
    Fault,
> {
    match switch_state(context.settings, device) {
        Some(state) => admittance_marks(
            context,
            device,
            Place::A,
            expr::reciprocal(switch_resistance(context.settings, state)),
        ),
        None => if device.letter == 'R' {
            match scalar_value(device) {
                Ok(value) => admittance_marks(context, device, Place::A, expr::reciprocal(value)),
                Err(fault) => Err(fault),
            }
        } else if device.letter == 'C' {
            match scalar_value(device) {
                Ok(value) => admittance_marks(context, device, Place::K, value),
                Err(fault) => Err(fault),
            }
        } else if device.letter == 'L' {
            inductor_marks(context, device)
        } else if device.letter == 'V' {
            voltage_source_marks(context, device)
        } else if device.letter == 'I' {
            current_source_marks(context, device)
        } else if device.letter == 'G' {
            vccs_marks(context, device)
        } else if device.letter == 'E' {
            vcvs_marks(context, device)
        } else if device.letter == 'F' {
            cccs_marks(context, device)
        } else if device.letter == 'H' {
            ccvs_marks(context, device)
        } else if device.letter == 'K' {
            mutual_marks(context, device)
        } else {
            diode_marks(context, device)
        },
    }
}

/// A device that has a stamp.
pub open spec fn has_stamp<S>(settings: Settings<S>, device: Device) -> bool {
    switch_state(settings, device) is Some || is_stamped_letter(device.letter)
}

/// The message about a device that has no stamp.
pub open spec fn unsupported_message(device: Device) -> Seq<char> {
    "element '"@ + device.name + "' (device "@ + seq![device.letter] + ") has no linear MNA stamp"@
}

/// The marks and warnings of a circuit.
#[verifier::ext_equal]
pub struct Effect<S> {
    pub marks: Seq<Mark<S>>,
    pub warnings: Seq<Seq<char>>,
}

/// The marks and warnings after the devices from `i` on.
pub open spec fn effect_from<S: Scalar>(
    context: Context<S>,
    list: Seq<Device>,
    i: int,
    effect: Effect<S>,
) -> Result<Effect<S>, Fault>
    decreases list.len() - i,
{
    if i < 0 || i >= list.len() {
        Ok(effect)
    } else if has_stamp(context.settings, list[i]) {
        match device_marks(context, list[i]) {
            Ok(more) => effect_from(
                context,
                list,
                i + 1,
                Effect { marks: effect.marks + more, warnings: effect.warnings },
            ),
            Err(fault) => Err(fault),
        }
    } else if context.settings.skip_unsupported {
        effect_from(
            context,
            list,
            i + 1,
            Effect {
                marks: effect.marks,
                warnings: effect.warnings.push(unsupported_message(list[i])),
            },
        )
    } else {
        Err(Fault::UnsupportedElement(unsupported_message(list[i])))
    }
}

// Matrices

/// A matrix of zeros.
pub open spec fn zeros<S: Scalar>(rows: nat, cols: nat) -> Seq<Seq<Expr<S>>> {
    Seq::new(rows, |i: int| Seq::new(cols, |j: int| expr::zero()))
}

/// A matrix with one value added in a position.
pub open spec fn added<S: Scalar>(
    m: Seq<Seq<Expr<S>>>,
    row: int,
    col: int,
    value: Expr<S>,
) -> Seq<Seq<Expr<S>>> {
    m.update(row, m[row].update(col, expr::sum(m[row][col], value)))
}

/// A matrix after the first `n` marks that belong to it.
pub open spec fn marked<S: Scalar>(
    start: Seq<Seq<Expr<S>>>,
    place: Place,
    marks: Seq<Mark<S>>,
    n: nat,
) -> Seq<Seq<Expr<S>>>
    decreases n,
{
    if n == 0 {
        start
    } else {
        let before = marked(start, place, marks, (n - 1) as nat);
        let m = marks[n - 1];
        match (m.row, m.col) {
            (Some(row), Some(col)) => if m.place == place {
                added(before, row, col, m.value)
            } else {
                before
            },
            _ => before,
        }
    }
}

/// One entry of `B*u` over the first `n` inputs.
pub open spec fn expanded<S: Scalar>(b_row: Seq<Expr<S>>, values: Seq<Expr<S>>, n: nat) -> Expr<S>
    decreases n,
{
    if n == 0 {
        expr::zero()
    } else {
        expr::sum(
            expanded(b_row, values, (n - 1) as nat),
            expr::product(b_row[n - 1], values[n - 1]),
        )
    }
}

// Parameters

/// Parameter defaults and the warnings about those that have none.
#[verifier::ext_equal]
pub struct Defaults<S> {
    pub values: Map<Seq<char>, Expr<S>>,
    pub warnings: Seq<Seq<char>>,
}

/// The message about a parameter whose value is no scalar.
pub open spec fn parameter_message(name: Seq<char>) -> Seq<char> {
    "parameter '"@ + name
        + "' has an expression that is preserved by general-spice-core but is not a scalar MNA value"@
}

/// The defaults after the assignments of one statement from `j` on.
pub open spec fn assigned_from<S: Scalar>(
    assignments: Seq<(Seq<char>, Seq<char>)>,
    j: int,
    defaults: Defaults<S>,
) -> Defaults<S>
    decreases assignments.len() - j,
{
    if j < 0 || j >= assignments.len() {
        defaults
    } else {
        let (name, raw) = assignments[j];
        assigned_from(
            assignments,
            j + 1,
            match expr::scalar::<S>(raw) {
                Ok(value) => Defaults {
                    values: defaults.values.insert(name, value),
                    warnings: defaults.warnings,
                },
                Err(_) => Defaults {
                    values: defaults.values,
                    warnings: defaults.warnings.push(parameter_message(name)),
                },
            },
        )
    }
}

/// The defaults after the cards from `i` on.
pub open spec fn defaults_from<S: Scalar>(cards: Seq<Card>, i: int, defaults: Defaults<S>) -> Defaults<
    S,
>
    decreases cards.len() - i,
{
    if i < 0 || i >= cards.len() {
        defaults
    } else {
        defaults_from(
            cards,
            i + 1,
            match cards[i] {
                Card::Param(assignments) => assigned_from(assignments, 0, defaults),
                _ => defaults,
            },
        )
    }
}

// The descriptor system

/// The system that a circuit's parts make up.
pub open spec fn assembled<S: Scalar>(
    cards: Seq<Card>,
    node_list: Seq<Seq<char>>,
    branch_list: Seq<Seq<char>>,
    sources: Inputs<S>,
    initial: Conditions<S>,
    effect: Effect<S>,
) -> Descriptor<S> {
    let unknowns = unknown_names(node_list, branch_list);
    let order = unknowns.len();
    let count = sources.names.len();
    let b = marked(zeros(order, count), Place::B, effect.marks, effect.marks.len());
    let defaults = defaults_from(
        cards,
        0,
        Defaults { values: Map::empty(), warnings: effect.warnings },
    );
    Descriptor {
        a: marked(zeros(order, order), Place::A, effect.marks, effect.marks.len()),
        k: marked(zeros(order, order), Place::K, effect.marks, effect.marks.len()),
        b,
        u: Seq::new(order, |row: int| expanded(b[row], sources.values, count)),
        unknowns,
        inputs: sources.names,
        input_values: sources.values,
        transients: sources.waves,
        initial: initial.found,
        parameters: defaults.values,
        warnings: defaults.warnings + initial.ignored,
    }
}

/// The descriptor system of a netlist, or the first fault in it.
pub open spec fn system<S: Scalar>(cards: Seq<Card>, settings: Settings<S>) -> Result<
    Descriptor<S>,
    Fault,
> {
    let list = devices(cards, cards.len());
    let node_list = nodes(list, settings);
    match fields_fault(list, settings, 0) {
        Some(fault) => Err(fault),
        None => match branches(list, settings) {
            Err(fault) => Err(fault),
            Ok(branch_list) => match inputs::<S>(list) {
                Err(fault) => Err(fault),
                Ok(sources) => match initial(cards, settings, node_list, branch_list) {
                    Err(fault) => Err(fault),
                    Ok(initial) => match inductances_from(list, 0, Seq::empty()) {
                        Err(fault) => Err(fault),
                        Ok(inductances) => match effect_from(
                            Context {
                                settings,
                                nodes: node_list,
                                branches: branch_list,
                                inputs: sources.names,
                                inductances,
                            },
                            list,
                            0,
                            Effect { marks: Seq::empty(), warnings: Seq::empty() },
                        ) {
                            Err(fault) => Err(fault),
                            Ok(effect) => Ok(
                                assembled(cards, node_list, branch_list, sources, initial, effect),
                            ),
                        },
                    },
                },
            },
        },
    }
}

} // verus!
