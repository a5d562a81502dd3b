//! What a circuit takes from its netlist: its devices, the values and waves of its sources, the
//! values of its parameters, and its initial conditions.

use crate::circuit::{
    accepts_ic, assigned_from, assignments_from, branches, branches_from, card_fault, defaults_from,
    device_marks, devices, directive_of, directive_warning, directives_from, effect_from, field,
    fields_fault, fixed, fixed_node, has_stamp, ic_field, inductances_from, inductor_named,
    initial_from, initial_of, inputs, inputs_from, is_branch_device, is_ground, node_index, nodes,
    parameter_message, position, positional, source_token, stored, switch_state, system,
    token_fault, unsupported_message, with_input, Conditions, Context, Defaults, Effect, Fault,
    Fixed, Inputs, Settings,
};
use crate::circuit_laws::{lemma_branches_from, lemma_nodes_from, lemma_position};
use crate::expr;
use crate::expr::Expr;
use crate::kirchhoff_laws::{
    covers, is_listed, is_placed, is_reference, is_switch, lemma_branch_list, lemma_node_row,
    lemma_nodes_are_placed, takes_part,
};
use crate::netlist::{Card, Device};
use crate::scalar::Scalar;
use crate::system::{lemma_push_contains, Descriptor, Initial};
use crate::text;
use crate::transient_source::wave;
use vstd::prelude::*;

verus! {

// Devices

/// The devices of a netlist that is made of two parts are those of the first and then those of
/// the second. A device card is one device, and any other card none.
pub proof fn law_devices_are_in_order(first: Seq<Card>, second: Seq<Card>, card: Card)
    ensures
        devices(first + second, (first + second).len()) == devices(first, first.len()) + devices(
            second,
            second.len(),
        ),
        card matches Card::Device(device) ==> devices(seq![card], 1) == seq![device],
        !(card is Device) ==> devices(seq![card], 1).len() == 0,
{
    lemma_devices_of_parts(first, second, second.len());
    let single = seq![card];
    assert(devices(single, 0) =~= Seq::empty());
    assert(single[0] == card);
    assert(devices(single, 1) == match card {
        Card::Device(device) => devices(single, 0).push(device),
        _ => devices(single, 0),
    });
    if let Card::Device(device) = card {
        assert(devices(single, 1) =~= seq![device]);
    }
}

proof fn lemma_devices_of_prefix(a: Seq<Card>, b: Seq<Card>, n: nat)
    requires
        n <= a.len(),
        n <= b.len(),
        forall|i: int| 0 <= i < n ==> a[i] == b[i],
    ensures
        devices(a, n) == devices(b, n),
    decreases n,
{
    if n > 0 {
        lemma_devices_of_prefix(a, b, (n - 1) as nat);
    }
}

proof fn lemma_devices_of_parts(first: Seq<Card>, second: Seq<Card>, n: nat)
    requires
        n <= second.len(),
    ensures
        devices(first + second, first.len() + n) == devices(first, first.len()) + devices(
            second,
            n,
        ),
    decreases n,
{
    let all = first + second;
    if n == 0 {
        lemma_devices_of_prefix(all, first, first.len());
        assert(devices(second, 0) =~= Seq::empty());
        assert(devices(first, first.len()) + devices(second, 0) =~= devices(first, first.len()));
    } else {
        lemma_devices_of_parts(first, second, (n - 1) as nat);
        let m = (first.len() + n) as nat;
        assert(all[m - 1] == second[n - 1]);
        assert((m - 1) as nat == first.len() + (n - 1) as nat);
        match second[n - 1] {
            Card::Device(device) => {
                assert(devices(first, first.len()) + devices(second, n) =~= (devices(
                    first,
                    first.len(),
                ) + devices(second, (n - 1) as nat)).push(device));
            },
            _ => {},
        }
    }
}

// Sources

/// The device of an independent source; a diode has one for what flows at no voltage.
pub open spec fn is_source(device: Device) -> bool {
    device.letter == 'V' || device.letter == 'I' || device.letter == 'D'
}

/// A word is `dc`, letter case aside.
pub open spec fn is_dc(word: Seq<char>) -> bool {
    text::eq_ignoring_case(word, "dc"@)
}

/// The word that holds the value of a source stands at `i`: behind the first `dc`, or first of
/// all where no word stands behind a `dc`.
pub open spec fn holds_value(words: Seq<Seq<char>>, i: int) -> bool {
    &&& 0 <= i < words.len()
    &&& {
        ||| i > 0 && is_dc(words[i - 1]) && forall|j: int|
            0 <= j < i - 1 ==> !is_dc(#[trigger] words[j])
        ||| i == 0 && forall|j: int| 0 <= j < words.len() - 1 ==> !is_dc(#[trigger] words[j])
    }
}

/// The input at `i` is that of a source: it has its name. The value of a diode's source is a
/// symbol of its own. That of a source with a wave is the symbol of its name, and the wave is
/// on record under that name. That of any other source is the one that its card gives, and no
/// wave is on record.
pub open spec fn is_input_of<S: Scalar>(d: Descriptor<S>, device: Device, i: int) -> bool {
    &&& 0 <= i < d.inputs.len()
    &&& i < d.input_values.len()
    &&& d.inputs[i] == device.name
    &&& if device.letter == 'D' {
        &&& d.input_values[i] == Expr::<S>::Symbol(device.name + "_Ioff"@)
        &&& !d.transients.contains_key(device.name)
    } else {
        match wave::<S>(device.params) {
            Some(w) => {
                &&& d.input_values[i] == Expr::<S>::Symbol(device.name)
                &&& d.transients.contains_key(device.name)
                &&& d.transients[device.name] == w
            },
            None => {
                &&& exists|j: int| #[trigger]
                    holds_value(device.params, j) && expr::scalar::<S>(device.params[j]) == Ok::<
                        Expr<S>,
                        Seq<char>,
                    >(d.input_values[i])
                &&& !d.transients.contains_key(device.name)
            },
        }
    }
}

/// What has been collected of a source, in its place.
spec fn is_collected<S: Scalar>(inputs: Inputs<S>, device: Device, i: int) -> bool {
    &&& 0 <= i < inputs.names.len()
    &&& i < inputs.values.len()
    &&& inputs.names[i] == device.name
    &&& if device.letter == 'D' {
        &&& inputs.values[i] == Expr::<S>::Symbol(device.name + "_Ioff"@)
        &&& !inputs.waves.contains_key(device.name)
    } else {
        match wave::<S>(device.params) {
            Some(w) => {
                &&& inputs.values[i] == Expr::<S>::Symbol(device.name)
                &&& inputs.waves.contains_key(device.name)
                &&& inputs.waves[device.name] == w
            },
            None => {
                &&& source_token(device.params) matches Some(word) && expr::scalar::<S>(word)
                    == Ok::<Expr<S>, Seq<char>>(inputs.values[i])
                &&& !inputs.waves.contains_key(device.name)
            },
        }
    }
}

/// Every wave is on record under the name of an input, and every input has a value.
spec fn is_orderly<S>(inputs: Inputs<S>) -> bool {
    &&& inputs.values.len() == inputs.names.len()
    &&& forall|name: Seq<char>| #[trigger]
        inputs.waves.contains_key(name) ==> inputs.names.contains(name)
}

/// The number of sources among the devices from `i` up to `k`.
spec fn sources_between(list: Seq<Device>, i: int, k: int) -> nat
    decreases k - i,
{
    if i >= k {
        0
    } else {
        sources_between(list, i, k - 1) + (if is_source(list[k - 1]) {
            1nat
        } else {
            0nat
        })
    }
}

proof fn lemma_between(list: Seq<Device>, i: int, k: int)
    requires
        i < k,
    ensures
        sources_between(list, i, k) == sources_between(list, i + 1, k) + (if is_source(list[i]) {
            1nat
        } else {
            0nat
        }),
    decreases k - i,
{
    if i + 1 < k {
        lemma_between(list, i, k - 1);
    } else {
        assert(sources_between(list, i, k - 1) == 0);
        assert(sources_between(list, i + 1, k) == 0);
    }
}

proof fn lemma_new_input<S: Scalar>(known: Inputs<S>, device: Device)
    requires
        is_orderly(known),
        is_source(device),
    ensures
        with_input(known, device) matches Ok(more) ==> {
            &&& is_orderly(more)
            &&& is_collected(more, device, known.names.len() as int)
            &&& more.names.len() == known.names.len() + 1
            &&& forall|other: Device, i: int|
                is_collected(known, other, i) ==> #[trigger] is_collected(more, other, i)
        },
{
    lemma_position(known.names, device.name, 0);
    if let Ok(more) = with_input(known, device) {
        assert(!known.names.contains(device.name)) by {
            if known.names.contains(device.name) {
                let i = choose|i: int| 0 <= i < known.names.len() && known.names[i] == device.name;
                assert(!text::eq_ignoring_case(known.names[i], device.name));
            }
        }
        assert(more.names =~= known.names.push(device.name));
        assert forall|name: Seq<char>| #[trigger]
            more.waves.contains_key(name) implies more.names.contains(name) by {
            if name == device.name {
                assert(more.names[known.names.len() as int] == name);
            } else {
                assert(known.waves.contains_key(name));
                let i = choose|i: int| 0 <= i < known.names.len() && known.names[i] == name;
                assert(more.names[i] == name);
            }
        }
        assert(!known.waves.contains_key(device.name));
        assert forall|other: Device, i: int| is_collected(known, other, i) implies #[trigger]
            is_collected(more, other, i) by {
            assert(known.names[i] == other.name);
            assert(known.names.contains(other.name));
            assert(more.names[i] == known.names[i]);
            assert(more.values[i] == known.values[i]);
        }
    }
}

proof fn lemma_collected<S: Scalar>(
    list: Seq<Device>,
    i: int,
    known: Inputs<S>,
    k: int,
    other: Device,
    at: int,
)
    requires
        0 <= i <= list.len(),
        is_orderly(known),
    ensures
        inputs_from(list, i, known) matches Ok(all) ==> {
            &&& i <= k < list.len() && is_source(list[k]) ==> is_collected(
                all,
                list[k],
                (known.names.len() + sources_between(list, i, k)) as int,
            )
            &&& is_collected(known, other, at) ==> is_collected(all, other, at)
            &&& all.names.len() == known.names.len() + sources_between(list, i, list.len() as int)
            &&& all.values.len() == all.names.len()
        },
    decreases list.len() - i,
{
    if i < list.len() {
        lemma_between(list, i, list.len() as int);
        if i < k {
            lemma_between(list, i, k);
        }
        if is_source(list[i]) {
            lemma_new_input(known, list[i]);
            if let Ok(more) = with_input(known, list[i]) {
                lemma_collected(list, i + 1, more, k, other, at);
                if i == k {
                    lemma_collected(list, i + 1, more, k, list[k], known.names.len() as int);
                }
            }
        } else {
            lemma_collected(list, i + 1, known, k, other, at);
        }
    }
}

proof fn lemma_source_word(words: Seq<Seq<char>>)
    ensures
        source_token(words) matches Some(word) ==> exists|j: int| #[trigger]
            holds_value(words, j) && words[j] == word,
{
    let dc = position(words, "dc"@, 0);
    lemma_position(words, "dc"@, 0);
    if dc + 1 < words.len() {
        assert(holds_value(words, dc + 1));
    } else if words.len() > 0 {
        assert(holds_value(words, 0));
    }
}

/// The inputs of a circuit are its sources in the order of their devices: as many inputs come
/// before that of a source as there are sources before it. Each has the name of its source and
/// the value or the wave that its card gives.
pub proof fn law_inputs_are_the_sources<S: Scalar>(
    cards: Seq<Card>,
    settings: Settings<S>,
    d: Descriptor<S>,
    k: int,
)
    requires
        system(cards, settings) == Ok::<Descriptor<S>, Fault>(d),
        0 <= k < devices(cards, cards.len()).len(),
        is_source(devices(cards, cards.len())[k]),
    ensures
        is_input_of(
            d,
            devices(cards, cards.len())[k],
            devices(cards, cards.len()).take(k).filter(|device: Device| is_source(device)).len()
                as int,
        ),
        d.inputs.len() == devices(cards, cards.len()).filter(
            |device: Device| is_source(device),
        ).len(),
        d.input_values.len() == d.inputs.len(),
{
    let list = devices(cards, cards.len());
    let none = Inputs::<S> { names: Seq::empty(), values: Seq::empty(), waves: Map::empty() };
    assert(is_orderly(none));
    lemma_collected(list, 0, none, k, list[k], 0);
    lemma_counted(list, k);
    lemma_counted(list, list.len() as int);
    assert(list.take(list.len() as int) =~= list);
    let i = sources_between(list, 0, k) as int;
    let device = list[k];
    if device.letter != 'D' && wave::<S>(device.params) is None {
        lemma_source_word(device.params);
        let word = source_token(device.params)->0;
        let j = choose|j: int| #[trigger]
            holds_value(device.params, j) && device.params[j] == word;
        assert(holds_value(device.params, j));
    }
    assert(is_input_of(d, device, i));
}

proof fn lemma_counted(list: Seq<Device>, k: int)
    requires
        0 <= k <= list.len(),
    ensures
        list.take(k).filter(|device: Device| is_source(device)).len() == sources_between(list, 0, k),
    decreases k,
{
    reveal(Seq::filter);
    let pick = |device: Device| is_source(device);
    if k > 0 {
        lemma_counted(list, k - 1);
        assert(list.take(k).drop_last() =~= list.take(k - 1));
        assert(list.take(k).last() == list[k - 1]);
    } else {
        assert(list.take(0).len() == 0);
    }
}

// Parameters

/// The assignment `name=raw` with a value stands in a card.
pub open spec fn is_assigned<S: Scalar>(
    cards: Seq<Card>,
    c: int,
    j: int,
    name: Seq<char>,
    value: Expr<S>,
) -> bool {
    &&& 0 <= c < cards.len()
    &&& cards[c] matches Card::Param(assignments) && 0 <= j < assignments.len()
        && assignments[j].0 == name && expr::scalar::<S>(assignments[j].1) == Ok::<
        Expr<S>,
        Seq<char>,
    >(value)
}

/// A card assigns some value to a name at `j`.
pub open spec fn assigns<S: Scalar>(cards: Seq<Card>, c: int, j: int, name: Seq<char>) -> bool {
    exists|value: Expr<S>| is_assigned(cards, c, j, name, value)
}

spec fn last_in<S: Scalar>(
    assignments: Seq<(Seq<char>, Seq<char>)>,
    from: int,
    name: Seq<char>,
    j: int,
) -> bool {
    &&& from <= j < assignments.len()
    &&& assignments[j].0 == name
    &&& expr::scalar::<S>(assignments[j].1) is Ok
    &&& forall|later: int|
        j < later < assignments.len() && (#[trigger] assignments[later]).0 == name
            ==> expr::scalar::<S>(assignments[later].1) is Err
}

spec fn none_in<S: Scalar>(
    assignments: Seq<(Seq<char>, Seq<char>)>,
    from: int,
    name: Seq<char>,
) -> bool {
    forall|later: int|
        from <= later < assignments.len() && (#[trigger] assignments[later]).0 == name
            ==> expr::scalar::<S>(assignments[later].1) is Err
}

proof fn lemma_assigned<S: Scalar>(
    assignments: Seq<(Seq<char>, Seq<char>)>,
    from: int,
    before: Defaults<S>,
    name: Seq<char>,
    j: int,
)
    requires
        0 <= from <= assignments.len(),
    ensures
        none_in::<S>(assignments, from, name) ==> {
            let after = assigned_from(assignments, from, before);
            &&& after.values.contains_key(name) == before.values.contains_key(name)
            &&& before.values.contains_key(name) ==> after.values[name] == before.values[name]
        },
        last_in::<S>(assignments, from, name, j) ==> {
            let after = assigned_from(assignments, from, before);
            &&& after.values.contains_key(name)
            &&& after.values[name] == expr::scalar::<S>(assignments[j].1)->Ok_0
        },
    decreases assignments.len() - from,
{
    if from < assignments.len() {
        let (other, raw) = assignments[from];
        let next = match expr::scalar::<S>(raw) {
            Ok(value) => Defaults {
                values: before.values.insert(other, value),
                warnings: before.warnings,
            },
            Err(_) => Defaults {
                values: before.values,
                warnings: before.warnings.push(parameter_message(other)),
            },
        };
        assert(assigned_from(assignments, from, before) == assigned_from(
            assignments,
            from + 1,
            next,
        ));
        lemma_assigned(assignments, from + 1, next, name, j);
        if none_in::<S>(assignments, from, name) {
            assert(none_in::<S>(assignments, from + 1, name));
            assert(assignments[from].0 == name ==> expr::scalar::<S>(raw) is Err);
        }
        if last_in::<S>(assignments, from, name, j) && from == j {
            assert(none_in::<S>(assignments, from + 1, name));
        }
    }
}

/// No card from `c` on assigns a value to a name.
pub open spec fn is_left_alone<S: Scalar>(cards: Seq<Card>, c: int, name: Seq<char>) -> bool {
    forall|later: int, i: int| c <= later ==> !#[trigger] assigns::<S>(cards, later, i, name)
}

proof fn lemma_alone_in<S: Scalar>(
    cards: Seq<Card>,
    c: int,
    from: int,
    name: Seq<char>,
)
    requires
        0 <= c < cards.len(),
        cards[c] is Param,
        0 <= from,
        forall|i: int| from <= i ==> !#[trigger] assigns::<S>(cards, c, i, name),
    ensures
        none_in::<S>(cards[c]->Param_0, from, name),
{
    let assignments = cards[c]->Param_0;
    assert forall|i: int|
        from <= i < assignments.len() && (#[trigger] assignments[i]).0 == name implies expr::scalar::<
        S,
    >(assignments[i].1) is Err by {
        if let Ok(value) = expr::scalar::<S>(assignments[i].1) {
            assert(is_assigned(cards, c, i, name, value));
            assert(assigns::<S>(cards, c, i, name));
        }
    }
}

proof fn lemma_defaults<S: Scalar>(
    cards: Seq<Card>,
    from: int,
    before: Defaults<S>,
    name: Seq<char>,
    c: int,
    j: int,
    value: Expr<S>,
)
    requires
        0 <= from <= cards.len(),
    ensures
        is_left_alone::<S>(cards, from, name) ==> {
            let after = defaults_from(cards, from, before);
            &&& after.values.contains_key(name) == before.values.contains_key(name)
            &&& before.values.contains_key(name) ==> after.values[name] == before.values[name]
        },
        from <= c && is_assigned(cards, c, j, name, value) && is_left_alone::<S>(
            cards,
            c + 1,
            name,
        ) && (forall|i: int| j < i ==> !#[trigger] assigns::<S>(cards, c, i, name)) ==> {
            let after = defaults_from(cards, from, before);
            &&& after.values.contains_key(name)
            &&& after.values[name] == value
        },
    decreases cards.len() - from,
{
    if from < cards.len() {
        let next = match cards[from] {
            Card::Param(assignments) => assigned_from(assignments, 0, before),
            _ => before,
        };
        assert(defaults_from(cards, from, before) == defaults_from(cards, from + 1, next));
        lemma_defaults(cards, from + 1, next, name, c, j, value);
        if is_left_alone::<S>(cards, from, name) {
            assert(is_left_alone::<S>(cards, from + 1, name));
            if cards[from] is Param {
                lemma_alone_in::<S>(cards, from, 0, name);
                lemma_assigned(cards[from]->Param_0, 0, before, name, 0);
            }
        }
        if from == c && is_assigned(cards, c, j, name, value) && (forall|i: int|
            j < i ==> !#[trigger] assigns::<S>(cards, c, i, name)) {
            lemma_alone_in::<S>(cards, c, j + 1, name);
            assert(last_in::<S>(cards[c]->Param_0, 0, name, j));
            lemma_assigned(cards[c]->Param_0, 0, before, name, j);
        }
    }
}

/// The default of a parameter is the last value that a card assigns to it; what is no value
/// leaves it as it was. A parameter that no card gives a value has no default.
pub proof fn law_last_assignment_counts<S: Scalar>(
    cards: Seq<Card>,
    settings: Settings<S>,
    d: Descriptor<S>,
    name: Seq<char>,
    c: int,
    j: int,
    value: Expr<S>,
)
    requires
        system(cards, settings) == Ok::<Descriptor<S>, Fault>(d),
    ensures
        is_assigned(cards, c, j, name, value) && is_left_alone::<S>(cards, c + 1, name) && (forall|
            i: int,
        |
            j < i ==> !#[trigger] assigns::<S>(cards, c, i, name)) ==> d.parameters.contains_key(
            name,
        ) && d.parameters[name] == value,
        is_left_alone::<S>(cards, 0, name) ==> !d.parameters.contains_key(name),
{
    let list = devices(cards, cards.len());
    let branch_list = branches(list, settings)->Ok_0;
    let sources = inputs::<S>(list)->Ok_0;
    let inductances = inductances_from::<S>(list, 0, Seq::empty())->Ok_0;
    let effect = effect_from(
        Context {
            settings,
            nodes: nodes(list, settings),
            branches: branch_list,
            inputs: sources.names,
            inductances,
        },
        list,
        0,
        Effect { marks: Seq::empty(), warnings: Seq::empty() },
    )->Ok_0;
    let start = Defaults::<S> { values: Map::empty(), warnings: effect.warnings };
    lemma_defaults(cards, 0, start, name, c, j, value);
    assert(d.parameters == defaults_from(cards, 0, start).values);
}

// Initial conditions

/// The index of a node's voltage among the unknowns: none for the reference.
pub open spec fn stands_for_node<S>(d: Descriptor<S>, index: Option<usize>, node: Seq<char>) -> bool {
    match index {
        None => is_reference(node),
        Some(i) => !is_reference(node) && is_listed(d.unknowns, "V("@ + node + ")"@, i as int),
    }
}

/// The index of a branch's current among the unknowns.
pub open spec fn stands_for_branch<S>(d: Descriptor<S>, index: usize, branch: Seq<char>) -> bool {
    is_listed(d.unknowns, "I("@ + branch + ")"@, index as int)
}

/// A word gives the field `ic` the text of a value.
pub open spec fn is_condition(word: Seq<char>, key: Seq<char>, raw: Seq<char>) -> bool {
    &&& word == key + "="@ + raw
    &&& !key.contains('=')
    &&& text::eq_ignoring_case(text::trim(key), "ic"@)
}

/// A voltage between two nodes is among the conditions of a circuit.
pub open spec fn fixes_voltage<S: Scalar>(
    d: Descriptor<S>,
    p: int,
    element: Seq<char>,
    first: Seq<char>,
    second: Option<Seq<char>>,
    value: Expr<S>,
) -> bool {
    &&& 0 <= p < d.initial.len()
    &&& d.initial[p] matches Initial::Voltage { element: e, positive, negative, value: v } && e
        == element && v == value && stands_for_node(d, positive, first) && match second {
        Some(node) => stands_for_node(d, negative, node),
        None => negative is None,
    }
}

/// The current of an inductor is among the conditions of a circuit.
pub open spec fn fixes_current<S: Scalar>(
    d: Descriptor<S>,
    p: int,
    element: Seq<char>,
    branch: Seq<char>,
    value: Expr<S>,
) -> bool {
    &&& 0 <= p < d.initial.len()
    &&& d.initial[p] matches Initial::Current { element: e, branch: b, value: v } && e == element
        && v == value && stands_for_branch(d, b, branch)
}

proof fn lemma_ic_field(params: Seq<Seq<char>>, i: int, j: int, key: Seq<char>, raw: Seq<char>)
    requires
        0 <= i <= j < params.len(),
        is_condition(params[j], key, raw),
        forall|e: int| i <= e < j ==> !(#[trigger] params[e]).contains('='),
    ensures
        ic_field(params, i) == Some(raw),
    decreases j - i,
{
    reveal_strlit("ic");
    reveal_strlit("=");
    let token = params[i];
    text::lemma_find(token, '=', 0);
    let at = text::find(token, '=');
    if i < j {
        assert(!params[i].contains('='));
        assert(at == token.len()) by {
            if at < token.len() {
                assert(token[at] == '=');
                assert(token.contains('='));
            }
        }
        lemma_ic_field(params, i + 1, j, key, raw);
    } else {
        assert(token[key.len() as int] == '=');
        assert(at == key.len()) by {
            if at < key.len() {
                assert(token[at] == key[at]);
                assert(key.contains('='));
            } else if at > key.len() {
                assert(token[key.len() as int] != '=');
            }
        }
        assert(token.take(at) =~= key);
        assert(token.skip(at + 1) =~= raw);
        let word = text::trim(key);
        lemma_lower_is_ic(word);
    }
}

proof fn lemma_lower_is_ic(word: Seq<char>)
    requires
        text::eq_ignoring_case(word, "ic"@),
    ensures
        text::lower(word) == "ic"@,
        word.len() == 2,
{
    reveal_strlit("ic");
    assert(text::upper(word).len() == text::upper("ic"@).len());
    assert(text::upper(word)[0] == text::upper("ic"@)[0]);
    assert(text::upper(word)[1] == text::upper("ic"@)[1]);
    assert(text::lower(word) =~= "ic"@);
}

proof fn lemma_initial_found<S: Scalar>(
    list: Seq<Device>,
    settings: Settings<S>,
    node_list: Seq<Seq<char>>,
    branch_list: Seq<Seq<char>>,
    i: int,
    before: Seq<Initial<S>>,
    k: int,
    p: int,
)
    requires
        0 <= i <= list.len(),
    ensures
        initial_from(list, settings, node_list, branch_list, i, before) matches Ok(all) ==> {
            &&& 0 <= p < before.len() ==> p < all.len() && all[p] == before[p]
            &&& i <= k < list.len() && switch_state(settings, list[k]) is None && accepts_ic(
                list[k].letter,
            ) ==> (initial_of::<S>(list[k], node_list, branch_list) matches Ok(Some(own))
                ==> all.contains(own))
            &&& i <= k < list.len() && switch_state(settings, list[k]) is None && accepts_ic(
                list[k].letter,
            ) ==> initial_of::<S>(list[k], node_list, branch_list) is Ok
        },
    decreases list.len() - i,
{
    if i < list.len() {
        if switch_state(settings, list[i]) is None && accepts_ic(list[i].letter) {
            match initial_of::<S>(list[i], node_list, branch_list) {
                Ok(Some(own)) => {
                    let next = before.push(own);
                    lemma_initial_found(list, settings, node_list, branch_list, i + 1, next, k, p);
                    lemma_initial_found(
                        list,
                        settings,
                        node_list,
                        branch_list,
                        i + 1,
                        next,
                        k,
                        before.len() as int,
                    );
                    assert(next[before.len() as int] == own);
                },
                Ok(None) => {
                    lemma_initial_found(
                        list,
                        settings,
                        node_list,
                        branch_list,
                        i + 1,
                        before,
                        k,
                        p,
                    );
                },
                Err(_) => {},
            }
        } else {
            lemma_initial_found(list, settings, node_list, branch_list, i + 1, before, k, p);
        }
    }
}

proof fn lemma_assignments_found<S: Scalar>(
    list: Seq<Device>,
    node_list: Seq<Seq<char>>,
    branch_list: Seq<Seq<char>>,
    line: usize,
    pairs: Seq<(Seq<char>, Seq<char>)>,
    i: int,
    before: Conditions<S>,
    own: Initial<S>,
    j: int,
)
    requires
        0 <= i <= pairs.len(),
        before.found.contains(own) || (i <= j < pairs.len() && directive_of::<S>(
            list,
            node_list,
            branch_list,
            pairs[j].0,
            pairs[j].1,
        ) == Ok::<Initial<S>, Seq<char>>(own)),
    ensures
        assignments_from(list, node_list, branch_list, line, pairs, i, before).found.contains(own),
    decreases pairs.len() - i,
{
    if i < pairs.len() {
        let next = match directive_of::<S>(list, node_list, branch_list, pairs[i].0, pairs[i].1) {
            Err(message) => Conditions {
                found: before.found,
                ignored: before.ignored.push(directive_warning(line, message)),
            },
            Ok(initial) => Conditions {
                found: before.found.push(initial),
                ignored: before.ignored,
            },
        };
        if before.found.contains(own) {
            let p = choose|p: int| 0 <= p < before.found.len() && before.found[p] == own;
            assert(next.found[p] == own);
        } else if i == j {
            assert(next.found[before.found.len() as int] == own);
        }
        lemma_assignments_found(list, node_list, branch_list, line, pairs, i + 1, next, own, j);
    }
}

/// An assignment of an `.ic` card fixes what it names.
spec fn is_directed<S: Scalar>(
    cards: Seq<Card>,
    list: Seq<Device>,
    node_list: Seq<Seq<char>>,
    branch_list: Seq<Seq<char>>,
    c: int,
    j: int,
    own: Initial<S>,
) -> bool {
    &&& 0 <= c < cards.len()
    &&& cards[c] matches Card::Ic(pairs, _, _) && 0 <= j < pairs.len()
        && directive_of::<S>(list, node_list, branch_list, pairs[j].0, pairs[j].1) == Ok::<
        Initial<S>,
        Seq<char>,
    >(own)
}

proof fn lemma_directives_found<S: Scalar>(
    cards: Seq<Card>,
    list: Seq<Device>,
    node_list: Seq<Seq<char>>,
    branch_list: Seq<Seq<char>>,
    i: int,
    before: Conditions<S>,
    own: Initial<S>,
    c: int,
    j: int,
)
    requires
        0 <= i <= cards.len(),
        before.found.contains(own) || (i <= c && is_directed(
            cards,
            list,
            node_list,
            branch_list,
            c,
            j,
            own,
        )),
    ensures
        directives_from(cards, list, node_list, branch_list, i, before).found.contains(own),
    decreases cards.len() - i,
{
    if i < cards.len() {
        let next = match cards[i] {
            Card::Ic(pairs, line, _) => assignments_from(
                list,
                node_list,
                branch_list,
                line,
                pairs,
                0,
                before,
            ),
            _ => before,
        };
        if let Card::Ic(pairs, line, _) = cards[i] {
            if before.found.contains(own) || i == c {
                lemma_assignments_found(
                    list,
                    node_list,
                    branch_list,
                    line,
                    pairs,
                    0,
                    before,
                    own,
                    j,
                );
            }
        }
        lemma_directives_found(cards, list, node_list, branch_list, i + 1, next, own, c, j);
    }
}

/// Where a node's voltage is found among the unknowns.
proof fn lemma_node_stands<S: Scalar>(
    cards: Seq<Card>,
    settings: Settings<S>,
    d: Descriptor<S>,
    node: Seq<char>,
)
    requires
        system(cards, settings) == Ok::<Descriptor<S>, Fault>(d),
        d.unknowns.len() <= usize::MAX,
        ({
            let list = devices(cards, cards.len());
            is_placed(nodes(list, settings), node)
        }),
    ensures
        ({
            let list = devices(cards, cards.len());
            let index = node_index(nodes(list, settings), node);
            &&& stands_for_node(d, stored(index), node)
            &&& fixed_node(nodes(list, settings), node) == Ok::<Option<usize>, Seq<char>>(
                stored(index),
            )
        }),
{
    let list = devices(cards, cards.len());
    let node_list = nodes(list, settings);
    let branch_list = branches(list, settings)->Ok_0;
    lemma_nodes_from(list, settings, 0, Seq::empty());
    lemma_branches_from(list, settings, 0, Seq::empty());
    lemma_position(node_list, node, 0);
    if !is_ground(node) {
        let i = choose|i: int| is_listed(node_list, node, i);
        assert(is_listed(node_list, node, i));
        let at = position(node_list, node, 0);
        assert(at <= i);
        lemma_node_row(node_list, branch_list, node, at);
        assert(is_listed(d.unknowns, "V("@ + node + ")"@, at));
    }
}

/// Where a branch's current is found among the unknowns.
proof fn lemma_branch_stands<S: Scalar>(
    cards: Seq<Card>,
    settings: Settings<S>,
    d: Descriptor<S>,
    branch: Seq<char>,
)
    requires
        system(cards, settings) == Ok::<Descriptor<S>, Fault>(d),
        d.unknowns.len() <= usize::MAX,
        ({
            let list = devices(cards, cards.len());
            position(branches(list, settings)->Ok_0, branch, 0) < branches(
                list,
                settings,
            )->Ok_0.len()
        }),
    ensures
        ({
            let list = devices(cards, cards.len());
            let node_list = nodes(list, settings);
            let branch_list = branches(list, settings)->Ok_0;
            stands_for_branch(
                d,
                (node_list.len() + position(branch_list, branch, 0)) as usize,
                branch,
            )
        }),
{
    let list = devices(cards, cards.len());
    let node_list = nodes(list, settings);
    let branch_list = branches(list, settings)->Ok_0;
    lemma_nodes_from(list, settings, 0, Seq::empty());
    lemma_branches_from(list, settings, 0, Seq::empty());
    lemma_position(branch_list, branch, 0);
    let at = node_list.len() + position(branch_list, branch, 0);
    lemma_node_row(node_list, branch_list, branch, at);
    assert(is_listed(d.unknowns, "I("@ + branch + ")"@, at));
}

/// A capacitor whose card says `ic=` starts with that voltage, from its first node to its
/// second, and an inductor with that current.
pub proof fn law_card_fixes_its_condition<S: Scalar>(
    cards: Seq<Card>,
    settings: Settings<S>,
    d: Descriptor<S>,
    k: int,
    j: int,
    key: Seq<char>,
    raw: Seq<char>,
)
    requires
        system(cards, settings) == Ok::<Descriptor<S>, Fault>(d),
        d.unknowns.len() <= usize::MAX,
        ({
            let list = devices(cards, cards.len());
            &&& 0 <= k < list.len()
            &&& !is_switch(settings, list[k])
            &&& 0 <= j < list[k].params.len()
            &&& is_condition(list[k].params[j], key, raw)
            &&& forall|e: int| 0 <= e < j ==> !(#[trigger] list[k].params[e]).contains('=')
        }),
    ensures
        ({
            let device = devices(cards, cards.len())[k];
            &&& device.letter == 'C' ==> expr::scalar::<S>(raw) is Ok && exists|p: int|
                fixes_voltage(
                    d,
                    p,
                    device.name,
                    device.nodes[0],
                    Some(device.nodes[1]),
                    expr::scalar::<S>(raw)->Ok_0,
                )
            &&& device.letter == 'L' ==> expr::scalar::<S>(raw) is Ok && exists|p: int|
                fixes_current(d, p, device.name, device.name, expr::scalar::<S>(raw)->Ok_0)
        }),
{
    let list = devices(cards, cards.len());
    let device = list[k];
    let node_list = nodes(list, settings);
    let branch_list = branches(list, settings)->Ok_0;
    lemma_ic_field(device.params, 0, j, key, raw);
    if accepts_ic(device.letter) {
        lemma_initial_found(list, settings, node_list, branch_list, 0, Seq::empty(), k, 0);
        let found = initial_from(list, settings, node_list, branch_list, 0, Seq::empty())->Ok_0;
        let own = initial_of::<S>(device, node_list, branch_list)->Ok_0->0;
        let value = expr::scalar::<S>(raw)->Ok_0;
        lemma_directives_found(
            cards,
            list,
            node_list,
            branch_list,
            0,
            Conditions { found, ignored: Seq::empty() },
            own,
            0,
            0,
        );
        assert(d.initial.contains(own));
        let p = choose|p: int| 0 <= p < d.initial.len() && d.initial[p] == own;
        if device.letter == 'C' {
            lemma_nodes_are_placed(list, settings, 0, Seq::empty(), k, 0, device.nodes[0]);
            lemma_nodes_are_placed(list, settings, 0, Seq::empty(), k, 1, device.nodes[1]);
            lemma_node_stands(cards, settings, d, device.nodes[0]);
            lemma_node_stands(cards, settings, d, device.nodes[1]);
            assert(fixes_voltage(
                d,
                p,
                device.name,
                device.nodes[0],
                Some(device.nodes[1]),
                value,
            ));
        } else {
            lemma_position(branch_list, device.name, 0);
            lemma_branch_stands(cards, settings, d, device.name);
            assert(fixes_current(d, p, device.name, device.name, value));
        }
    }
}

/// A name that a directive can name: without commas, and without space around it.
pub open spec fn is_plain(name: Seq<char>) -> bool {
    &&& name.len() > 0
    &&& !name.contains(',')
    &&& text::trim(name) == name
}

/// A name is that of a node of the circuit, or of the reference.
pub open spec fn is_node_of<S>(d: Descriptor<S>, node: Seq<char>) -> bool {
    is_reference(node) || exists|row: int| is_listed(d.unknowns, "V("@ + node + ")"@, row)
}

/// The `.ic` card at `c` says `key=raw`.
pub open spec fn directs(cards: Seq<Card>, c: int, j: int, key: Seq<char>, raw: Seq<char>) -> bool {
    &&& 0 <= c < cards.len()
    &&& cards[c] matches Card::Ic(pairs, _, _) && 0 <= j < pairs.len()
        && pairs[j] == (key, raw)
}

proof fn lemma_bracketed(head: Seq<char>, inner: Seq<char>)
    requires
        head == "V("@ || head == "I("@,
    ensures
        ({
            let t = head + inner + ")"@;
            &&& text::trim(t) == t
            &&& t.len() == inner.len() + 3
            &&& t[0] == head[0]
            &&& t[1] == '('
            &&& t.last() == ')'
            &&& t.subrange(2, t.len() - 1) == inner
        }),
{
    reveal_strlit("V(");
    reveal_strlit("I(");
    reveal_strlit(")");
    let t = head + inner + ")"@;
    let space = |c: char| text::is_space(c);
    assert(t[0] == head[0]);
    assert(t[1] == head[1]);
    assert(t.last() == ')');
    assert(!space(t[0]));
    assert(!space(t.last()));
    assert(text::trim_start_by(t, space) == t);
    assert(text::trim_end_by(t, space) == t);
    assert(t.subrange(2, t.len() - 1) =~= inner);
}

proof fn lemma_one_name(name: Seq<char>)
    requires
        !name.contains(','),
    ensures
        text::split(name, ',') == seq![name],
{
    text::lemma_find(name, ',', 0);
    let at = text::find(name, ',');
    if at < name.len() {
        assert(name[at] == ',');
    }
}

proof fn lemma_two_names(first: Seq<char>, second: Seq<char>)
    requires
        !first.contains(','),
        !second.contains(','),
    ensures
        text::split(first + ","@ + second, ',') == seq![first, second],
{
    reveal_strlit(",");
    let all = first + ","@ + second;
    text::lemma_find(all, ',', 0);
    let at = text::find(all, ',');
    assert(all[first.len() as int] == ',');
    if at < first.len() {
        assert(all[at] == first[at]);
        assert(first.contains(','));
    }
    assert(at == first.len());
    assert(all.take(at) =~= first);
    assert(all.skip(at + 1) =~= second);
    lemma_one_name(second);
    assert(seq![first] + seq![second] =~= seq![first, second]);
}

proof fn lemma_node_is_placed<S: Scalar>(
    cards: Seq<Card>,
    settings: Settings<S>,
    d: Descriptor<S>,
    node: Seq<char>,
)
    requires
        system(cards, settings) == Ok::<Descriptor<S>, Fault>(d),
        is_node_of(d, node),
    ensures
        is_placed(nodes(devices(cards, cards.len()), settings), node),
{
    let list = devices(cards, cards.len());
    let node_list = nodes(list, settings);
    let branch_list = branches(list, settings)->Ok_0;
    lemma_nodes_from(list, settings, 0, Seq::empty());
    lemma_branches_from(list, settings, 0, Seq::empty());
    if !is_ground(node) {
        let row = choose|row: int| is_listed(d.unknowns, "V("@ + node + ")"@, row);
        lemma_node_row(node_list, branch_list, node, row);
        assert(is_listed(node_list, node, row));
    }
}

proof fn lemma_directed<S: Scalar>(
    cards: Seq<Card>,
    settings: Settings<S>,
    d: Descriptor<S>,
    c: int,
    j: int,
    own: Initial<S>,
)
    requires
        system(cards, settings) == Ok::<Descriptor<S>, Fault>(d),
        ({
            let list = devices(cards, cards.len());
            is_directed(
                cards,
                list,
                nodes(list, settings),
                branches(list, settings)->Ok_0,
                c,
                j,
                own,
            )
        }),
    ensures
        d.initial.contains(own),
{
    let list = devices(cards, cards.len());
    let node_list = nodes(list, settings);
    let branch_list = branches(list, settings)->Ok_0;
    let found = initial_from(list, settings, node_list, branch_list, 0, Seq::empty())->Ok_0;
    lemma_directives_found(
        cards,
        list,
        node_list,
        branch_list,
        0,
        Conditions { found, ignored: Seq::empty() },
        own,
        c,
        j,
    );
}

/// `.ic V(node)=value` fixes the voltage of the node, and `.ic V(first,second)=value` the
/// voltage from the first node to the second.
pub proof fn law_directive_fixes_a_voltage<S: Scalar>(
    cards: Seq<Card>,
    settings: Settings<S>,
    d: Descriptor<S>,
    c: int,
    j: int,
    first: Seq<char>,
    second: Seq<char>,
    raw: Seq<char>,
    value: Expr<S>,
)
    requires
        system(cards, settings) == Ok::<Descriptor<S>, Fault>(d),
        d.unknowns.len() <= usize::MAX,
        is_plain(first),
        is_plain(second),
        is_node_of(d, first),
        is_node_of(d, second),
        expr::scalar::<S>(raw) == Ok::<Expr<S>, Seq<char>>(value),
    ensures
        directs(cards, c, j, "V("@ + first + ")"@, raw) ==> exists|p: int|
            fixes_voltage(d, p, ".IC V("@ + first + ")"@, first, None, value),
        directs(cards, c, j, "V("@ + (first + ","@ + second) + ")"@, raw) ==> exists|p: int|
            fixes_voltage(
                d,
                p,
                ".IC V("@ + first + ","@ + second + ")"@,
                first,
                Some(second),
                value,
            ),
{
    let list = devices(cards, cards.len());
    let node_list = nodes(list, settings);
    let branch_list = branches(list, settings)->Ok_0;
    lemma_node_is_placed(cards, settings, d, first);
    lemma_node_is_placed(cards, settings, d, second);
    lemma_node_stands(cards, settings, d, first);
    lemma_node_stands(cards, settings, d, second);
    reveal_strlit("V(");
    reveal_strlit(",");
    let positive = stored(node_index(node_list, first));
    let negative = stored(node_index(node_list, second));
    if directs(cards, c, j, "V("@ + first + ")"@, raw) {
        lemma_bracketed("V("@, first);
        lemma_one_name(first);
        let element = ".IC V("@ + first + ")"@;
        assert(fixed("V("@ + first + ")"@) == Some(Fixed::Voltage(first, None)));
        let own = Initial::Voltage { element, positive, negative: None, value };
        lemma_directed(cards, settings, d, c, j, own);
        let p = choose|p: int| 0 <= p < d.initial.len() && d.initial[p] == own;
        assert(fixes_voltage(d, p, element, first, None, value));
    }
    if directs(cards, c, j, "V("@ + (first + ","@ + second) + ")"@, raw) {
        lemma_bracketed("V("@, first + ","@ + second);
        lemma_two_names(first, second);
        let element = ".IC V("@ + first + ","@ + second + ")"@;
        assert(fixed("V("@ + (first + ","@ + second) + ")"@) == Some(
            Fixed::Voltage(first, Some(second)),
        ));
        let own = Initial::Voltage { element, positive, negative, value };
        lemma_directed(cards, settings, d, c, j, own);
        let p = choose|p: int| 0 <= p < d.initial.len() && d.initial[p] == own;
        assert(fixes_voltage(d, p, element, first, Some(second), value));
    }
}

proof fn lemma_inductor_named(list: Seq<Device>, name: Seq<char>, i: int, k: int)
    requires
        0 <= i <= k < list.len(),
        list[k].letter == 'L',
        text::eq_ignoring_case(list[k].name, name),
    ensures
        inductor_named(list, name, i),
    decreases k - i,
{
    if i < k {
        lemma_inductor_named(list, name, i + 1, k);
    }
}

/// `.ic I(inductor)=value` fixes the current of the inductor.
pub proof fn law_directive_fixes_a_current<S: Scalar>(
    cards: Seq<Card>,
    settings: Settings<S>,
    d: Descriptor<S>,
    c: int,
    j: int,
    k: int,
    name: Seq<char>,
    raw: Seq<char>,
    value: Expr<S>,
)
    requires
        system(cards, settings) == Ok::<Descriptor<S>, Fault>(d),
        d.unknowns.len() <= usize::MAX,
        is_plain(name),
        0 <= k < devices(cards, cards.len()).len(),
        !is_switch(settings, devices(cards, cards.len())[k]),
        devices(cards, cards.len())[k].letter == 'L',
        text::eq_ignoring_case(devices(cards, cards.len())[k].name, name),
        directs(cards, c, j, "I("@ + name + ")"@, raw),
        expr::scalar::<S>(raw) == Ok::<Expr<S>, Seq<char>>(value),
    ensures
        exists|p: int| fixes_current(d, p, ".IC I("@ + name + ")"@, name, value),
{
    let list = devices(cards, cards.len());
    let node_list = nodes(list, settings);
    let branch_list = branches(list, settings)->Ok_0;
    lemma_branch_list(list, settings, 0, Seq::empty());
    assert(is_branch_device(settings, list[k]));
    assert(covers(branch_list, list[k].name));
    let i = choose|i: int| is_listed(branch_list, list[k].name, i);
    lemma_position(branch_list, name, 0);
    assert(text::eq_ignoring_case(branch_list[i], name));
    lemma_branch_stands(cards, settings, d, name);
    lemma_inductor_named(list, name, 0, k);
    reveal_strlit("I(");
    lemma_bracketed("I("@, name);
    let element = ".IC I("@ + name + ")"@;
    assert(fixed("I("@ + name + ")"@) == Some(Fixed::Current(name)));
    let branch = (node_list.len() + position(branch_list, name, 0)) as usize;
    let own = Initial::Current { element, branch, value };
    lemma_directed(cards, settings, d, c, j, own);
    let p = choose|p: int| 0 <= p < d.initial.len() && d.initial[p] == own;
    assert(fixes_current(d, p, element, name, value));
}

// What is refused

/// The message about a device that has no linear model.
pub open spec fn no_model(device: Device) -> Seq<char> {
    "element '"@ + device.name + "' (device "@ + seq![device.letter] + ") has no linear MNA stamp"@
}

proof fn lemma_reported<S: Scalar>(
    context: Context<S>,
    list: Seq<Device>,
    i: int,
    before: Effect<S>,
    k: int,
    message: Seq<char>,
)
    requires
        0 <= i <= list.len(),
    ensures
        effect_from(context, list, i, before) matches Ok(effect) ==> {
            &&& before.warnings.contains(message) ==> effect.warnings.contains(message)
            &&& i <= k < list.len() && !takes_part(context.settings, list[k])
                ==> context.settings.skip_unsupported && effect.warnings.contains(no_model(list[k]))
        },
    decreases list.len() - i,
{
    if i < list.len() {
        if has_stamp(context.settings, list[i]) {
            if let Ok(more) = device_marks(context, list[i]) {
                let next = Effect { marks: before.marks + more, warnings: before.warnings };
                lemma_reported(context, list, i + 1, next, k, message);
            }
        } else if context.settings.skip_unsupported {
            let own = unsupported_message(list[i]);
            let next = Effect { marks: before.marks, warnings: before.warnings.push(own) };
            lemma_push_contains(before.warnings, own, message);
            lemma_push_contains(before.warnings, own, own);
            lemma_reported(context, list, i + 1, next, k, message);
            lemma_reported(context, list, i + 1, next, k, own);
        }
    }
}

proof fn lemma_assignments_keep<S: Scalar>(
    assignments: Seq<(Seq<char>, Seq<char>)>,
    from: int,
    before: Defaults<S>,
    message: Seq<char>,
)
    requires
        0 <= from <= assignments.len(),
        before.warnings.contains(message),
    ensures
        assigned_from(assignments, from, before).warnings.contains(message),
    decreases assignments.len() - from,
{
    if from < assignments.len() {
        let (other, raw) = assignments[from];
        lemma_push_contains(before.warnings, parameter_message(other), message);
        match expr::scalar::<S>(raw) {
            Ok(value) => lemma_assignments_keep(
                assignments,
                from + 1,
                Defaults { values: before.values.insert(other, value), warnings: before.warnings },
                message,
            ),
            Err(_) => lemma_assignments_keep(
                assignments,
                from + 1,
                Defaults {
                    values: before.values,
                    warnings: before.warnings.push(parameter_message(other)),
                },
                message,
            ),
        }
    }
}

proof fn lemma_defaults_keep<S: Scalar>(
    cards: Seq<Card>,
    from: int,
    before: Defaults<S>,
    message: Seq<char>,
)
    requires
        0 <= from <= cards.len(),
        before.warnings.contains(message),
    ensures
        defaults_from(cards, from, before).warnings.contains(message),
    decreases cards.len() - from,
{
    if from < cards.len() {
        match cards[from] {
            Card::Param(assignments) => {
                lemma_assignments_keep(assignments, 0, before, message);
                lemma_defaults_keep(
                    cards,
                    from + 1,
                    assigned_from(assignments, 0, before),
                    message,
                );
            },
            _ => lemma_defaults_keep(cards, from + 1, before, message),
        }
    }
}

/// A circuit with a device that has no linear model is refused, or where such devices are to be
/// skipped, there is a warning about it.
pub proof fn law_devices_without_a_model_are_reported<S: Scalar>(
    cards: Seq<Card>,
    settings: Settings<S>,
    k: int,
)
    requires
        0 <= k < devices(cards, cards.len()).len(),
        !takes_part(settings, devices(cards, cards.len())[k]),
    ensures
        system(cards, settings) matches Ok(d) ==> settings.skip_unsupported && d.warnings.contains(
            no_model(devices(cards, cards.len())[k]),
        ),
{
    if let Ok(d) = system(cards, settings) {
        let list = devices(cards, cards.len());
        let node_list = nodes(list, settings);
        let branch_list = branches(list, settings)->Ok_0;
        let sources = inputs::<S>(list)->Ok_0;
        let context = Context {
            settings,
            nodes: node_list,
            branches: branch_list,
            inputs: sources.names,
            inductances: inductances_from::<S>(list, 0, Seq::empty())->Ok_0,
        };
        let start = Effect::<S> { marks: Seq::empty(), warnings: Seq::empty() };
        let message = no_model(list[k]);
        lemma_reported(context, list, 0, start, k, message);
        let effect = effect_from(context, list, 0, start)->Ok_0;
        let before = Defaults::<S> { values: Map::empty(), warnings: effect.warnings };
        lemma_defaults_keep(cards, 0, before, message);
        let warnings = defaults_from(cards, 0, before).warnings;
        let p = choose|p: int| 0 <= p < warnings.len() && warnings[p] == message;
        assert(d.warnings[p] == message);
    }
}

/// A word `key=value`.
pub open spec fn is_field(word: Seq<char>, key: Seq<char>, value: Seq<char>) -> bool {
    &&& word == key + "="@ + value
    &&& !key.contains('=')
    &&& text::trim(key).len() > 0
}

proof fn lemma_is_field(word: Seq<char>, key: Seq<char>, value: Seq<char>)
    requires
        is_field(word, key, value),
    ensures
        field(word) == Some((text::lower(text::trim(key)), value)),
{
    reveal_strlit("=");
    text::lemma_find(word, '=', 0);
    let at = text::find(word, '=');
    assert(word[key.len() as int] == '=');
    assert(at == key.len()) by {
        if at < key.len() {
            assert(word[at] == key[at]);
            assert(key.contains('='));
        }
    }
    assert(word.take(at) =~= key);
    assert(word.skip(at + 1) =~= value);
}

proof fn lemma_card_is_sound(device: Device, i: int, j: int)
    requires
        0 <= i <= j < device.params.len(),
        card_fault(device, i) is None,
    ensures
        token_fault(device, j) is None,
    decreases j - i,
{
    if i < j {
        lemma_card_is_sound(device, i + 1, j);
    }
}

proof fn lemma_fields_are_sound<S>(list: Seq<Device>, settings: Settings<S>, i: int, k: int)
    requires
        0 <= i <= k < list.len(),
        fields_fault(list, settings, i) is None,
        takes_part(settings, list[k]),
    ensures
        card_fault(list[k], 0) is None,
    decreases k - i,
{
    if i < k {
        lemma_fields_are_sound(list, settings, i + 1, k);
    }
}

/// The only field that a card may have is `ic`, letter case aside, on a capacitor or an inductor.
pub proof fn law_only_conditions_are_fields<S: Scalar>(
    cards: Seq<Card>,
    settings: Settings<S>,
    k: int,
    j: int,
    key: Seq<char>,
    value: Seq<char>,
)
    requires
        system(cards, settings) is Ok,
        0 <= k < devices(cards, cards.len()).len(),
        takes_part(settings, devices(cards, cards.len())[k]),
        0 <= j < devices(cards, cards.len())[k].params.len(),
        is_field(devices(cards, cards.len())[k].params[j], key, value),
    ensures
        devices(cards, cards.len())[k].letter == 'C' || devices(cards, cards.len())[k].letter
            == 'L',
        text::lower(text::trim(key)) == "ic"@,
{
    let list = devices(cards, cards.len());
    lemma_fields_are_sound(list, settings, 0, k);
    lemma_card_is_sound(list[k], 0, j);
    lemma_is_field(list[k].params[j], key, value);
}

proof fn lemma_counted_words(words: Seq<Seq<char>>, i: int, n: nat)
    requires
        0 <= i < n <= words.len(),
        !words[i].contains('='),
    ensures
        positional(words, n) >= 1,
    decreases n,
{
    if i == n - 1 {
        lemma_no_field(words[i]);
    } else {
        lemma_counted_words(words, i, (n - 1) as nat);
    }
}

proof fn lemma_no_field(word: Seq<char>)
    requires
        !word.contains('='),
    ensures
        field(word) is None,
{
    text::lemma_find(word, '=', 0);
    let at = text::find(word, '=');
    if at < word.len() {
        assert(word[at] == '=');
    }
}

/// A resistor, a capacitor and an inductor have one value: of two words of such a card, one has
/// an equals sign.
pub proof fn law_simple_devices_have_one_value<S: Scalar>(
    cards: Seq<Card>,
    settings: Settings<S>,
    k: int,
    i: int,
    j: int,
)
    requires
        system(cards, settings) is Ok,
        0 <= k < devices(cards, cards.len()).len(),
        0 <= i < j < devices(cards, cards.len())[k].params.len(),
    ensures
        ({
            let device = devices(cards, cards.len())[k];
            device.letter == 'R' || device.letter == 'C' || device.letter == 'L'
                ==> device.params[i].contains('=') || device.params[j].contains('=')
        }),
{
    let list = devices(cards, cards.len());
    let device = list[k];
    if takes_part(settings, device) {
        lemma_fields_are_sound(list, settings, 0, k);
        lemma_card_is_sound(device, 0, j);
        if !device.params[i].contains('=') && !device.params[j].contains('=') {
            lemma_no_field(device.params[j]);
            lemma_counted_words(device.params, i, j as nat);
            assert(positional(device.params, (j + 1) as nat) == positional(
                device.params,
                j as nat,
            ) + 1);
        }
    }
}

proof fn lemma_sources_differ<S: Scalar>(
    list: Seq<Device>,
    i: int,
    known: Inputs<S>,
    k: int,
    l: int,
    p: int,
)
    requires
        0 <= i <= list.len(),
    ensures
        inputs_from(list, i, known) is Ok ==> {
            &&& 0 <= p < known.names.len() && i <= l < list.len() && is_source(list[l])
                ==> !text::eq_ignoring_case(known.names[p], list[l].name)
            &&& i <= k < l < list.len() && is_source(list[k]) && is_source(list[l])
                ==> !text::eq_ignoring_case(list[k].name, list[l].name)
        },
    decreases list.len() - i,
{
    if i < list.len() {
        if is_source(list[i]) {
            lemma_position(known.names, list[i].name, 0);
            if let Ok(more) = with_input(known, list[i]) {
                lemma_sources_differ(list, i + 1, more, k, l, p);
                lemma_sources_differ(list, i + 1, more, k, l, known.names.len() as int);
                assert(more.names[known.names.len() as int] == list[i].name);
                if 0 <= p < known.names.len() {
                    assert(more.names[p] == known.names[p]);
                }
            }
        } else {
            lemma_sources_differ(list, i + 1, known, k, l, p);
        }
    }
}

proof fn lemma_branches_differ<S>(
    list: Seq<Device>,
    settings: Settings<S>,
    i: int,
    known: Seq<Seq<char>>,
    k: int,
    l: int,
    p: int,
)
    requires
        0 <= i <= list.len(),
    ensures
        branches_from(list, settings, i, known) is Ok ==> {
            &&& 0 <= p < known.len() && i <= l < list.len() && is_branch_device(settings, list[l])
                ==> !text::eq_ignoring_case(known[p], list[l].name)
            &&& i <= k < l < list.len() && is_branch_device(settings, list[k]) && is_branch_device(
                settings,
                list[l],
            ) ==> !text::eq_ignoring_case(list[k].name, list[l].name)
        },
    decreases list.len() - i,
{
    if i < list.len() {
        if is_branch_device(settings, list[i]) {
            lemma_position(known, list[i].name, 0);
            let more = known.push(list[i].name);
            if position(known, list[i].name, 0) >= known.len() {
                lemma_branches_differ(list, settings, i + 1, more, k, l, p);
                lemma_branches_differ(list, settings, i + 1, more, k, l, known.len() as int);
                assert(more[known.len() as int] == list[i].name);
                if 0 <= p < known.len() {
                    assert(more[p] == known[p]);
                }
            }
        } else {
            lemma_branches_differ(list, settings, i + 1, known, k, l, p);
        }
    }
}

/// No two sources have the same name, letter case aside, and no two devices whose currents are
/// unknowns do.
pub proof fn law_names_are_unique<S: Scalar>(
    cards: Seq<Card>,
    settings: Settings<S>,
    k: int,
    l: int,
)
    requires
        system(cards, settings) is Ok,
        0 <= k < l < devices(cards, cards.len()).len(),
    ensures
        ({
            let first = devices(cards, cards.len())[k];
            let second = devices(cards, cards.len())[l];
            &&& is_source(first) && is_source(second) ==> !text::eq_ignoring_case(
                first.name,
                second.name,
            )
            &&& has_current(settings, first) && has_current(settings, second)
                ==> !text::eq_ignoring_case(first.name, second.name)
        }),
{
    let list = devices(cards, cards.len());
    let none = Inputs::<S> { names: Seq::empty(), values: Seq::empty(), waves: Map::empty() };
    lemma_sources_differ(list, 0, none, k, l, 0);
    lemma_branches_differ(list, settings, 0, Seq::empty(), k, l, 0);
}

/// The current of a device is an unknown of its own.
pub open spec fn has_current<S>(settings: Settings<S>, device: Device) -> bool {
    !is_switch(settings, device) && (device.letter == 'V' || device.letter == 'L' || device.letter
        == 'E' || device.letter == 'H')
}

} // verus!
