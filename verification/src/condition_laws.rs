//! Initial conditions are no part of a circuit's equations.

use crate::circuit::{
    accepts_ic, assembled, assignments_from, branches, branches_from, card_fault, defaults_from,
    device_marks, devices, directive_of, directive_warning, directives_from, effect_from, field, fields_fault,
    has_stamp, ic_field, inductances_from, inductor_named, initial, initial_from, inputs,
    inputs_from, is_input, node_count, nodes, nodes_from, positional, scalar_value, switch_state,
    system, token_fault, unsupported_message, with_input, with_nodes, Conditions, Context, Defaults, Effect,
    Fault, Inputs, Settings,
};
use crate::expr;
use crate::expr::Expr;
use crate::netlist::{Card, Device};
use crate::scalar::Scalar;
use crate::system::{Descriptor, Initial};
use crate::text;
use vstd::prelude::*;

verus! {

/// A token that declares an initial condition.
pub open spec fn is_condition(token: Seq<char>) -> bool {
    field(token) matches Some((key, _)) && key == "ic"@
}

/// The first `n` tokens without those that declare an initial condition.
pub open spec fn kept(params: Seq<Seq<char>>, n: nat) -> Seq<Seq<char>>
    decreases n,
{
    if n == 0 {
        Seq::empty()
    } else if is_condition(params[n - 1]) {
        kept(params, (n - 1) as nat)
    } else {
        kept(params, (n - 1) as nat).push(params[n - 1])
    }
}

/// A capacitor or inductor without its initial condition; any other device as it is.
pub open spec fn unconditioned(device: Device) -> Device {
    if accepts_ic(device.letter) {
        Device { params: kept(device.params, device.params.len()), ..device }
    } else {
        device
    }
}

/// A list of devices without the initial conditions on them.
pub open spec fn unconditioned_list(list: Seq<Device>) -> Seq<Device> {
    Seq::new(list.len(), |i: int| unconditioned(list[i]))
}

/// A netlist without the initial conditions on its devices.
pub open spec fn unconditioned_cards(cards: Seq<Card>) -> Seq<Card> {
    Seq::new(
        cards.len(),
        |i: int|
            match cards[i] {
                Card::Device(device) => Card::Device(unconditioned(device)),
                card => card,
            },
    )
}

// A condition is not a value

proof fn lemma_start_of_prefix(s: Seq<char>, at: int, drop: spec_fn(char) -> bool)
    requires
        0 <= at <= s.len(),
        text::trim_start_by(s.take(at), drop).len() > 0,
    ensures
        text::trim_start_by(s, drop).len() > 0,
        text::trim_start_by(s, drop)[0] == text::trim_start_by(s.take(at), drop)[0],
        !drop(text::trim_start_by(s, drop)[0]),
    decreases s.len(),
{
    let head = s.take(at);
    assert(head[0] == s[0]);
    if drop(s[0]) {
        assert(head.skip(1) =~= s.skip(1).take(at - 1));
        lemma_start_of_prefix(s.skip(1), at - 1, drop);
    }
}

proof fn lemma_start_keeps(s: Seq<char>, c: char, drop: spec_fn(char) -> bool)
    requires
        !drop(c),
        s.contains(c),
    ensures
        text::trim_start_by(s, drop).contains(c),
    decreases s.len(),
{
    if s.len() > 0 && drop(s[0]) {
        let i = choose|i: int| 0 <= i < s.len() && s[i] == c;
        assert(s.skip(1)[i - 1] == c);
        lemma_start_keeps(s.skip(1), c, drop);
    }
}

proof fn lemma_end_keeps(s: Seq<char>, c: char, drop: spec_fn(char) -> bool)
    requires
        !drop(c),
        s.contains(c),
    ensures
        text::trim_end_by(s, drop).contains(c),
        text::trim_end_by(s, drop).len() > 0,
        text::trim_end_by(s, drop)[0] == s[0],
    decreases s.len(),
{
    if s.len() > 0 && drop(s.last()) {
        let i = choose|i: int| 0 <= i < s.len() && s[i] == c;
        assert(i < s.len() - 1);
        assert(s.drop_last()[i] == c);
        lemma_end_keeps(s.drop_last(), c, drop);
    }
}

proof fn lemma_end_is_prefix(s: Seq<char>, drop: spec_fn(char) -> bool)
    ensures
        text::trim_end_by(s, drop).len() <= s.len(),
        text::trim_end_by(s, drop).len() > 0 ==> text::trim_end_by(s, drop)[0] == s[0],
    decreases s.len(),
{
    if s.len() > 0 && drop(s.last()) {
        lemma_end_is_prefix(s.drop_last(), drop);
    }
}

/// A token that declares an initial condition is not a value.
proof fn lemma_condition_is_no_value<S: Scalar>(token: Seq<char>)
    requires
        is_condition(token),
    ensures
        expr::scalar::<S>(token) is Err,
{
    let space = |c: char| text::is_space(c);
    let quote = |c: char| text::is_quote(c);
    let at = text::find(token, '=');
    text::lemma_find(token, '=', 0);
    assert(token[at] == '=');
    let head = token.take(at);
    let key = text::trim(head);
    reveal_strlit("ic");
    assert(text::lower(key).len() == 2 && text::lower(key)[0] == 'i');
    let begun = text::trim_start_by(head, space);
    lemma_end_is_prefix(begun, space);
    assert(key[0] == begun[0]);
    lemma_start_of_prefix(token, at, space);
    let started = text::trim_start_by(token, space);
    assert(started[0] == key[0]);
    assert(key[0] == 'i' || key[0] == 'I');
    lemma_start_keeps(token, '=', space);
    lemma_end_keeps(started, '=', space);
    let trimmed = text::trim(token);
    assert(trimmed[0] == key[0]);
    assert(text::trim_start_by(trimmed, quote) == trimmed);
    lemma_end_keeps(trimmed, '=', quote);
    let inner = text::unquote(trimmed);
    assert(inner[0] == key[0] && inner.contains('='));
    assert(expr::plain_number::<S>(inner) is None);
    assert(expr::first_letter(inner, 0) == 0);
    assert(inner.skip(0) =~= inner);
    assert(text::lower(inner)[0] == 'i');
    assert(expr::suffix_exponent(text::lower(inner.skip(0))) is None);
    assert(!expr::is_simple_symbol(inner)) by {
        let i = choose|i: int| 0 <= i < inner.len() && inner[i] == '=';
        assert(i >= 1);
        assert(!text::is_letter(inner[i]) && !text::is_digit(inner[i]));
    }
}

// Tokens that are kept

proof fn lemma_kept_first(params: Seq<Seq<char>>, n: nat)
    requires
        n <= params.len(),
    ensures
        kept(params, n).len() <= n,
        n > 0 && !is_condition(params[0]) ==> kept(params, n).len() > 0 && kept(params, n)[0]
            == params[0],
    decreases n,
{
    if n > 0 {
        let before = kept(params, (n - 1) as nat);
        lemma_kept_first(params, (n - 1) as nat);
        if !is_condition(params[n - 1]) {
            assert(kept(params, n) == before.push(params[n - 1]));
        }
        if n == 1 {
            assert(before.len() == 0);
        }
    }
}

/// The value of a device is the same without its condition.
proof fn lemma_same_value<S: Scalar>(device: Device)
    requires
        scalar_value::<S>(device) is Ok,
    ensures
        scalar_value::<S>(unconditioned(device)) == scalar_value::<S>(device),
{
    if is_condition(device.params[0]) {
        lemma_condition_is_no_value::<S>(device.params[0]);
    }
    lemma_kept_first(device.params, device.params.len());
}

proof fn lemma_positional_prefix(a: Seq<Seq<char>>, b: Seq<Seq<char>>, n: nat)
    requires
        n <= a.len(),
        n <= b.len(),
        forall|i: int| 0 <= i < n ==> #[trigger] a[i] == b[i],
    ensures
        positional(a, n) == positional(b, n),
    decreases n,
{
    if n > 0 {
        lemma_positional_prefix(a, b, (n - 1) as nat);
    }
}

proof fn lemma_no_token_fault(device: Device, i: int, j: int)
    requires
        0 <= i <= j < device.params.len(),
        card_fault(device, i) is None,
    ensures
        token_fault(device, j) is None,
    decreases j - i,
{
    if i < j {
        lemma_no_token_fault(device, i + 1, j);
    }
}

proof fn lemma_no_card_fault(device: Device, i: int)
    requires
        0 <= i <= device.params.len(),
        forall|j: int| i <= j < device.params.len() ==> #[trigger] token_fault(device, j) is None,
    ensures
        card_fault(device, i) is None,
    decreases device.params.len() - i,
{
    if i < device.params.len() {
        lemma_no_card_fault(device, i + 1);
    }
}

proof fn lemma_kept_has_no_fault(device: Device, n: nat)
    requires
        n <= device.params.len(),
        card_fault(device, 0) is None,
    ensures
        ({
            let less = Device { params: kept(device.params, n), ..device };
            &&& positional(less.params, less.params.len()) == positional(device.params, n)
            &&& forall|j: int|
                0 <= j < less.params.len() ==> #[trigger] token_fault(less, j) is None
        }),
    decreases n,
{
    if n > 0 {
        let m = (n - 1) as nat;
        lemma_kept_has_no_fault(device, m);
        lemma_no_token_fault(device, 0, m as int);
        let before = Device { params: kept(device.params, m), ..device };
        let after = Device { params: kept(device.params, n), ..device };
        if !is_condition(device.params[m as int]) {
            let old_count = before.params.len();
            lemma_positional_prefix(before.params, after.params, old_count);
            assert(after.params.len() == old_count + 1);
            assert(after.params[old_count as int] == device.params[m as int]);
            assert(positional(after.params, old_count + 1) == positional(device.params, n));
            assert forall|j: int| 0 <= j < after.params.len() implies #[trigger] token_fault(
                after,
                j,
            ) is None by {
                if j < old_count {
                    assert(token_fault(before, j) is None);
                    lemma_positional_prefix(before.params, after.params, (j + 1) as nat);
                } else {
                    assert(token_fault(device, m as int) is None);
                }
            }
        }
    }
}

proof fn lemma_kept_has_no_condition(params: Seq<Seq<char>>, n: nat)
    requires
        n <= params.len(),
    ensures
        forall|j: int|
            0 <= j < kept(params, n).len() ==> !is_condition(#[trigger] kept(params, n)[j]),
    decreases n,
{
    if n > 0 {
        let before = kept(params, (n - 1) as nat);
        lemma_kept_has_no_condition(params, (n - 1) as nat);
        if !is_condition(params[n - 1]) {
            let after = kept(params, n);
            assert(after == before.push(params[n - 1]));
            assert forall|j: int| 0 <= j < after.len() implies !is_condition(
                #[trigger] after[j],
            ) by {
                if j < before.len() {
                    assert(!is_condition(before[j]));
                }
            }
        }
    }
}

proof fn lemma_no_ic_field(params: Seq<Seq<char>>, i: int)
    requires
        0 <= i <= params.len(),
        forall|j: int| 0 <= j < params.len() ==> !is_condition(#[trigger] params[j]),
    ensures
        ic_field(params, i) is None,
    decreases params.len() - i,
{
    if i < params.len() {
        assert(!is_condition(params[i]));
        lemma_no_ic_field(params, i + 1);
    }
}

// The parts of a circuit

proof fn lemma_devices(cards: Seq<Card>, n: nat)
    requires
        n <= cards.len(),
    ensures
        devices(unconditioned_cards(cards), n) == unconditioned_list(devices(cards, n)),
    decreases n,
{
    if n == 0 {
        assert(devices(unconditioned_cards(cards), 0) =~= unconditioned_list(devices(cards, 0)));
    } else {
        lemma_devices(cards, (n - 1) as nat);
        assert(devices(unconditioned_cards(cards), n) =~= unconditioned_list(devices(cards, n)));
    }
}

proof fn lemma_same_names<S>(
    list: Seq<Device>,
    settings: Settings<S>,
    i: int,
    known: Seq<Seq<char>>,
)
    ensures
        nodes_from(unconditioned_list(list), settings, i, known) == nodes_from(
            list,
            settings,
            i,
            known,
        ),
        branches_from(unconditioned_list(list), settings, i, known) == branches_from(
            list,
            settings,
            i,
            known,
        ),
    decreases list.len() - i,
{
    if 0 <= i < list.len() {
        assert(unconditioned_list(list)[i] == unconditioned(list[i]));
        lemma_same_names(
            list,
            settings,
            i + 1,
            with_nodes(known, list[i].nodes, node_count(settings, list[i]), 0),
        );
        lemma_same_names(list, settings, i + 1, known.push(list[i].name));
        lemma_same_names(list, settings, i + 1, known);
    }
}

proof fn lemma_same_fields<S>(list: Seq<Device>, settings: Settings<S>, i: int)
    requires
        0 <= i <= list.len(),
        fields_fault(list, settings, i) is None,
    ensures
        fields_fault(unconditioned_list(list), settings, i) is None,
    decreases list.len() - i,
{
    if i < list.len() {
        let device = list[i];
        assert(unconditioned_list(list)[i] == unconditioned(device));
        if switch_state(settings, device) is Some || crate::circuit::is_stamped_letter(
            device.letter,
        ) {
            if accepts_ic(device.letter) {
                lemma_kept_has_no_fault(device, device.params.len());
                lemma_no_card_fault(unconditioned(device), 0);
            }
        }
        lemma_same_fields(list, settings, i + 1);
    }
}

proof fn lemma_same_inputs<S: Scalar>(list: Seq<Device>, i: int, known: Inputs<S>)
    ensures
        inputs_from(unconditioned_list(list), i, known) == inputs_from(list, i, known),
    decreases list.len() - i,
{
    if 0 <= i < list.len() {
        assert(unconditioned_list(list)[i] == unconditioned(list[i]));
        if is_input(list[i].letter) {
            if let Ok(more) = with_input(known, list[i]) {
                lemma_same_inputs(list, i + 1, more);
            }
        } else {
            lemma_same_inputs(list, i + 1, known);
        }
    }
}

proof fn lemma_same_inductances<S: Scalar>(
    list: Seq<Device>,
    i: int,
    found: Seq<(Seq<char>, Expr<S>)>,
)
    requires
        inductances_from(list, i, found) is Ok,
    ensures
        inductances_from(unconditioned_list(list), i, found) == inductances_from(list, i, found),
    decreases list.len() - i,
{
    if 0 <= i < list.len() {
        assert(unconditioned_list(list)[i] == unconditioned(list[i]));
        if list[i].letter == 'L' {
            lemma_same_value::<S>(list[i]);
            let value = scalar_value::<S>(list[i])->Ok_0;
            lemma_same_inductances(list, i + 1, found.push((list[i].name, value)));
        } else {
            lemma_same_inductances(list, i + 1, found);
        }
    }
}

proof fn lemma_same_marks<S: Scalar>(context: Context<S>, device: Device)
    requires
        device_marks(context, device) is Ok,
    ensures
        device_marks(context, unconditioned(device)) == device_marks(context, device),
{
    let less = unconditioned(device);
    assert(switch_state(context.settings, less) == switch_state(context.settings, device));
    if accepts_ic(device.letter) && switch_state(context.settings, device) is None {
        lemma_same_value::<S>(device);
    }
}

proof fn lemma_same_effect<S: Scalar>(
    context: Context<S>,
    list: Seq<Device>,
    i: int,
    before: Effect<S>,
)
    requires
        effect_from(context, list, i, before) is Ok,
    ensures
        effect_from(context, unconditioned_list(list), i, before) == effect_from(
            context,
            list,
            i,
            before,
        ),
    decreases list.len() - i,
{
    if 0 <= i < list.len() {
        let device = list[i];
        assert(unconditioned_list(list)[i] == unconditioned(device));
        if has_stamp(context.settings, device) {
            lemma_same_marks(context, device);
            let more = device_marks(context, device)->Ok_0;
            lemma_same_effect(
                context,
                list,
                i + 1,
                Effect { marks: before.marks + more, warnings: before.warnings },
            );
        } else {
            lemma_same_effect(
                context,
                list,
                i + 1,
                Effect {
                    marks: before.marks,
                    warnings: before.warnings.push(unsupported_message(device)),
                },
            );
        }
    }
}

proof fn lemma_same_defaults<S: Scalar>(cards: Seq<Card>, i: int, defaults: Defaults<S>)
    ensures
        defaults_from(unconditioned_cards(cards), i, defaults) == defaults_from(
            cards,
            i,
            defaults,
        ),
    decreases cards.len() - i,
{
    if 0 <= i < cards.len() {
        let next = match cards[i] {
            Card::Param(assignments) => crate::circuit::assigned_from(assignments, 0, defaults),
            _ => defaults,
        };
        lemma_same_defaults(cards, i + 1, next);
    }
}

// The conditions

proof fn lemma_no_conditions<S: Scalar>(
    list: Seq<Device>,
    settings: Settings<S>,
    node_list: Seq<Seq<char>>,
    branch_list: Seq<Seq<char>>,
    i: int,
    found: Seq<Initial<S>>,
)
    ensures
        initial_from(unconditioned_list(list), settings, node_list, branch_list, i, found) == Ok::<
            Seq<Initial<S>>,
            Fault,
        >(found),
    decreases list.len() - i,
{
    if 0 <= i < list.len() {
        let device = list[i];
        assert(unconditioned_list(list)[i] == unconditioned(device));
        if accepts_ic(device.letter) {
            lemma_kept_has_no_condition(device.params, device.params.len());
            lemma_no_ic_field(unconditioned(device).params, 0);
        }
        lemma_no_conditions(list, settings, node_list, branch_list, i + 1, found);
    }
}

proof fn lemma_same_inductor(list: Seq<Device>, name: Seq<char>, i: int)
    ensures
        inductor_named(unconditioned_list(list), name, i) == inductor_named(list, name, i),
    decreases list.len() - i,
{
    if 0 <= i < list.len() {
        assert(unconditioned_list(list)[i] == unconditioned(list[i]));
        lemma_same_inductor(list, name, i + 1);
    }
}

proof fn lemma_same_directive<S: Scalar>(
    list: Seq<Device>,
    node_list: Seq<Seq<char>>,
    branch_list: Seq<Seq<char>>,
    key: Seq<char>,
    raw: Seq<char>,
)
    ensures
        directive_of::<S>(unconditioned_list(list), node_list, branch_list, key, raw)
            == directive_of::<S>(list, node_list, branch_list, key, raw),
{
    if let Some(crate::circuit::Fixed::Current(name)) = crate::circuit::fixed(key) {
        lemma_same_inductor(list, name, 0);
    }
}

/// The same conditions with some more before them.
spec fn after<S>(before: Seq<Initial<S>>, less: Conditions<S>) -> Conditions<S> {
    Conditions { found: before + less.found, ignored: less.ignored }
}

proof fn lemma_same_assignments<S: Scalar>(
    list: Seq<Device>,
    node_list: Seq<Seq<char>>,
    branch_list: Seq<Seq<char>>,
    line: usize,
    pairs: Seq<(Seq<char>, Seq<char>)>,
    j: int,
    before: Seq<Initial<S>>,
    less: Conditions<S>,
)
    ensures
        assignments_from(list, node_list, branch_list, line, pairs, j, after(before, less))
            == after(
            before,
            assignments_from(
                unconditioned_list(list),
                node_list,
                branch_list,
                line,
                pairs,
                j,
                less,
            ),
        ),
    decreases pairs.len() - j,
{
    if 0 <= j < pairs.len() {
        lemma_same_directive::<S>(list, node_list, branch_list, pairs[j].0, pairs[j].1);
        match directive_of::<S>(list, node_list, branch_list, pairs[j].0, pairs[j].1) {
            Ok(more) => {
                assert((before + less.found).push(more) =~= before + less.found.push(more));
                lemma_same_assignments(
                    list,
                    node_list,
                    branch_list,
                    line,
                    pairs,
                    j + 1,
                    before,
                    Conditions { found: less.found.push(more), ignored: less.ignored },
                );
            },
            Err(message) => {
                lemma_same_assignments(
                    list,
                    node_list,
                    branch_list,
                    line,
                    pairs,
                    j + 1,
                    before,
                    Conditions {
                        found: less.found,
                        ignored: less.ignored.push(directive_warning(line, message)),
                    },
                );
            },
        }
    }
}

proof fn lemma_same_directives<S: Scalar>(
    cards: Seq<Card>,
    list: Seq<Device>,
    node_list: Seq<Seq<char>>,
    branch_list: Seq<Seq<char>>,
    i: int,
    before: Seq<Initial<S>>,
    less: Conditions<S>,
)
    ensures
        directives_from(cards, list, node_list, branch_list, i, after(before, less)) == after(
            before,
            directives_from(
                unconditioned_cards(cards),
                unconditioned_list(list),
                node_list,
                branch_list,
                i,
                less,
            ),
        ),
    decreases cards.len() - i,
{
    if 0 <= i < cards.len() {
        let next = match cards[i] {
            Card::Ic(pairs, line, _) => {
                lemma_same_assignments(
                    list,
                    node_list,
                    branch_list,
                    line,
                    pairs,
                    0,
                    before,
                    less,
                );
                assignments_from(
                    unconditioned_list(list),
                    node_list,
                    branch_list,
                    line,
                    pairs,
                    0,
                    less,
                )
            },
            _ => less,
        };
        lemma_same_directives(cards, list, node_list, branch_list, i + 1, before, next);
    }
}

/// There is no `.ic` directive among the cards.
pub open spec fn undirected(cards: Seq<Card>) -> bool {
    forall|i: int| 0 <= i < cards.len() ==> !(#[trigger] cards[i] is Ic)
}

proof fn lemma_no_directives<S: Scalar>(
    cards: Seq<Card>,
    list: Seq<Device>,
    node_list: Seq<Seq<char>>,
    branch_list: Seq<Seq<char>>,
    i: int,
    before: Conditions<S>,
)
    requires
        undirected(cards),
    ensures
        directives_from(cards, list, node_list, branch_list, i, before) == before,
    decreases cards.len() - i,
{
    if 0 <= i < cards.len() {
        assert(!(cards[i] is Ic));
        lemma_no_directives(cards, list, node_list, branch_list, i + 1, before);
    }
}

/// Initial conditions never change the equations: a netlist without the `ic=` fields on its
/// capacitors and inductors has the same system, in everything but the initial conditions. Of
/// these only those of `.ic` directives are left.
pub proof fn law_conditions_are_no_part_of_the_equations<S: Scalar>(
    cards: Seq<Card>,
    settings: Settings<S>,
)
    ensures
        system(cards, settings) matches Ok(d) ==> (system(unconditioned_cards(cards), settings)
            matches Ok(e) && e == (Descriptor { initial: e.initial, ..d }) && e.initial.len()
            <= d.initial.len() && e.initial == d.initial.skip(
            d.initial.len() - e.initial.len(),
        ) && (undirected(cards) ==> e.initial.len() == 0)),
{
    if let Ok(d) = system(cards, settings) {
        let less = unconditioned_cards(cards);
        let list = devices(cards, cards.len());
        let node_list = nodes(list, settings);
        let none = Seq::<Initial<S>>::empty();
        let nothing = Conditions::<S> { found: none, ignored: Seq::empty() };
        lemma_devices(cards, cards.len());
        assert(devices(less, less.len()) == unconditioned_list(list));
        lemma_same_names(list, settings, 0, Seq::empty());
        lemma_same_fields(list, settings, 0);
        lemma_same_inputs::<S>(
            list,
            0,
            Inputs { names: Seq::empty(), values: Seq::empty(), waves: Map::empty() },
        );
        let branch_list = branches(list, settings)->Ok_0;
        let sources = inputs::<S>(list)->Ok_0;
        lemma_no_conditions(list, settings, node_list, branch_list, 0, none);
        let declared = initial_from(list, settings, node_list, branch_list, 0, none)->Ok_0;
        assert(declared + none =~= declared);
        lemma_same_directives(cards, list, node_list, branch_list, 0, declared, nothing);
        let left = initial::<S>(less, settings, node_list, branch_list)->Ok_0;
        assert(d.initial == declared + left.found);
        assert(left.found =~= d.initial.skip(declared.len() as int));
        if undirected(cards) {
            assert forall|i: int| 0 <= i < less.len() implies !(#[trigger] less[i] is Ic) by {
                assert(!(cards[i] is Ic));
            }
            lemma_no_directives(
                less,
                unconditioned_list(list),
                node_list,
                branch_list,
                0,
                nothing,
            );
        }
        lemma_same_inductances::<S>(list, 0, Seq::empty());
        let inductances = inductances_from::<S>(list, 0, Seq::empty())->Ok_0;
        let context = Context {
            settings,
            nodes: node_list,
            branches: branch_list,
            inputs: sources.names,
            inductances,
        };
        let start = Effect { marks: Seq::empty(), warnings: Seq::empty() };
        lemma_same_effect(context, list, 0, start);
        let effect = effect_from(context, list, 0, start)->Ok_0;
        lemma_same_defaults::<S>(
            cards,
            0,
            Defaults { values: Map::empty(), warnings: effect.warnings },
        );
        assert(system(less, settings) == Ok::<Descriptor<S>, Fault>(
            assembled(less, node_list, branch_list, sources, left, effect),
        ));
    }
}

} // verus!
