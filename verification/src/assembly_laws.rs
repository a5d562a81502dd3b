//! What is kept when parts are put together: of the lines of a complete system, of the phases
//! of an average, and of the flags of a configuration.

use crate::averaging::{
    averaged, first_mismatch, joined_parameters, joined_warnings, joined_waves, AveragingError,
};
use crate::block_graph::half;
use crate::block_kinds::{declared, Declared, IdealDiode, IdealSwitch};
use crate::circuit::SwitchState;
use crate::configuration::{configured, flagged};
use crate::expr;
use crate::expr::Expr;
use crate::field::{exact, lemma_distributes, lemma_product_one, lemma_quotient};
use crate::netlist::{Block, Card};
use crate::scalar::Scalar;
use crate::system::Descriptor;
use crate::system_builder::{model, no_parts, parts_from, with_block, Parts};
use crate::text;
use vstd::prelude::*;

verus! {

// Complete systems

/// The line at `c` declares a diode.
pub open spec fn declares_diode<S: Scalar>(
    list: Seq<Card>,
    c: int,
    name: Seq<char>,
    diode: IdealDiode<S>,
) -> bool {
    &&& 0 <= c < list.len()
    &&& list[c] matches Card::Block(block) && block.name == name && declared::<S>(block) == Ok::<
        Declared<S>,
        Seq<char>,
    >(Declared::IdealDiode(diode))
}

/// The line at `c` declares a switch and what drives it.
pub open spec fn declares_switch<S: Scalar>(
    list: Seq<Card>,
    c: int,
    name: Seq<char>,
    switch: IdealSwitch<S>,
    driver: Seq<char>,
) -> bool {
    &&& 0 <= c < list.len()
    &&& list[c] matches Card::Block(block) && block.name == name && declared::<S>(block) == Ok::<
        Declared<S>,
        Seq<char>,
    >(Declared::IdealSwitch { switch, driver })
}

/// The line at `c` declares some diode of that name.
pub open spec fn names_diode<S: Scalar>(list: Seq<Card>, c: int, name: Seq<char>) -> bool {
    exists|diode: IdealDiode<S>| declares_diode(list, c, name, diode)
}

/// The line at `c` declares some switch of that name.
pub open spec fn names_switch<S: Scalar>(list: Seq<Card>, c: int, name: Seq<char>) -> bool {
    exists|switch: IdealSwitch<S>, driver: Seq<char>|
        declares_switch(list, c, name, switch, driver)
}

/// The line at `c` declares some switch.
pub open spec fn is_switch_line<S: Scalar>(list: Seq<Card>, c: int) -> bool {
    &&& 0 <= c < list.len()
    &&& list[c] matches Card::Block(block) && declared::<S>(block) matches Ok(
        Declared::IdealSwitch { .. },
    )
}

proof fn lemma_diodes<S: Scalar>(
    list: Seq<Card>,
    i: int,
    parts: Parts<S>,
    name: Seq<char>,
    c: int,
    diode: IdealDiode<S>,
)
    requires
        0 <= i <= list.len(),
    ensures
        parts_from(list, i, parts) matches Ok(all) ==> {
            &&& (forall|later: int| i <= later ==> !#[trigger] names_diode::<S>(list, later, name))
                ==> all.ideal_diodes.contains_key(name) == parts.ideal_diodes.contains_key(name)
                && (parts.ideal_diodes.contains_key(name) ==> all.ideal_diodes[name]
                == parts.ideal_diodes[name])
            &&& i <= c && declares_diode(list, c, name, diode) && (forall|later: int|
                c < later ==> !#[trigger] names_diode::<S>(list, later, name))
                ==> all.ideal_diodes.contains_key(name) && all.ideal_diodes[name] == diode
        },
    decreases list.len() - i,
{
    if i < list.len() {
        match list[i] {
            Card::Block(block) => {
                if let Ok(next) = with_block(list, block, parts) {
                    lemma_diodes(list, i + 1, next, name, c, diode);
                    if let Ok(Declared::IdealDiode(own)) = declared::<S>(block) {
                        if block.name == name {
                            assert(declares_diode(list, i, name, own));
                            assert(names_diode::<S>(list, i, name));
                        }
                    }
                }
            },
            _ => lemma_diodes(list, i + 1, parts, name, c, diode),
        }
    }
}

proof fn lemma_switches<S: Scalar>(
    list: Seq<Card>,
    i: int,
    parts: Parts<S>,
    name: Seq<char>,
    c: int,
    switch: IdealSwitch<S>,
    driver: Seq<char>,
)
    requires
        0 <= i <= list.len(),
    ensures
        parts_from(list, i, parts) matches Ok(all) ==> {
            &&& (forall|later: int|
                i <= later ==> !#[trigger] names_switch::<S>(list, later, name)) ==> {
                &&& all.ideal_switches.contains_key(name) == parts.ideal_switches.contains_key(name)
                &&& all.gates.contains_key(name) == parts.gates.contains_key(name)
                &&& parts.ideal_switches.contains_key(name) ==> all.ideal_switches[name]
                    == parts.ideal_switches[name]
                &&& parts.gates.contains_key(name) ==> all.gates[name] == parts.gates[name]
            }
            &&& i <= c && declares_switch(list, c, name, switch, driver) && (forall|later: int|
                c < later ==> !#[trigger] names_switch::<S>(list, later, name)) ==> {
                &&& all.ideal_switches.contains_key(name)
                &&& all.ideal_switches[name] == switch
                &&& all.gates.contains_key(name)
                &&& all.gates[name] == driver
            }
        },
    decreases list.len() - i,
{
    if i < list.len() {
        match list[i] {
            Card::Block(block) => {
                if let Ok(next) = with_block(list, block, parts) {
                    lemma_switches(list, i + 1, next, name, c, switch, driver);
                    if let Ok(Declared::IdealSwitch { switch: own, driver: by }) = declared::<S>(
                        block,
                    ) {
                        if block.name == name {
                            assert(declares_switch(list, i, name, own, by));
                            assert(names_switch::<S>(list, i, name));
                        }
                    }
                }
            },
            _ => lemma_switches(list, i + 1, parts, name, c, switch, driver),
        }
    }
}

proof fn lemma_shared<S: Scalar>(
    list: Seq<Card>,
    i: int,
    parts: Parts<S>,
    name: Seq<char>,
    c: int,
    switch: IdealSwitch<S>,
    driver: Seq<char>,
)
    requires
        0 <= i <= list.len(),
    ensures
        parts_from(list, i, parts) matches Ok(all) ==> {
            &&& parts.r_on is Some ==> all.r_on == parts.r_on
            &&& parts.r_on is None && (forall|other: int|
                i <= other ==> !#[trigger] is_switch_line::<S>(list, other)) ==> all.r_on is None
            &&& parts.r_on is None && i <= c && declares_switch(list, c, name, switch, driver) && (
            forall|other: int| i <= other < c ==> !#[trigger] is_switch_line::<S>(list, other))
                ==> all.r_on == Some(switch.r_on)
        },
    decreases list.len() - i,
{
    if i < list.len() {
        match list[i] {
            Card::Block(block) => {
                if let Ok(next) = with_block(list, block, parts) {
                    lemma_shared(list, i + 1, next, name, c, switch, driver);
                    if let Ok(Declared::IdealSwitch { switch: own, driver: by }) = declared::<S>(
                        block,
                    ) {
                        assert(is_switch_line::<S>(list, i));
                    }
                }
            },
            _ => lemma_shared(list, i + 1, parts, name, c, switch, driver),
        }
    }
}

/// The diode of a name is the one that the last line of that name declares, and there is none
/// where no line declares one.
pub proof fn law_diodes_are_found_by_name<S: Scalar>(
    list: Seq<Card>,
    name: Seq<char>,
    c: int,
    diode: IdealDiode<S>,
)
    ensures
        model::<S>(list) matches Ok(system) ==> {
            &&& declares_diode(list, c, name, diode) && (forall|later: int|
                c < later ==> !#[trigger] names_diode::<S>(list, later, name))
                ==> system.ideal_diodes.contains_key(name) && system.ideal_diodes[name] == diode
            &&& (forall|other: int| !#[trigger] names_diode::<S>(list, other, name))
                ==> !system.ideal_diodes.contains_key(name)
        },
{
    lemma_diodes(list, 0, no_parts(), name, c, diode);
}

/// The switch of a name and its gate are those that the last line of that name declares, and
/// there is none where no line declares one.
pub proof fn law_switches_are_found_by_name<S: Scalar>(
    list: Seq<Card>,
    name: Seq<char>,
    c: int,
    switch: IdealSwitch<S>,
    driver: Seq<char>,
)
    ensures
        model::<S>(list) matches Ok(system) ==> {
            &&& declares_switch(list, c, name, switch, driver) && (forall|later: int|
                c < later ==> !#[trigger] names_switch::<S>(list, later, name)) ==> {
                &&& system.ideal_switches.contains_key(name)
                &&& system.ideal_switches[name] == switch
                &&& system.gates.contains_key(name)
                &&& system.gates[name] == driver
            }
            &&& (forall|other: int| !#[trigger] names_switch::<S>(list, other, name))
                ==> !system.ideal_switches.contains_key(name) && !system.gates.contains_key(name)
        },
{
    lemma_switches(list, 0, no_parts(), name, c, switch, driver);
}

/// The shared on-resistance is that of the first switch, and zero where there is none.
pub proof fn law_first_switch_sets_the_resistance<S: Scalar>(
    list: Seq<Card>,
    name: Seq<char>,
    c: int,
    switch: IdealSwitch<S>,
    driver: Seq<char>,
)
    ensures
        model::<S>(list) matches Ok(system) ==> {
            &&& declares_switch(list, c, name, switch, driver) && (forall|other: int|
                0 <= other < c ==> !#[trigger] is_switch_line::<S>(list, other))
                ==> system.shared_r_on == switch.r_on
            &&& (forall|other: int| !#[trigger] is_switch_line::<S>(list, other))
                ==> system.shared_r_on == S::nought()
        },
{
    lemma_shared(list, 0, no_parts(), name, c, switch, driver);
}

/// A gate turns on at one half: twice the threshold is one.
pub proof fn law_threshold_is_one_half<S: Scalar>()
    requires
        exact::<S>(),
        S::unit().sum(S::unit()) != S::nought(),
    ensures
        half::<S>().sum(half::<S>()) == S::unit(),
{
    let two = S::unit().sum(S::unit());
    let h = half::<S>();
    lemma_quotient(S::unit(), two);
    lemma_distributes(h, S::unit(), S::unit());
    lemma_product_one(h);
}

// Averages

/// Two systems have the same unknowns and the same inputs.
pub open spec fn is_alike<S>(first: Descriptor<S>, other: Descriptor<S>) -> bool {
    first.unknowns == other.unknowns && first.inputs == other.inputs
}

proof fn lemma_mismatch<S: Scalar>(phases: Seq<(Descriptor<S>, Expr<S>)>, i: int)
    requires
        0 <= i <= phases.len(),
    ensures
        first_mismatch(phases, i) is None <==> forall|k: int|
            i <= k < phases.len() ==> is_alike(phases[0].0, (#[trigger] phases[k]).0),
    decreases phases.len() - i,
{
    if i < phases.len() {
        lemma_mismatch(phases, i + 1);
        if first_mismatch(phases, i) is None {
            assert forall|k: int| i <= k < phases.len() implies is_alike(
                phases[0].0,
                (#[trigger] phases[k]).0,
            ) by {
                if k > i {
                    assert(is_alike(phases[0].0, phases[k].0));
                }
            }
        }
    }
}

/// Phases can be averaged where there is one and all have the same unknowns and inputs. The
/// average has those unknowns and inputs too, the input values of the first phase, and no
/// initial conditions.
pub proof fn law_alike_phases_are_averaged<S: Scalar>(
    phases: Seq<(Descriptor<S>, Expr<S>)>,
    i: int,
)
    ensures
        averaged(phases) is Ok <==> phases.len() > 0 && forall|k: int|
            0 <= k < phases.len() ==> is_alike(phases[0].0, (#[trigger] phases[k]).0),
        phases.len() == 0 ==> averaged(phases) == Err::<Descriptor<S>, AveragingError>(
            AveragingError::NoPhases,
        ),
        averaged(phases) matches Ok(average) ==> {
            &&& 0 <= i < phases.len() ==> is_alike(phases[i].0, average)
            &&& average.input_values == phases[0].0.input_values
            &&& average.initial.len() == 0
        },
{
    if phases.len() > 0 {
        lemma_mismatch(phases, 1);
        if averaged(phases) is Ok {
            assert forall|k: int| 0 <= k < phases.len() implies is_alike(
                phases[0].0,
                (#[trigger] phases[k]).0,
            ) by {
                if k > 0 {
                    assert(is_alike(phases[0].0, phases[k].0));
                }
            }
            if 0 <= i < phases.len() {
                assert(is_alike(phases[0].0, phases[i].0));
            }
        }
    }
}

proof fn lemma_joined<S: Scalar>(
    phases: Seq<(Descriptor<S>, Expr<S>)>,
    n: nat,
    i: int,
    name: Seq<char>,
)
    requires
        n <= phases.len(),
    ensures
        0 <= i < n && phases[i].0.parameters.contains_key(name) && (forall|later: int|
            i < later < n ==> !(#[trigger] phases[later]).0.parameters.contains_key(name))
            ==> joined_parameters(phases, n).contains_key(name) && joined_parameters(
            phases,
            n,
        )[name] == phases[i].0.parameters[name],
        (forall|other: int|
            0 <= other < n ==> !(#[trigger] phases[other]).0.parameters.contains_key(name))
            ==> !joined_parameters(phases, n).contains_key(name),
        0 <= i < n && phases[i].0.transients.contains_key(name) && (forall|later: int|
            i < later < n ==> !(#[trigger] phases[later]).0.transients.contains_key(name))
            ==> joined_waves(phases, n).contains_key(name) && joined_waves(phases, n)[name]
            == phases[i].0.transients[name],
        (forall|other: int|
            0 <= other < n ==> !(#[trigger] phases[other]).0.transients.contains_key(name))
            ==> !joined_waves(phases, n).contains_key(name),
    decreases n,
{
    if n > 0 {
        lemma_joined(phases, (n - 1) as nat, i, name);
        let last = phases[n - 1];
    }
}

/// A parameter of an average has the default of the last phase that has one for it, and a
/// source the wave of the last phase that has one for it.
pub proof fn law_last_phase_counts<S: Scalar>(
    phases: Seq<(Descriptor<S>, Expr<S>)>,
    i: int,
    name: Seq<char>,
)
    ensures
        averaged(phases) matches Ok(average) ==> {
            &&& 0 <= i < phases.len() && phases[i].0.parameters.contains_key(name) && (forall|
                later: int,
            |
                i < later < phases.len() ==> !(
                #[trigger] phases[later]).0.parameters.contains_key(name))
                ==> average.parameters.contains_key(name) && average.parameters[name]
                == phases[i].0.parameters[name]
            &&& (forall|other: int|
                0 <= other < phases.len() ==> !(
                #[trigger] phases[other]).0.parameters.contains_key(name))
                ==> !average.parameters.contains_key(name)
            &&& 0 <= i < phases.len() && phases[i].0.transients.contains_key(name) && (forall|
                later: int,
            |
                i < later < phases.len() ==> !(
                #[trigger] phases[later]).0.transients.contains_key(name))
                ==> average.transients.contains_key(name) && average.transients[name]
                == phases[i].0.transients[name]
            &&& (forall|other: int|
                0 <= other < phases.len() ==> !(
                #[trigger] phases[other]).0.transients.contains_key(name))
                ==> !average.transients.contains_key(name)
        },
{
    lemma_joined(phases, phases.len(), i, name);
}

proof fn lemma_joined_prefix<S: Scalar>(
    a: Seq<(Descriptor<S>, Expr<S>)>,
    b: Seq<(Descriptor<S>, Expr<S>)>,
    n: nat,
)
    requires
        n <= a.len(),
        n <= b.len(),
        forall|i: int| 0 <= i < n ==> a[i] == b[i],
    ensures
        joined_warnings(a, n) == joined_warnings(b, n),
    decreases n,
{
    if n > 0 {
        lemma_joined_prefix(a, b, (n - 1) as nat);
    }
}

/// One phase more adds its warnings behind the others, each with the number of the phase,
/// counted from one.
pub proof fn law_warnings_name_their_phase<S: Scalar>(
    phases: Seq<(Descriptor<S>, Expr<S>)>,
    system: Descriptor<S>,
    weight: Expr<S>,
    i: int,
)
    requires
        averaged(phases.push((system, weight))) is Ok,
        0 <= i < system.warnings.len(),
    ensures
        ({
            let before: Seq<Seq<char>> = if phases.len() == 0 {
                Seq::empty()
            } else {
                averaged(phases)->Ok_0.warnings
            };
            let average = averaged(phases.push((system, weight)))->Ok_0;
            &&& phases.len() > 0 ==> averaged(phases) is Ok
            &&& average.warnings.len() == before.len() + system.warnings.len()
            &&& average.warnings.take(before.len() as int) == before
            &&& average.warnings[before.len() + i] == "phase "@ + text::decimal(phases.len() + 1)
                + ": "@ + system.warnings[i]
        }),
{
    let more = phases.push((system, weight));
    let n = phases.len();
    law_alike_phases_are_averaged(more, 0);
    law_alike_phases_are_averaged(phases, 0);
    if n > 0 {
        assert forall|k: int| 0 <= k < phases.len() implies is_alike(
            phases[0].0,
            (#[trigger] phases[k]).0,
        ) by {
            assert(is_alike(more[0].0, more[k].0));
            assert(more[k] == phases[k]);
            assert(more[0] == phases[0]);
        }
    }
    lemma_joined_prefix(more, phases, n);
    let joined = joined_warnings(phases, n);
    assert(more[n as int] == (system, weight));
    let average = averaged(more)->Ok_0;
    assert(average.warnings == joined_warnings(more, more.len()));
    assert(more.len() == n + 1);
    assert((more.len() - 1) as nat == n);
    assert(average.warnings.take(joined.len() as int) =~= joined);
    if n == 0 {
        assert(joined =~= Seq::empty());
    }
}

// Configurations

/// Two names are the same, letter case aside.
pub open spec fn is_same_name(a: Seq<char>, b: Seq<char>) -> bool {
    text::upper(a) == text::upper(b)
}

proof fn lemma_flagged(flags: Seq<(String, bool)>, n: nat, i: int, name: Seq<char>)
    requires
        n <= flags.len(),
    ensures
        0 <= i < n && is_same_name(flags[i].0@, name) && (forall|later: int|
            i < later < n ==> !is_same_name((#[trigger] flags[later]).0@, name)) ==> flagged(
            flags,
            n,
        ).contains_key(text::upper(name)) && (flagged(flags, n)[text::upper(name)]
            == SwitchState::On <==> flags[i].1),
        (forall|other: int| 0 <= other < n ==> !is_same_name((#[trigger] flags[other]).0@, name))
            ==> !flagged(flags, n).contains_key(text::upper(name)),
    decreases n,
{
    if n > 0 {
        lemma_flagged(flags, (n - 1) as nat, i, name);
        let last = flags[n - 1];
        assert(is_same_name(last.0@, name) <==> text::upper(last.0@) == text::upper(name));
    }
}

/// A configuration takes a device as a switch where a flag has its name, letter case aside, and
/// the last such flag says whether it is on. The resistances are the given ones, and a device
/// without a model is an error.
pub proof fn law_last_flag_counts<S: Scalar>(
    flags: Seq<(String, bool)>,
    on: Seq<char>,
    off: Seq<char>,
    i: int,
    name: Seq<char>,
)
    ensures
        configured::<S>(flags, on, off) is Ok <==> expr::scalar::<S>(on) is Ok && expr::scalar::<S>(
            off,
        ) is Ok,
        configured::<S>(flags, on, off) matches Ok(settings) ==> {
            &&& expr::scalar::<S>(on) == Ok::<Expr<S>, Seq<char>>(settings.on)
            &&& expr::scalar::<S>(off) == Ok::<Expr<S>, Seq<char>>(settings.off)
            &&& !settings.skip_unsupported
            &&& 0 <= i < flags.len() && is_same_name(flags[i].0@, name) && (forall|later: int|
                i < later < flags.len() ==> !is_same_name((#[trigger] flags[later]).0@, name))
                ==> settings.switches.contains_key(text::upper(name)) && (
            settings.switches[text::upper(name)] == SwitchState::On <==> flags[i].1)
            &&& (forall|other: int|
                0 <= other < flags.len() ==> !is_same_name((#[trigger] flags[other]).0@, name))
                ==> !settings.switches.contains_key(text::upper(name))
        },
{
    lemma_flagged(flags, flags.len(), i, name);
}

} // verus!
