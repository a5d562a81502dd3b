//! What holds of every complete system.

use crate::block_graph::Instance;
use crate::block_kinds::{declared, Declared};
use crate::builder::{accepted, system_of_lines};
use crate::circuit::{default_settings, Fault};
use crate::hierarchy_laws::{all_flat, law_flat_netlist_is_kept};
use crate::netlist::{Block, Card};
use crate::scalar::Scalar;
use crate::system::Descriptor;
use crate::system_builder::{
    model, model_of_lines, no_parts, parts_from, with_block, with_switch, Parts,
};
use vstd::prelude::*;

verus! {

/// The signal blocks that the first `n` statements declare, in order.
pub open spec fn declared_blocks<S: Scalar>(list: Seq<Card>, n: nat) -> Seq<Instance<S>>
    decreases n,
{
    if n == 0 {
        Seq::empty()
    } else {
        let before = declared_blocks(list, (n - 1) as nat);
        match list[n - 1] {
            Card::Block(block) => match declared::<S>(block) {
                Ok(Declared::Block(instance)) => before.push(instance),
                _ => before,
            },
            _ => before,
        }
    }
}

/// Two on-resistances count as one.
pub open spec fn agrees<S: Scalar>(first: S, other: S) -> bool {
    !S::decade(-15).below(first.difference(other).magnitude())
}

/// Every switch has a gate and every gate a switch; and where there is a switch, all but the
/// first agree with the first one's on-resistance.
spec fn consistent<S: Scalar>(parts: Parts<S>) -> bool {
    &&& forall|name: Seq<char>|
        #[trigger] parts.ideal_switches.contains_key(name) <==> parts.gates.contains_key(name)
    &&& forall|name: Seq<char>| #[trigger]
        parts.ideal_switches.contains_key(name) ==> parts.r_on is Some && (
        parts.ideal_switches[name].r_on == parts.r_on->0 || agrees(
            parts.r_on->0,
            parts.ideal_switches[name].r_on,
        ))
}

proof fn lemma_with_block<S: Scalar>(list: Seq<Card>, block: Block, parts: Parts<S>)
    requires
        consistent(parts),
    ensures
        with_block(list, block, parts) matches Ok(more) ==> {
            &&& consistent(more)
            &&& more.blocks == (match declared::<S>(block) {
                Ok(Declared::Block(instance)) => parts.blocks.push(instance),
                _ => parts.blocks,
            })
        },
{
    if let Ok(more) = with_block(list, block, parts) {
        match declared::<S>(block) {
            Ok(Declared::IdealSwitch { switch, driver }) => {
                assert(with_switch(block.name, switch, driver, parts) is Ok);
                assert forall|name: Seq<char>| #[trigger]
                    more.ideal_switches.contains_key(name) implies more.r_on is Some && (
                more.ideal_switches[name].r_on == more.r_on->0 || agrees(
                    more.r_on->0,
                    more.ideal_switches[name].r_on,
                )) by {
                    if name != block.name {
                        assert(parts.ideal_switches.contains_key(name));
                    }
                }
            },
            _ => {},
        }
    }
}

proof fn lemma_parts_from<S: Scalar>(list: Seq<Card>, i: int, parts: Parts<S>)
    requires
        0 <= i <= list.len(),
        consistent(parts),
        parts.blocks == declared_blocks::<S>(list, i as nat),
    ensures
        parts_from(list, i, parts) matches Ok(all) ==> consistent(all) && all.blocks
            == declared_blocks::<S>(list, list.len()),
    decreases list.len() - i,
{
    if i < list.len() {
        match list[i] {
            Card::Block(block) => {
                lemma_with_block(list, block, parts);
                match with_block(list, block, parts) {
                    Ok(more) => {
                        lemma_parts_from(list, i + 1, more);
                    },
                    Err(_) => {},
                }
            },
            _ => {
                lemma_parts_from(list, i + 1, parts);
            },
        }
    }
}

/// The circuit of a system is that of its netlist without the blocks: a netlist without
/// hierarchy gives the same equations on its own.
pub proof fn law_circuit_is_that_of_the_netlist<S: Scalar>(
    lines: Seq<Result<Card, (Seq<char>, usize, usize)>>,
)
    requires
        accepted(lines) matches Ok(list) && all_flat(list),
    ensures
        model_of_lines::<S>(lines) matches Ok(system) ==> system_of_lines(
            lines,
            default_settings::<S>(),
        ) == Ok::<Descriptor<S>, Fault>(system.mna),
{
    law_flat_netlist_is_kept(accepted(lines)->Ok_0);
}

/// A system holds the signal blocks that its netlist declares, all of them and in the order
/// in which they are declared.
pub proof fn law_blocks_are_in_order<S: Scalar>(list: Seq<Card>)
    ensures
        model::<S>(list) matches Ok(system) ==> system.blocks == declared_blocks::<S>(
            list,
            list.len(),
        ),
{
    lemma_parts_from::<S>(list, 0, no_parts());
}

/// Every switch of a system has a gate, and every gate belongs to a switch.
pub proof fn law_every_switch_has_a_gate<S: Scalar>(list: Seq<Card>, name: Seq<char>)
    ensures
        model::<S>(list) matches Ok(system) ==> (system.ideal_switches.contains_key(name)
            <==> system.gates.contains_key(name)),
{
    lemma_parts_from::<S>(list, 0, no_parts());
    if let Ok(parts) = parts_from::<S>(list, 0, no_parts()) {
        assert(parts.ideal_switches.contains_key(name) <==> parts.gates.contains_key(name));
    }
}

/// The on-resistance of every switch of a system agrees with the shared one.
pub proof fn law_switches_share_their_resistance<S: Scalar>(list: Seq<Card>, name: Seq<char>)
    ensures
        model::<S>(list) matches Ok(system) ==> (system.ideal_switches.contains_key(name) ==> (
        system.ideal_switches[name].r_on == system.shared_r_on || agrees(
            system.shared_r_on,
            system.ideal_switches[name].r_on,
        ))),
{
    lemma_parts_from::<S>(list, 0, no_parts());
    if let Ok(parts) = parts_from::<S>(list, 0, no_parts()) {
        assert(parts.ideal_switches.contains_key(name) ==> parts.r_on is Some);
    }
}

} // verus!
