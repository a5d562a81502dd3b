//! Builds a complete system, electrical equations and signal graph, from one netlist.

use crate::block_fields::{complain_of_field, field_complaint};
use crate::block_graph;
use crate::block_graph::{BlockKind, Form, GateBinding, Instance, ProbeTarget, Quantity};
use crate::block_kinds::{build_kind, declared, kind_of, Declared, IdealDiode, IdealSwitch, Kind};
use crate::builder;
use crate::builder::{BuildError, MnaBuilder};
use crate::circuit;
use crate::circuit::Fault;
use crate::hierarchy;
use crate::name_map::NameMap;
use crate::netlist;
use crate::netlist::{cards, Block, BlockInstance, Card, Statement};
use crate::readability::readable;
use crate::scalar::Scalar;
use crate::system::{Descriptor, MnaSystem};
use crate::text;
use core::ops::Range;
use general_spice_core::Dialect;
use vstd::prelude::*;

verus! {

/// Everything a simulator needs, split into an electrical and a signal half.
#[derive(Debug)]
pub struct System<S> {
    /// The circuit's equations.
    pub mna: MnaSystem<S>,
    /// The diodes by name.
    pub ideal_diodes: NameMap<IdealDiode<S>>,
    /// The switches by name.
    pub ideal_switches: NameMap<IdealSwitch<S>>,
    /// How each switch's gate is driven.
    pub gates: NameMap<GateBinding>,
    /// The blocks in the order in which they are declared.
    pub blocks: Vec<block_graph::BlockInstance<S>>,
    /// The on-resistance that all switches share; zero where there is none.
    pub shared_r_on: S,
}

/// The devices and blocks that block lines declare.
#[verifier::ext_equal]
pub struct Parts<S> {
    pub ideal_diodes: Map<Seq<char>, IdealDiode<S>>,
    pub ideal_switches: Map<Seq<char>, IdealSwitch<S>>,
    pub gates: Map<Seq<char>, Seq<char>>,
    pub blocks: Seq<Instance<S>>,
    pub r_on: Option<S>,
}

/// The mathematical form of a [`System`].
#[verifier::ext_equal]
pub struct Model<S> {
    pub mna: Descriptor<S>,
    pub ideal_diodes: Map<Seq<char>, IdealDiode<S>>,
    pub ideal_switches: Map<Seq<char>, IdealSwitch<S>>,
    pub gates: Map<Seq<char>, Seq<char>>,
    pub blocks: Seq<Instance<S>>,
    pub shared_r_on: S,
}

/// The blocks that drive gates, by the names of the gates.
pub open spec fn drivers(gates: Map<Seq<char>, GateBinding>) -> Map<Seq<char>, Seq<char>> {
    Map::new(|name: Seq<char>| gates.contains_key(name), |name: Seq<char>| gates[name].driver())
}

/// The mathematical forms of a list of blocks.
pub open spec fn instances<S: Scalar>(list: Seq<block_graph::BlockInstance<S>>) -> Seq<
    Instance<S>,
> {
    Seq::new(list.len(), |i: int| list[i]@)
}

impl<S: Scalar> View for System<S> {
    type V = Model<S>;

    open spec fn view(&self) -> Model<S> {
        Model {
            mna: self.mna@,
            ideal_diodes: self.ideal_diodes@,
            ideal_switches: self.ideal_switches@,
            gates: drivers(self.gates@),
            blocks: instances(self.blocks@),
            shared_r_on: self.shared_r_on,
        }
    }
}

// Reading and flattening

/// The flat list of statements of what a text was read as.
pub open spec fn statements_of(lines: Seq<Result<Card, (Seq<char>, usize, usize)>>) -> Result<
    Seq<Card>,
    Seq<char>,
> {
    match builder::accepted(lines) {
        Ok(list) => hierarchy::flattened(list),
        Err(Fault::Parse { message, line_start, line_end }) => Err(
            "line "@ + text::decimal(line_start as nat) + ": "@ + message,
        ),
        Err(fault) => Err(builder::fault_text(fault)),
    }
}

/// What a list of statements is seen as, or the message.
pub open spec fn seen_cards(r: Result<Vec<Statement>, String>) -> Result<Seq<Card>, Seq<char>> {
    match r {
        Ok(list) => Ok(cards(list@)),
        Err(message) => Err(message@),
    }
}

/// Flattens what a text was read as.
pub fn flatten_lines(parsed: Vec<Result<Statement, (String, Range<usize>)>>) -> (r: Result<
    Vec<Statement>,
    String,
>)
    ensures
        seen_cards(r) == statements_of(netlist::readings(parsed@)),
{
    match builder::accept(parsed) {
        Ok(list) => hierarchy::flatten(list.as_slice()),
        Err(BuildError::Parse { message, line_start, .. }) => {
            let mut s = text::concat3("line ", text::number_text(line_start).as_str(), ": ");
            s.append(message.as_str());
            Err(s)
        },
        Err(error) => Err(error.to_text()),
    }
}

/// Reads a netlist without a title line and flattens its hierarchy.
pub fn parse_and_flatten(source: &str, dialect: Dialect) -> (r: Result<Vec<Statement>, String>)
    requires
        readable(source@, dialect),
    ensures
        seen_cards(r) == statements_of(netlist::fragment(source@, dialect)),
{
    flatten_lines(netlist::read_fragment(source, dialect))
}

// Probed branches

/// A device whose current is an unknown of the equations.
pub open spec fn has_branch_current(letter: char) -> bool {
    letter == 'V' || letter == 'L' || letter == 'E' || letter == 'H'
}

/// The letter of the first device from `i` on with a name, letter case aside.
pub open spec fn letter_of(list: Seq<Card>, name: Seq<char>, i: int) -> Option<char>
    decreases list.len() - i,
{
    if i >= list.len() {
        None
    } else {
        match list[i] {
            Card::Device(device) if text::eq_ignoring_case(device.name, name) => Some(
                device.letter,
            ),
            _ => letter_of(list, name, i + 1),
        }
    }
}

/// What is wrong with a branch whose current is read, if anything.
pub open spec fn branch_flaw(list: Seq<Card>, block: Block, branch: Seq<char>) -> Option<
    Seq<char>,
> {
    match letter_of(list, branch, 0) {
        None => Some(
            field_complaint(block, "branch"@, ": '"@ + branch + "' names no such element"@),
        ),
        Some(letter) => if has_branch_current(letter) {
            None
        } else {
            Some(
                field_complaint(
                    block,
                    "branch"@,
                    ": '"@ + branch
                        + "' has no current unknown available (only V, L, E and H elements have one) -- insert a 0V voltage source in series and read its current"@,
                ),
            )
        },
    }
}

fn find_letter(statements: &[Statement], name: &str) -> (r: Option<char>)
    ensures
        r == letter_of(cards(statements@), name@, 0),
{
    let ghost list = cards(statements@);
    let mut i: usize = 0;
    while i < statements.len()
        invariant
            i <= statements@.len(),
            list == cards(statements@),
            letter_of(list, name@, i as int) == letter_of(list, name@, 0),
        decreases statements@.len() - i,
    {
        assert(list[i as int] == statements@[i as int]@);
        if let Statement::ElementInstance(element) = &statements[i] {
            if text::same_ignoring_case(element.name.as_str(), name) {
                return Some(element.device_letter);
            }
        }
        i = i + 1;
    }
    None
}

fn find_branch_flaw(statements: &[Statement], block: &BlockInstance, branch: &str) -> (r: Option<
    String,
>)
    ensures
        netlist::option_text(r) == branch_flaw(cards(statements@), block@, branch@),
{
    match find_letter(statements, branch) {
        None => {
            let what = text::concat3(": '", branch, "' names no such element");
            Some(complain_of_field(block, "branch", what.as_str()))
        },
        Some(letter) => {
            if letter == 'V' || letter == 'L' || letter == 'E' || letter == 'H' {
                return None;
            }
            let what = text::concat3(
                ": '",
                branch,
                "' has no current unknown available (only V, L, E and H elements have one) -- insert a 0V voltage source in series and read its current",
            );
            Some(complain_of_field(block, "branch", what.as_str()))
        },
    }
}

// Gathering

/// Nothing declared yet.
pub open spec fn no_parts<S>() -> Parts<S> {
    Parts {
        ideal_diodes: Map::empty(),
        ideal_switches: Map::empty(),
        gates: Map::empty(),
        blocks: Seq::empty(),
        r_on: None,
    }
}

/// The parts with one more switch. All switches have to have the same on-resistance.
pub open spec fn with_switch<S: Scalar>(
    name: Seq<char>,
    switch: IdealSwitch<S>,
    driver: Seq<char>,
    parts: Parts<S>,
) -> Result<Parts<S>, Seq<char>> {
    let joined = Parts {
        ideal_switches: parts.ideal_switches.insert(name, switch),
        gates: parts.gates.insert(name, driver),
        ..parts
    };
    match parts.r_on {
        None => Ok(Parts { r_on: Some(switch.r_on), ..joined }),
        Some(r_on) => if S::decade(-15).below(r_on.difference(switch.r_on).magnitude()) {
            Err(
                "all MOSFETs must share the same r_on (dae-runtime's switch model uses one shared on-resistance per call); got "@
                    + r_on.shown() + " and "@ + switch.r_on.shown(),
            )
        } else {
            Ok(joined)
        },
    }
}

/// The parts with what one more block line declares. A `phys2sig` block that reads a current
/// has to name a device that has one.
pub open spec fn with_block<S: Scalar>(list: Seq<Card>, block: Block, parts: Parts<S>) -> Result<
    Parts<S>,
    Seq<char>,
> {
    match declared::<S>(block) {
        Ok(Declared::IdealDiode(diode)) => Ok(
            Parts { ideal_diodes: parts.ideal_diodes.insert(block.name, diode), ..parts },
        ),
        Ok(Declared::IdealSwitch { switch, driver }) => with_switch(
            block.name,
            switch,
            driver,
            parts,
        ),
        Ok(Declared::Block(instance)) => {
            let joined = Parts { blocks: parts.blocks.push(instance), ..parts };
            match instance.kind {
                Form::Probe(Quantity::Current(branch)) => if kind_of(block) == "phys2sig"@ {
                    match branch_flaw(list, block, branch) {
                        Some(e) => Err(e),
                        None => Ok(joined),
                    }
                } else {
                    Ok(joined)
                },
                _ => Ok(joined),
            }
        },
        Err(e) => Err(e),
    }
}

/// The parts with what the block lines from `i` on declare, or the first complaint.
pub open spec fn parts_from<S: Scalar>(list: Seq<Card>, i: int, parts: Parts<S>) -> Result<
    Parts<S>,
    Seq<char>,
>
    decreases list.len() - i,
{
    if i >= list.len() {
        Ok(parts)
    } else {
        match list[i] {
            Card::Block(block) => match with_block(list, block, parts) {
                Ok(joined) => parts_from(list, i + 1, joined),
                Err(e) => Err(e),
            },
            _ => parts_from(list, i + 1, parts),
        }
    }
}

/// The system of a flat list of statements.
pub open spec fn model<S: Scalar>(list: Seq<Card>) -> Result<Model<S>, Seq<char>> {
    match circuit::system(list, circuit::default_settings::<S>()) {
        Ok(mna) => match parts_from::<S>(list, 0, no_parts()) {
            Ok(parts) => Ok(
                Model {
                    mna,
                    ideal_diodes: parts.ideal_diodes,
                    ideal_switches: parts.ideal_switches,
                    gates: parts.gates,
                    blocks: parts.blocks,
                    shared_r_on: match parts.r_on {
                        Some(r_on) => r_on,
                        None => S::nought(),
                    },
                },
            ),
            Err(e) => Err(e),
        },
        Err(fault) => Err(builder::fault_detail(fault)),
    }
}

/// The system of what a text was read as.
pub open spec fn model_of_lines<S: Scalar>(
    lines: Seq<Result<Card, (Seq<char>, usize, usize)>>,
) -> Result<Model<S>, Seq<char>> {
    match statements_of(lines) {
        Ok(list) => model(list),
        Err(e) => Err(e),
    }
}

struct Gathered<S> {
    ideal_diodes: NameMap<IdealDiode<S>>,
    ideal_switches: NameMap<IdealSwitch<S>>,
    gates: NameMap<GateBinding>,
    blocks: Vec<block_graph::BlockInstance<S>>,
    r_on: Option<S>,
}

impl<S: Scalar> Gathered<S> {
    spec fn parts(&self) -> Parts<S> {
        Parts {
            ideal_diodes: self.ideal_diodes@,
            ideal_switches: self.ideal_switches@,
            gates: drivers(self.gates@),
            blocks: instances(self.blocks@),
            r_on: self.r_on,
        }
    }

    fn new() -> (r: Self)
        ensures
            r.parts() == no_parts::<S>(),
    {
        let r = Gathered {
            ideal_diodes: NameMap::new(),
            ideal_switches: NameMap::new(),
            gates: NameMap::new(),
            blocks: Vec::new(),
            r_on: None,
        };
        assert(r.parts() =~= no_parts::<S>());
        r
    }

    fn add_switch(&mut self, name: &str, switch: IdealSwitch<S>, gate: GateBinding) -> (r: Result<
        (),
        String,
    >)
        ensures
            match r {
                Ok(_) => with_switch(name@, switch, gate.driver(), old(self).parts()) == Ok::<
                    Parts<S>,
                    Seq<char>,
                >(final(self).parts()),
                Err(e) => with_switch(name@, switch, gate.driver(), old(self).parts()) == Err::<
                    Parts<S>,
                    Seq<char>,
                >(e@),
            },
    {
        let ghost before = self.parts();
        if let Some(r_on) = self.r_on {
            if S::power_of_ten(-15).less_than(r_on.minus(switch.r_on).abs()) {
                let mut s = text::concat3(
                    "all MOSFETs must share the same r_on (dae-runtime's switch model uses one shared on-resistance per call); got ",
                    r_on.text().as_str(),
                    " and ",
                );
                s.append(switch.r_on.text().as_str());
                return Err(s);
            }
        } else {
            self.r_on = Some(switch.r_on);
        }
        let ghost driver = gate.driver();
        let ghost gates = self.gates@;
        self.gates.insert(text::copy(name), gate);
        self.ideal_switches.insert(text::copy(name), switch);
        assert(drivers(self.gates@) =~= drivers(gates).insert(name@, driver));
        Ok(())
    }

    fn add_block(&mut self, statements: &[Statement], block: &BlockInstance) -> (r: Result<
        (),
        String,
    >)
        ensures
            match r {
                Ok(_) => with_block(cards(statements@), block@, old(self).parts()) == Ok::<
                    Parts<S>,
                    Seq<char>,
                >(final(self).parts()),
                Err(e) => with_block(cards(statements@), block@, old(self).parts()) == Err::<
                    Parts<S>,
                    Seq<char>,
                >(e@),
            },
    {
        let kind: Kind<S> = match build_kind(block) {
            Ok(kind) => kind,
            Err(e) => return Err(e),
        };
        match kind {
            Kind::IdealDiode(diode) => {
                self.ideal_diodes.insert(text::copy(block.name.as_str()), diode);
                Ok(())
            },
            Kind::IdealSwitch { switch, gate } => self.add_switch(
                block.name.as_str(),
                switch,
                gate,
            ),
            Kind::Block(instance) => {
                if let BlockKind::Probe(ProbeTarget::Current(branch)) = &instance.kind {
                    let named = match crate::block_fields::get(block, "kind") {
                        Some(kind) => text::same(kind, "phys2sig"),
                        None => {
                            proof {
                                reveal_strlit("ideal_diode");
                                reveal_strlit("phys2sig");
                            }
                            false
                        },
                    };
                    if named {
                        match find_branch_flaw(statements, block, branch.as_str()) {
                            Some(e) => return Err(e),
                            None => {},
                        }
                    }
                }
                let ghost before = self.blocks@;
                self.blocks.push(instance);
                assert(instances(self.blocks@) =~= instances(before).push(instance@));
                Ok(())
            },
        }
    }
}

/// What a system is seen as, or the message.
pub open spec fn seen_model<S: Scalar>(r: Result<System<S>, String>) -> Result<
    Model<S>,
    Seq<char>,
> {
    match r {
        Ok(system) => Ok(system@),
        Err(message) => Err(message@),
    }
}

/// Builds the system of a flat list of statements.
pub fn build_flat<S: Scalar>(statements: &[Statement], dialect: Dialect) -> (r: Result<
    System<S>,
    String,
>)
    ensures
        seen_model(r) == model::<S>(cards(statements@)),
        r matches Ok(system) ==> system.mna.well_formed(),
{
    let mna: MnaSystem<S> = match MnaBuilder::new(dialect).build_statements(statements) {
        Ok(mna) => mna,
        Err(error) => return Err(error.to_detail()),
    };
    let ghost list = cards(statements@);
    let ghost all = parts_from::<S>(list, 0, no_parts());
    let mut gathered: Gathered<S> = Gathered::new();
    let mut i: usize = 0;
    while i < statements.len()
        invariant
            i <= statements@.len(),
            list == cards(statements@),
            circuit::system(list, circuit::default_settings::<S>()) == Ok::<
                Descriptor<S>,
                Fault,
            >(mna@),
            all == parts_from::<S>(list, 0, no_parts()),
            all == parts_from(list, i as int, gathered.parts()),
        decreases statements@.len() - i,
    {
        assert(list[i as int] == statements@[i as int]@);
        if let Statement::BlockInstance(block) = &statements[i] {
            match gathered.add_block(statements, block) {
                Ok(_) => {},
                Err(e) => return Err(e),
            }
        }
        i = i + 1;
    }
    let shared_r_on = match gathered.r_on {
        Some(r_on) => r_on,
        None => S::zero(),
    };
    Ok(
        System {
            mna,
            ideal_diodes: gathered.ideal_diodes,
            ideal_switches: gathered.ideal_switches,
            gates: gathered.gates,
            blocks: gathered.blocks,
            shared_r_on,
        },
    )
}

/// Builds the system of what a text was read as.
pub fn build_lines<S: Scalar>(
    parsed: Vec<Result<Statement, (String, Range<usize>)>>,
    dialect: Dialect,
) -> (r: Result<System<S>, String>)
    ensures
        seen_model(r) == model_of_lines::<S>(netlist::readings(parsed@)),
        r matches Ok(system) ==> system.mna.well_formed(),
{
    match flatten_lines(parsed) {
        Ok(statements) => build_flat(statements.as_slice(), dialect),
        Err(e) => Err(e),
    }
}

/// Reads a netlist without a title line and builds the complete system: the electrical
/// statements become equations, the block lines become diodes, switches and blocks.
pub fn build_system<S: Scalar>(source: &str, dialect: Dialect) -> (r: Result<System<S>, String>)
    requires
        readable(source@, dialect),
    ensures
        seen_model(r) == model_of_lines::<S>(netlist::fragment(source@, dialect)),
        r matches Ok(system) ==> system.mna.well_formed(),
{
    build_lines(netlist::read_fragment(source, dialect), dialect)
}

} // verus!
