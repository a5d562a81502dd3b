//! Blocks between the circuit and the signals, coordinate transforms, and logic.

use crate::block_fields::{
    complain, complaint, field, field_complaint, complain_of_field, get, get_signal, get_signals,
    get_text, has, link, parse_signal, required, required_links, seen, single_link,
};
use crate::block_graph::{
    links, logic_name, transform_name, BlockKind, CoordinateTransform, FlipFlopKind, Form,
    LatchPriority, Link, LogicOp, ProbeTarget, Quantity, Signal,
};
use crate::dynamic_blocks::{
    count, first_name, further, get_count, get_output_names, output_names, push_further,
    report_wrong_inputs, wrong_inputs,
};
use crate::netlist::{Block, BlockInstance};
use crate::scalar::Scalar;
use crate::static_blocks::{add_input, make_source, source, two_signals, with_input, Body, Shape};
use crate::text;
use vstd::prelude::*;

verus! {

// Crossing between circuit and signals

/// The complaint that a probe names a node and a branch.
pub open spec fn two_targets(block: Block) -> Seq<char> {
    complaint(
        block,
        ": 'node' and 'branch' are mutually exclusive (a probe reads either a node voltage or a branch current, never both)"@,
    )
}

/// The complaint that a probe names neither.
pub open spec fn no_target(block: Block, kind: Seq<char>) -> Seq<char> {
    complaint(
        block,
        " kind='"@ + kind
            + "' needs 'node=<name>' (reads V(node)) or 'branch=<name>' (reads I(branch))"@,
    )
}

/// `kind=probe` and `kind=phys2sig`.
pub open spec fn probe_shape<S: Scalar>(block: Block, kind: Seq<char>) -> Result<
    Shape<S>,
    Seq<char>,
> {
    match field(block, "node"@) {
        Some(node) => match field(block, "branch"@) {
            Some(_) => Err(two_targets(block)),
            None => Ok(source(Form::Probe(Quantity::Voltage(node)))),
        },
        None => match field(block, "branch"@) {
            Some(branch) => Ok(source(Form::Probe(Quantity::Current(branch)))),
            None => Err(no_target(block, kind)),
        },
    }
}

pub(crate) fn build_probe<S: Scalar>(block: &BlockInstance, kind: &str) -> (r: Result<
    Body<S>,
    String,
>)
    ensures
        seen(r) == probe_shape::<S>(block@, kind@),
{
    match get(block, "node") {
        Some(node) => {
            if has(block, "branch") {
                return Err(
                    complain(
                        block,
                        ": 'node' and 'branch' are mutually exclusive (a probe reads either a node voltage or a branch current, never both)",
                    ),
                );
            }
            Ok(make_source(BlockKind::Probe(ProbeTarget::Voltage(text::copy(node)))))
        },
        None => match get(block, "branch") {
            Some(branch) => Ok(
                make_source(BlockKind::Probe(ProbeTarget::Current(text::copy(branch)))),
            ),
            None => {
                let what = text::concat3(
                    " kind='",
                    kind,
                    "' needs 'node=<name>' (reads V(node)) or 'branch=<name>' (reads I(branch))",
                );
                Err(complain(block, what.as_str()))
            },
        },
    }
}

/// `kind=sig2phys`: a signal that drives a voltage or a current source.
pub open spec fn sig2phys_shape<S: Scalar>(block: Block) -> Result<Shape<S>, Seq<char>> {
    match required(block, "domain"@) {
        Ok(domain) => if domain == "voltage"@ {
            with_input(block, Form::Sig2Voltage)
        } else if domain == "current"@ {
            with_input(block, Form::Sig2Current)
        } else {
            Err(
                field_complaint(
                    block,
                    "domain"@,
                    " must be 'voltage' or 'current' (got '"@ + domain + "')"@,
                ),
            )
        },
        Err(e) => Err(e),
    }
}

pub(crate) fn build_sig2phys<S: Scalar>(block: &BlockInstance) -> (r: Result<Body<S>, String>)
    ensures
        seen(r) == sig2phys_shape::<S>(block@),
{
    match get_text(block, "domain") {
        Ok(domain) => {
            if text::same(domain, "voltage") {
                add_input(block, BlockKind::Sig2Voltage)
            } else if text::same(domain, "current") {
                add_input(block, BlockKind::Sig2Current)
            } else {
                let what = text::concat3(
                    " must be 'voltage' or 'current' (got '",
                    domain,
                    "')",
                );
                Err(complain_of_field(block, "domain", what.as_str()))
            }
        },
        Err(e) => Err(e),
    }
}

// Coordinate transforms

/// The transform a kind names.
pub open spec fn transform_named(kind: Seq<char>) -> Option<CoordinateTransform> {
    if kind == "clarke"@ {
        Some(CoordinateTransform::Clarke)
    } else if kind == "clarkeinv"@ {
        Some(CoordinateTransform::ClarkeInv)
    } else if kind == "park"@ {
        Some(CoordinateTransform::Park)
    } else if kind == "parkinv"@ {
        Some(CoordinateTransform::ParkInv)
    } else if kind == "clarkepark"@ {
        Some(CoordinateTransform::ClarkePark)
    } else if kind == "clarkeparkinv"@ {
        Some(CoordinateTransform::ClarkeParkInv)
    } else {
        None
    }
}

pub(crate) fn find_transform(kind: &str) -> (r: Option<CoordinateTransform>)
    ensures
        r == transform_named(kind@),
{
    if text::same(kind, "clarke") {
        Some(CoordinateTransform::Clarke)
    } else if text::same(kind, "clarkeinv") {
        Some(CoordinateTransform::ClarkeInv)
    } else if text::same(kind, "park") {
        Some(CoordinateTransform::Park)
    } else if text::same(kind, "parkinv") {
        Some(CoordinateTransform::ParkInv)
    } else if text::same(kind, "clarkepark") {
        Some(CoordinateTransform::ClarkePark)
    } else if text::same(kind, "clarkeparkinv") {
        Some(CoordinateTransform::ClarkeParkInv)
    } else {
        None
    }
}

/// The number of inputs of a transform: three, and the angle where it turns.
pub open spec fn transform_inputs(kind: CoordinateTransform) -> nat {
    match kind {
        CoordinateTransform::Clarke => 3,
        CoordinateTransform::ClarkeInv => 3,
        _ => 4,
    }
}

/// The names of a transform's outputs.
pub open spec fn transform_outputs(kind: CoordinateTransform) -> (Seq<char>, Seq<char>, Seq<char>) {
    match kind {
        CoordinateTransform::Clarke => ("alpha"@, "beta"@, "zero"@),
        CoordinateTransform::ParkInv => ("alpha"@, "beta"@, "zero"@),
        CoordinateTransform::Park => ("d"@, "q"@, "zero"@),
        CoordinateTransform::ClarkePark => ("d"@, "q"@, "zero"@),
        CoordinateTransform::ClarkeInv => ("a"@, "b"@, "c"@),
        CoordinateTransform::ClarkeParkInv => ("a"@, "b"@, "c"@),
    }
}

impl CoordinateTransform {
    /// The number of inputs.
    pub fn input_count(self) -> (r: usize)
        ensures
            r == transform_inputs(self),
    {
        match self {
            CoordinateTransform::Clarke => 3,
            CoordinateTransform::ClarkeInv => 3,
            _ => 4,
        }
    }

    /// The names of the outputs.
    pub fn output_names(self) -> (r: (&'static str, &'static str, &'static str))
        ensures
            (r.0@, r.1@, r.2@) == transform_outputs(self),
    {
        match self {
            CoordinateTransform::Clarke => ("alpha", "beta", "zero"),
            CoordinateTransform::ParkInv => ("alpha", "beta", "zero"),
            CoordinateTransform::Park => ("d", "q", "zero"),
            CoordinateTransform::ClarkePark => ("d", "q", "zero"),
            CoordinateTransform::ClarkeInv => ("a", "b", "c"),
            CoordinateTransform::ClarkeParkInv => ("a", "b", "c"),
        }
    }
}

/// A coordinate transform. Its first output has the block's own name.
pub open spec fn transform_shape<S: Scalar>(block: Block, kind: CoordinateTransform) -> Result<
    Shape<S>,
    Seq<char>,
> {
    match required_links(block, "inputs"@) {
        Ok(inputs) => if inputs.len() != transform_inputs(kind) {
            Err(
                wrong_inputs(
                    block,
                    transform_name(kind),
                    text::decimal(transform_inputs(kind)) + " inputs ("@,
                    inputs.len(),
                ),
            )
        } else {
            let (_, second, third) = transform_outputs(kind);
            match output_names(
                block,
                ""@,
                seq![block.name, further(block.name, second), further(block.name, third)],
            ) {
                Ok(output_names) => Ok(
                    Shape { kind: Form::CoordinateTransform { kind, output_names }, inputs },
                ),
                Err(e) => Err(e),
            }
        },
        Err(e) => Err(e),
    }
}

pub(crate) fn build_transform<S: Scalar>(block: &BlockInstance, kind: CoordinateTransform) -> (r:
    Result<Body<S>, String>)
    ensures
        seen(r) == transform_shape::<S>(block@, kind),
{
    let inputs = match get_signals(block, "inputs") {
        Ok(inputs) => inputs,
        Err(e) => return Err(e),
    };
    if inputs.len() != kind.input_count() {
        let wanted = text::concat(text::number_text(kind.input_count()).as_str(), " inputs (");
        return Err(report_wrong_inputs(block, kind.name(), wanted.as_str(), inputs.len()));
    }
    let (_, second, third) = kind.output_names();
    let mut default = first_name(block.name.as_str());
    push_further(&mut default, block.name.as_str(), second);
    push_further(&mut default, block.name.as_str(), third);
    assert(text::texts(default@) =~= seq![
        block.name@,
        further(block.name@, second@),
        further(block.name@, third@),
    ]);
    match get_output_names(block, "", default) {
        Ok(output_names) => Ok(
            Body { kind: BlockKind::CoordinateTransform { kind, output_names }, inputs },
        ),
        Err(e) => Err(e),
    }
}

// Logic

/// The logic gate a kind names.
pub open spec fn logic_named(kind: Seq<char>) -> Option<LogicOp> {
    if kind == "and"@ {
        Some(LogicOp::And)
    } else if kind == "or"@ {
        Some(LogicOp::Or)
    } else if kind == "xor"@ {
        Some(LogicOp::Xor)
    } else if kind == "nand"@ {
        Some(LogicOp::Nand)
    } else if kind == "nor"@ {
        Some(LogicOp::Nor)
    } else if kind == "xnor"@ {
        Some(LogicOp::Xnor)
    } else if kind == "not"@ {
        Some(LogicOp::Not)
    } else {
        None
    }
}

pub(crate) fn find_logic(kind: &str) -> (r: Option<LogicOp>)
    ensures
        r == logic_named(kind@),
{
    if text::same(kind, "and") {
        Some(LogicOp::And)
    } else if text::same(kind, "or") {
        Some(LogicOp::Or)
    } else if text::same(kind, "xor") {
        Some(LogicOp::Xor)
    } else if text::same(kind, "nand") {
        Some(LogicOp::Nand)
    } else if text::same(kind, "nor") {
        Some(LogicOp::Nor)
    } else if text::same(kind, "xnor") {
        Some(LogicOp::Xnor)
    } else if text::same(kind, "not") {
        Some(LogicOp::Not)
    } else {
        None
    }
}

/// A logic gate: one input for the opposite, two or more for every other.
pub open spec fn logic_shape<S: Scalar>(block: Block, op: LogicOp) -> Result<Shape<S>, Seq<char>> {
    if op == LogicOp::Not {
        with_input(block, Form::LogicGate(op))
    } else {
        match required_links(block, "inputs"@) {
            Ok(inputs) => if inputs.len() < 2 {
                Err(wrong_inputs(block, logic_name(op), "at least 2 inputs ("@, inputs.len()))
            } else {
                Ok(Shape { kind: Form::LogicGate(op), inputs })
            },
            Err(e) => Err(e),
        }
    }
}

pub(crate) fn build_logic<S: Scalar>(block: &BlockInstance, op: LogicOp) -> (r: Result<
    Body<S>,
    String,
>)
    ensures
        seen(r) == logic_shape::<S>(block@, op),
{
    if op == LogicOp::Not {
        return add_input(block, BlockKind::LogicGate(op));
    }
    let inputs = match get_signals(block, "inputs") {
        Ok(inputs) => inputs,
        Err(e) => return Err(e),
    };
    if inputs.len() < 2 {
        return Err(report_wrong_inputs(block, op.name(), "at least 2 inputs (", inputs.len()));
    }
    Ok(Body { kind: BlockKind::LogicGate(op), inputs })
}

/// What a latch does where it is set and reset at once: it is set where nothing is said.
pub open spec fn latch_priority(block: Block) -> Result<LatchPriority, Seq<char>> {
    match field(block, "priority"@) {
        None => Ok(LatchPriority::SetWins),
        Some(value) => if value == "set"@ {
            Ok(LatchPriority::SetWins)
        } else if value == "reset"@ {
            Ok(LatchPriority::ResetWins)
        } else {
            Err(
                field_complaint(
                    block,
                    "priority"@,
                    " must be 'set' or 'reset' (got '"@ + value + "')"@,
                ),
            )
        },
    }
}

/// `kind=srlatch`.
pub open spec fn srlatch_shape<S: Scalar>(block: Block) -> Result<Shape<S>, Seq<char>> {
    match required(block, "set"@) {
        Ok(set) => match required(block, "reset"@) {
            Ok(reset) => match latch_priority(block) {
                Ok(priority) => Ok(
                    Shape {
                        kind: Form::SrLatch { priority },
                        inputs: seq![link(set), link(reset)],
                    },
                ),
                Err(e) => Err(e),
            },
            Err(e) => Err(e),
        },
        Err(e) => Err(e),
    }
}

fn get_latch_priority(block: &BlockInstance) -> (r: Result<LatchPriority, String>)
    ensures
        match r {
            Ok(priority) => latch_priority(block@) == Ok::<LatchPriority, Seq<char>>(priority),
            Err(e) => latch_priority(block@) == Err::<LatchPriority, Seq<char>>(e@),
        },
{
    match get(block, "priority") {
        None => Ok(LatchPriority::SetWins),
        Some(value) => {
            if text::same(value, "set") {
                Ok(LatchPriority::SetWins)
            } else if text::same(value, "reset") {
                Ok(LatchPriority::ResetWins)
            } else {
                let what = text::concat3(" must be 'set' or 'reset' (got '", value, "')");
                Err(complain_of_field(block, "priority", what.as_str()))
            }
        },
    }
}

pub(crate) fn build_srlatch<S: Scalar>(block: &BlockInstance) -> (r: Result<Body<S>, String>)
    ensures
        seen(r) == srlatch_shape::<S>(block@),
{
    let first = match get_text(block, "set") {
        Ok(value) => parse_signal(value),
        Err(e) => return Err(e),
    };
    let second = match get_text(block, "reset") {
        Ok(value) => parse_signal(value),
        Err(e) => return Err(e),
    };
    match get_latch_priority(block) {
        Ok(priority) => Ok(
            Body { kind: BlockKind::SrLatch { priority }, inputs: two_signals(first, second) },
        ),
        Err(e) => Err(e),
    }
}

/// The inputs, and behind them the signal in a field where the field is there.
pub open spec fn extended(block: Block, inputs: Seq<Link>, key: Seq<char>) -> Seq<Link> {
    match field(block, key) {
        Some(value) => inputs.push(link(value)),
        None => inputs,
    }
}

fn extend(block: &BlockInstance, inputs: Vec<Signal>, key: &str) -> (r: (Vec<Signal>, bool))
    ensures
        links(r.0@) == extended(block@, links(inputs@), key@),
        r.1 == (field(block@, key@) is Some),
{
    match get(block, key) {
        Some(value) => {
            let mut out = inputs;
            let signal = parse_signal(value);
            out.push(signal);
            assert(links(out@) =~= links(inputs@).push(signal@));
            (out, true)
        },
        None => (inputs, false),
    }
}

/// The flip-flop a kind names.
pub open spec fn flip_flop_named(kind: Seq<char>) -> Option<FlipFlopKind> {
    if kind == "dff"@ {
        Some(FlipFlopKind::D)
    } else if kind == "jkff"@ {
        Some(FlipFlopKind::Jk)
    } else if kind == "tff"@ {
        Some(FlipFlopKind::T)
    } else {
        None
    }
}

pub(crate) fn find_flip_flop(kind: &str) -> (r: Option<FlipFlopKind>)
    ensures
        r == flip_flop_named(kind@),
{
    if text::same(kind, "dff") {
        Some(FlipFlopKind::D)
    } else if text::same(kind, "jkff") {
        Some(FlipFlopKind::Jk)
    } else if text::same(kind, "tff") {
        Some(FlipFlopKind::T)
    } else {
        None
    }
}

/// The clock of a flip-flop and the inputs that it takes over, in order.
pub open spec fn flip_flop_inputs(block: Block, kind: FlipFlopKind) -> Result<
    Seq<Link>,
    Seq<char>,
> {
    match required(block, "clk"@) {
        Ok(clk) => match kind {
            FlipFlopKind::D => match required(block, "d"@) {
                Ok(d) => Ok(seq![link(clk), link(d)]),
                Err(e) => Err(e),
            },
            FlipFlopKind::T => match required(block, "t"@) {
                Ok(t) => Ok(seq![link(clk), link(t)]),
                Err(e) => Err(e),
            },
            FlipFlopKind::Jk => match required(block, "j"@) {
                Ok(j) => match required(block, "k"@) {
                    Ok(k) => Ok(seq![link(clk), link(j)].push(link(k))),
                    Err(e) => Err(e),
                },
                Err(e) => Err(e),
            },
        },
        Err(e) => Err(e),
    }
}

fn get_flip_flop_inputs(block: &BlockInstance, kind: FlipFlopKind) -> (r: Result<
    Vec<Signal>,
    String,
>)
    ensures
        match r {
            Ok(inputs) => flip_flop_inputs(block@, kind) == Ok::<Seq<Link>, Seq<char>>(
                links(inputs@),
            ),
            Err(e) => flip_flop_inputs(block@, kind) == Err::<Seq<Link>, Seq<char>>(e@),
        },
{
    let clk = match get_text(block, "clk") {
        Ok(value) => parse_signal(value),
        Err(e) => return Err(e),
    };
    let first = match kind {
        FlipFlopKind::D => "d",
        FlipFlopKind::T => "t",
        FlipFlopKind::Jk => "j",
    };
    let input = match get_text(block, first) {
        Ok(value) => parse_signal(value),
        Err(e) => return Err(e),
    };
    let mut inputs = two_signals(clk, input);
    if kind == FlipFlopKind::Jk {
        let k = match get_text(block, "k") {
            Ok(value) => parse_signal(value),
            Err(e) => return Err(e),
        };
        let ghost before = links(inputs@);
        inputs.push(k);
        assert(links(inputs@) =~= before.push(k@));
    }
    Ok(inputs)
}

/// A flip-flop.
pub open spec fn flip_flop_shape<S: Scalar>(block: Block, kind: FlipFlopKind) -> Result<
    Shape<S>,
    Seq<char>,
> {
    match flip_flop_inputs(block, kind) {
        Ok(inputs) => Ok(
            Shape {
                kind: Form::FlipFlop { kind, reset: field(block, "reset"@) is Some },
                inputs: extended(block, inputs, "reset"@),
            },
        ),
        Err(e) => Err(e),
    }
}

pub(crate) fn build_flip_flop<S: Scalar>(block: &BlockInstance, kind: FlipFlopKind) -> (r: Result<
    Body<S>,
    String,
>)
    ensures
        seen(r) == flip_flop_shape::<S>(block@, kind),
{
    match get_flip_flop_inputs(block, kind) {
        Ok(first) => {
            let (inputs, reset) = extend(block, first, "reset");
            Ok(Body { kind: BlockKind::FlipFlop { kind, reset }, inputs })
        },
        Err(e) => Err(e),
    }
}

/// `kind=counter`. A modulus has to be a positive integer.
pub open spec fn counter_shape<S: Scalar>(block: Block) -> Result<Shape<S>, Seq<char>> {
    match single_link(block, "clk"@) {
        Ok(clk) => match count(block, "modulus"@, " is not a positive integer"@) {
            Ok(modulus) => if modulus == Some(0usize) {
                Err(field_complaint(block, "modulus"@, " is not a positive integer"@))
            } else {
                Ok(
                    Shape {
                        kind: Form::Counter {
                            up_down: field(block, "up_down"@) is Some,
                            modulus,
                            reset: field(block, "reset"@) is Some,
                        },
                        inputs: extended(block, extended(block, clk, "up_down"@), "reset"@),
                    },
                )
            },
            Err(e) => Err(e),
        },
        Err(e) => Err(e),
    }
}

pub(crate) fn build_counter<S: Scalar>(block: &BlockInstance) -> (r: Result<Body<S>, String>)
    ensures
        seen(r) == counter_shape::<S>(block@),
{
    let clk = match get_signal(block, "clk") {
        Ok(inputs) => inputs,
        Err(e) => return Err(e),
    };
    let modulus: Option<usize> = match get_count(block, "modulus", " is not a positive integer") {
        Ok(n) => n,
        Err(e) => return Err(e),
    };
    if let Some(n) = modulus {
        if n == 0 {
            return Err(complain_of_field(block, "modulus", " is not a positive integer"));
        }
    }
    let (directed, up_down) = extend(block, clk, "up_down");
    let (inputs, reset) = extend(block, directed, "reset");
    Ok(Body { kind: BlockKind::Counter { up_down, modulus, reset }, inputs })
}

} // verus!
