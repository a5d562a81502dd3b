//! What a block line declares: an ideal diode, an ideal switch with its gate, or a block of
//! the signal graph.

use crate::block_fields::{
    complain, complaint, field, get, get_number, get_text, head_of_line, line_head, number,
    required, seen, told,
};
use crate::block_graph;
use crate::block_graph::{BlockKind, Form, GateBinding, Instance};
use crate::block_start::{get_starting_state, starting_state};
use crate::dynamic_blocks::{
    build_cscript, build_discretepid, build_discretestatespace, build_discretetf, build_hysteresis,
    build_pid, build_pmsm, build_pspwm, build_pwm, build_statespace, build_tf, build_vco,
    cscript_shape, discretepid_shape, discretestatespace_shape, discretetf_shape, hysteresis_shape,
    pid_shape, pmsm_shape, pspwm_shape, pwm_shape, statespace_shape, tf_shape, vco_shape,
};
use crate::interface_blocks::{
    build_counter, build_flip_flop, build_logic, build_probe, build_sig2phys, build_srlatch,
    build_transform, counter_shape, find_flip_flop, find_logic, find_transform, flip_flop_named,
    flip_flop_shape, logic_named, logic_shape, probe_shape, sig2phys_shape, srlatch_shape,
    transform_named, transform_shape,
};
use crate::netlist::{Block, BlockInstance};
use crate::scalar::Scalar;
use crate::static_blocks::{
    add_input, build_const, build_expwave, build_function, build_gain, build_product,
    build_pulsewave, build_pwc, build_pwl, build_saturation, build_sffmwave, build_sinwave,
    build_sum, build_table, const_shape, expwave_shape, function_shape, gain_shape, make_source,
    product_shape, pulsewave_shape, pwc_shape, pwl_shape, saturation_shape, sffmwave_shape,
    sinwave_shape, source, sum_shape, table_shape, with_input, Body, Shape,
};
use crate::text;
use vstd::prelude::*;

verus! {

/// A piecewise-linear diode: the conductance below the breakdown voltage, between it and the
/// threshold, and above the threshold.
#[derive(Debug, Clone, Copy, PartialEq)]
pub struct IdealDiode<S> {
    /// Conductance in breakdown.
    pub g_breakdown: S,
    /// Breakdown voltage.
    pub v_breakdown: S,
    /// Conductance while blocking.
    pub g_off: S,
    /// Threshold voltage.
    pub v_th: S,
    /// Conductance while conducting.
    pub g_on: S,
}

/// A switch with an on-resistance and a body diode.
#[derive(Debug, Clone, Copy, PartialEq)]
pub struct IdealSwitch<S> {
    /// Resistance while on.
    pub r_on: S,
    /// The diode that conducts while off.
    pub body_diode: IdealDiode<S>,
}

/// What a block line declares.
#[derive(Debug, Clone, PartialEq)]
pub enum Kind<S> {
    /// A diode.
    IdealDiode(IdealDiode<S>),
    /// A switch and how its gate is driven.
    IdealSwitch { switch: IdealSwitch<S>, gate: GateBinding },
    /// A block of the signal graph.
    Block(block_graph::BlockInstance<S>),
}

/// The mathematical form of a [`Kind`].
pub enum Declared<S> {
    IdealDiode(IdealDiode<S>),
    IdealSwitch { switch: IdealSwitch<S>, driver: Seq<char> },
    Block(Instance<S>),
}

impl<S: Scalar> View for Kind<S> {
    type V = Declared<S>;

    open spec fn view(&self) -> Declared<S> {
        match self {
            Kind::IdealDiode(diode) => Declared::IdealDiode(*diode),
            Kind::IdealSwitch { switch, gate } => Declared::IdealSwitch {
                switch: *switch,
                driver: gate.driver(),
            },
            Kind::Block(instance) => Declared::Block(instance@),
        }
    }
}

// Diodes and switches

/// The parameters of a diode, each in the field of its name. The breakdown voltage has to be
/// below the threshold.
pub open spec fn diode<S: Scalar>(block: Block) -> Result<IdealDiode<S>, Seq<char>> {
    match number::<S>(block, "g_breakdown"@) {
        Ok(g_breakdown) => match number::<S>(block, "v_breakdown"@) {
            Ok(v_breakdown) => match number::<S>(block, "g_off"@) {
                Ok(g_off) => match number::<S>(block, "v_th"@) {
                    Ok(v_th) => match number::<S>(block, "g_on"@) {
                        Ok(g_on) => if v_breakdown.below(v_th) {
                            Ok(IdealDiode { g_breakdown, v_breakdown, g_off, v_th, g_on })
                        } else {
                            Err(
                                complaint(
                                    block,
                                    ": v_breakdown ("@ + v_breakdown.shown()
                                        + ") must be strictly below v_th ("@ + v_th.shown()
                                        + ")"@,
                                ),
                            )
                        },
                        Err(e) => Err(e),
                    },
                    Err(e) => Err(e),
                },
                Err(e) => Err(e),
            },
            Err(e) => Err(e),
        },
        Err(e) => Err(e),
    }
}

fn get_diode<S: Scalar>(block: &BlockInstance) -> (r: Result<IdealDiode<S>, String>)
    ensures
        told(r) == diode::<S>(block@),
{
    let g_breakdown: S = match get_number(block, "g_breakdown") {
        Ok(x) => x,
        Err(e) => return Err(e),
    };
    let v_breakdown: S = match get_number(block, "v_breakdown") {
        Ok(x) => x,
        Err(e) => return Err(e),
    };
    let g_off: S = match get_number(block, "g_off") {
        Ok(x) => x,
        Err(e) => return Err(e),
    };
    let v_th: S = match get_number(block, "v_th") {
        Ok(x) => x,
        Err(e) => return Err(e),
    };
    let g_on: S = match get_number(block, "g_on") {
        Ok(x) => x,
        Err(e) => return Err(e),
    };
    if v_breakdown.less_than(v_th) {
        return Ok(IdealDiode { g_breakdown, v_breakdown, g_off, v_th, g_on });
    }
    let what = text::concat5(
        ": v_breakdown (",
        v_breakdown.text().as_str(),
        ") must be strictly below v_th (",
        v_th.text().as_str(),
        ")",
    );
    Err(complain(block, what.as_str()))
}

/// The block that drives a gate: `gate=block ctrl=<name>` is the only form there is.
pub open spec fn driver(block: Block) -> Result<Seq<char>, Seq<char>> {
    match field(block, "gate"@) {
        Some(gate) => if gate == "block"@ {
            required(block, "ctrl"@)
        } else {
            Err(
                line_head(block) + ("unknown gate spec '"@ + gate
                    + "' (only gate=block ctrl=<name> exists -- every gate is block-driven)"@),
            )
        },
        None => Err(
            complaint(
                block,
                " missing field 'gate' (gate=block ctrl=<name> -- every gate is block-driven, see this file's own module doc comment)"@,
            ),
        ),
    }
}

fn get_driver(block: &BlockInstance) -> (r: Result<String, String>)
    ensures
        seen(r) == driver(block@),
{
    match get(block, "gate") {
        Some(gate) => {
            if text::same(gate, "block") {
                return match get_text(block, "ctrl") {
                    Ok(name) => Ok(text::copy(name)),
                    Err(e) => Err(e),
                };
            }
            let what = text::concat3(
                "unknown gate spec '",
                gate,
                "' (only gate=block ctrl=<name> exists -- every gate is block-driven)",
            );
            Err(text::concat(head_of_line(block).as_str(), what.as_str()))
        },
        None => Err(
            complain(
                block,
                " missing field 'gate' (gate=block ctrl=<name> -- every gate is block-driven, see this file's own module doc comment)",
            ),
        ),
    }
}

/// A switch with its gate.
pub open spec fn switch<S: Scalar>(block: Block) -> Result<Declared<S>, Seq<char>> {
    match diode::<S>(block) {
        Ok(body_diode) => match number::<S>(block, "r_on"@) {
            Ok(r_on) => match driver(block) {
                Ok(driver) => Ok(
                    Declared::IdealSwitch { switch: IdealSwitch { r_on, body_diode }, driver },
                ),
                Err(e) => Err(e),
            },
            Err(e) => Err(e),
        },
        Err(e) => Err(e),
    }
}

fn build_switch<S: Scalar>(block: &BlockInstance) -> (r: Result<Kind<S>, String>)
    ensures
        seen(r) == switch::<S>(block@),
{
    let body_diode: IdealDiode<S> = match get_diode(block) {
        Ok(diode) => diode,
        Err(e) => return Err(e),
    };
    let r_on: S = match get_number(block, "r_on") {
        Ok(x) => x,
        Err(e) => return Err(e),
    };
    match get_driver(block) {
        Ok(name) => Ok(
            Kind::IdealSwitch {
                switch: IdealSwitch { r_on, body_diode },
                gate: GateBinding::Block(name),
            },
        ),
        Err(e) => Err(e),
    }
}

// Blocks

/// What a block of the given kind computes, and its inputs.
pub open spec fn shape<S: Scalar>(block: Block, kind: Seq<char>) -> Result<Shape<S>, Seq<char>> {
    if kind == "const"@ {
        const_shape(block)
    } else if kind == "time"@ {
        Ok(source(Form::Time))
    } else if kind == "pwc"@ {
        pwc_shape(block)
    } else if kind == "pwl"@ {
        pwl_shape(block)
    } else if kind == "sinwave"@ {
        sinwave_shape(block)
    } else if kind == "pulsewave"@ {
        pulsewave_shape(block)
    } else if kind == "expwave"@ {
        expwave_shape(block)
    } else if kind == "sffmwave"@ {
        sffmwave_shape(block)
    } else if kind == "sum"@ {
        sum_shape(block)
    } else if kind == "gain"@ {
        gain_shape(block)
    } else if kind == "pid"@ {
        pid_shape(block)
    } else if kind == "vco"@ {
        vco_shape(block)
    } else if kind == "pwm"@ {
        pwm_shape(block)
    } else if kind == "pspwm"@ {
        pspwm_shape(block)
    } else if kind == "hysteresis"@ {
        hysteresis_shape(block)
    } else if kind == "cscript"@ {
        cscript_shape(block)
    } else if kind == "statespace"@ {
        statespace_shape(block)
    } else if kind == "tf"@ {
        tf_shape(block)
    } else if kind == "product"@ {
        product_shape(block)
    } else if kind == "saturation"@ {
        saturation_shape(block)
    } else if kind == "table"@ {
        table_shape(block)
    } else if kind == "probe"@ || kind == "phys2sig"@ {
        probe_shape(block, kind)
    } else if kind == "sig2gate"@ {
        with_input(block, Form::Sig2Gate)
    } else if kind == "sig2voltage"@ {
        with_input(block, Form::Sig2Voltage)
    } else if kind == "sig2current"@ {
        with_input(block, Form::Sig2Current)
    } else if kind == "sig2phys"@ {
        sig2phys_shape(block)
    } else if kind == "pmsm"@ {
        pmsm_shape(block)
    } else if kind == "srlatch"@ {
        srlatch_shape(block)
    } else if kind == "counter"@ {
        counter_shape(block)
    } else if kind == "discretestatespace"@ {
        discretestatespace_shape(block)
    } else if kind == "discretetf"@ {
        discretetf_shape(block)
    } else if kind == "discretepid"@ {
        discretepid_shape(block)
    } else if transform_named(kind) is Some {
        transform_shape(block, transform_named(kind)->0)
    } else if logic_named(kind) is Some {
        logic_shape(block, logic_named(kind)->0)
    } else if flip_flop_named(kind) is Some {
        flip_flop_shape(block, flip_flop_named(kind)->0)
    } else {
        function_shape(block, kind)
    }
}

fn build_shape<S: Scalar>(block: &BlockInstance, kind: &str) -> (r: Result<Body<S>, String>)
    ensures
        seen(r) == shape::<S>(block@, kind@),
{
    if text::same(kind, "const") {
        build_const(block)
    } else if text::same(kind, "time") {
        Ok(make_source(BlockKind::Time))
    } else if text::same(kind, "pwc") {
        build_pwc(block)
    } else if text::same(kind, "pwl") {
        build_pwl(block)
    } else if text::same(kind, "sinwave") {
        build_sinwave(block)
    } else if text::same(kind, "pulsewave") {
        build_pulsewave(block)
    } else if text::same(kind, "expwave") {
        build_expwave(block)
    } else if text::same(kind, "sffmwave") {
        build_sffmwave(block)
    } else if text::same(kind, "sum") {
        build_sum(block)
    } else if text::same(kind, "gain") {
        build_gain(block)
    } else if text::same(kind, "pid") {
        build_pid(block)
    } else if text::same(kind, "vco") {
        build_vco(block)
    } else if text::same(kind, "pwm") {
        build_pwm(block)
    } else if text::same(kind, "pspwm") {
        build_pspwm(block)
    } else if text::same(kind, "hysteresis") {
        build_hysteresis(block)
    } else if text::same(kind, "cscript") {
        build_cscript(block)
    } else if text::same(kind, "statespace") {
        build_statespace(block)
    } else if text::same(kind, "tf") {
        build_tf(block)
    } else if text::same(kind, "product") {
        build_product(block)
    } else if text::same(kind, "saturation") {
        build_saturation(block)
    } else if text::same(kind, "table") {
        build_table(block)
    } else if text::same(kind, "probe") || text::same(kind, "phys2sig") {
        build_probe(block, kind)
    } else if text::same(kind, "sig2gate") {
        add_input(block, BlockKind::Sig2Gate)
    } else if text::same(kind, "sig2voltage") {
        add_input(block, BlockKind::Sig2Voltage)
    } else if text::same(kind, "sig2current") {
        add_input(block, BlockKind::Sig2Current)
    } else if text::same(kind, "sig2phys") {
        build_sig2phys(block)
    } else if text::same(kind, "pmsm") {
        build_pmsm(block)
    } else if text::same(kind, "srlatch") {
        build_srlatch(block)
    } else if text::same(kind, "counter") {
        build_counter(block)
    } else if text::same(kind, "discretestatespace") {
        build_discretestatespace(block)
    } else if text::same(kind, "discretetf") {
        build_discretetf(block)
    } else if text::same(kind, "discretepid") {
        build_discretepid(block)
    } else if let Some(transform) = find_transform(kind) {
        build_transform(block, transform)
    } else if let Some(op) = find_logic(kind) {
        build_logic(block, op)
    } else if let Some(flip_flop) = find_flip_flop(kind) {
        build_flip_flop(block, flip_flop)
    } else {
        build_function(block, kind)
    }
}

/// The kind a block line names; a diode where it names none.
pub open spec fn kind_of(block: Block) -> Seq<char> {
    match field(block, "kind"@) {
        Some(kind) => kind,
        None => "ideal_diode"@,
    }
}

/// What a block line declares, or what is wrong with it.
pub open spec fn declared<S: Scalar>(block: Block) -> Result<Declared<S>, Seq<char>> {
    let kind = kind_of(block);
    if kind == "ideal_diode"@ || kind == "diode"@ {
        match diode::<S>(block) {
            Ok(diode) => Ok(Declared::IdealDiode(diode)),
            Err(e) => Err(e),
        }
    } else if kind == "ideal_switch"@ || kind == "mosfet"@ {
        switch(block)
    } else {
        match shape::<S>(block, kind) {
            Ok(shape) => match starting_state(block, shape.kind) {
                Ok(ic) => Ok(
                    Declared::Block(
                        Instance { name: block.name, kind: shape.kind, inputs: shape.inputs, ic },
                    ),
                ),
                Err(e) => Err(e),
            },
            Err(e) => Err(e),
        }
    }
}

/// Reads what a block line declares.
pub fn build_kind<S: Scalar>(block: &BlockInstance) -> (r: Result<Kind<S>, String>)
    ensures
        seen(r) == declared::<S>(block@),
{
    let kind = match get(block, "kind") {
        Some(kind) => kind,
        None => "ideal_diode",
    };
    if text::same(kind, "ideal_diode") || text::same(kind, "diode") {
        return match get_diode(block) {
            Ok(diode) => Ok(Kind::IdealDiode(diode)),
            Err(e) => Err(e),
        };
    }
    if text::same(kind, "ideal_switch") || text::same(kind, "mosfet") {
        return build_switch(block);
    }
    let body: Body<S> = match build_shape(block, kind) {
        Ok(body) => body,
        Err(e) => return Err(e),
    };
    match get_starting_state(block, &body.kind) {
        Ok(ic) => Ok(
            Kind::Block(
                block_graph::BlockInstance {
                    name: text::copy(block.name.as_str()),
                    kind: body.kind,
                    inputs: body.inputs,
                    ic,
                },
            ),
        ),
        Err(e) => Err(e),
    }
}

} // verus!
