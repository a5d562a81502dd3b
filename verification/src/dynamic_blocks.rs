//! Blocks with memory: controllers, oscillators, modulators, linear systems and motors.

use crate::block_fields::{
    begins_list, complain, complain_of_field, complaint, field, field_complaint, get, get_number,
    get_number_or_zero, get_signal, get_signals, get_text, has, link, link_list,
    matrix_or_shorthand, matrix_rows, number, number_in, number_or_zero, one_signal, opens_list,
    parse_matrix_or_vector_shorthand, parse_matrix_rows, parse_signal, parse_signals, parse_vector,
    read_number, required, required_links, seen, seen_links, seen_rows, single_link, told, vector,
};
use crate::block_graph::{
    links, BlockKind, DiscreteIntegrationMethod, DiscretePid, Form, Hysteresis, Linear, Link, Pid,
    PidClamp, Pmsm, Ratio, SampleTimeSpec, Signal, StateSpace, TransferFunction, Vco,
};
use crate::matrix::row_seqs;
use crate::netlist::{Block, BlockInstance};
use crate::scalar;
use crate::scalar::Scalar;
use crate::static_blocks::{add_input, three_signals, with_input, Body, Shape};
use crate::text;
use vstd::prelude::*;

verus! {

// Controllers

/// The gains of a PID controller. The filter coefficient has to be positive.
pub open spec fn pid_gains<S: Scalar>(block: Block) -> Result<Pid<S>, Seq<char>> {
    match number::<S>(block, "kp"@) {
        Ok(kp) => match number::<S>(block, "ki"@) {
            Ok(ki) => match number::<S>(block, "kd"@) {
                Ok(kd) => match number::<S>(block, "n"@) {
                    Ok(n) => Ok(Pid { kp, ki, kd, n }),
                    Err(e) => Err(e),
                },
                Err(e) => Err(e),
            },
            Err(e) => Err(e),
        },
        Err(e) => Err(e),
    }
}

fn get_pid_gains<S: Scalar>(block: &BlockInstance) -> (r: Result<Pid<S>, String>)
    ensures
        told(r) == pid_gains::<S>(block@),
{
    let kp: S = match get_number(block, "kp") {
        Ok(x) => x,
        Err(e) => return Err(e),
    };
    let ki: S = match get_number(block, "ki") {
        Ok(x) => x,
        Err(e) => return Err(e),
    };
    let kd: S = match get_number(block, "kd") {
        Ok(x) => x,
        Err(e) => return Err(e),
    };
    let n: S = match get_number(block, "n") {
        Ok(x) => x,
        Err(e) => return Err(e),
    };
    Ok(Pid { kp, ki, kd, n })
}

/// The bounds of a controller and its inputs: the error, and the two bounds where they are
/// read in every step. They have to be signals both or numbers both.
pub open spec fn clamping<S: Scalar>(block: Block) -> Result<
    (PidClamp<S>, Seq<Link>),
    Seq<char>,
> {
    match required(block, "in"@) {
        Ok(error) => match field(block, "clamp_lo_in"@) {
            Some(lo) => match field(block, "clamp_hi_in"@) {
                Some(hi) => Ok((PidClamp::Dynamic, seq![link(error), link(lo), link(hi)])),
                None => Err(half_clamped(block)),
            },
            None => match field(block, "clamp_hi_in"@) {
                Some(hi) => Err(half_clamped(block)),
                None => match number::<S>(block, "clamp_lo"@) {
                    Ok(lo) => match number::<S>(block, "clamp_hi"@) {
                        Ok(hi) => Ok((PidClamp::Fixed(lo, hi), seq![link(error)])),
                        Err(e) => Err(e),
                    },
                    Err(e) => Err(e),
                },
            },
        },
        Err(e) => Err(e),
    }
}

/// The complaint that only one bound is a signal.
pub open spec fn half_clamped(block: Block) -> Seq<char> {
    complaint(
        block,
        ": 'clamp_lo_in'/'clamp_hi_in' must both be given together (dynamic clamp) or both omitted (fixed clamp= clamp_lo/clamp_hi)"@,
    )
}

/// What bounds and inputs are seen as, or the message.
pub open spec fn seen_clamping<S>(r: Result<(PidClamp<S>, Vec<Signal>), String>) -> Result<
    (PidClamp<S>, Seq<Link>),
    Seq<char>,
> {
    match r {
        Ok((clamp, inputs)) => Ok((clamp, links(inputs@))),
        Err(message) => Err(message@),
    }
}

fn get_clamping<S: Scalar>(block: &BlockInstance) -> (r: Result<
    (PidClamp<S>, Vec<Signal>),
    String,
>)
    ensures
        seen_clamping(r) == clamping::<S>(block@),
{
    let error = match get_text(block, "in") {
        Ok(value) => parse_signal(value),
        Err(e) => return Err(e),
    };
    match get(block, "clamp_lo_in") {
        Some(lo) => match get(block, "clamp_hi_in") {
            Some(hi) => Ok(
                (PidClamp::Dynamic, three_signals(error, parse_signal(lo), parse_signal(hi))),
            ),
            None => Err(report_half_clamped(block)),
        },
        None => match get(block, "clamp_hi_in") {
            Some(_) => Err(report_half_clamped(block)),
            None => {
                let lo: S = match get_number(block, "clamp_lo") {
                    Ok(x) => x,
                    Err(e) => return Err(e),
                };
                let hi: S = match get_number(block, "clamp_hi") {
                    Ok(x) => x,
                    Err(e) => return Err(e),
                };
                Ok((PidClamp::Fixed(lo, hi), one_signal(error)))
            },
        },
    }
}

fn report_half_clamped(block: &BlockInstance) -> (r: String)
    ensures
        r@ == half_clamped(block@),
{
    complain(
        block,
        ": 'clamp_lo_in'/'clamp_hi_in' must both be given together (dynamic clamp) or both omitted (fixed clamp= clamp_lo/clamp_hi)",
    )
}

/// `kind=pid`. The derivative filter coefficient has to be positive.
pub open spec fn pid_shape<S: Scalar>(block: Block) -> Result<Shape<S>, Seq<char>> {
    match pid_gains::<S>(block) {
        Ok(pid) => if scalar::at_most(pid.n, S::nought()) {
            Err(complaint(block, ": invalid PID (NonPositiveFilterCoefficient)"@))
        } else {
            match clamping::<S>(block) {
                Ok((clamp, inputs)) => Ok(Shape { kind: Form::Pid { pid, clamp }, inputs }),
                Err(e) => Err(e),
            }
        },
        Err(e) => Err(e),
    }
}

pub(crate) fn build_pid<S: Scalar>(block: &BlockInstance) -> (r: Result<Body<S>, String>)
    ensures
        seen(r) == pid_shape::<S>(block@),
{
    let pid: Pid<S> = match get_pid_gains(block) {
        Ok(pid) => pid,
        Err(e) => return Err(e),
    };
    if scalar::is_at_most(pid.n, S::zero()) {
        return Err(complain(block, ": invalid PID (NonPositiveFilterCoefficient)"));
    }
    match get_clamping(block) {
        Ok((clamp, inputs)) => Ok(Body { kind: BlockKind::Pid { pid, clamp }, inputs }),
        Err(e) => Err(e),
    }
}

/// `kind=hysteresis`. The lower threshold must not exceed the upper one.
pub open spec fn hysteresis_shape<S: Scalar>(block: Block) -> Result<Shape<S>, Seq<char>> {
    match number::<S>(block, "high"@) {
        Ok(high) => match number::<S>(block, "low"@) {
            Ok(low) => if high.below(low) {
                Err(complaint(block, ": invalid hysteresis (LowExceedsHigh)"@))
            } else {
                with_input(block, Form::Hysteresis(Hysteresis { high, low }))
            },
            Err(e) => Err(e),
        },
        Err(e) => Err(e),
    }
}

pub(crate) fn build_hysteresis<S: Scalar>(block: &BlockInstance) -> (r: Result<Body<S>, String>)
    ensures
        seen(r) == hysteresis_shape::<S>(block@),
{
    let high: S = match get_number(block, "high") {
        Ok(x) => x,
        Err(e) => return Err(e),
    };
    let low: S = match get_number(block, "low") {
        Ok(x) => x,
        Err(e) => return Err(e),
    };
    if high.less_than(low) {
        return Err(complain(block, ": invalid hysteresis (LowExceedsHigh)"));
    }
    add_input(block, BlockKind::Hysteresis(Hysteresis { high, low }))
}

// Oscillators and modulators

/// The frequency range of an oscillator. The lower end must not exceed the upper one.
pub open spec fn frequency_range<S: Scalar>(block: Block, invalid: Seq<char>) -> Result<
    Vco<S>,
    Seq<char>,
> {
    match number::<S>(block, "f_min"@) {
        Ok(f_min) => match number::<S>(block, "f_max"@) {
            Ok(f_max) => if f_max.below(f_min) {
                Err(complaint(block, invalid))
            } else {
                Ok(Vco { f_min, f_max })
            },
            Err(e) => Err(e),
        },
        Err(e) => Err(e),
    }
}

fn get_frequency_range<S: Scalar>(block: &BlockInstance, invalid: &str) -> (r: Result<
    Vco<S>,
    String,
>)
    ensures
        told(r) == frequency_range::<S>(block@, invalid@),
{
    let f_min: S = match get_number(block, "f_min") {
        Ok(x) => x,
        Err(e) => return Err(e),
    };
    let f_max: S = match get_number(block, "f_max") {
        Ok(x) => x,
        Err(e) => return Err(e),
    };
    if f_max.less_than(f_min) {
        return Err(complain(block, invalid));
    }
    Ok(Vco { f_min, f_max })
}

/// `kind=vco`.
pub open spec fn vco_shape<S: Scalar>(block: Block) -> Result<Shape<S>, Seq<char>> {
    match frequency_range::<S>(block, ": invalid vco (FMinExceedsFMax)"@) {
        Ok(vco) => with_input(block, Form::Vco(vco)),
        Err(e) => Err(e),
    }
}

pub(crate) fn build_vco<S: Scalar>(block: &BlockInstance) -> (r: Result<Body<S>, String>)
    ensures
        seen(r) == vco_shape::<S>(block@),
{
    match get_frequency_range(block, ": invalid vco (FMinExceedsFMax)") {
        Ok(vco) => add_input(block, BlockKind::Vco(vco)),
        Err(e) => Err(e),
    }
}

/// The complaint that a block has the wrong number of output names.
pub open spec fn wrong_outputs(block: Block, wanted: nat, note: Seq<char>, given: nat) -> Seq<
    char,
> {
    complaint(
        block,
        ": 'outputs' needs exactly "@ + text::decimal(wanted) + " entries ("@ + note + "got "@
            + text::decimal(given) + ")"@,
    )
}

/// The names of a block's outputs: those in the field `outputs`, as many as are wanted, or
/// the given ones.
pub open spec fn output_names(
    block: Block,
    note: Seq<char>,
    default: Seq<Seq<char>>,
) -> Result<Seq<Seq<char>>, Seq<char>> {
    match field(block, "outputs"@) {
        Some(value) => {
            let names = text::split(value, ',');
            if names.len() == default.len() {
                Ok(names)
            } else {
                Err(wrong_outputs(block, default.len(), note, names.len()))
            }
        },
        None => Ok(default),
    }
}

/// What a list of names is seen as, or the message.
pub open spec fn seen_texts(r: Result<Vec<String>, String>) -> Result<Seq<Seq<char>>, Seq<char>> {
    match r {
        Ok(names) => Ok(text::texts(names@)),
        Err(message) => Err(message@),
    }
}

pub(crate) fn get_output_names(
    block: &BlockInstance,
    note: &str,
    default: Vec<String>,
) -> (r: Result<Vec<String>, String>)
    ensures
        seen_texts(r) == output_names(block@, note@, text::texts(default@)),
{
    match get(block, "outputs") {
        Some(value) => {
            let names = text::pieces(value, ',');
            if names.len() == default.len() {
                return Ok(names);
            }
            let mut what = text::concat5(
                ": 'outputs' needs exactly ",
                text::number_text(default.len()).as_str(),
                " entries (",
                note,
                "got ",
            );
            what.append(text::number_text(names.len()).as_str());
            what.append(")");
            proof {
                assert(names@.len() == text::texts(names@).len());
            }
            Err(complain(block, what.as_str()))
        },
        None => Ok(default),
    }
}

/// The name of a further output.
pub open spec fn further(name: Seq<char>, suffix: Seq<char>) -> Seq<char> {
    name + "_"@ + suffix
}

/// A list of one name.
pub(crate) fn first_name(name: &str) -> (r: Vec<String>)
    ensures
        text::texts(r@) == seq![name@],
{
    let mut out: Vec<String> = Vec::new();
    out.push(text::copy(name));
    assert(text::texts(out@) =~= seq![name@]);
    out
}

/// Adds the name of a further output.
pub(crate) fn push_further(list: &mut Vec<String>, name: &str, suffix: &str)
    ensures
        text::texts(final(list)@) == text::texts(old(list)@).push(further(name@, suffix@)),
{
    let item = text::concat3(name, "_", suffix);
    list.push(item);
    assert(text::texts(list@) =~= text::texts(old(list)@).push(item@));
}

/// The names of a modulator's outputs: the main one and its complement.
pub open spec fn modulator_outputs(block: Block) -> Result<Seq<Seq<char>>, Seq<char>> {
    output_names(
        block,
        "main, complement; "@,
        seq![block.name, further(block.name, "comp"@)],
    )
}

fn get_modulator_outputs(block: &BlockInstance) -> (r: Result<Vec<String>, String>)
    ensures
        seen_texts(r) == modulator_outputs(block@),
{
    let mut default = first_name(block.name.as_str());
    push_further(&mut default, block.name.as_str(), "comp");
    assert(text::texts(default@) =~= seq![block.name@, further(block.name@, "comp"@)]);
    get_output_names(block, "main, complement; ", default)
}

/// `kind=pwm`.
pub open spec fn pwm_shape<S: Scalar>(block: Block) -> Result<Shape<S>, Seq<char>> {
    match modulator_outputs(block) {
        Ok(output_names) => match number::<S>(block, "freq"@) {
            Ok(freq_hz) => match number_or_zero::<S>(block, "red"@) {
                Ok(red) => match number_or_zero::<S>(block, "fed"@) {
                    Ok(fed) => with_input(block, Form::Pwm { freq_hz, red, fed, output_names }),
                    Err(e) => Err(e),
                },
                Err(e) => Err(e),
            },
            Err(e) => Err(e),
        },
        Err(e) => Err(e),
    }
}

pub(crate) fn build_pwm<S: Scalar>(block: &BlockInstance) -> (r: Result<Body<S>, String>)
    ensures
        seen(r) == pwm_shape::<S>(block@),
{
    let output_names = match get_modulator_outputs(block) {
        Ok(names) => names,
        Err(e) => return Err(e),
    };
    let freq_hz: S = match get_number(block, "freq") {
        Ok(x) => x,
        Err(e) => return Err(e),
    };
    let red: S = match get_number_or_zero(block, "red") {
        Ok(x) => x,
        Err(e) => return Err(e),
    };
    let fed: S = match get_number_or_zero(block, "fed") {
        Ok(x) => x,
        Err(e) => return Err(e),
    };
    add_input(block, BlockKind::Pwm { freq_hz, red, fed, output_names })
}

/// The complaint that a block has the wrong number of inputs.
pub open spec fn wrong_inputs(
    block: Block,
    kind: Seq<char>,
    wanted: Seq<char>,
    given: nat,
) -> Seq<char> {
    complaint(
        block,
        " kind='"@ + kind + "' needs "@ + wanted + "got "@ + text::decimal(given) + ")"@,
    )
}

pub(crate) fn report_wrong_inputs(
    block: &BlockInstance,
    kind: &str,
    wanted: &str,
    given: usize,
) -> (r: String)
    ensures
        r@ == wrong_inputs(block@, kind@, wanted@, given as nat),
{
    let mut what = text::concat5(" kind='", kind, "' needs ", wanted, "got ");
    what.append(text::number_text(given).as_str());
    what.append(")");
    complain(block, what.as_str())
}

/// `kind=pspwm`.
pub open spec fn pspwm_shape<S: Scalar>(block: Block) -> Result<Shape<S>, Seq<char>> {
    match frequency_range::<S>(block, ": invalid pspwm oscillator (FMinExceedsFMax)"@) {
        Ok(osc) => match required_links(block, "inputs"@) {
            Ok(inputs) => if inputs.len() != 3 {
                Err(wrong_inputs(block, "pspwm"@, "3 inputs (freq,phase,duty; "@, inputs.len()))
            } else {
                match modulator_outputs(block) {
                    Ok(output_names) => match number_or_zero::<S>(block, "red"@) {
                        Ok(red) => match number_or_zero::<S>(block, "fed"@) {
                            Ok(fed) => Ok(
                                Shape {
                                    kind: Form::PhaseShiftPwm { osc, red, fed, output_names },
                                    inputs,
                                },
                            ),
                            Err(e) => Err(e),
                        },
                        Err(e) => Err(e),
                    },
                    Err(e) => Err(e),
                }
            },
            Err(e) => Err(e),
        },
        Err(e) => Err(e),
    }
}

pub(crate) fn build_pspwm<S: Scalar>(block: &BlockInstance) -> (r: Result<Body<S>, String>)
    ensures
        seen(r) == pspwm_shape::<S>(block@),
{
    let osc: Vco<S> = match get_frequency_range(
        block,
        ": invalid pspwm oscillator (FMinExceedsFMax)",
    ) {
        Ok(vco) => vco,
        Err(e) => return Err(e),
    };
    let inputs = match get_signals(block, "inputs") {
        Ok(inputs) => inputs,
        Err(e) => return Err(e),
    };
    if inputs.len() != 3 {
        return Err(
            report_wrong_inputs(block, "pspwm", "3 inputs (freq,phase,duty; ", inputs.len()),
        );
    }
    let output_names = match get_modulator_outputs(block) {
        Ok(names) => names,
        Err(e) => return Err(e),
    };
    let red: S = match get_number_or_zero(block, "red") {
        Ok(x) => x,
        Err(e) => return Err(e),
    };
    let fed: S = match get_number_or_zero(block, "fed") {
        Ok(x) => x,
        Err(e) => return Err(e),
    };
    Ok(Body { kind: BlockKind::PhaseShiftPwm { osc, red, fed, output_names }, inputs })
}

// Sample times

/// The sample time of a block, where it has one: `ts` in seconds or `freq` in hertz, not both.
pub open spec fn sample_time<S: Scalar>(block: Block) -> Result<Option<S>, Seq<char>> {
    match field(block, "ts"@) {
        Some(ts) => match field(block, "freq"@) {
            Some(freq) => Err(
                complaint(
                    block,
                    ": 'ts' and 'freq' are mutually exclusive (both set this block's sample time)"@,
                ),
            ),
            None => match number::<S>(block, "ts"@) {
                Ok(x) => Ok(Some(x)),
                Err(e) => Err(e),
            },
        },
        None => match field(block, "freq"@) {
            Some(freq) => match number::<S>(block, "freq"@) {
                Ok(x) => Ok(Some(S::unit().quotient(x))),
                Err(e) => Err(e),
            },
            None => Ok(None),
        },
    }
}

fn get_sample_time<S: Scalar>(block: &BlockInstance) -> (r: Result<Option<S>, String>)
    ensures
        told(r) == sample_time::<S>(block@),
{
    if has(block, "ts") {
        if has(block, "freq") {
            return Err(
                complain(
                    block,
                    ": 'ts' and 'freq' are mutually exclusive (both set this block's sample time)",
                ),
            );
        }
        match get_number(block, "ts") {
            Ok(x) => Ok(Some(x)),
            Err(e) => Err(e),
        }
    } else if has(block, "freq") {
        let freq: S = match get_number(block, "freq") {
            Ok(x) => x,
            Err(e) => return Err(e),
        };
        Ok(Some(S::one().over(freq)))
    } else {
        Ok(None)
    }
}

/// The sample time of a sampled block, which has to have one.
pub open spec fn period<S: Scalar>(block: Block) -> Result<S, Seq<char>> {
    if field(block, "ts"@) == Some("variable"@) {
        Err(
            complaint(
                block,
                ": ts=variable is not available for a discrete block (give a fixed ts= or freq=)"@,
            ),
        )
    } else {
        match sample_time::<S>(block) {
            Ok(Some(x)) => Ok(x),
            Ok(None) => Err(
                complaint(
                    block,
                    " missing 'ts=' or 'freq=' (a discrete block needs a sample time)"@,
                ),
            ),
            Err(e) => Err(e),
        }
    }
}

fn get_period<S: Scalar>(block: &BlockInstance) -> (r: Result<S, String>)
    ensures
        told(r) == period::<S>(block@),
{
    let variable = match get(block, "ts") {
        Some(value) => text::same(value, "variable"),
        None => false,
    };
    if variable {
        return Err(
            complain(
                block,
                ": ts=variable is not available for a discrete block (give a fixed ts= or freq=)",
            ),
        );
    }
    match get_sample_time(block) {
        Ok(Some(x)) => Ok(x),
        Ok(None) => Err(
            complain(block, " missing 'ts=' or 'freq=' (a discrete block needs a sample time)"),
        ),
        Err(e) => Err(e),
    }
}

/// A sample grid that begins at time zero.
pub open spec fn every<S: Scalar>(period: S) -> SampleTimeSpec<S> {
    SampleTimeSpec::Periodic { period, offset: S::nought() }
}

// Scripts

/// The inputs in the field `inputs`, or the single one in the field `in`.
pub open spec fn bundle(block: Block) -> Result<Seq<Link>, Seq<char>> {
    match field(block, "inputs"@) {
        Some(value) => Ok(link_list(value)),
        None => single_link(block, "in"@),
    }
}

fn get_bundle(block: &BlockInstance) -> (r: Result<Vec<Signal>, String>)
    ensures
        seen_links(r) == bundle(block@),
{
    match get(block, "inputs") {
        Some(value) => Ok(parse_signals(value)),
        None => get_signal(block, "in"),
    }
}

/// The natural number in a field, where the field is there.
pub open spec fn count(block: Block, key: Seq<char>, what: Seq<char>) -> Result<
    Option<usize>,
    Seq<char>,
> {
    match field(block, key) {
        Some(value) => match text::natural(value) {
            Some(n) => if n <= usize::MAX {
                Ok(Some(n as usize))
            } else {
                Err(field_complaint(block, key, what))
            },
            None => Err(field_complaint(block, key, what)),
        },
        None => Ok(None),
    }
}

pub(crate) fn get_count(block: &BlockInstance, key: &str, what: &str) -> (r: Result<
    Option<usize>,
    String,
>)
    ensures
        told(r) == count(block@, key@, what@),
{
    match get(block, key) {
        Some(value) => match text::parse_natural(value) {
            Some(n) => Ok(Some(n)),
            None => Err(complain_of_field(block, key, what)),
        },
        None => Ok(None),
    }
}

/// `kind=cscript`.
pub open spec fn cscript_shape<S: Scalar>(block: Block) -> Result<Shape<S>, Seq<char>> {
    match required(block, "lib"@) {
        Ok(lib) => match bundle(block) {
            Ok(inputs) => match sample_time::<S>(block) {
                Ok(sample_time) => match count(
                    block,
                    "xc_count"@,
                    " is not a non-negative integer"@,
                ) {
                    Ok(xc) => Ok(
                        Shape {
                            kind: Form::CScript {
                                lib,
                                output_names: match field(block, "outputs"@) {
                                    Some(value) => text::split(value, ','),
                                    None => seq![block.name],
                                },
                                sample_time,
                                xc_count: match xc {
                                    Some(n) => n,
                                    None => 0,
                                },
                            },
                            inputs,
                        },
                    ),
                    Err(e) => Err(e),
                },
                Err(e) => Err(e),
            },
            Err(e) => Err(e),
        },
        Err(e) => Err(e),
    }
}

pub(crate) fn build_cscript<S: Scalar>(block: &BlockInstance) -> (r: Result<Body<S>, String>)
    ensures
        seen(r) == cscript_shape::<S>(block@),
{
    let lib = match get_text(block, "lib") {
        Ok(value) => text::copy(value),
        Err(e) => return Err(e),
    };
    let output_names = match get(block, "outputs") {
        Some(value) => text::pieces(value, ','),
        None => first_name(block.name.as_str()),
    };
    let inputs = match get_bundle(block) {
        Ok(inputs) => inputs,
        Err(e) => return Err(e),
    };
    let sample_time: Option<S> = match get_sample_time(block) {
        Ok(x) => x,
        Err(e) => return Err(e),
    };
    let xc_count: usize = match get_count(block, "xc_count", " is not a non-negative integer") {
        Ok(Some(n)) => n,
        Ok(None) => 0,
        Err(e) => return Err(e),
    };
    Ok(Body { kind: BlockKind::CScript { lib, output_names, sample_time, xc_count }, inputs })
}

// Linear systems

/// The number of columns of a matrix: the length of its first row.
pub open spec fn width<S>(rows: Seq<Seq<S>>) -> nat {
    if rows.len() == 0 {
        0
    } else {
        rows[0].len()
    }
}

/// A matrix of zeros.
pub open spec fn zeros<S: Scalar>(rows: nat, cols: nat) -> Seq<Seq<S>> {
    Seq::new(rows, |i: int| Seq::new(cols, |j: int| S::nought()))
}

fn make_zeros<S: Scalar>(rows: usize, cols: usize) -> (r: Vec<Vec<S>>)
    ensures
        row_seqs(r@) == zeros::<S>(rows as nat, cols as nat),
{
    let mut out: Vec<Vec<S>> = Vec::new();
    let mut i: usize = 0;
    while i < rows
        invariant
            i <= rows,
            out@.len() == i,
            forall|k: int|
                0 <= k < i ==> (#[trigger] out@[k])@ == Seq::new(
                    cols as nat,
                    |j: int| S::nought(),
                ),
        decreases rows - i,
    {
        let mut row: Vec<S> = Vec::new();
        let mut j: usize = 0;
        while j < cols
            invariant
                j <= cols,
                row@.len() == j,
                forall|k: int| 0 <= k < j ==> #[trigger] row@[k] == S::nought(),
            decreases cols - j,
        {
            row.push(S::zero());
            j = j + 1;
        }
        assert(row@ =~= Seq::new(cols as nat, |j: int| S::nought()));
        out.push(row);
        i = i + 1;
    }
    assert(row_seqs(out@) =~= zeros::<S>(rows as nat, cols as nat));
    out
}

/// The complaint that a feedthrough is a number in a system with more than one input or
/// output.
pub open spec fn scalar_feedthrough(block: Block, outputs: nat, inputs: nat) -> Seq<char> {
    let (q, p) = (text::decimal(outputs), text::decimal(inputs));
    field_complaint(
        block,
        "d"@,
        " is a bare scalar, but this system has "@ + q + " output(s) and "@ + p
            + " input(s) -- declare 'd=[[...],...]' ("@ + q + "x"@ + p
            + ") for a MIMO system, a bare scalar is only valid for a 1x1 (SISO) one"@,
    )
}

/// The feedthrough matrix: zero where it is not given, a matrix, or a number in a system with
/// one input and one output.
pub open spec fn feedthrough<S: Scalar>(block: Block, outputs: nat, inputs: nat) -> Result<
    Seq<Seq<S>>,
    Seq<char>,
> {
    match field(block, "d"@) {
        None => Ok(zeros(outputs, inputs)),
        Some(value) => if opens_list(value) {
            matrix_rows(block, "d"@, value)
        } else if outputs != 1 || inputs != 1 {
            Err(scalar_feedthrough(block, outputs, inputs))
        } else {
            match number_in::<S>(block, "d"@, text::trim(value)) {
                Ok(x) => Ok(seq![seq![x]]),
                Err(e) => Err(e),
            }
        },
    }
}

fn get_feedthrough<S: Scalar>(block: &BlockInstance, outputs: usize, inputs: usize) -> (r: Result<
    Vec<Vec<S>>,
    String,
>)
    ensures
        seen_rows(r) == feedthrough::<S>(block@, outputs as nat, inputs as nat),
{
    match get(block, "d") {
        None => Ok(make_zeros(outputs, inputs)),
        Some(value) => {
            if begins_list(value) {
                return parse_matrix_rows(block, "d", value);
            }
            if outputs != 1 || inputs != 1 {
                let q = text::number_text(outputs);
                let p = text::number_text(inputs);
                let mut what = text::concat5(
                    " is a bare scalar, but this system has ",
                    q.as_str(),
                    " output(s) and ",
                    p.as_str(),
                    " input(s) -- declare 'd=[[...],...]' (",
                );
                what.append(q.as_str());
                what.append("x");
                what.append(p.as_str());
                what.append(
                    ") for a MIMO system, a bare scalar is only valid for a 1x1 (SISO) one",
                );
                return Err(complain_of_field(block, "d", what.as_str()));
            }
            let x: S = match read_number(block, "d", text::trimmed(value).as_str()) {
                Ok(x) => x,
                Err(e) => return Err(e),
            };
            let mut row: Vec<S> = Vec::new();
            row.push(x);
            let mut out: Vec<Vec<S>> = Vec::new();
            out.push(row);
            assert(row@ =~= seq![x]);
            assert(row_seqs(out@) =~= seq![seq![x]]);
            Ok(out)
        },
    }
}

/// The matrices of a linear system. The input matrix may be given by its single column, the
/// output matrix by its single row.
pub open spec fn linear<S: Scalar>(block: Block) -> Result<Linear<S>, Seq<char>> {
    match required(block, "a"@) {
        Ok(a_text) => match matrix_rows::<S>(block, "a"@, a_text) {
            Ok(a) => match required(block, "b"@) {
                Ok(b_text) => match matrix_or_shorthand::<S>(block, "b"@, b_text, true) {
                    Ok(b) => match required(block, "c"@) {
                        Ok(c_text) => match matrix_or_shorthand::<S>(block, "c"@, c_text, false) {
                            Ok(c) => match feedthrough::<S>(block, c.len(), width(b)) {
                                Ok(d) => Ok(Linear { a, b, c, d }),
                                Err(e) => Err(e),
                            },
                            Err(e) => Err(e),
                        },
                        Err(e) => Err(e),
                    },
                    Err(e) => Err(e),
                },
                Err(e) => Err(e),
            },
            Err(e) => Err(e),
        },
        Err(e) => Err(e),
    }
}

fn get_linear<S: Scalar>(block: &BlockInstance) -> (r: Result<StateSpace<S>, String>)
    ensures
        seen(r) == linear::<S>(block@),
{
    let a_text = match get_text(block, "a") {
        Ok(value) => value,
        Err(e) => return Err(e),
    };
    let a: Vec<Vec<S>> = match parse_matrix_rows(block, "a", a_text) {
        Ok(rows) => rows,
        Err(e) => return Err(e),
    };
    let b_text = match get_text(block, "b") {
        Ok(value) => value,
        Err(e) => return Err(e),
    };
    let b: Vec<Vec<S>> = match parse_matrix_or_vector_shorthand(block, "b", b_text, true) {
        Ok(rows) => rows,
        Err(e) => return Err(e),
    };
    let c_text = match get_text(block, "c") {
        Ok(value) => value,
        Err(e) => return Err(e),
    };
    let c: Vec<Vec<S>> = match parse_matrix_or_vector_shorthand(block, "c", c_text, false) {
        Ok(rows) => rows,
        Err(e) => return Err(e),
    };
    let inputs: usize = if b.len() == 0 {
        0
    } else {
        b[0].len()
    };
    let outputs: usize = c.len();
    proof {
        assert(inputs == width(row_seqs(b@)));
        assert(outputs == row_seqs(c@).len());
    }
    match get_feedthrough(block, outputs, inputs) {
        Ok(d) => Ok(StateSpace { a, b, c, d }),
        Err(e) => Err(e),
    }
}

/// `kind=statespace`.
pub open spec fn statespace_shape<S: Scalar>(block: Block) -> Result<Shape<S>, Seq<char>> {
    match linear::<S>(block) {
        Ok(ss) => match bundle(block) {
            Ok(inputs) => Ok(Shape { kind: Form::StateSpace(ss), inputs }),
            Err(e) => Err(e),
        },
        Err(e) => Err(e),
    }
}

pub(crate) fn build_statespace<S: Scalar>(block: &BlockInstance) -> (r: Result<Body<S>, String>)
    ensures
        seen(r) == statespace_shape::<S>(block@),
{
    match get_linear(block) {
        Ok(ss) => match get_bundle(block) {
            Ok(inputs) => Ok(Body { kind: BlockKind::StateSpace(ss), inputs }),
            Err(e) => Err(e),
        },
        Err(e) => Err(e),
    }
}

/// A rational function: its denominator is not empty and does not begin with zero, and its
/// numerator has no higher degree.
pub open spec fn ratio<S: Scalar>(block: Block) -> Result<Ratio<S>, Seq<char>> {
    match required(block, "num"@) {
        Ok(num_text) => match vector::<S>(block, "num"@, num_text) {
            Ok(num) => match required(block, "den"@) {
                Ok(den_text) => match vector::<S>(block, "den"@, den_text) {
                    Ok(den) => if den.len() == 0 {
                        Err(complaint(block, ": invalid transfer function (EmptyDenominator)"@))
                    } else if den[0].equal(S::nought()) {
                        Err(
                            complaint(
                                block,
                                ": invalid transfer function (ZeroLeadingDenominatorCoefficient)"@,
                            ),
                        )
                    } else if num.len() > den.len() {
                        Err(
                            complaint(
                                block,
                                ": invalid transfer function (ImproperTransferFunction)"@,
                            ),
                        )
                    } else {
                        Ok(Ratio { num, den })
                    },
                    Err(e) => Err(e),
                },
                Err(e) => Err(e),
            },
            Err(e) => Err(e),
        },
        Err(e) => Err(e),
    }
}

fn get_ratio<S: Scalar>(block: &BlockInstance) -> (r: Result<TransferFunction<S>, String>)
    ensures
        seen(r) == ratio::<S>(block@),
{
    let num_text = match get_text(block, "num") {
        Ok(value) => value,
        Err(e) => return Err(e),
    };
    let num: Vec<S> = match parse_vector(block, "num", num_text) {
        Ok(v) => v,
        Err(e) => return Err(e),
    };
    let den_text = match get_text(block, "den") {
        Ok(value) => value,
        Err(e) => return Err(e),
    };
    let den: Vec<S> = match parse_vector(block, "den", den_text) {
        Ok(v) => v,
        Err(e) => return Err(e),
    };
    if den.len() == 0 {
        return Err(complain(block, ": invalid transfer function (EmptyDenominator)"));
    }
    if den[0].same_as(S::zero()) {
        return Err(
            complain(block, ": invalid transfer function (ZeroLeadingDenominatorCoefficient)"),
        );
    }
    if num.len() > den.len() {
        return Err(complain(block, ": invalid transfer function (ImproperTransferFunction)"));
    }
    Ok(TransferFunction { num, den })
}

/// `kind=tf`.
pub open spec fn tf_shape<S: Scalar>(block: Block) -> Result<Shape<S>, Seq<char>> {
    match ratio::<S>(block) {
        Ok(tf) => with_input(block, Form::TransferFunction(tf)),
        Err(e) => Err(e),
    }
}

pub(crate) fn build_tf<S: Scalar>(block: &BlockInstance) -> (r: Result<Body<S>, String>)
    ensures
        seen(r) == tf_shape::<S>(block@),
{
    match get_ratio(block) {
        Ok(tf) => add_input(block, BlockKind::TransferFunction(tf)),
        Err(e) => Err(e),
    }
}

/// `kind=discretestatespace`.
pub open spec fn discretestatespace_shape<S: Scalar>(block: Block) -> Result<Shape<S>, Seq<char>> {
    match linear::<S>(block) {
        Ok(ss) => match bundle(block) {
            Ok(inputs) => match period::<S>(block) {
                Ok(x) => Ok(
                    Shape {
                        kind: Form::DiscreteStateSpace { ss, sample_time: every(x) },
                        inputs,
                    },
                ),
                Err(e) => Err(e),
            },
            Err(e) => Err(e),
        },
        Err(e) => Err(e),
    }
}

pub(crate) fn build_discretestatespace<S: Scalar>(block: &BlockInstance) -> (r: Result<
    Body<S>,
    String,
>)
    ensures
        seen(r) == discretestatespace_shape::<S>(block@),
{
    match get_linear(block) {
        Ok(ss) => match get_bundle(block) {
            Ok(inputs) => match get_period(block) {
                Ok(x) => {
                    let sample_time = SampleTimeSpec::Periodic { period: x, offset: S::zero() };
                    Ok(Body { kind: BlockKind::DiscreteStateSpace { ss, sample_time }, inputs })
                },
                Err(e) => Err(e),
            },
            Err(e) => Err(e),
        },
        Err(e) => Err(e),
    }
}

/// `kind=discretetf`.
pub open spec fn discretetf_shape<S: Scalar>(block: Block) -> Result<Shape<S>, Seq<char>> {
    match ratio::<S>(block) {
        Ok(tf) => match period::<S>(block) {
            Ok(x) => with_input(
                block,
                Form::DiscreteTransferFunction { tf, sample_time: every(x) },
            ),
            Err(e) => Err(e),
        },
        Err(e) => Err(e),
    }
}

pub(crate) fn build_discretetf<S: Scalar>(block: &BlockInstance) -> (r: Result<Body<S>, String>)
    ensures
        seen(r) == discretetf_shape::<S>(block@),
{
    match get_ratio(block) {
        Ok(tf) => match get_period(block) {
            Ok(x) => {
                let sample_time = SampleTimeSpec::Periodic { period: x, offset: S::zero() };
                add_input(block, BlockKind::DiscreteTransferFunction { tf, sample_time })
            },
            Err(e) => Err(e),
        },
        Err(e) => Err(e),
    }
}

/// How a sampled controller integrates: `forward` where nothing is said.
pub open spec fn integration_method(block: Block) -> Result<
    DiscreteIntegrationMethod,
    Seq<char>,
> {
    match field(block, "integration_method"@) {
        None => Ok(DiscreteIntegrationMethod::ForwardEuler),
        Some(value) => if value == "forward"@ {
            Ok(DiscreteIntegrationMethod::ForwardEuler)
        } else if value == "backward"@ {
            Ok(DiscreteIntegrationMethod::BackwardEuler)
        } else if value == "trapezoidal"@ {
            Ok(DiscreteIntegrationMethod::Trapezoidal)
        } else {
            Err(
                complaint(
                    block,
                    ": unknown integration_method '"@ + value
                        + "' (forward, backward or trapezoidal)"@,
                ),
            )
        },
    }
}

fn get_integration_method(block: &BlockInstance) -> (r: Result<DiscreteIntegrationMethod, String>)
    ensures
        told(r) == integration_method(block@),
{
    match get(block, "integration_method") {
        None => Ok(DiscreteIntegrationMethod::ForwardEuler),
        Some(value) => {
            if text::same(value, "forward") {
                Ok(DiscreteIntegrationMethod::ForwardEuler)
            } else if text::same(value, "backward") {
                Ok(DiscreteIntegrationMethod::BackwardEuler)
            } else if text::same(value, "trapezoidal") {
                Ok(DiscreteIntegrationMethod::Trapezoidal)
            } else {
                let what = text::concat3(
                    ": unknown integration_method '",
                    value,
                    "' (forward, backward or trapezoidal)",
                );
                Err(complain(block, what.as_str()))
            }
        },
    }
}

/// `kind=discretepid`.
pub open spec fn discretepid_shape<S: Scalar>(block: Block) -> Result<Shape<S>, Seq<char>> {
    match pid_gains::<S>(block) {
        Ok(gains) => match clamping::<S>(block) {
            Ok((clamp, inputs)) => match period::<S>(block) {
                Ok(x) => match integration_method(block) {
                    Ok(method) => Ok(
                        Shape {
                            kind: Form::DiscretePid {
                                pid: DiscretePid {
                                    kp: gains.kp,
                                    ki: gains.ki,
                                    kd: gains.kd,
                                    n: gains.n,
                                    period: x,
                                    method,
                                },
                                clamp,
                                sample_time: every(x),
                            },
                            inputs,
                        },
                    ),
                    Err(e) => Err(e),
                },
                Err(e) => Err(e),
            },
            Err(e) => Err(e),
        },
        Err(e) => Err(e),
    }
}

pub(crate) fn build_discretepid<S: Scalar>(block: &BlockInstance) -> (r: Result<Body<S>, String>)
    ensures
        seen(r) == discretepid_shape::<S>(block@),
{
    let gains: Pid<S> = match get_pid_gains(block) {
        Ok(pid) => pid,
        Err(e) => return Err(e),
    };
    let (clamp, inputs) = match get_clamping::<S>(block) {
        Ok(pair) => pair,
        Err(e) => return Err(e),
    };
    let x: S = match get_period(block) {
        Ok(x) => x,
        Err(e) => return Err(e),
    };
    let method = match get_integration_method(block) {
        Ok(method) => method,
        Err(e) => return Err(e),
    };
    let pid = DiscretePid {
        kp: gains.kp,
        ki: gains.ki,
        kd: gains.kd,
        n: gains.n,
        period: x,
        method,
    };
    let sample_time = SampleTimeSpec::Periodic { period: x, offset: S::zero() };
    Ok(Body { kind: BlockKind::DiscretePid { pid, clamp, sample_time }, inputs })
}

// Motors

/// What is wrong with the parameters of a motor, if anything.
pub open spec fn motor_flaw<S: Scalar>(m: Pmsm<S>) -> Option<Seq<char>> {
    if m.r_s.below(S::nought()) {
        Some(": invalid pmsm (NegativeResistance)"@)
    } else if !(S::nought().below(m.l_d) && S::nought().below(m.l_q)) {
        Some(": invalid pmsm (NonPositiveInductance)"@)
    } else if scalar::at_most(m.pole_pairs, S::nought()) {
        Some(": invalid pmsm (NonPositivePolePairs)"@)
    } else if scalar::at_most(m.inertia, S::nought()) {
        Some(": invalid pmsm (NonPositiveInertia)"@)
    } else if m.friction.below(S::nought()) {
        Some(": invalid pmsm (NegativeFriction)"@)
    } else {
        None
    }
}

fn find_motor_flaw<S: Scalar>(m: &Pmsm<S>) -> (r: Option<&'static str>)
    ensures
        match r {
            Some(what) => motor_flaw(*m) == Some(what@),
            None => motor_flaw(*m) is None,
        },
{
    if m.r_s.less_than(S::zero()) {
        Some(": invalid pmsm (NegativeResistance)")
    } else if !(S::zero().less_than(m.l_d) && S::zero().less_than(m.l_q)) {
        Some(": invalid pmsm (NonPositiveInductance)")
    } else if scalar::is_at_most(m.pole_pairs, S::zero()) {
        Some(": invalid pmsm (NonPositivePolePairs)")
    } else if scalar::is_at_most(m.inertia, S::zero()) {
        Some(": invalid pmsm (NonPositiveInertia)")
    } else if m.friction.less_than(S::zero()) {
        Some(": invalid pmsm (NegativeFriction)")
    } else {
        None
    }
}

/// The parameters of a motor, each in the field of its name.
pub open spec fn motor<S: Scalar>(block: Block) -> Result<Pmsm<S>, Seq<char>> {
    match number::<S>(block, "r_s"@) {
        Ok(r_s) => match number::<S>(block, "l_d"@) {
            Ok(l_d) => match number::<S>(block, "l_q"@) {
                Ok(l_q) => match number::<S>(block, "lambda_pm"@) {
                    Ok(lambda_pm) => match number::<S>(block, "pole_pairs"@) {
                        Ok(pole_pairs) => match number::<S>(block, "inertia"@) {
                            Ok(inertia) => match number::<S>(block, "friction"@) {
                                Ok(friction) => Ok(
                                    Pmsm {
                                        r_s,
                                        l_d,
                                        l_q,
                                        lambda_pm,
                                        pole_pairs,
                                        inertia,
                                        friction,
                                    },
                                ),
                                Err(e) => Err(e),
                            },
                            Err(e) => Err(e),
                        },
                        Err(e) => Err(e),
                    },
                    Err(e) => Err(e),
                },
                Err(e) => Err(e),
            },
            Err(e) => Err(e),
        },
        Err(e) => Err(e),
    }
}

fn get_motor<S: Scalar>(block: &BlockInstance) -> (r: Result<Pmsm<S>, String>)
    ensures
        told(r) == motor::<S>(block@),
{
    let r_s: S = match get_number(block, "r_s") {
        Ok(x) => x,
        Err(e) => return Err(e),
    };
    let l_d: S = match get_number(block, "l_d") {
        Ok(x) => x,
        Err(e) => return Err(e),
    };
    let l_q: S = match get_number(block, "l_q") {
        Ok(x) => x,
        Err(e) => return Err(e),
    };
    let lambda_pm: S = match get_number(block, "lambda_pm") {
        Ok(x) => x,
        Err(e) => return Err(e),
    };
    let pole_pairs: S = match get_number(block, "pole_pairs") {
        Ok(x) => x,
        Err(e) => return Err(e),
    };
    let inertia: S = match get_number(block, "inertia") {
        Ok(x) => x,
        Err(e) => return Err(e),
    };
    let friction: S = match get_number(block, "friction") {
        Ok(x) => x,
        Err(e) => return Err(e),
    };
    Ok(Pmsm { r_s, l_d, l_q, lambda_pm, pole_pairs, inertia, friction })
}

/// The names a motor's outputs have where none are given.
pub open spec fn motor_names(name: Seq<char>) -> Seq<Seq<char>> {
    seq![name, further(name, "iq"@), further(name, "omega_m"@), further(name, "theta_e"@)]
}

/// `kind=pmsm`.
pub open spec fn pmsm_shape<S: Scalar>(block: Block) -> Result<Shape<S>, Seq<char>> {
    match motor::<S>(block) {
        Ok(pmsm) => match motor_flaw(pmsm) {
            Some(what) => Err(complaint(block, what)),
            None => match required_links(block, "inputs"@) {
                Ok(inputs) => if inputs.len() != 3 {
                    Err(wrong_inputs(block, "pmsm"@, "3 inputs (vd,vq,t_load; "@, inputs.len()))
                } else {
                    match output_names(block, ""@, motor_names(block.name)) {
                        Ok(output_names) => Ok(
                            Shape { kind: Form::Pmsm { pmsm, output_names }, inputs },
                        ),
                        Err(e) => Err(e),
                    }
                },
                Err(e) => Err(e),
            },
        },
        Err(e) => Err(e),
    }
}

pub(crate) fn build_pmsm<S: Scalar>(block: &BlockInstance) -> (r: Result<Body<S>, String>)
    ensures
        seen(r) == pmsm_shape::<S>(block@),
{
    let pmsm: Pmsm<S> = match get_motor(block) {
        Ok(pmsm) => pmsm,
        Err(e) => return Err(e),
    };
    match find_motor_flaw(&pmsm) {
        Some(what) => return Err(complain(block, what)),
        None => {},
    }
    let inputs = match get_signals(block, "inputs") {
        Ok(inputs) => inputs,
        Err(e) => return Err(e),
    };
    if inputs.len() != 3 {
        return Err(report_wrong_inputs(block, "pmsm", "3 inputs (vd,vq,t_load; ", inputs.len()));
    }
    let mut default = first_name(block.name.as_str());
    push_further(&mut default, block.name.as_str(), "iq");
    push_further(&mut default, block.name.as_str(), "omega_m");
    push_further(&mut default, block.name.as_str(), "theta_e");
    assert(text::texts(default@) =~= motor_names(block.name@));
    match get_output_names(block, "", default) {
        Ok(output_names) => Ok(Body { kind: BlockKind::Pmsm { pmsm, output_names }, inputs }),
        Err(e) => Err(e),
    }
}

} // verus!
