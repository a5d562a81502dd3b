//! Blocks without memory: sources, arithmetic, tables and functions.

use crate::block_fields::{
    complain, complain_of_field, complaint, constant, factor, field, field_complaint, get,
    get_number, get_number_or, get_signal, get_signals, get_text, head_of_line, line_head, link,
    number, number_or, one_signal, parse_const_value, parse_gain_value, parse_signal,
    parse_xy_points, points, required, required_links, seen, single_link,
};
use crate::block_graph::{links, BlockKind, Form, Link, Signal};
use crate::netlist::{Block, BlockInstance};
use crate::scalar::Scalar;
use crate::text;
use crate::transient_source::{TransientFunction, Wave};
use continuous_blocks::{MathFn1, MathFn2, MathFn3};
use vstd::prelude::*;

verus! {

/// The kind of a block and where its inputs come from.
#[derive(Debug, Clone, PartialEq)]
pub struct Body<S> {
    /// What the block computes.
    pub kind: BlockKind<S>,
    /// Where its inputs come from.
    pub inputs: Vec<Signal>,
}

/// The mathematical form of a [`Body`].
pub struct Shape<S> {
    pub kind: Form<S>,
    pub inputs: Seq<Link>,
}

impl<S: Scalar> View for Body<S> {
    type V = Shape<S>;

    open spec fn view(&self) -> Shape<S> {
        Shape { kind: self.kind@, inputs: links(self.inputs@) }
    }
}

/// A block without inputs.
pub open spec fn source<S: Scalar>(kind: Form<S>) -> Shape<S> {
    Shape { kind, inputs: Seq::empty() }
}

pub(crate) fn make_source<S: Scalar>(kind: BlockKind<S>) -> (r: Body<S>)
    ensures
        r@ == source(kind@),
{
    let inputs: Vec<Signal> = Vec::new();
    assert(links(inputs@) =~= Seq::empty());
    Body { kind, inputs }
}

/// A block whose single input is in the field `in`.
pub open spec fn with_input<S: Scalar>(block: Block, kind: Form<S>) -> Result<Shape<S>, Seq<char>> {
    match single_link(block, "in"@) {
        Ok(inputs) => Ok(Shape { kind, inputs }),
        Err(e) => Err(e),
    }
}

pub(crate) fn add_input<S: Scalar>(block: &BlockInstance, kind: BlockKind<S>) -> (r: Result<Body<S>, String>)
    ensures
        seen(r) == with_input(block@, kind@),
{
    match get_signal(block, "in") {
        Ok(inputs) => Ok(Body { kind, inputs }),
        Err(e) => Err(e),
    }
}

// Sources

/// `kind=const`.
pub open spec fn const_shape<S: Scalar>(block: Block) -> Result<Shape<S>, Seq<char>> {
    match required(block, "value"@) {
        Ok(value) => match constant::<S>(block, "value"@, value) {
            Ok(x) => Ok(source(Form::Const(x))),
            Err(e) => Err(e),
        },
        Err(e) => Err(e),
    }
}

pub(crate) fn build_const<S: Scalar>(block: &BlockInstance) -> (r: Result<Body<S>, String>)
    ensures
        seen(r) == const_shape::<S>(block@),
{
    match get_text(block, "value") {
        Ok(value) => match parse_const_value(block, "value", value) {
            Ok(x) => Ok(make_source(BlockKind::Const(x))),
            Err(e) => Err(e),
        },
        Err(e) => Err(e),
    }
}

/// The points of a schedule.
pub open spec fn schedule<S: Scalar>(block: Block) -> Result<Seq<(S, S)>, Seq<char>> {
    match required(block, "points"@) {
        Ok(value) => points(block, "points"@, value),
        Err(e) => Err(e),
    }
}

/// A schedule is periodic where `repeat=true`.
pub open spec fn repeats(block: Block) -> bool {
    field(block, "repeat"@) == Some("true"@)
}

fn get_schedule<S: Scalar>(block: &BlockInstance) -> (r: Result<Vec<(S, S)>, String>)
    ensures
        seen(r) == schedule::<S>(block@),
{
    match get_text(block, "points") {
        Ok(value) => parse_xy_points(block, "points", value),
        Err(e) => Err(e),
    }
}

fn is_repeated(block: &BlockInstance) -> (r: bool)
    ensures
        r == repeats(block@),
{
    match get(block, "repeat") {
        Some(value) => text::same(value, "true"),
        None => false,
    }
}

/// `kind=pwc`.
pub open spec fn pwc_shape<S: Scalar>(block: Block) -> Result<Shape<S>, Seq<char>> {
    match schedule::<S>(block) {
        Ok(points) => Ok(source(Form::Pwc { points, repeat: repeats(block) })),
        Err(e) => Err(e),
    }
}

/// `kind=pwl`.
pub open spec fn pwl_shape<S: Scalar>(block: Block) -> Result<Shape<S>, Seq<char>> {
    match schedule::<S>(block) {
        Ok(points) => Ok(source(Form::Pwl { points, repeat: repeats(block) })),
        Err(e) => Err(e),
    }
}

pub(crate) fn build_pwc<S: Scalar>(block: &BlockInstance) -> (r: Result<Body<S>, String>)
    ensures
        seen(r) == pwc_shape::<S>(block@),
{
    match get_schedule(block) {
        Ok(points) => Ok(make_source(BlockKind::Pwc { points, repeat: is_repeated(block) })),
        Err(e) => Err(e),
    }
}

pub(crate) fn build_pwl<S: Scalar>(block: &BlockInstance) -> (r: Result<Body<S>, String>)
    ensures
        seen(r) == pwl_shape::<S>(block@),
{
    match get_schedule(block) {
        Ok(points) => Ok(make_source(BlockKind::Pwl { points, repeat: is_repeated(block) })),
        Err(e) => Err(e),
    }
}

/// `kind=sinwave`.
pub open spec fn sinwave_shape<S: Scalar>(block: Block) -> Result<Shape<S>, Seq<char>> {
    match number::<S>(block, "va"@) {
        Ok(va) => match number::<S>(block, "freq"@) {
            Ok(freq) => Ok(
                source(
                    Form::Waveform(
                        Wave::Sin {
                            v0: number_or(block, "v0"@, S::nought()),
                            va,
                            freq,
                            td: number_or(block, "td"@, S::nought()),
                            theta: number_or(block, "theta"@, S::nought()),
                            phase: number_or(block, "phase"@, S::nought()),
                        },
                    ),
                ),
            ),
            Err(e) => Err(e),
        },
        Err(e) => Err(e),
    }
}

pub(crate) fn build_sinwave<S: Scalar>(block: &BlockInstance) -> (r: Result<Body<S>, String>)
    ensures
        seen(r) == sinwave_shape::<S>(block@),
{
    match get_number(block, "va") {
        Ok(va) => match get_number(block, "freq") {
            Ok(freq) => {
                let wave = TransientFunction::Sin {
                    v0: get_number_or(block, "v0", S::zero()),
                    va,
                    freq,
                    td: get_number_or(block, "td", S::zero()),
                    theta: get_number_or(block, "theta", S::zero()),
                    phase: get_number_or(block, "phase", S::zero()),
                };
                Ok(make_source(BlockKind::Waveform(wave)))
            },
            Err(e) => Err(e),
        },
        Err(e) => Err(e),
    }
}

/// `kind=pulsewave`.
pub open spec fn pulsewave_shape<S: Scalar>(block: Block) -> Result<Shape<S>, Seq<char>> {
    match number::<S>(block, "v1"@) {
        Ok(v1) => match number::<S>(block, "v2"@) {
            Ok(v2) => Ok(
                source(
                    Form::Waveform(
                        Wave::Pulse {
                            v1,
                            v2,
                            td: number_or(block, "td"@, S::nought()),
                            tr: number_or(block, "tr"@, S::nought()),
                            tf: number_or(block, "tf"@, S::nought()),
                            pw: number_or(block, "pw"@, S::forever()),
                            per: number_or(block, "per"@, S::forever()),
                        },
                    ),
                ),
            ),
            Err(e) => Err(e),
        },
        Err(e) => Err(e),
    }
}

pub(crate) fn build_pulsewave<S: Scalar>(block: &BlockInstance) -> (r: Result<Body<S>, String>)
    ensures
        seen(r) == pulsewave_shape::<S>(block@),
{
    match get_number(block, "v1") {
        Ok(v1) => match get_number(block, "v2") {
            Ok(v2) => {
                let wave = TransientFunction::Pulse {
                    v1,
                    v2,
                    td: get_number_or(block, "td", S::zero()),
                    tr: get_number_or(block, "tr", S::zero()),
                    tf: get_number_or(block, "tf", S::zero()),
                    pw: get_number_or(block, "pw", S::never()),
                    per: get_number_or(block, "per", S::never()),
                };
                Ok(make_source(BlockKind::Waveform(wave)))
            },
            Err(e) => Err(e),
        },
        Err(e) => Err(e),
    }
}

/// `kind=expwave`. Where `td2` is missing the wave never falls.
pub open spec fn expwave_shape<S: Scalar>(block: Block) -> Result<Shape<S>, Seq<char>> {
    match number::<S>(block, "v1"@) {
        Ok(v1) => match number::<S>(block, "v2"@) {
            Ok(v2) => Ok(
                source(
                    Form::Waveform(
                        Wave::Exp {
                            v1,
                            v2,
                            td1: number_or(block, "td1"@, S::nought()),
                            tau1: number_or(block, "tau1"@, S::unit()),
                            td2: number_or(block, "td2"@, S::forever()),
                            tau2: number_or(block, "tau2"@, S::unit()),
                        },
                    ),
                ),
            ),
            Err(e) => Err(e),
        },
        Err(e) => Err(e),
    }
}

pub(crate) fn build_expwave<S: Scalar>(block: &BlockInstance) -> (r: Result<Body<S>, String>)
    ensures
        seen(r) == expwave_shape::<S>(block@),
{
    match get_number(block, "v1") {
        Ok(v1) => match get_number(block, "v2") {
            Ok(v2) => {
                let wave = TransientFunction::Exp {
                    v1,
                    v2,
                    td1: get_number_or(block, "td1", S::zero()),
                    tau1: get_number_or(block, "tau1", S::one()),
                    td2: get_number_or(block, "td2", S::never()),
                    tau2: get_number_or(block, "tau2", S::one()),
                };
                Ok(make_source(BlockKind::Waveform(wave)))
            },
            Err(e) => Err(e),
        },
        Err(e) => Err(e),
    }
}

/// `kind=sffmwave`.
pub open spec fn sffmwave_shape<S: Scalar>(block: Block) -> Result<Shape<S>, Seq<char>> {
    match number::<S>(block, "va"@) {
        Ok(va) => match number::<S>(block, "fc"@) {
            Ok(fc) => match number::<S>(block, "fs"@) {
                Ok(fs) => Ok(
                    source(
                        Form::Waveform(
                            Wave::Sffm {
                                v0: number_or(block, "v0"@, S::nought()),
                                va,
                                fc,
                                mdi: number_or(block, "mdi"@, S::nought()),
                                fs,
                            },
                        ),
                    ),
                ),
                Err(e) => Err(e),
            },
            Err(e) => Err(e),
        },
        Err(e) => Err(e),
    }
}

pub(crate) fn build_sffmwave<S: Scalar>(block: &BlockInstance) -> (r: Result<Body<S>, String>)
    ensures
        seen(r) == sffmwave_shape::<S>(block@),
{
    match get_number(block, "va") {
        Ok(va) => match get_number(block, "fc") {
            Ok(fc) => match get_number(block, "fs") {
                Ok(fs) => {
                    let wave = TransientFunction::Sffm {
                        v0: get_number_or(block, "v0", S::zero()),
                        va,
                        fc,
                        mdi: get_number_or(block, "mdi", S::zero()),
                        fs,
                    };
                    Ok(make_source(BlockKind::Waveform(wave)))
                },
                Err(e) => Err(e),
            },
            Err(e) => Err(e),
        },
        Err(e) => Err(e),
    }
}

// Arithmetic

/// The weights in a comma-separated text from `i` on, behind those already read.
pub open spec fn signs_from<S: Scalar>(
    block: Block,
    list: Seq<Seq<char>>,
    i: int,
    read: Seq<S>,
) -> Result<Seq<S>, Seq<char>>
    decreases list.len() - i,
{
    if i >= list.len() {
        Ok(read)
    } else {
        match S::read(list[i]) {
            Some(x) => signs_from(block, list, i + 1, read.push(x)),
            None => Err(
                field_complaint(block, "signs"@, " entry '"@ + list[i] + "' is not a number"@),
            ),
        }
    }
}

fn parse_signs<S: Scalar>(block: &BlockInstance, value: &str) -> (r: Result<Vec<S>, String>)
    ensures
        seen(r) == signs_from::<S>(block@, text::split(value@, ','), 0, Seq::empty()),
{
    let parts = text::pieces(value, ',');
    let ghost list = text::split(value@, ',');
    let ghost all = signs_from::<S>(block@, list, 0, Seq::empty());
    let mut out: Vec<S> = Vec::new();
    let mut i: usize = 0;
    while i < parts.len()
        invariant
            i <= parts@.len(),
            list == text::texts(parts@),
            list == text::split(value@, ','),
            all == signs_from::<S>(block@, list, 0, Seq::empty()),
            all == signs_from(block@, list, i as int, out@),
        decreases parts@.len() - i,
    {
        assert(list[i as int] == parts@[i as int]@);
        match S::parse(parts[i].as_str()) {
            Some(x) => out.push(x),
            None => {
                let what = text::concat3(" entry '", parts[i].as_str(), "' is not a number");
                return Err(complain_of_field(block, "signs", what.as_str()));
            },
        }
        i = i + 1;
    }
    Ok(out)
}

/// The complaint that a sum has not one weight for each input.
pub open spec fn uneven_sum(block: Block, inputs: nat, signs: nat) -> Seq<char> {
    complaint(
        block,
        ": 'inputs' has "@ + text::decimal(inputs) + " entries but 'signs' has "@ + text::decimal(
            signs,
        ) + " (need one sign per input)"@,
    )
}

/// `kind=sum`.
pub open spec fn sum_shape<S: Scalar>(block: Block) -> Result<Shape<S>, Seq<char>> {
    match required_links(block, "inputs"@) {
        Ok(inputs) => match required(block, "signs"@) {
            Ok(value) => match signs_from::<S>(block, text::split(value, ','), 0, Seq::empty()) {
                Ok(signs) => if inputs.len() == signs.len() {
                    Ok(Shape { kind: Form::Sum(signs), inputs })
                } else {
                    Err(uneven_sum(block, inputs.len(), signs.len()))
                },
                Err(e) => Err(e),
            },
            Err(e) => Err(e),
        },
        Err(e) => Err(e),
    }
}

pub(crate) fn build_sum<S: Scalar>(block: &BlockInstance) -> (r: Result<Body<S>, String>)
    ensures
        seen(r) == sum_shape::<S>(block@),
{
    let inputs = match get_signals(block, "inputs") {
        Ok(inputs) => inputs,
        Err(e) => return Err(e),
    };
    let value = match get_text(block, "signs") {
        Ok(value) => value,
        Err(e) => return Err(e),
    };
    let signs: Vec<S> = match parse_signs(block, value) {
        Ok(signs) => signs,
        Err(e) => return Err(e),
    };
    if inputs.len() != signs.len() {
        let what = text::concat5(
            ": 'inputs' has ",
            text::number_text(inputs.len()).as_str(),
            " entries but 'signs' has ",
            text::number_text(signs.len()).as_str(),
            " (need one sign per input)",
        );
        return Err(complain(block, what.as_str()));
    }
    Ok(Body { kind: BlockKind::Sum(signs), inputs })
}

/// `kind=gain`.
pub open spec fn gain_shape<S: Scalar>(block: Block) -> Result<Shape<S>, Seq<char>> {
    match required(block, "k"@) {
        Ok(value) => match factor::<S>(block, "k"@, value) {
            Ok(k) => with_input(block, Form::Gain(k)),
            Err(e) => Err(e),
        },
        Err(e) => Err(e),
    }
}

pub(crate) fn build_gain<S: Scalar>(block: &BlockInstance) -> (r: Result<Body<S>, String>)
    ensures
        seen(r) == gain_shape::<S>(block@),
{
    match get_text(block, "k") {
        Ok(value) => match parse_gain_value(block, "k", value) {
            Ok(k) => add_input(block, BlockKind::Gain(k)),
            Err(e) => Err(e),
        },
        Err(e) => Err(e),
    }
}

/// `kind=product`.
pub open spec fn product_shape<S: Scalar>(block: Block) -> Result<Shape<S>, Seq<char>> {
    match required_links(block, "inputs"@) {
        Ok(inputs) => Ok(Shape { kind: Form::Product, inputs }),
        Err(e) => Err(e),
    }
}

pub(crate) fn build_product<S: Scalar>(block: &BlockInstance) -> (r: Result<Body<S>, String>)
    ensures
        seen(r) == product_shape::<S>(block@),
{
    match get_signals(block, "inputs") {
        Ok(inputs) => Ok(Body { kind: BlockKind::Product, inputs }),
        Err(e) => Err(e),
    }
}

/// `kind=saturation`.
pub open spec fn saturation_shape<S: Scalar>(block: Block) -> Result<Shape<S>, Seq<char>> {
    match number::<S>(block, "limit"@) {
        Ok(limit) => with_input(block, Form::Saturation(limit)),
        Err(e) => Err(e),
    }
}

pub(crate) fn build_saturation<S: Scalar>(block: &BlockInstance) -> (r: Result<Body<S>, String>)
    ensures
        seen(r) == saturation_shape::<S>(block@),
{
    match get_number(block, "limit") {
        Ok(limit) => add_input(block, BlockKind::Saturation(limit)),
        Err(e) => Err(e),
    }
}

/// `kind=table`.
pub open spec fn table_shape<S: Scalar>(block: Block) -> Result<Shape<S>, Seq<char>> {
    match schedule::<S>(block) {
        Ok(points) => with_input(block, Form::Table(points)),
        Err(e) => Err(e),
    }
}

pub(crate) fn build_table<S: Scalar>(block: &BlockInstance) -> (r: Result<Body<S>, String>)
    ensures
        seen(r) == table_shape::<S>(block@),
{
    match get_schedule(block) {
        Ok(points) => add_input(block, BlockKind::Table(points)),
        Err(e) => Err(e),
    }
}

// Functions

/// The functions of one argument.
pub open spec fn one_argument_functions() -> Seq<Seq<char>> {
    seq![
        "abs"@, "acos"@, "acosh"@, "asin"@, "asinh"@, "atan"@, "atanh"@, "buf"@, "ceil"@,
        "cos"@, "cosh"@, "exp"@, "floor"@, "int"@, "inv"@, "ln"@, "log10"@, "round"@, "sgn"@,
        "sin"@, "sinh"@, "sqrt"@, "tan"@, "tanh"@, "u"@, "uramp"@,
    ]
}

/// The functions of two arguments.
pub open spec fn two_argument_functions() -> Seq<Seq<char>> {
    seq!["atan2"@, "anglewrap"@, "hypot"@, "max"@, "min"@, "pow"@, "pwr"@, "pwrs"@]
}

/// The functions of three arguments.
pub open spec fn three_argument_functions() -> Seq<Seq<char>> {
    seq!["if"@, "limit"@]
}

/// `continuous_blocks::MathFn1::from_name`: whether it knows a function of one argument by
/// the name, which is the case for those listed, in exactly that spelling.
#[verifier::external_body]
fn is_one_argument_function(name: &str) -> (r: bool)
    ensures
        r == one_argument_functions().contains(name@),
{
    MathFn1::from_name(name).is_some()
}

/// `continuous_blocks::MathFn2::from_name`: whether it knows a function of two arguments by
/// the name, which is the case for those listed, in exactly that spelling.
#[verifier::external_body]
fn is_two_argument_function(name: &str) -> (r: bool)
    ensures
        r == two_argument_functions().contains(name@),
{
    MathFn2::from_name(name).is_some()
}

/// `continuous_blocks::MathFn3::from_name`: whether it knows a function of three arguments by
/// the name, which is the case for those listed, in exactly that spelling.
#[verifier::external_body]
fn is_three_argument_function(name: &str) -> (r: bool)
    ensures
        r == three_argument_functions().contains(name@),
{
    MathFn3::from_name(name).is_some()
}

/// A block whose kind is the name of a function, or a complaint that there is no such kind.
pub open spec fn function_shape<S: Scalar>(block: Block, kind: Seq<char>) -> Result<
    Shape<S>,
    Seq<char>,
> {
    if one_argument_functions().contains(kind) {
        with_input(block, Form::MathFn1(kind))
    } else if two_argument_functions().contains(kind) {
        match required(block, "in1"@) {
            Ok(a) => match required(block, "in2"@) {
                Ok(b) => Ok(Shape { kind: Form::MathFn2(kind), inputs: seq![link(a), link(b)] }),
                Err(e) => Err(e),
            },
            Err(e) => Err(e),
        }
    } else if three_argument_functions().contains(kind) {
        match required(block, "in1"@) {
            Ok(a) => match required(block, "in2"@) {
                Ok(b) => match required(block, "in3"@) {
                    Ok(c) => Ok(
                        Shape {
                            kind: Form::MathFn3(kind),
                            inputs: seq![link(a), link(b), link(c)],
                        },
                    ),
                    Err(e) => Err(e),
                },
                Err(e) => Err(e),
            },
            Err(e) => Err(e),
        }
    } else {
        Err(line_head(block) + ("unknown device kind '"@ + kind + "'"@))
    }
}

pub(crate) fn two_signals(a: Signal, b: Signal) -> (r: Vec<Signal>)
    ensures
        links(r@) == seq![a@, b@],
{
    let mut out = one_signal(a);
    let ghost first = out@;
    out.push(b);
    assert(links(out@) =~= links(first).push(b@));
    assert(links(out@) =~= seq![a@, b@]);
    out
}

pub(crate) fn three_signals(a: Signal, b: Signal, c: Signal) -> (r: Vec<Signal>)
    ensures
        links(r@) == seq![a@, b@, c@],
{
    let mut out = two_signals(a, b);
    let ghost first = out@;
    out.push(c);
    assert(links(out@) =~= links(first).push(c@));
    assert(links(out@) =~= seq![a@, b@, c@]);
    out
}

pub(crate) fn build_function<S: Scalar>(block: &BlockInstance, kind: &str) -> (r: Result<Body<S>, String>)
    ensures
        seen(r) == function_shape::<S>(block@, kind@),
{
    if is_one_argument_function(kind) {
        add_input(block, BlockKind::MathFn1(text::copy(kind)))
    } else if is_two_argument_function(kind) {
        match get_text(block, "in1") {
            Ok(a) => match get_text(block, "in2") {
                Ok(b) => Ok(
                    Body {
                        kind: BlockKind::MathFn2(text::copy(kind)),
                        inputs: two_signals(parse_signal(a), parse_signal(b)),
                    },
                ),
                Err(e) => Err(e),
            },
            Err(e) => Err(e),
        }
    } else if is_three_argument_function(kind) {
        match get_text(block, "in1") {
            Ok(a) => match get_text(block, "in2") {
                Ok(b) => match get_text(block, "in3") {
                    Ok(c) => Ok(
                        Body {
                            kind: BlockKind::MathFn3(text::copy(kind)),
                            inputs: three_signals(
                                parse_signal(a),
                                parse_signal(b),
                                parse_signal(c),
                            ),
                        },
                    ),
                    Err(e) => Err(e),
                },
                Err(e) => Err(e),
            },
            Err(e) => Err(e),
        }
    } else {
        let what = text::concat3("unknown device kind '", kind, "'");
        Err(text::concat(head_of_line(block).as_str(), what.as_str()))
    }
}

} // verus!
