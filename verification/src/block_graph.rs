//! Signal-domain blocks: what a named block computes, where its inputs come from, and how a
//! switch reads its gate from a block.
//!
//! Every block does one job and is wired to others by name. The types here say what a block
//! is; stepping a graph of them through time is up to a simulator.

use crate::circuit::SwitchState;
use crate::matrix::row_seqs;
use crate::name_map::NameMap;
use crate::scalar;
use crate::scalar::Scalar;
use crate::text;
use crate::transient_source::{TransientFunction, Wave};
use vstd::prelude::*;

verus! {

/// `core::slice::from_ref`: a slice of length one that holds the value referred to.
pub assume_specification<T>[ core::slice::from_ref::<T> ](s: &T) -> (r: &[T])
    ensures
        r@ == seq![*s],
;

/// Where the value of a block's input comes from. A circuit quantity is never read directly:
/// it enters through a [`BlockKind::Probe`] block.
#[derive(Debug, Clone, PartialEq)]
pub enum Signal {
    /// Another block's output in the same step.
    Block(String),
    /// A block's output in the step before.
    BlockPrev(String),
}

/// The mathematical form of a [`Signal`].
pub enum Link {
    Block(Seq<char>),
    BlockPrev(Seq<char>),
}

impl View for Signal {
    type V = Link;

    open spec fn view(&self) -> Link {
        match self {
            Signal::Block(name) => Link::Block(name@),
            Signal::BlockPrev(name) => Link::BlockPrev(name@),
        }
    }
}

/// The views of a list of signals.
pub open spec fn links(list: Seq<Signal>) -> Seq<Link> {
    Seq::new(list.len(), |i: int| list[i]@)
}

/// The value a block produces in one step: a number, or a fixed-length list of numbers.
#[derive(Debug, Clone, PartialEq)]
pub enum SignalValue<S> {
    /// One number.
    Scalar(S),
    /// A list of numbers.
    Vector(Vec<S>),
}

impl<S: Scalar> SignalValue<S> {
    /// The numbers in order.
    pub open spec fn elements(&self) -> Seq<S> {
        match self {
            SignalValue::Scalar(x) => seq![*x],
            SignalValue::Vector(v) => v@,
        }
    }

    /// `1` for a scalar, the number of elements for a vector.
    pub fn len(&self) -> (r: usize)
        ensures
            r == self.elements().len(),
    {
        match self {
            SignalValue::Scalar(_) => 1,
            SignalValue::Vector(v) => v.len(),
        }
    }

    /// Whether there is no element.
    pub fn is_empty(&self) -> (r: bool)
        ensures
            r == (self.elements().len() == 0),
    {
        self.len() == 0
    }

    /// The number of a scalar; `None` for a vector.
    pub fn as_scalar(&self) -> (r: Option<S>)
        ensures
            r == (match self {
                SignalValue::Scalar(x) => Some(*x),
                SignalValue::Vector(_) => None,
            }),
    {
        match self {
            SignalValue::Scalar(x) => Some(*x),
            SignalValue::Vector(_) => None,
        }
    }

    /// The elements in order; a scalar is a slice of length one.
    pub fn as_slice(&self) -> (r: &[S])
        ensures
            r@ == self.elements(),
    {
        match self {
            SignalValue::Scalar(x) => core::slice::from_ref(x),
            SignalValue::Vector(v) => v.as_slice(),
        }
    }
}

/// The circuit quantity a [`BlockKind::Probe`] reads.
#[derive(Debug, Clone, PartialEq, Eq)]
pub enum ProbeTarget {
    /// `V(node)`.
    Voltage(String),
    /// `I(branch)`.
    Current(String),
}

/// The mathematical form of a [`ProbeTarget`].
pub enum Quantity {
    Voltage(Seq<char>),
    Current(Seq<char>),
}

impl View for ProbeTarget {
    type V = Quantity;

    open spec fn view(&self) -> Quantity {
        match self {
            ProbeTarget::Voltage(node) => Quantity::Voltage(node@),
            ProbeTarget::Current(branch) => Quantity::Current(branch@),
        }
    }
}

/// The bounds against which a PID block stops integrating.
#[derive(Debug, Clone, Copy, PartialEq)]
pub enum PidClamp<S> {
    /// A lower and an upper bound that never change.
    Fixed(S, S),
    /// Bounds read in every step from two more inputs: the lower one, then the upper one.
    Dynamic,
}

/// The value of a [`BlockKind::Const`].
#[derive(Debug, Clone, PartialEq)]
pub enum ConstValue<S> {
    /// One number.
    Scalar(S),
    /// A list of numbers.
    Vector(Vec<S>),
}

/// The mathematical form of a [`ConstValue`].
pub enum Constant<S> {
    Scalar(S),
    Vector(Seq<S>),
}

impl<S: Scalar> View for ConstValue<S> {
    type V = Constant<S>;

    open spec fn view(&self) -> Constant<S> {
        match self {
            ConstValue::Scalar(x) => Constant::Scalar(*x),
            ConstValue::Vector(v) => Constant::Vector(v@),
        }
    }
}

/// The factor of a [`BlockKind::Gain`].
#[derive(Debug, Clone, PartialEq)]
pub enum GainValue<S> {
    /// One number, applied to every element.
    Scalar(S),
    /// The rows of a matrix that multiplies a vector.
    Matrix(Vec<Vec<S>>),
}

/// The mathematical form of a [`GainValue`].
pub enum Factor<S> {
    Scalar(S),
    Matrix(Seq<Seq<S>>),
}

impl<S: Scalar> View for GainValue<S> {
    type V = Factor<S>;

    open spec fn view(&self) -> Factor<S> {
        match self {
            GainValue::Scalar(x) => Factor::Scalar(*x),
            GainValue::Matrix(rows) => Factor::Matrix(row_seqs(rows@)),
        }
    }
}

/// The gains of a PID controller `kp + ki/s + kd*n*s/(s + n)`.
#[derive(Debug, Clone, Copy, PartialEq)]
pub struct Pid<S> {
    /// Proportional gain.
    pub kp: S,
    /// Integral gain.
    pub ki: S,
    /// Derivative gain.
    pub kd: S,
    /// Derivative filter coefficient.
    pub n: S,
}

/// The frequency range of a voltage-controlled oscillator, in hertz.
#[derive(Debug, Clone, Copy, PartialEq)]
pub struct Vco<S> {
    /// Lowest frequency.
    pub f_min: S,
    /// Highest frequency.
    pub f_max: S,
}

/// The thresholds of a Schmitt-trigger comparator.
#[derive(Debug, Clone, Copy, PartialEq)]
pub struct Hysteresis<S> {
    /// The input above which the output turns on.
    pub high: S,
    /// The input below which the output turns off.
    pub low: S,
}

/// The parameters of a permanent-magnet synchronous motor, in SI units.
#[derive(Debug, Clone, Copy, PartialEq)]
pub struct Pmsm<S> {
    /// Stator resistance.
    pub r_s: S,
    /// Direct-axis inductance.
    pub l_d: S,
    /// Quadrature-axis inductance.
    pub l_q: S,
    /// Flux linkage of the magnet.
    pub lambda_pm: S,
    /// Electrical cycles per mechanical revolution.
    pub pole_pairs: S,
    /// Inertia of rotor and load.
    pub inertia: S,
    /// Viscous friction coefficient.
    pub friction: S,
}

/// The matrices of a linear system, as lists of rows.
#[derive(Debug, Clone, PartialEq)]
pub struct StateSpace<S> {
    /// State matrix.
    pub a: Vec<Vec<S>>,
    /// Input matrix.
    pub b: Vec<Vec<S>>,
    /// Output matrix.
    pub c: Vec<Vec<S>>,
    /// Feedthrough matrix.
    pub d: Vec<Vec<S>>,
}

/// The mathematical form of a [`StateSpace`].
pub struct Linear<S> {
    pub a: Seq<Seq<S>>,
    pub b: Seq<Seq<S>>,
    pub c: Seq<Seq<S>>,
    pub d: Seq<Seq<S>>,
}

impl<S: Scalar> View for StateSpace<S> {
    type V = Linear<S>;

    open spec fn view(&self) -> Linear<S> {
        Linear {
            a: row_seqs(self.a@),
            b: row_seqs(self.b@),
            c: row_seqs(self.c@),
            d: row_seqs(self.d@),
        }
    }
}

/// A rational function, coefficients of the highest degree first.
#[derive(Debug, Clone, PartialEq)]
pub struct TransferFunction<S> {
    /// Numerator.
    pub num: Vec<S>,
    /// Denominator.
    pub den: Vec<S>,
}

/// The mathematical form of a [`TransferFunction`].
pub struct Ratio<S> {
    pub num: Seq<S>,
    pub den: Seq<S>,
}

impl<S: Scalar> View for TransferFunction<S> {
    type V = Ratio<S>;

    open spec fn view(&self) -> Ratio<S> {
        Ratio { num: self.num@, den: self.den@ }
    }
}

/// When a sampled block runs.
#[derive(Debug, Clone, Copy, PartialEq)]
pub enum SampleTimeSpec<S> {
    /// Every `period` seconds, the first time at `offset`.
    Periodic { period: S, offset: S },
}

/// How a sampled integrator advances.
#[derive(Debug, Clone, Copy, PartialEq, Eq, Structural)]
pub enum DiscreteIntegrationMethod {
    /// With the input of the sample before.
    ForwardEuler,
    /// With the input of the sample itself.
    BackwardEuler,
    /// With the mean of both.
    Trapezoidal,
}

/// The gains of a sampled PID controller.
#[derive(Debug, Clone, Copy, PartialEq)]
pub struct DiscretePid<S> {
    /// Proportional gain.
    pub kp: S,
    /// Integral gain.
    pub ki: S,
    /// Derivative gain.
    pub kd: S,
    /// Derivative filter coefficient.
    pub n: S,
    /// Sample period.
    pub period: S,
    /// How the integral part advances.
    pub method: DiscreteIntegrationMethod,
}

/// A logic gate. Its inputs count as true from one half on.
#[derive(Debug, Clone, Copy, PartialEq, Eq, Structural)]
pub enum LogicOp {
    /// All inputs.
    And,
    /// Any input.
    Or,
    /// An odd number of inputs.
    Xor,
    /// Not all inputs.
    Nand,
    /// No input.
    Nor,
    /// An even number of inputs.
    Xnor,
    /// The opposite of the single input.
    Not,
}

/// What a latch does where it is set and reset at once.
#[derive(Debug, Clone, Copy, PartialEq, Eq, Structural)]
pub enum LatchPriority {
    /// It is set.
    SetWins,
    /// It is reset.
    ResetWins,
}

/// What a flip-flop does at a rising edge of its clock.
#[derive(Debug, Clone, Copy, PartialEq, Eq, Structural)]
pub enum FlipFlopKind {
    /// Takes over its data input.
    D,
    /// Is set by `j`, reset by `k`, toggled by both.
    Jk,
    /// Toggles where its input is true.
    T,
}

/// A change of basis of a three-phase quantity.
#[derive(Debug, Clone, Copy, PartialEq, Eq, Structural)]
pub enum CoordinateTransform {
    /// `abc` to `alpha beta zero`.
    Clarke,
    /// `alpha beta zero` to `abc`.
    ClarkeInv,
    /// `alpha beta zero` to `d q zero`, at an angle.
    Park,
    /// `d q zero` to `alpha beta zero`, at an angle.
    ParkInv,
    /// `abc` to `d q zero`, at an angle.
    ClarkePark,
    /// `d q zero` to `abc`, at an angle.
    ClarkeParkInv,
}

/// What a block computes.
#[derive(Debug, Clone, PartialEq)]
#[allow(inconsistent_fields)]
pub enum BlockKind<S> {
    /// A fixed value.
    Const(ConstValue<S>),
    /// The simulated time.
    Time,
    /// A piecewise-constant function of time, periodic where `repeat` is set.
    Pwc { points: Vec<(S, S)>, repeat: bool },
    /// A piecewise-linear function of time, periodic where `repeat` is set.
    Pwl { points: Vec<(S, S)>, repeat: bool },
    /// The waveform of an independent source.
    Waveform(TransientFunction<S>),
    /// The weighted sum of the inputs, one weight for each.
    Sum(Vec<S>),
    /// The input scaled.
    Gain(GainValue<S>),
    /// A PID controller.
    Pid { pid: Pid<S>, clamp: PidClamp<S> },
    /// A linear system.
    StateSpace(StateSpace<S>),
    /// A single-input single-output linear system.
    TransferFunction(TransferFunction<S>),
    /// An oscillator whose output is a ramp from 0 to 1.
    Vco(Vco<S>),
    /// A complementary pulse-width modulator at a fixed frequency, with a dead time for each
    /// edge; its input is the duty.
    Pwm { freq_hz: S, red: S, fed: S, output_names: Vec<String> },
    /// A complementary pulse-width modulator with the inputs frequency, phase and duty.
    PhaseShiftPwm { osc: Vco<S>, red: S, fed: S, output_names: Vec<String> },
    /// The product of the inputs.
    Product,
    /// The input limited to a symmetric range.
    Saturation(S),
    /// Linear interpolation in a table.
    Table(Vec<(S, S)>),
    /// A function of one argument, by its name.
    MathFn1(String),
    /// A function of two arguments, by its name.
    MathFn2(String),
    /// A function of three arguments, by its name.
    MathFn3(String),
    /// A comparator with two thresholds.
    Hysteresis(Hysteresis<S>),
    /// A block in a precompiled shared library, with `xc_count` continuous states.
    CScript { lib: String, output_names: Vec<String>, sample_time: Option<S>, xc_count: usize },
    /// A block in a Python file, with `xc_count` continuous states.
    PyBlock { path: String, output_names: Vec<String>, sample_time: Option<S>, xc_count: usize },
    /// A stateless function in a Python file.
    PyFunction {
        path: String,
        function: String,
        output_names: Vec<String>,
        sample_time: Option<S>,
    },
    /// A change of basis of a three-phase quantity.
    CoordinateTransform { kind: CoordinateTransform, output_names: Vec<String> },
    /// A synchronous motor with the inputs `vd`, `vq` and the load torque.
    Pmsm { pmsm: Pmsm<S>, output_names: Vec<String> },
    /// A circuit quantity, made readable by blocks.
    Probe(ProbeTarget),
    /// A signal that drives a gate.
    Sig2Gate,
    /// A signal that drives a voltage source.
    Sig2Voltage,
    /// A signal that drives a current source.
    Sig2Current,
    /// A logic gate.
    LogicGate(LogicOp),
    /// A latch with the inputs set and reset.
    SrLatch { priority: LatchPriority },
    /// A flip-flop with the inputs clock, those of its kind, and reset where it has one.
    FlipFlop { kind: FlipFlopKind, reset: bool },
    /// A counter with the inputs clock, direction where it has one, and reset where it has
    /// one.
    Counter { up_down: bool, modulus: Option<usize>, reset: bool },
    /// A sampled linear system.
    DiscreteStateSpace { ss: StateSpace<S>, sample_time: SampleTimeSpec<S> },
    /// A sampled single-input single-output linear system.
    DiscreteTransferFunction { tf: TransferFunction<S>, sample_time: SampleTimeSpec<S> },
    /// A sampled PID controller.
    DiscretePid { pid: DiscretePid<S>, clamp: PidClamp<S>, sample_time: SampleTimeSpec<S> },
}

/// The mathematical form of a [`BlockKind`].
#[allow(inconsistent_fields)]
pub enum Form<S> {
    Const(Constant<S>),
    Time,
    Pwc { points: Seq<(S, S)>, repeat: bool },
    Pwl { points: Seq<(S, S)>, repeat: bool },
    Waveform(Wave<S>),
    Sum(Seq<S>),
    Gain(Factor<S>),
    Pid { pid: Pid<S>, clamp: PidClamp<S> },
    StateSpace(Linear<S>),
    TransferFunction(Ratio<S>),
    Vco(Vco<S>),
    Pwm { freq_hz: S, red: S, fed: S, output_names: Seq<Seq<char>> },
    PhaseShiftPwm { osc: Vco<S>, red: S, fed: S, output_names: Seq<Seq<char>> },
    Product,
    Saturation(S),
    Table(Seq<(S, S)>),
    MathFn1(Seq<char>),
    MathFn2(Seq<char>),
    MathFn3(Seq<char>),
    Hysteresis(Hysteresis<S>),
    CScript {
        lib: Seq<char>,
        output_names: Seq<Seq<char>>,
        sample_time: Option<S>,
        xc_count: usize,
    },
    PyBlock {
        path: Seq<char>,
        output_names: Seq<Seq<char>>,
        sample_time: Option<S>,
        xc_count: usize,
    },
    PyFunction {
        path: Seq<char>,
        function: Seq<char>,
        output_names: Seq<Seq<char>>,
        sample_time: Option<S>,
    },
    CoordinateTransform { kind: CoordinateTransform, output_names: Seq<Seq<char>> },
    Pmsm { pmsm: Pmsm<S>, output_names: Seq<Seq<char>> },
    Probe(Quantity),
    Sig2Gate,
    Sig2Voltage,
    Sig2Current,
    LogicGate(LogicOp),
    SrLatch { priority: LatchPriority },
    FlipFlop { kind: FlipFlopKind, reset: bool },
    Counter { up_down: bool, modulus: Option<usize>, reset: bool },
    DiscreteStateSpace { ss: Linear<S>, sample_time: SampleTimeSpec<S> },
    DiscreteTransferFunction { tf: Ratio<S>, sample_time: SampleTimeSpec<S> },
    DiscretePid { pid: DiscretePid<S>, clamp: PidClamp<S>, sample_time: SampleTimeSpec<S> },
}

impl<S: Scalar> View for BlockKind<S> {
    type V = Form<S>;

    open spec fn view(&self) -> Form<S> {
        match self {
            BlockKind::Const(value) => Form::Const(value@),
            BlockKind::Time => Form::Time,
            BlockKind::Pwc { points, repeat } => Form::Pwc { points: points@, repeat: *repeat },
            BlockKind::Pwl { points, repeat } => Form::Pwl { points: points@, repeat: *repeat },
            BlockKind::Waveform(wave) => Form::Waveform(wave@),
            BlockKind::Sum(signs) => Form::Sum(signs@),
            BlockKind::Gain(value) => Form::Gain(value@),
            BlockKind::Pid { pid, clamp } => Form::Pid { pid: *pid, clamp: *clamp },
            BlockKind::StateSpace(ss) => Form::StateSpace(ss@),
            BlockKind::TransferFunction(tf) => Form::TransferFunction(tf@),
            BlockKind::Vco(vco) => Form::Vco(*vco),
            BlockKind::Pwm { freq_hz, red, fed, output_names } => Form::Pwm {
                freq_hz: *freq_hz,
                red: *red,
                fed: *fed,
                output_names: text::texts(output_names@),
            },
            BlockKind::PhaseShiftPwm { osc, red, fed, output_names } => Form::PhaseShiftPwm {
                osc: *osc,
                red: *red,
                fed: *fed,
                output_names: text::texts(output_names@),
            },
            BlockKind::Product => Form::Product,
            BlockKind::Saturation(limit) => Form::Saturation(*limit),
            BlockKind::Table(points) => Form::Table(points@),
            BlockKind::MathFn1(name) => Form::MathFn1(name@),
            BlockKind::MathFn2(name) => Form::MathFn2(name@),
            BlockKind::MathFn3(name) => Form::MathFn3(name@),
            BlockKind::Hysteresis(band) => Form::Hysteresis(*band),
            BlockKind::CScript { lib, output_names, sample_time, xc_count } => Form::CScript {
                lib: lib@,
                output_names: text::texts(output_names@),
                sample_time: *sample_time,
                xc_count: *xc_count,
            },
            BlockKind::PyBlock { path, output_names, sample_time, xc_count } => Form::PyBlock {
                path: path@,
                output_names: text::texts(output_names@),
                sample_time: *sample_time,
                xc_count: *xc_count,
            },
            BlockKind::PyFunction { path, function, output_names, sample_time } => {
                Form::PyFunction {
                    path: path@,
                    function: function@,
                    output_names: text::texts(output_names@),
                    sample_time: *sample_time,
                }
            },
            BlockKind::CoordinateTransform { kind, output_names } => Form::CoordinateTransform {
                kind: *kind,
                output_names: text::texts(output_names@),
            },
            BlockKind::Pmsm { pmsm, output_names } => Form::Pmsm {
                pmsm: *pmsm,
                output_names: text::texts(output_names@),
            },
            BlockKind::Probe(target) => Form::Probe(target@),
            BlockKind::Sig2Gate => Form::Sig2Gate,
            BlockKind::Sig2Voltage => Form::Sig2Voltage,
            BlockKind::Sig2Current => Form::Sig2Current,
            BlockKind::LogicGate(op) => Form::LogicGate(*op),
            BlockKind::SrLatch { priority } => Form::SrLatch { priority: *priority },
            BlockKind::FlipFlop { kind, reset } => Form::FlipFlop { kind: *kind, reset: *reset },
            BlockKind::Counter { up_down, modulus, reset } => Form::Counter {
                up_down: *up_down,
                modulus: *modulus,
                reset: *reset,
            },
            BlockKind::DiscreteStateSpace { ss, sample_time } => Form::DiscreteStateSpace {
                ss: ss@,
                sample_time: *sample_time,
            },
            BlockKind::DiscreteTransferFunction { tf, sample_time } => {
                Form::DiscreteTransferFunction { tf: tf@, sample_time: *sample_time }
            },
            BlockKind::DiscretePid { pid, clamp, sample_time } => Form::DiscretePid {
                pid: *pid,
                clamp: *clamp,
                sample_time: *sample_time,
            },
        }
    }
}

/// One named block.
#[derive(Debug, Clone, PartialEq)]
pub struct BlockInstance<S> {
    /// The block's name, which is also the name of its first output.
    pub name: String,
    /// What it computes.
    pub kind: BlockKind<S>,
    /// Where its inputs come from.
    pub inputs: Vec<Signal>,
    /// The state it starts in; from rest where there is none.
    pub ic: Option<Vec<S>>,
}

/// The mathematical form of a [`BlockInstance`].
pub struct Instance<S> {
    pub name: Seq<char>,
    pub kind: Form<S>,
    pub inputs: Seq<Link>,
    pub ic: Option<Seq<S>>,
}

impl<S: Scalar> View for BlockInstance<S> {
    type V = Instance<S>;

    open spec fn view(&self) -> Instance<S> {
        Instance {
            name: self.name@,
            kind: self.kind@,
            inputs: links(self.inputs@),
            ic: match self.ic {
                Some(state) => Some(state@),
                None => None,
            },
        }
    }
}

/// How a switch's gate is driven: always by a block.
#[derive(Debug, Clone, PartialEq)]
pub enum GateBinding {
    /// On while the named block's output is at least one half.
    Block(String),
}

/// One half.
pub open spec fn half<S: Scalar>() -> S {
    S::unit().quotient(S::unit().sum(S::unit()))
}

impl GateBinding {
    /// The name of the block that drives it.
    pub open spec fn driver(&self) -> Seq<char> {
        match self {
            GateBinding::Block(name) => name@,
        }
    }

    /// The blocks this binding reads from.
    pub fn source_blocks(&self) -> (r: [Option<&str>; 2])
        ensures
            r@[0] matches Some(name) && name@ == self.driver(),
            r@[1] is None,
    {
        match self {
            GateBinding::Block(name) => [Some(name.as_str()), None],
        }
    }

    /// The state of the switch, given the blocks' outputs: on from one half upward.
    pub fn resolve<S: Scalar>(&self, outputs: &NameMap<SignalValue<S>>) -> (r: SwitchState)
        requires
            outputs@.contains_key(self.driver()),
            outputs@[self.driver()] is Scalar,
        ensures
            r == (if scalar::at_most(half::<S>(), outputs@[self.driver()]->Scalar_0) {
                SwitchState::On
            } else {
                SwitchState::Off
            }),
    {
        match self {
            GateBinding::Block(name) => {
                match outputs.get(name.as_str()) {
                    Some(SignalValue::Scalar(value)) => {
                        let threshold = S::one().over(S::one().plus(S::one()));
                        if scalar::is_at_most(threshold, *value) {
                            SwitchState::On
                        } else {
                            SwitchState::Off
                        }
                    },
                    _ => SwitchState::Off,
                }
            },
        }
    }
}

/// The name of a logic gate.
pub open spec fn logic_name(op: LogicOp) -> Seq<char> {
    match op {
        LogicOp::And => "and"@,
        LogicOp::Or => "or"@,
        LogicOp::Xor => "xor"@,
        LogicOp::Nand => "nand"@,
        LogicOp::Nor => "nor"@,
        LogicOp::Xnor => "xnor"@,
        LogicOp::Not => "not"@,
    }
}

/// The name of a flip-flop.
pub open spec fn flip_flop_name(kind: FlipFlopKind) -> Seq<char> {
    match kind {
        FlipFlopKind::D => "dff"@,
        FlipFlopKind::Jk => "jkff"@,
        FlipFlopKind::T => "tff"@,
    }
}

/// The name of a coordinate transform.
pub open spec fn transform_name(kind: CoordinateTransform) -> Seq<char> {
    match kind {
        CoordinateTransform::Clarke => "clarke"@,
        CoordinateTransform::ClarkeInv => "clarkeinv"@,
        CoordinateTransform::Park => "park"@,
        CoordinateTransform::ParkInv => "parkinv"@,
        CoordinateTransform::ClarkePark => "clarkepark"@,
        CoordinateTransform::ClarkeParkInv => "clarkeparkinv"@,
    }
}

/// The name of a kind of block.
pub open spec fn form_name<S: Scalar>(form: Form<S>) -> Seq<char> {
    match form {
        Form::Const(_) => "const"@,
        Form::Time => "time"@,
        Form::Pwc { .. } => "pwc"@,
        Form::Pwl { .. } => "pwl"@,
        Form::Waveform(Wave::Sin { .. }) => "sinwave"@,
        Form::Waveform(Wave::Pulse { .. }) => "pulsewave"@,
        Form::Waveform(Wave::Exp { .. }) => "expwave"@,
        Form::Waveform(Wave::Sffm { .. }) => "sffmwave"@,
        Form::Waveform(Wave::Pwl(_)) => "waveform(pwl)"@,
        Form::Sum(_) => "sum"@,
        Form::Gain(_) => "gain"@,
        Form::Pid { .. } => "pid"@,
        Form::StateSpace(_) => "statespace"@,
        Form::TransferFunction(_) => "tf"@,
        Form::Vco(_) => "vco"@,
        Form::Pwm { .. } => "pwm"@,
        Form::PhaseShiftPwm { .. } => "pspwm"@,
        Form::Product => "product"@,
        Form::Saturation(_) => "saturation"@,
        Form::Table(_) => "table"@,
        Form::MathFn1(name) => name,
        Form::MathFn2(name) => name,
        Form::MathFn3(name) => name,
        Form::Hysteresis(_) => "hysteresis"@,
        Form::CScript { .. } => "cscript"@,
        Form::PyBlock { .. } => "pyblock"@,
        Form::PyFunction { .. } => "pyfunc"@,
        Form::CoordinateTransform { kind, .. } => transform_name(kind),
        Form::Pmsm { .. } => "pmsm"@,
        Form::Probe(_) => "probe"@,
        Form::Sig2Gate => "sig2gate"@,
        Form::Sig2Voltage => "sig2voltage"@,
        Form::Sig2Current => "sig2current"@,
        Form::LogicGate(op) => logic_name(op),
        Form::SrLatch { .. } => "srlatch"@,
        Form::FlipFlop { kind, .. } => flip_flop_name(kind),
        Form::Counter { .. } => "counter"@,
        Form::DiscreteStateSpace { .. } => "discretestatespace"@,
        Form::DiscreteTransferFunction { .. } => "discretetf"@,
        Form::DiscretePid { .. } => "discretepid"@,
    }
}

impl LogicOp {
    /// Its name.
    pub fn name(self) -> (r: &'static str)
        ensures
            r@ == logic_name(self),
    {
        match self {
            LogicOp::And => "and",
            LogicOp::Or => "or",
            LogicOp::Xor => "xor",
            LogicOp::Nand => "nand",
            LogicOp::Nor => "nor",
            LogicOp::Xnor => "xnor",
            LogicOp::Not => "not",
        }
    }
}

impl FlipFlopKind {
    /// The name of the flip-flop.
    pub fn name(self) -> (r: &'static str)
        ensures
            r@ == flip_flop_name(self),
    {
        match self {
            FlipFlopKind::D => "dff",
            FlipFlopKind::Jk => "jkff",
            FlipFlopKind::T => "tff",
        }
    }
}

impl CoordinateTransform {
    /// The name of the transform.
    pub fn name(self) -> (r: &'static str)
        ensures
            r@ == transform_name(self),
    {
        match self {
            CoordinateTransform::Clarke => "clarke",
            CoordinateTransform::ClarkeInv => "clarkeinv",
            CoordinateTransform::Park => "park",
            CoordinateTransform::ParkInv => "parkinv",
            CoordinateTransform::ClarkePark => "clarkepark",
            CoordinateTransform::ClarkeParkInv => "clarkeparkinv",
        }
    }
}

/// The name of a kind of block, for messages that have to say what a block is.
pub fn block_kind_name<S: Scalar>(kind: &BlockKind<S>) -> (r: &str)
    ensures
        r@ == form_name(kind@),
{
    match kind {
        BlockKind::Const(_) => "const",
        BlockKind::Time => "time",
        BlockKind::Pwc { .. } => "pwc",
        BlockKind::Pwl { .. } => "pwl",
        BlockKind::Waveform(TransientFunction::Sin { .. }) => "sinwave",
        BlockKind::Waveform(TransientFunction::Pulse { .. }) => "pulsewave",
        BlockKind::Waveform(TransientFunction::Exp { .. }) => "expwave",
        BlockKind::Waveform(TransientFunction::Sffm { .. }) => "sffmwave",
        BlockKind::Waveform(TransientFunction::Pwl(_)) => "waveform(pwl)",
        BlockKind::Sum(_) => "sum",
        BlockKind::Gain(_) => "gain",
        BlockKind::Pid { .. } => "pid",
        BlockKind::StateSpace(_) => "statespace",
        BlockKind::TransferFunction(_) => "tf",
        BlockKind::Vco(_) => "vco",
        BlockKind::Pwm { .. } => "pwm",
        BlockKind::PhaseShiftPwm { .. } => "pspwm",
        BlockKind::Product => "product",
        BlockKind::Saturation(_) => "saturation",
        BlockKind::Table(_) => "table",
        BlockKind::MathFn1(name) => name.as_str(),
        BlockKind::MathFn2(name) => name.as_str(),
        BlockKind::MathFn3(name) => name.as_str(),
        BlockKind::Hysteresis(_) => "hysteresis",
        BlockKind::CScript { .. } => "cscript",
        BlockKind::PyBlock { .. } => "pyblock",
        BlockKind::PyFunction { .. } => "pyfunc",
        BlockKind::CoordinateTransform { kind, .. } => kind.name(),
        BlockKind::Pmsm { .. } => "pmsm",
        BlockKind::Probe(_) => "probe",
        BlockKind::Sig2Gate => "sig2gate",
        BlockKind::Sig2Voltage => "sig2voltage",
        BlockKind::Sig2Current => "sig2current",
        BlockKind::LogicGate(op) => op.name(),
        BlockKind::SrLatch { .. } => "srlatch",
        BlockKind::FlipFlop { kind, .. } => kind.name(),
        BlockKind::Counter { .. } => "counter",
        BlockKind::DiscreteStateSpace { .. } => "discretestatespace",
        BlockKind::DiscreteTransferFunction { .. } => "discretetf",
        BlockKind::DiscretePid { .. } => "discretepid",
    }
}

} // verus!
