use general_mna::block_graph::{
    block_kind_name, BlockKind, ConstValue, CoordinateTransform, FlipFlopKind, GainValue,
    GateBinding, LatchPriority, LogicOp, PidClamp, ProbeTarget, Signal, SignalValue,
};
use general_mna::block_kinds::{build_kind, Kind};
use general_mna::netlist::BlockInstance;
use general_mna::{
    build_system, parse_and_flatten, MnaBuilder, NameMap, Scalar, SwitchState, System,
    TransientFunction,
};
use general_spice_core::Dialect;

#[derive(Clone, Copy, Debug, PartialEq)]
struct F64(f64);

impl Scalar for F64 {
    fn zero() -> Self {
        F64(0.0)
    }
    fn one() -> Self {
        F64(1.0)
    }
    fn nan() -> Self {
        F64(f64::NAN)
    }
    fn never() -> Self {
        F64(f64::MAX / 4.0)
    }
    fn from_count(n: usize) -> Self {
        F64(n as f64)
    }
    fn power_of_ten(exponent: i8) -> Self {
        F64(format!("1e{exponent}").parse().unwrap())
    }
    fn negated(self) -> Self {
        F64(-self.0)
    }
    fn plus(self, rhs: Self) -> Self {
        F64(self.0 + rhs.0)
    }
    fn minus(self, rhs: Self) -> Self {
        F64(self.0 - rhs.0)
    }
    fn times(self, rhs: Self) -> Self {
        F64(self.0 * rhs.0)
    }
    fn over(self, rhs: Self) -> Self {
        F64(self.0 / rhs.0)
    }
    fn modulo(self, rhs: Self) -> Self {
        F64(self.0 % rhs.0)
    }
    fn sqrt(self) -> Self {
        F64(self.0.sqrt())
    }
    fn abs(self) -> Self {
        F64(self.0.abs())
    }
    fn max(self, rhs: Self) -> Self {
        F64(self.0.max(rhs.0))
    }
    fn sin(self) -> Self {
        F64(self.0.sin())
    }
    fn exp(self) -> Self {
        F64(self.0.exp())
    }
    fn to_radians(self) -> Self {
        F64(self.0.to_radians())
    }
    fn full_turn() -> Self {
        F64(2.0 * std::f64::consts::PI)
    }
    fn epsilon() -> Self {
        F64(f64::EPSILON)
    }
    fn same_as(self, rhs: Self) -> bool {
        self.0 == rhs.0
    }
    fn less_than(self, rhs: Self) -> bool {
        self.0 < rhs.0
    }
    fn ranks_before(self, rhs: Self) -> bool {
        self.0.total_cmp(&rhs.0).is_lt()
    }
    fn is_nan(self) -> bool {
        self.0.is_nan()
    }
    fn is_finite(self) -> bool {
        self.0.is_finite()
    }
    fn parse(text: &str) -> Option<Self> {
        text.parse().ok().map(F64)
    }
    fn text(self) -> String {
        format!("{}", self.0)
    }
    fn precise_text(self) -> String {
        format!("{:?}", self.0)
    }
}

fn build(source: &str) -> Result<System<F64>, String> {
    build_system(source, Dialect::Ngspice)
}

fn kind(line: &str) -> BlockKind<F64> {
    let mut system = build(&format!("{line}\n")).unwrap();
    assert_eq!(system.blocks.len(), 1);
    system.blocks.remove(0).kind
}

fn inputs(line: &str) -> Vec<Signal> {
    let mut system = build(&format!("{line}\n")).unwrap();
    system.blocks.remove(0).inputs
}

fn error(line: &str) -> String {
    build(&format!("{line}\n")).unwrap_err()
}

fn now(name: &str) -> Signal {
    Signal::Block(name.to_string())
}

fn before(name: &str) -> Signal {
    Signal::BlockPrev(name.to_string())
}

fn names(list: &[&str]) -> Vec<String> {
    list.iter().map(|s| s.to_string()).collect()
}

fn numbers(list: &[f64]) -> Vec<F64> {
    list.iter().map(|x| F64(*x)).collect()
}

// Values

#[test]
fn a_scalar_value_is_a_list_of_one() {
    let value = SignalValue::Scalar(F64(2.5));
    assert_eq!(value.len(), 1);
    assert!(!value.is_empty());
    assert_eq!(value.as_scalar(), Some(F64(2.5)));
    assert_eq!(value.as_slice(), [F64(2.5)]);
}

#[test]
fn a_vector_value_is_no_scalar() {
    let value = SignalValue::Vector(numbers(&[1.0, 2.0]));
    assert_eq!(value.len(), 2);
    assert_eq!(value.as_scalar(), None);
    assert_eq!(value.as_slice(), [F64(1.0), F64(2.0)]);
    assert!(SignalValue::<F64>::Vector(Vec::new()).is_empty());
}

#[test]
fn a_gate_is_on_from_one_half_upward() {
    let gate = GateBinding::Block("G".to_string());
    assert_eq!(gate.source_blocks(), [Some("G"), None]);
    let state = |value: f64| -> SwitchState {
        let mut outputs = NameMap::new();
        outputs.insert("G".to_string(), SignalValue::Scalar(F64(value)));
        gate.resolve(&outputs)
    };
    assert_eq!(state(0.5), SwitchState::On);
    assert_eq!(state(1.0), SwitchState::On);
    assert_eq!(state(0.49), SwitchState::Off);
}

// Sources

#[test]
fn constants_are_numbers_or_lists() {
    assert_eq!(
        kind("A kind=const value=2.5"),
        BlockKind::Const(ConstValue::Scalar(F64(2.5)))
    );
    assert_eq!(
        kind("A kind=const value=[1,2]"),
        BlockKind::Const(ConstValue::Vector(numbers(&[1.0, 2.0])))
    );
    assert_eq!(kind("A kind=time"), BlockKind::Time);
}

#[test]
fn schedules_repeat_only_where_they_say_so() {
    assert_eq!(
        kind("A kind=pwl points=[[0,1],[2,3]] repeat=true"),
        BlockKind::Pwl {
            points: vec![(F64(0.0), F64(1.0)), (F64(2.0), F64(3.0))],
            repeat: true
        }
    );
    assert_eq!(
        kind("A kind=pwc points=[[0,1]] repeat=yes"),
        BlockKind::Pwc {
            points: vec![(F64(0.0), F64(1.0))],
            repeat: false
        }
    );
}

#[test]
fn waves_take_their_defaults() {
    assert_eq!(
        kind("A kind=sinwave va=2 freq=50"),
        BlockKind::Waveform(TransientFunction::Sin {
            v0: F64(0.0),
            va: F64(2.0),
            freq: F64(50.0),
            td: F64(0.0),
            theta: F64(0.0),
            phase: F64(0.0),
        })
    );
    assert_eq!(
        kind("A kind=pulsewave v1=0 v2=5 tr=1e-6"),
        BlockKind::Waveform(TransientFunction::Pulse {
            v1: F64(0.0),
            v2: F64(5.0),
            td: F64(0.0),
            tr: F64(1e-6),
            tf: F64(0.0),
            pw: F64(f64::MAX / 4.0),
            per: F64(f64::MAX / 4.0),
        })
    );
    assert_eq!(
        kind("A kind=expwave v1=0 v2=1"),
        BlockKind::Waveform(TransientFunction::Exp {
            v1: F64(0.0),
            v2: F64(1.0),
            td1: F64(0.0),
            tau1: F64(1.0),
            td2: F64(f64::MAX / 4.0),
            tau2: F64(1.0),
        })
    );
    assert_eq!(
        kind("A kind=sffmwave va=1 fc=100 fs=10 mdi=2"),
        BlockKind::Waveform(TransientFunction::Sffm {
            v0: F64(0.0),
            va: F64(1.0),
            fc: F64(100.0),
            mdi: F64(2.0),
            fs: F64(10.0),
        })
    );
}

// Fields and list literals

#[test]
fn a_missing_or_bad_number_is_named() {
    assert_eq!(
        error("A kind=saturation in=B"),
        "line 1: device 'A' missing field 'limit'"
    );
    assert_eq!(
        error("A kind=saturation limit=x in=B"),
        "line 1: device 'A' field 'limit' is not a number"
    );
    assert_eq!(
        error("A kind=const value=x"),
        "line 1: device 'A' field 'value' is not a number"
    );
}

#[test]
fn the_last_of_two_equal_keys_counts() {
    assert_eq!(
        kind("A kind=const value=1 value=2"),
        BlockKind::Const(ConstValue::Scalar(F64(2.0)))
    );
}

#[test]
fn list_literals_report_what_is_wrong_with_them() {
    assert_eq!(
        error("A kind=tf in=B num=1 den=[1,1]"),
        "line 1: device 'A' field 'num' must be a Python-style list, e.g. '[1,2,3]' or \
         '[[1,2],[3,4]]' (got '1')"
    );
    assert_eq!(
        error("A kind=tf in=B num=[1,x] den=[1,1]"),
        "line 1: device 'A' field 'num' entry 'x' is not a number"
    );
    assert_eq!(
        error("A kind=tf in=B num=[inf] den=[1,1]"),
        "line 1: device 'A' field 'num' entry 'inf' must be a finite number (got inf)"
    );
    assert_eq!(
        error("A kind=table in=B points=[[0,1],[2,3,4.5]]"),
        "line 1: device 'A' field 'points': each entry must be a 2-element '[x,y]' list (got \
         '[2.0, 3.0, 4.5]')"
    );
}

#[test]
fn gains_are_numbers_or_matrices() {
    assert_eq!(
        kind("A kind=gain k=2 in=B"),
        BlockKind::Gain(GainValue::Scalar(F64(2.0)))
    );
    assert_eq!(
        kind("A kind=gain k=[[1,0],[0,1]] in=B"),
        BlockKind::Gain(GainValue::Matrix(vec![
            numbers(&[1.0, 0.0]),
            numbers(&[0.0, 1.0])
        ]))
    );
    assert_eq!(
        error("A kind=gain k=[1,2] in=B"),
        "line 1: device 'A' field 'k' must be a scalar (e.g. '2.0') or a matrix (e.g. \
         '[[1,0],[0,1]]') -- got a flat list '[1,2]', which is not a valid Gain shape"
    );
}

// Arithmetic and functions

#[test]
fn sums_have_one_sign_per_input() {
    assert_eq!(
        kind("A kind=sum inputs=B,C signs=1,-1"),
        BlockKind::Sum(numbers(&[1.0, -1.0]))
    );
    assert_eq!(
        inputs("A kind=sum inputs=B,prev:C signs=1,-1"),
        [now("B"), before("C")]
    );
    assert_eq!(
        error("A kind=sum inputs=B,C signs=1"),
        "line 1: device 'A': 'inputs' has 2 entries but 'signs' has 1 (need one sign per input)"
    );
    assert_eq!(
        error("A kind=sum inputs=B signs=plus"),
        "line 1: device 'A' field 'signs' entry 'plus' is not a number"
    );
}

#[test]
fn products_and_tables_read_their_inputs() {
    assert_eq!(kind("A kind=product inputs=B,C"), BlockKind::Product);
    assert_eq!(inputs("A kind=product inputs=B,C"), [now("B"), now("C")]);
    assert_eq!(
        kind("A kind=table in=B points=[[1,5],[0,4]]"),
        BlockKind::Table(vec![(F64(0.0), F64(4.0)), (F64(1.0), F64(5.0))])
    );
    assert_eq!(
        kind("A kind=saturation limit=3 in=B"),
        BlockKind::Saturation(F64(3.0))
    );
}

#[test]
fn functions_are_known_by_name_and_take_as_many_inputs_as_arguments() {
    assert_eq!(
        kind("A kind=cos in=B"),
        BlockKind::MathFn1("cos".to_string())
    );
    assert_eq!(
        kind("A kind=atan2 in1=B in2=C"),
        BlockKind::MathFn2("atan2".to_string())
    );
    assert_eq!(
        kind("A kind=limit in1=B in2=C in3=D"),
        BlockKind::MathFn3("limit".to_string())
    );
    assert_eq!(
        inputs("A kind=if in1=B in2=C in3=prev:D"),
        [now("B"), now("C"), before("D")]
    );
    assert_eq!(
        error("A kind=COS in=B"),
        "line 1: unknown device kind 'COS'"
    );
    assert_eq!(
        error("A kind=hypot in1=B"),
        "line 1: device 'A' missing field 'in2'"
    );
}

// Dynamic blocks

#[test]
fn a_pid_is_clamped_by_numbers_or_by_signals() {
    match kind("A kind=pid kp=1 ki=2 kd=3 n=4 in=E clamp_lo=-1 clamp_hi=1") {
        BlockKind::Pid { pid, clamp } => {
            assert_eq!(
                [pid.kp, pid.ki, pid.kd, pid.n],
                [F64(1.0), F64(2.0), F64(3.0), F64(4.0)]
            );
            assert_eq!(clamp, PidClamp::Fixed(F64(-1.0), F64(1.0)));
        }
        other => panic!("unexpected {other:?}"),
    }
    let line = "A kind=pid kp=1 ki=2 kd=3 n=4 in=E clamp_lo_in=L clamp_hi_in=H";
    assert_eq!(inputs(line), [now("E"), now("L"), now("H")]);
    assert_eq!(
        error("A kind=pid kp=1 ki=2 kd=3 n=4 in=E clamp_lo_in=L"),
        "line 1: device 'A': 'clamp_lo_in'/'clamp_hi_in' must both be given together (dynamic \
         clamp) or both omitted (fixed clamp= clamp_lo/clamp_hi)"
    );
    assert_eq!(
        error("A kind=pid kp=1 ki=2 kd=3 n=0 in=E clamp_lo=-1 clamp_hi=1"),
        "line 1: device 'A': invalid PID (NonPositiveFilterCoefficient)"
    );
}

#[test]
fn ranges_have_to_be_in_order() {
    assert_eq!(
        error("A kind=vco f_min=2 f_max=1 in=B"),
        "line 1: device 'A': invalid vco (FMinExceedsFMax)"
    );
    assert_eq!(
        error("A kind=pspwm f_min=2 f_max=1 inputs=B,C,D"),
        "line 1: device 'A': invalid pspwm oscillator (FMinExceedsFMax)"
    );
    assert_eq!(
        error("A kind=hysteresis high=0 low=1 in=B"),
        "line 1: device 'A': invalid hysteresis (LowExceedsHigh)"
    );
    match kind("A kind=hysteresis high=1 low=1 in=B") {
        BlockKind::Hysteresis(band) => assert_eq!([band.high, band.low], [F64(1.0), F64(1.0)]),
        other => panic!("unexpected {other:?}"),
    }
}

#[test]
fn modulators_have_a_main_output_and_a_complement() {
    match kind("A kind=pwm freq=1000 red=1e-6 in=D") {
        BlockKind::Pwm {
            freq_hz,
            red,
            fed,
            output_names,
        } => {
            assert_eq!([freq_hz, red, fed], [F64(1000.0), F64(1e-6), F64(0.0)]);
            assert_eq!(output_names, names(&["A", "A_comp"]));
        }
        other => panic!("unexpected {other:?}"),
    }
    match kind("A kind=pspwm f_min=1 f_max=2 inputs=F,P,D outputs=H,L") {
        BlockKind::PhaseShiftPwm {
            osc, output_names, ..
        } => {
            assert_eq!([osc.f_min, osc.f_max], [F64(1.0), F64(2.0)]);
            assert_eq!(output_names, names(&["H", "L"]));
        }
        other => panic!("unexpected {other:?}"),
    }
    assert_eq!(
        error("A kind=pwm freq=1000 in=D outputs=H"),
        "line 1: device 'A': 'outputs' needs exactly 2 entries (main, complement; got 1)"
    );
    assert_eq!(
        error("A kind=pspwm f_min=1 f_max=2 inputs=F,P"),
        "line 1: device 'A' kind='pspwm' needs 3 inputs (freq,phase,duty; got 2)"
    );
    assert_eq!(
        error("A kind=pwm freq=1000 fed=x in=D"),
        "line 1: device 'A' field 'fed' is not a number"
    );
}

#[test]
fn scripts_may_have_a_sample_time_and_states() {
    match kind("A kind=cscript lib=filter.so in=B freq=4 xc_count=2") {
        BlockKind::CScript {
            lib,
            output_names,
            sample_time,
            xc_count,
        } => {
            assert_eq!(lib, "filter.so");
            assert_eq!(output_names, names(&["A"]));
            assert_eq!(sample_time, Some(F64(0.25)));
            assert_eq!(xc_count, 2);
        }
        other => panic!("unexpected {other:?}"),
    }
    assert_eq!(
        error("A kind=cscript lib=filter.so in=B ts=1 freq=1"),
        "line 1: device 'A': 'ts' and 'freq' are mutually exclusive (both set this block's \
         sample time)"
    );
    assert_eq!(
        error("A kind=cscript lib=filter.so in=B xc_count=-1"),
        "line 1: device 'A' field 'xc_count' is not a non-negative integer"
    );
}

#[test]
fn a_state_space_defaults_its_feedthrough_to_zero() {
    match kind("A kind=statespace a=[[0,1],[2,3]] b=[[1,0],[0,1]] c=[[1,0]] inputs=U,V") {
        BlockKind::StateSpace(ss) => {
            assert_eq!(ss.a, vec![numbers(&[0.0, 1.0]), numbers(&[2.0, 3.0])]);
            assert_eq!(ss.d, vec![numbers(&[0.0, 0.0])]);
        }
        other => panic!("unexpected {other:?}"),
    }
    assert_eq!(
        error("A kind=statespace a=[[0]] b=[[1,0]] c=[1] d=2 inputs=U,V"),
        "line 1: device 'A' field 'd' is a bare scalar, but this system has 1 output(s) and 2 \
         input(s) -- declare 'd=[[...],...]' (1x2) for a MIMO system, a bare scalar is only \
         valid for a 1x1 (SISO) one"
    );
}

#[test]
fn a_transfer_function_has_to_be_proper() {
    assert_eq!(
        error("A kind=tf num=[1] den=[] in=B"),
        "line 1: device 'A': invalid transfer function (EmptyDenominator)"
    );
    assert_eq!(
        error("A kind=tf num=[1] den=[0,1] in=B"),
        "line 1: device 'A': invalid transfer function (ZeroLeadingDenominatorCoefficient)"
    );
    assert_eq!(
        error("A kind=tf num=[1,2] den=[1] in=B"),
        "line 1: device 'A': invalid transfer function (ImproperTransferFunction)"
    );
}

#[test]
fn a_motor_names_its_outputs_and_checks_its_parameters() {
    let line = |extra: &str| -> String {
        format!("M kind=pmsm r_s=1 l_d=1 l_q=1 lambda_pm=1 pole_pairs=1 inertia=1 friction=0 {extra}")
    };
    match kind(&line("inputs=A,B,C")) {
        BlockKind::Pmsm { output_names, .. } => {
            assert_eq!(output_names, names(&["M", "M_iq", "M_omega_m", "M_theta_e"]));
        }
        other => panic!("unexpected {other:?}"),
    }
    assert_eq!(
        error(&line("inputs=A,B")),
        "line 1: device 'M' kind='pmsm' needs 3 inputs (vd,vq,t_load; got 2)"
    );
    for (field, flaw) in [
        ("r_s=-1", "NegativeResistance"),
        ("l_q=0", "NonPositiveInductance"),
        ("pole_pairs=0", "NonPositivePolePairs"),
        ("inertia=0", "NonPositiveInertia"),
        ("friction=-1", "NegativeFriction"),
    ] {
        assert_eq!(
            error(&line(&format!("inputs=A,B,C {field}"))),
            format!("line 1: device 'M': invalid pmsm ({flaw})")
        );
    }
}

// Interfaces, transforms and logic

#[test]
fn probes_read_a_node_or_a_branch() {
    assert_eq!(
        kind("A kind=probe node=out"),
        BlockKind::Probe(ProbeTarget::Voltage("out".to_string()))
    );
    assert_eq!(
        kind("A kind=probe branch=V1"),
        BlockKind::Probe(ProbeTarget::Current("V1".to_string()))
    );
    assert_eq!(
        error("A kind=probe node=out branch=V1"),
        "line 1: device 'A': 'node' and 'branch' are mutually exclusive (a probe reads either \
         a node voltage or a branch current, never both)"
    );
    assert_eq!(
        error("A kind=probe"),
        "line 1: device 'A' kind='probe' needs 'node=<name>' (reads V(node)) or \
         'branch=<name>' (reads I(branch))"
    );
}

#[test]
fn signals_drive_gates_voltages_and_currents() {
    assert_eq!(kind("A kind=sig2gate in=B"), BlockKind::Sig2Gate);
    assert_eq!(kind("A kind=sig2voltage in=B"), BlockKind::Sig2Voltage);
    assert_eq!(kind("A kind=sig2current in=B"), BlockKind::Sig2Current);
    assert_eq!(
        kind("A kind=sig2phys domain=current in=B"),
        BlockKind::Sig2Current
    );
    assert_eq!(
        error("A kind=sig2phys domain=heat in=B"),
        "line 1: device 'A' field 'domain' must be 'voltage' or 'current' (got 'heat')"
    );
}

#[test]
fn transforms_name_their_outputs_after_the_axes() {
    match kind("A kind=park inputs=B,C,D,T") {
        BlockKind::CoordinateTransform { kind, output_names } => {
            assert_eq!(kind, CoordinateTransform::Park);
            assert_eq!(output_names, names(&["A", "A_q", "A_zero"]));
        }
        other => panic!("unexpected {other:?}"),
    }
    assert_eq!(
        error("A kind=clarke inputs=B,C"),
        "line 1: device 'A' kind='clarke' needs 3 inputs (got 2)"
    );
    assert_eq!(
        error("A kind=clarkeparkinv inputs=B,C,D,T outputs=X,Y"),
        "line 1: device 'A': 'outputs' needs exactly 3 entries (got 2)"
    );
    for (name, count) in [
        ("clarke", 3),
        ("clarkeinv", 3),
        ("park", 4),
        ("parkinv", 4),
        ("clarkepark", 4),
        ("clarkeparkinv", 4),
    ] {
        let line = format!("A kind={name} inputs={}", vec!["B"; count].join(","));
        assert_eq!(block_kind_name(&kind(&line)), name);
    }
}

#[test]
fn logic_has_optional_inputs_and_priorities() {
    assert_eq!(
        kind("A kind=srlatch set=S reset=R priority=reset"),
        BlockKind::SrLatch {
            priority: LatchPriority::ResetWins
        }
    );
    assert_eq!(
        error("A kind=srlatch set=S reset=R priority=both"),
        "line 1: device 'A' field 'priority' must be 'set' or 'reset' (got 'both')"
    );
    assert_eq!(
        kind("A kind=jkff clk=C j=J k=K reset=R"),
        BlockKind::FlipFlop {
            kind: FlipFlopKind::Jk,
            reset: true
        }
    );
    assert_eq!(
        inputs("A kind=jkff clk=C j=J k=K reset=R"),
        [now("C"), now("J"), now("K"), now("R")]
    );
    assert_eq!(inputs("A kind=tff clk=C t=T"), [now("C"), now("T")]);
    assert_eq!(
        inputs("A kind=counter clk=C up_down=U reset=R"),
        [now("C"), now("U"), now("R")]
    );
    assert_eq!(
        error("A kind=counter clk=C modulus=0"),
        "line 1: device 'A' field 'modulus' is not a positive integer"
    );
    for (name, op) in [
        ("and", LogicOp::And),
        ("or", LogicOp::Or),
        ("xor", LogicOp::Xor),
        ("nand", LogicOp::Nand),
        ("nor", LogicOp::Nor),
        ("xnor", LogicOp::Xnor),
    ] {
        let built = kind(&format!("A kind={name} inputs=B,C"));
        assert_eq!(built, BlockKind::LogicGate(op));
        assert_eq!(block_kind_name(&built), name);
    }
}

#[test]
fn a_pure_gain_has_no_state_to_hold_an_output() {
    assert_eq!(
        error("A kind=tf num=[2] den=[1] in=B y0=1"),
        "line 1: device 'A' field 'y0': this block has no state"
    );
}

// Names

#[test]
fn kinds_have_names() {
    for (line, name) in [
        ("A kind=const value=1", "const"),
        ("A kind=time", "time"),
        ("A kind=pwl points=[[0,1]]", "pwl"),
        ("A kind=sinwave va=1 freq=1", "sinwave"),
        ("A kind=sffmwave va=1 fc=1 fs=1", "sffmwave"),
        ("A kind=vco f_min=1 f_max=2 in=B", "vco"),
        ("A kind=uramp in=B", "uramp"),
        ("A kind=pwrs in1=B in2=C", "pwrs"),
        ("A kind=probe node=n", "probe"),
        ("A kind=discretetf num=[1] den=[1,0] ts=1 in=B", "discretetf"),
        ("A kind=counter clk=C", "counter"),
    ] {
        assert_eq!(block_kind_name(&kind(line)), name);
    }
}

// Whole systems

#[test]
fn a_block_without_a_kind_is_a_diode() {
    let fields = [
        ("g_breakdown", "0"),
        ("v_breakdown", "-100"),
        ("g_off", "1e-9"),
        ("v_th", "0.7"),
        ("g_on", "10"),
    ];
    let block = BlockInstance {
        name: "D1".to_string(),
        fields: fields
            .iter()
            .map(|(key, value)| (key.to_string(), value.to_string()))
            .collect(),
        span: 3..4,
    };
    match build_kind::<F64>(&block).unwrap() {
        Kind::IdealDiode(diode) => {
            assert_eq!(diode.v_th, F64(0.7));
            assert_eq!(diode.g_on, F64(10.0));
        }
        other => panic!("unexpected {other:?}"),
    }
}

#[test]
fn a_diode_breaks_down_below_its_threshold() {
    let source = "D1 kind=ideal_diode g_breakdown=0 v_breakdown=1 g_off=0 v_th=1 g_on=1\n";
    assert_eq!(
        build(source).unwrap_err(),
        "line 1: device 'D1': v_breakdown (1) must be strictly below v_th (1)"
    );
    let source = "D1 kind=diode g_breakdown=0 v_breakdown=-1 g_off=0 v_th=1 g_on=1\n";
    let system = build(source).unwrap();
    assert_eq!(
        system.ideal_diodes.get("D1").unwrap().v_breakdown,
        F64(-1.0)
    );
}

#[test]
fn a_switch_has_to_say_what_drives_its_gate() {
    let fields = "r_on=0.01 g_breakdown=0 v_breakdown=-100 g_off=0 v_th=1 g_on=1";
    assert_eq!(
        error(&format!("S1 kind=ideal_switch {fields}")),
        "line 1: device 'S1' missing field 'gate' (gate=block ctrl=<name> -- every gate is \
         block-driven, see this file's own module doc comment)"
    );
    assert_eq!(
        error(&format!("S1 kind=mosfet {fields} gate=pwm")),
        "line 1: unknown gate spec 'pwm' (only gate=block ctrl=<name> exists -- every gate is \
         block-driven)"
    );
    assert_eq!(
        error(&format!("S1 kind=ideal_switch {fields} gate=block")),
        "line 1: device 'S1' missing field 'ctrl'"
    );
}

#[test]
fn switches_that_disagree_are_told_their_resistances() {
    let fields = "g_breakdown=0 v_breakdown=-100 g_off=0 v_th=1 g_on=1 gate=block ctrl=G";
    let source = format!(
        "S1 kind=ideal_switch r_on=0.5 {fields}\nS2 kind=ideal_switch r_on=0.25 {fields}\n"
    );
    assert_eq!(
        build(&source).unwrap_err(),
        "all MOSFETs must share the same r_on (dae-runtime's switch model uses one shared \
         on-resistance per call); got 0.5 and 0.25"
    );
}

#[test]
fn switches_and_gates_go_together_and_blocks_keep_their_order() {
    let fields = "r_on=0.5 g_breakdown=0 v_breakdown=-100 g_off=0 v_th=1 g_on=1 gate=block";
    let source = format!(
        "Z kind=const value=1\nS2 kind=ideal_switch {fields} ctrl=Z\nA kind=gain in=Z k=2\n\
         S1 kind=ideal_switch {fields} ctrl=A\nM kind=const value=3\n"
    );
    let system = build(&source).unwrap();
    let order: Vec<&str> = system.blocks.iter().map(|b| b.name.as_str()).collect();
    assert_eq!(order, ["Z", "A", "M"]);
    for name in ["S1", "S2"] {
        assert!(system.ideal_switches.get(name).is_some());
        assert!(system.gates.get(name).is_some());
        assert_eq!(system.ideal_switches.get(name).unwrap().r_on, F64(0.5));
    }
    assert!(system.gates.get("Z").is_none());
    assert_eq!(system.shared_r_on, F64(0.5));
}

#[test]
fn the_first_output_has_the_name_of_the_block() {
    let line = "P kind=pwm freq=1000 in=D\nD kind=const value=0.5\n";
    match &build(line).unwrap().blocks[0].kind {
        BlockKind::Pwm { output_names, .. } => assert_eq!(output_names[0], "P"),
        other => panic!("unexpected {other:?}"),
    }
    let line = "K kind=clarkepark inputs=D,D,D,D\nD kind=const value=0.5\n";
    let system = build(line).unwrap();
    assert_eq!(system.blocks[0].inputs.len(), 4);
    match &system.blocks[0].kind {
        BlockKind::CoordinateTransform { output_names, .. } => {
            assert_eq!(output_names[0], "K");
            assert_eq!(output_names.len(), 3);
        }
        other => panic!("unexpected {other:?}"),
    }
}

#[test]
fn a_wave_block_is_the_source_of_the_same_numbers() {
    let block = "W kind=pulsewave v1=1 v2=9 td=2 tr=1 tf=2 pw=3 per=16\n";
    let source = "V1 a 0 PULSE(1 9 2 1 2 3 16)\nR1 a 0 1\n";
    let system = build(&format!("{source}{block}")).unwrap();
    let function = system.mna.transient_sources.get("V1").unwrap();
    match &system.blocks[0].kind {
        BlockKind::Waveform(wave) => assert_eq!(wave, function),
        other => panic!("unexpected {other:?}"),
    }
}

#[test]
fn blocks_leave_the_circuit_alone() {
    let circuit = "V1 a 0 1\nR1 a b 2\nC1 b 0 3\n";
    let alone = MnaBuilder::<F64>::new(Dialect::Ngspice)
        .build_fragment(circuit)
        .unwrap();
    let system = build(&format!("{circuit}K kind=const value=1\n")).unwrap();
    assert_eq!(system.mna.a.as_slice(), alone.a.as_slice());
    assert_eq!(system.mna.k.as_slice(), alone.k.as_slice());
    assert_eq!(system.mna.b.as_slice(), alone.b.as_slice());
    assert_eq!(system.mna.unknowns, alone.unknowns);
}

#[test]
fn a_settled_state_holds_the_output_that_is_asked_for() {
    // (2*s + 4)/(s^2 + 3*s + 8) rests where 4 times the first state is the output.
    let source = "G kind=tf in=U num=[2,4] den=[1,3,8] y0=6\nU kind=const value=1\n";
    let system = build(source).unwrap();
    assert_eq!(system.blocks[0].ic, Some(numbers(&[1.5, 0.0])));
    // Sampled, the numerator at one is 2 + 4, and all states are the same.
    let source = "G kind=discretetf in=U num=[2,4] den=[1,3,8] ts=1 y0=9\nU kind=const value=1\n";
    let system = build(source).unwrap();
    assert_eq!(system.blocks[0].ic, Some(numbers(&[1.5, 1.5])));
}

#[test]
fn a_fault_in_the_circuit_is_shown_with_its_values() {
    assert_eq!(
        build("V1 1 0 1\nV1 2 0 1\n").unwrap_err(),
        "DuplicateElement(\"V1\")"
    );
    assert_eq!(
        build("R1 1 0 1 2\n").unwrap_err(),
        "InvalidElementField { line: 1, name: \"R1\", message: \"unexpected extra parameter \
         '2' (device R takes exactly one value)\" }"
    );
}

#[test]
fn signals_inside_of_a_subcircuit_are_renamed_whatever_their_field() {
    let source = ".subckt cell a\nM kind=max in1=P in2=prev:Q\nF kind=dff clk=P d=Q\n\
                  P kind=const value=1\nQ kind=const value=2\n.ends cell\nX1 n cell\nR1 n 0 1\n";
    let system = build(source).unwrap();
    assert_eq!(system.blocks[0].name, "X1.M");
    assert_eq!(system.blocks[0].inputs, [now("X1.P"), before("X1.Q")]);
    assert_eq!(system.blocks[1].inputs, [now("X1.P"), now("X1.Q")]);
}

#[test]
fn a_number_inside_of_a_subcircuit_is_no_signal() {
    let source = ".subckt cell a\nF kind=statespace a=[[1]] b=[1] c=[1] d=2 in=P\n\
                  P kind=const value=1\n.ends cell\nX1 n cell\nR1 n 0 1\n";
    let system = build(source).unwrap();
    match &system.blocks[0].kind {
        BlockKind::StateSpace(ss) => assert_eq!(ss.d, vec![numbers(&[2.0])]),
        other => panic!("unexpected {other:?}"),
    }
}

#[test]
fn a_parse_error_names_its_line() {
    let error = parse_and_flatten("R1 1 0 1\n.ends\n", Dialect::Ngspice).unwrap_err();
    assert_eq!(error, "line 2: .ends without a matching .subckt");
}
