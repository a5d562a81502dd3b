use general_mna::{Scalar, TransientFunction};

#[derive(Clone, Copy, Debug, PartialEq)]
struct F64(f64);

impl Scalar for F64 {
    fn zero() -> Self {
        F64(0.0)
    }
    fn one() -> Self {
        F64(1.0)
    }
    fn nan() -> Self {
        F64(f64::NAN)
    }
    fn never() -> Self {
        F64(f64::MAX / 4.0)
    }
    fn from_count(n: usize) -> Self {
        F64(n as f64)
    }
    fn power_of_ten(exponent: i8) -> Self {
        F64(format!("1e{exponent}").parse().unwrap())
    }
    fn negated(self) -> Self {
        F64(-self.0)
    }
    fn plus(self, rhs: Self) -> Self {
        F64(self.0 + rhs.0)
    }
    fn minus(self, rhs: Self) -> Self {
        F64(self.0 - rhs.0)
    }
    fn times(self, rhs: Self) -> Self {
        F64(self.0 * rhs.0)
    }
    fn over(self, rhs: Self) -> Self {
        F64(self.0 / rhs.0)
    }
    fn modulo(self, rhs: Self) -> Self {
        F64(self.0 % rhs.0)
    }
    fn sqrt(self) -> Self {
        F64(self.0.sqrt())
    }
    fn abs(self) -> Self {
        F64(self.0.abs())
    }
    fn max(self, rhs: Self) -> Self {
        F64(self.0.max(rhs.0))
    }
    fn sin(self) -> Self {
        F64(self.0.sin())
    }
    fn exp(self) -> Self {
        F64(self.0.exp())
    }
    fn to_radians(self) -> Self {
        F64(self.0.to_radians())
    }
    fn full_turn() -> Self {
        F64(2.0 * std::f64::consts::PI)
    }
    fn epsilon() -> Self {
        F64(f64::EPSILON)
    }
    fn same_as(self, rhs: Self) -> bool {
        self.0 == rhs.0
    }
    fn less_than(self, rhs: Self) -> bool {
        self.0 < rhs.0
    }
    fn ranks_before(self, rhs: Self) -> bool {
        self.0.total_cmp(&rhs.0).is_lt()
    }
    fn is_nan(self) -> bool {
        self.0.is_nan()
    }
    fn is_finite(self) -> bool {
        self.0.is_finite()
    }
    fn parse(text: &str) -> Option<Self> {
        text.parse().ok().map(F64)
    }
    fn text(self) -> String {
        format!("{}", self.0)
    }
    fn precise_text(self) -> String {
        format!("{:?}", self.0)
    }
}

fn at(tf: &TransientFunction<F64>, t: f64) -> f64 {
    tf.value_at(F64(t)).0
}

fn toks(s: &str) -> Vec<String> {
    s.split_whitespace().map(String::from).collect()
}

#[test]
fn sin_matches_hand_computed_values() {
    let tf = TransientFunction::<F64>::parse(&toks("SIN(0 10 1000 0 0 0)")).unwrap();
    assert!((at(&tf, 0.0) - 0.0).abs() < 1e-9);
    // Quarter period: t = 1/(4*1000) = 250us -> sin(pi/2) = 1 -> value = 10
    assert!((at(&tf, 2.5e-4) - 10.0).abs() < 1e-6);
    // Half period -> back to 0
    assert!((at(&tf, 5e-4) - 0.0).abs() < 1e-6);
}

#[test]
fn sin_respects_delay_and_damping() {
    let tf = TransientFunction::<F64>::parse(&toks("SIN(1 2 100 0.01 5 0)")).unwrap();
    assert_eq!(at(&tf, 0.0), 1.0); // before td, flat at v0
    assert_eq!(at(&tf, 0.005), 1.0);
    // Right at td, undamped sin(0) = 0, so value = v0 exactly.
    assert!((at(&tf, 0.01) - 1.0).abs() < 1e-9);
}

#[test]
fn pulse_matches_hand_computed_trapezoid() {
    // V1=0 V2=10 TD=0 TR=1 TF=1 PW=2 PER=10 (arbitrary time units for a clean hand check)
    let tf = TransientFunction::<F64>::parse(&toks("PULSE(0 10 0 1 1 2 10)")).unwrap();
    assert_eq!(at(&tf, 0.0), 0.0);
    assert_eq!(at(&tf, 0.5), 5.0); // mid-rise
    assert_eq!(at(&tf, 1.0), 10.0); // start of plateau
    assert_eq!(at(&tf, 2.5), 10.0); // mid-plateau
    assert_eq!(at(&tf, 3.5), 5.0); // mid-fall
    assert_eq!(at(&tf, 4.0), 0.0); // back to v1
    assert_eq!(at(&tf, 9.9), 0.0); // still low, before next period
    assert_eq!(at(&tf, 10.5), 5.0); // second period, mid-rise
}

#[test]
fn exp_matches_hand_computed_values() {
    // V1=0 V2=1 TD1=0 TAU1=1 TD2=1000 TAU2=1 (TD2 far away so only the rise matters here)
    let tf = TransientFunction::<F64>::parse(&toks("EXP(0 1 0 1 1000 1)")).unwrap();
    assert_eq!(at(&tf, 0.0), 0.0);
    // At t=tau1, rise = 1 - e^-1 ~= 0.6321
    assert!((at(&tf, 1.0) - (1.0 - (-1.0_f64).exp())).abs() < 1e-9);
}

#[test]
fn pwl_interpolates_linearly_and_holds_ends() {
    let tf = TransientFunction::<F64>::parse(&toks("PWL(0 0 1 10 2 0)")).unwrap();
    assert_eq!(at(&tf, -1.0), 0.0); // before first point: held
    assert_eq!(at(&tf, 0.0), 0.0);
    assert_eq!(at(&tf, 0.5), 5.0); // linear interpolation
    assert_eq!(at(&tf, 1.0), 10.0);
    assert_eq!(at(&tf, 1.5), 5.0);
    assert_eq!(at(&tf, 2.0), 0.0);
    assert_eq!(at(&tf, 3.0), 0.0); // after last point: held
}

#[test]
fn sffm_matches_hand_computed_value_at_t_zero() {
    let tf = TransientFunction::<F64>::parse(&toks("SFFM(0 5 1000 10 100)")).unwrap();
    // At t=0, both sines are 0 -> value = v0 = 0.
    assert_eq!(at(&tf, 0.0), 0.0);
}

#[test]
fn non_function_tokens_return_none() {
    assert!(TransientFunction::<F64>::parse(&toks("10")).is_none());
    assert!(TransientFunction::<F64>::parse(&toks("DC 5")).is_none());
}

#[test]
fn waves_rest_before_their_delays() {
    let exp = TransientFunction::<F64>::parse(&toks("EXP(1 5 2 1 4 1)")).unwrap();
    assert_eq!(at(&exp, 0.0), 1.0);
    assert_eq!(at(&exp, 1.5), 1.0);
    let pulse = TransientFunction::<F64>::parse(&toks("PULSE(1 9 2 0 0 3 16)")).unwrap();
    assert_eq!(at(&pulse, 1.5), 1.0);
    assert_eq!(at(&pulse, 2.0), 9.0);
    let sin = TransientFunction::<F64>::parse(&toks("SIN(3 2 1 4 0 90)")).unwrap();
    assert_eq!(at(&sin, 3.5), 3.0);
}

#[test]
fn a_pulse_repeats_every_period() {
    let pulse = TransientFunction::<F64>::parse(&toks("PULSE(1 9 2 1 2 3 16)")).unwrap();
    for step in 0..32 {
        let t = 2.0 + f64::from(step) / 2.0;
        assert_eq!(at(&pulse, t), at(&pulse, t + 16.0));
        assert_eq!(at(&pulse, t), at(&pulse, t + 32.0));
    }
}

#[test]
fn a_call_may_be_spelled_in_several_ways() {
    let wanted = TransientFunction::<F64>::parse(&toks("SIN(0 10 1000)"));
    assert_eq!(
        wanted,
        Some(TransientFunction::Sin {
            v0: F64(0.0),
            va: F64(10.0),
            freq: F64(1000.0),
            td: F64(0.0),
            theta: F64(0.0),
            phase: F64(0.0),
        })
    );
    assert_eq!(TransientFunction::parse(&toks("sin( 0 10 1000 )")), wanted);
    assert_eq!(TransientFunction::parse(&toks("Sin(0 10 1000 )")), wanted);
}

#[test]
fn an_exponential_approaches_and_returns_without_a_jump() {
    let exp = TransientFunction::<F64>::parse(&toks("EXP(1 5 2 1 4 3)")).unwrap();
    let mut before = at(&exp, 2.0);
    assert_eq!(before, 1.0);
    for step in 1..=200 {
        let now = at(&exp, 2.0 + f64::from(step) / 100.0);
        assert!((now - 5.0).abs() <= (before - 5.0).abs());
        before = now;
    }
    assert!((at(&exp, 4.0) - at(&exp, 4.0 - 1e-12)).abs() < 1e-9);
    for step in 1..=200 {
        let now = at(&exp, 4.0 + f64::from(step) / 10.0);
        assert!((now - 1.0).abs() <= (before - 1.0).abs());
        assert!((1.0..=5.0).contains(&now));
        before = now;
    }
}
