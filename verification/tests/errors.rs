use general_mna::configuration::{configured_options, find_dialect, DialectName};
use general_mna::readability::is_readable;
use general_mna::{
    average, default_initial_state_tolerance, small_signal_duty_input, AveragingError, BuildError,
    EvaluationError, Expression, InitialCondition, InitialStateError, Matrix, MnaBuilder,
    MnaSystem, NameMap, PwlPoints, Scalar, StateSpaceError, SwitchState,
    TransferFunctionError, WeightedPhase,
};
use general_spice_core::Dialect;

#[derive(Clone, Copy, Debug, PartialEq)]
struct F64(f64);

impl Scalar for F64 {
    fn zero() -> Self {
        F64(0.0)
    }
    fn one() -> Self {
        F64(1.0)
    }
    fn nan() -> Self {
        F64(f64::NAN)
    }
    fn never() -> Self {
        F64(f64::MAX / 4.0)
    }
    fn from_count(n: usize) -> Self {
        F64(n as f64)
    }
    fn power_of_ten(exponent: i8) -> Self {
        F64(format!("1e{exponent}").parse().unwrap())
    }
    fn negated(self) -> Self {
        F64(-self.0)
    }
    fn plus(self, rhs: Self) -> Self {
        F64(self.0 + rhs.0)
    }
    fn minus(self, rhs: Self) -> Self {
        F64(self.0 - rhs.0)
    }
    fn times(self, rhs: Self) -> Self {
        F64(self.0 * rhs.0)
    }
    fn over(self, rhs: Self) -> Self {
        F64(self.0 / rhs.0)
    }
    fn modulo(self, rhs: Self) -> Self {
        F64(self.0 % rhs.0)
    }
    fn sqrt(self) -> Self {
        F64(self.0.sqrt())
    }
    fn abs(self) -> Self {
        F64(self.0.abs())
    }
    fn max(self, rhs: Self) -> Self {
        F64(self.0.max(rhs.0))
    }
    fn sin(self) -> Self {
        F64(self.0.sin())
    }
    fn exp(self) -> Self {
        F64(self.0.exp())
    }
    fn to_radians(self) -> Self {
        F64(self.0.to_radians())
    }
    fn full_turn() -> Self {
        F64(2.0 * std::f64::consts::PI)
    }
    fn epsilon() -> Self {
        F64(f64::EPSILON)
    }
    fn same_as(self, rhs: Self) -> bool {
        self.0 == rhs.0
    }
    fn less_than(self, rhs: Self) -> bool {
        self.0 < rhs.0
    }
    fn ranks_before(self, rhs: Self) -> bool {
        self.0.total_cmp(&rhs.0).is_lt()
    }
    fn is_nan(self) -> bool {
        self.0.is_nan()
    }
    fn is_finite(self) -> bool {
        self.0.is_finite()
    }
    fn parse(text: &str) -> Option<Self> {
        text.parse().ok().map(F64)
    }
    fn text(self) -> String {
        format!("{}", self.0)
    }
    fn precise_text(self) -> String {
        format!("{:?}", self.0)
    }
}

fn values(entries: &[(&str, f64)]) -> NameMap<F64> {
    let mut map = NameMap::new();
    for (name, value) in entries {
        map.insert(name.to_string(), F64(*value));
    }
    map
}

fn build(netlist: &str) -> MnaSystem<F64> {
    MnaBuilder::new(Dialect::Ngspice)
        .build_fragment(netlist)
        .unwrap()
}

fn fault(netlist: &str) -> BuildError {
    MnaBuilder::<F64>::new(Dialect::Ngspice)
        .build_fragment(netlist)
        .unwrap_err()
}

// Building

#[test]
fn a_branch_may_occur_only_once() {
    let error = fault("V1 1 0 1\nv1 2 0 1");
    assert_eq!(error, BuildError::DuplicateElement("v1".to_string()));
    assert_eq!(
        error.to_text(),
        "duplicate case-insensitive element name 'v1'"
    );
}

#[test]
fn a_controlling_branch_has_to_exist() {
    let error = fault("F1 1 0 V9 2\nR1 1 0 1");
    assert_eq!(
        error,
        BuildError::UnknownControllingBranch("V9".to_string())
    );
    assert_eq!(error.to_text(), "unknown controlling branch 'V9'");
}

#[test]
fn a_coupled_inductor_has_to_exist() {
    let error = fault("L1 1 0 1\nK1 L1 L2 0.5");
    assert_eq!(error, BuildError::UnknownInductor("L2".to_string()));
    assert_eq!(error.to_text(), "unknown coupled inductor 'L2'");
}

#[test]
fn a_value_has_to_be_there() {
    let error = fault("R1 1 0");
    assert_eq!(
        error.to_text(),
        "cannot stamp element 'R1': has no scalar value"
    );
}

#[test]
fn an_unsupported_device_is_reported() {
    assert_eq!(
        fault("Q1 1 0 2 model").to_text(),
        "element 'Q1' (device Q) has no linear MNA stamp"
    );
}

#[test]
fn a_document_begins_with_a_title() {
    let system = MnaBuilder::<F64>::new(Dialect::Ngspice)
        .build_document("V1 1 0 1\nR1 2 0 1\n")
        .unwrap();
    assert_eq!(system.unknowns, ["V(2)"]);
}

// Directives

#[test]
fn ic_directives_follow_the_conditions_on_devices() {
    let system = build(
        ".ic v(a)=2 V(a,b)=1\n.ic i(L1)=3\nV1 a 0 1\nL1 a b 1\nC1 b 0 1 ic=4\nR1 b 0 1",
    );
    let names: Vec<&str> = system.initial_conditions.iter().map(|c| c.element()).collect();
    assert_eq!(names, ["C1", ".IC V(a)", ".IC V(a,b)", ".IC I(L1)"]);
    match &system.initial_conditions[1] {
        InitialCondition::CapacitorVoltage {
            positive, negative, ..
        } => assert_eq!((*positive, *negative), (Some(0), None)),
        other => panic!("unexpected {other:?}"),
    }
    match &system.initial_conditions[3] {
        InitialCondition::InductorCurrent { branch, value, .. } => {
            assert_eq!(*branch, 3);
            assert_eq!(value.to_text(), "3");
        }
        other => panic!("unexpected {other:?}"),
    }
}

#[test]
fn ic_directives_for_what_does_not_exist_are_ignored() {
    let system = build("R1 a 0 1\n.ic V(x)=1 V(a)=2\n.ic I(R1)=1 Q(a)=1 V(a)=1+1");
    assert_eq!(system.initial_conditions.len(), 1);
    assert_eq!(system.initial_conditions[0].element(), ".IC V(a)");
    assert_eq!(
        system.warnings,
        [
            "line 2: .IC names unknown node 'x' (ignored)",
            "line 3: .IC names no inductor 'R1' (ignored)",
            "line 3: .IC cannot fix 'Q(a)' (only V(node), V(node,node) and I(inductor)) \
             (ignored)",
            "line 3: .IC field 'V(a)' is not a value: unsupported scalar expression '1+1'; use \
             a number or symbol (ignored)",
        ]
    );
}

#[test]
fn systems_can_be_cloned() {
    let system = build("V1 a 0 SIN(0 1 2)\nR1 a b R\nC1 b 0 1 ic=2\n.param R=3");
    assert_eq!(system.clone(), system);
    let builder = MnaBuilder::<F64>::new(Dialect::Ngspice);
    assert_eq!(builder.clone().options(), builder.options());
}

// Initial states

#[test]
fn an_initial_state_is_an_assignment() {
    let system = build("V1 a 0 10\nR1 a b 1000\nC1 b c 1e-6 ic=5\nR2 c 0 1000");
    let x = system
        .initial_state(&values(&[]), default_initial_state_tolerance())
        .unwrap()
        .unwrap();
    // The floating island is held at its first node; everything else rests.
    assert_eq!(x, [F64(0.0), F64(0.0), F64(-5.0), F64(0.0)]);
}

#[test]
fn the_order_of_conditions_does_not_matter() {
    let start = |netlist: &str| -> Vec<(String, f64)> {
        let system = build(netlist);
        let x = system
            .initial_state(&values(&[]), default_initial_state_tolerance())
            .unwrap()
            .unwrap();
        let mut list: Vec<(String, f64)> = Vec::new();
        for (name, value) in system.unknowns.iter().zip(&x) {
            list.push((name.clone(), value.0));
        }
        list
    };
    let nodes = "R1 a 0 1\nR2 b 0 1\nR3 c 0 1\nR4 d 0 1\nR5 e 0 1\n";
    let cards = ["C1 b a 1 ic=2", "C2 c b 1 ic=3", "C3 a 0 1 ic=1", "C4 e d 1 ic=7"];
    let first = format!("{nodes}{}\n{}\n{}\n{}", cards[0], cards[1], cards[2], cards[3]);
    let second = format!("{nodes}{}\n{}\n{}\n{}", cards[3], cards[2], cards[1], cards[0]);
    assert_eq!(start(&first), start(&second));
    // The island of d and e is held at its first node.
    let wanted = [("V(a)", 1.0), ("V(b)", 3.0), ("V(c)", 6.0), ("V(d)", 0.0), ("V(e)", 7.0)];
    for (i, (name, value)) in wanted.iter().enumerate() {
        assert_eq!(start(&first)[i], (name.to_string(), *value));
    }
}

#[test]
fn conditions_in_a_loop_have_to_agree() {
    let system = build("C1 a 0 1 ic=1\nC2 a 0 1 ic=2\nR1 a 0 1");
    let error = system
        .initial_state(&values(&[]), default_initial_state_tolerance())
        .unwrap_err();
    match &error {
        InitialStateError::ConflictingConditions { element, .. } => assert_eq!(element, "C2"),
        other => panic!("unexpected {other:?}"),
    }
    assert!(error.to_text().starts_with("contradictory ic= values: 'C2' declares"));
}

#[test]
fn a_condition_against_a_source_is_inconsistent() {
    let system = build("V1 a 0 10\nR1 a 0 1000\nC1 a 0 1e-6 ic=5");
    let error = system
        .initial_state(&values(&[]), default_initial_state_tolerance())
        .unwrap_err();
    assert_eq!(
        error,
        InitialStateError::InconsistentWithCircuit {
            constraint: "I(V1)".to_string(),
            residual: F64(-5.0)
        }
    );
}

#[test]
fn an_equation_with_a_free_unknown_is_not_checked() {
    let system = build("V1 a 0 10\nL1 a b 1 ic=12\nL2 b 0 1");
    let x = system
        .initial_state(&values(&[]), default_initial_state_tolerance())
        .unwrap()
        .unwrap();
    assert_eq!(system.unknowns, ["V(a)", "V(b)", "I(V1)", "I(L1)", "I(L2)"]);
    assert_eq!(x, [F64(0.0), F64(0.0), F64(0.0), F64(12.0), F64(0.0)]);
}

#[test]
fn series_inductors_have_to_declare_one_current() {
    let system = build("V1 a 0 10\nL1 a b 1 ic=12\nL2 b 0 1 ic=7");
    let error = system
        .initial_state(&values(&[]), default_initial_state_tolerance())
        .unwrap_err();
    assert_eq!(
        error,
        InitialStateError::InconsistentWithCircuit {
            constraint: "V(b)".to_string(),
            residual: F64(-5.0)
        }
    );
}

#[test]
fn a_condition_has_to_have_a_value() {
    let system = build("R1 a 0 1\nC1 a 0 1 ic=x");
    let error = system
        .initial_state(&values(&[]), default_initial_state_tolerance())
        .unwrap_err();
    assert_eq!(
        error.to_text(),
        "cannot evaluate the ic= initial state: missing value for symbol 'x'"
    );
}

// Evaluating

#[test]
fn evaluation_fails_for_three_reasons() {
    let symbol = |name: &str| -> Expression<F64> { Expression::symbol(name) };
    let at = values(&[("x", 0.0), ("y", -1.0)]);
    let missing = symbol("z").evaluate(&at).unwrap_err();
    assert_eq!(missing, EvaluationError::MissingSymbol("z".to_string()));
    assert_eq!(missing.to_text(), "missing value for symbol 'z'");
    let division = symbol("x").reciprocal().evaluate(&at).unwrap_err();
    assert_eq!(division, EvaluationError::DivisionByZero);
    assert_eq!(division.to_text(), "division by zero");
    let root = symbol("y").sqrt().evaluate(&at).unwrap_err();
    assert_eq!(root, EvaluationError::NegativeSquareRoot(F64(-1.0)));
    assert_eq!(root.to_text(), "cannot take the real square root of -1");
}

#[test]
fn symbols_are_listed_in_order_and_once() {
    let e: Expression<F64> =
        Expression::symbol("b") * Expression::symbol("a") + Expression::symbol("b").sqrt();
    assert_eq!(e.symbols(), ["a", "b"]);
}

#[test]
fn a_misshapen_system_is_evaluated_and_then_refused() {
    let mut system = build("V1 1 0 1\nR1 1 2 2\nC1 2 0 3");
    system.a = Matrix::filled(1, 2, Expression::Constant(F64(4.0)));
    let numeric = system.evaluate(&values(&[])).unwrap();
    assert_eq!(numeric.a.as_slice(), [F64(4.0), F64(4.0)]);
    assert_eq!(
        numeric.to_state_space(F64(1e-12)).unwrap_err(),
        StateSpaceError::InconsistentDimensions
    );
}

#[test]
fn an_input_without_a_value_contributes_nothing() {
    let system = build("V1 1 0 E\nR1 1 0 2");
    let numeric = system.evaluate(&values(&[])).unwrap();
    assert!(numeric.input_values[0].0.is_nan());
    assert_eq!(numeric.u, [F64(0.0), F64(0.0)]);
}

// Reducing

#[test]
fn a_circuit_without_storage_has_no_states() {
    let numeric = build("V1 1 0 1\nR1 1 0 2").evaluate(&values(&[])).unwrap();
    assert_eq!(
        numeric.to_state_space(F64(1e-12)).unwrap_err(),
        StateSpaceError::NoDynamicVariables
    );
}

#[test]
fn an_equation_without_a_stamp_is_reported() {
    // Nothing but the input of a controlled source is connected to node 3.
    let error = build("C1 1 0 1\nG1 1 0 3 0 2")
        .to_symbolic_state_space()
        .unwrap_err();
    assert_eq!(
        error,
        StateSpaceError::SingularAlgebraicBlock {
            unknown: "V(3)".to_string(),
            block: vec!["V(3)".to_string()],
        }
    );
}

#[test]
fn the_numeric_right_hand_side_is_the_value_of_the_symbolic_one() {
    let system = build("V1 1 0 E\nI1 0 2 J\nR1 1 2 4");
    let at = values(&[("E", 3.0), ("J", 0.5)]);
    let numeric = system.evaluate(&at).unwrap();
    for row in 0..system.order() {
        assert_eq!(system.u[row].evaluate(&at).unwrap(), numeric.u[row]);
    }
}

#[test]
fn parallel_voltage_sources_are_singular() {
    let numeric = build("V1 1 0 1\nV2 1 0 1\nR1 1 2 1\nC1 2 0 1")
        .evaluate(&values(&[]))
        .unwrap();
    let error = numeric.to_state_space(F64(1e-12)).unwrap_err();
    assert!(matches!(
        error,
        StateSpaceError::SingularAlgebraicBlock { .. }
    ));
    assert!(error.to_text().contains("linearly dependent"));
}

#[test]
fn transfer_functions_check_their_indices() {
    let space = build("V1 1 0 1\nR1 1 2 R\nC1 2 0 C")
        .to_symbolic_state_space()
        .unwrap();
    let output = space.transfer_function(1, 0).unwrap_err();
    assert_eq!(output, TransferFunctionError::InvalidOutputIndex(1));
    assert_eq!(output.to_text(), "state index 1 is out of range");
    let input = space.transfer_function(0, 2).unwrap_err();
    assert_eq!(input, TransferFunctionError::InvalidInputIndex(2));
    assert_eq!(input.to_text(), "input index 2 is out of range");
}

// Averaging

#[test]
fn averaging_checks_its_phases() {
    let one = Expression::one();
    let a = build("V1 1 0 1\nR1 1 0 2");
    let b = build("V1 1 0 1\nR1 1 2 2");
    let c = build("V2 1 0 1\nR1 1 0 2");
    assert_eq!(average::<F64>(&[]).unwrap_err(), AveragingError::NoPhases);
    assert_eq!(
        average(&[
            WeightedPhase { system: &a, weight: &one },
            WeightedPhase { system: &b, weight: &one },
        ])
        .unwrap_err(),
        AveragingError::UnknownsDiffer
    );
    assert_eq!(
        average(&[
            WeightedPhase { system: &a, weight: &one },
            WeightedPhase { system: &c, weight: &one },
        ])
        .unwrap_err(),
        AveragingError::UnknownsDiffer
    );
}

#[test]
fn a_duty_perturbation_is_the_difference_of_the_phases() {
    let on = build("I1 0 1 J\nR1 1 0 2\nC1 1 0 1");
    let off = build("I1 0 1 J\nR1 1 0 4\nC1 1 0 1");
    let x = [Expression::symbol("x")];
    let u = [Expression::symbol("u")];
    let column = small_signal_duty_input(&on, &off, &x, &u).unwrap();
    // (b - b)*u - (1/2 - 1/4)*x
    let at = values(&[("x", 8.0), ("u", 3.0)]);
    assert_eq!(column[0].evaluate(&at).unwrap(), F64(-2.0));
    let error = small_signal_duty_input(&on, &off, &x, &[]).unwrap_err();
    assert_eq!(
        error.to_text(),
        "input operating point needs 1 entries, received 0"
    );
}

// Data

#[test]
fn a_matrix_needs_as_many_values_as_entries() {
    let error = Matrix::from_vec(2, 2, vec![1, 2, 3]).unwrap_err();
    assert_eq!(
        error.to_text(),
        "a 2x2 matrix needs 4 values, received 3"
    );
    let m = Matrix::from_vec(2, 2, vec![1, 2, 3, 4]).unwrap();
    assert_eq!((m.rows(), m.cols()), (2, 2));
    assert_eq!(m.as_slice(), [1, 2, 3, 4]);
    assert_eq!(m.iter(), vec![&1, &2, &3, &4]);
    assert_eq!(m[(1, 0)], 3);
    assert_eq!(m.map(|x| x * 2).as_slice(), [2, 4, 6, 8]);
    assert_eq!(Matrix::filled(1, 2, 7).as_slice(), [7, 7]);
}

#[test]
fn breakpoints_are_not_empty() {
    assert!(PwlPoints::<F64>::new(&[]).is_none());
    let points = PwlPoints::new(&[(F64(0.0), F64(1.0))]).unwrap();
    assert_eq!(points.as_slice(), [(F64(0.0), F64(1.0))]);
}

#[test]
fn a_system_can_be_written_as_strings() {
    let system = build("V1 1 0 1\nR1 1 2 R\nC1 2 0 C");
    let text = system.to_string_system();
    assert_eq!(text.unknowns, ["V(1)", "V(2)", "I(V1)"]);
    assert_eq!(
        text.a,
        [
            "1 / R", "-1 * 1 / R", "1", "-1 * 1 / R", "1 / R", "0", "1", "0", "0"
        ]
    );
}

// Conditions

#[test]
fn conditions_are_no_part_of_the_equations() {
    let with = build("V1 a 0 10\nL1 a b 1 ic=12\nC1 b 0 2 IC=3\n.ic V(b)=3");
    let without = build("V1 a 0 10\nL1 a b 1\nC1 b 0 2\n.ic V(b)=3");
    assert_eq!(with.a.as_slice(), without.a.as_slice());
    assert_eq!(with.k.as_slice(), without.k.as_slice());
    assert_eq!(with.b.as_slice(), without.b.as_slice());
    assert_eq!(with.u, without.u);
    assert_eq!(with.unknowns, without.unknowns);
    assert_eq!(with.initial_conditions.len(), 3);
    assert_eq!(without.initial_conditions.len(), 1);
    assert_eq!(with.initial_conditions[2], without.initial_conditions[0]);
}

#[test]
fn a_loop_that_sums_to_zero_is_no_conflict() {
    let netlist = |last: &str| -> String {
        format!("R1 a 0 1\nC1 a 0 1 ic=1\nC2 b a 1 ic=2\nC3 b 0 1 ic={last}")
    };
    let tolerance = default_initial_state_tolerance;
    assert!(build(&netlist("3")).initial_state(&values(&[]), tolerance()).is_ok());
    match build(&netlist("4")).initial_state(&values(&[]), tolerance()) {
        Err(InitialStateError::ConflictingConditions { .. }) => {}
        other => panic!("unexpected {other:?}"),
    }
}

// Reading

#[test]
fn a_text_is_readable_unless_the_parser_might_slice_it_apart() {
    assert!(is_readable("R1 1 0 1 $ 10 \u{3a9}\nC1 1 0 1 // \u{3a9}\n", Dialect::Ngspice));
    assert!(is_readable("R1 \u{3a9} 0 1 $ a resistor\n", Dialect::Ngspice));
    assert!(is_readable("R1 \u{3a9} 0 1\nR2 1 0 1 $ a resistor\n", Dialect::Ngspice));
    assert!(is_readable("* Widerstandsma\u{df}\nR1 1 0 a/b\n", Dialect::Ngspice));
    assert!(!is_readable(".\u{17f}ubckt cell a\n", Dialect::Ngspice));
    assert!(is_readable(".func f(x) {2*x}\nR1 1 0 1\n", Dialect::Ngspice));
    assert!(!is_readable(".func f)x( {2*x}\nR1 1 0 1\n", Dialect::Ngspice));
    assert!(is_readable("R1 1 0 )\n", Dialect::Ngspice));
    // No comment begins inside of a word, and a whole-line comment is not looked into.
    assert!(is_readable("R1 \u{3a9} 0 a$b\n* 10 \u{3a9} $ (x.\u{df})\n", Dialect::Ngspice));
    // The mark is the fifth character, and four bytes are two and a half.
    assert!(!is_readable("R\u{3a9}\u{3a9} $\n", Dialect::Ngspice));
    assert!(is_readable("*\u{3a9}\u{3a9} $\n", Dialect::Ngspice));
    assert!(!is_readable("R1 a 0 \\\n*\u{3a9}\u{3a9} $\n", Dialect::Ngspice));
    assert!(!is_readable("R1 a 0 \\ \\\n\n*\u{3a9}\u{3a9} $\n", Dialect::Ngspice));
    assert!(is_readable("R1 n.\u{df} 0 1\n.func f(x) {x}\nR2 1 0 )\n", Dialect::Ngspice));
    assert!(!is_readable(".func f(x)\n+ } {x\n", Dialect::Ngspice));
    // A bracket may be closed on a later line than the one it is opened on.
    assert!(is_readable(".func f(x) {x +\n+ 1}\n", Dialect::Ngspice));
    assert!(is_readable(".func f(x,\n+ y) {x + y}\n", Dialect::Ngspice));
    assert!(is_readable(".func f(x) {x + \\\n 1}\n", Dialect::Ngspice));
    assert!(is_readable(".func f(x) = x) + (1\n", Dialect::Ngspice));
    assert!(!is_readable(".func f(x)} \\\n {x\n", Dialect::Ngspice));
    // Of the second line nothing is left, so that the third goes on with no directive.
    assert!(!is_readable(
        ".func f } {x\n\u{3000}+ $\n+ }\n",
        Dialect::Ngspice
    ));
    // A mark inside of a comment joins no line.
    assert!(is_readable("R1 1 0 1 $ a \\\n*\u{3a9}\u{3a9} $\n", Dialect::Ngspice));
}

#[test]
fn a_text_is_readable_by_the_marks_of_its_dialect() {
    assert!(is_readable("R\u{3a9}\u{3a9} $\n", Dialect::Xyce));
    assert!(is_readable("R1 a\u{3a9}\u{3a9} 0 1 //\n", Dialect::Xyce));
    assert!(is_readable("R1 a 0 \\\n*\u{3a9}\u{3a9} $\n", Dialect::Xyce));
    assert!(is_readable(".func f(x) {x} ; } {\n", Dialect::Xyce));
    assert!(!is_readable(".func f(x) } {x\n", Dialect::Xyce));
    assert!(is_readable(".func f(x) {x +\n+ 1}\n", Dialect::Xyce));
    assert!(!is_readable(".\u{17f}ubckt cell a\n", Dialect::Xyce));
}

#[test]
fn other_directives_and_comments_leave_no_trace() {
    let plain = build("V1 1 0 1\nR1 1 0 2");
    let with = build("V1 1 0 1 $ the supply\n.func f(x) {2*x}\n* 10 \u{3a9}\nR1 1 0\n+ 2\n.op");
    assert_eq!(plain.a.as_slice(), with.a.as_slice());
    assert_eq!(plain.unknowns, with.unknowns);
}

// Options

#[test]
fn options_are_read_from_texts() {
    assert_eq!(find_dialect("NGspice"), Ok(DialectName::Ngspice));
    assert_eq!(find_dialect("xyce"), Ok(DialectName::Xyce));
    assert_eq!(
        find_dialect("HSpice").unwrap_err(),
        "unknown SPICE dialect 'hspice'"
    );
    let flags = [("s1".to_string(), true), ("S2".to_string(), false)];
    let options = configured_options::<F64>(&flags, "10m", "Ropen").unwrap();
    assert_eq!(options.on_resistance, Expression::Constant(F64(0.01)));
    assert_eq!(options.off_resistance, Expression::symbol("Ropen"));
    assert_eq!(options.switch_states.get("S1"), Some(&SwitchState::On));
    assert_eq!(options.switch_states.get("S2"), Some(&SwitchState::Off));
    assert_eq!(
        configured_options::<F64>(&flags, "1", "a+b").unwrap_err(),
        "unsupported scalar expression 'a+b'; use a number or symbol"
    );
}
