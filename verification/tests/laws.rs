use general_mna::block_graph::BlockKind;
use general_mna::hierarchy::flatten;
use general_mna::netlist::{ElementInstance, Statement, Subckt};
use general_mna::numeric::solve_rows;
use general_mna::residue::Residue;
use general_mna::{
    average, build_system, faddeev_leverrier, BuildOptions, Expression, Matrix, MnaBuilder,
    MnaSystem, NameMap, Scalar, SwitchState, UnsupportedElementPolicy, WeightedPhase,
};
use general_spice_core::Dialect;

fn build(netlist: &str) -> MnaSystem<Residue> {
    MnaBuilder::new(Dialect::Ngspice)
        .build_fragment(netlist)
        .unwrap()
}

fn symbol(name: &str) -> Expression<Residue> {
    Expression::symbol(name)
}

fn assignment(entries: &[(&str, usize)]) -> NameMap<Residue> {
    let mut map = NameMap::new();
    for (name, value) in entries {
        map.insert(name.to_string(), Residue::of(*value));
    }
    map
}

fn number(e: &Expression<Residue>, values: &NameMap<Residue>) -> usize {
    e.evaluate(values).unwrap().to_number()
}

// Numbers

#[test]
fn residues_compute_modulo_seven() {
    assert_eq!(Residue::of(5).plus(Residue::of(4)), Residue::Two);
    assert_eq!(Residue::of(2).minus(Residue::of(5)), Residue::Four);
    assert_eq!(Residue::of(3).times(Residue::of(4)), Residue::Five);
    assert_eq!(Residue::of(1).over(Residue::of(3)), Residue::Five);
    assert_eq!(Residue::of(3).negated(), Residue::Four);
    assert_eq!(<Residue as Scalar>::power_of_ten(2), Residue::Two);
    assert_eq!(<Residue as Scalar>::power_of_ten(-1), Residue::Five);
    assert_eq!(<Residue as Scalar>::parse("10"), Some(Residue::Three));
    assert_eq!(<Residue as Scalar>::parse("ten"), None);
    assert_eq!(Residue::Six.text(), "6");
}

#[test]
fn every_residue_but_zero_has_an_inverse() {
    for n in 1..7 {
        let r = Residue::of(n);
        assert_eq!(r.times(r.inverted()), Residue::One);
        assert_eq!(Residue::One.over(r).times(r), Residue::One);
    }
}

// Expressions

#[test]
fn simplified_sums_keep_their_value() {
    for x in 0..7 {
        for y in 0..7 {
            let values = assignment(&[("x", x), ("y", y)]);
            let a = symbol("x") + symbol("y") + symbol("x");
            let b = Expression::Constant(Residue::Three) - symbol("y");
            let sum = a.clone() + b.clone();
            assert_eq!(
                number(&sum, &values),
                (number(&a, &values) + number(&b, &values)) % 7
            );
            assert_eq!(number(&sum, &values), (2 * x + 3) % 7);
        }
    }
}

#[test]
fn simplified_products_keep_their_value() {
    for x in 1..7 {
        for y in 1..7 {
            let values = assignment(&[("x", x), ("y", y)]);
            let a = symbol("x") * symbol("y").reciprocal();
            let b = symbol("y") * symbol("y") * Expression::Constant(Residue::Two);
            let product = a.clone() * b.clone();
            assert_eq!(
                number(&product, &values),
                number(&a, &values) * number(&b, &values) % 7
            );
            assert_eq!(number(&product, &values), 2 * x * y % 7);
        }
    }
}

#[test]
fn negations_reciprocals_and_roots_keep_their_value() {
    let values = assignment(&[("x", 2)]);
    assert_eq!(number(&-symbol("x"), &values), 5);
    assert_eq!(number(&symbol("x").reciprocal(), &values), 4);
    assert_eq!(number(&symbol("x").sqrt(), &values), 3);
    assert_eq!(number(&(symbol("x") - symbol("x")), &values), 0);
}

#[test]
fn a_product_cancels_with_its_negation() {
    let term = Expression::Constant(Residue::Three) * symbol("x");
    assert_eq!(term.clone() + (-term), Expression::zero());
}

#[test]
fn zero_is_neutral() {
    let e = symbol("x") + symbol("y");
    assert_eq!(Expression::zero() + e.clone(), e);
    assert_eq!(e.clone() + Expression::zero(), e);
}

#[test]
fn a_sum_does_not_cancel_with_its_negation_term_by_term() {
    let sum = symbol("x") + symbol("y");
    assert_ne!(sum.clone() + (-sum), Expression::zero());
}

#[test]
fn the_text_of_an_expression_denotes_its_value() {
    let values = assignment(&[("x", 2), ("y", 3), ("z", 4)]);
    // 2 * (3 + 4) / 3 is 0 modulo seven, as is 7 / 3.
    let product = symbol("x") * (symbol("y") + symbol("z")) * symbol("y").reciprocal();
    assert_eq!(product.to_text(), "x * (y + z) * 1 / y");
    assert_eq!(number(&product, &values), 0);
    // 1 / (2 * 4) is 1, and the root of 2 is 3.
    let quotient = (symbol("x") * symbol("z")).reciprocal();
    assert_eq!(quotient.to_text(), "1 / (x * z)");
    assert_eq!(number(&quotient, &values), 1);
    let sum = Expression::Constant(Residue::Five) + symbol("y") * symbol("x").sqrt();
    assert_eq!(sum.to_text(), "5 + y * sqrt(x)");
    assert_eq!(number(&sum, &values), 0);
}

// Linear systems

#[test]
fn the_solution_of_a_linear_system_solves_it() {
    let m = vec![
        vec![Residue::of(2), Residue::of(3)],
        vec![Residue::of(1), Residue::of(4)],
    ];
    let rhs = vec![vec![Residue::of(4)], vec![Residue::of(6)]];
    let x = solve_rows(&m, &rhs, 1, Residue::Zero).unwrap();
    for (row, right) in m.iter().zip(rhs.iter()) {
        let left = row[0].times(x[0][0]).plus(row[1].times(x[1][0]));
        assert_eq!(left, right[0]);
    }
}

#[test]
fn a_singular_linear_system_is_reported_by_its_column() {
    let m = vec![
        vec![Residue::of(1), Residue::of(2)],
        vec![Residue::of(3), Residue::of(6)],
    ];
    let rhs = vec![vec![Residue::of(1)], vec![Residue::of(1)]];
    assert_eq!(solve_rows(&m, &rhs, 1, Residue::Zero), Err(1));
}

#[test]
fn the_explicit_form_of_an_rc_circuit_is_exact() {
    // dV(2)/dt = -1/(RC) V(2) + 1/(RC) V1 with RC = 6 and 1/6 = 6 modulo seven.
    let system = build("V1 1 0 1\nR1 1 2 R\nC1 2 0 C");
    let values = assignment(&[("R", 2), ("C", 3)]);
    let space = system
        .evaluate(&values)
        .unwrap()
        .to_state_space(Residue::Zero)
        .unwrap();
    assert_eq!(space.states, ["V(2)"]);
    assert_eq!(space.a[(0, 0)], Residue::of(1));
    assert_eq!(space.b[(0, 0)], Residue::of(6));
}

#[test]
fn the_symbolic_explicit_form_evaluates_to_the_numeric_one() {
    let system = build("V1 1 0 1\nR1 1 2 R\nL1 2 3 L\nC1 3 0 C\nR2 3 0 S");
    let values = assignment(&[("R", 2), ("L", 4), ("C", 3), ("S", 5)]);
    let symbolic = system.to_symbolic_state_space().unwrap();
    let numeric = system
        .evaluate(&values)
        .unwrap()
        .to_state_space(Residue::Zero)
        .unwrap();
    assert_eq!(symbolic.states, numeric.states);
    assert_eq!(symbolic.inputs, numeric.inputs);
    assert_eq!(symbolic.mna_state_indices, numeric.mna_state_indices);
    for i in 0..2 {
        for j in 0..2 {
            assert_eq!(
                symbolic.a[(i, j)].evaluate(&values).unwrap(),
                numeric.a[(i, j)]
            );
        }
        assert_eq!(
            symbolic.b[(i, 0)].evaluate(&values).unwrap(),
            numeric.b[(i, 0)]
        );
    }
}

// Operating points

#[test]
fn an_operating_point_satisfies_the_equations_away_from_what_is_held() {
    let system = build("V1 a 0 3\nR1 a b 2\nC1 b 0 1 ic=1\nR2 b 0 3");
    let values = assignment(&[]);
    let x = system
        .initial_operating_point(&values, Residue::Zero)
        .unwrap()
        .unwrap();
    assert_eq!(system.unknowns, ["V(a)", "V(b)", "I(V1)"]);
    assert_eq!(x, [Residue::of(3), Residue::of(1), Residue::of(6)]);
    let numeric = system.evaluate(&values).unwrap();
    let row = |i: usize| {
        let mut total = Residue::Zero;
        for j in 0..x.len() {
            total = total.plus(numeric.a[(i, j)].times(x[j]));
        }
        total
    };
    assert_eq!(row(0), numeric.u[0]);
    assert_eq!(row(2), numeric.u[2]);
    // The capacitor carries what is left at its node.
    assert_ne!(row(1), numeric.u[1]);
}

// Transfer functions

#[test]
fn the_recursion_gives_the_characteristic_polynomial_and_the_adjugate() {
    let names = ["p", "q", "r", "t"];
    let entries: Vec<Expression<Residue>> = names.iter().map(|n| symbol(n)).collect();
    let a = Matrix::from_vec(2, 2, entries).unwrap();
    let (coefficients, terms) = faddeev_leverrier(&a);
    let values = assignment(&[("p", 2), ("q", 3), ("r", 5), ("t", 6)]);
    let polynomial: Vec<usize> = coefficients.iter().map(|c| number(c, &values)).collect();
    // s^2 - (2 + 6)*s + (2*6 - 3*5)
    assert_eq!(polynomial, [1, 6, 4]);
    let flat = |m: &Matrix<Expression<Residue>>| -> Vec<usize> {
        m.iter().iter().map(|e| number(e, &values)).collect()
    };
    assert_eq!(flat(&terms[0]), [1, 0, 0, 1]);
    // [[s - 6, 3], [5, s - 2]]
    assert_eq!(flat(&terms[1]), [1, 3, 5, 5]);
}

#[test]
fn a_transfer_function_solves_the_equation_of_its_states() {
    let system = build("V1 1 0 1\nR1 1 2 R\nL1 2 3 L\nC1 3 0 C\nR2 3 0 S");
    let values = assignment(&[("R", 2), ("L", 4), ("C", 3), ("S", 5)]);
    let space = system.to_symbolic_state_space().unwrap();
    let n = space.states.len();
    let horner = |list: &Vec<Expression<Residue>>, s: Residue| -> Residue {
        list.iter().fold(Residue::Zero, |before, c| {
            before.times(s).plus(c.evaluate(&values).unwrap())
        })
    };
    for point in 0..7 {
        let s = Residue::of(point);
        let functions: Vec<_> = (0..n).map(|i| space.transfer_function(i, 0).unwrap()).collect();
        let x: Vec<Residue> = functions.iter().map(|f| horner(&f.numerator, s)).collect();
        let d = horner(&functions[0].denominator, s);
        for i in 0..n {
            let mut right = d.times(space.b[(i, 0)].evaluate(&values).unwrap());
            for j in 0..n {
                right = right.plus(space.a[(i, j)].evaluate(&values).unwrap().times(x[j]));
            }
            assert_eq!(s.times(x[i]), right);
        }
    }
}

// Averaging

#[test]
fn an_average_is_the_weighted_sum_of_its_phases() {
    let on = build("V1 1 0 1\nR1 1 0 2\nC1 1 0 1");
    let off = build("V1 1 0 1\nR1 1 0 3\nC1 1 0 2");
    let (d, rest) = (symbol("d"), symbol("e"));
    let mean = average(&[
        WeightedPhase { system: &on, weight: &d },
        WeightedPhase { system: &off, weight: &rest },
    ])
    .unwrap();
    let values = assignment(&[("d", 3), ("e", 5)]);
    for i in 0..mean.order() {
        for j in 0..mean.order() {
            let a = 3 * number(&on.a[(i, j)], &values) + 5 * number(&off.a[(i, j)], &values);
            let k = 3 * number(&on.k[(i, j)], &values) + 5 * number(&off.k[(i, j)], &values);
            assert_eq!(number(&mean.a[(i, j)], &values), a % 7);
            assert_eq!(number(&mean.k[(i, j)], &values), k % 7);
        }
        let b = 3 * number(&on.b[(i, 0)], &values) + 5 * number(&off.b[(i, 0)], &values);
        assert_eq!(number(&mean.b[(i, 0)], &values), b % 7);
        let u = 3 * number(&on.u[i], &values) + 5 * number(&off.u[i], &values);
        assert_eq!(number(&mean.u[i], &values), u % 7);
    }
}

// Circuits

#[test]
fn unknowns_are_nodes_then_branches_and_ground_is_none_of_them() {
    let system = build("R1 A 0 1\nV1 b GND 1\nL1 a B 2\nR2 c gnd 3");
    assert_eq!(system.unknowns, ["V(A)", "V(b)", "V(c)", "I(V1)", "I(L1)"]);
}

#[test]
fn a_controlling_source_is_found_whatever_its_letter_case() {
    let first = build("F1 2 0 Vsense 2\nR1 2 0 1\nVsense 1 0 1");
    let second = build("F1 2 0 VSENSE 2\nR1 2 0 1\nVsense 1 0 1");
    assert_eq!(first.a.as_slice(), second.a.as_slice());
}

#[test]
fn the_source_vector_is_the_input_matrix_times_the_input_values() {
    let system = build("V1 1 0 E\nI1 0 1 J\nR1 1 0 R");
    assert_eq!(system.inputs, ["V1", "I1"]);
    for row in 0..system.order() {
        let product = system.b[(row, 0)].clone() * system.input_values[0].clone()
            + system.b[(row, 1)].clone() * system.input_values[1].clone();
        assert_eq!(system.u[row], product);
    }
}

#[test]
fn phases_have_the_same_unknowns_and_inputs() {
    let netlist = "V1 in 0 E\nS1 in sw ctrl 0 ideal\nL1 sw out L\nC1 out 0 C\nR1 out 0 R";
    let phase = |state: SwitchState| -> MnaSystem<Residue> {
        let mut options = BuildOptions::default();
        options.set_switch("S1", state);
        MnaBuilder::with_options(Dialect::Ngspice, options)
            .build_fragment(netlist)
            .unwrap()
    };
    let on = phase(SwitchState::On);
    let off = phase(SwitchState::Off);
    assert_eq!(on.unknowns, off.unknowns);
    assert_eq!(on.inputs, off.inputs);
    assert_eq!(on.k.as_slice(), off.k.as_slice());
    assert_eq!(on.b.as_slice(), off.b.as_slice());
    assert_eq!(on.u, off.u);
    assert_eq!(on.input_values, off.input_values);
    assert_ne!(on.a.as_slice(), off.a.as_slice());
}

#[test]
fn a_skipped_device_leaves_a_warning() {
    let options: BuildOptions<Residue> = BuildOptions {
        unsupported_elements: UnsupportedElementPolicy::IgnoreWithWarning,
        ..BuildOptions::default()
    };
    let system = MnaBuilder::with_options(Dialect::Ngspice, options)
        .build_fragment("V1 1 0 1\nR1 1 0 2\nQ1 1 0 2 model")
        .unwrap();
    assert_eq!(
        system.warnings,
        ["element 'Q1' (device Q) has no linear MNA stamp"]
    );
}

#[test]
fn the_storage_matrix_is_symmetric() {
    let system = build("L1 1 0 La\nL2 2 0 Lb\nK1 L1 L2 k\nC1 1 2 C\nR1 1 2 R");
    let n = system.order();
    for i in 0..n {
        for j in 0..n {
            assert_eq!(system.k[(i, j)], system.k[(j, i)]);
        }
    }
}

#[test]
fn the_memoryless_matrix_is_symmetric_without_controlled_sources() {
    let system = build("V1 1 0 E\nR1 1 2 R\nL1 2 3 L\nD1 3 0 d\nI1 3 0 J");
    let n = system.order();
    for i in 0..n {
        for j in 0..n {
            assert_eq!(system.a[(i, j)], system.a[(j, i)]);
        }
    }
}

#[test]
fn a_controlled_source_breaks_the_symmetry() {
    let system = build("G1 1 0 2 0 g\nR1 1 0 R\nR2 2 0 R");
    assert_ne!(system.a[(0, 1)], system.a[(1, 0)]);
}

// Hierarchy

fn device(name: &str, nodes: &[&str], subckt: Option<&str>) -> Statement {
    Statement::ElementInstance(ElementInstance {
        device_letter: name.chars().next().unwrap(),
        name: name.to_string(),
        nodes: nodes.iter().map(|s| s.to_string()).collect(),
        raw_params: vec!["1".to_string()],
        subckt_name: subckt.map(|s| s.to_string()),
        span: 1..2,
    })
}

fn hierarchy() -> Vec<Statement> {
    vec![
        Statement::Subckt(Subckt {
            name: "cell".to_string(),
            nodes: vec!["p".to_string()],
        }),
        device("R1", &["p", "m"], None),
        device("C1", &["m", "0"], None),
        Statement::Ends(Some("cell".to_string()), 1..2),
        device("X1", &["a"], Some("cell")),
        device("X2", &["a"], Some("cell")),
    ]
}

#[test]
fn a_flattened_netlist_holds_devices_only() {
    let flat = flatten(&hierarchy()).unwrap();
    assert_eq!(flat.len(), 4);
    for statement in &flat {
        match statement {
            Statement::ElementInstance(element) => assert!(element.subckt_name.is_none()),
            other => panic!("unexpected {other:?}"),
        }
    }
}

#[test]
fn flattening_twice_is_flattening_once() {
    let once = flatten(&hierarchy()).unwrap();
    let twice = flatten(&once).unwrap();
    assert_eq!(once, twice);
}

#[test]
fn a_flat_netlist_is_kept_as_it_is() {
    let list = vec![device("R1", &["a", "b"], None), device("C1", &["b", "0"], None)];
    assert_eq!(flatten(&list).unwrap(), list);
}

#[test]
fn private_names_of_two_instances_differ() {
    let flat = flatten(&hierarchy()).unwrap();
    let mut names: Vec<String> = Vec::new();
    for statement in &flat {
        if let Statement::ElementInstance(element) = statement {
            assert!(!names.contains(&element.name));
            names.push(element.name.clone());
        }
    }
    assert_eq!(names, ["X1.R1", "X1.C1", "X2.R1", "X2.C1"]);
}

// Points

#[test]
fn points_are_sorted_and_equal_ones_keep_their_order() {
    let source = "T kind=pwc points=[[3,1],[1,2],[3,4],[0,5],[1,6]]\n";
    let system = build_system::<Residue>(source, Dialect::Ngspice).unwrap();
    let numbers = |points: &Vec<(Residue, Residue)>| -> Vec<(usize, usize)> {
        points
            .iter()
            .map(|(x, y)| (x.to_number(), y.to_number()))
            .collect()
    };
    match &system.blocks[0].kind {
        BlockKind::Pwc { points, repeat } => {
            assert_eq!(numbers(points), [(0, 5), (1, 2), (1, 6), (3, 1), (3, 4)]);
            assert!(!repeat);
        }
        other => panic!("unexpected {other:?}"),
    }
}
