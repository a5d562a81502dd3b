use general_mna::symbolic::solve;
use general_mna::{Expression, Matrix, NameMap, Scalar};

#[derive(Clone, Copy, Debug, PartialEq)]
struct F64(f64);

impl Scalar for F64 {
    fn zero() -> Self {
        F64(0.0)
    }
    fn one() -> Self {
        F64(1.0)
    }
    fn nan() -> Self {
        F64(f64::NAN)
    }
    fn never() -> Self {
        F64(f64::MAX / 4.0)
    }
    fn from_count(n: usize) -> Self {
        F64(n as f64)
    }
    fn power_of_ten(exponent: i8) -> Self {
        F64(format!("1e{exponent}").parse().unwrap())
    }
    fn negated(self) -> Self {
        F64(-self.0)
    }
    fn plus(self, rhs: Self) -> Self {
        F64(self.0 + rhs.0)
    }
    fn minus(self, rhs: Self) -> Self {
        F64(self.0 - rhs.0)
    }
    fn times(self, rhs: Self) -> Self {
        F64(self.0 * rhs.0)
    }
    fn over(self, rhs: Self) -> Self {
        F64(self.0 / rhs.0)
    }
    fn modulo(self, rhs: Self) -> Self {
        F64(self.0 % rhs.0)
    }
    fn sqrt(self) -> Self {
        F64(self.0.sqrt())
    }
    fn abs(self) -> Self {
        F64(self.0.abs())
    }
    fn max(self, rhs: Self) -> Self {
        F64(self.0.max(rhs.0))
    }
    fn sin(self) -> Self {
        F64(self.0.sin())
    }
    fn exp(self) -> Self {
        F64(self.0.exp())
    }
    fn to_radians(self) -> Self {
        F64(self.0.to_radians())
    }
    fn full_turn() -> Self {
        F64(2.0 * std::f64::consts::PI)
    }
    fn epsilon() -> Self {
        F64(f64::EPSILON)
    }
    fn same_as(self, rhs: Self) -> bool {
        self.0 == rhs.0
    }
    fn less_than(self, rhs: Self) -> bool {
        self.0 < rhs.0
    }
    fn ranks_before(self, rhs: Self) -> bool {
        self.0.total_cmp(&rhs.0).is_lt()
    }
    fn is_nan(self) -> bool {
        self.0.is_nan()
    }
    fn is_finite(self) -> bool {
        self.0.is_finite()
    }
    fn parse(text: &str) -> Option<Self> {
        text.parse().ok().map(F64)
    }
    fn text(self) -> String {
        format!("{}", self.0)
    }
    fn precise_text(self) -> String {
        format!("{:?}", self.0)
    }
}

fn values(entries: &[(&str, f64)]) -> NameMap<F64> {
    let mut map = NameMap::new();
    for (name, value) in entries {
        map.insert(name.to_string(), F64(*value));
    }
    map
}

fn symbol(name: &str) -> Expression<F64> {
    Expression::symbol(name)
}

#[test]
fn parses_spice_suffixes() {
    assert_eq!(
        Expression::parse_scalar("1meg"),
        Ok(Expression::Constant(F64(1e6)))
    );
    assert_eq!(
        Expression::parse_scalar("2k"),
        Ok(Expression::Constant(F64(2e3)))
    );
    assert_eq!(
        Expression::parse_scalar("47u"),
        Ok(Expression::Constant(F64(47e-6)))
    );
    assert_eq!(
        Expression::parse_scalar("10M"),
        Ok(Expression::Constant(F64(10e-3)))
    );
}

#[test]
fn add_cancels_a_term_with_its_negation() {
    let x = symbol("x");
    let sum = x.clone() + (-x);
    assert_eq!(sum, Expression::<F64>::zero());
}

#[test]
fn add_combines_matching_bases_into_a_single_scaled_term() {
    let x = symbol("x");
    let sum = x.clone() + x.clone() + x;
    assert_eq!(
        sum,
        Expression::Multiply(vec![Expression::Constant(F64(3.0)), symbol("x")])
    );
}

#[test]
fn mul_cancels_a_factor_with_its_reciprocal() {
    let x = symbol("x");
    let product = x.clone() * x.reciprocal();
    assert_eq!(product, Expression::<F64>::one());
}

#[test]
fn reciprocal_of_reciprocal_collapses() {
    let x = symbol("x");
    assert_eq!(x.clone().reciprocal().reciprocal(), x);
}

#[test]
fn mul_cancels_a_factor_against_a_reciprocal_of_a_compound_product() {
    // x * (1/(-1 * x)) = 1 / -1 = -1, since the `x` inside the
    // reciprocal's own product also nets against the plain `x` factor.
    // This is the exact shape Gaussian elimination produces when it
    // divides by a pivot and later multiplies back a related factor.
    let x = symbol("x");
    let denominator = Expression::Multiply(vec![Expression::Constant(F64(-1.0)), x.clone()]);
    let product = x * denominator.reciprocal();
    assert_eq!(product, Expression::Constant(F64(-1.0)));
}

#[test]
fn mul_groups_separate_reciprocals_into_one() {
    // 1/R * 1/C -> 1 / (R * C), not two separate Reciprocal factors.
    let r = symbol("R");
    let c = symbol("C");
    let product = r.clone().reciprocal() * c.clone().reciprocal();
    assert_eq!(
        product,
        Expression::Reciprocal(Box::new(Expression::Multiply(vec![r, c])))
    );
    assert_eq!(product.to_text(), "1 / (R * C)");
}

#[test]
fn solve_matches_hand_derived_answer_for_voltage_divider_block() {
    // a_aa = [[1/Rs, -1/Rs, 1], [-1/Rs, 1/Rs, 0], [1, 0, 0]]
    // rhs column = [0, 1, 0]^T
    // Hand solution: x1=0, x2=Rs, x3=1.
    //
    // Regression test: structural (exact-zero) pivoting alone can pick
    // row 1 at the second pivot column, whose entry is only zero after
    // the first elimination step combines two sub-expressions that look
    // different syntactically (e.g. `1/Rs` and a derived product that is
    // also `1/Rs` once simplified). Without `Expression`'s like-term
    // combination this silently produces a wrong (but finite) answer
    // instead of an error.
    let rs = symbol("Rs");
    let g = rs.reciprocal();

    let a_aa = Matrix::from_vec(
        3,
        3,
        vec![
            g.clone(),
            -g.clone(),
            Expression::one(),
            -g.clone(),
            g.clone(),
            Expression::zero(),
            Expression::one(),
            Expression::zero(),
            Expression::zero(),
        ],
    )
    .unwrap();
    let rhs = Matrix::from_vec(
        3,
        1,
        vec![Expression::zero(), Expression::one(), Expression::zero()],
    )
    .unwrap();

    let solved = solve(&a_aa, &rhs).unwrap();
    let values = values(&[("Rs", 2.5)]);
    let x1 = solved[(0, 0)].evaluate(&values).unwrap().0;
    let x2 = solved[(1, 0)].evaluate(&values).unwrap().0;
    let x3 = solved[(2, 0)].evaluate(&values).unwrap().0;
    assert!((x1 - 0.0).abs() < 1e-9, "x1={x1}");
    assert!((x2 - 2.5).abs() < 1e-9, "x2={x2}");
    assert!((x3 - 1.0).abs() < 1e-9, "x3={x3}");
}
