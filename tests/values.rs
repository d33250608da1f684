use evaluator::expr::Expr;
use evaluator::scan::{ParseError, Scanner};

/// Floating-point arithmetic on the shape that the library gives: the
/// exponent is rounded and applied by repeated multiplication.
fn apply(x: f64, op: char, y: f64) -> Result<f64, ParseError> {
    match op {
        '+' => Ok(x + y),
        '-' => Ok(x - y),
        '*' => Ok(x * y),
        '/' => Ok(x / y),
        '%' => Ok(x % y),
        '^' => {
            if !y.is_finite() {
                return Err(ParseError::InvalidExponent);
            }
            let exp = y.round() as i32;
            let mut total = x;
            for _ in 1..exp {
                total *= x;
            }
            Ok(total)
        }
        _ => Err(ParseError::InvalidOperator),
    }
}

fn value_of(e: &Expr, nums: &[f64]) -> Result<f64, ParseError> {
    match e {
        Expr::Operand(k) => Ok(nums[*k]),
        Expr::Apply(op, l, r) => apply(value_of(l, nums)?, *op, value_of(r, nums)?),
    }
}

fn value(s: &str) -> Result<f64, ParseError> {
    let mut sc = Scanner::start(s)?;
    while let Some(inner) = sc.advance() {
        let inner: String = inner.iter().collect();
        let v = value(&inner)?;
        sc.resume(v.to_string().chars().collect());
    }
    let r = sc.finish()?;
    let mut nums = Vec::new();
    for lit in &r.literals {
        let t: String = lit.iter().collect();
        nums.push(t.parse::<f64>().map_err(|_| ParseError::MalformedNumber)?);
    }
    match &r.tree {
        None => Ok(0.0),
        Some(tree) => value_of(tree, &nums),
    }
}

#[test]
fn sample_scenarios() {
    assert_eq!(value("2^3+4*5"), Ok(28.0));
    assert_eq!(value("(2+3)^2"), Ok(25.0));
    assert_eq!(value("10%3"), Ok(1.0));
}

#[test]
fn sums_fold_left_to_right() {
    assert_eq!(value("5-3+1"), Ok(3.0));
    assert_eq!(value("10-2-3"), Ok(5.0));
}

#[test]
fn precedence_of_tiers() {
    assert_eq!(value("2+3*2^2"), Ok(14.0));
    assert_eq!(value("2*3-8/4"), Ok(4.0));
}

#[test]
fn groups_evaluate_first() {
    assert_eq!(value("(2+3)*4"), Ok(20.0));
    assert_eq!(value("((1+1))*((2+2))"), Ok(8.0));
    assert_eq!(value("2*(3+(4-1))"), Ok(12.0));
}

#[test]
fn negative_group_values_carry_over() {
    assert_eq!(value("(-5)*2"), Ok(-10.0));
    assert_eq!(value("3*-2"), Ok(-2.0));
}

#[test]
fn division_by_zero_gives_special_values() {
    assert_eq!(value("1/0"), Ok(f64::INFINITY));
    let nan = value("0/0").unwrap();
    assert!(nan.is_nan());
    assert!(nan != nan);
    assert!(value("1%0").unwrap().is_nan());
}

#[test]
fn exponent_conventions() {
    assert_eq!(value("5^1"), Ok(5.0));
    assert_eq!(value("5^0"), Ok(5.0));
    assert_eq!(value("2^10"), Ok(1024.0));
}

#[test]
fn errors_are_values() {
    assert_eq!(value("(1+2"), Err(ParseError::UnbalancedParenthesis));
    assert_eq!(value("1..2+1"), Err(ParseError::MalformedNumber));
    assert_eq!(value("(2^)"), Err(ParseError::InvalidExponent));
    assert_eq!(value("2^(1/0)"), Err(ParseError::InvalidExponent));
}

#[test]
fn empty_expression_is_zero() {
    assert_eq!(value(""), Ok(0.0));
}
