use n3_core::algebra::{eval_once, Expr, Sym};
use n3_core::error::GraphError;
use n3_core::graphs::shape::{u64_dec, FitState, ShapeState};
use n3_core::{DimKey, GraphId, Value, ValueType, Variable};

/// Exact arithmetic: (2 + 3) * 4 equals 20 after simplification.
#[test]
fn algebra_arithmetic() {
    let two = Expr::from_u64(2);
    let three = Expr::from_u64(3);
    let four = Expr::from_u64(4);
    let five = two.add_checked(&three).unwrap();
    let twenty = five.mul_checked(&four).unwrap();
    assert_eq!(twenty.eq_checked(&Expr::from_u64(20)), Some(true));
    assert_eq!(twenty.eq_checked(&Expr::from_u64(21)), Some(false));
}

/// Division compares by cross-multiplication: 10 / 4 equals 5 / 2.
#[test]
fn algebra_quotients() {
    let a = Expr::from_u64(10).div_checked(&Expr::from_u64(4)).unwrap();
    let b = Expr::from_u64(5).div_checked(&Expr::from_u64(2)).unwrap();
    assert_eq!(a.eq_checked(&b), Some(true));
    let c = Expr::from_u64(3).div_checked(&Expr::from_u64(2)).unwrap();
    assert_eq!(a.eq_checked(&c), Some(false));
}

/// One substitution pass resolves a bound symbol: x * 2 + 1 at x = 12 is 25.
#[test]
fn algebra_substitution() {
    let x = Sym::new(false, "X".to_owned());
    let expr = Expr::symbol(x.clone())
        .mul_checked(&Expr::from_u64(2))
        .unwrap()
        .add_checked(&Expr::from_u64(1))
        .unwrap();
    let env = vec![(x, Expr::from_u64(12))];
    let evaluated = eval_once(&env, &expr).unwrap();
    assert_eq!(evaluated.eq_checked(&Expr::from_u64(25)), Some(true));

    // a second pass leaves the fully resolved value unchanged
    let again = eval_once(&env, &evaluated).unwrap();
    assert_eq!(again.eq_checked(&evaluated), Some(true));
}

/// An unbound symbol survives substitution untouched.
#[test]
fn algebra_unbound_symbol() {
    let x = Sym::new(false, "X".to_owned());
    let y = Sym::new(false, "Y".to_owned());
    let expr = Expr::symbol(x);
    let env = vec![(y, Expr::from_u64(7))];
    let evaluated = eval_once(&env, &expr).unwrap();
    assert_eq!(evaluated.eq_checked(&expr), Some(true));
    assert_eq!(evaluated.eq_checked(&Expr::from_u64(7)), Some(false));
}

/// The algebra symbol of a key depends on its kind and name alone: the
/// input flag of a placeholder does not enter, and the name is camel-cased
/// by the outside case conversion.
#[test]
fn symbol_determinism() {
    let a = DimKey::Placeholder("number of channels".to_owned(), true).sym();
    let b = DimKey::Placeholder("number of channels".to_owned(), false).sym();
    assert_eq!(a, b);
    assert_eq!(a.is_var, false);
    assert_eq!(a.name, "NumberOfChannels");

    let v = DimKey::Variable("number of channels".to_owned()).sym();
    assert_eq!(v.is_var, true);
    assert_eq!(v.name, "NumberOfChannels");
    assert_ne!(a, v);
}

/// Decimal printing of node numbers.
#[test]
fn decimal_digits() {
    assert_eq!(u64_dec(0), "0");
    assert_eq!(u64_dec(7), "7");
    assert_eq!(u64_dec(1234), "1234");
    assert_eq!(u64_dec(u64::MAX), "18446744073709551615");
}

/// Successor validation of graph ids: one more repeat, the next pass, or
/// the next node.
#[test]
fn id_validate() {
    let base = GraphId { node: 1, pass: 0, repeat: 0 };
    assert!(GraphId { node: 1, pass: 0, repeat: 1 }.validate(&base));
    assert!(GraphId { node: 1, pass: 1, repeat: 0 }.validate(&base));
    assert!(GraphId { node: 2, pass: 0, repeat: 0 }.validate(&base));
    assert!(!GraphId { node: 3, pass: 0, repeat: 0 }.validate(&base));
    assert!(!GraphId { node: 1, pass: 2, repeat: 0 }.validate(&base));
    assert!(!GraphId { node: 2, pass: 1, repeat: 0 }.validate(&base));
    assert!(!base.validate(&base));
    assert!(GraphId::new_first().validate(&GraphId::new_input()));
    assert!(GraphId::new_input().is_input());
    assert!(GraphId::new_first().is_first());
}

/// The allowance for coining fresh placeholders per mode.
#[test]
fn shape_state_allowance() {
    assert_eq!(ShapeState::Fixed(FitState::Weak).is_new_var_available(), false);
    assert_eq!(ShapeState::Fixed(FitState::Full).is_new_var_available(), true);
    assert_eq!(ShapeState::Required(FitState::Weak).is_new_var_available(), true);
    assert_eq!(ShapeState::Required(FitState::Full).is_new_var_available(), false);
    assert_eq!(ShapeState::Transform.is_new_var_available(), true);
}

/// Variable updates: equal or still-required types succeed, others fail.
#[test]
fn variable_updates() {
    let mut v = Variable {
        description: "kernel size".to_owned(),
        ty: ValueType::Required,
        value: None,
    };
    assert!(v.update(Value::UInt(5), ValueType::UInt).is_ok());
    assert_eq!(v.ty, ValueType::UInt);
    assert_eq!(v.value, Some(Value::UInt(5)));
    assert_eq!(v.unwrap_uint(), Some(5));

    let err = v.update(Value::Bool(true), ValueType::Bool).unwrap_err();
    assert!(matches!(err, GraphError::DifferentVariableType { .. }));
    assert_eq!(v.value, Some(Value::UInt(5)));

    assert!(v.expect_or_default(ValueType::UInt).is_ok());
    assert!(v.expect_or_default(ValueType::Bool).is_err());
}

/// Type inference of literals.
#[test]
fn value_types() {
    assert_eq!(ValueType::new(Some(&Value::Bool(true)), false), ValueType::Bool);
    assert_eq!(ValueType::new(Some(&Value::Int(-1)), false), ValueType::Int);
    assert_eq!(ValueType::new(Some(&Value::UInt(1)), false), ValueType::UInt);
    assert_eq!(ValueType::new(Some(&Value::Real(0)), false), ValueType::Real);
    assert_eq!(ValueType::new(Some(&Value::Model("M".to_owned())), false), ValueType::Model);
    assert_eq!(ValueType::new(None, false), ValueType::Required);
    assert_eq!(ValueType::new(None, true), ValueType::Model);
}

/// Powers substitute factor by factor: x cubed at x = 2 is 8.
#[test]
fn algebra_powers() {
    let x = Sym::new(false, "X".to_owned());
    let cubed = Expr::symbol_pow(x.clone(), 3);
    let env = vec![(x, Expr::from_u64(2))];
    let evaluated = eval_once(&env, &cubed).unwrap();
    assert_eq!(evaluated.eq_checked(&Expr::from_u64(8)), Some(true));
}
