use truthtable::expression::{self, BinOpType, Expr};
use truthtable::var_values::VarValues;

fn var(name: &str) -> Expr {
    Expr::Var(name.to_string())
}

fn two(a: bool, b: bool) -> VarValues {
    let mut vars = VarValues::new(&["a".to_string(), "b".to_string()]);
    while vars.values() != vec![a, b] {
        vars.advance();
    }
    vars
}

#[test]
fn connectives_on_truth_values() {
    assert_eq!(
        [expression::and(true, true), expression::and(true, false), expression::and(false, true), expression::and(false, false)],
        [true, false, false, false]
    );
    assert_eq!(
        [expression::or(true, true), expression::or(true, false), expression::or(false, true), expression::or(false, false)],
        [true, true, true, false]
    );
    assert_eq!(
        [expression::implies(true, true), expression::implies(true, false), expression::implies(false, true), expression::implies(false, false)],
        [true, false, true, true]
    );
    assert_eq!(
        [expression::iff(true, true), expression::iff(true, false), expression::iff(false, true), expression::iff(false, false)],
        [true, false, false, true]
    );
    assert_eq!(
        [expression::not(true, true), expression::not(true, false), expression::not(false, true), expression::not(false, false)],
        [false, true, false, true]
    );
}

#[test]
fn a_variable_has_its_value() {
    assert!(var("a").evaluate(&two(true, false)));
    assert!(!var("b").evaluate(&two(true, false)));
    assert!(!var("a").evaluate(&two(false, true)));
    assert!(var("b").evaluate(&two(false, true)));
}

#[test]
fn a_negation_flips() {
    let e = Expr::Not(Box::new(var("a")));
    assert!(!e.evaluate(&two(true, true)));
    assert!(e.evaluate(&two(false, true)));
}

#[test]
fn each_connective_by_its_table() {
    let table = [
        (BinOpType::And, [true, false, false, false]),
        (BinOpType::Or, [true, true, true, false]),
        (BinOpType::Implies, [true, false, true, true]),
        (BinOpType::Iff, [true, false, false, true]),
    ];
    for (kind, expected) in table {
        let e = Expr::BinOp(kind, Box::new(var("a")), Box::new(var("b")));
        let got = [
            e.evaluate(&two(true, true)),
            e.evaluate(&two(true, false)),
            e.evaluate(&two(false, true)),
            e.evaluate(&two(false, false)),
        ];
        assert_eq!(got, expected);
    }
}

#[test]
fn nested_formulas() {
    let e = Expr::BinOp(
        BinOpType::Implies,
        Box::new(Expr::BinOp(BinOpType::And, Box::new(var("a")), Box::new(var("b")))),
        Box::new(Expr::Not(Box::new(var("a")))),
    );
    assert!(!e.evaluate(&two(true, true)));
    assert!(e.evaluate(&two(true, false)));
    assert!(e.evaluate(&two(false, true)));
    assert!(e.evaluate(&two(false, false)));
}
