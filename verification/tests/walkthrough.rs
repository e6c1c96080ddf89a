use truthtable::check_validity::{check_validity, SyntaxStatus};
use truthtable::expression::{BinOpType, Expr};
use truthtable::parse::parse;
use truthtable::var_values::VarValues;

fn rows(text: &str) -> (Vec<String>, Vec<(Vec<bool>, bool)>) {
    assert_eq!(check_validity(text), SyntaxStatus::Valid);
    let (expr, mut vars) = parse(text);
    let names = vars.names();
    let mut rows = vec![];
    loop {
        rows.push((vars.values(), expr.evaluate(&vars)));
        if !vars.advance() {
            break;
        }
    }
    (names, rows)
}

#[test]
fn single_variable() {
    let (names, rows) = rows("a");
    assert_eq!(names, vec!["a".to_string()]);
    assert_eq!(rows, vec![(vec![true], true), (vec![false], false)]);
}

#[test]
fn conjunction_rows_in_order() {
    let (names, rows) = rows("a & b");
    assert_eq!(names, vec!["a".to_string(), "b".to_string()]);
    assert_eq!(
        rows,
        vec![
            (vec![true, true], true),
            (vec![true, false], false),
            (vec![false, true], false),
            (vec![false, false], false),
        ]
    );
}

#[test]
fn self_implication_is_a_tautology() {
    let (_, rows) = rows("a => a");
    assert_eq!(rows.len(), 2);
    assert!(rows.iter().all(|row| row.1));
}

#[test]
fn conjunction_with_negation_is_a_contradiction() {
    let (_, rows) = rows("a & !a");
    assert_eq!(rows.len(), 2);
    assert!(rows.iter().all(|row| !row.1));
}

#[test]
fn missing_closing_parenthesis() {
    assert_eq!(
        check_validity("(a"),
        SyntaxStatus::ExpectedAtEnd { expected: "')'".to_string() }
    );
}

#[test]
fn missing_operand_at_end() {
    assert_eq!(
        check_validity("a &"),
        SyntaxStatus::ExpectedAtEnd { expected: "identifier or '!'".to_string() }
    );
}

#[test]
fn unexpected_character() {
    assert_eq!(
        check_validity("a $ b"),
        SyntaxStatus::UnexpectedChar { index: 2, ch: '$' }
    );
}

#[test]
fn blank_texts_are_empty() {
    assert_eq!(check_validity(""), SyntaxStatus::Empty);
    assert_eq!(check_validity(" "), SyntaxStatus::Empty);
    assert_eq!(check_validity("     "), SyntaxStatus::Empty);
}

#[test]
fn parse_builds_the_tree() {
    let (expr, _) = parse("a & b | c");
    match expr {
        Expr::BinOp(BinOpType::Or, left, right) => {
            assert!(matches!(*right, Expr::Var(ref name) if name == "c"));
            match *left {
                Expr::BinOp(BinOpType::And, l, r) => {
                    assert!(matches!(*l, Expr::Var(ref name) if name == "a"));
                    assert!(matches!(*r, Expr::Var(ref name) if name == "b"));
                }
                other => panic!("unexpected {:?}", other),
            }
        }
        other => panic!("unexpected {:?}", other),
    }
}

#[test]
fn new_assignment_is_all_true() {
    let vars = VarValues::new(&["p".to_string(), "q".to_string(), "p".to_string()]);
    assert_eq!(vars.names(), vec!["p".to_string(), "q".to_string()]);
    assert_eq!(vars.values(), vec![true, true]);
    assert!(vars.get_value("q"));
}
