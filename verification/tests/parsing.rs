use truthtable::check_validity::{check_validity, SyntaxStatus};
use truthtable::expression::{BinOpType, Expr};
use truthtable::group::Parsing;
use truthtable::parse::{parse, to_expression};

fn var(name: &str) -> Expr {
    Expr::Var(name.to_string())
}

fn not(e: Expr) -> Expr {
    Expr::Not(Box::new(e))
}

fn bin(kind: BinOpType, l: Expr, r: Expr) -> Expr {
    Expr::BinOp(kind, Box::new(l), Box::new(r))
}

fn tree(text: &str) -> Expr {
    assert_eq!(check_validity(text), SyntaxStatus::Valid);
    parse(text).0
}

fn tok(s: &str) -> Parsing {
    Parsing::Token(s.to_string())
}

#[test]
fn a_token_is_a_variable() {
    assert_eq!(to_expression(&tok("abc")), var("abc"));
}

#[test]
fn a_list_of_one_is_its_group() {
    let g = Parsing::SubList(vec![Parsing::SubList(vec![tok("a")])]);
    assert_eq!(to_expression(&g), var("a"));
}

#[test]
fn a_list_of_two_is_a_negation() {
    let g = Parsing::SubList(vec![tok("!"), tok("a")]);
    assert_eq!(to_expression(&g), not(var("a")));
}

#[test]
fn a_list_of_three_is_a_connective() {
    for (spelling, kind) in [
        ("&", BinOpType::And),
        ("|", BinOpType::Or),
        ("=>", BinOpType::Implies),
        ("<=>", BinOpType::Iff),
    ] {
        let g = Parsing::SubList(vec![tok("a"), tok(spelling), tok("b")]);
        assert_eq!(to_expression(&g), bin(kind, var("a"), var("b")));
    }
}

#[test]
fn parses_a_variable() {
    assert_eq!(tree("a"), var("a"));
    assert_eq!(tree("  abc "), var("abc"));
    assert_eq!(tree("((a))"), var("a"));
}

#[test]
fn parses_each_connective() {
    assert_eq!(tree("a & b"), bin(BinOpType::And, var("a"), var("b")));
    assert_eq!(tree("a | b"), bin(BinOpType::Or, var("a"), var("b")));
    assert_eq!(tree("a => b"), bin(BinOpType::Implies, var("a"), var("b")));
    assert_eq!(tree("a <=> b"), bin(BinOpType::Iff, var("a"), var("b")));
    assert_eq!(tree("!a"), not(var("a")));
}

#[test]
fn connectives_group_from_the_left() {
    assert_eq!(
        tree("a & b & c"),
        bin(BinOpType::And, bin(BinOpType::And, var("a"), var("b")), var("c"))
    );
    assert_eq!(
        tree("a => b => c"),
        bin(BinOpType::Implies, bin(BinOpType::Implies, var("a"), var("b")), var("c"))
    );
}

#[test]
fn conjunction_binds_tighter_than_disjunction() {
    assert_eq!(
        tree("a | b & c"),
        bin(BinOpType::Or, var("a"), bin(BinOpType::And, var("b"), var("c")))
    );
    assert_eq!(
        tree("a & b | c"),
        bin(BinOpType::Or, bin(BinOpType::And, var("a"), var("b")), var("c"))
    );
}

#[test]
fn implication_binds_tighter_than_equivalence() {
    assert_eq!(
        tree("a <=> b => c | d"),
        bin(
            BinOpType::Iff,
            var("a"),
            bin(BinOpType::Implies, var("b"), bin(BinOpType::Or, var("c"), var("d")))
        )
    );
}

#[test]
fn negation_binds_tightest() {
    assert_eq!(tree("!a & b"), bin(BinOpType::And, not(var("a")), var("b")));
    assert_eq!(tree("a & !b"), bin(BinOpType::And, var("a"), not(var("b"))));
    assert_eq!(tree("!(a & b)"), not(bin(BinOpType::And, var("a"), var("b"))));
}

#[test]
fn double_negation_is_dropped() {
    assert_eq!(tree("!!a"), var("a"));
    assert_eq!(tree("!!!a"), not(var("a")));
    assert_eq!(tree("!!a & !!b"), bin(BinOpType::And, var("a"), var("b")));
    assert_eq!(tree("!(!a)"), not(not(var("a"))));
}

#[test]
fn parentheses_override_precedence() {
    assert_eq!(
        tree("(a | b) & c"),
        bin(BinOpType::And, bin(BinOpType::Or, var("a"), var("b")), var("c"))
    );
    assert_eq!(
        tree("a & (b & c)"),
        bin(BinOpType::And, var("a"), bin(BinOpType::And, var("b"), var("c")))
    );
}

#[test]
fn the_assignment_holds_each_variable_once() {
    let (_, vars) = parse("b & a | b => c & a");
    assert_eq!(vars.names(), vec!["b".to_string(), "a".to_string(), "c".to_string()]);
    assert_eq!(vars.values(), vec![true, true, true]);
}

#[test]
fn parsing_twice_gives_the_same() {
    for text in ["a", "a & b | !c", "(x => y) <=> (!y => !x)", "!!p | q & r & s"] {
        let (first, mut first_vars) = parse(text);
        let (second, mut second_vars) = parse(text);
        assert_eq!(first, second);
        assert_eq!(first_vars.names(), second_vars.names());
        loop {
            assert_eq!(first_vars.values(), second_vars.values());
            assert_eq!(first.evaluate(&first_vars), second.evaluate(&second_vars));
            assert_eq!(first.evaluate(&first_vars), second.evaluate(&first_vars));
            let more = first_vars.advance();
            assert_eq!(more, second_vars.advance());
            if !more {
                break;
            }
        }
    }
}

#[test]
fn every_variable_of_a_parsed_formula_has_a_value() {
    for text in [
        "a",
        "!a",
        "a & b",
        "(a | b) => (c <=> !d)",
        "x & x & x",
        "!!!(p) | ((q))",
        "long & names | Mixed => CASE <=> long",
    ] {
        assert_eq!(check_validity(text), SyntaxStatus::Valid);
        let (expr, mut vars) = parse(text);
        let mut rows = 0;
        loop {
            let _ = expr.evaluate(&vars);
            rows += 1;
            if !vars.advance() {
                break;
            }
        }
        assert_eq!(rows, 1 << vars.names().len());
    }
}
