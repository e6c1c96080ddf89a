use truthtable::expression::Expr;
use truthtable::parse::parse;
use truthtable::table::{classify, truth_table, Flag, Row};
use truthtable::var_values::VarValues;

fn named(names: &[&str]) -> VarValues {
    let names: Vec<String> = names.iter().map(|s| s.to_string()).collect();
    VarValues::new(&names)
}

#[test]
fn a_new_assignment_keeps_the_order_and_drops_repeats() {
    let vars = named(&["q", "p", "q", "r", "p"]);
    assert_eq!(vars.names(), vec!["q".to_string(), "p".to_string(), "r".to_string()]);
    assert_eq!(vars.values(), vec![true, true, true]);
}

#[test]
fn an_assignment_without_names_is_empty() {
    let vars = named(&[]);
    assert_eq!(vars.names(), Vec::<String>::new());
    assert_eq!(vars.values(), Vec::<bool>::new());
}

#[test]
fn get_value_follows_the_name() {
    let mut vars = named(&["p", "q"]);
    assert!(vars.get_value("p"));
    assert!(vars.get_value("q"));
    assert!(vars.advance());
    assert!(vars.get_value("p"));
    assert!(!vars.get_value("q"));
    assert!(vars.advance());
    assert!(!vars.get_value("p"));
    assert!(vars.get_value("q"));
}

#[test]
fn advance_counts_down() {
    let mut vars = named(&["a", "b", "c"]);
    let mut seen = vec![vars.values()];
    while vars.advance() {
        seen.push(vars.values());
    }
    assert_eq!(
        seen,
        vec![
            vec![true, true, true],
            vec![true, true, false],
            vec![true, false, true],
            vec![true, false, false],
            vec![false, true, true],
            vec![false, true, false],
            vec![false, false, true],
            vec![false, false, false],
        ]
    );
}

#[test]
fn advance_wraps_to_all_true() {
    let mut vars = named(&["a", "b"]);
    assert!(vars.advance());
    assert!(vars.advance());
    assert!(vars.advance());
    assert_eq!(vars.values(), vec![false, false]);
    assert!(!vars.advance());
    assert_eq!(vars.values(), vec![true, true]);
    assert_eq!(vars.names(), vec!["a".to_string(), "b".to_string()]);
}

#[test]
fn the_walk_visits_every_combination_once() {
    for n in 1..=6usize {
        let names: Vec<String> = (0..n).map(|i| "abcdef"[i..i + 1].to_string()).collect();
        let mut vars = VarValues::new(&names);
        let mut seen: Vec<Vec<bool>> = vec![];
        loop {
            let values = vars.values();
            assert_eq!(values.len(), n);
            assert!(!seen.contains(&values));
            seen.push(values);
            if !vars.advance() {
                break;
            }
        }
        assert_eq!(seen.len(), 1 << n);
        assert_eq!(seen[0], vec![true; n]);
        assert_eq!(seen[seen.len() - 1], vec![false; n]);
    }
}

#[test]
fn the_table_of_a_conjunction() {
    let (expr, vars) = parse("a & b");
    let rows = truth_table(&expr, vars);
    assert_eq!(
        rows,
        vec![
            Row { values: vec![true, true], result: true },
            Row { values: vec![true, false], result: false },
            Row { values: vec![false, true], result: false },
            Row { values: vec![false, false], result: false },
        ]
    );
    assert_eq!(classify(&rows), Flag::Neither);
}

#[test]
fn the_table_starts_where_the_assignment_stands() {
    let (expr, mut vars) = parse("a | b");
    vars.advance();
    vars.advance();
    let rows = truth_table(&expr, vars);
    assert_eq!(
        rows,
        vec![
            Row { values: vec![false, true], result: true },
            Row { values: vec![false, false], result: false },
        ]
    );
}

#[test]
fn a_tautology_is_flagged() {
    let (expr, vars) = parse("a => a");
    let rows = truth_table(&expr, vars);
    assert_eq!(rows.len(), 2);
    assert_eq!(classify(&rows), Flag::Tautology);
    let (expr, vars) = parse("(a => b) <=> (!b => !a)");
    assert_eq!(classify(&truth_table(&expr, vars)), Flag::Tautology);
}

#[test]
fn a_contradiction_is_flagged() {
    let (expr, vars) = parse("a & !a");
    let rows = truth_table(&expr, vars);
    assert_eq!(rows.len(), 2);
    assert_eq!(classify(&rows), Flag::Contradiction);
}

#[test]
fn a_single_variable_is_neither() {
    let (expr, vars) = parse("a");
    assert_eq!(expr, Expr::Var("a".to_string()));
    let rows = truth_table(&expr, vars);
    assert_eq!(
        rows,
        vec![Row { values: vec![true], result: true }, Row { values: vec![false], result: false }]
    );
    assert_eq!(classify(&rows), Flag::Neither);
}
