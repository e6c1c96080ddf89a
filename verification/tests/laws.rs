use truthtable::check_validity::{check_validity, SyntaxStatus};
use truthtable::group::Parsing;
use truthtable::parse::parse;
use truthtable::reduce::downgrade_braces;
use truthtable::table::truth_table;
use truthtable::tokens::split;

const FORMULAS: [&str; 8] = [
    "a",
    " a&b ",
    "(a | b) => (c <=> !d)",
    "!!!(p) | ((q))",
    "x & x & x",
    "((a => b) => c) => d",
    "a<=>b<=>c",
    "! ( a ) & ! b",
];

fn spell(nodes: &[Parsing]) -> Vec<String> {
    let mut out = vec![];
    for node in nodes {
        match node {
            Parsing::Token(t) => out.push(t.clone()),
            Parsing::SubList(l) => {
                out.push("(".to_string());
                out.extend(spell(l));
                out.push(")".to_string());
            }
        }
    }
    out
}

#[test]
fn the_tokens_spell_the_text_without_spaces() {
    for text in FORMULAS.iter().chain(["a b", "< = >", "))((", "=a>"].iter()) {
        let joined: String = split(text).concat();
        let solid: String = text.chars().filter(|c| *c != ' ').collect();
        assert_eq!(joined, solid);
    }
}

#[test]
fn the_groups_spell_the_tokens() {
    for text in FORMULAS {
        let tokens = split(text);
        let mut nodes: Vec<Parsing> = tokens.iter().cloned().map(Parsing::Token).collect();
        downgrade_braces(&mut nodes);
        assert_eq!(spell(&nodes), tokens);
    }
}

#[test]
fn a_formula_has_a_variable_and_its_table_two_rows() {
    for text in FORMULAS {
        assert_eq!(check_validity(text), SyntaxStatus::Valid);
        let (expr, vars) = parse(text);
        let n = vars.names().len();
        assert!(n >= 1);
        let rows = truth_table(&expr, vars);
        assert_eq!(rows.len(), 1 << n);
        assert!(rows.len() >= 2);
        assert!(rows[0].values.iter().all(|v| *v));
        assert!(rows[rows.len() - 1].values.iter().all(|v| !*v));
    }
}
