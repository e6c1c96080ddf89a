use truthtable::check_validity::{check_validity, SyntaxStatus};

fn unexpected(index: usize, ch: char) -> SyntaxStatus {
    SyntaxStatus::UnexpectedChar { index, ch }
}

fn expected(what: &str) -> SyntaxStatus {
    SyntaxStatus::ExpectedAtEnd { expected: what.to_string() }
}

#[test]
fn accepts_every_operator() {
    for text in [
        "a",
        "abc",
        "AbC",
        "!a",
        "!!a",
        "a&b",
        "a | b",
        "a=>b",
        "a <=> b",
        "(a)",
        "((a))",
        "( a & b ) | !( c => d )",
        "  a  ",
        "a&!b",
        "a => !(b)",
        "!(!a)",
        "a <=> b <=> c",
    ] {
        assert_eq!(check_validity(text), SyntaxStatus::Valid, "{}", text);
    }
}

#[test]
fn rejects_two_identifiers_in_a_row() {
    assert_eq!(check_validity("a b"), unexpected(2, 'b'));
}

#[test]
fn rejects_an_operator_at_the_start() {
    assert_eq!(check_validity("& a"), unexpected(0, '&'));
    assert_eq!(check_validity("=> a"), unexpected(0, '='));
    assert_eq!(check_validity(" ) a"), unexpected(1, ')'));
}

#[test]
fn rejects_a_closing_parenthesis_without_partner() {
    assert_eq!(check_validity("a)"), unexpected(1, ')'));
    assert_eq!(check_validity("(a))"), unexpected(3, ')'));
    assert_eq!(check_validity("a )"), unexpected(2, ')'));
}

#[test]
fn rejects_empty_parentheses() {
    assert_eq!(check_validity("()"), unexpected(1, ')'));
}

#[test]
fn rejects_a_negation_behind_an_operand() {
    assert_eq!(check_validity("a !b"), unexpected(2, '!'));
    assert_eq!(check_validity("a!"), unexpected(1, '!'));
    assert_eq!(check_validity("(a)("), unexpected(3, '('));
}

#[test]
fn rejects_broken_arrows() {
    assert_eq!(check_validity("a = b"), unexpected(3, ' '));
    assert_eq!(check_validity("a < b"), unexpected(3, ' '));
    assert_eq!(check_validity("a <> b"), unexpected(3, '>'));
    assert_eq!(check_validity("a <= b"), unexpected(4, ' '));
    assert_eq!(check_validity("a > b"), unexpected(2, '>'));
    assert_eq!(check_validity("a == b"), unexpected(3, '='));
    assert_eq!(check_validity("a <=< b"), unexpected(4, '<'));
}

#[test]
fn rejects_two_operators_in_a_row() {
    assert_eq!(check_validity("a & | b"), unexpected(4, '|'));
    assert_eq!(check_validity("a => => b"), unexpected(5, '='));
}

#[test]
fn rejects_characters_outside_the_alphabet() {
    assert_eq!(check_validity("a1"), unexpected(1, '1'));
    assert_eq!(check_validity("a_b"), unexpected(1, '_'));
    assert_eq!(check_validity("\ta"), unexpected(0, '\t'));
}

#[test]
fn counts_characters_not_bytes() {
    assert_eq!(check_validity("é"), unexpected(0, 'é'));
    assert_eq!(check_validity("a & é"), unexpected(4, 'é'));
    assert_eq!(check_validity("a é"), unexpected(2, 'é'));
}

#[test]
fn reports_the_first_offence_only() {
    assert_eq!(check_validity("a $ b ) ("), unexpected(2, '$'));
}

#[test]
fn reports_open_parentheses_at_the_end() {
    assert_eq!(check_validity("(a"), expected("')'"));
    assert_eq!(check_validity("a & (b"), expected("')'"));
    assert_eq!(check_validity("((a)"), expected("')'"));
    assert_eq!(check_validity("("), expected("')'"));
    assert_eq!(check_validity("( "), expected("')'"));
}

#[test]
fn open_parentheses_come_before_a_missing_operand() {
    assert_eq!(check_validity("(a &"), expected("')'"));
}

#[test]
fn reports_a_missing_operand_at_the_end() {
    assert_eq!(check_validity("a &"), expected("identifier or '!'"));
    assert_eq!(check_validity("!"), expected("identifier or '!'"));
    assert_eq!(check_validity("a =>  "), expected("identifier or '!'"));
    assert_eq!(check_validity("a <"), expected("identifier or '!'"));
    assert_eq!(check_validity("a <="), expected("identifier or '!'"));
    assert_eq!(check_validity("a ="), expected("identifier or '!'"));
}

#[test]
fn only_spaces_are_empty() {
    for n in 0..20 {
        assert_eq!(check_validity(&" ".repeat(n)), SyntaxStatus::Empty);
    }
    assert_eq!(check_validity("\t"), unexpected(0, '\t'));
}
