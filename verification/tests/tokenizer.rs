use truthtable::tokens::{extract_names, split};

fn strings(items: &[&str]) -> Vec<String> {
    items.iter().map(|s| s.to_string()).collect()
}

#[test]
fn splits_identifiers_and_operators() {
    assert_eq!(split("a & b"), strings(&["a", "&", "b"]));
    assert_eq!(split("a&b"), strings(&["a", "&", "b"]));
    assert_eq!(split("abc|de"), strings(&["abc", "|", "de"]));
}

#[test]
fn splits_multi_character_operators() {
    assert_eq!(split("a=>b"), strings(&["a", "=>", "b"]));
    assert_eq!(split("a<=>b"), strings(&["a", "<=>", "b"]));
    assert_eq!(split("a <=> b => c"), strings(&["a", "<=>", "b", "=>", "c"]));
}

#[test]
fn splits_parentheses_and_negations() {
    assert_eq!(
        split("(ab<=>c)=>!d"),
        strings(&["(", "ab", "<=>", "c", ")", "=>", "!", "d"])
    );
    assert_eq!(split("!!a"), strings(&["!", "!", "a"]));
    assert_eq!(split("!(a)"), strings(&["!", "(", "a", ")"]));
}

#[test]
fn drops_spaces() {
    assert_eq!(split("   a   "), strings(&["a"]));
    assert_eq!(split(""), strings(&[]));
    assert_eq!(split("   "), strings(&[]));
}

#[test]
fn a_space_ends_an_identifier() {
    assert_eq!(split("a b"), strings(&["a", "b"]));
    assert_eq!(split("ab cd"), strings(&["ab", "cd"]));
}

#[test]
fn a_space_parts_less_from_equals() {
    assert_eq!(split("< ="), strings(&["<", "="]));
    assert_eq!(split("<="), strings(&["<="]));
    assert_eq!(split("a=b"), strings(&["a", "=", "b"]));
    assert_eq!(split("="), strings(&["="]));
}

#[test]
fn greater_ends_the_pending_token() {
    assert_eq!(split(">"), strings(&[">"]));
    assert_eq!(split("a>b"), strings(&["a>", "b"]));
    assert_eq!(split("<>"), strings(&["<>"]));
    assert_eq!(split("= >"), strings(&["=>"]));
}

#[test]
fn names_come_once_in_order_of_first_occurrence() {
    let parts = split("b & a | b => c & a");
    assert_eq!(extract_names(&parts), strings(&["b", "a", "c"]));
}

#[test]
fn names_are_the_tokens_that_begin_with_a_letter() {
    let parts = strings(&["(", "x", "&", "", "!", "Yz", ")", "=>", "x", "a>"]);
    assert_eq!(extract_names(&parts), strings(&["x", "Yz", "a>"]));
    assert_eq!(extract_names(&[]), strings(&[]));
}
