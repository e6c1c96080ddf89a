use truthtable::group::{downgrade, find, Parsing};
use truthtable::reduce::{downgrade_braces, downgrade_infix, downgrade_not};
use truthtable::tokens::split;

fn tok(s: &str) -> Parsing {
    Parsing::Token(s.to_string())
}

fn list(items: Vec<Parsing>) -> Parsing {
    Parsing::SubList(items)
}

fn nodes(text: &str) -> Vec<Parsing> {
    split(text).into_iter().map(Parsing::Token).collect()
}

#[test]
fn string_eq_tells_tokens_only() {
    assert!(tok("&").string_eq("&"));
    assert!(!tok("&").string_eq("|"));
    assert!(!tok("ab").string_eq("a"));
    assert!(!list(vec![tok("&")]).string_eq("&"));
    assert!(!list(vec![]).string_eq(""));
    assert!(tok("").string_eq(""));
}

#[test]
fn find_gives_the_first_position() {
    let v = nodes("a & b & c");
    assert_eq!(find(&v, "&"), Some(1));
    assert_eq!(find(&v, "c"), Some(4));
    assert_eq!(find(&v, "|"), None);
    assert_eq!(find(&vec![list(vec![tok("&")]), tok("&")], "&"), Some(1));
    assert_eq!(find(&vec![], "&"), None);
}

#[test]
fn downgrade_folds_a_range() {
    let mut v = nodes("a & b | c");
    downgrade(0, 3, &mut v);
    assert_eq!(v, vec![list(vec![tok("a"), tok("&"), tok("b")]), tok("|"), tok("c")]);
    downgrade(1, 1, &mut v);
    assert_eq!(
        v,
        vec![list(vec![tok("a"), tok("&"), tok("b")]), list(vec![]), tok("|"), tok("c")]
    );
    downgrade(3, 4, &mut v);
    assert_eq!(
        v,
        vec![
            list(vec![tok("a"), tok("&"), tok("b")]),
            list(vec![]),
            tok("|"),
            list(vec![tok("c")])
        ]
    );
    downgrade(0, 4, &mut v);
    assert_eq!(v.len(), 1);
}

#[test]
fn braces_fold_the_innermost_pair_first() {
    let mut v = nodes("(a & (b | c)) => d");
    downgrade_braces(&mut v);
    assert_eq!(
        v,
        vec![
            list(vec![tok("a"), tok("&"), list(vec![tok("b"), tok("|"), tok("c")])]),
            tok("=>"),
            tok("d"),
        ]
    );
}

#[test]
fn braces_fold_pairs_side_by_side() {
    let mut v = nodes("(a) & (b)");
    downgrade_braces(&mut v);
    assert_eq!(v, vec![list(vec![tok("a")]), tok("&"), list(vec![tok("b")])]);
}

#[test]
fn braces_leave_a_text_without_parentheses() {
    let mut v = nodes("a & b");
    downgrade_braces(&mut v);
    assert_eq!(v, nodes("a & b"));
    let mut empty: Vec<Parsing> = vec![];
    downgrade_braces(&mut empty);
    assert_eq!(empty, vec![]);
}

#[test]
fn braces_reach_into_lists() {
    let mut v = vec![list(nodes("(a)")), tok("&"), tok("b")];
    downgrade_braces(&mut v);
    assert_eq!(v, vec![list(vec![list(vec![tok("a")])]), tok("&"), tok("b")]);
}

#[test]
fn not_folds_with_the_right_neighbour() {
    let mut v = nodes("!a & b");
    downgrade_not(&mut v);
    assert_eq!(v, vec![list(vec![tok("!"), tok("a")]), tok("&"), tok("b")]);
}

#[test]
fn two_negations_cancel() {
    let mut v = nodes("!!a");
    downgrade_not(&mut v);
    assert_eq!(v, vec![tok("a")]);
    let mut v = nodes("!!!a");
    downgrade_not(&mut v);
    assert_eq!(v, vec![list(vec![tok("!"), tok("a")])]);
    let mut v = nodes("!!!!a & !!b");
    downgrade_not(&mut v);
    assert_eq!(v, nodes("a & b"));
}

#[test]
fn not_reaches_into_lists_first() {
    let mut v = vec![tok("!"), list(nodes("!a"))];
    downgrade_not(&mut v);
    assert_eq!(
        v,
        vec![list(vec![tok("!"), list(vec![list(vec![tok("!"), tok("a")])])])]
    );
}

#[test]
fn infix_groups_from_the_left() {
    let mut v = nodes("a & b & c");
    downgrade_infix("&", &mut v);
    assert_eq!(
        v,
        vec![list(vec![list(vec![tok("a"), tok("&"), tok("b")]), tok("&"), tok("c")])]
    );
}

#[test]
fn infix_leaves_other_operators() {
    let mut v = nodes("a | b & c | d");
    downgrade_infix("&", &mut v);
    assert_eq!(
        v,
        vec![tok("a"), tok("|"), list(vec![tok("b"), tok("&"), tok("c")]), tok("|"), tok("d")]
    );
    downgrade_infix("=>", &mut v);
    assert_eq!(v.len(), 5);
}

#[test]
fn infix_reaches_into_lists_first() {
    let mut v = vec![list(nodes("a & b")), tok("&"), tok("c")];
    downgrade_infix("&", &mut v);
    assert_eq!(
        v,
        vec![list(vec![
            list(vec![list(vec![tok("a"), tok("&"), tok("b")])]),
            tok("&"),
            tok("c")
        ])]
    );
}
