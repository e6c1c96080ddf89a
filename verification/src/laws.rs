//! What holds of the library as a whole.

use vstd::prelude::*;
use vstd::arithmetic::power2::pow2;
use crate::check_validity::{blank, initial, lemma_scan_not_empty, verdict, Verdict};
use crate::enumeration::{after, lemma_after, lemma_number, lemma_number_injective, number};
use crate::expression::{defined, truth, Expr, Formula};
use crate::group::Group;
use crate::lexing::lemma_valid_tokens;
use crate::meaning::meaning;
use crate::parse::{assignment, convertible, formula, grouped, reduced};
use crate::shape::is_identifier;
use crate::stages::{lemma_pipeline, lemma_reduced, mentions};
use crate::tokens::{lemma_names, names, tokens};
use crate::var_values::{
    distinct, lemma_all_true, names_of, some_true, uniform, values_of, Binding, VarValues,
};

verus! {

/// A text of spaces only, and the empty text, is reported as empty, and
/// no other text is.
pub proof fn lemma_blank_is_empty(text: Seq<char>)
    ensures
        blank(text) <==> verdict(text) == Verdict::Empty,
{
    lemma_scan_not_empty(text, 0, initial());
}

/// The evaluation of a parsed formula is total: the reduced tree of a
/// text that passes the syntax check stands for a formula, and the
/// assignment that parsing gives binds every variable of that formula,
/// each once. Its names are the names among the tokens.
pub proof fn lemma_formula_defined(text: Seq<char>)
    requires
        verdict(text) == Verdict::Valid,
    ensures
        convertible(Group::List(reduced(tokens(text)))),
        defined(formula(text), names_of(assignment(text))),
        distinct(assignment(text)),
        names_of(assignment(text)) == names(tokens(text)),
{
    lemma_parsed(text);
}

/// A formula has a variable: an assignment that binds the variables of
/// a formula binds at least one.
pub proof fn lemma_formula_has_variable(f: Formula, a: Seq<Seq<char>>)
    requires
        defined(f, a),
    ensures
        a.len() > 0,
    decreases f,
{
    match f {
        Formula::Var(_) => {},
        Formula::BinOp(_, left, _) => {
            lemma_formula_has_variable(*left, a);
        },
        Formula::Not(operand) => {
            lemma_formula_has_variable(*operand, a);
        },
    }
}

/// The walk through the truth values of a parsed formula begins at all
/// `true`, and its table has a row for each combination of the values of
/// its variables: with `n` variables 2^n rows, at least two.
pub proof fn lemma_table_size(text: Seq<char>)
    requires
        verdict(text) == Verdict::Valid,
    ensures
        assignment(text).len() >= 1,
        values_of(assignment(text)) == uniform(assignment(text).len(), true),
        number(values_of(assignment(text))) + 1 == pow2(assignment(text).len()),
        pow2(assignment(text).len()) >= 2,
{
    let a = assignment(text);
    lemma_parsed(text);
    lemma_formula_has_variable(formula(text), names_of(a));
    lemma_all_true(names(tokens(text)));
    lemma_number(values_of(a));
}

/// What the lemmas on the tokenizer and on the reducer tell of a text
/// that passes the syntax check.
proof fn lemma_parsed(text: Seq<char>)
    requires
        verdict(text) == Verdict::Valid,
    ensures
        convertible(Group::List(reduced(tokens(text)))),
        defined(formula(text), names_of(assignment(text))),
        distinct(assignment(text)),
        names_of(assignment(text)) == names(tokens(text)),
        formula(text) == meaning(grouped(tokens(text))),
{
    let toks = tokens(text);
    lemma_valid_tokens(text);
    lemma_pipeline(toks);
    lemma_names(toks);
    lemma_all_true(names(toks));
    assert forall|t: Seq<char>| is_identifier(t) && mentions(reduced(toks), t) implies names(
        toks,
    ).contains(t) by {
        assert(toks.contains(t));
    }
    lemma_reduced(reduced(toks), names(toks));
}

/// Parsing goes by precedence: the formula of a text that passes the
/// syntax check is what its tokens mean once the parts in parentheses are
/// folded. A list of groups splits at its loosest connective, `<=>` before
/// `=>` before `|` before `&`, and at the last one where several are
/// equally loose, so that connectives of one kind group from the left; a
/// negation sign binds tighter than any connective.
pub proof fn lemma_formula_by_precedence(text: Seq<char>)
    requires
        verdict(text) == Verdict::Valid,
    ensures
        formula(text) == meaning(grouped(tokens(text))),
{
    lemma_parsed(text);
}

/// Parsing is repeatable: two results of parsing one text are the same
/// formula with the same assignment, and so have the same truth value
/// under every assignment.
pub proof fn lemma_parse_repeatable(
    text: Seq<char>,
    first: (Expr, VarValues),
    second: (Expr, VarValues),
)
    requires
        first.0@ == formula(text) && first.1@ == assignment(text),
        second.0@ == formula(text) && second.1@ == assignment(text),
    ensures
        first.0@ == second.0@,
        first.1@ == second.1@,
        forall|a: Seq<Binding>| truth(first.0@, a) == truth(second.0@, a),
{
}

/// The walk through the combinations is complete: from all `true`, the
/// steps visit 2^n combinations of the `n` values, no two of them the
/// same and every combination among them; each but the last holds a
/// `true`, so that the walk goes on, and the last is all `false`.
pub proof fn lemma_enumeration_complete(n: nat)
    ensures
        forall|k: nat| k < pow2(n) ==> (#[trigger] after(uniform(n, true), k)).len() == n,
        forall|k: nat| k + 1 < pow2(n) ==> some_true(#[trigger] after(uniform(n, true), k)),
        after(uniform(n, true), (pow2(n) - 1) as nat) == uniform(n, false),
        forall|j: nat, k: nat|
            j < k < pow2(n) ==> #[trigger] after(uniform(n, true), j) != #[trigger] after(
                uniform(n, true),
                k,
            ),
        forall|v: Seq<bool>|
            v.len() == n ==> exists|k: nat| k < pow2(n) && #[trigger] after(uniform(n, true), k) == v,
{
    let first = uniform(n, true);
    lemma_number(first);
    assert forall|k: nat| k < pow2(n) implies (#[trigger] after(first, k)).len() == n && number(
        after(first, k),
    ) + k + 1 == pow2(n) by {
        lemma_after(first, k);
    }
    assert forall|k: nat| k + 1 < pow2(n) implies some_true(#[trigger] after(first, k)) by {
        lemma_number(after(first, k));
    }
    let last = after(first, (pow2(n) - 1) as nat);
    lemma_number(last);
    assert forall|v: Seq<bool>| v.len() == n implies exists|k: nat|
        k < pow2(n) && #[trigger] after(first, k) == v by {
        lemma_number(v);
        let k = (pow2(n) - 1 - number(v)) as nat;
        lemma_number_injective(after(first, k), v);
    }
}

} // verus!
