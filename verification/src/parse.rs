//! From a formula's text to its expression and the assignment of its
//! variables.

use vstd::prelude::*;
use vstd::string::*;
use crate::check_validity::{verdict, Verdict};
use crate::expression::{defined, BinOpType, Expr, Formula};
use crate::group::{group_of, groups_of, lemma_group_of_list, token_groups, Group, Parsing};
use crate::laws::{lemma_formula_by_precedence, lemma_formula_defined, lemma_table_size};
use crate::lexing::lemma_valid_tokens;
use crate::meaning::meaning;
use crate::reduce::{downgrade_braces, downgrade_infix, downgrade_not, in_depth, Pass};
use crate::stages::lemma_pipeline;
use crate::tokens::{extract_names, names, split, tokens};
use crate::var_values::{all_true, names_of, Binding, VarValues};

verus! {

/// The connective that a token spells, if it spells one.
pub open spec fn connective(t: Seq<char>) -> Option<BinOpType> {
    if t == "&"@ {
        Some(BinOpType::And)
    } else if t == "|"@ {
        Some(BinOpType::Or)
    } else if t == "=>"@ {
        Some(BinOpType::Implies)
    } else if t == "<=>"@ {
        Some(BinOpType::Iff)
    } else {
        None
    }
}

/// A group that stands for a formula: a token, a list of one such group,
/// a list of two groups of which the second is such a group, or a list of
/// three with a connective between two such groups.
pub open spec fn convertible(g: Group) -> bool
    decreases g,
{
    match g {
        Group::Token(_) => true,
        Group::List(l) => if l.len() == 1 {
            convertible(l[0])
        } else if l.len() == 2 {
            convertible(l[1])
        } else if l.len() == 3 {
            &&& l[1] is Token
            &&& connective(l[1]->Token_0) is Some
            &&& convertible(l[0])
            &&& convertible(l[2])
        } else {
            false
        },
    }
}

/// The formula that a convertible group stands for: a token is a
/// variable, a list of one group is that group, a list of two is the
/// negation of the second, a list of three joins the first and the third
/// by the connective in the middle.
pub open spec fn expression(g: Group) -> Formula
    decreases g,
{
    match g {
        Group::Token(t) => Formula::Var(t),
        Group::List(l) => if l.len() == 1 {
            expression(l[0])
        } else if l.len() == 2 {
            Formula::Not(Box::new(expression(l[1])))
        } else if l.len() == 3 && l[1] is Token && connective(l[1]->Token_0) is Some {
            Formula::BinOp(
                connective(l[1]->Token_0)->0,
                Box::new(expression(l[0])),
                Box::new(expression(l[2])),
            )
        } else {
            arbitrary()
        },
    }
}

/// Converts a node of the reduced tree into the expression it stands for.
pub fn to_expression(parsing: &Parsing) -> (e: Expr)
    requires
        convertible(group_of(*parsing)),
    ensures
        e@ == expression(group_of(*parsing)),
    decreases parsing,
{
    match parsing {
        Parsing::Token(s) => Expr::Var(s.clone()),
        Parsing::SubList(l) => {
            proof {
                lemma_group_of_list(*l);
            }
            if l.len() == 1 {
                to_expression(&l[0])
            } else if l.len() == 2 {
                Expr::Not(Box::new(to_expression(&l[1])))
            } else {
                let left = Box::new(to_expression(&l[0]));
                let right = Box::new(to_expression(&l[2]));
                match &l[1] {
                    Parsing::Token(s) => {
                        if s.as_str().eq("&") {
                            Expr::BinOp(BinOpType::And, left, right)
                        } else if s.as_str().eq("|") {
                            Expr::BinOp(BinOpType::Or, left, right)
                        } else if s.as_str().eq("=>") {
                            Expr::BinOp(BinOpType::Implies, left, right)
                        } else {
                            Expr::BinOp(BinOpType::Iff, left, right)
                        }
                    },
                    Parsing::SubList(_) => unreached(),
                }
            }
        },
    }
}

/// The tokens with what stands in parentheses folded.
pub open spec fn grouped(toks: Seq<Seq<char>>) -> Seq<Group> {
    in_depth(Pass::Braces, token_groups(toks))
}

/// Then the negations folded.
pub open spec fn negated(toks: Seq<Seq<char>>) -> Seq<Group> {
    in_depth(Pass::Not, grouped(toks))
}

/// Then the conjunctions.
pub open spec fn conjoined(toks: Seq<Seq<char>>) -> Seq<Group> {
    in_depth(Pass::Infix("&"@), negated(toks))
}

/// Then the disjunctions.
pub open spec fn disjoined(toks: Seq<Seq<char>>) -> Seq<Group> {
    in_depth(Pass::Infix("|"@), conjoined(toks))
}

/// Then the implications.
pub open spec fn implied(toks: Seq<Seq<char>>) -> Seq<Group> {
    in_depth(Pass::Infix("=>"@), disjoined(toks))
}

/// Then the equivalences: the reduced tree.
pub open spec fn reduced(toks: Seq<Seq<char>>) -> Seq<Group> {
    in_depth(Pass::Infix("<=>"@), implied(toks))
}

/// The formula that `text` spells.
pub open spec fn formula(text: Seq<char>) -> Formula {
    expression(Group::List(reduced(tokens(text))))
}

/// The assignment with which the walk through the truth values of the
/// variables of `text` begins: each variable, in the order in which they
/// first occur, with the value `true`.
pub open spec fn assignment(text: Seq<char>) -> Seq<Binding> {
    all_true(names(tokens(text)))
}

/// One token node for each of `parts`.
fn token_nodes(parts: Vec<String>) -> (parsing: Vec<Parsing>)
    ensures
        groups_of(parsing@) == token_groups(parts.deep_view()),
{
    let ghost toks = parts.deep_view();
    let ghost items = parts@;
    let mut parsing: Vec<Parsing> = Vec::new();
    for part in it: parts
        invariant
            it.seq() == items,
            toks.len() == items.len(),
            forall|j: int| 0 <= j < items.len() ==> toks[j] == (#[trigger] items[j])@,
            groups_of(parsing@) == token_groups(toks.take(it.index())),
    {
        let ghost i = it.index();
        parsing.push(Parsing::Token(part));
        proof {
            assert(token_groups(toks.take(i + 1)) =~= token_groups(toks.take(i)).push(
                Group::Token(toks[i]),
            ));
        }
    }
    parsing
}

/// Parses a formula that passed the syntax check: gives the expression
/// that it spells and the assignment with which the walk through the
/// truth values of its variables begins.
///
/// Negation binds tighter than `&`, `&` tighter than `|`, `|` tighter than
/// `=>`, `=>` tighter than `<=>`; operators of one kind group from the
/// left.
pub fn parse(from: &str) -> (parsed: (Expr, VarValues))
    requires
        verdict(from@) == Verdict::Valid,
    ensures
        parsed.0@ == formula(from@),
        parsed.0@ == meaning(grouped(tokens(from@))),
        parsed.1@ == assignment(from@),
        parsed.1.well_formed(),
        defined(parsed.0@, names_of(parsed.1@)),
        parsed.1@.len() > 0,
{
    proof {
        lemma_valid_tokens(from@);
        lemma_pipeline(tokens(from@));
        lemma_formula_defined(from@);
        lemma_formula_by_precedence(from@);
        lemma_table_size(from@);
    }
    let parts = split(from);
    let var_values = VarValues::new(extract_names(parts.as_slice()).as_slice());
    let mut parsing = token_nodes(parts);
    downgrade_braces(&mut parsing);
    downgrade_not(&mut parsing);
    downgrade_infix("&", &mut parsing);
    downgrade_infix("|", &mut parsing);
    downgrade_infix("=>", &mut parsing);
    downgrade_infix("<=>", &mut parsing);
    let expression = to_expression(&Parsing::SubList(parsing));
    (expression, var_values)
}

} // verus!
