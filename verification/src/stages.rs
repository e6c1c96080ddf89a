//! The shape of the tree between the passes of the reducer, and what each
//! pass makes of it.

use vstd::prelude::*;
use crate::expression::{defined, BinOpType};
use crate::group::{
    last_position, lemma_last_position, lemma_position, position, token_groups, wrap, Group,
};
use crate::meaning::{
    lemma_drop_negations, lemma_fold_connective, lemma_fold_negation, lemma_meaning_alike,
    lemma_pure, lemma_split_point_is, meaning,
};
use crate::parse::{
    conjoined, connective, convertible, disjoined, expression, grouped, implied, negated, reduced,
};
use crate::reduce::{
    cut, descend, enclose, fold, fold_infix, fold_nots, fold_parens, in_depth, inner,
    lemma_enclose_keeps_depth, lemma_net_depth_no_close, lemma_net_depth_plain,
    lemma_net_depth_split, net_depth, ready, ready_in_depth, Pass,
};
use crate::shape::{
    alternates, class_of, is_identifier, lemma_classes, lemma_run_alike, lemma_run_one,
    lemma_run_split, lemma_states, run, state_at, Class, Turn,
};

verus! {

/// The rank of a connective: the lower, the tighter it binds and the
/// earlier it is folded.
pub open spec fn precedence(kind: BinOpType) -> nat {
    match kind {
        BinOpType::And => 0,
        BinOpType::Or => 1,
        BinOpType::Implies => 2,
        BinOpType::Iff => 3,
    }
}

/// No parenthesis stands in `s`.
pub open spec fn plain(s: Seq<Group>) -> bool {
    forall|i: int|
        0 <= i < s.len() ==> class_of(#[trigger] s[i]) != Class::Open && class_of(s[i])
            != Class::Close
}

/// No negation sign stands in `s`.
pub open spec fn positive(s: Seq<Group>) -> bool {
    forall|i: int| 0 <= i < s.len() ==> class_of(#[trigger] s[i]) != Class::Negation
}

/// No connective of a rank below `rank` stands in `s`.
pub open spec fn above(s: Seq<Group>, rank: nat) -> bool {
    forall|i: int|
        0 <= i < s.len() && class_of(#[trigger] s[i]) == Class::Connective ==> precedence(
            connective(s[i]->Token_0)->0,
        ) >= rank
}

/// The shape of one list between two passes: operands and operators take
/// turns, without parentheses. With `folded`, the negations are folded: a
/// sign stands only in a list of two, before what it negates. The
/// connectives of a rank below `rank` are folded: one stands only in a
/// list of three, between its operands.
pub open spec fn level(s: Seq<Group>, folded: bool, rank: nat) -> bool {
    &&& alternates(s)
    &&& plain(s)
    &&& folded ==> s.len() == 2 || positive(s)
    &&& s.len() <= 3 || above(s, rank)
}

/// Every list among the groups of `s` has the shape, in depth.
pub open spec fn lists_shaped(s: Seq<Group>, folded: bool, rank: nat) -> bool
    decreases s, 0nat,
{
    forall|i: int|
        0 <= i < s.len() && (#[trigger] s[i]) is List ==> shaped(s[i]->List_0, folded, rank)
}

/// `s` and every list below it have the shape.
pub open spec fn shaped(s: Seq<Group>, folded: bool, rank: nat) -> bool
    decreases s, 1nat,
{
    level(s, folded, rank) && lists_shaped(s, folded, rank)
}

/// The groups of `wrap(s, lo, hi)`, one by one.
pub proof fn lemma_wrap_groups(s: Seq<Group>, lo: int, hi: int)
    requires
        0 <= lo <= hi <= s.len(),
    ensures
        wrap(s, lo, hi).len() == s.len() - (hi - lo) + 1,
        wrap(s, lo, hi)[lo] == Group::List(s.subrange(lo, hi)),
        forall|j: int| 0 <= j < lo ==> wrap(s, lo, hi)[j] == s[j],
        forall|j: int| lo < j < wrap(s, lo, hi).len() ==> wrap(s, lo, hi)[j] == s[j + (hi - lo) - 1],
        wrap(s, lo, hi) =~= s.take(lo) + seq![Group::List(s.subrange(lo, hi))] + s.skip(hi),
{
}

/// Folding a run that leads from before an operand to behind one keeps
/// the turns: the list stands where an operand stood.
pub proof fn lemma_wrap_reads(s: Seq<Group>, lo: int, hi: int)
    requires
        0 <= lo <= hi <= s.len(),
        run(s, Turn::Before) != Turn::Stuck,
        state_at(s, lo) == Turn::Before,
        state_at(s, hi) == Turn::Behind,
    ensures
        run(wrap(s, lo, hi), Turn::Before) == run(s, Turn::Before),
        alternates(s.subrange(lo, hi)),
{
    let sub = s.subrange(lo, hi);
    let list = Group::List(sub);
    lemma_wrap_groups(s, lo, hi);
    lemma_states(s, hi);
    assert(s.take(hi) =~= s.take(lo) + sub);
    lemma_run_split(s.take(lo), sub, Turn::Before);
    lemma_run_split(s.take(lo) + seq![list], s.skip(hi), Turn::Before);
    lemma_run_split(s.take(lo), seq![list], Turn::Before);
    lemma_run_one(list, Turn::Before);
}

/// The pass of a connective on one list of the shape that precedes it
/// gives the shape that follows it, and keeps the meaning.
pub proof fn lemma_fold_infix(op: Seq<char>, s: Seq<Group>, rank: nat)
    requires
        connective(op) is Some,
        precedence(connective(op)->0) == rank,
        level(s, true, rank),
        lists_shaped(s, true, rank + 1),
    ensures
        shaped(fold_infix(op, s), true, rank + 1),
        meaning(fold_infix(op, s)) == meaning(s),
    decreases s.len(),
{
    let i = position(s, op);
    lemma_position(s, op);
    lemma_classes();
    if i < s.len() {
        lemma_states(s, i);
        lemma_states(s, i + 1);
        lemma_states(s, i - 1);
        lemma_states(s, i + 2);
        let next = wrap(s, i - 1, i + 2);
        let triple = s.subrange(i - 1, i + 2);
        lemma_wrap_reads(s, i - 1, i + 2);
        assert(shaped(triple, true, rank + 1));
        lemma_fold_infix(op, next, rank);
        lemma_pure(s);
        lemma_fold_connective(s, i);
    }
}

/// A pass leaves the tokens of a list where they are and its lists lists.
pub proof fn lemma_inner_classes(pass: Pass, s: Seq<Group>)
    ensures
        inner(pass, s).len() == s.len(),
        forall|i: int| 0 <= i < s.len() ==> (#[trigger] inner(pass, s)[i]) == descend(pass, s[i]),
        forall|i: int|
            0 <= i < s.len() && (#[trigger] s[i]) is Token ==> inner(pass, s)[i] == s[i],
        forall|i: int|
            0 <= i < s.len() ==> class_of(#[trigger] inner(pass, s)[i]) == class_of(s[i]),
        run(inner(pass, s), Turn::Before) == run(s, Turn::Before),
{
    lemma_run_alike(inner(pass, s), s, Turn::Before);
}

/// The pass of a connective, in depth, on a tree of the shape that
/// precedes it gives the shape that follows it, and keeps the meaning.
pub proof fn lemma_infix_in_depth(op: Seq<char>, s: Seq<Group>, rank: nat)
    requires
        connective(op) is Some,
        precedence(connective(op)->0) == rank,
        shaped(s, true, rank),
    ensures
        shaped(in_depth(Pass::Infix(op), s), true, rank + 1),
        meaning(in_depth(Pass::Infix(op), s)) == meaning(s),
    decreases s,
{
    let pass = Pass::Infix(op);
    let mid = inner(pass, s);
    lemma_inner_classes(pass, s);
    assert forall|i: int| 0 <= i < mid.len() && (#[trigger] mid[i]) is List implies shaped(
        mid[i]->List_0,
        true,
        rank + 1,
    ) && meaning(mid[i]->List_0) == meaning(s[i]->List_0) by {
        lemma_infix_in_depth(op, s[i]->List_0, rank);
    }
    lemma_meaning_alike(s, mid);
    lemma_fold_infix(op, mid, rank);
}

/// Where the first negation sign of a list stands: at the beginning of an
/// operand, with something behind it.
pub proof fn lemma_first_negation(s: Seq<Group>)
    requires
        alternates(s),
        plain(s),
        position(s, "!"@) < s.len(),
    ensures
        0 <= position(s, "!"@) < s.len() - 1,
        s[position(s, "!"@)] == Group::Token("!"@),
        state_at(s, position(s, "!"@)) == Turn::Before,
        position(s, "!"@) == 0 || class_of(s[position(s, "!"@) - 1]) == Class::Connective,
        s[position(s, "!"@) + 1] == Group::Token("!"@) || class_of(s[position(s, "!"@) + 1])
            == Class::Operand,
{
    let i = position(s, "!"@);
    lemma_position(s, "!"@);
    lemma_states(s, i);
    lemma_states(s, i + 1);
    lemma_states(s, i + 2);
    if i > 0 {
        lemma_states(s, i - 1);
    }
}

/// Dropping two negation signs in a row at the beginning of an operand
/// keeps the turns, the shape of the lists, and the meaning.
pub proof fn lemma_drop_step(s: Seq<Group>, i: int)
    requires
        alternates(s),
        plain(s),
        lists_shaped(s, true, 0),
        0 <= i < s.len() - 1,
        s[i] == Group::Token("!"@),
        s[i + 1] == Group::Token("!"@),
        state_at(s, i) == Turn::Before,
        i == 0 || class_of(s[i - 1]) == Class::Connective,
    ensures
        alternates(cut(s, i)),
        plain(cut(s, i)),
        lists_shaped(cut(s, i), true, 0),
        meaning(cut(s, i)) == meaning(s),
{
    let next = cut(s, i);
    lemma_states(s, i + 1);
    lemma_states(s, i + 2);
    lemma_run_split(s.take(i), s.skip(i + 2), Turn::Before);
    assert(plain(next)) by {
        assert forall|j: int| 0 <= j < next.len() implies class_of(#[trigger] next[j])
            != Class::Open && class_of(next[j]) != Class::Close by {
            assert(next[j] == if j < i {
                s[j]
            } else {
                s[j + 2]
            });
        }
    }
    assert(lists_shaped(next, true, 0)) by {
        assert forall|j: int| 0 <= j < next.len() && (#[trigger] next[j]) is List implies shaped(
            next[j]->List_0,
            true,
            0,
        ) by {
            assert(next[j] == if j < i {
                s[j]
            } else {
                s[j + 2]
            });
        }
    }
    lemma_drop_negations(s, i);
}

/// Folding a negation sign at the beginning of an operand with that
/// operand keeps the turns, the shape of the lists, and the meaning.
pub proof fn lemma_negation_step(s: Seq<Group>, i: int)
    requires
        alternates(s),
        plain(s),
        lists_shaped(s, true, 0),
        0 <= i < s.len() - 1,
        s[i] == Group::Token("!"@),
        class_of(s[i + 1]) == Class::Operand,
        state_at(s, i) == Turn::Before,
        i == 0 || class_of(s[i - 1]) == Class::Connective,
    ensures
        alternates(wrap(s, i, i + 2)),
        plain(wrap(s, i, i + 2)),
        lists_shaped(wrap(s, i, i + 2), true, 0),
        meaning(wrap(s, i, i + 2)) == meaning(s),
{
    let pair = s.subrange(i, i + 2);
    lemma_states(s, i);
    lemma_states(s, i + 1);
    lemma_wrap_reads(s, i, i + 2);
    assert(shaped(pair, true, 0));
    lemma_fold_negation(s, i);
}

/// The negation pass on one list without parentheses gives the shape in
/// which the negations are folded, and keeps the meaning.
pub proof fn lemma_fold_nots(s: Seq<Group>)
    requires
        alternates(s),
        plain(s),
        lists_shaped(s, true, 0),
    ensures
        shaped(fold_nots(s), true, 0),
        meaning(fold_nots(s)) == meaning(s),
    decreases s.len(),
{
    let i = position(s, "!"@);
    lemma_position(s, "!"@);
    if i < s.len() {
        lemma_first_negation(s);
        if s[i + 1] == Group::Token("!"@) {
            lemma_drop_step(s, i);
            lemma_fold_nots(cut(s, i));
        } else {
            lemma_negation_step(s, i);
            lemma_fold_nots(wrap(s, i, i + 2));
        }
    }
}

/// The negation pass, in depth, on a tree without parentheses gives the
/// shape in which the negations are folded, and keeps the meaning.
pub proof fn lemma_nots_in_depth(s: Seq<Group>)
    requires
        shaped(s, false, 0),
    ensures
        shaped(in_depth(Pass::Not, s), true, 0),
        meaning(in_depth(Pass::Not, s)) == meaning(s),
    decreases s,
{
    let mid = inner(Pass::Not, s);
    lemma_inner_classes(Pass::Not, s);
    assert forall|i: int| 0 <= i < mid.len() && (#[trigger] mid[i]) is List implies shaped(
        mid[i]->List_0,
        true,
        0,
    ) && meaning(mid[i]->List_0) == meaning(s[i]->List_0) by {
        lemma_nots_in_depth(s[i]->List_0);
    }
    lemma_meaning_alike(s, mid);
    lemma_fold_nots(mid);
}

/// The parenthesis pass on one list in which operands and operators take
/// turns and the parentheses match gives a tree without parentheses.
pub proof fn lemma_fold_parens(s: Seq<Group>)
    requires
        alternates(s),
        net_depth(s, 0) == 0,
        lists_shaped(s, false, 0),
    ensures
        shaped(fold_parens(s), false, 0),
    decreases s.len(),
{
    let close = position(s, ")"@);
    lemma_position(s, ")"@);
    let open = last_position(s.take(close), "("@);
    lemma_last_position(s.take(close), "("@);
    lemma_classes();
    assert forall|j: int| open < j < close implies s[j] != Group::Token("("@) by {
        assert(s.take(close)[j] == s[j]);
    }
    if 0 <= open < close < s.len() {
        let mid = s.subrange(open + 1, close);
        let list = Group::List(mid);
        let next = enclose(s, open, close);
        lemma_states(s, open);
        lemma_states(s, open + 1);
        lemma_states(s, close);
        lemma_states(s, close + 1);
        assert(s.take(close) =~= s.take(open + 1) + mid);
        lemma_run_split(s.take(open + 1), mid, Turn::Before);
        assert(next =~= s.take(open) + seq![list] + s.skip(close + 1));
        lemma_run_split(s.take(open) + seq![list], s.skip(close + 1), Turn::Before);
        lemma_run_split(s.take(open), seq![list], Turn::Before);
        lemma_run_one(list, Turn::Before);
        assert(shaped(mid, false, 0));
        lemma_enclose_keeps_depth(s, open, close);
        lemma_fold_parens(next);
    } else {
        if close < s.len() {
            assert(s =~= s.take(close) + s.skip(close));
            lemma_net_depth_split(s.take(close), s.skip(close), 0);
            lemma_net_depth_plain(s.take(close), 0);
            assert(net_depth(s.skip(close).drop_first(), -1) == -1);
        }
        lemma_net_depth_no_close(s, 0);
    }
}

/// Whether the token `t` stands in `g`, at any depth.
pub open spec fn holds(g: Group, t: Seq<char>) -> bool
    decreases g, 0nat,
{
    match g {
        Group::Token(u) => u == t,
        Group::List(l) => mentions(l, t),
    }
}

/// Whether the token `t` stands among `s`, at any depth.
pub open spec fn mentions(s: Seq<Group>, t: Seq<char>) -> bool
    decreases s, 1nat,
{
    exists|i: int| 0 <= i < s.len() && holds(#[trigger] s[i], t)
}

/// The groups of `next` are taken from `s`: each is a group of `s`, or a
/// list of groups of `s`.
pub open spec fn taken_from(next: Seq<Group>, s: Seq<Group>) -> bool {
    forall|j: int|
        0 <= j < next.len() ==> s.contains(#[trigger] next[j]) || (next[j] is List && forall|
            k: int,
        |
            0 <= k < next[j]->List_0.len() ==> s.contains(#[trigger] next[j]->List_0[k]))
}

/// What is taken from `s` mentions no token that `s` does not mention.
pub proof fn lemma_taken_mentions(next: Seq<Group>, s: Seq<Group>, t: Seq<char>)
    requires
        taken_from(next, s),
        mentions(next, t),
    ensures
        mentions(s, t),
{
    let j = choose|j: int| 0 <= j < next.len() && holds(#[trigger] next[j], t);
}

/// A pass on one list mentions no token that the list does not mention.
pub proof fn lemma_fold_mentions(pass: Pass, s: Seq<Group>, t: Seq<char>)
    requires
        mentions(fold(pass, s), t),
    ensures
        mentions(s, t),
    decreases s.len(),
{
    match pass {
        Pass::Braces => {
            let close = position(s, ")"@);
            let open = last_position(s.take(close), "("@);
            if 0 <= open < close < s.len() {
                let next = enclose(s, open, close);
                lemma_fold_mentions(pass, next, t);
                lemma_taken_mentions(next, s, t);
            }
        },
        Pass::Not => {
            let i = position(s, "!"@);
            if 0 <= i && i + 1 < s.len() {
                if s[i + 1] == Group::Token("!"@) {
                    let next = cut(s, i);
                    lemma_fold_mentions(pass, next, t);
                } else {
                    let next = wrap(s, i, i + 2);
                    lemma_fold_mentions(pass, next, t);
                    lemma_taken_mentions(next, s, t);
                }
            }
        },
        Pass::Infix(op) => {
            let i = position(s, op);
            if 1 <= i && i + 1 < s.len() {
                let next = wrap(s, i - 1, i + 2);
                lemma_fold_mentions(pass, next, t);
                lemma_taken_mentions(next, s, t);
            }
        },
    }
}

/// A pass, in depth, mentions no token that the tree does not mention.
pub proof fn lemma_in_depth_mentions(pass: Pass, s: Seq<Group>, t: Seq<char>)
    requires
        mentions(in_depth(pass, s), t),
    ensures
        mentions(s, t),
    decreases s,
{
    let mid = inner(pass, s);
    lemma_fold_mentions(pass, mid, t);
    let i = choose|i: int| 0 <= i < mid.len() && holds(#[trigger] mid[i], t);
    if s[i] is List {
        lemma_in_depth_mentions(pass, s[i]->List_0, t);
    }
}

/// A tree in which every negation and every connective is folded stands
/// for a formula, the one that it means; and the variables of that
/// formula are identifiers of the tree.
pub proof fn lemma_reduced(s: Seq<Group>, a: Seq<Seq<char>>)
    requires
        shaped(s, true, 4),
        forall|t: Seq<char>| is_identifier(t) && mentions(s, t) ==> a.contains(t),
    ensures
        convertible(Group::List(s)),
        defined(expression(Group::List(s)), a),
        expression(Group::List(s)) == meaning(s),
    decreases s,
{
    lemma_states(s, 0);
    lemma_states(s, 1);
    if s.len() > 1 {
        lemma_states(s, 2);
    }
    assert forall|i: int| 0 <= i < s.len() && class_of(#[trigger] s[i]) == Class::Operand implies {
        &&& convertible(s[i])
        &&& defined(expression(s[i]), a)
        &&& expression(s[i]) == meaning(seq![s[i]])
    } by {
        lemma_split_point_is(seq![s[i]], -1);
        if let Group::List(l) = s[i] {
            lemma_reduced(l, a);
        }
    }
    if s.len() == 1 {
        assert(s =~= seq![s[0]]);
    } else if s.len() == 2 {
        lemma_split_point_is(s, -1);
        assert(s.skip(1) =~= seq![s[1]]);
    } else {
        lemma_split_point_is(s, 1);
        assert(s.take(1) =~= seq![s[0]]);
        assert(s.skip(2) =~= seq![s[2]]);
    }
}

/// A tree of the shape is ready for the negation pass and for the pass
/// of any connective.
pub proof fn lemma_shaped_ready(pass: Pass, s: Seq<Group>, folded: bool, rank: nat)
    requires
        shaped(s, folded, rank),
        pass is Not || (pass is Infix && connective(pass->Infix_0) is Some),
    ensures
        ready_in_depth(pass, s),
    decreases s,
{
    lemma_classes();
    lemma_states(s, 0);
    lemma_states(s, 1);
    lemma_states(s, s.len() - 1);
    assert forall|i: int| 0 <= i < s.len() && (#[trigger] s[i]) is List implies ready_in_depth(
        pass,
        s[i]->List_0,
    ) by {
        lemma_shaped_ready(pass, s[i]->List_0, folded, rank);
    }
}

/// The reducer on the tokens of a formula: each pass finds the tree
/// ready for it, the reduced tree has every negation and every connective
/// folded, and it mentions no token that was not there.
pub proof fn lemma_pipeline(toks: Seq<Seq<char>>)
    requires
        alternates(token_groups(toks)),
        net_depth(token_groups(toks), 0) == 0,
    ensures
        ready_in_depth(Pass::Braces, token_groups(toks)),
        ready_in_depth(Pass::Not, grouped(toks)),
        ready_in_depth(Pass::Infix("&"@), negated(toks)),
        ready_in_depth(Pass::Infix("|"@), conjoined(toks)),
        ready_in_depth(Pass::Infix("=>"@), disjoined(toks)),
        ready_in_depth(Pass::Infix("<=>"@), implied(toks)),
        shaped(reduced(toks), true, 4),
        forall|t: Seq<char>| mentions(reduced(toks), t) ==> toks.contains(t),
        meaning(reduced(toks)) == meaning(grouped(toks)),
{
    let flat = token_groups(toks);
    lemma_classes();
    assert(inner(Pass::Braces, flat) =~= flat);
    lemma_fold_parens(flat);
    lemma_shaped_ready(Pass::Not, grouped(toks), false, 0);
    lemma_nots_in_depth(grouped(toks));
    lemma_shaped_ready(Pass::Infix("&"@), negated(toks), true, 0);
    lemma_infix_in_depth("&"@, negated(toks), 0);
    lemma_shaped_ready(Pass::Infix("|"@), conjoined(toks), true, 1);
    lemma_infix_in_depth("|"@, conjoined(toks), 1);
    lemma_shaped_ready(Pass::Infix("=>"@), disjoined(toks), true, 2);
    lemma_infix_in_depth("=>"@, disjoined(toks), 2);
    lemma_shaped_ready(Pass::Infix("<=>"@), implied(toks), true, 3);
    lemma_infix_in_depth("<=>"@, implied(toks), 3);
    assert forall|t: Seq<char>| mentions(reduced(toks), t) implies toks.contains(t) by {
        lemma_in_depth_mentions(Pass::Infix("<=>"@), implied(toks), t);
        lemma_in_depth_mentions(Pass::Infix("=>"@), disjoined(toks), t);
        lemma_in_depth_mentions(Pass::Infix("|"@), conjoined(toks), t);
        lemma_in_depth_mentions(Pass::Infix("&"@), negated(toks), t);
        lemma_in_depth_mentions(Pass::Not, grouped(toks), t);
        lemma_in_depth_mentions(Pass::Braces, flat, t);
    }
}

} // verus!
