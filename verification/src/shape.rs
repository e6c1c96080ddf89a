//! The shape of a formula, token by token: operands and operators take
//! turns. The lemmas here carry that shape from the tokens of a checked
//! text through the passes of the reducer.

use vstd::prelude::*;
use crate::expression::BinOpType;
use crate::group::Group;
use crate::parse::connective;
use crate::text::is_letter;

verus! {

/// What a group is to the grammar.
pub enum Class {
    /// An identifier, or a list.
    Operand,
    /// The sign `!`.
    Negation,
    /// One of `&`, `|`, `=>`, `<=>`.
    Connective,
    /// `(`.
    Open,
    /// `)`.
    Close,
    /// Any other token.
    Other,
}

/// A token of letters, at least one.
pub open spec fn is_identifier(t: Seq<char>) -> bool {
    t.len() > 0 && forall|i: int| 0 <= i < t.len() ==> is_letter(#[trigger] t[i])
}

/// The class of a group.
pub open spec fn class_of(g: Group) -> Class {
    match g {
        Group::List(_) => Class::Operand,
        Group::Token(t) => if t == "!"@ {
            Class::Negation
        } else if connective(t) is Some {
            Class::Connective
        } else if t == "("@ {
            Class::Open
        } else if t == ")"@ {
            Class::Close
        } else if is_identifier(t) {
            Class::Operand
        } else {
            Class::Other
        },
    }
}

/// Where a reader stands between two groups: before an operand, behind
/// one, or stuck at a group that could not follow.
pub enum Turn {
    Before,
    Behind,
    Stuck,
}

/// The reader's state behind a group of class `c`.
pub open spec fn turn(state: Turn, c: Class) -> Turn {
    match state {
        Turn::Before => match c {
            Class::Operand => Turn::Behind,
            Class::Negation | Class::Open => Turn::Before,
            _ => Turn::Stuck,
        },
        Turn::Behind => match c {
            Class::Connective => Turn::Before,
            Class::Close => Turn::Behind,
            _ => Turn::Stuck,
        },
        Turn::Stuck => Turn::Stuck,
    }
}

/// The reader's state behind the groups `s`, read from `state` on.
pub open spec fn run(s: Seq<Group>, state: Turn) -> Turn
    decreases s.len(),
{
    if s.len() == 0 {
        state
    } else {
        run(s.drop_first(), turn(state, class_of(s[0])))
    }
}

/// Operands and operators take turns in `s`: read from before an operand,
/// it ends behind one.
pub open spec fn alternates(s: Seq<Group>) -> bool {
    run(s, Turn::Before) == Turn::Behind
}

/// The spellings of the operators and parentheses, character by
/// character.
pub proof fn lemma_spellings()
    ensures
        "!"@ == seq!['!'],
        "&"@ == seq!['&'],
        "|"@ == seq!['|'],
        "=>"@ == seq!['=', '>'],
        "<=>"@ == seq!['<', '=', '>'],
        "("@ == seq!['('],
        ")"@ == seq![')'],
{
    reveal_strlit("!");
    reveal_strlit("&");
    reveal_strlit("|");
    reveal_strlit("=>");
    reveal_strlit("<=>");
    reveal_strlit("(");
    reveal_strlit(")");
}

/// The classes of the operators and parentheses.
pub proof fn lemma_classes()
    ensures
        class_of(Group::Token("!"@)) == Class::Negation,
        class_of(Group::Token("&"@)) == Class::Connective,
        class_of(Group::Token("|"@)) == Class::Connective,
        class_of(Group::Token("=>"@)) == Class::Connective,
        class_of(Group::Token("<=>"@)) == Class::Connective,
        class_of(Group::Token("("@)) == Class::Open,
        class_of(Group::Token(")"@)) == Class::Close,
        connective("&"@) == Some(BinOpType::And),
        connective("|"@) == Some(BinOpType::Or),
        connective("=>"@) == Some(BinOpType::Implies),
        connective("<=>"@) == Some(BinOpType::Iff),
{
    lemma_spellings();
    assert("&"@[0] == '&' && "|"@[0] == '|' && "!"@[0] == '!' && "("@[0] == '(' && ")"@[0] == ')');
}

/// An identifier is an operand.
pub proof fn lemma_identifier_class(t: Seq<char>)
    requires
        is_identifier(t),
    ensures
        class_of(Group::Token(t)) == Class::Operand,
{
    lemma_spellings();
    assert(is_letter(t[0]));
}

/// A reader that is stuck stays stuck.
pub proof fn lemma_run_stuck(s: Seq<Group>)
    ensures
        run(s, Turn::Stuck) == Turn::Stuck,
    decreases s.len(),
{
    if s.len() != 0 {
        lemma_run_stuck(s.drop_first());
    }
}

/// Reading `a + b` is reading `a`, then `b`.
pub proof fn lemma_run_split(a: Seq<Group>, b: Seq<Group>, state: Turn)
    ensures
        run(a + b, state) == run(b, run(a, state)),
    decreases a.len(),
{
    if a.len() != 0 {
        assert((a + b).drop_first() =~= a.drop_first() + b);
        lemma_run_split(a.drop_first(), b, turn(state, class_of(a[0])));
    }
}

/// Reading one group is one turn.
pub proof fn lemma_run_one(g: Group, state: Turn)
    ensures
        run(seq![g], state) == turn(state, class_of(g)),
{
    assert(run(seq![g].drop_first(), turn(state, class_of(g))) == turn(state, class_of(g)));
}

/// Two lists whose groups have the same classes are read alike.
pub proof fn lemma_run_alike(a: Seq<Group>, b: Seq<Group>, state: Turn)
    requires
        a.len() == b.len(),
        forall|i: int| 0 <= i < a.len() ==> class_of(a[i]) == class_of(b[i]),
    ensures
        run(a, state) == run(b, state),
    decreases a.len(),
{
    if a.len() != 0 {
        lemma_run_alike(a.drop_first(), b.drop_first(), turn(state, class_of(a[0])));
    }
}

/// The reader's state before the group at position `k` of `s`.
pub open spec fn state_at(s: Seq<Group>, k: int) -> Turn {
    run(s.take(k), Turn::Before)
}

/// Where the whole of `s` can be read, so can each part of it from the
/// left, and the state behind a group is one turn from the state before
/// it.
pub proof fn lemma_states(s: Seq<Group>, k: int)
    requires
        0 <= k <= s.len(),
        run(s, Turn::Before) != Turn::Stuck,
    ensures
        state_at(s, k) != Turn::Stuck,
        run(s, Turn::Before) == run(s.skip(k), state_at(s, k)),
        k < s.len() ==> state_at(s, k + 1) == turn(state_at(s, k), class_of(s[k])),
{
    assert(s =~= s.take(k) + s.skip(k));
    lemma_run_split(s.take(k), s.skip(k), Turn::Before);
    if state_at(s, k) == Turn::Stuck {
        lemma_run_stuck(s.skip(k));
    }
    if k < s.len() {
        assert(s.take(k + 1) =~= s.take(k) + seq![s[k]]);
        lemma_run_split(s.take(k), seq![s[k]], Turn::Before);
        lemma_run_one(s[k], state_at(s, k));
    }
}

} // verus!
