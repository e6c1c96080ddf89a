//! The reducer's passes: each folds flat runs of groups into nested ones,
//! in every list of the tree, the inner lists first.

use vstd::prelude::*;
use crate::group::{
    downgrade, find, group_of, groups_of, last_position, lemma_group_of_list, lemma_last_position,
    lemma_last_position_is, lemma_position, lemma_position_is, position, wrap, Group, Parsing,
};

verus! {

/// The passes of the reducer.
pub enum Pass {
    /// Folds what stands between a pair of parentheses.
    Braces,
    /// Folds a negation sign with what it negates.
    Not,
    /// Folds a binary operator, given by its spelling, with its operands.
    Infix(Seq<char>),
}

/// The binary operator pass on one list: as long as the operator occurs,
/// its first occurrence is folded with its two neighbours into one list.
pub open spec fn fold_infix(op: Seq<char>, s: Seq<Group>) -> Seq<Group>
    decreases s.len(),
{
    let i = position(s, op);
    if 1 <= i && i + 1 < s.len() {
        fold_infix(op, wrap(s, i - 1, i + 2))
    } else {
        s
    }
}

/// `s` without the two groups at `i` and behind it.
pub open spec fn cut(s: Seq<Group>, i: int) -> Seq<Group> {
    s.take(i) + s.skip(i + 2)
}

/// The negation pass on one list: as long as a negation sign occurs, the
/// first one is dropped together with a second one that follows it
/// directly, or else folded with its right neighbour into one list.
pub open spec fn fold_nots(s: Seq<Group>) -> Seq<Group>
    decreases s.len(),
{
    let i = position(s, "!"@);
    if 0 <= i && i + 1 < s.len() {
        if s[i + 1] == Group::Token("!"@) {
            fold_nots(cut(s, i))
        } else {
            fold_nots(wrap(s, i, i + 2))
        }
    } else {
        s
    }
}

/// `s` with the parentheses at `open` and `close` dropped and what stands
/// between them folded into one list.
pub open spec fn enclose(s: Seq<Group>, open: int, close: int) -> Seq<Group> {
    s.take(open).push(Group::List(s.subrange(open + 1, close))) + s.skip(close + 1)
}

/// The parenthesis pass on one list: as long as an opening parenthesis
/// stands before the first closing one, the last such and that closing one
/// are dropped and what stands between them is folded into one list.
pub open spec fn fold_parens(s: Seq<Group>) -> Seq<Group>
    decreases s.len(),
{
    let close = position(s, ")"@);
    let open = last_position(s.take(close), "("@);
    if 0 <= open < close < s.len() {
        fold_parens(enclose(s, open, close))
    } else {
        s
    }
}

/// One pass on one list.
pub open spec fn fold(pass: Pass, s: Seq<Group>) -> Seq<Group> {
    match pass {
        Pass::Braces => fold_parens(s),
        Pass::Not => fold_nots(s),
        Pass::Infix(op) => fold_infix(op, s),
    }
}

/// What a group adds to the number of open parentheses.
pub open spec fn paren_delta(g: Group) -> int {
    if g == Group::Token("("@) {
        1
    } else if g == Group::Token(")"@) {
        -1
    } else {
        0
    }
}

/// The number of open parentheses behind `s`, where `d` are open before
/// it. A negative number tells that a closing parenthesis had no partner;
/// nothing is counted from there on.
pub open spec fn net_depth(s: Seq<Group>, d: int) -> int
    decreases s.len(),
{
    if d < 0 || s.len() == 0 {
        d
    } else {
        net_depth(s.drop_first(), d + paren_delta(s[0]))
    }
}

/// One pass on a group: a token stays, a list is passed in depth.
pub open spec fn descend(pass: Pass, g: Group) -> Group
    decreases g, 0nat,
{
    match g {
        Group::Token(_) => g,
        Group::List(l) => Group::List(in_depth(pass, l)),
    }
}

/// The groups of `s`, each passed in depth.
pub open spec fn inner(pass: Pass, s: Seq<Group>) -> Seq<Group>
    decreases s, 0nat,
{
    Seq::new(
        s.len(),
        |i: int|
            if 0 <= i < s.len() {
                descend(pass, s[i])
            } else {
                arbitrary()
            },
    )
}

/// One pass on a list and on every list below it, the inner ones first.
pub open spec fn in_depth(pass: Pass, s: Seq<Group>) -> Seq<Group>
    decreases s, 1nat,
{
    fold(pass, inner(pass, s))
}

/// What a pass needs of one list: for the parentheses, that they match;
/// for the negations, that no sign stands last; for a binary operator,
/// that it stands neither first nor last.
pub open spec fn ready(pass: Pass, s: Seq<Group>) -> bool {
    match pass {
        Pass::Braces => net_depth(s, 0) == 0,
        Pass::Not => s.len() == 0 || s.last() != Group::Token("!"@),
        Pass::Infix(op) => s.len() == 0 || (s[0] != Group::Token(op) && s.last() != Group::Token(
            op,
        )),
    }
}

/// What a pass needs of a list and of every list below it.
pub open spec fn ready_in_depth(pass: Pass, s: Seq<Group>) -> bool
    decreases s,
{
    &&& ready(pass, s)
    &&& forall|i: int|
        0 <= i < s.len() && (#[trigger] s[i]) is List ==> ready_in_depth(pass, s[i]->List_0)
}

/// The two parentheses differ.
pub proof fn lemma_parentheses()
    ensures
        "("@ == seq!['('],
        ")"@ == seq![')'],
        "("@ != ")"@,
{
    reveal_strlit("(");
    reveal_strlit(")");
    assert("("@[0] != ")"@[0]);
}

/// Counting through `a + b` is counting through `a`, then through `b`.
pub proof fn lemma_net_depth_split(a: Seq<Group>, b: Seq<Group>, d: int)
    ensures
        net_depth(a + b, d) == net_depth(b, net_depth(a, d)),
    decreases a.len(),
{
    if d >= 0 && a.len() != 0 {
        assert((a + b).drop_first() =~= a.drop_first() + b);
        lemma_net_depth_split(a.drop_first(), b, d + paren_delta(a[0]));
    }
}

/// Without a closing parenthesis the count does not fall, and it rises
/// where there is an opening one.
pub proof fn lemma_net_depth_no_close(s: Seq<Group>, d: int)
    requires
        0 <= d,
        forall|j: int| 0 <= j < s.len() ==> s[j] != Group::Token(")"@),
    ensures
        net_depth(s, d) >= d,
        (exists|j: int| 0 <= j < s.len() && s[j] == Group::Token("("@)) ==> net_depth(s, d) > d,
    decreases s.len(),
{
    if s.len() != 0 {
        let rest = s.drop_first();
        lemma_net_depth_no_close(rest, d + paren_delta(s[0]));
        if exists|j: int| 0 <= j < s.len() && s[j] == Group::Token("("@) {
            let j = choose|j: int| 0 <= j < s.len() && s[j] == Group::Token("("@);
            if j > 0 {
                assert(rest[j - 1] == s[j]);
            }
        }
    }
}

/// Two lists with the same parentheses at the same places count alike.
pub proof fn lemma_net_depth_alike(a: Seq<Group>, b: Seq<Group>, d: int)
    requires
        a.len() == b.len(),
        forall|j: int| 0 <= j < a.len() ==> paren_delta(a[j]) == paren_delta(b[j]),
    ensures
        net_depth(a, d) == net_depth(b, d),
    decreases a.len(),
{
    if d >= 0 && a.len() != 0 {
        lemma_net_depth_alike(a.drop_first(), b.drop_first(), d + paren_delta(a[0]));
    }
}

/// Folding an innermost pair of parentheses keeps the count.
pub proof fn lemma_enclose_keeps_depth(s: Seq<Group>, open: int, close: int)
    requires
        0 <= open < close < s.len(),
        s[open] == Group::Token("("@),
        s[close] == Group::Token(")"@),
        forall|j: int| 0 <= j < close ==> s[j] != Group::Token(")"@),
        forall|j: int| open < j < close ==> s[j] != Group::Token("("@),
    ensures
        net_depth(enclose(s, open, close), 0) == net_depth(s, 0),
{
    let pre = s.take(open);
    let mid = s.subrange(open + 1, close);
    let post = s.skip(close + 1);
    let list = Group::List(mid);
    let old_head = pre + seq![s[open]] + mid + seq![s[close]];
    let new_head = pre.push(list);
    assert(s =~= old_head + post);
    lemma_net_depth_split(old_head, post, 0);
    lemma_net_depth_split(new_head, post, 0);
    let d = net_depth(pre, 0);
    lemma_net_depth_no_close(pre, 0);
    lemma_net_depth_split(pre, seq![list], 0);
    assert(new_head =~= pre + seq![list]);
    assert(seq![list].drop_first() =~= Seq::<Group>::empty());
    assert(net_depth(seq![list], d) == d) by {
        assert(net_depth(seq![list].drop_first(), d) == d);
    }
    lemma_net_depth_split(pre + seq![s[open]] + mid, seq![s[close]], 0);
    lemma_net_depth_split(pre + seq![s[open]], mid, 0);
    lemma_net_depth_split(pre, seq![s[open]], 0);
    assert(net_depth(seq![s[open]], d) == d + 1) by {
        assert(net_depth(seq![s[open]].drop_first(), d + 1) == d + 1);
    }
    lemma_net_depth_plain(mid, d + 1);
    assert(seq![s[close]].drop_first() =~= Seq::<Group>::empty());
}

/// Without parentheses the count stays.
pub proof fn lemma_net_depth_plain(s: Seq<Group>, d: int)
    requires
        forall|j: int| 0 <= j < s.len() ==> paren_delta(s[j]) == 0,
    ensures
        net_depth(s, d) == d,
    decreases s.len(),
{
    if d >= 0 && s.len() != 0 {
        lemma_net_depth_plain(s.drop_first(), d);
    }
}

/// Folds every occurrence of the binary operator `op` with its two
/// neighbours, from the left, in every list of the tree.
pub fn downgrade_infix(op: &str, parsing: &mut Vec<Parsing>)
    requires
        ready_in_depth(Pass::Infix(op@), groups_of(old(parsing)@)),
    ensures
        groups_of(final(parsing)@) == in_depth(Pass::Infix(op@), groups_of(old(parsing)@)),
    decreases *old(parsing),
{
    let ghost pass = Pass::Infix(op@);
    let ghost before = groups_of(parsing@);
    let mut k: usize = 0;
    while k < parsing.len()
        invariant
            k <= parsing.len() == old(parsing).len(),
            before == groups_of(old(parsing)@),
            pass == Pass::Infix(op@),
            ready_in_depth(pass, before),
            forall|j: int| k <= j < parsing.len() ==> parsing[j] == old(parsing)[j],
            forall|j: int| 0 <= j < k ==> group_of(#[trigger] parsing[j]) == descend(pass, before[j]),
        decreases parsing.len() - k,
    {
        match &mut parsing[k] {
            Parsing::SubList(l) => {
                proof {
                    lemma_group_of_list(*l);
                }
                downgrade_infix(op, l);
                proof {
                    lemma_group_of_list(*l);
                }
            },
            _ => {},
        }
        k += 1;
    }
    assert(groups_of(parsing@) =~= inner(pass, before));
    loop
        invariant
            fold_infix(op@, groups_of(parsing@)) == in_depth(Pass::Infix(op@), before),
            ready(Pass::Infix(op@), groups_of(parsing@)),
        ensures
            groups_of(parsing@) == in_depth(Pass::Infix(op@), before),
        decreases parsing.len(),
    {
        match find(parsing, op) {
            Some(index) => {
                let ghost cur = groups_of(parsing@);
                proof {
                    lemma_position(cur, op@);
                }
                downgrade(index - 1, index + 2, parsing);
                proof {
                    let next = groups_of(parsing@);
                    assert(next.last() == if index + 2 == cur.len() {
                        next[index - 1]
                    } else {
                        cur.last()
                    });
                    assert(next[0] == if index == 1 {
                        next[index - 1]
                    } else {
                        cur[0]
                    });
                }
            },
            None => {
                break ;
            },
        }
    }
}

/// Folds every negation sign with its right neighbour, from the left, in
/// every list of the tree. Two signs in a row cancel.
pub fn downgrade_not(parsing: &mut Vec<Parsing>)
    requires
        ready_in_depth(Pass::Not, groups_of(old(parsing)@)),
    ensures
        groups_of(final(parsing)@) == in_depth(Pass::Not, groups_of(old(parsing)@)),
    decreases *old(parsing),
{
    let ghost before = groups_of(parsing@);
    let mut k: usize = 0;
    while k < parsing.len()
        invariant
            k <= parsing.len() == old(parsing).len(),
            before == groups_of(old(parsing)@),
            ready_in_depth(Pass::Not, before),
            forall|j: int| k <= j < parsing.len() ==> parsing[j] == old(parsing)[j],
            forall|j: int|
                0 <= j < k ==> group_of(#[trigger] parsing[j]) == descend(Pass::Not, before[j]),
        decreases parsing.len() - k,
    {
        match &mut parsing[k] {
            Parsing::SubList(l) => {
                proof {
                    lemma_group_of_list(*l);
                }
                downgrade_not(l);
                proof {
                    lemma_group_of_list(*l);
                }
            },
            _ => {},
        }
        k += 1;
    }
    assert(groups_of(parsing@) =~= inner(Pass::Not, before));
    loop
        invariant
            fold_nots(groups_of(parsing@)) == in_depth(Pass::Not, before),
            ready(Pass::Not, groups_of(parsing@)),
        ensures
            groups_of(parsing@) == in_depth(Pass::Not, before),
        decreases parsing.len(),
    {
        match find(parsing, "!") {
            Some(index) => {
                let ghost cur = groups_of(parsing@);
                proof {
                    lemma_position(cur, "!"@);
                }
                if parsing[index + 1].string_eq("!") {
                    parsing.remove(index);
                    parsing.remove(index);
                    assert(groups_of(parsing@) =~= cut(cur, index as int));
                } else {
                    downgrade(index, index + 2, parsing);
                }
                proof {
                    let next = groups_of(parsing@);
                    assert(next.len() > 0 ==> next.last() == if index + 2 == cur.len() {
                        next[index as int]
                    } else {
                        cur.last()
                    });
                }
            },
            None => {
                break ;
            },
        }
    }
}

/// The innermost pair of parentheses among `parsing`: the first closing
/// one, and the last opening one before it.
fn innermost(parsing: &Vec<Parsing>) -> (pair: (Option<usize>, Option<usize>))
    ensures
        ({
            let s = groups_of(parsing@);
            let close = position(s, ")"@);
            let open = last_position(s.take(close), "("@);
            &&& match pair.1 {
                Some(c) => c == close < s.len(),
                None => close == s.len(),
            }
            &&& match pair.0 {
                Some(o) => o == open && 0 <= open < close,
                None => open == -1,
            }
        }),
{
    let ghost s = groups_of(parsing@);
    let mut maybe_open: Option<usize> = None;
    let mut maybe_close: Option<usize> = None;
    let mut i: usize = 0;
    while i < parsing.len() && maybe_close.is_none()
        invariant
            i <= parsing.len(),
            s == groups_of(parsing@),
            match maybe_close {
                Some(c) => c + 1 == i && s[c as int] == Group::Token(")"@),
                None => true,
            },
            forall|j: int|
                0 <= j < i && maybe_close != Some(j as usize) ==> s[j] != Group::Token(")"@),
            match maybe_open {
                Some(o) => o < i && s[o as int] == Group::Token("("@) && forall|j: int|
                    o < j < i ==> s[j] != Group::Token("("@),
                None => forall|j: int| 0 <= j < i ==> s[j] != Group::Token("("@),
            },
        decreases parsing.len() - i,
    {
        proof {
            lemma_parentheses();
        }
        if parsing[i].string_eq("(") {
            maybe_open = Some(i);
        } else if parsing[i].string_eq(")") {
            maybe_close = Some(i);
        }
        i += 1;
    }
    proof {
        lemma_parentheses();
        let close: int = match maybe_close {
            Some(c) => c as int,
            None => s.len() as int,
        };
        lemma_position_is(s, ")"@, close);
        let open: int = match maybe_open {
            Some(o) => o as int,
            None => -1,
        };
        lemma_last_position_is(s.take(close), "("@, open);
    }
    (maybe_open, maybe_close)
}

/// Folds what stands between each pair of parentheses into one list and
/// drops the parentheses, the innermost pair first, in every list of the
/// tree.
pub fn downgrade_braces(parsing: &mut Vec<Parsing>)
    requires
        ready_in_depth(Pass::Braces, groups_of(old(parsing)@)),
    ensures
        groups_of(final(parsing)@) == in_depth(Pass::Braces, groups_of(old(parsing)@)),
    decreases *old(parsing),
{
    let ghost before = groups_of(parsing@);
    let mut k: usize = 0;
    while k < parsing.len()
        invariant
            k <= parsing.len() == old(parsing).len(),
            before == groups_of(old(parsing)@),
            ready_in_depth(Pass::Braces, before),
            forall|j: int| k <= j < parsing.len() ==> parsing[j] == old(parsing)[j],
            forall|j: int|
                0 <= j < k ==> group_of(#[trigger] parsing[j]) == descend(Pass::Braces, before[j]),
        decreases parsing.len() - k,
    {
        match &mut parsing[k] {
            Parsing::SubList(l) => {
                proof {
                    lemma_group_of_list(*l);
                }
                downgrade_braces(l);
                proof {
                    lemma_group_of_list(*l);
                }
            },
            _ => {},
        }
        k += 1;
    }
    proof {
        assert(groups_of(parsing@) =~= inner(Pass::Braces, before));
        lemma_net_depth_alike(before, inner(Pass::Braces, before), 0);
    }
    loop
        invariant
            fold_parens(groups_of(parsing@)) == in_depth(Pass::Braces, before),
            ready(Pass::Braces, groups_of(parsing@)),
        ensures
            groups_of(parsing@) == in_depth(Pass::Braces, before),
        decreases parsing.len(),
    {
        let ghost cur = groups_of(parsing@);
        let (maybe_open, maybe_close) = innermost(parsing);
        if maybe_open.is_none() {
            break ;
        }
        proof {
            lemma_position(cur, ")"@);
            let close = position(cur, ")"@);
            lemma_last_position(cur.take(close), "("@);
            if close == cur.len() {
                lemma_net_depth_no_close(cur, 0);
            }
        }
        let first = maybe_open.unwrap();
        let last = maybe_close.unwrap();
        downgrade(first + 1, last, parsing);
        let ghost wrapped = groups_of(parsing@);
        parsing.remove(first);
        let ghost opened = groups_of(parsing@);
        parsing.remove(first + 1);
        proof {
            assert(opened =~= wrapped.remove(first as int));
            assert(groups_of(parsing@) =~= opened.remove(first + 1));
            assert(groups_of(parsing@) =~= enclose(cur, first as int, last as int));
            assert forall|j: int| first < j < last implies cur[j] != Group::Token("("@) by {
                assert(cur.take(last as int)[j] == cur[j]);
            }
            lemma_enclose_keeps_depth(cur, first as int, last as int);
        }
    }
}

} // verus!
