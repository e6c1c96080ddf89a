//! What a tree of groups means as a formula, told by precedence: a list
//! splits at its loosest connective, the last one where there are
//! several.

use vstd::prelude::*;
use crate::expression::Formula;
use crate::group::{wrap, Group};
use crate::parse::connective;
use crate::reduce::cut;
use crate::shape::{alternates, class_of, lemma_states, state_at, Class, Turn};
use crate::stages::{plain, positive, precedence};

verus! {

/// The rank of a group as a connective; -1 for a group that is none.
pub open spec fn rank_of(g: Group) -> int {
    if class_of(g) == Class::Connective {
        precedence(connective(g->Token_0)->0) as int
    } else {
        -1
    }
}

/// The position at which a list splits: that of its loosest connective,
/// the last one where there are several; -1 where it holds no connective.
pub open spec fn split_point(s: Seq<Group>) -> int
    decreases s.len(),
{
    if s.len() == 0 {
        -1
    } else {
        let before = split_point(s.drop_last());
        let rank = rank_of(s.last());
        if rank >= 0 && (before < 0 || rank >= rank_of(s[before])) {
            s.len() - 1
        } else {
            before
        }
    }
}

/// The formula that a list of groups means.
///
/// A list with a connective joins what stands before its split point with
/// what stands behind it. In a list without one, a negation sign negates
/// what follows it, and two signs in a row cancel; a single token is a
/// variable, a single list means what its groups mean.
pub open spec fn meaning(s: Seq<Group>) -> Formula
    decreases s,
{
    let p = split_point(s);
    if 0 <= p < s.len() {
        Formula::BinOp(
            connective(s[p]->Token_0)->0,
            Box::new(meaning(s.take(p))),
            Box::new(meaning(s.skip(p + 1))),
        )
    } else if s.len() >= 2 && s[0] == Group::Token("!"@) {
        if s[1] == Group::Token("!"@) {
            meaning(s.skip(2))
        } else {
            Formula::Not(Box::new(meaning(s.skip(1))))
        }
    } else if s.len() == 1 {
        match s[0] {
            Group::Token(t) => Formula::Var(t),
            Group::List(l) => meaning(l),
        }
    } else {
        arbitrary()
    }
}

/// The split point is the last of the loosest connectives.
pub proof fn lemma_split_point(s: Seq<Group>)
    ensures
        -1 <= split_point(s) < s.len(),
        forall|j: int| 0 <= j < s.len() && split_point(s) < 0 ==> rank_of(#[trigger] s[j]) < 0,
        split_point(s) >= 0 ==> rank_of(s[split_point(s)]) >= 0,
        forall|j: int|
            0 <= j < s.len() && split_point(s) >= 0 ==> rank_of(#[trigger] s[j]) <= rank_of(
                s[split_point(s)],
            ),
        forall|j: int|
            0 <= split_point(s) < j < s.len() ==> rank_of(#[trigger] s[j]) < rank_of(
                s[split_point(s)],
            ),
    decreases s.len(),
{
    if s.len() != 0 {
        let rest = s.drop_last();
        lemma_split_point(rest);
        let p = split_point(s);
        assert forall|j: int| 0 <= j < s.len() implies (p < 0 ==> rank_of(#[trigger] s[j]) < 0) && (p
            >= 0 ==> rank_of(s[j]) <= rank_of(s[p])) && (p < j ==> p >= 0 ==> rank_of(s[j])
            < rank_of(s[p])) by {
            if j < s.len() - 1 {
                assert(s[j] == rest[j]);
            }
        }
    }
}

/// The last of the loosest connectives is the split point.
pub proof fn lemma_split_point_is(s: Seq<Group>, p: int)
    requires
        -1 <= p < s.len(),
        forall|j: int| 0 <= j < s.len() && p < 0 ==> rank_of(#[trigger] s[j]) < 0,
        p >= 0 ==> rank_of(s[p]) >= 0,
        forall|j: int| 0 <= j < s.len() && p >= 0 ==> rank_of(#[trigger] s[j]) <= rank_of(s[p]),
        forall|j: int| 0 <= p < j < s.len() ==> rank_of(#[trigger] s[j]) < rank_of(s[p]),
    ensures
        split_point(s) == p,
{
    lemma_split_point(s);
}

/// Two lists are alike where they hold the same tokens at the same
/// places, and lists that mean the same at the others.
pub open spec fn alike(a: Seq<Group>, b: Seq<Group>) -> bool {
    &&& a.len() == b.len()
    &&& forall|i: int|
        0 <= i < a.len() ==> match #[trigger] a[i] {
            Group::Token(_) => b[i] == a[i],
            Group::List(l) => b[i] is List && meaning(b[i]->List_0) == meaning(l),
        }
}

/// Lists that are alike split at the same point.
pub proof fn lemma_split_alike(a: Seq<Group>, b: Seq<Group>)
    requires
        alike(a, b),
    ensures
        split_point(a) == split_point(b),
    decreases a.len(),
{
    if a.len() != 0 {
        lemma_split_alike(a.drop_last(), b.drop_last());
        lemma_split_point(a.drop_last());
    }
}

/// A part of two lists that are alike is alike.
pub proof fn lemma_alike_part(a: Seq<Group>, b: Seq<Group>, lo: int, hi: int)
    requires
        alike(a, b),
        0 <= lo <= hi <= a.len(),
    ensures
        alike(a.subrange(lo, hi), b.subrange(lo, hi)),
{
}

/// Lists that are alike mean the same.
pub proof fn lemma_meaning_alike(a: Seq<Group>, b: Seq<Group>)
    requires
        alike(a, b),
    ensures
        meaning(a) == meaning(b),
    decreases a.len(),
{
    lemma_split_alike(a, b);
    lemma_split_point(a);
    let p = split_point(a);
    let n = a.len() as int;
    if 0 <= p < a.len() {
        lemma_alike_part(a, b, 0, p);
        lemma_meaning_alike(a.take(p), b.take(p));
        lemma_meaning_alike(a.skip(p + 1), b.skip(p + 1));
    } else if a.len() >= 2 && a[0] == Group::Token("!"@) {
        lemma_alike_part(a, b, 1, n);
        lemma_alike_part(a, b, 2, n);
        lemma_meaning_alike(a.skip(1), b.skip(1));
        lemma_meaning_alike(a.skip(2), b.skip(2));
    }
}

/// A list of operands with a connective between each two of them.
pub open spec fn pure(s: Seq<Group>) -> bool {
    &&& s.len() % 2 == 1
    &&& forall|k: int|
        0 <= k < s.len() ==> class_of(#[trigger] s[k]) == if k % 2 == 0 {
            Class::Operand
        } else {
            Class::Connective
        }
}

/// Where a group of `s` outside the folded part comes to stand in
/// `wrap(s, lo, hi)`.
pub open spec fn moved(lo: int, hi: int, p: int) -> int {
    if p < lo {
        p
    } else {
        p - (hi - lo) + 1
    }
}

/// The parts of `wrap(s, lo, hi)` before and behind a group that is not
/// folded are those of `s`, one of them with the fold.
pub proof fn lemma_wrap_parts(s: Seq<Group>, lo: int, hi: int, p: int)
    requires
        0 <= lo <= hi <= s.len(),
        0 <= p < s.len(),
        p < lo || p >= hi,
    ensures
        0 <= moved(lo, hi, p) < wrap(s, lo, hi).len(),
        wrap(s, lo, hi)[moved(lo, hi, p)] == s[p],
        p < lo ==> wrap(s, lo, hi).take(moved(lo, hi, p)) == s.take(p) && wrap(s, lo, hi).skip(
            moved(lo, hi, p) + 1,
        ) == wrap(s.skip(p + 1), lo - p - 1, hi - p - 1),
        p >= hi ==> wrap(s, lo, hi).take(moved(lo, hi, p)) == wrap(s.take(p), lo, hi) && wrap(
            s,
            lo,
            hi,
        ).skip(moved(lo, hi, p) + 1) == s.skip(p + 1),
{
    if p < lo {
        let tail = s.skip(p + 1);
        assert(tail.subrange(lo - p - 1, hi - p - 1) =~= s.subrange(lo, hi));
    } else {
        let head = s.take(p);
        assert(head.subrange(lo, hi) =~= s.subrange(lo, hi));
    }
}

/// A fold that leaves the split point out moves it with the groups.
pub proof fn lemma_wrap_split(s: Seq<Group>, lo: int, hi: int)
    requires
        0 <= lo <= hi <= s.len(),
        0 <= split_point(s),
        split_point(s) < lo || split_point(s) >= hi,
    ensures
        split_point(wrap(s, lo, hi)) == moved(lo, hi, split_point(s)),
{
    let next = wrap(s, lo, hi);
    let p = split_point(s);
    let q = moved(lo, hi, p);
    lemma_split_point(s);
    lemma_split_point_is(next, q);
}

/// Without negation signs and parentheses, a list in which operands and
/// operators take turns is pure.
pub proof fn lemma_pure(s: Seq<Group>)
    requires
        alternates(s),
        plain(s),
        positive(s),
    ensures
        pure(s),
{
    assert(s.take(s.len() as int) =~= s);
    lemma_pure_upto(s, s.len() as int);
}

/// Up to position `k`, a list as in `lemma_pure` is read in turns.
pub proof fn lemma_pure_upto(s: Seq<Group>, k: int)
    requires
        alternates(s),
        plain(s),
        positive(s),
        0 <= k <= s.len(),
    ensures
        state_at(s, k) == if k % 2 == 0 {
            Turn::Before
        } else {
            Turn::Behind
        },
        forall|j: int|
            0 <= j < k ==> class_of(#[trigger] s[j]) == if j % 2 == 0 {
                Class::Operand
            } else {
                Class::Connective
            },
    decreases k,
{
    if k != 0 {
        lemma_pure_upto(s, k - 1);
        lemma_states(s, k - 1);
        lemma_states(s, k);
    }
}

/// Folding a connective with its operands keeps the meaning, where the
/// connective before it is looser and the one behind it is not tighter.
pub proof fn lemma_fold_connective(s: Seq<Group>, i: int)
    requires
        pure(s),
        1 <= i < s.len() - 1,
        i % 2 == 1,
        i >= 3 ==> rank_of(s[i - 2]) > rank_of(s[i]),
        i + 2 < s.len() ==> rank_of(s[i + 2]) >= rank_of(s[i]),
    ensures
        meaning(wrap(s, i - 1, i + 2)) == meaning(s),
    decreases s.len(),
{
    let next = wrap(s, i - 1, i + 2);
    lemma_split_point(s);
    let p = split_point(s);
    if p == i {
        assert(s.subrange(i - 1, i + 2) =~= s);
        lemma_split_point_is(next, -1);
    } else {
        lemma_wrap_split(s, i - 1, i + 2);
        lemma_wrap_parts(s, i - 1, i + 2, p);
        if p > i {
            lemma_fold_connective(s.take(p), i);
        } else {
            let tail = s.skip(p + 1);
            let at = i - p - 1;
            lemma_fold_connective(tail, at);
        }
    }
}

/// The parts of `cut(s, i)` before and behind a group that stays are
/// those of `s`, one of them with the cut; and a cut that leaves out no
/// connective moves the split point with the groups.
pub proof fn lemma_cut_parts(s: Seq<Group>, i: int)
    requires
        0 <= i < s.len() - 1,
        rank_of(s[i]) < 0,
        rank_of(s[i + 1]) < 0,
        0 <= split_point(s),
    ensures
        split_point(s) < i ==> {
            &&& split_point(cut(s, i)) == split_point(s)
            &&& cut(s, i).take(split_point(s)) == s.take(split_point(s))
            &&& cut(s, i).skip(split_point(s) + 1) == cut(
                s.skip(split_point(s) + 1),
                i - split_point(s) - 1,
            )
        },
        split_point(s) > i ==> {
            &&& split_point(cut(s, i)) == split_point(s) - 2
            &&& cut(s, i).take(split_point(s) - 2) == cut(s.take(split_point(s)), i)
            &&& cut(s, i).skip(split_point(s) - 1) == s.skip(split_point(s) + 1)
        },
{
    let next = cut(s, i);
    let p = split_point(s);
    lemma_split_point(s);
    let q = if p < i {
        p
    } else {
        p - 2
    };
    lemma_split_point_is(next, q);
}

/// The parts of a list before and behind a connective can be read like
/// the list.
pub proof fn lemma_alternates_parts(s: Seq<Group>, p: int)
    requires
        alternates(s),
        plain(s),
        0 <= p < s.len(),
        class_of(s[p]) == Class::Connective,
    ensures
        alternates(s.take(p)),
        plain(s.take(p)),
        alternates(s.skip(p + 1)),
        plain(s.skip(p + 1)),
{
    lemma_states(s, p);
    lemma_states(s, p + 1);
}

/// A list without a connective and without parentheses is a row of
/// negation signs before one operand.
pub proof fn lemma_no_connective(s: Seq<Group>, k: int)
    requires
        alternates(s),
        plain(s),
        split_point(s) < 0,
        0 <= k < s.len(),
    ensures
        state_at(s, k) == Turn::Before,
        k < s.len() - 1 ==> class_of(s[k]) == Class::Negation,
        k == s.len() - 1 ==> class_of(s[k]) == Class::Operand,
    decreases k,
{
    lemma_split_point(s);
    lemma_states(s, k);
    lemma_states(s, k + 1);
    if k < s.len() - 1 {
        lemma_states(s, k + 2);
    }
}

/// Folding a negation sign with the operand behind it keeps the meaning,
/// where the sign begins an operand.
pub proof fn lemma_fold_negation(s: Seq<Group>, i: int)
    requires
        alternates(s),
        plain(s),
        0 <= i < s.len() - 1,
        s[i] == Group::Token("!"@),
        class_of(s[i + 1]) == Class::Operand,
        i == 0 || class_of(s[i - 1]) == Class::Connective,
    ensures
        meaning(wrap(s, i, i + 2)) == meaning(s),
    decreases s.len(),
{
    let next = wrap(s, i, i + 2);
    lemma_split_point(s);
    let p = split_point(s);
    if p >= 0 {
        lemma_wrap_split(s, i, i + 2);
        lemma_wrap_parts(s, i, i + 2, p);
        lemma_alternates_parts(s, p);
        if p > i {
            lemma_fold_negation(s.take(p), i);
        } else {
            let tail = s.skip(p + 1);
            let at = i - p - 1;
            lemma_fold_negation(tail, at);
        }
    } else {
        lemma_no_connective(s, 1);
        assert(s.subrange(0, 2) =~= s);
        lemma_split_point_is(next, -1);
    }
}

/// Dropping two negation signs in a row keeps the meaning, where the
/// first begins an operand.
pub proof fn lemma_drop_negations(s: Seq<Group>, i: int)
    requires
        alternates(s),
        plain(s),
        0 <= i < s.len() - 1,
        s[i] == Group::Token("!"@),
        s[i + 1] == Group::Token("!"@),
        i == 0 || class_of(s[i - 1]) == Class::Connective,
    ensures
        meaning(cut(s, i)) == meaning(s),
    decreases s.len(),
{
    lemma_split_point(s);
    let p = split_point(s);
    if p >= 0 {
        lemma_cut_parts(s, i);
        lemma_alternates_parts(s, p);
        if p > i {
            lemma_drop_negations(s.take(p), i);
        } else {
            let tail = s.skip(p + 1);
            let at = i - p - 1;
            lemma_drop_negations(tail, at);
        }
    }
}

} // verus!
