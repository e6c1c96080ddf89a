//! Groups: the nodes of the tree that the reducer builds out of the tokens.

use vstd::prelude::*;
use vstd::string::*;

verus! {

/// `str`'s `==`: two strings are equal where they hold the same characters.
pub assume_specification[ <str as PartialEq>::eq ](a: &str, b: &str) -> (same: bool)
    ensures
        same == (a@ == b@),
;

/// A group as a mathematical value: a token, or a sequence of groups.
pub enum Group {
    Token(Seq<char>),
    List(Seq<Group>),
}

/// A node of the tree that the reducer builds: a token, or the nodes that
/// were folded into one.
#[derive(Debug, PartialEq, Eq)]
pub enum Parsing {
    Token(String),
    SubList(Vec<Parsing>),
}

/// The mathematical value of a node.
pub open spec fn group_of(p: Parsing) -> Group
    decreases p,
{
    match p {
        Parsing::Token(s) => Group::Token(s@),
        Parsing::SubList(l) => Group::List(
            Seq::new(
                l.len() as nat,
                |i: int|
                    if 0 <= i < l.len() {
                        group_of(l[i])
                    } else {
                        arbitrary()
                    },
            ),
        ),
    }
}

/// The mathematical values of the nodes of `v`, in order.
pub open spec fn groups_of(v: Seq<Parsing>) -> Seq<Group> {
    Seq::new(v.len(), |i: int| group_of(v[i]))
}

/// A list node stands for the list of its nodes' values.
pub proof fn lemma_group_of_list(l: Vec<Parsing>)
    ensures
        group_of(Parsing::SubList(l)) == Group::List(groups_of(l@)),
{
    assert(group_of(Parsing::SubList(l))->List_0 =~= groups_of(l@));
}

/// The groups that stand for the tokens `toks`.
pub open spec fn token_groups(toks: Seq<Seq<char>>) -> Seq<Group> {
    Seq::new(toks.len(), |i: int| Group::Token(toks[i]))
}

/// The position of the first token `t` in `s`, or the length of `s` where
/// there is none.
pub open spec fn position(s: Seq<Group>, t: Seq<char>) -> int
    decreases s.len(),
{
    if s.len() == 0 || s[0] == Group::Token(t) {
        0
    } else {
        1 + position(s.drop_first(), t)
    }
}

/// The position of the last token `t` in `s`, or -1 where there is none.
pub open spec fn last_position(s: Seq<Group>, t: Seq<char>) -> int
    decreases s.len(),
{
    if s.len() == 0 {
        -1
    } else if s.last() == Group::Token(t) {
        s.len() - 1
    } else {
        last_position(s.drop_last(), t)
    }
}

/// `position` is the least index at which the token stands.
pub proof fn lemma_position(s: Seq<Group>, t: Seq<char>)
    ensures
        0 <= position(s, t) <= s.len(),
        forall|j: int| 0 <= j < position(s, t) ==> s[j] != Group::Token(t),
        position(s, t) < s.len() ==> s[position(s, t)] == Group::Token(t),
    decreases s.len(),
{
    if s.len() != 0 && s[0] != Group::Token(t) {
        let rest = s.drop_first();
        lemma_position(rest, t);
        assert forall|j: int| 0 <= j < position(s, t) implies s[j] != Group::Token(t) by {
            if j > 0 {
                assert(s[j] == rest[j - 1]);
            }
        }
    }
}

/// The least index at which the token stands is its position.
pub proof fn lemma_position_is(s: Seq<Group>, t: Seq<char>, i: int)
    requires
        0 <= i <= s.len(),
        forall|j: int| 0 <= j < i ==> s[j] != Group::Token(t),
        i < s.len() ==> s[i] == Group::Token(t),
    ensures
        position(s, t) == i,
{
    lemma_position(s, t);
}

/// `last_position` is the greatest index at which the token stands.
pub proof fn lemma_last_position(s: Seq<Group>, t: Seq<char>)
    ensures
        -1 <= last_position(s, t) < s.len(),
        forall|j: int| last_position(s, t) < j < s.len() ==> s[j] != Group::Token(t),
        0 <= last_position(s, t) ==> s[last_position(s, t)] == Group::Token(t),
    decreases s.len(),
{
    if s.len() != 0 && s.last() != Group::Token(t) {
        let rest = s.drop_last();
        lemma_last_position(rest, t);
        assert forall|j: int| last_position(s, t) < j < s.len() implies s[j] != Group::Token(
            t,
        ) by {
            if j < s.len() - 1 {
                assert(s[j] == rest[j]);
            }
        }
    }
}

/// The greatest index at which the token stands is its last position.
pub proof fn lemma_last_position_is(s: Seq<Group>, t: Seq<char>, i: int)
    requires
        -1 <= i < s.len(),
        forall|j: int| i < j < s.len() ==> s[j] != Group::Token(t),
        0 <= i ==> s[i] == Group::Token(t),
    ensures
        last_position(s, t) == i,
{
    lemma_last_position(s, t);
}

/// `s` with the elements from `lo` up to `hi` folded into one list.
pub open spec fn wrap(s: Seq<Group>, lo: int, hi: int) -> Seq<Group> {
    s.subrange(0, lo).push(Group::List(s.subrange(lo, hi))) + s.subrange(hi, s.len() as int)
}

impl Parsing {
    /// Whether this node is the token `other`; a list is no token.
    pub fn string_eq(&self, other: &str) -> (b: bool)
        ensures
            b == (group_of(*self) == Group::Token(other@)),
    {
        match self {
            Parsing::Token(s0) => s0.as_str().eq(other),
            Parsing::SubList(_) => false,
        }
    }
}

/// Folds the nodes from `start` up to `end` into one list, which takes
/// their place.
pub fn downgrade(start: usize, end: usize, parsing: &mut Vec<Parsing>)
    requires
        start <= end <= old(parsing).len(),
    ensures
        groups_of(final(parsing)@) == wrap(groups_of(old(parsing)@), start as int, end as int),
        final(parsing).len() == old(parsing).len() - (end - start) + 1,
{
    let mut tail = parsing.split_off(end);
    let sub = parsing.split_off(start);
    parsing.push(Parsing::SubList(sub));
    parsing.append(&mut tail);
    proof {
        let before = groups_of(old(parsing)@);
        lemma_group_of_list(sub);
        assert(groups_of(sub@) =~= before.subrange(start as int, end as int));
    }
}

/// The position of the first token `token` among `parsing`.
pub fn find(parsing: &Vec<Parsing>, token: &str) -> (found: Option<usize>)
    ensures
        match found {
            Some(index) => index < parsing.len() && index == position(groups_of(parsing@), token@),
            None => position(groups_of(parsing@), token@) == parsing.len(),
        },
{
    let mut i: usize = 0;
    while i < parsing.len()
        invariant
            i <= parsing.len(),
            forall|j: int| 0 <= j < i ==> groups_of(parsing@)[j] != Group::Token(token@),
        decreases parsing.len() - i,
    {
        if parsing[i].string_eq(token) {
            proof {
                lemma_position_is(groups_of(parsing@), token@, i as int);
            }
            return Some(i);
        }
        i += 1;
    }
    proof {
        lemma_position_is(groups_of(parsing@), token@, i as int);
    }
    None
}

} // verus!
