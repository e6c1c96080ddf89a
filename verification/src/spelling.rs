//! What tokenizing and grouping keep: the tokens spell the text without
//! its spaces, and the groups spell the tokens.

use vstd::prelude::*;
use crate::group::{
    last_position, lemma_last_position, lemma_position, position, token_groups, Group,
};
use crate::parse::grouped;
use crate::reduce::{enclose, fold_parens, inner, Pass};
use crate::tokens::{feed, flush, lex, tokens};

verus! {

/// `text` without its spaces.
pub open spec fn solid(text: Seq<char>) -> Seq<char>
    decreases text.len(),
{
    if text.len() == 0 {
        Seq::empty()
    } else if text.last() == ' ' {
        solid(text.drop_last())
    } else {
        solid(text.drop_last()).push(text.last())
    }
}

/// The tokens `toks`, one behind the other.
pub open spec fn joined(toks: Seq<Seq<char>>) -> Seq<char>
    decreases toks.len(),
{
    if toks.len() == 0 {
        Seq::empty()
    } else {
        joined(toks.drop_last()) + toks.last()
    }
}

/// The tokens that the groups `s` spell: a token spells itself, a list
/// spells its groups between a pair of parentheses.
pub open spec fn spelled(s: Seq<Group>) -> Seq<Seq<char>>
    decreases s,
{
    if s.len() == 0 {
        Seq::empty()
    } else {
        spelled(s.drop_last()) + match s.last() {
            Group::Token(t) => seq![t],
            Group::List(l) => seq!["("@] + spelled(l) + seq![")"@],
        }
    }
}

/// The tokens with the pending one, one behind the other.
proof fn lemma_joined_flush(done: Seq<Seq<char>>, pending: Seq<char>)
    ensures
        joined(flush(done, pending)) == joined(done) + pending,
{
    if pending.len() > 0 {
        assert(done.push(pending).drop_last() =~= done);
    }
}

/// One token more, one behind the other.
proof fn lemma_joined_push(done: Seq<Seq<char>>, t: Seq<char>)
    ensures
        joined(done.push(t)) == joined(done) + t,
{
    assert(done.push(t).drop_last() =~= done);
}

/// The tokenizer keeps every character but the spaces, in order.
proof fn lemma_lex_spells(text: Seq<char>)
    ensures
        joined(lex(text).done) + lex(text).pending == solid(text),
    decreases text.len(),
{
    if text.len() != 0 {
        let st = lex(text.drop_last());
        let c = text.last();
        lemma_lex_spells(text.drop_last());
        lemma_joined_flush(st.done, st.pending);
        lemma_joined_push(flush(st.done, st.pending), seq![c]);
        lemma_joined_push(st.done, st.pending.push(c));
        let next = feed(st, c);
        assert(joined(next.done) + next.pending =~= if c == ' ' {
            solid(text.drop_last())
        } else {
            solid(text.drop_last()).push(c)
        });
    }
}

/// The tokens of a text, one behind the other, are the text without its
/// spaces.
pub proof fn lemma_tokens_spell_text(text: Seq<char>)
    ensures
        joined(tokens(text)) == solid(text),
{
    lemma_lex_spells(text);
    lemma_joined_flush(lex(text).done, lex(text).pending);
}

/// Two lists, one behind the other, spell what the one spells, then what
/// the other spells.
pub proof fn lemma_spelled_concat(a: Seq<Group>, b: Seq<Group>)
    ensures
        spelled(a + b) == spelled(a) + spelled(b),
    decreases b.len(),
{
    if b.len() != 0 {
        assert((a + b).drop_last() =~= a + b.drop_last());
        lemma_spelled_concat(a, b.drop_last());
    }
}

/// What one group spells.
pub proof fn lemma_spelled_one(g: Group)
    ensures
        spelled(seq![g]) == match g {
            Group::Token(t) => seq![t],
            Group::List(l) => seq!["("@] + spelled(l) + seq![")"@],
        },
{
    assert(spelled(seq![g].drop_last()) =~= Seq::<Seq<char>>::empty());
}

/// Tokens spell themselves.
pub proof fn lemma_spelled_tokens(toks: Seq<Seq<char>>)
    ensures
        spelled(token_groups(toks)) == toks,
    decreases toks.len(),
{
    if toks.len() != 0 {
        assert(token_groups(toks).drop_last() =~= token_groups(toks.drop_last()));
        lemma_spelled_tokens(toks.drop_last());
    }
}

/// Folding what stands between two parentheses keeps the spelling.
pub proof fn lemma_spelled_enclose(s: Seq<Group>, open: int, close: int)
    requires
        0 <= open < close < s.len(),
        s[open] == Group::Token("("@),
        s[close] == Group::Token(")"@),
    ensures
        spelled(enclose(s, open, close)) == spelled(s),
{
    let pre = s.take(open);
    let mid = s.subrange(open + 1, close);
    let post = s.skip(close + 1);
    let list = Group::List(mid);
    assert(s =~= pre + seq![s[open]] + mid + seq![s[close]] + post);
    assert(enclose(s, open, close) =~= pre + seq![list] + post);
    lemma_spelled_concat(pre + seq![s[open]] + mid + seq![s[close]], post);
    lemma_spelled_concat(pre + seq![s[open]] + mid, seq![s[close]]);
    lemma_spelled_concat(pre + seq![s[open]], mid);
    lemma_spelled_concat(pre, seq![s[open]]);
    lemma_spelled_concat(pre + seq![list], post);
    lemma_spelled_concat(pre, seq![list]);
    lemma_spelled_one(s[open]);
    lemma_spelled_one(s[close]);
    lemma_spelled_one(list);
    assert(spelled(pre) + seq!["("@] + spelled(mid) + seq![")"@] =~= spelled(pre) + (seq!["("@]
        + spelled(mid) + seq![")"@]));
}

/// The parenthesis pass on one list keeps the spelling.
pub proof fn lemma_fold_parens_spells(s: Seq<Group>)
    ensures
        spelled(fold_parens(s)) == spelled(s),
    decreases s.len(),
{
    let close = position(s, ")"@);
    lemma_position(s, ")"@);
    let open = last_position(s.take(close), "("@);
    lemma_last_position(s.take(close), "("@);
    if 0 <= open < close < s.len() {
        lemma_spelled_enclose(s, open, close);
        lemma_fold_parens_spells(enclose(s, open, close));
    }
}

/// Grouping keeps the tokens: the tree in which the parts in parentheses
/// are folded spells the tokens it was made of.
pub proof fn lemma_groups_spell_tokens(toks: Seq<Seq<char>>)
    ensures
        spelled(grouped(toks)) == toks,
{
    let flat = token_groups(toks);
    assert(inner(Pass::Braces, flat) =~= flat);
    lemma_fold_parens_spells(flat);
    lemma_spelled_tokens(toks);
}

} // verus!
