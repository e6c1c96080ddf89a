//! What the syntax check guarantees of the tokens: in the tokens of a
//! text that passed it, operands and operators take turns and the
//! parentheses match.

use vstd::prelude::*;
use crate::check_validity::{blank, initial, scan, step, verdict, Checking, Scan, Verdict};
use crate::group::{token_groups, Group};
use crate::reduce::{lemma_net_depth_split, net_depth, paren_delta};
use crate::shape::{
    alternates, class_of, is_identifier, lemma_classes, lemma_identifier_class, lemma_run_one,
    lemma_run_split, lemma_spellings, run, turn, Turn,
};
use crate::text::is_letter;
use crate::tokens::{feed, flush, is_formula_char, lex, tokens, Lexer};

verus! {

/// The scanner's state behind the first `n` characters of `text`, or
/// `None` where one of them cannot stand where it does.
pub open spec fn scanned(text: Seq<char>, n: int) -> Option<Scan>
    decreases n,
{
    if n <= 0 {
        Some(initial())
    } else {
        match scanned(text, n - 1) {
            None => None,
            Some(s) => step(s, text[n - 1]),
        }
    }
}

/// In a text that passes the check the scanner reaches every position,
/// and the rest of the text passes from there.
pub proof fn lemma_scanned(text: Seq<char>, n: int)
    requires
        scan(text, 0, initial()) == Verdict::Valid,
        0 <= n <= text.len(),
    ensures
        scanned(text, n) is Some,
        scan(text, n, scanned(text, n)->0) == Verdict::Valid,
    decreases n,
{
    if n > 0 {
        lemma_scanned(text, n - 1);
    }
}

/// How the tokenizer's state follows the scanner's: the complete tokens
/// can be read up to where the scanner stands, and the pending token is
/// what the scanner is in the middle of.
pub open spec fn in_step(sc: Scan, lx: Lexer) -> bool {
    let done = token_groups(lx.done);
    &&& net_depth(done, 0) == sc.depth
    &&& match sc.last {
        Checking::Start => lx.done.len() == 0 && lx.pending.len() == 0,
        Checking::AfterIdentifier => {
            &&& run(done, Turn::Before) == Turn::Before
            &&& is_identifier(lx.pending)
            &&& lx.last is Some
            &&& is_letter(lx.last->0)
        },
        Checking::AfterSpace => {
            &&& run(done, Turn::Before) == Turn::Before
            &&& is_identifier(lx.pending)
            &&& lx.last == Some(' ')
        },
        Checking::AfterOperator(op) => if op == '<' {
            &&& run(done, Turn::Before) == Turn::Behind
            &&& lx.pending == seq!['<']
            &&& lx.last == Some('<')
        } else if op == '=' {
            &&& run(done, Turn::Before) == Turn::Behind
            &&& (lx.pending == seq!['='] || lx.pending == seq!['<', '='])
        } else {
            &&& run(done, Turn::Before) == Turn::Before
            &&& lx.pending.len() == 0
        },
        Checking::AfterParenOpen => {
            &&& run(done, Turn::Before) == Turn::Before
            &&& lx.pending.len() == 0
            &&& sc.depth > 0
        },
        Checking::AfterParenClose => {
            &&& run(done, Turn::Before) == Turn::Behind
            &&& lx.pending.len() == 0
            &&& lx.last != Some('<')
        },
    }
}

/// Reading and counting one token more.
pub proof fn lemma_push_token(done: Seq<Seq<char>>, t: Seq<char>)
    ensures
        token_groups(done.push(t)) == token_groups(done).push(Group::Token(t)),
        run(token_groups(done.push(t)), Turn::Before) == turn(
            run(token_groups(done), Turn::Before),
            class_of(Group::Token(t)),
        ),
        net_depth(token_groups(done), 0) >= 0 ==> net_depth(token_groups(done.push(t)), 0)
            == net_depth(token_groups(done), 0) + paren_delta(Group::Token(t)),
{
    let g = Group::Token(t);
    let s = token_groups(done);
    assert(token_groups(done.push(t)) =~= s.push(g));
    assert(s.push(g) =~= s + seq![g]);
    lemma_run_split(s, seq![g], Turn::Before);
    lemma_run_one(g, run(s, Turn::Before));
    lemma_net_depth_split(s, seq![g], 0);
    let d = net_depth(s, 0);
    if d >= 0 {
        assert(net_depth(seq![g].drop_first(), d + paren_delta(g)) == d + paren_delta(g));
    }
}

/// One character keeps the tokenizer in step with the scanner.
pub proof fn lemma_feed(sc: Scan, lx: Lexer, c: char)
    requires
        in_step(sc, lx),
        step(sc, c) is Some,
    ensures
        in_step(step(sc, c)->0, feed(lx, c)),
        is_formula_char(c),
{
    lemma_classes();
    lemma_spellings();
    let flushed = flush(lx.done, lx.pending);
    let single = seq![c];
    let closed = lx.pending.push(c);
    lemma_push_token(lx.done, lx.pending);
    lemma_push_token(flushed, single);
    lemma_push_token(lx.done, closed);
    if is_identifier(lx.pending) {
        lemma_identifier_class(lx.pending);
    }
    assert(seq!['='].push('>') =~= seq!['=', '>']);
    assert(seq!['<', '='].push('>') =~= seq!['<', '=', '>']);
    assert(seq!['<'].push('=') =~= seq!['<', '=']);
}

/// Along a text that passes the check the tokenizer stays in step with
/// the scanner.
pub proof fn lemma_lexed(text: Seq<char>, n: int)
    requires
        scan(text, 0, initial()) == Verdict::Valid,
        0 <= n <= text.len(),
    ensures
        scanned(text, n) is Some,
        in_step(scanned(text, n)->0, lex(text.take(n))),
        scanned(text, n)->0.last is Start ==> blank(text.take(n)),
        forall|i: int| 0 <= i < n ==> is_formula_char(#[trigger] text[i]),
    decreases n,
{
    lemma_scanned(text, n);
    if n != 0 {
        lemma_lexed(text, n - 1);
        assert(text.take(n).drop_last() =~= text.take(n - 1));
        lemma_feed(scanned(text, n - 1)->0, lex(text.take(n - 1)), text[n - 1]);
    }
}

/// In the tokens of a text that passes the check, operands and operators
/// take turns and the parentheses match; and the text holds no character
/// that the tokenizer does not know.
pub proof fn lemma_valid_tokens(text: Seq<char>)
    requires
        verdict(text) == Verdict::Valid,
    ensures
        forall|i: int| 0 <= i < text.len() ==> is_formula_char(#[trigger] text[i]),
        alternates(token_groups(tokens(text))),
        net_depth(token_groups(tokens(text)), 0) == 0,
{
    let n = text.len() as int;
    lemma_lexed(text, n);
    lemma_scanned(text, n);
    assert(text.take(n) =~= text);
    let lx = lex(text);
    lemma_push_token(lx.done, lx.pending);
    if is_identifier(lx.pending) {
        lemma_identifier_class(lx.pending);
    }
}

} // verus!
