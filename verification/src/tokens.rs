//! The tokenizer: from the characters of a formula to its tokens.

use vstd::prelude::*;
use vstd::string::*;
use crate::text::{chars_of, is_letter, letter};

verus! {

/// `String::push`: the character is appended.
pub assume_specification[ String::push ](s: &mut String, ch: char)
    ensures
        final(s)@ == old(s)@.push(ch),
;


/// A character that may occur in a formula.
pub open spec fn is_formula_char(c: char) -> bool {
    is_letter(c) || c == ' ' || c == '&' || c == '|' || c == '!' || c == '(' || c == ')'
        || c == '<' || c == '=' || c == '>'
}

/// The tokenizer between two characters: the tokens that are complete, the
/// token that is being read, and the character read last.
pub struct Lexer {
    pub done: Seq<Seq<char>>,
    pub pending: Seq<char>,
    pub last: Option<char>,
}

/// The complete tokens `done`, with the pending one where there is one.
pub open spec fn flush(done: Seq<Seq<char>>, pending: Seq<char>) -> Seq<Seq<char>> {
    if pending.len() > 0 {
        done.push(pending)
    } else {
        done
    }
}

/// The tokenizer behind the character `c`.
///
/// Spaces only separate. A letter continues the pending token directly
/// behind a letter and begins a new one elsewhere. Each of `&`, `|`, `!`,
/// `(`, `)` is a token by itself. `<` begins a token, `=` continues one
/// directly behind `<` and begins one elsewhere, and `>` ends the pending
/// token, of which it is the last character. A character that may not
/// occur in a formula is taken as `>` is.
pub open spec fn feed(st: Lexer, c: char) -> Lexer {
    let last = Some(c);
    if c == ' ' {
        Lexer { done: st.done, pending: st.pending, last }
    } else if is_letter(c) {
        if st.last is Some && !is_letter(st.last->0) {
            Lexer { done: flush(st.done, st.pending), pending: seq![c], last }
        } else {
            Lexer { done: st.done, pending: st.pending.push(c), last }
        }
    } else if c == '&' || c == '|' || c == '!' || c == '(' || c == ')' {
        Lexer { done: flush(st.done, st.pending).push(seq![c]), pending: Seq::empty(), last }
    } else if c == '<' {
        Lexer { done: flush(st.done, st.pending), pending: seq![c], last }
    } else if c == '=' {
        if st.last == Some('<') {
            Lexer { done: st.done, pending: st.pending.push(c), last }
        } else {
            Lexer { done: flush(st.done, st.pending), pending: seq![c], last }
        }
    } else {
        Lexer { done: st.done.push(st.pending.push(c)), pending: Seq::empty(), last }
    }
}

/// The tokenizer behind the whole of `text`.
pub open spec fn lex(text: Seq<char>) -> Lexer
    decreases text.len(),
{
    if text.len() == 0 {
        Lexer { done: Seq::empty(), pending: Seq::empty(), last: None }
    } else {
        feed(lex(text.drop_last()), text.last())
    }
}

/// The tokens of `text`, in order.
pub open spec fn tokens(text: Seq<char>) -> Seq<Seq<char>> {
    flush(lex(text).done, lex(text).pending)
}

/// Moves the pending token, if there is one, behind the complete ones.
fn flush_part(parts: &mut Vec<String>, part: &mut String)
    ensures
        final(parts).deep_view() == flush(old(parts).deep_view(), old(part)@),
        final(part)@ == Seq::<char>::empty(),
{
    if !part.as_str().is_empty() {
        let mut whole = String::new();
        std::mem::swap(part, &mut whole);
        parts.push(whole);
    }
}

/// Splits a formula into its tokens: identifiers, operators and
/// parentheses, in the order of the text. Spaces are dropped. The text
/// holds no character that may not occur in a formula.
pub fn split(from: &str) -> (parts: Vec<String>)
    requires
        forall|i: int| 0 <= i < from@.len() ==> is_formula_char(#[trigger] from@[i]),
    ensures
        parts.deep_view() == tokens(from@),
{
    let chars = chars_of(from);
    let mut parts: Vec<String> = Vec::new();
    let mut part = String::new();
    let mut last: Option<char> = None;
    let mut i: usize = 0;
    assert(parts.deep_view() =~= Seq::<Seq<char>>::empty());
    while i < chars.len()
        invariant
            i <= chars.len(),
            chars@ == from@,
            lex(chars@.take(i as int)) == (Lexer {
                done: parts.deep_view(),
                pending: part@,
                last,
            }),
        decreases chars.len() - i,
    {
        let ch = chars[i];
        assert(chars@.take(i + 1).drop_last() =~= chars@.take(i as int));
        if ch == ' ' {
            // a space only parts what stands before it from what follows
        } else if letter(ch) {
            let after_other = match last {
                Some(l) => !letter(l),
                None => false,
            };
            if after_other {
                flush_part(&mut parts, &mut part);
            }
            part.push(ch);
        } else if ch == '&' || ch == '|' || ch == '!' || ch == '(' || ch == ')' {
            flush_part(&mut parts, &mut part);
            let ghost flushed = parts.deep_view();
            let mut single = String::new();
            single.push(ch);
            parts.push(single);
            assert(parts.deep_view() =~= flushed.push(seq![ch]));
        } else if ch == '<' {
            flush_part(&mut parts, &mut part);
            part.push(ch);
        } else if ch == '=' {
            let behind_less = match last {
                Some(l) => l == '<',
                None => false,
            };
            if !behind_less {
                flush_part(&mut parts, &mut part);
            }
            part.push(ch);
        } else {
            let ghost done = parts.deep_view();
            part.push(ch);
            let mut whole = String::new();
            std::mem::swap(&mut part, &mut whole);
            parts.push(whole);
            assert(parts.deep_view() =~= done.push(whole@));
        }
        last = Some(ch);
        i += 1;
    }
    assert(chars@.take(i as int) =~= chars@);
    flush_part(&mut parts, &mut part);
    parts
}

/// A token that begins with a letter names a variable.
pub open spec fn is_name(t: Seq<char>) -> bool {
    t.len() > 0 && is_letter(t[0])
}

/// The names among `toks`, each once, in the order in which they first
/// occur.
pub open spec fn names(toks: Seq<Seq<char>>) -> Seq<Seq<char>>
    decreases toks.len(),
{
    if toks.len() == 0 {
        Seq::empty()
    } else {
        let before = names(toks.drop_last());
        let t = toks.last();
        if is_name(t) && !before.contains(t) {
            before.push(t)
        } else {
            before
        }
    }
}

/// Every name among the tokens is listed, once.
pub proof fn lemma_names(toks: Seq<Seq<char>>)
    ensures
        forall|t: Seq<char>| is_name(t) && #[trigger] toks.contains(t) ==> names(toks).contains(t),
        forall|t: Seq<char>| #[trigger]
            names(toks).contains(t) ==> is_name(t) && toks.contains(t),
        names(toks).no_duplicates(),
    decreases toks.len(),
{
    if toks.len() != 0 {
        let rest = toks.drop_last();
        lemma_names(rest);
        assert forall|t: Seq<char>| is_name(t) && toks.contains(t) implies names(toks).contains(
            t,
        ) by {
            let i = choose|i: int| 0 <= i < toks.len() && toks[i] == t;
            if i < rest.len() {
                assert(rest[i] == t);
                assert(rest.contains(t));
                let j = choose|j: int| 0 <= j < names(rest).len() && names(rest)[j] == t;
                assert(names(toks)[j] == t);
            } else if !names(rest).contains(t) {
                assert(names(toks)[names(rest).len() as int] == t);
            }
        }
        assert forall|t: Seq<char>| names(toks).contains(t) implies is_name(t) && toks.contains(
            t,
        ) by {
            let j = choose|j: int| 0 <= j < names(toks).len() && names(toks)[j] == t;
            if j < names(rest).len() {
                assert(names(rest).contains(t));
            }
        }
    }
}

/// Whether `name` is one of `names`.
fn listed(names: &Vec<String>, name: &String) -> (b: bool)
    ensures
        b == names.deep_view().contains(name@),
{
    let mut j: usize = 0;
    while j < names.len()
        invariant
            j <= names.len(),
            forall|k: int| 0 <= k < j ==> names.deep_view()[k] != name@,
        decreases names.len() - j,
    {
        if names[j].as_str().eq(name.as_str()) {
            assert(names.deep_view()[j as int] == name@);
            return true;
        }
        j += 1;
    }
    false
}

/// The names of the variables among the tokens `parts`, each once, in the
/// order in which they first occur.
pub fn extract_names(parts: &[String]) -> (vars: Vec<String>)
    ensures
        vars.deep_view() == names(parts.deep_view()),
{
    let mut vars: Vec<String> = Vec::new();
    let mut i: usize = 0;
    while i < parts.len()
        invariant
            i <= parts.len(),
            vars.deep_view() == names(parts.deep_view().take(i as int)),
        decreases parts.len() - i,
    {
        let part = &parts[i];
        assert(parts.deep_view().take(i + 1).drop_last() =~= parts.deep_view().take(i as int));
        if !part.as_str().is_empty() && letter(part.as_str().get_char(0)) && !listed(&vars, part) {
            vars.push(part.clone());
        }
        i += 1;
    }
    assert(parts.deep_view().take(i as int) =~= parts.deep_view());
    vars
}

} // verus!
