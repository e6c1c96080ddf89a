//! The syntax check: one pass over the characters of a formula, as a finite
//! state machine that remembers what it read last and how many parentheses
//! are open.

use vstd::prelude::*;
use vstd::string::*;
use crate::text::{chars_of, is_letter, letter};

verus! {

/// What the scanner read last.
#[derive(Clone, Copy, Debug, PartialEq, Eq, Structural)]
pub enum Checking {
    /// Nothing but spaces so far.
    Start,
    /// A letter.
    AfterIdentifier,
    /// Spaces behind an identifier.
    AfterSpace,
    /// A character of an operator: one of `!`, `&`, `|`, `<`, `=`, `>`.
    AfterOperator(char),
    /// An opening parenthesis.
    AfterParenOpen,
    /// A closing parenthesis.
    AfterParenClose,
}

/// The scanner's state: what it read last, and the number of parentheses
/// that are open.
pub struct Scan {
    pub last: Checking,
    pub depth: nat,
}

/// The outcome of the syntax check, as a mathematical value.
pub enum Verdict {
    Valid,
    UnexpectedChar { index: int, ch: char },
    ExpectedAtEnd { expected: Seq<char> },
    Empty,
}

/// The outcome of the syntax check.
#[derive(Debug, PartialEq, Eq)]
pub enum SyntaxStatus {
    /// The text is a formula.
    Valid,
    /// The character `ch` at position `index` cannot stand there.
    UnexpectedChar { index: usize, ch: char },
    /// The text ends too early; `expected` describes what is missing.
    ExpectedAtEnd { expected: String },
    /// The text is empty or holds only spaces.
    Empty,
}

impl View for SyntaxStatus {
    type V = Verdict;

    open spec fn view(&self) -> Verdict {
        match self {
            SyntaxStatus::Valid => Verdict::Valid,
            SyntaxStatus::UnexpectedChar { index, ch } => Verdict::UnexpectedChar {
                index: *index as int,
                ch: *ch,
            },
            SyntaxStatus::ExpectedAtEnd { expected } => Verdict::ExpectedAtEnd {
                expected: expected@,
            },
            SyntaxStatus::Empty => Verdict::Empty,
        }
    }
}

/// The scanner before the first character.
pub open spec fn initial() -> Scan {
    Scan { last: Checking::Start, depth: 0 }
}

/// A character that begins a binary operator.
pub open spec fn begins_operator(c: char) -> bool {
    c == '&' || c == '|' || c == '<' || c == '='
}

/// The step where an operand may begin: at the start, behind an opening
/// parenthesis and behind a complete operator.
pub open spec fn step_before_operand(s: Scan, c: char) -> Option<Scan> {
    if is_letter(c) {
        Some(Scan { last: Checking::AfterIdentifier, depth: s.depth })
    } else if c == '!' {
        Some(Scan { last: Checking::AfterOperator('!'), depth: s.depth })
    } else if c == '(' {
        Some(Scan { last: Checking::AfterParenOpen, depth: s.depth + 1 })
    } else if c == ' ' {
        Some(s)
    } else {
        None
    }
}

/// The step behind an operand: behind an identifier, the spaces that follow
/// it, or a closing parenthesis. A letter continues an identifier only
/// directly behind it.
pub open spec fn step_after_operand(s: Scan, c: char) -> Option<Scan> {
    if begins_operator(c) {
        Some(Scan { last: Checking::AfterOperator(c), depth: s.depth })
    } else if c == ')' {
        if s.depth == 0 {
            None
        } else {
            Some(Scan { last: Checking::AfterParenClose, depth: (s.depth - 1) as nat })
        }
    } else if c == ' ' {
        if s.last == Checking::AfterIdentifier {
            Some(Scan { last: Checking::AfterSpace, depth: s.depth })
        } else {
            Some(s)
        }
    } else if is_letter(c) && s.last == Checking::AfterIdentifier {
        Some(s)
    } else {
        None
    }
}

/// One step of the scanner: the state behind `c`, or `None` where `c`
/// cannot stand in state `s`.
pub open spec fn step(s: Scan, c: char) -> Option<Scan> {
    match s.last {
        Checking::Start | Checking::AfterParenOpen => step_before_operand(s, c),
        Checking::AfterIdentifier | Checking::AfterSpace | Checking::AfterParenClose =>
            step_after_operand(s, c),
        Checking::AfterOperator(op) => {
            if op == '!' || op == '&' || op == '|' || op == '>' {
                step_before_operand(s, c)
            } else if op == '<' && c == '=' {
                Some(Scan { last: Checking::AfterOperator('='), depth: s.depth })
            } else if op == '=' && c == '>' {
                Some(Scan { last: Checking::AfterOperator('>'), depth: s.depth })
            } else {
                None
            }
        },
    }
}

/// What the scanner says at the end of the text.
pub open spec fn at_end(s: Scan) -> Verdict {
    if s.depth != 0 {
        Verdict::ExpectedAtEnd { expected: "')'"@ }
    } else if s.last is AfterOperator {
        Verdict::ExpectedAtEnd { expected: "identifier or '!'"@ }
    } else {
        Verdict::Valid
    }
}

/// The scan of `text` from position `from` on, in state `s`: the first
/// character that cannot stand where it does, or the verdict at the end.
pub open spec fn scan(text: Seq<char>, from: int, s: Scan) -> Verdict
    decreases text.len() - from,
{
    if from < 0 || from >= text.len() {
        at_end(s)
    } else {
        match step(s, text[from]) {
            None => Verdict::UnexpectedChar { index: from, ch: text[from] },
            Some(next) => scan(text, from + 1, next),
        }
    }
}

/// A text without any character but spaces.
pub open spec fn blank(text: Seq<char>) -> bool {
    forall|i: int| 0 <= i < text.len() ==> text[i] == ' '
}

/// The verdict on `text`.
pub open spec fn verdict(text: Seq<char>) -> Verdict {
    if blank(text) {
        Verdict::Empty
    } else {
        scan(text, 0, initial())
    }
}

/// The scan of a text never reports it as empty.
pub proof fn lemma_scan_not_empty(text: Seq<char>, from: int, s: Scan)
    ensures
        scan(text, from, s) != Verdict::Empty,
    decreases text.len() - from,
{
    if 0 <= from < text.len() {
        match step(s, text[from]) {
            None => {},
            Some(next) => {
                lemma_scan_not_empty(text, from + 1, next);
            },
        }
    }
}

/// Whether `chars` holds spaces only.
fn is_blank(chars: &Vec<char>) -> (b: bool)
    ensures
        b == blank(chars@),
{
    let mut i: usize = 0;
    while i < chars.len()
        invariant
            i <= chars.len(),
            forall|j: int| 0 <= j < i ==> chars@[j] == ' ',
        decreases chars.len() - i,
    {
        if chars[i] != ' ' {
            return false;
        }
        i += 1;
    }
    true
}

/// Checks that `expr` is a formula: identifiers of letters, the operators
/// `!`, `&`, `|`, `=>` and `<=>`, and balanced parentheses, with spaces
/// between them. Reports the first character that cannot stand where it
/// does, or what is missing at the end.
pub fn check_validity(expr: &str) -> (status: SyntaxStatus)
    ensures
        status@ == verdict(expr@),
        status@ == Verdict::Empty <==> blank(expr@),
{
    let chars = chars_of(expr);
    if is_blank(&chars) {
        return SyntaxStatus::Empty;
    }
    let mut last = Checking::Start;
    let mut paren_depth: usize = 0;
    let mut i: usize = 0;
    while i < chars.len()
        invariant
            i <= chars.len(),
            paren_depth <= i,
            last == Checking::AfterParenOpen ==> paren_depth > 0,
            chars@ == expr@,
            verdict(expr@) == scan(chars@, i as int, Scan { last, depth: paren_depth as nat }),
        decreases chars.len() - i,
    {
        let ch = chars[i];
        match last {
            Checking::Start | Checking::AfterParenOpen => {
                if letter(ch) {
                    last = Checking::AfterIdentifier;
                } else if ch == '!' {
                    last = Checking::AfterOperator(ch);
                } else if ch == '(' {
                    paren_depth += 1;
                    last = Checking::AfterParenOpen;
                } else if ch != ' ' {
                    return SyntaxStatus::UnexpectedChar { index: i, ch };
                }
            },
            Checking::AfterIdentifier | Checking::AfterSpace | Checking::AfterParenClose => {
                if ch == '&' || ch == '|' || ch == '<' || ch == '=' {
                    last = Checking::AfterOperator(ch);
                } else if ch == ')' {
                    if paren_depth == 0 {
                        return SyntaxStatus::UnexpectedChar { index: i, ch };
                    }
                    paren_depth -= 1;
                    last = Checking::AfterParenClose;
                } else if ch == ' ' {
                    if last == Checking::AfterIdentifier {
                        last = Checking::AfterSpace;
                    }
                } else if !(letter(ch) && last == Checking::AfterIdentifier) {
                    return SyntaxStatus::UnexpectedChar { index: i, ch };
                }
            },
            Checking::AfterOperator(op) => {
                if op == '!' || op == '&' || op == '|' || op == '>' {
                    if letter(ch) {
                        last = Checking::AfterIdentifier;
                    } else if ch == '!' {
                        last = Checking::AfterOperator(ch);
                    } else if ch == '(' {
                        paren_depth += 1;
                        last = Checking::AfterParenOpen;
                    } else if ch != ' ' {
                        return SyntaxStatus::UnexpectedChar { index: i, ch };
                    }
                } else if op == '<' && ch == '=' {
                    last = Checking::AfterOperator(ch);
                } else if op == '=' && ch == '>' {
                    last = Checking::AfterOperator(ch);
                } else {
                    return SyntaxStatus::UnexpectedChar { index: i, ch };
                }
            },
        }
        i += 1;
    }
    if paren_depth != 0 {
        return SyntaxStatus::ExpectedAtEnd { expected: String::from_str("')'") };
    }
    match last {
        Checking::AfterOperator(_) => SyntaxStatus::ExpectedAtEnd {
            expected: String::from_str("identifier or '!'"),
        },
        Checking::AfterParenOpen => unreached(),
        _ => SyntaxStatus::Valid,
    }
}

} // verus!
