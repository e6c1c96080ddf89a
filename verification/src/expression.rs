//! The expression tree of a propositional formula and its truth value under
//! an assignment.

use vstd::prelude::*;
use crate::var_values::{names_of, value_of, Binding, VarValues};

verus! {

/// The four binary connectives.
#[derive(Clone, Copy, Debug, PartialEq, Eq, Structural)]
pub enum BinOpType {
    And,
    Or,
    Implies,
    Iff,
}

/// A formula: a variable, a negation, or two formulas joined by a
/// connective.
#[derive(Debug, PartialEq, Eq)]
pub enum Expr {
    Var(String),
    BinOp(BinOpType, Box<Expr>, Box<Expr>),
    Not(Box<Expr>),
}

/// A formula as a mathematical value.
pub enum Formula {
    Var(Seq<char>),
    BinOp(BinOpType, Box<Formula>, Box<Formula>),
    Not(Box<Formula>),
}

/// The mathematical value of an expression.
pub open spec fn formula_of(e: Expr) -> Formula
    decreases e,
{
    match e {
        Expr::Var(name) => Formula::Var(name@),
        Expr::BinOp(kind, left, right) => Formula::BinOp(
            kind,
            Box::new(formula_of(*left)),
            Box::new(formula_of(*right)),
        ),
        Expr::Not(operand) => Formula::Not(Box::new(formula_of(*operand))),
    }
}

impl View for Expr {
    type V = Formula;

    open spec fn view(&self) -> Formula {
        formula_of(*self)
    }
}

/// What a connective makes of the truth values of its operands.
pub open spec fn connect(kind: BinOpType, l: bool, r: bool) -> bool {
    match kind {
        BinOpType::And => l && r,
        BinOpType::Or => l || r,
        BinOpType::Implies => l ==> r,
        BinOpType::Iff => l == r,
    }
}

/// The truth value of `f` under the assignment `a`.
pub open spec fn truth(f: Formula, a: Seq<Binding>) -> bool
    decreases f,
{
    match f {
        Formula::Var(name) => value_of(a, name),
        Formula::BinOp(kind, left, right) => connect(kind, truth(*left, a), truth(*right, a)),
        Formula::Not(operand) => !truth(*operand, a),
    }
}

/// Whether every variable of `f` is one of `names`.
pub open spec fn defined(f: Formula, names: Seq<Seq<char>>) -> bool
    decreases f,
{
    match f {
        Formula::Var(name) => names.contains(name),
        Formula::BinOp(_, left, right) => defined(*left, names) && defined(*right, names),
        Formula::Not(operand) => defined(*operand, names),
    }
}

/// Conjunction.
pub fn and(l: bool, r: bool) -> (b: bool)
    ensures
        b == (l && r),
{
    l && r
}

/// Disjunction.
pub fn or(l: bool, r: bool) -> (b: bool)
    ensures
        b == (l || r),
{
    l || r
}

/// Negation of the right operand; the left one is ignored, so that the
/// function has the shape of the binary connectives.
pub fn not(_l: bool, r: bool) -> (b: bool)
    ensures
        b == !r,
{
    !r
}

/// Material implication.
pub fn implies(l: bool, r: bool) -> (b: bool)
    ensures
        b == (l ==> r),
{
    !l || r
}

/// Equivalence.
pub fn iff(l: bool, r: bool) -> (b: bool)
    ensures
        b == (l == r),
{
    l == r
}

impl Expr {
    /// The truth value of the formula under `var_values`, which binds each
    /// of its variables. Of two operands the left one is evaluated first.
    pub fn evaluate(&self, var_values: &VarValues) -> (value: bool)
        requires
            var_values.well_formed(),
            defined(self@, names_of(var_values@)),
        ensures
            value == truth(self@, var_values@),
        decreases self,
    {
        match self {
            Expr::Var(name) => var_values.get_value(name.as_str()),
            Expr::Not(operand) => !operand.evaluate(var_values),
            Expr::BinOp(kind, left, right) => {
                let l = left.evaluate(var_values);
                let r = right.evaluate(var_values);
                match kind {
                    BinOpType::And => and(l, r),
                    BinOpType::Or => or(l, r),
                    BinOpType::Implies => implies(l, r),
                    BinOpType::Iff => iff(l, r),
                }
            },
        }
    }
}

} // verus!
