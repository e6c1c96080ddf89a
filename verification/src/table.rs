//! The truth table of a formula: one row for each combination of truth
//! values, and what the rows tell of the formula.

use vstd::prelude::*;
use crate::enumeration::{after, lemma_number, lemma_successor, number};
use crate::expression::{defined, truth, Expr};
use crate::var_values::{names_of, values_of, Binding, VarValues};

verus! {

/// A row of a truth table: the truth values of the variables and that of
/// the formula.
#[derive(Debug, PartialEq, Eq)]
pub struct Row {
    pub values: Vec<bool>,
    pub result: bool,
}

/// What a truth table tells of its formula.
#[derive(Clone, Copy, Debug, PartialEq, Eq, Structural)]
pub enum Flag {
    /// True in every row.
    Tautology,
    /// False in every row.
    Contradiction,
    /// True in one row and false in another.
    Neither,
}

/// The assignment that gives to each of `names` the value at its place
/// among `values`.
pub open spec fn bind(names: Seq<Seq<char>>, values: Seq<bool>) -> Seq<Binding> {
    Seq::new(names.len(), |i: int| (names[i], values[i]))
}

/// An assignment binds its names to its values.
pub proof fn lemma_bind(a: Seq<Binding>)
    ensures
        a == bind(names_of(a), values_of(a)),
{
}

/// The rows of the truth table of `expr`, from the combination that
/// `var_values` holds down to all `false`: the walk goes on as long as
/// `advance` tells that combinations remain.
pub fn truth_table(expr: &Expr, var_values: VarValues) -> (rows: Vec<Row>)
    requires
        var_values.well_formed(),
        var_values@.len() > 0,
        defined(expr@, names_of(var_values@)),
    ensures
        rows.len() == number(values_of(var_values@)) + 1,
        forall|k: int|
            0 <= k < rows.len() ==> {
                let values = after(values_of(var_values@), k as nat);
                &&& (#[trigger] rows[k]).values@ == values
                &&& rows[k].result == truth(expr@, bind(names_of(var_values@), values))
            },
{
    let ghost names = names_of(var_values@);
    let ghost first = values_of(var_values@);
    let mut current = var_values;
    let mut rows: Vec<Row> = Vec::new();
    loop
        invariant_except_break
            current.well_formed(),
            current@.len() > 0,
            names_of(current@) == names,
            defined(expr@, names),
            rows.len() <= number(first),
            values_of(current@) == after(first, rows.len() as nat),
            number(values_of(current@)) + rows.len() == number(first),
        invariant
            forall|k: int|
                0 <= k < rows.len() ==> {
                    let values = after(first, k as nat);
                    &&& (#[trigger] rows[k]).values@ == values
                    &&& rows[k].result == truth(expr@, bind(names, values))
                },
        ensures
            rows.len() == number(first) + 1,
            forall|k: int|
                0 <= k < rows.len() ==> {
                    let values = after(first, k as nat);
                    &&& (#[trigger] rows[k]).values@ == values
                    &&& rows[k].result == truth(expr@, bind(names, values))
                },
        decreases number(values_of(current@)),
    {
        let ghost before = current@;
        proof {
            lemma_bind(before);
            lemma_successor(values_of(before));
            lemma_number(values_of(before));
        }
        let row = Row { values: current.values(), result: expr.evaluate(&current) };
        rows.push(row);
        let more = current.advance();
        if !more {
            break ;
        }
    }
    rows
}

/// What the rows of a truth table tell of its formula.
pub fn classify(rows: &Vec<Row>) -> (flag: Flag)
    requires
        rows.len() > 0,
    ensures
        flag == Flag::Tautology <==> forall|k: int| 0 <= k < rows.len() ==> rows[k].result,
        flag == Flag::Contradiction <==> forall|k: int| 0 <= k < rows.len() ==> !rows[k].result,
{
    let mut tautology = true;
    let mut contradiction = true;
    let mut i: usize = 0;
    while i < rows.len()
        invariant
            i <= rows.len(),
            tautology <==> forall|k: int| 0 <= k < i ==> rows[k].result,
            contradiction <==> forall|k: int| 0 <= k < i ==> !rows[k].result,
        decreases rows.len() - i,
    {
        if rows[i].result {
            contradiction = false;
        } else {
            tautology = false;
        }
        i += 1;
    }
    assert(!(tautology && contradiction)) by {
        if tautology && contradiction {
            assert(rows[0].result);
        }
    }
    if tautology {
        Flag::Tautology
    } else if contradiction {
        Flag::Contradiction
    } else {
        Flag::Neither
    }
}

} // verus!
