use vstd::prelude::*;
use crate::ids::{NodeKind, ParamId};
use crate::params::ParamValue;

verus! {

/// How a computation folds the values it reads.
#[derive(Clone, Copy, Debug, PartialEq, Eq, Structural)]
pub enum Combine {
    /// `constant + v0 + v1 + ...`, wrapping.
    Sum,
    /// `constant * v0 * v1 * ...`, wrapping.
    Product,
}

/// A registered computation: it reads `inputs` in order and folds their
/// values into its start value with `combine`. The start value is
/// `constant`, with the integer of the node's argument folded in first where
/// `with_arg` holds, so each argument of one function has its own value.
#[derive(Debug)]
pub struct Recipe {
    pub combine: Combine,
    pub constant: i64,
    pub with_arg: bool,
    pub inputs: Vec<NodeKind>,
}

/// The integer an argument value stands for: 0 for `Unit` and `false`, 1 for
/// `true`, the number itself for `Int`.
pub open spec fn arg_int(v: ParamValue) -> i64 {
    match v {
        ParamValue::Unit => 0,
        ParamValue::Bool(b) => if b {
            1
        } else {
            0
        },
        ParamValue::Int(n) => n,
    }
}

/// The integer of the argument interned under `p`; 0 where none is.
pub open spec fn param_int(par: Seq<ParamValue>, p: ParamId) -> i64 {
    if (p.index as int) < par.len() {
        arg_int(par[p.index as int])
    } else {
        0
    }
}

/// Where a computation of `r` on an argument whose integer is `arg` starts
/// its fold.
pub open spec fn start_value(r: Recipe, arg: i64) -> i64 {
    if r.with_arg {
        step(r.combine, r.constant, arg)
    } else {
        r.constant
    }
}

impl ParamValue {
    pub fn as_int(&self) -> (r: i64)
        ensures
            r == arg_int(*self),
    {
        match self {
            ParamValue::Unit => 0,
            ParamValue::Bool(b) => if *b {
                1
            } else {
                0
            },
            ParamValue::Int(n) => *n,
        }
    }
}

pub open spec fn step(c: Combine, acc: i64, v: i64) -> i64 {
    match c {
        Combine::Sum => acc.wrapping_add(v),
        Combine::Product => acc.wrapping_mul(v),
    }
}

/// The value of a computation whose reads returned `vals`.
pub open spec fn fold_values(c: Combine, constant: i64, vals: Seq<i64>) -> i64
    decreases vals.len(),
{
    if vals.len() == 0 {
        constant
    } else {
        step(c, fold_values(c, constant, vals.drop_last()), vals.last())
    }
}

pub fn apply_step(c: Combine, acc: i64, v: i64) -> (r: i64)
    ensures
        r == step(c, acc, v),
{
    match c {
        Combine::Sum => acc.wrapping_add(v),
        Combine::Product => acc.wrapping_mul(v),
    }
}

/// Folding one more value onto a prefix.
pub proof fn lemma_fold_push(c: Combine, constant: i64, vals: Seq<i64>, v: i64)
    ensures
        fold_values(c, constant, vals.push(v)) == step(c, fold_values(c, constant, vals), v),
{
    assert(vals.push(v).drop_last() =~= vals);
}

} // verus!
